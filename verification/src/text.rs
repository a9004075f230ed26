//! Small helpers on strings and sequences.

use std::collections::VecDeque;
use vstd::prelude::*;

verus! {

/// A `Result` of strings as a result of character sequences.
pub open spec fn result_text(result: Result<String, String>) -> Result<Seq<char>, Seq<char>> {
    match result {
        Ok(text) => Ok(text@),
        Err(error) => Err(error@),
    }
}

/// Whether two strings hold the same characters.
pub(crate) fn same_text(a: &str, b: &str) -> (same: bool)
    ensures
        same == (a@ == b@),
{
    let left = a.to_owned();
    let right = b.to_owned();
    left == right
}

/// `a` followed by `b`.
pub(crate) fn joined(a: &str, b: &str) -> (text: String)
    ensures
        text@ == a@ + b@,
{
    a.to_owned().concat(b)
}

/// The characters of a string, one by one.
pub(crate) fn characters(s: &str) -> (chars: Vec<char>)
    ensures
        chars@ == s@,
{
    let mut chars: Vec<char> = Vec::new();
    for c in it: s.chars()
        invariant
            it.seq() == s@,
            chars@ == s@.take(it.index() as int),
    {
        chars.push(c);
    }
    chars
}

/// The elements of a vector as a queue, in the same order.
pub(crate) fn into_queue<T>(items: Vec<T>) -> (queue: VecDeque<T>)
    ensures
        queue@ == items@,
{
    let ghost all = items@;
    let mut items = items;
    let mut queue: VecDeque<T> = VecDeque::new();
    while items.len() > 0
        invariant
            items@ + queue@ == all,
        decreases items.len(),
    {
        let ghost rest = items@;
        let ghost moved = queue@;
        match items.pop() {
            Some(item) => {
                queue.push_front(item);
                assert(rest.drop_last() + (seq![item] + moved) =~= rest + moved);
            },
            None => {},
        }
    }
    assert(queue@ =~= all);
    queue
}

} // verus!
