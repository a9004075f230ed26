//! Paths as text.

use crate::text::characters;
use vstd::prelude::*;

verus! {

pub open spec fn is_separator(c: char) -> bool {
    c == '/' || c == '\\'
}

fn is_separator_char(c: char) -> (separator: bool)
    ensures
        separator == is_separator(c),
{
    c == '/' || c == '\\'
}

/// What is left of `path` below the folder `base`; a path that does not lie
/// below `base` is left as it is.
pub open spec fn relative_path(path: Seq<char>, base: Seq<char>) -> Seq<char> {
    let rest = path.skip(base.len() as int);
    if base.len() == 0 || !base.is_prefix_of(path) {
        path
    } else if rest.len() == 0 {
        rest
    } else if is_separator(rest[0]) {
        rest.drop_first()
    } else if is_separator(base.last()) {
        rest
    } else {
        path
    }
}

/// The last component of a path.
pub open spec fn file_name(path: Seq<char>) -> Seq<char>
    decreases path.len(),
{
    if path.len() == 0 || is_separator(path.last()) {
        Seq::empty()
    } else {
        file_name(path.drop_last()).push(path.last())
    }
}

/// The path of a file relative to the folder it was found in.
pub fn get_relative_path(path: &str, base: &str) -> (relative: String)
    ensures
        relative@ == relative_path(path@, base@),
{
    let path_chars = characters(path);
    let base_chars = characters(base);
    let n: usize = base_chars.len();
    let len: usize = path_chars.len();
    if n == 0 || n > len {
        return path.to_owned();
    }
    let mut i: usize = 0;
    while i < n
        invariant
            n == base_chars.len() <= path_chars.len(),
            base_chars@ == base@,
            path_chars@ == path@,
            0 <= i <= n,
            forall|k: int| 0 <= k < i ==> base@[k] == path@[k],
        decreases n - i,
    {
        if base_chars[i] != path_chars[i] {
            return path.to_owned();
        }
        i = i + 1;
    }
    assert(base@ =~= path@.subrange(0, n as int));
    let ghost rest = path@.skip(n as int);
    if n == len {
        assert(rest =~= Seq::empty());
        return String::new();
    }
    if is_separator_char(path_chars[n]) {
        assert(rest.drop_first() =~= path@.subrange(n + 1, len as int));
        return path.substring_char(n + 1, len).to_owned();
    }
    if is_separator_char(base_chars[n - 1]) {
        assert(rest =~= path@.subrange(n as int, len as int));
        return path.substring_char(n, len).to_owned();
    }
    path.to_owned()
}

/// The last component of a path, as text.
pub fn file_name_of(path: &str) -> (name: String)
    ensures
        name@ == file_name(path@),
{
    let chars = characters(path);
    let len: usize = chars.len();
    let mut start: usize = len;
    assert(path@.subrange(len as int, len as int) =~= Seq::<char>::empty());
    assert(path@.take(len as int) =~= path@);
    assert(file_name(path@) =~= file_name(path@.take(start as int)) + path@.subrange(
        start as int,
        len as int,
    ));
    while start > 0 && !is_separator_char(chars[start - 1])
        invariant
            len == chars.len(),
            chars@ == path@,
            0 <= start <= len,
            file_name(path@) == file_name(path@.take(start as int)) + path@.subrange(
                start as int,
                len as int,
            ),
        decreases start,
    {
        proof {
            let shorter = path@.take(start - 1);
            assert(path@.take(start as int).drop_last() =~= shorter);
            assert(file_name(shorter).push(path@[start - 1]) + path@.subrange(
                start as int,
                len as int,
            ) =~= file_name(shorter) + path@.subrange(start - 1, len as int));
        }
        start = start - 1;
    }
    assert(file_name(path@.take(start as int)) =~= Seq::<char>::empty());
    path.substring_char(start, len).to_owned()
}

/// What is put below a folder is found below it again.
pub proof fn law_relative_path_undoes_join(base: Seq<char>, separator: char, name: Seq<char>)
    requires
        base.len() > 0,
        separator == '/' || separator == '\\',
    ensures
        relative_path(base.push(separator) + name, base) == name,
{
    let path = base.push(separator) + name;
    assert(base =~= path.subrange(0, base.len() as int));
    assert(path.skip(base.len() as int).drop_first() =~= name);
}

/// Below a folder that is written with a separator at its end, such as a root,
/// no further separator is taken off.
pub proof fn law_relative_path_below_a_root(base: Seq<char>, name: Seq<char>)
    requires
        base.len() > 0,
        base.last() == '/' || base.last() == '\\',
        name.len() > 0 ==> name[0] != '/' && name[0] != '\\',
    ensures
        relative_path(base + name, base) == name,
{
    let path = base + name;
    assert(base =~= path.subrange(0, base.len() as int));
    assert(path.skip(base.len() as int) =~= name);
}

/// A path that does not lie below the folder is left as it is, also where the
/// folder's name is only the beginning of another name.
pub proof fn law_path_outside_is_left_alone(path: Seq<char>, base: Seq<char>)
    requires
        ({
            ||| base.len() == 0
            ||| base.len() > path.len()
            ||| path.take(base.len() as int) != base
            ||| base.len() < path.len() && path[base.len() as int] != '/' && path[base.len() as int]
                != '\\' && base.last() != '/' && base.last() != '\\'
        }),
    ensures
        relative_path(path, base) == path,
{
    if 0 < base.len() <= path.len() && path.take(base.len() as int) != base {
        if base.is_prefix_of(path) {
            assert(path.take(base.len() as int) =~= base);
        }
    }
}

/// The folder itself has nothing left of its path.
pub proof fn law_folder_itself_has_an_empty_relative_path(base: Seq<char>)
    ensures
        relative_path(base, base).len() == 0,
{
    assert(base =~= base.subrange(0, base.len() as int));
}

/// Different paths below a folder have different relative paths.
pub proof fn law_relative_paths_tell_paths_apart(
    base: Seq<char>,
    separator: char,
    one: Seq<char>,
    other: Seq<char>,
)
    requires
        base.len() > 0,
        separator == '/' || separator == '\\',
        relative_path(base.push(separator) + one, base) == relative_path(
            base.push(separator) + other,
            base,
        ),
    ensures
        one == other,
{
    law_relative_path_undoes_join(base, separator, one);
    law_relative_path_undoes_join(base, separator, other);
}

/// The name of a file is what follows the last separator of its path, whatever
/// comes before, and the whole path where there is no separator.
pub proof fn law_file_name_follows_the_last_separator(
    directory: Seq<char>,
    separator: char,
    name: Seq<char>,
)
    requires
        separator == '/' || separator == '\\',
        forall|i: int| 0 <= i < name.len() ==> #[trigger] name[i] != '/' && name[i] != '\\',
    ensures
        file_name(directory.push(separator) + name) == name,
        file_name(name) == name,
    decreases name.len(),
{
    let path = directory.push(separator) + name;
    if name.len() == 0 {
        assert(path.last() == separator);
    } else {
        let shorter = name.drop_last();
        assert forall|i: int| 0 <= i < shorter.len() implies #[trigger] shorter[i] != '/'
            && shorter[i] != '\\' by {
            assert(shorter[i] == name[i]);
        }
        law_file_name_follows_the_last_separator(directory, separator, shorter);
        assert(path.drop_last() =~= directory.push(separator) + shorter);
        assert(path.last() == name[name.len() - 1]);
        assert(shorter.push(name.last()) =~= name);
    }
}

} // verus!
