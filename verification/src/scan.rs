//! The initial walk of a folder.
//!
//! The walk asks for one directory at a time, hands out the entries it was
//! given one by one, and remembers the files. Before every directory and every
//! entry it learns whether the start it belongs to was overtaken.

use crate::text::into_queue;
use std::collections::VecDeque;
use vstd::prelude::*;

verus! {

/// An entry of a directory. `handle` is the caller's own name for it, by which
/// a directory is asked for later; `path` is the text that is shown and queued.
#[derive(Debug, PartialEq, Eq)]
pub struct ScannedEntry {
    pub path: String,
    pub is_dir: bool,
    pub handle: usize,
}

/// Model of a [`ScannedEntry`].
pub struct Entry {
    pub path: Seq<char>,
    pub is_dir: bool,
    pub handle: usize,
}

impl View for ScannedEntry {
    type V = Entry;

    open spec fn view(&self) -> Entry {
        Entry { path: self.path@, is_dir: self.is_dir, handle: self.handle }
    }
}

impl DeepView for ScannedEntry {
    type V = Entry;

    open spec fn deep_view(&self) -> Entry {
        self@
    }
}

/// What the walk wants next.
#[derive(Debug, PartialEq, Eq)]
pub enum ScanAction {
    /// List the directory with this handle and deliver its entries.
    ReadDirectory(usize),
    /// Announce this entry.
    Visit { path: String, is_dir: bool },
    /// The walk is over; these are the files it came across.
    Complete(Vec<String>),
    /// The walk was overtaken.
    Aborted,
}

/// Model of a [`ScanAction`].
pub enum ScanStep {
    ReadDirectory(usize),
    Visit { path: Seq<char>, is_dir: bool },
    Complete(Seq<Seq<char>>),
    Aborted,
}

impl View for ScanAction {
    type V = ScanStep;

    open spec fn view(&self) -> ScanStep {
        match self {
            ScanAction::ReadDirectory(handle) => ScanStep::ReadDirectory(*handle),
            ScanAction::Visit { path, is_dir } => ScanStep::Visit { path: path@, is_dir: *is_dir },
            ScanAction::Complete(files) => ScanStep::Complete(files.deep_view()),
            ScanAction::Aborted => ScanStep::Aborted,
        }
    }
}

/// A walk under way.
#[derive(Debug, PartialEq, Eq)]
pub struct Scan {
    directories: Vec<usize>,
    entries: VecDeque<ScannedEntry>,
    files: Vec<String>,
}

/// Model of a [`Scan`]: the directories still to be read, last one first, the
/// entries delivered but not yet visited, and the files found so far.
#[verifier::ext_equal]
pub struct Walk {
    pub directories: Seq<usize>,
    pub entries: Seq<Entry>,
    pub files: Seq<Seq<char>>,
}

impl View for Scan {
    type V = Walk;

    closed spec fn view(&self) -> Walk {
        Walk {
            directories: self.directories@,
            entries: self.entries.deep_view(),
            files: self.files.deep_view(),
        }
    }
}

impl Walk {
    /// A walk of the directory `root`.
    pub open spec fn of(root: usize) -> Walk {
        Walk { directories: seq![root], entries: Seq::empty(), files: Seq::empty() }
    }

    /// The walk after a directory's entries were delivered.
    pub open spec fn delivered(self, entries: Seq<Entry>) -> Walk {
        Walk { entries: self.entries + entries, ..self }
    }

    /// The walk after the entry at the front was visited.
    pub open spec fn visited(self) -> Walk {
        let entry = self.entries[0];
        Walk {
            directories: if entry.is_dir {
                self.directories.push(entry.handle)
            } else {
                self.directories
            },
            entries: self.entries.drop_first(),
            files: if entry.is_dir {
                self.files
            } else {
                self.files.push(entry.path)
            },
        }
    }

    /// What the walk wants next, and the walk after that: entries at hand come
    /// first, then the directory found last.
    pub open spec fn next(self, superseded: bool) -> (Walk, ScanStep) {
        if superseded {
            (self, ScanStep::Aborted)
        } else if self.entries.len() > 0 {
            let entry = self.entries[0];
            (self.visited(), ScanStep::Visit { path: entry.path, is_dir: entry.is_dir })
        } else if self.directories.len() > 0 {
            (
                Walk { directories: self.directories.drop_last(), ..self },
                ScanStep::ReadDirectory(self.directories.last()),
            )
        } else {
            (Walk { files: Seq::empty(), ..self }, ScanStep::Complete(self.files))
        }
    }
}

impl Scan {
    /// Starts a walk of the directory that the caller knows as `root`.
    pub fn new(root: usize) -> (scan: Scan)
        ensures
            scan@ == Walk::of(root),
    {
        let mut directories: Vec<usize> = Vec::new();
        directories.push(root);
        let scan = Scan { directories, entries: VecDeque::new(), files: Vec::new() };
        assert(scan@ =~= Walk::of(root));
        scan
    }

    /// Delivers the entries of the directory that was asked for.
    pub fn deliver(&mut self, entries: Vec<ScannedEntry>)
        ensures
            final(self)@ == old(self)@.delivered(entries.deep_view()),
    {
        let ghost all = entries@;
        let mut queue = into_queue(entries);
        self.entries.append(&mut queue);
        assert(self.entries.deep_view() =~= old(self).entries.deep_view() + Seq::new(
            all.len(),
            |i: int| all[i].deep_view(),
        ));
    }

    /// What to do next, given whether the start was overtaken.
    pub fn next(&mut self, superseded: bool) -> (action: ScanAction)
        ensures
            (final(self)@, action@) == old(self)@.next(superseded),
    {
        if superseded {
            return ScanAction::Aborted;
        }
        let ghost before = *self;
        match self.entries.pop_front() {
            Some(entry) => {
                assert(before@.entries.drop_first() =~= self.entries.deep_view());
                if entry.is_dir {
                    self.directories.push(entry.handle);
                    ScanAction::Visit { path: entry.path, is_dir: true }
                } else {
                    self.files.push(entry.path.clone());
                    assert(self.files.deep_view() =~= before@.files.push(entry.path@));
                    ScanAction::Visit { path: entry.path, is_dir: false }
                }
            },
            None => match self.directories.pop() {
                Some(handle) => ScanAction::ReadDirectory(handle),
                None => {
                    let mut files: Vec<String> = Vec::new();
                    files.append(&mut self.files);
                    assert(files@ =~= before.files@);
                    assert(self.files.deep_view() =~= Seq::empty());
                    ScanAction::Complete(files)
                },
            },
        }
    }
}

/// One exchange with a walk: what was delivered to it, if anything, and whether
/// its start was overtaken when it was asked what it wants next.
pub struct ScanTurn {
    pub delivered: Seq<Entry>,
    pub superseded: bool,
}

impl Walk {
    pub open spec fn turn(self, turn: ScanTurn) -> (Walk, ScanStep) {
        self.delivered(turn.delivered).next(turn.superseded)
    }

    /// The walk after a number of exchanges.
    pub open spec fn after(self, turns: Seq<ScanTurn>) -> Walk
        decreases turns.len(),
    {
        if turns.len() == 0 {
            self
        } else {
            self.after(turns.drop_last()).turn(turns.last()).0
        }
    }

    /// What the walk wanted in each of a number of exchanges.
    pub open spec fn steps(self, turns: Seq<ScanTurn>) -> Seq<ScanStep>
        decreases turns.len(),
    {
        if turns.len() == 0 {
            Seq::empty()
        } else {
            self.steps(turns.drop_last()).push(self.after(turns.drop_last()).turn(turns.last()).1)
        }
    }
}

/// Everything delivered in a number of exchanges, in order.
pub open spec fn all_delivered(turns: Seq<ScanTurn>) -> Seq<Entry>
    decreases turns.len(),
{
    if turns.len() == 0 {
        Seq::empty()
    } else {
        all_delivered(turns.drop_last()) + turns.last().delivered
    }
}

/// The paths of the entries that are no directories, in order.
pub open spec fn files_among(entries: Seq<Entry>) -> Seq<Seq<char>>
    decreases entries.len(),
{
    if entries.len() == 0 {
        Seq::empty()
    } else if entries.last().is_dir {
        files_among(entries.drop_last())
    } else {
        files_among(entries.drop_last()).push(entries.last().path)
    }
}

/// The handles of the entries that are directories, in order.
pub open spec fn directories_among(entries: Seq<Entry>) -> Seq<usize>
    decreases entries.len(),
{
    if entries.len() == 0 {
        Seq::empty()
    } else if entries.last().is_dir {
        directories_among(entries.drop_last()).push(entries.last().handle)
    } else {
        directories_among(entries.drop_last())
    }
}

/// The directories that were asked for, in order.
pub open spec fn directories_read(steps: Seq<ScanStep>) -> Seq<usize>
    decreases steps.len(),
{
    if steps.len() == 0 {
        Seq::empty()
    } else {
        match steps.last() {
            ScanStep::ReadDirectory(handle) => directories_read(steps.drop_last()).push(handle),
            _ => directories_read(steps.drop_last()),
        }
    }
}

/// The entries that were announced, in order, as path and kind.
pub open spec fn announced(steps: Seq<ScanStep>) -> Seq<(Seq<char>, bool)>
    decreases steps.len(),
{
    if steps.len() == 0 {
        Seq::empty()
    } else {
        match steps.last() {
            ScanStep::Visit { path, is_dir } => announced(steps.drop_last()).push((path, is_dir)),
            _ => announced(steps.drop_last()),
        }
    }
}

/// The entries of a sequence, as path and kind.
pub open spec fn shown(entries: Seq<Entry>) -> Seq<(Seq<char>, bool)> {
    entries.map_values(|entry: Entry| (entry.path, entry.is_dir))
}

/// Whether a walk has been brought to its end in one of the steps.
pub open spec fn ended(steps: Seq<ScanStep>) -> bool {
    exists|i: int| 0 <= i < steps.len() && (#[trigger] steps[i] is Complete)
}

/// Where a walk of `root` stands: the entries visited, followed by those at
/// hand, are the entries delivered, and what was visited is accounted for.
spec fn accounted(root: usize, turns: Seq<ScanTurn>, visited: Seq<Entry>) -> bool {
    let walk = Walk::of(root).after(turns);
    let steps = Walk::of(root).steps(turns);
    &&& visited + walk.entries == all_delivered(turns)
    &&& announced(steps) == shown(visited)
    &&& walk.files == files_among(visited)
    &&& directories_read(steps).to_multiset().add(walk.directories.to_multiset()) == seq![
        root,
    ].to_multiset().add(directories_among(visited).to_multiset())
}

proof fn lemma_accounted(root: usize, turns: Seq<ScanTurn>) -> (visited: Seq<Entry>)
    requires
        !ended(Walk::of(root).steps(turns)),
    ensures
        accounted(root, turns, visited),
    decreases turns.len(),
{
    broadcast use vstd::seq_lib::group_to_multiset_ensures;
    let start = Walk::of(root);
    if turns.len() == 0 {
        let visited = Seq::<Entry>::empty();
        assert(visited + start.entries =~= all_delivered(turns));
        assert(shown(visited) =~= announced(start.steps(turns)));
        assert(Seq::<usize>::empty().to_multiset().add(start.directories.to_multiset())
            =~= seq![root].to_multiset().add(directories_among(visited).to_multiset()));
        visited
    } else {
        let earlier = turns.drop_last();
        let steps = start.steps(turns);
        assert(steps.drop_last() =~= start.steps(earlier));
        assert forall|i: int| 0 <= i < start.steps(earlier).len() implies !((#[trigger]
        start.steps(earlier)[i]) is Complete) by {
            assert(steps[i] == start.steps(earlier)[i]);
        }
        let before = lemma_accounted(root, earlier);
        let walk = start.after(earlier).delivered(turns.last().delivered);
        assert(before + walk.entries =~= all_delivered(turns));
        assert(!(steps.last() is Complete)) by {
            assert(steps[steps.len() - 1] == steps.last());
        }
        if !turns.last().superseded && walk.entries.len() > 0 {
            let visited = before.push(walk.entries[0]);
            assert(visited.drop_last() =~= before);
            assert(visited + walk.visited().entries =~= before + walk.entries);
            assert(shown(visited) =~= shown(before).push(
                (walk.entries[0].path, walk.entries[0].is_dir),
            ));
            lemma_account_balances(
                directories_read(steps),
                walk.directories,
                seq![root],
                directories_among(before),
                walk.entries[0].handle,
            );
            visited
        } else {
            if !turns.last().superseded {
                lemma_account_moves(
                    directories_read(steps.drop_last()),
                    walk.directories,
                    seq![root],
                    directories_among(before),
                );
            }
            before
        }
    }
}

proof fn lemma_account_balances(
    read: Seq<usize>,
    pending: Seq<usize>,
    root: Seq<usize>,
    found: Seq<usize>,
    handle: usize,
)
    requires
        read.to_multiset().add(pending.to_multiset()) == root.to_multiset().add(
            found.to_multiset(),
        ),
    ensures
        read.to_multiset().add(pending.push(handle).to_multiset()) == root.to_multiset().add(
            found.push(handle).to_multiset(),
        ),
{
    broadcast use vstd::seq_lib::group_to_multiset_ensures;
    assert(read.to_multiset().add(pending.push(handle).to_multiset()) =~= read.to_multiset().add(
        pending.to_multiset(),
    ).insert(handle));
    assert(root.to_multiset().add(found.push(handle).to_multiset()) =~= root.to_multiset().add(
        found.to_multiset(),
    ).insert(handle));
}

proof fn lemma_account_moves(
    read: Seq<usize>,
    pending: Seq<usize>,
    root: Seq<usize>,
    found: Seq<usize>,
)
    requires
        pending.len() > 0,
        read.to_multiset().add(pending.to_multiset()) == root.to_multiset().add(
            found.to_multiset(),
        ),
    ensures
        read.push(pending.last()).to_multiset().add(pending.drop_last().to_multiset())
            == root.to_multiset().add(found.to_multiset()),
{
    broadcast use vstd::seq_lib::group_to_multiset_ensures;
    let handle = pending.last();
    assert(pending =~= pending.drop_last().push(handle));
    assert(read.push(handle).to_multiset().add(pending.drop_last().to_multiset())
        =~= read.to_multiset().add(pending.to_multiset()));
}

/// Whether the directory with the given handle is announced in exchange `k`.
pub open spec fn announces_directory(
    root: usize,
    turns: Seq<ScanTurn>,
    k: int,
    handle: usize,
) -> bool {
    let entries = Walk::of(root).after(turns.take(k)).delivered(turns[k].delivered).entries;
    &&& 0 <= k < turns.len()
    &&& entries.len() > 0
    &&& entries[0].is_dir
    &&& entries[0].handle == handle
    &&& Walk::of(root).steps(turns)[k] == ScanStep::Visit { path: entries[0].path, is_dir: true }
}

proof fn lemma_announcement_stays(root: usize, turns: Seq<ScanTurn>, k: int, handle: usize)
    requires
        turns.len() > 0,
        announces_directory(root, turns.drop_last(), k, handle),
    ensures
        announces_directory(root, turns, k, handle),
{
    let earlier = turns.drop_last();
    lemma_one_step_each(root, earlier);
    assert(earlier.take(k) =~= turns.take(k));
    assert(earlier[k] == turns[k]);
    assert(Walk::of(root).steps(turns)[k] == Walk::of(root).steps(earlier)[k]);
}

proof fn lemma_one_step_each(root: usize, turns: Seq<ScanTurn>)
    ensures
        Walk::of(root).steps(turns).len() == turns.len(),
    decreases turns.len(),
{
    if turns.len() > 0 {
        lemma_one_step_each(root, turns.drop_last());
    }
}

proof fn lemma_pending_directories_were_announced(root: usize, turns: Seq<ScanTurn>, handle: usize)
    requires
        Walk::of(root).after(turns).directories.contains(handle),
        handle != root,
    ensures
        exists|k: int| announces_directory(root, turns, k, handle),
    decreases turns.len(),
{
    if turns.len() > 0 {
        let earlier = turns.drop_last();
        let last = turns.len() - 1;
        let walk = Walk::of(root).after(earlier);
        let now = Walk::of(root).after(turns).directories;
        lemma_one_step_each(root, earlier);
        assert(turns.take(last) =~= earlier);
        let at = choose|at: int| 0 <= at < now.len() && now[at] == handle;
        if at < walk.directories.len() {
            assert(walk.directories[at] == handle);
            lemma_pending_directories_were_announced(root, earlier, handle);
            let k = choose|k: int| announces_directory(root, earlier, k, handle);
            lemma_announcement_stays(root, turns, k, handle);
        } else {
            assert(announces_directory(root, turns, last, handle));
        }
    }
}

/// A directory is announced before it is read, and so before anything in it can
/// be: what the walk asks for is its root, or a directory that it announced in an
/// earlier exchange.
pub proof fn law_directory_is_announced_before_it_is_read(
    root: usize,
    turns: Seq<ScanTurn>,
    m: int,
    handle: usize,
)
    requires
        0 <= m < turns.len(),
        Walk::of(root).steps(turns)[m] == ScanStep::ReadDirectory(handle),
    ensures
        handle == root || exists|k: int| k < m && announces_directory(root, turns, k, handle),
    decreases turns.len(),
{
    let earlier = turns.drop_last();
    let steps = Walk::of(root).steps(turns);
    lemma_one_step_each(root, earlier);
    if handle != root {
        if m < earlier.len() {
            assert(steps[m] == Walk::of(root).steps(earlier)[m]);
            law_directory_is_announced_before_it_is_read(root, earlier, m, handle);
            let k = choose|k: int| k < m && announces_directory(root, earlier, k, handle);
            lemma_announcement_stays(root, turns, k, handle);
        } else {
            let pending = Walk::of(root).after(earlier).directories;
            assert(pending[pending.len() - 1] == handle);
            lemma_pending_directories_were_announced(root, earlier, handle);
            let k = choose|k: int| announces_directory(root, earlier, k, handle);
            lemma_announcement_stays(root, turns, k, handle);
        }
    }
}

/// A walk that ends has announced every entry it was given, in the order in
/// which they came, and hands over exactly the files among them, in that order.
pub proof fn law_walk_accounts_for_every_entry(root: usize, turns: Seq<ScanTurn>)
    requires
        turns.len() > 0,
        !ended(Walk::of(root).steps(turns.drop_last())),
        Walk::of(root).steps(turns).last() is Complete,
    ensures
        announced(Walk::of(root).steps(turns)) == shown(all_delivered(turns)),
        Walk::of(root).steps(turns).last() == ScanStep::Complete(
            files_among(all_delivered(turns)),
        ),
{
    let steps = Walk::of(root).steps(turns);
    let visited = lemma_accounted(root, turns.drop_last());
    assert(steps.drop_last() =~= Walk::of(root).steps(turns.drop_last()));
    assert(visited =~= all_delivered(turns));
}

/// A walk that ends has asked exactly for its root and for every directory it
/// was given, each as often as it was given: once.
pub proof fn law_walk_reads_every_directory_once(root: usize, turns: Seq<ScanTurn>)
    requires
        turns.len() > 0,
        !ended(Walk::of(root).steps(turns.drop_last())),
        Walk::of(root).steps(turns).last() is Complete,
    ensures
        directories_read(Walk::of(root).steps(turns)).to_multiset() == seq![
            root,
        ].to_multiset().add(directories_among(all_delivered(turns)).to_multiset()),
{
    broadcast use vstd::seq_lib::group_to_multiset_ensures;
    let steps = Walk::of(root).steps(turns);
    let visited = lemma_accounted(root, turns.drop_last());
    assert(steps.drop_last() =~= Walk::of(root).steps(turns.drop_last()));
    assert(visited =~= all_delivered(turns));
    let walk = Walk::of(root).after(turns.drop_last());
    assert(directories_read(steps).to_multiset().add(walk.directories.to_multiset())
        =~= directories_read(steps).to_multiset());
}

/// A walk is aborted if and only if it was overtaken, and then it is left as it
/// was. Otherwise it takes one thing: the entry that has waited longest, or, if
/// there is none, the directory found last, or, if there is none either, its end.
pub proof fn law_walk_takes_one_thing_at_a_time(walk: Walk, superseded: bool)
    ensures
        ({
            let (after, step) = walk.next(superseded);
            &&& step is Aborted <==> superseded
            &&& superseded ==> after == walk
            &&& !superseded && walk.entries.len() > 0 ==> {
                let entry = walk.entries[0];
                &&& step == (ScanStep::Visit { path: entry.path, is_dir: entry.is_dir })
                &&& walk.entries == seq![entry] + after.entries
                &&& after.directories == walk.directories + if entry.is_dir {
                    seq![entry.handle]
                } else {
                    seq![]
                }
                &&& after.files == walk.files + if entry.is_dir {
                    seq![]
                } else {
                    seq![entry.path]
                }
            }
            &&& !superseded && walk.entries.len() == 0 && walk.directories.len() > 0 ==> {
                &&& step matches ScanStep::ReadDirectory(handle)
                &&& walk.directories == after.directories.push(handle)
                &&& after.entries.len() == 0
                &&& after.files == walk.files
            }
            &&& !superseded && walk.entries.len() == 0 && walk.directories.len() == 0 ==> step
                == ScanStep::Complete(walk.files)
        }),
{
    let (after, step) = walk.next(superseded);
    if !superseded {
        if walk.entries.len() > 0 {
            let entry = walk.entries[0];
            assert(walk.entries =~= seq![entry] + after.entries);
            assert(after.directories =~= walk.directories + if entry.is_dir {
                seq![entry.handle]
            } else {
                seq![]
            });
            assert(after.files =~= walk.files + if entry.is_dir {
                seq![]
            } else {
                seq![entry.path]
            });
        } else if walk.directories.len() > 0 {
            assert(walk.directories =~= after.directories.push(walk.directories.last()));
        }
    }
}

proof fn lemma_walk_count(root: usize, turns: Seq<ScanTurn>)
    requires
        forall|i: int| 0 <= i < turns.len() ==> !(#[trigger] turns[i]).superseded,
        !ended(Walk::of(root).steps(turns)),
    ensures
        ({
            let walk = Walk::of(root).after(turns);
            &&& walk.entries.len() <= all_delivered(turns).len()
            &&& turns.len() == 2 * (all_delivered(turns).len() - walk.entries.len()) + 1
                - walk.files.len() - walk.directories.len()
        }),
    decreases turns.len(),
{
    if turns.len() > 0 {
        let earlier = turns.drop_last();
        let steps = Walk::of(root).steps(turns);
        assert(forall|i: int| 0 <= i < earlier.len() ==> #[trigger] earlier[i] == turns[i]);
        assert(steps.drop_last() =~= Walk::of(root).steps(earlier));
        assert forall|i: int| 0 <= i < steps.drop_last().len() implies !(#[trigger]
        steps.drop_last()[i] is Complete) by {
            assert(steps[i] == steps.drop_last()[i]);
        }
        lemma_walk_count(root, earlier);
        assert(turns.last() == turns[turns.len() - 1]);
        assert(steps[steps.len() - 1] == steps.last());
    }
}

/// A walk that nothing overtakes comes to its end: it is asked once for each
/// entry, once for each directory among them and for its root, and once more.
pub proof fn law_undisturbed_walk_ends(root: usize, turns: Seq<ScanTurn>)
    requires
        forall|i: int| 0 <= i < turns.len() ==> !(#[trigger] turns[i]).superseded,
    ensures
        turns.len() > 2 * all_delivered(turns).len() + 1 ==> ended(Walk::of(root).steps(turns)),
        turns.len() > 0 && !ended(Walk::of(root).steps(turns.drop_last()))
            && Walk::of(root).steps(turns).last() is Complete ==> turns.len() == 2 + 2
            * all_delivered(turns).len() - files_among(all_delivered(turns)).len(),
{
    if !ended(Walk::of(root).steps(turns)) {
        lemma_walk_count(root, turns);
    }
    if turns.len() > 0 && !ended(Walk::of(root).steps(turns.drop_last())) && Walk::of(root).steps(
        turns,
    ).last() is Complete {
        let earlier = turns.drop_last();
        assert(forall|i: int| 0 <= i < earlier.len() ==> #[trigger] earlier[i] == turns[i]);
        lemma_walk_count(root, earlier);
        law_walk_accounts_for_every_entry(root, turns);
    }
}

} // verus!
