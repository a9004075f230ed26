//! Events kept for a front end that was not listening yet.
//!
//! An event that is emitted before the front end has registered is lost to it.
//! So the latest events are kept here, one for each path and no more than a
//! fixed number, for the front end to catch up on.

use crate::events::{FileChangeEvent, FileUploadStatus};
#[allow(unused_imports)]
use crate::events::{FileChange, UploadStatus};
use std::collections::VecDeque;
use vstd::prelude::*;

verus! {

/// How many file changes are kept.
pub const MAX_FILE_CHANGE_LOG: usize = 1000;

/// How many upload statuses are kept.
pub const MAX_UPLOAD_STATUS_LOG: usize = 1000;

/// The latest file changes, oldest first, one for each path.
#[derive(Debug, PartialEq, Eq)]
pub struct FileChangeLog {
    entries: VecDeque<FileChangeEvent>,
}

impl View for FileChangeLog {
    type V = Seq<FileChange>;

    closed spec fn view(&self) -> Seq<FileChange> {
        self.entries@.map_values(|event: FileChangeEvent| event@)
    }
}

/// No two entries of the log speak of the same path.
pub open spec fn paths_differ(log: Seq<FileChange>) -> bool {
    forall|i: int, j: int|
        0 <= i < j < log.len() ==> (#[trigger] log[i]).path != (#[trigger] log[j]).path
}

/// The log after an event was recorded: what it held of the same path is gone,
/// the event comes last, and if the log has grown too long its oldest entry goes.
pub open spec fn change_recorded(log: Seq<FileChange>, event: FileChange) -> Seq<FileChange> {
    let grown = log.filter(|entry: FileChange| entry.path != event.path).push(event);
    if grown.len() > MAX_FILE_CHANGE_LOG {
        grown.drop_first()
    } else {
        grown
    }
}

proof fn lemma_filter_absent(log: Seq<FileChange>, path: Seq<char>)
    requires
        forall|i: int| 0 <= i < log.len() ==> (#[trigger] log[i]).path != path,
    ensures
        log.filter(|entry: FileChange| entry.path != path) == log,
    decreases log.len(),
{
    reveal(Seq::filter);
    if log.len() > 0 {
        lemma_filter_absent(log.drop_last(), path);
        assert(log.drop_last().push(log.last()) =~= log);
    }
}

proof fn lemma_filter_one(log: Seq<FileChange>, at: int, path: Seq<char>)
    requires
        paths_differ(log),
        0 <= at < log.len(),
        log[at].path == path,
    ensures
        log.filter(|entry: FileChange| entry.path != path) == log.remove(at),
    decreases log.len(),
{
    reveal(Seq::filter);
    let shorter = log.drop_last();
    if at == log.len() - 1 {
        assert forall|i: int| 0 <= i < shorter.len() implies (#[trigger] shorter[i]).path
            != path by {
            assert(shorter[i] == log[i]);
        }
        lemma_filter_absent(shorter, path);
        assert(log.remove(at) =~= shorter);
    } else {
        assert(paths_differ(shorter)) by {
            assert forall|i: int, j: int| 0 <= i < j < shorter.len() implies (
            #[trigger] shorter[i]).path != (#[trigger] shorter[j]).path by {
                assert(shorter[i] == log[i] && shorter[j] == log[j]);
            }
        }
        lemma_filter_one(shorter, at, path);
        assert(log.last() == log[log.len() - 1]);
        assert(log.remove(at) =~= shorter.remove(at).push(log.last()));
    }
}

impl FileChangeLog {
    /// The log is never longer than it may be, and holds one entry for each path.
    pub open spec fn well_formed(self) -> bool {
        self@.len() <= MAX_FILE_CHANGE_LOG && paths_differ(self@)
    }

    pub fn new() -> (log: FileChangeLog)
        ensures
            log.well_formed(),
            log@ == Seq::<FileChange>::empty(),
    {
        let log = FileChangeLog { entries: VecDeque::new() };
        assert(log@ =~= Seq::<FileChange>::empty());
        log
    }

    pub fn len(&self) -> (len: usize)
        ensures
            len == self@.len(),
    {
        self.entries.len()
    }

    /// The entry that `index` older ones come before.
    pub fn get(&self, index: usize) -> (entry: Option<&FileChangeEvent>)
        ensures
            entry is Some <==> index < self@.len(),
            entry matches Some(event) ==> event@ == self@[index as int],
    {
        if index < self.entries.len() {
            Some(&self.entries[index])
        } else {
            None
        }
    }

    /// The entries, oldest first.
    pub fn snapshot(&self) -> (events: Vec<FileChangeEvent>)
        ensures
            events@.map_values(|event: FileChangeEvent| event@) == self@,
    {
        let mut events: Vec<FileChangeEvent> = Vec::new();
        let mut i: usize = 0;
        while i < self.entries.len()
            invariant
                0 <= i <= self.entries@.len(),
                events@.len() == i,
                forall|k: int| 0 <= k < i ==> #[trigger] events@[k]@ == self.entries@[k]@,
            decreases self.entries.len() - i,
        {
            events.push(self.entries[i].clone());
            i = i + 1;
        }
        assert(events@.map_values(|event: FileChangeEvent| event@) =~= self@);
        events
    }

    /// Records an event as the latest one.
    pub fn record(&mut self, event: FileChangeEvent)
        requires
            old(self).well_formed(),
        ensures
            final(self).well_formed(),
            final(self)@ == change_recorded(old(self)@, event@),
    {
        let ghost before = self@;
        let ghost wanted = |entry: FileChange| entry.path != event@.path;
        let mut i: usize = 0;
        while i < self.entries.len() && self.entries[i].path != event.path
            invariant
                0 <= i <= self.entries@.len(),
                before == self@,
                before.len() == self.entries@.len(),
                forall|k: int| 0 <= k < i ==> (#[trigger] before[k]).path != event@.path,
            decreases self.entries@.len() - i,
        {
            assert(before[i as int] == self.entries@[i as int]@);
            i = i + 1;
        }
        if i < self.entries.len() {
            proof {
                assert(before[i as int] == self.entries@[i as int]@);
                lemma_filter_one(before, i as int, event@.path);
            }
            let _ = self.entries.remove(i);
            assert(self@ =~= before.remove(i as int));
        } else {
            proof {
                lemma_filter_absent(before, event@.path);
            }
        }
        assert(self@ == before.filter(wanted));
        let ghost kept = self@;
        let ghost added = event@;
        proof {
            law_change_log_stays_well_formed(before, event@);
        }
        self.entries.push_back(event);
        assert(self@ =~= kept.push(added));
        if self.entries.len() > MAX_FILE_CHANGE_LOG {
            let ghost grown = self@;
            let _ = self.entries.pop_front();
            assert(self@ =~= grown.drop_first());
        }
    }
}

proof fn lemma_filter_keeps_order(log: Seq<FileChange>, path: Seq<char>)
    requires
        paths_differ(log),
    ensures
        ({
            let kept = log.filter(|entry: FileChange| entry.path != path);
            &&& paths_differ(kept)
            &&& kept.len() <= log.len()
            &&& forall|i: int| 0 <= i < kept.len() ==> (#[trigger] kept[i]).path != path
            &&& forall|i: int| 0 <= i < kept.len() ==> log.contains(#[trigger] kept[i])
        }),
    decreases log.len(),
{
    if exists|at: int| 0 <= at < log.len() && (#[trigger] log[at]).path == path {
        let at = choose|at: int| 0 <= at < log.len() && (#[trigger] log[at]).path == path;
        lemma_filter_one(log, at, path);
        let kept = log.remove(at);
        assert forall|i: int| 0 <= i < kept.len() implies (#[trigger] kept[i]).path != path
            && log.contains(kept[i]) by {
            assert(kept[i] == log[if i < at {
                i
            } else {
                i + 1
            }]);
        }
    } else {
        lemma_filter_absent(log, path);
    }
}

/// Recording an event keeps the log within its length and keeps one entry for
/// each path.
pub proof fn law_change_log_stays_well_formed(log: Seq<FileChange>, event: FileChange)
    requires
        paths_differ(log),
        log.len() <= MAX_FILE_CHANGE_LOG,
    ensures
        paths_differ(change_recorded(log, event)),
        change_recorded(log, event).len() <= MAX_FILE_CHANGE_LOG,
{
    lemma_filter_keeps_order(log, event.path);
    let kept = log.filter(|entry: FileChange| entry.path != event.path);
    let grown = kept.push(event);
    assert(paths_differ(grown));
    assert(paths_differ(grown.drop_first()));
}

/// The event recorded last is the last entry of the log, and every other entry
/// is one that the log held before.
pub proof fn law_recorded_change_comes_last(log: Seq<FileChange>, event: FileChange)
    requires
        paths_differ(log),
    ensures
        change_recorded(log, event).len() > 0,
        change_recorded(log, event).last() == event,
        forall|i: int|
            0 <= i < change_recorded(log, event).len() - 1 ==> log.contains(
                #[trigger] change_recorded(log, event)[i],
            ),
{
    lemma_filter_keeps_order(log, event.path);
    let kept = log.filter(|entry: FileChange| entry.path != event.path);
    let now = change_recorded(log, event);
    assert forall|i: int| 0 <= i < now.len() - 1 implies log.contains(#[trigger] now[i]) by {
        let k = if kept.len() + 1 > MAX_FILE_CHANGE_LOG {
            i + 1
        } else {
            i
        };
        assert(now[i] == kept[k]);
    }
}

/// A change of a path that the log does not hold costs no other entry while
/// there is room, and the oldest one when there is none.
pub proof fn law_full_change_log_evicts_its_oldest(log: Seq<FileChange>, event: FileChange)
    requires
        forall|i: int| 0 <= i < log.len() ==> (#[trigger] log[i]).path != event.path,
        log.len() <= MAX_FILE_CHANGE_LOG,
    ensures
        log.len() < MAX_FILE_CHANGE_LOG ==> change_recorded(log, event) == log.push(event),
        log.len() == MAX_FILE_CHANGE_LOG ==> change_recorded(log, event) == log.drop_first().push(
            event,
        ),
{
    lemma_filter_absent(log, event.path);
    if log.len() == MAX_FILE_CHANGE_LOG {
        assert(log.push(event).drop_first() =~= log.drop_first().push(event));
    }
}

/// A new change of a path that the log holds takes the place of the old one,
/// at the end; no other entry is touched.
pub proof fn law_change_log_keeps_one_entry_per_path(
    log: Seq<FileChange>,
    at: int,
    event: FileChange,
)
    requires
        paths_differ(log),
        log.len() <= MAX_FILE_CHANGE_LOG,
        0 <= at < log.len(),
        log[at].path == event.path,
    ensures
        change_recorded(log, event) == log.remove(at).push(event),
{
    lemma_filter_one(log, at, event.path);
}

/// The log after a number of events were recorded, one after another.
pub open spec fn all_changes_recorded(log: Seq<FileChange>, events: Seq<FileChange>) -> Seq<
    FileChange,
>
    decreases events.len(),
{
    if events.len() == 0 {
        log
    } else {
        change_recorded(all_changes_recorded(log, events.drop_last()), events.last())
    }
}

/// The entries at the end of a sequence that a log of `max` entries has room for.
pub open spec fn latest<T>(events: Seq<T>, max: nat) -> Seq<T> {
    if events.len() > max {
        events.skip(events.len() - max)
    } else {
        events
    }
}

/// Whether one of a number of events speaks of a path.
pub open spec fn mentions(events: Seq<FileChange>, path: Seq<char>) -> bool {
    exists|i: int| 0 <= i < events.len() && (#[trigger] events[i]).path == path
}

/// The entries of a log whose paths no event speaks of.
pub open spec fn unmentioned(log: Seq<FileChange>, events: Seq<FileChange>) -> Seq<FileChange> {
    log.filter(|entry: FileChange| !mentions(events, entry.path))
}

proof fn lemma_recorded_on_the_latest(all: Seq<FileChange>, event: FileChange)
    requires
        paths_differ(all),
    ensures
        change_recorded(latest(all, MAX_FILE_CHANGE_LOG as nat), event) == latest(
            all.filter(|entry: FileChange| entry.path != event.path).push(event),
            MAX_FILE_CHANGE_LOG as nat,
        ),
{
    let max = MAX_FILE_CHANGE_LOG as nat;
    let log = latest(all, max);
    let gone = all.len() - log.len();
    assert(forall|i: int| 0 <= i < log.len() ==> #[trigger] log[i] == all[i + gone]);
    if exists|at: int| 0 <= at < all.len() && (#[trigger] all[at]).path == event.path {
        let at = choose|at: int| 0 <= at < all.len() && (#[trigger] all[at]).path == event.path;
        lemma_filter_one(all, at, event.path);
        let now = latest(all.remove(at).push(event), max);
        if at >= gone {
            assert(log[at - gone] == all[at]);
            lemma_filter_one(log, at - gone, event.path);
            assert(log.remove(at - gone).push(event) =~= now);
        } else {
            lemma_filter_absent(log, event.path);
            assert(log.push(event).drop_first() =~= now);
        }
    } else {
        lemma_filter_absent(all, event.path);
        lemma_filter_absent(log, event.path);
        let now = latest(all.push(event), max);
        if gone > 0 || all.len() == max {
            assert(log.push(event).drop_first() =~= now);
        } else {
            assert(log.push(event) =~= now);
        }
    }
}

proof fn lemma_filter_in_two<T>(
    items: Seq<T>,
    both: spec_fn(T) -> bool,
    first: spec_fn(T) -> bool,
    second: spec_fn(T) -> bool,
)
    requires
        forall|item: T| #[trigger] both(item) == (first(item) && second(item)),
    ensures
        items.filter(both) == items.filter(first).filter(second),
    decreases items.len(),
{
    reveal(Seq::filter);
    if items.len() > 0 {
        let last = items.last();
        let shorter = items.drop_last();
        lemma_filter_in_two(shorter, both, first, second);
        assert(both(last) == (first(last) && second(last)));
        if first(last) {
            assert(shorter.filter(first).push(last).drop_last() =~= shorter.filter(first));
        }
    }
}

proof fn lemma_unmentioned(log: Seq<FileChange>, events: Seq<FileChange>)
    requires
        paths_differ(log),
    ensures
        paths_differ(unmentioned(log, events)),
        forall|i: int|
            0 <= i < unmentioned(log, events).len() ==> log.contains(
                #[trigger] unmentioned(log, events)[i],
            ) && !mentions(events, unmentioned(log, events)[i].path),
    decreases log.len(),
{
    reveal(Seq::filter);
    if log.len() > 0 {
        let shorter = log.drop_last();
        assert(paths_differ(shorter)) by {
            assert forall|i: int, j: int| 0 <= i < j < shorter.len() implies (
            #[trigger] shorter[i]).path != (#[trigger] shorter[j]).path by {
                assert(shorter[i] == log[i] && shorter[j] == log[j]);
            }
        }
        lemma_unmentioned(shorter, events);
        let kept = unmentioned(shorter, events);
        assert forall|i: int| 0 <= i < kept.len() implies log.contains(#[trigger] kept[i])
            && kept[i].path != log.last().path by {
            let k = choose|k: int| 0 <= k < shorter.len() && shorter[k] == kept[i];
            assert(log[k] == kept[i]);
            assert(log[k].path != log[log.len() - 1].path);
        }
        assert(log.contains(log.last())) by {
            assert(log[log.len() - 1] == log.last());
        }
    }
}

/// Recording events that all speak of different paths leaves what the log held of
/// other paths, followed by the events, as far as the log has room for the latest
/// of them.
#[verifier::spinoff_prover]
pub proof fn law_different_changes_come_last(log: Seq<FileChange>, events: Seq<FileChange>)
    requires
        paths_differ(log),
        log.len() <= MAX_FILE_CHANGE_LOG,
        paths_differ(events),
    ensures
        all_changes_recorded(log, events) == latest(
            unmentioned(log, events) + events,
            MAX_FILE_CHANGE_LOG as nat,
        ),
    decreases events.len(),
{
    if events.len() == 0 {
        lemma_filter_all(log, |entry: FileChange| !mentions(events, entry.path));
        assert(log + events =~= log);
    } else {
        let earlier = events.drop_last();
        let event = events.last();
        let other = |entry: FileChange| entry.path != event.path;
        assert forall|i: int, j: int| 0 <= i < j < earlier.len() implies (
        #[trigger] earlier[i]).path != (#[trigger] earlier[j]).path by {
            assert(earlier[i] == events[i] && earlier[j] == events[j]);
        }
        law_different_changes_come_last(log, earlier);
        let rest = unmentioned(log, earlier);
        lemma_unmentioned_and_events_differ(log, earlier);
        lemma_recorded_on_the_latest(rest + earlier, event);
        Seq::filter_distributes_over_add(rest, earlier, other);
        assert forall|i: int| 0 <= i < earlier.len() implies (#[trigger] earlier[i]).path
            != event.path by {
            assert(earlier[i] == events[i]);
            assert(events[i].path != events[events.len() - 1].path);
        }
        lemma_filter_absent(earlier, event.path);
        lemma_unmentioned_by_one_more(log, earlier, event);
        assert(earlier.push(event) =~= events);
        assert((rest.filter(other) + earlier).push(event) =~= unmentioned(log, events) + events);
    }
}

proof fn lemma_unmentioned_and_events_differ(log: Seq<FileChange>, events: Seq<FileChange>)
    requires
        paths_differ(log),
        paths_differ(events),
    ensures
        paths_differ(unmentioned(log, events) + events),
{
    lemma_unmentioned(log, events);
    let rest = unmentioned(log, events);
    let all = rest + events;
    assert forall|i: int, j: int| 0 <= i < j < all.len() implies (#[trigger] all[i]).path != (
    #[trigger] all[j]).path by {
        if i < rest.len() {
            assert(all[i] == rest[i]);
            if j < rest.len() {
                assert(all[j] == rest[j]);
            } else {
                assert(all[j] == events[j - rest.len()]);
            }
        } else {
            assert(all[i] == events[i - rest.len()]);
            assert(all[j] == events[j - rest.len()]);
        }
    }
}

proof fn lemma_unmentioned_by_one_more(
    log: Seq<FileChange>,
    events: Seq<FileChange>,
    event: FileChange,
)
    ensures
        unmentioned(log, events.push(event)) == unmentioned(log, events).filter(
            |entry: FileChange| entry.path != event.path,
        ),
{
    let none = |entry: FileChange| !mentions(events.push(event), entry.path);
    let first = |entry: FileChange| !mentions(events, entry.path);
    let other = |entry: FileChange| entry.path != event.path;
    assert forall|entry: FileChange| #[trigger] none(entry) == (first(entry) && other(entry)) by {
        lemma_mentions_push(events, event, entry.path);
    }
    lemma_filter_in_two(log, none, first, other);
}

proof fn lemma_filter_all<T>(items: Seq<T>, wanted: spec_fn(T) -> bool)
    requires
        forall|item: T| #[trigger] wanted(item),
    ensures
        items.filter(wanted) == items,
    decreases items.len(),
{
    reveal(Seq::filter);
    if items.len() > 0 {
        lemma_filter_all(items.drop_last(), wanted);
        assert(items.drop_last().push(items.last()) =~= items);
    }
}

proof fn lemma_mentions_push(events: Seq<FileChange>, event: FileChange, path: Seq<char>)
    ensures
        mentions(events.push(event), path) == (mentions(events, path) || event.path == path),
{
    let more = events.push(event);
    if mentions(more, path) {
        let i = choose|i: int| 0 <= i < more.len() && (#[trigger] more[i]).path == path;
        assert(i < events.len() ==> events[i] == more[i]);
    }
    if mentions(events, path) {
        let i = choose|i: int| 0 <= i < events.len() && (#[trigger] events[i]).path == path;
        assert(more[i] == events[i]);
    }
    assert(more[events.len() as int] == event);
}

/// Recording a folder's entries again leaves one entry for each of them, in the
/// new order, and nothing else: where every path of the log is recorded anew, the
/// log ends up as if it had been empty.
pub proof fn law_rescan_replaces_the_change_log(log: Seq<FileChange>, events: Seq<FileChange>)
    requires
        paths_differ(log),
        log.len() <= MAX_FILE_CHANGE_LOG,
        paths_differ(events),
        forall|i: int| 0 <= i < log.len() ==> mentions(events, (#[trigger] log[i]).path),
    ensures
        all_changes_recorded(log, events) == latest(events, MAX_FILE_CHANGE_LOG as nat),
{
    law_different_changes_come_last(log, events);
    lemma_unmentioned(log, events);
    let rest = unmentioned(log, events);
    if rest.len() > 0 {
        assert(log.contains(rest[0]));
    }
    assert(rest + events =~= events);
}

/// Of events that all speak of different paths, an empty log ends up with the
/// latest ones, in order.
pub proof fn law_change_log_holds_the_latest(events: Seq<FileChange>)
    requires
        paths_differ(events),
    ensures
        all_changes_recorded(Seq::empty(), events) == latest(events, MAX_FILE_CHANGE_LOG as nat),
{
    law_rescan_replaces_the_change_log(Seq::empty(), events);
}

/// The latest upload statuses, one for each path.
#[derive(Debug, PartialEq, Eq)]
pub struct UploadStatusLog {
    entries: Vec<FileUploadStatus>,
}

impl View for UploadStatusLog {
    type V = Seq<UploadStatus>;

    closed spec fn view(&self) -> Seq<UploadStatus> {
        self.entries@.map_values(|status: FileUploadStatus| status@)
    }
}

/// Whether a status log speaks of a path.
pub open spec fn has_status(log: Seq<UploadStatus>, path: Seq<char>) -> bool {
    exists|i: int| 0 <= i < log.len() && (#[trigger] log[i]).relative_path == path
}

/// No two entries of a status log speak of the same path.
pub open spec fn statuses_differ(log: Seq<UploadStatus>) -> bool {
    forall|i: int, j: int|
        0 <= i < j < log.len() ==> (#[trigger] log[i]).relative_path != (
        #[trigger] log[j]).relative_path
}

/// The log after a status was recorded. The status of a path that the log holds
/// is replaced where it stands; that of another path comes last, and if the log
/// has grown too long its oldest entry goes.
pub open spec fn status_recorded(log: Seq<UploadStatus>, status: UploadStatus) -> Seq<
    UploadStatus,
> {
    if has_status(log, status.relative_path) {
        log.map_values(
            |entry: UploadStatus|
                if entry.relative_path == status.relative_path {
                    status
                } else {
                    entry
                },
        )
    } else if log.len() >= MAX_UPLOAD_STATUS_LOG {
        log.push(status).drop_first()
    } else {
        log.push(status)
    }
}

impl UploadStatusLog {
    /// The log is never longer than it may be, and holds one entry for each path.
    pub open spec fn well_formed(self) -> bool {
        self@.len() <= MAX_UPLOAD_STATUS_LOG && statuses_differ(self@)
    }

    pub fn new() -> (log: UploadStatusLog)
        ensures
            log.well_formed(),
            log@ == Seq::<UploadStatus>::empty(),
    {
        let log = UploadStatusLog { entries: Vec::new() };
        assert(log@ =~= Seq::<UploadStatus>::empty());
        log
    }

    pub fn len(&self) -> (len: usize)
        ensures
            len == self@.len(),
    {
        self.entries.len()
    }

    /// The entry that `index` others come before.
    pub fn get(&self, index: usize) -> (entry: Option<&FileUploadStatus>)
        ensures
            entry is Some <==> index < self@.len(),
            entry matches Some(status) ==> status@ == self@[index as int],
    {
        if index < self.entries.len() {
            Some(&self.entries[index])
        } else {
            None
        }
    }

    /// The entries, in order.
    pub fn snapshot(&self) -> (statuses: Vec<FileUploadStatus>)
        ensures
            statuses@.map_values(|status: FileUploadStatus| status@) == self@,
    {
        let mut statuses: Vec<FileUploadStatus> = Vec::new();
        let mut i: usize = 0;
        while i < self.entries.len()
            invariant
                0 <= i <= self.entries@.len(),
                statuses@.len() == i,
                forall|k: int| 0 <= k < i ==> #[trigger] statuses@[k]@ == self.entries@[k]@,
            decreases self.entries.len() - i,
        {
            statuses.push(self.entries[i].clone());
            i = i + 1;
        }
        assert(statuses@.map_values(|status: FileUploadStatus| status@) =~= self@);
        statuses
    }

    /// Records the latest status of a path.
    pub fn record(&mut self, status: FileUploadStatus)
        requires
            old(self).well_formed(),
        ensures
            final(self).well_formed(),
            final(self)@ == status_recorded(old(self)@, status@),
    {
        let ghost before = self@;
        let ghost added = status@;
        proof {
            law_status_log_stays_well_formed(before, added);
        }
        let mut i: usize = 0;
        while i < self.entries.len()
            invariant
                0 <= i <= self.entries@.len(),
                before == self@,
                before.len() == self.entries@.len(),
                added == status@,
                self.well_formed(),
                before == old(self)@,
                statuses_differ(status_recorded(before, added)),
                status_recorded(before, added).len() <= MAX_UPLOAD_STATUS_LOG,
                forall|k: int|
                    0 <= k < i ==> (#[trigger] before[k]).relative_path != added.relative_path,
            decreases self.entries@.len() - i,
        {
            assert(before[i as int] == self.entries@[i as int]@);
            if self.entries[i].relative_path == status.relative_path {
                self.entries.set(i, status);
                assert(has_status(before, added.relative_path));
                assert(self@ =~= status_recorded(before, added));
                return;
            }
            i = i + 1;
        }
        assert(!has_status(before, added.relative_path));
        self.entries.push(status);
        assert(self@ =~= before.push(added));
        if self.entries.len() > MAX_UPLOAD_STATUS_LOG {
            let _ = self.entries.remove(0);
            assert(self@ =~= before.push(added).drop_first());
        }
    }
}

/// Recording a status keeps the log within its length and keeps one entry for
/// each path.
pub proof fn law_status_log_stays_well_formed(log: Seq<UploadStatus>, status: UploadStatus)
    requires
        statuses_differ(log),
        log.len() <= MAX_UPLOAD_STATUS_LOG,
    ensures
        statuses_differ(status_recorded(log, status)),
        status_recorded(log, status).len() <= MAX_UPLOAD_STATUS_LOG,
{
    let now = status_recorded(log, status);
    if has_status(log, status.relative_path) {
        assert forall|i: int, j: int| 0 <= i < j < now.len() implies (
        #[trigger] now[i]).relative_path != (#[trigger] now[j]).relative_path by {
            assert(log[i].relative_path != log[j].relative_path);
        }
    } else {
        let grown = log.push(status);
        assert forall|i: int, j: int| 0 <= i < j < grown.len() implies (
        #[trigger] grown[i]).relative_path != (#[trigger] grown[j]).relative_path by {
            assert(grown[i] == log[i]);
            if j < log.len() {
                assert(grown[j] == log[j]);
            }
        }
        assert(statuses_differ(grown.drop_first()));
    }
}

/// A path whose status changes keeps its place, and so does every other path.
pub proof fn law_status_update_keeps_positions(
    log: Seq<UploadStatus>,
    at: int,
    status: UploadStatus,
)
    requires
        statuses_differ(log),
        0 <= at < log.len(),
        log[at].relative_path == status.relative_path,
    ensures
        status_recorded(log, status) == log.update(at, status),
{
    assert(has_status(log, status.relative_path));
    assert forall|i: int| 0 <= i < log.len() implies #[trigger] status_recorded(log, status)[i]
        == log.update(at, status)[i] by {
        if i < at {
            assert(log[i].relative_path != log[at].relative_path);
        } else if at < i {
            assert(log[at].relative_path != log[i].relative_path);
        }
    }
    assert(status_recorded(log, status) =~= log.update(at, status));
}

/// The log after a number of statuses were recorded, one after another.
pub open spec fn all_statuses_recorded(log: Seq<UploadStatus>, statuses: Seq<UploadStatus>) -> Seq<
    UploadStatus,
>
    decreases statuses.len(),
{
    if statuses.len() == 0 {
        log
    } else {
        status_recorded(all_statuses_recorded(log, statuses.drop_last()), statuses.last())
    }
}

/// Of statuses that all speak of different paths, an empty log ends up with the
/// latest ones, in order.
pub proof fn law_status_log_holds_the_latest(statuses: Seq<UploadStatus>)
    requires
        statuses_differ(statuses),
    ensures
        all_statuses_recorded(Seq::empty(), statuses) == latest(
            statuses,
            MAX_UPLOAD_STATUS_LOG as nat,
        ),
    decreases statuses.len(),
{
    let max = MAX_UPLOAD_STATUS_LOG as nat;
    if statuses.len() > 0 {
        let earlier = statuses.drop_last();
        assert forall|i: int, j: int| 0 <= i < j < earlier.len() implies (
        #[trigger] earlier[i]).relative_path != (#[trigger] earlier[j]).relative_path by {
            assert(earlier[i] == statuses[i] && earlier[j] == statuses[j]);
        }
        law_status_log_holds_the_latest(earlier);
        let log = latest(earlier, max);
        let status = statuses.last();
        assert forall|i: int| 0 <= i < log.len() implies (#[trigger] log[i]).relative_path
            != status.relative_path by {
            let k = if earlier.len() > max {
                i + (earlier.len() - max)
            } else {
                i
            };
            assert(log[i] == statuses[k]);
            assert(status == statuses[statuses.len() - 1]);
        }
        assert(!has_status(log, status.relative_path));
        assert(status_recorded(log, status) =~= latest(statuses, max));
    }
}

/// Both logs, each of them present only where events are to be kept.
#[derive(Debug, PartialEq, Eq)]
pub struct EventBacklog {
    file_changes: Option<FileChangeLog>,
    upload_statuses: Option<UploadStatusLog>,
}

/// Model of an [`EventBacklog`].
pub struct Backlog {
    pub file_changes: Option<Seq<FileChange>>,
    pub upload_statuses: Option<Seq<UploadStatus>>,
}

impl View for EventBacklog {
    type V = Backlog;

    closed spec fn view(&self) -> Backlog {
        Backlog {
            file_changes: match self.file_changes {
                Some(log) => Some(log@),
                None => None,
            },
            upload_statuses: match self.upload_statuses {
                Some(log) => Some(log@),
                None => None,
            },
        }
    }
}

impl Backlog {
    /// The logs that are present are well formed.
    pub open spec fn well_formed(self) -> bool {
        &&& self.file_changes matches Some(log) ==> log.len() <= MAX_FILE_CHANGE_LOG
            && paths_differ(log)
        &&& self.upload_statuses matches Some(log) ==> log.len() <= MAX_UPLOAD_STATUS_LOG
            && statuses_differ(log)
    }

    /// The backlog after the events of a previous watch were forgotten.
    pub open spec fn cleared(self) -> Backlog {
        Backlog {
            file_changes: match self.file_changes {
                Some(_) => Some(Seq::empty()),
                None => None,
            },
            upload_statuses: match self.upload_statuses {
                Some(_) => Some(Seq::empty()),
                None => None,
            },
        }
    }

    /// The backlog after a file change was announced.
    pub open spec fn with_change(self, event: FileChange) -> Backlog {
        Backlog {
            file_changes: match self.file_changes {
                Some(log) => Some(change_recorded(log, event)),
                None => None,
            },
            ..self
        }
    }

    /// The backlog after an upload status was announced.
    pub open spec fn with_status(self, status: UploadStatus) -> Backlog {
        Backlog {
            upload_statuses: match self.upload_statuses {
                Some(log) => Some(status_recorded(log, status)),
                None => None,
            },
            ..self
        }
    }
}

impl EventBacklog {
    /// The logs that are present are well formed.
    pub open spec fn well_formed(self) -> bool {
        self@.well_formed()
    }

    /// A backlog that keeps events of both kinds.
    pub fn managed() -> (backlog: EventBacklog)
        ensures
            backlog.well_formed(),
            backlog@ == (Backlog {
                file_changes: Some(Seq::empty()),
                upload_statuses: Some(Seq::empty()),
            }),
    {
        EventBacklog {
            file_changes: Some(FileChangeLog::new()),
            upload_statuses: Some(UploadStatusLog::new()),
        }
    }

    /// A backlog that keeps nothing.
    pub fn unmanaged() -> (backlog: EventBacklog)
        ensures
            backlog.well_formed(),
            backlog@ == (Backlog { file_changes: None, upload_statuses: None }),
    {
        EventBacklog { file_changes: None, upload_statuses: None }
    }

    /// The log of file changes, where there is one.
    pub fn file_changes(&self) -> (log: Option<&FileChangeLog>)
        ensures
            log is Some <==> self@.file_changes is Some,
            log matches Some(log) ==> Some(log@) == self@.file_changes,
    {
        self.file_changes.as_ref()
    }

    /// The log of upload statuses, where there is one.
    pub fn upload_statuses(&self) -> (log: Option<&UploadStatusLog>)
        ensures
            log is Some <==> self@.upload_statuses is Some,
            log matches Some(log) ==> Some(log@) == self@.upload_statuses,
    {
        self.upload_statuses.as_ref()
    }

    /// Forgets the events of a previous watch.
    pub fn clear(&mut self)
        ensures
            final(self).well_formed(),
            final(self)@ == old(self)@.cleared(),
    {
        if self.file_changes.is_some() {
            self.file_changes = Some(FileChangeLog::new());
        }
        if self.upload_statuses.is_some() {
            self.upload_statuses = Some(UploadStatusLog::new());
        }
    }

    /// Keeps a file change that is being announced, where changes are kept.
    pub fn emit_file_change(&mut self, event: &FileChangeEvent)
        requires
            old(self).well_formed(),
        ensures
            final(self).well_formed(),
            final(self)@ == old(self)@.with_change(event@),
    {
        match self.file_changes.take() {
            Some(log) => {
                let mut log = log;
                log.record(event.clone());
                self.file_changes = Some(log);
            },
            None => {},
        }
    }

    /// Keeps an upload status that is being announced, where statuses are kept,
    /// and hands back the event to announce.
    pub fn emit_file_upload_status(
        &mut self,
        relative_path: &str,
        status: &str,
        error: Option<String>,
    ) -> (event: FileUploadStatus)
        requires
            old(self).well_formed(),
        ensures
            event@ == (UploadStatus {
                relative_path: relative_path@,
                status: status@,
                error: error.deep_view(),
            }),
            event.relative_path@ == relative_path@,
            event.status@ == status@,
            event.error.deep_view() == error.deep_view(),
            final(self).well_formed(),
            final(self)@ == old(self)@.with_status(event@),
    {
        let event = FileUploadStatus {
            relative_path: relative_path.to_owned(),
            status: status.to_owned(),
            error,
        };
        match self.upload_statuses.take() {
            Some(log) => {
                let mut log = log;
                log.record(event.clone());
                self.upload_statuses = Some(log);
            },
            None => {},
        }
        event
    }
}

/// Where changes are kept, the change announced last is the last entry, of
/// whatever type it is, and the only one of its path. The entries of other paths
/// are those that were there before, in order; if there were as many of them as
/// there is room for, the oldest one is gone. Statuses are not touched.
pub proof fn law_kept_change_is_the_latest_of_its_path(backlog: Backlog, event: FileChange)
    requires
        backlog.well_formed(),
    ensures
        backlog.with_change(event).upload_statuses == backlog.upload_statuses,
        backlog.file_changes is Some <==> backlog.with_change(event).file_changes is Some,
        backlog.file_changes matches Some(log) ==> {
            let now = backlog.with_change(event).file_changes->0;
            let others = log.filter(|entry: FileChange| entry.path != event.path);
            &&& now.len() > 0
            &&& now.last() == event
            &&& forall|i: int|
                0 <= i < now.len() - 1 ==> (#[trigger] now[i]).path != event.path
            &&& now.drop_last() == (if others.len() == MAX_FILE_CHANGE_LOG {
                others.drop_first()
            } else {
                others
            })
        },
{
    if let Some(log) = backlog.file_changes {
        lemma_filter_keeps_order(log, event.path);
        let others = log.filter(|entry: FileChange| entry.path != event.path);
        let now = backlog.with_change(event).file_changes->0;
        assert(others.push(event).drop_last() =~= others);
        if others.len() == MAX_FILE_CHANGE_LOG {
            assert(now =~= others.drop_first().push(event));
        }
        assert(now.drop_last() =~= if others.len() == MAX_FILE_CHANGE_LOG {
            others.drop_first()
        } else {
            others
        });
        assert forall|i: int| 0 <= i < now.len() - 1 implies (#[trigger] now[i]).path
            != event.path by {
            assert(now[i] == now.drop_last()[i]);
            let k = if others.len() == MAX_FILE_CHANGE_LOG {
                i + 1
            } else {
                i
            };
            assert(now[i] == others[k]);
        }
    }
}

proof fn lemma_recorded_twice(log: Seq<FileChange>, earlier: FileChange, later: FileChange)
    requires
        paths_differ(log),
        log.len() <= MAX_FILE_CHANGE_LOG,
        earlier.path == later.path,
    ensures
        change_recorded(change_recorded(log, earlier), later) == change_recorded(log, later),
{
    let once = change_recorded(log, earlier);
    let last = once.len() - 1;
    law_change_log_stays_well_formed(log, earlier);
    law_recorded_change_comes_last(log, earlier);
    assert(once[last].path == later.path);
    law_change_log_keeps_one_entry_per_path(once, last, later);
    let others = log.filter(|entry: FileChange| entry.path != later.path);
    if others.len() + 1 > MAX_FILE_CHANGE_LOG {
        assert(once == others.push(earlier).drop_first());
        assert(once.remove(last).push(later) =~= others.push(later).drop_first());
    } else {
        assert(once == others.push(earlier));
        assert(once.remove(last).push(later) =~= others.push(later));
    }
}

/// Of two changes of the same path in a row the later one is what is kept: the
/// earlier one might as well not have been announced.
pub proof fn law_later_change_replaces_the_earlier(
    backlog: Backlog,
    earlier: FileChange,
    later: FileChange,
)
    requires
        backlog.well_formed(),
        earlier.path == later.path,
    ensures
        backlog.with_change(earlier).with_change(later) == backlog.with_change(later),
{
    if let Some(log) = backlog.file_changes {
        lemma_recorded_twice(log, earlier, later);
    }
}

/// Where statuses are kept, the status announced last is the only one of its
/// path: where the path had one it stands in its place, and otherwise at the end,
/// for which the oldest entry of a full log goes. No other entry changes, and
/// file changes are not touched.
pub proof fn law_kept_status_is_the_only_one_of_its_path(backlog: Backlog, status: UploadStatus)
    requires
        backlog.well_formed(),
    ensures
        backlog.with_status(status).file_changes == backlog.file_changes,
        backlog.upload_statuses is Some <==> backlog.with_status(status).upload_statuses is Some,
        backlog.upload_statuses matches Some(log) ==> {
            let now = backlog.with_status(status).upload_statuses->0;
            &&& forall|at: int|
                0 <= at < log.len() && (#[trigger] log[at]).relative_path == status.relative_path
                    ==> now == log.update(at, status)
            &&& (forall|at: int|
                0 <= at < log.len() ==> (#[trigger] log[at]).relative_path
                    != status.relative_path) ==> now == (if log.len() == MAX_UPLOAD_STATUS_LOG {
                log.drop_first().push(status)
            } else {
                log.push(status)
            })
        },
{
    if let Some(log) = backlog.upload_statuses {
        let now = backlog.with_status(status).upload_statuses->0;
        assert forall|at: int|
            0 <= at < log.len() && (#[trigger] log[at]).relative_path
                == status.relative_path implies now == log.update(at, status) by {
            law_status_update_keeps_positions(log, at, status);
        }
        if !has_status(log, status.relative_path) && log.len() == MAX_UPLOAD_STATUS_LOG {
            assert(log.push(status).drop_first() =~= log.drop_first().push(status));
        }
    }
}

/// Forgetting the events of a watch empties the logs that are there and brings
/// none about that is not.
pub proof fn law_cleared_backlog_is_empty(backlog: Backlog)
    ensures
        backlog.cleared().well_formed(),
        backlog.cleared().file_changes == (if backlog.file_changes is Some {
            Some(Seq::<FileChange>::empty())
        } else {
            None
        }),
        backlog.cleared().upload_statuses == (if backlog.upload_statuses is Some {
            Some(Seq::<UploadStatus>::empty())
        } else {
            None
        }),
{
}

} // verus!
