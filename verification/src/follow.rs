//! What the steps of a start leave behind in the backlog and the upload queue.

use crate::backlog::EventBacklog;
#[allow(unused_imports)]
use crate::backlog::{Backlog, MAX_FILE_CHANGE_LOG};
use crate::events::{UploadRequest, EVENT_TYPE_INITIAL};
#[allow(unused_imports)]
use crate::events::{FileChange, UploadStatus};
#[allow(unused_imports)]
use crate::scan::{Entry, ScanStep, Walk};
use crate::start::StartAction;
#[allow(unused_imports)]
use crate::start::{Reply, Stage, Start, StartStep, StartTurn};
#[allow(unused_imports)]
use crate::upload::Upload;
use crate::upload::{UploadConfig, UploadQueue};
#[allow(unused_imports)]
use crate::watch::WatchStartOutcome;
use vstd::prelude::*;

verus! {

impl Backlog {
    /// The backlog after a step of a start: the events of the previous watch go
    /// with its watcher, and what is announced is kept.
    pub open spec fn followed(self, step: StartStep) -> Backlog {
        match step {
            StartStep::TearDown => self.cleared(),
            StartStep::Announce { event, status: Some(status) } => self.with_change(
                event,
            ).with_status(status),
            StartStep::Announce { event, status: None } => self.with_change(event),
            _ => self,
        }
    }

    /// The backlog after a number of steps.
    pub open spec fn after(self, steps: Seq<StartStep>) -> Backlog
        decreases steps.len(),
    {
        if steps.len() == 0 {
            self
        } else {
            self.after(steps.drop_last()).followed(steps.last())
        }
    }
}

/// The queue after a step of a start: a file that is queued comes from the
/// initial walk.
pub open spec fn queue_followed(
    queue: Seq<Upload>,
    patterns: Seq<Seq<char>>,
    step: StartStep,
) -> Seq<Upload> {
    match step {
        StartStep::Enqueue { path, base_path } => crate::upload::offered(
            queue,
            patterns,
            Upload { path, base_path, event_type: Some(EVENT_TYPE_INITIAL@) },
        ),
        _ => queue,
    }
}

/// The queue after a number of steps.
pub open spec fn queue_after(
    queue: Seq<Upload>,
    patterns: Seq<Seq<char>>,
    steps: Seq<StartStep>,
) -> Seq<Upload>
    decreases steps.len(),
{
    if steps.len() == 0 {
        queue
    } else {
        queue_followed(queue_after(queue, patterns, steps.drop_last()), patterns, steps.last())
    }
}

impl EventBacklog {
    /// Brings the backlog up to date with a step of a start.
    pub fn follow(&mut self, action: &StartAction)
        requires
            old(self).well_formed(),
        ensures
            final(self).well_formed(),
            final(self)@ == old(self)@.followed(action@),
    {
        match action {
            StartAction::TearDown => self.clear(),
            StartAction::Announce { event, status } => {
                self.emit_file_change(event);
                if let Some(status) = status {
                    let status = status.clone();
                    let _ = self.emit_file_upload_status(
                        status.relative_path.as_str(),
                        status.status.as_str(),
                        status.error,
                    );
                }
            },
            _ => {},
        }
    }
}

impl UploadQueue {
    /// Brings the queue up to date with a step of a start.
    pub fn follow(&mut self, action: &StartAction, config: &UploadConfig)
        ensures
            final(self)@ == queue_followed(
                old(self)@,
                config.ignored_patterns.deep_view(),
                action@,
            ),
    {
        if let StartAction::Enqueue(request) = action {
            let request = UploadRequest {
                path: request.path.clone(),
                base_path: request.base_path.clone(),
            };
            let _ = self.add_to_upload_queue_with_event_type(request, EVENT_TYPE_INITIAL, config);
        }
    }
}

/// The file changes that were announced, in order.
pub open spec fn announced_changes(steps: Seq<StartStep>) -> Seq<FileChange>
    decreases steps.len(),
{
    if steps.len() == 0 {
        Seq::empty()
    } else {
        match steps.last() {
            StartStep::Announce { event, .. } => announced_changes(steps.drop_last()).push(event),
            _ => announced_changes(steps.drop_last()),
        }
    }
}

/// The changes by which the walk announces a number of entries, but for their
/// times.
pub open spec fn announces(changes: Seq<FileChange>, entries: Seq<Entry>) -> bool {
    &&& changes.len() == entries.len()
    &&& forall|i: int|
        0 <= i < changes.len() ==> (#[trigger] changes[i]).path == entries[i].path
            && changes[i].event_type == "initial"@
}

/// How the entries announced so far relate to the entries listed so far.
spec fn entries_add_up(stage: Stage, listed: Seq<Entry>, changes: Seq<FileChange>) -> bool {
    match stage {
        Stage::Begin { .. } => listed.len() == 0 && changes.len() == 0,
        Stage::Scanning(walk) => {
            &&& changes.len() + walk.entries.len() == listed.len()
            &&& listed.skip(changes.len() as int) == walk.entries
            &&& announces(changes, listed.take(changes.len() as int))
        },
        Stage::Creating(_) => announces(changes, listed),
        Stage::Watching(_) => announces(changes, listed),
        Stage::Enqueueing(_) => announces(changes, listed),
        Stage::Finished => changes.len() <= listed.len() && announces(
            changes,
            listed.take(changes.len() as int),
        ),
    }
}

proof fn lemma_walk_adds_up(
    start: Start,
    walk: Walk,
    superseded: bool,
    now: u64,
    listed: Seq<Entry>,
    changes: Seq<FileChange>,
)
    requires
        entries_add_up(Stage::Scanning(walk), listed, changes),
    ensures
        ({
            let (after, step) = start.walked(walk, superseded, now);
            match step {
                StartStep::Announce { event, .. } => entries_add_up(
                    after.stage,
                    listed,
                    changes.push(event),
                ),
                _ => entries_add_up(after.stage, listed, changes),
            }
        }),
{
    if !superseded {
        if walk.entries.len() > 0 {
            let n = changes.len() as int;
            assert(walk.entries[0] == listed.skip(n)[0]);
            assert(walk.visited().entries =~= listed.skip(n + 1));
            assert(listed.take(n + 1) =~= listed.take(n).push(listed[n]));
        } else if walk.directories.len() == 0 {
            assert(listed.take(changes.len() as int) =~= listed);
        }
    }
}

proof fn lemma_entries_add_up(start: Start, turns: Seq<StartTurn>)
    requires
        start.stage is Begin,
    ensures
        entries_add_up(
            start.after(turns).stage,
            start.listed(turns),
            announced_changes(start.steps(turns)),
        ),
    decreases turns.len(),
{
    if turns.len() > 0 {
        let earlier = turns.drop_last();
        lemma_entries_add_up(start, earlier);
        let before = start.after(earlier);
        let turn = turns.last();
        let superseded = turn.watch.generation != before.expected;
        let listed = start.listed(turns);
        let shorter = start.listed(earlier);
        assert(start.steps(turns).drop_last() =~= start.steps(earlier));
        let changes = announced_changes(start.steps(earlier));
        let n = changes.len() as int;
        match before.stage {
            Stage::Begin { .. } => {
                assert(listed.skip(0) =~= Seq::<Entry>::empty());
            },
            Stage::Scanning(walk) => match turn.reply {
                Reply::ReadFailed { .. } => {},
                Reply::Listing(entries) => {
                    let walk = walk.delivered(entries);
                    assert(listed.skip(n) =~= shorter.skip(n) + entries);
                    assert(listed.take(n) =~= shorter.take(n));
                    lemma_walk_adds_up(before, walk, superseded, turn.now, listed, changes);
                },
                _ => {
                    lemma_walk_adds_up(before, walk, superseded, turn.now, listed, changes);
                },
            },
            _ => {
                assert(before.stage is Finished || listed.take(n) =~= listed);
            },
        }
    }
}

/// Every entry that the walk is given is announced once, in the order in which
/// it was given: while the walk is under way those from the first one on, and by
/// the time the start reports success all of them.
pub proof fn law_listed_entries_are_announced_in_order(start: Start, turns: Seq<StartTurn>)
    requires
        start.stage is Begin,
    ensures
        ({
            let listed = start.listed(turns);
            let changes = announced_changes(start.steps(turns));
            &&& changes.len() <= listed.len()
            &&& announces(changes, listed.take(changes.len() as int))
            &&& turns.len() > 0 && start.steps(turns).last() == StartStep::Finish(
                Ok(WatchStartOutcome::Started),
            ) ==> announces(changes, listed)
        }),
{
    lemma_entries_add_up(start, turns);
    let listed = start.listed(turns);
    let changes = announced_changes(start.steps(turns));
    if changes.len() == listed.len() {
        assert(listed.take(changes.len() as int) =~= listed);
    }
    if turns.len() > 0 {
        let earlier = turns.drop_last();
        lemma_entries_add_up(start, earlier);
        assert(start.steps(turns).drop_last() =~= start.steps(earlier));
    }
}

/// What a backlog holds of file changes once the watcher of the previous watch
/// was taken down.
proof fn lemma_changes_are_kept(start: Start, turns: Seq<StartTurn>, backlog: Backlog)
    requires
        start.stage is Begin,
        turns.len() > 0,
        turns[0].watch.generation == start.expected,
        backlog.file_changes is Some,
    ensures
        !(start.after(turns).stage is Begin),
        backlog.after(start.steps(turns)).file_changes == Some(
            crate::backlog::all_changes_recorded(
                Seq::empty(),
                announced_changes(start.steps(turns)),
            ),
        ),
    decreases turns.len(),
{
    let earlier = turns.drop_last();
    let steps = start.steps(turns);
    assert(steps.drop_last() =~= start.steps(earlier));
    let changes = announced_changes(start.steps(earlier));
    if earlier.len() == 0 {
        assert(turns.last() == turns[0]);
        assert(start.after(earlier) == start);
    } else {
        assert(earlier[0] == turns[0]);
        lemma_changes_are_kept(start, earlier, backlog);
        match steps.last() {
            StartStep::Announce { event, .. } => {
                assert(changes.push(event).drop_last() =~= changes);
            },
            _ => {},
        }
    }
}

/// A backlog that went along with a start to its success holds an `initial`
/// change for each entry that the walk was given, in that order, and nothing of
/// an earlier watch; of more entries than it has room for it holds the latest.
/// (The entries of a folder have different paths.)
pub proof fn law_started_watch_logs_every_entry(
    start: Start,
    turns: Seq<StartTurn>,
    backlog: Backlog,
)
    requires
        start.stage is Begin,
        turns.len() > 0,
        turns[0].watch.generation == start.expected,
        start.steps(turns).last() == StartStep::Finish(Ok(WatchStartOutcome::Started)),
        backlog.file_changes is Some,
        forall|i: int, j: int|
            0 <= i < j < start.listed(turns).len() ==> (#[trigger] start.listed(turns)[i]).path != (
            #[trigger] start.listed(turns)[j]).path,
    ensures
        backlog.after(start.steps(turns)).file_changes matches Some(log) && announces(
            log,
            crate::backlog::latest(start.listed(turns), MAX_FILE_CHANGE_LOG as nat),
        ),
{
    let listed = start.listed(turns);
    let changes = announced_changes(start.steps(turns));
    law_listed_entries_are_announced_in_order(start, turns);
    lemma_changes_are_kept(start, turns, backlog);
    assert(crate::backlog::paths_differ(changes)) by {
        assert forall|i: int, j: int| 0 <= i < j < changes.len() implies (
        #[trigger] changes[i]).path != (#[trigger] changes[j]).path by {
            assert(listed[i].path != listed[j].path);
        }
    }
    crate::backlog::law_change_log_holds_the_latest(changes);
}

/// Whether a file change is one of those announced.
pub open spec fn was_announced(steps: Seq<StartStep>, event: FileChange) -> bool {
    announced_changes(steps).contains(event)
}

/// Whether an upload status is one of those announced.
pub open spec fn status_was_announced(steps: Seq<StartStep>, status: UploadStatus) -> bool {
    exists|i: int|
        0 <= i < steps.len() && (#[trigger] steps[i] matches StartStep::Announce {
            status: Some(announced),
            ..
        } && announced == status)
}

/// Whether a backlog holds nothing but what was announced in a number of steps.
pub open spec fn holds_only_what_was_announced(backlog: Backlog, steps: Seq<StartStep>) -> bool {
    &&& backlog.file_changes matches Some(log) ==> forall|i: int|
        0 <= i < log.len() ==> was_announced(steps, #[trigger] log[i])
    &&& backlog.upload_statuses matches Some(log) ==> forall|i: int|
        0 <= i < log.len() ==> status_was_announced(steps, #[trigger] log[i])
}

proof fn lemma_announced_change_stays(steps: Seq<StartStep>, event: FileChange)
    requires
        steps.len() > 0,
        was_announced(steps.drop_last(), event),
    ensures
        was_announced(steps, event),
{
    let changes = announced_changes(steps.drop_last());
    let i = choose|i: int| 0 <= i < changes.len() && changes[i] == event;
    assert(announced_changes(steps)[i] == event);
}

proof fn lemma_announced_status_stays(steps: Seq<StartStep>, status: UploadStatus)
    requires
        steps.len() > 0,
        status_was_announced(steps.drop_last(), status),
    ensures
        status_was_announced(steps, status),
{
    let earlier = steps.drop_last();
    let i = choose|i: int|
        0 <= i < earlier.len() && (#[trigger] earlier[i] matches StartStep::Announce {
            status: Some(announced),
            ..
        } && announced == status);
    assert(steps[i] == earlier[i]);
}

proof fn lemma_only_what_was_announced(backlog: Backlog, steps: Seq<StartStep>)
    requires
        steps.len() > 0,
        backlog.well_formed(),
        steps[0] is TearDown,
    ensures
        backlog.after(steps).well_formed(),
        holds_only_what_was_announced(backlog.after(steps), steps),
    decreases steps.len(),
{
    let earlier = steps.drop_last();
    let before = backlog.after(earlier);
    let after = backlog.after(steps);
    if earlier.len() == 0 {
        assert(steps.last() == steps[0]);
    } else {
        assert(earlier[0] == steps[0]);
        lemma_only_what_was_announced(backlog, earlier);
        assert forall|event: FileChange| was_announced(earlier, event) implies #[trigger]
            was_announced(steps, event) by {
            lemma_announced_change_stays(steps, event);
        }
        assert forall|status: UploadStatus| status_was_announced(
            earlier,
            status,
        ) implies #[trigger] status_was_announced(steps, status) by {
            lemma_announced_status_stays(steps, status);
        }
        if let StartStep::Announce { event, status } = steps.last() {
            assert(announced_changes(steps).last() == event);
            assert(was_announced(steps, event));
            if let Some(log) = before.file_changes {
                crate::backlog::law_change_log_stays_well_formed(log, event);
                crate::backlog::law_recorded_change_comes_last(log, event);
                let now = crate::backlog::change_recorded(log, event);
                assert forall|i: int| 0 <= i < now.len() implies was_announced(
                    steps,
                    #[trigger] now[i],
                ) by {
                    if i < now.len() - 1 {
                        assert(log.contains(now[i]));
                        let k = choose|k: int| 0 <= k < log.len() && log[k] == now[i];
                        assert(was_announced(earlier, log[k]));
                    } else {
                        assert(now[i] == now.last());
                    }
                }
            }
            if let (Some(log), Some(status)) = (before.upload_statuses, status) {
                crate::backlog::law_status_log_stays_well_formed(log, status);
                assert(steps[steps.len() - 1] == steps.last());
                assert(status_was_announced(steps, status));
                let now = crate::backlog::status_recorded(log, status);
                assert forall|i: int| 0 <= i < now.len() implies status_was_announced(
                    steps,
                    #[trigger] now[i],
                ) by {
                    let k = if crate::backlog::has_status(log, status.relative_path)
                        || now.len() > log.len() {
                        i
                    } else {
                        i + 1
                    };
                    if k < log.len() {
                        assert(now[i] == log[k] || now[i] == status);
                        assert(status_was_announced(earlier, log[k]));
                    }
                }
            }
        }
    }
}

proof fn lemma_first_step(start: Start, turns: Seq<StartTurn>)
    requires
        turns.len() > 0,
    ensures
        start.steps(turns).len() == turns.len(),
        start.steps(turns)[0] == start.next(turns[0].watch, turns[0].reply, turns[0].now).1,
{
    crate::start::lemma_step_at(start, turns, 0);
    assert(start.after(turns.take(0)) == start);
}

/// A start that sets out forgets the events of the watch before it: from then on
/// a backlog that goes along with it holds nothing but what the start itself
/// announced, and stays well formed.
pub proof fn law_start_forgets_the_previous_watch(
    start: Start,
    turns: Seq<StartTurn>,
    backlog: Backlog,
)
    requires
        start.stage is Begin,
        turns.len() > 0,
        turns[0].watch.generation == start.expected,
        backlog.well_formed(),
    ensures
        backlog.after(start.steps(turns)).well_formed(),
        holds_only_what_was_announced(
            backlog.after(start.steps(turns)),
            start.steps(turns),
        ),
{
    lemma_first_step(start, turns);
    lemma_only_what_was_announced(backlog, start.steps(turns));
}

proof fn lemma_quiet_steps(
    backlog: Backlog,
    queue: Seq<Upload>,
    patterns: Seq<Seq<char>>,
    steps: Seq<StartStep>,
)
    ensures
        (forall|i: int|
            0 <= i < steps.len() ==> (#[trigger] steps[i] is Finish || steps[i] is Idle))
            ==> backlog.after(steps) == backlog,
        (forall|i: int| 0 <= i < steps.len() ==> !(#[trigger] steps[i] is Enqueue))
            ==> queue_after(queue, patterns, steps) == queue,
    decreases steps.len(),
{
    if steps.len() > 0 {
        let earlier = steps.drop_last();
        assert(steps.last() == steps[steps.len() - 1]);
        assert(forall|i: int| 0 <= i < earlier.len() ==> #[trigger] earlier[i] == steps[i]);
        lemma_quiet_steps(backlog, queue, patterns, earlier);
    }
}

/// A start that was overtaken before its first step leaves the backlog and the
/// upload queue as they were.
pub proof fn law_stale_start_leaves_no_trace(
    start: Start,
    turns: Seq<StartTurn>,
    backlog: Backlog,
    queue: Seq<Upload>,
    patterns: Seq<Seq<char>>,
)
    requires
        start.stage is Begin,
        turns.len() > 0,
        turns[0].watch.generation != start.expected,
    ensures
        backlog.after(start.steps(turns)) == backlog,
        queue_after(queue, patterns, start.steps(turns)) == queue,
{
    crate::start::law_stale_start_has_no_effect(start, turns);
    lemma_quiet_steps(backlog, queue, patterns, start.steps(turns));
}

/// A step that a start takes once it was overtaken, wherever the start stands,
/// leaves the watch state, the backlog and the upload queue as they were.
pub proof fn law_overtaken_step_leaves_no_trace(
    start: Start,
    turn: StartTurn,
    backlog: Backlog,
    queue: Seq<Upload>,
    patterns: Seq<Seq<char>>,
)
    requires
        turn.watch.generation != start.expected,
    ensures
        ({
            let step = start.next(turn.watch, turn.reply, turn.now).1;
            &&& backlog.followed(step) == backlog
            &&& queue_followed(queue, patterns, step) == queue
            &&& start.watch_after(turn.watch, turn.reply) == turn.watch
            &&& !(step is Install)
        }),
{
}

/// A start that was overtaken leaves no further trace: what it had done to the
/// backlog and the upload queue in its first `overtaken` steps is all it ever
/// does to them, and it changes the watch state no more.
pub proof fn law_overtaken_start_leaves_no_further_trace(
    start: Start,
    turns: Seq<StartTurn>,
    overtaken: int,
    backlog: Backlog,
    queue: Seq<Upload>,
    patterns: Seq<Seq<char>>,
)
    requires
        0 <= overtaken <= turns.len(),
        forall|i: int|
            overtaken <= i < turns.len() ==> (#[trigger] turns[i]).watch.generation
                != start.expected,
    ensures
        backlog.after(start.steps(turns)) == backlog.after(start.steps(turns.take(overtaken))),
        queue_after(queue, patterns, start.steps(turns)) == queue_after(
            queue,
            patterns,
            start.steps(turns.take(overtaken)),
        ),
        forall|i: int|
            overtaken <= i < turns.len() ==> start.after(turns.take(i)).watch_after(
                (#[trigger] turns[i]).watch,
                turns[i].reply,
            ) == turns[i].watch,
    decreases turns.len(),
{
    assert forall|i: int| overtaken <= i < turns.len() implies start.after(
        turns.take(i),
    ).watch_after((#[trigger] turns[i]).watch, turns[i].reply) == turns[i].watch by {
        crate::start::lemma_expected_is_kept(start, turns.take(i));
    }
    if overtaken == turns.len() {
        assert(turns.take(overtaken) =~= turns);
    } else {
        let earlier = turns.drop_last();
        law_overtaken_start_leaves_no_further_trace(
            start,
            earlier,
            overtaken,
            backlog,
            queue,
            patterns,
        );
        assert(earlier.take(overtaken) =~= turns.take(overtaken));
        assert(start.steps(turns).drop_last() =~= start.steps(earlier));
        assert(turns.last() == turns[turns.len() - 1]);
        crate::start::lemma_expected_is_kept(start, earlier);
        law_overtaken_step_leaves_no_trace(
            start.after(earlier),
            turns.last(),
            backlog.after(start.steps(earlier)),
            queue_after(queue, patterns, start.steps(earlier)),
            patterns,
        );
    }
}

/// A start that was superseded, or that failed, leaves the upload queue as it
/// was.
pub proof fn law_superseded_start_leaves_the_queue_alone(
    start: Start,
    turns: Seq<StartTurn>,
    i: int,
    queue: Seq<Upload>,
    patterns: Seq<Seq<char>>,
)
    requires
        start.stage is Begin,
        0 <= i < turns.len(),
        start.steps(turns)[i] matches StartStep::Finish(result) && result != Ok::<_, Seq<char>>(
            WatchStartOutcome::Started,
        ),
    ensures
        queue_after(queue, patterns, start.steps(turns)) == queue,
{
    let steps = start.steps(turns);
    lemma_first_step(start, turns);
    assert forall|j: int| 0 <= j < steps.len() implies !(#[trigger] steps[j] is Enqueue) by {
        crate::start::law_only_a_started_watch_queues_files(start, turns, i, j);
    }
    lemma_quiet_steps(arbitrary(), queue, patterns, steps);
}

/// The uploads that the files of an initial walk of `folder` ask for.
pub open spec fn initial_uploads(files: Seq<Seq<char>>, folder: Seq<char>) -> Seq<Upload> {
    files.map_values(
        |path: Seq<char>|
            Upload { path, base_path: folder, event_type: Some(EVENT_TYPE_INITIAL@) },
    )
}

proof fn lemma_queue_takes_what_is_enqueued(
    start: Start,
    turns: Seq<StartTurn>,
    queue: Seq<Upload>,
    patterns: Seq<Seq<char>>,
)
    ensures
        queue_after(queue, patterns, start.steps(turns)) == crate::upload::all_offered(
            queue,
            patterns,
            initial_uploads(crate::start::enqueued(start.steps(turns)), start.folder),
        ),
    decreases turns.len(),
{
    let steps = start.steps(turns);
    if turns.len() > 0 {
        let earlier = turns.drop_last();
        assert(steps.drop_last() =~= start.steps(earlier));
        lemma_queue_takes_what_is_enqueued(start, earlier, queue, patterns);
        crate::start::lemma_expected_is_kept(start, earlier);
        let files = crate::start::enqueued(start.steps(earlier));
        if let StartStep::Enqueue { path, .. } = steps.last() {
            let uploads = initial_uploads(files.push(path), start.folder);
            assert(uploads.drop_last() =~= initial_uploads(files, start.folder));
        }
    }
}

/// A start that reports success while it is still current has queued exactly the
/// files that the walk found and no pattern matches, in the order in which it
/// found them, behind what was waiting already.
pub proof fn law_unchallenged_start_queues_what_is_not_ignored(
    start: Start,
    turns: Seq<StartTurn>,
    queue: Seq<Upload>,
    patterns: Seq<Seq<char>>,
)
    requires
        start.stage is Begin,
        turns.len() > 0,
        turns.last().watch.generation == start.expected,
        start.steps(turns).last() == StartStep::Finish(Ok(WatchStartOutcome::Started)),
    ensures
        queue_after(queue, patterns, start.steps(turns)) == queue + crate::scan::files_among(
            start.listed(turns),
        ).map_values(
            |path: Seq<char>|
                Upload { path, base_path: start.folder, event_type: Some("initial"@) },
        ).filter(|upload: Upload| !crate::upload::ignored(patterns, upload.path)),
{
    let files = crate::scan::files_among(start.listed(turns));
    crate::start::law_unchallenged_start_queues_every_file(start, turns);
    lemma_queue_takes_what_is_enqueued(start, turns, queue, patterns);
    crate::upload::law_queue_grows_by_what_is_not_ignored(
        queue,
        patterns,
        initial_uploads(files, start.folder),
    );
}

/// The backlog forgets with the tear-down, keeps what is announced, the change as
/// well as the status where there is one, and takes no notice of any other step;
/// the queue takes notice of nothing but files to be queued.
pub proof fn law_only_some_steps_leave_a_trace(
    backlog: Backlog,
    queue: Seq<Upload>,
    patterns: Seq<Seq<char>>,
    step: StartStep,
)
    requires
        backlog.well_formed(),
    ensures
        backlog.followed(step).well_formed(),
        match step {
            StartStep::TearDown => backlog.followed(step) == backlog.cleared(),
            StartStep::Announce { event, status: None } => backlog.followed(step)
                == backlog.with_change(event),
            StartStep::Announce { event, status: Some(status) } => backlog.followed(step)
                == backlog.with_change(event).with_status(status) && backlog.followed(step)
                == backlog.with_status(status).with_change(event),
            _ => backlog.followed(step) == backlog,
        },
        match step {
            StartStep::Enqueue { path, base_path } => queue_followed(queue, patterns, step) == (
            if crate::upload::ignored(patterns, path) {
                queue
            } else {
                queue.push(Upload { path, base_path, event_type: Some("initial"@) })
            }),
            _ => queue_followed(queue, patterns, step) == queue,
        },
{
    if let StartStep::Announce { event, status } = step {
        if let Some(log) = backlog.file_changes {
            crate::backlog::law_change_log_stays_well_formed(log, event);
        }
        if let (Some(log), Some(status)) = (backlog.upload_statuses, status) {
            crate::backlog::law_status_log_stays_well_formed(log, status);
        }
    }
}

/// The statuses that came with the file changes announced, in order; `None` for a
/// change without a status.
pub open spec fn announced_statuses(steps: Seq<StartStep>) -> Seq<Option<UploadStatus>>
    decreases steps.len(),
{
    if steps.len() == 0 {
        Seq::empty()
    } else {
        match steps.last() {
            StartStep::Announce { status, .. } => announced_statuses(steps.drop_last()).push(
                status,
            ),
            _ => announced_statuses(steps.drop_last()),
        }
    }
}

/// Whether a status fits an entry found below `folder`: a directory has the status
/// `directory`, without an error, under what its path holds beyond the folder and a
/// separator; an entry that is no directory has none.
pub open spec fn status_fits(
    folder: Seq<char>,
    entry: Entry,
    status: Option<UploadStatus>,
) -> bool {
    match status {
        None => !entry.is_dir,
        Some(status) => {
            &&& entry.is_dir
            &&& status.status == "directory"@
            &&& status.error is None
            &&& forall|separator: char, name: Seq<char>|
                folder.len() > 0 && (separator == '/' || separator == '\\') && entry.path
                    == #[trigger] folder.push(separator).add(name) ==> status.relative_path == name
        },
    }
}

proof fn lemma_announcement_fits(start: Start, entry: Entry, now: u64)
    ensures
        start.announcement(entry.path, entry.is_dir, now) matches StartStep::Announce {
            status,
            ..
        } && status_fits(start.folder, entry, status),
{
    assert forall|separator: char, name: Seq<char>|
        start.folder.len() > 0 && (separator == '/' || separator == '\\') && entry.path
            == #[trigger] start.folder.push(separator).add(
            name,
        ) implies crate::paths::relative_path(entry.path, start.folder) == name by {
        crate::paths::law_relative_path_undoes_join(start.folder, separator, name);
    }
}

/// Every announcement has the status that fits its entry: the first one that of
/// the first entry the walk was given, and so on.
pub proof fn law_every_directory_has_its_status(start: Start, turns: Seq<StartTurn>)
    requires
        start.stage is Begin,
    ensures
        ({
            let listed = start.listed(turns);
            let statuses = announced_statuses(start.steps(turns));
            &&& statuses.len() == announced_changes(start.steps(turns)).len()
            &&& statuses.len() <= listed.len()
            &&& forall|k: int|
                0 <= k < statuses.len() ==> status_fits(
                    start.folder,
                    listed[k],
                    #[trigger] statuses[k],
                )
        }),
    decreases turns.len(),
{
    law_listed_entries_are_announced_in_order(start, turns);
    if turns.len() > 0 {
        let earlier = turns.drop_last();
        law_every_directory_has_its_status(start, earlier);
        lemma_entries_add_up(start, earlier);
        crate::start::lemma_expected_is_kept(start, earlier);
        let before = start.after(earlier);
        let turn = turns.last();
        let steps = start.steps(turns);
        assert(steps.drop_last() =~= start.steps(earlier));
        let shorter = start.listed(earlier);
        let listed = start.listed(turns);
        let n = announced_statuses(start.steps(earlier)).len() as int;
        assert(forall|k: int| 0 <= k < shorter.len() ==> #[trigger] shorter[k] == listed[k]);
        if let Stage::Scanning(walk) = before.stage {
            let walk = match turn.reply {
                Reply::Listing(entries) => walk.delivered(entries),
                _ => walk,
            };
            if steps.last() is Announce {
                assert(listed.skip(n) =~= walk.entries);
                assert(walk.entries[0] == listed[n]);
                lemma_announcement_fits(before, listed[n], turn.now);
            }
        }
    }
}

} // verus!
