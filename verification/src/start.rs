//! Starting to watch a folder.
//!
//! A start runs in steps. Each step looks at the shared watch state, decides,
//! and names the one thing that has to be done before the next step. The order
//! is: make sure the start is still wanted, take down the previous watch, walk
//! the folder, set up the watcher, install it if the start is still wanted, and
//! only then queue the files that the walk found.

use crate::events::{
    FileChangeEvent, FileUploadStatus, UploadRequest, EVENT_TYPE_INITIAL, STATUS_DIRECTORY,
};
#[allow(unused_imports)]
use crate::events::{FileChange, UploadStatus};
use crate::paths::get_relative_path;
use crate::scan::{Scan, ScanAction, ScannedEntry};
#[allow(unused_imports)]
use crate::scan::{Entry, ScanStep, Walk};
use crate::text::joined;
use crate::upload::ScannedFiles;
use crate::watch::{StoreCommand, WatchStartOutcome, WatchState};
#[allow(unused_imports)]
use crate::watch::{StoreUpdate, Watch};
use vstd::prelude::*;

verus! {

/// What came of the thing that the previous step asked for.
#[derive(Debug, PartialEq, Eq)]
pub enum StartReply {
    /// It was done.
    Proceed,
    /// The directory holds these entries.
    Listing(Vec<ScannedEntry>),
    /// The directory, here as it is shown to the user, could not be read.
    ReadFailed { directory: String, error: String },
    /// The watcher could not be created, or could not watch the folder.
    WatcherFailed(String),
}

/// Model of a [`StartReply`].
pub enum Reply {
    Proceed,
    Listing(Seq<Entry>),
    ReadFailed { directory: Seq<char>, error: Seq<char> },
    WatcherFailed(Seq<char>),
}

impl View for StartReply {
    type V = Reply;

    open spec fn view(&self) -> Reply {
        match self {
            StartReply::Proceed => Reply::Proceed,
            StartReply::Listing(entries) => Reply::Listing(entries.deep_view()),
            StartReply::ReadFailed { directory, error } => Reply::ReadFailed {
                directory: directory@,
                error: error@,
            },
            StartReply::WatcherFailed(error) => Reply::WatcherFailed(error@),
        }
    }
}

/// The one thing to do before the next step.
#[derive(Debug, PartialEq, Eq)]
pub enum StartAction {
    /// Drop the watcher of the previous watch and forget its events.
    TearDown,
    /// List the directory with this handle.
    ReadDirectory(usize),
    /// Announce an entry that the walk came across.
    Announce { event: FileChangeEvent, status: Option<FileUploadStatus> },
    /// Create a watcher.
    CreateWatcher,
    /// Let the watcher watch the folder.
    WatchFolder,
    /// Keep the watcher and persist the folder.
    Install(StoreCommand),
    /// Offer a file to the upload queue, as found by the initial walk.
    Enqueue(UploadRequest),
    /// The start is over.
    Finish(Result<WatchStartOutcome, String>),
    /// Nothing: the start was over already.
    Idle,
}

/// Model of a [`StartAction`].
pub enum StartStep {
    TearDown,
    ReadDirectory(usize),
    Announce { event: FileChange, status: Option<UploadStatus> },
    CreateWatcher,
    WatchFolder,
    Install(StoreUpdate),
    Enqueue { path: Seq<char>, base_path: Seq<char> },
    Finish(Result<WatchStartOutcome, Seq<char>>),
    Idle,
}

impl View for StartAction {
    type V = StartStep;

    open spec fn view(&self) -> StartStep {
        match self {
            StartAction::TearDown => StartStep::TearDown,
            StartAction::ReadDirectory(handle) => StartStep::ReadDirectory(*handle),
            StartAction::Announce { event, status } => StartStep::Announce {
                event: event@,
                status: match status {
                    Some(status) => Some(status@),
                    None => None,
                },
            },
            StartAction::CreateWatcher => StartStep::CreateWatcher,
            StartAction::WatchFolder => StartStep::WatchFolder,
            StartAction::Install(command) => StartStep::Install(command@),
            StartAction::Enqueue(request) => StartStep::Enqueue {
                path: request.path@,
                base_path: request.base_path@,
            },
            StartAction::Finish(result) => StartStep::Finish(
                match result {
                    Ok(outcome) => Ok(*outcome),
                    Err(message) => Err(message@),
                },
            ),
            StartAction::Idle => StartStep::Idle,
        }
    }
}

#[derive(Debug, PartialEq, Eq)]
enum Phase {
    Begin { root: usize },
    Scanning(Scan),
    Creating(Vec<String>),
    Watching(Vec<String>),
    Enqueueing(ScannedFiles),
    Finished,
}

/// Where a start stands.
#[verifier::ext_equal]
pub enum Stage {
    Begin { root: usize },
    Scanning(Walk),
    Creating(Seq<Seq<char>>),
    Watching(Seq<Seq<char>>),
    Enqueueing(Seq<Seq<char>>),
    Finished,
}

impl View for Phase {
    type V = Stage;

    closed spec fn view(&self) -> Stage {
        match self {
            Phase::Begin { root } => Stage::Begin { root: *root },
            Phase::Scanning(scan) => Stage::Scanning(scan@),
            Phase::Creating(files) => Stage::Creating(files.deep_view()),
            Phase::Watching(files) => Stage::Watching(files.deep_view()),
            Phase::Enqueueing(files) => Stage::Enqueueing(files@),
            Phase::Finished => Stage::Finished,
        }
    }
}

/// A start under way.
#[derive(Debug, PartialEq, Eq)]
pub struct WatchStart {
    folder: String,
    expected: u64,
    phase: Phase,
}

/// Model of a [`WatchStart`].
#[verifier::ext_equal]
pub struct Start {
    pub folder: Seq<char>,
    pub expected: u64,
    pub stage: Stage,
}

impl View for WatchStart {
    type V = Start;

    closed spec fn view(&self) -> Start {
        Start { folder: self.folder@, expected: self.expected, stage: self.phase@ }
    }
}

pub open spec fn read_failure(directory: Seq<char>, error: Seq<char>) -> Seq<char> {
    "Failed to read directory "@ + directory + ": "@ + error
}

pub open spec fn create_failure(error: Seq<char>) -> Seq<char> {
    "Failed to create watcher: "@ + error
}

pub open spec fn watch_failure(error: Seq<char>) -> Seq<char> {
    "Failed to watch folder: "@ + error
}

impl Start {
    /// A start that was requested for `folder`, which the caller knows as `root`.
    pub open spec fn of(folder: Seq<char>, expected: u64, root: usize) -> Start {
        Start { folder, expected, stage: Stage::Begin { root } }
    }

    pub open spec fn at(self, stage: Stage) -> Start {
        Start { stage, ..self }
    }

    /// An entry of the walk, announced as an event of type `initial`; for a
    /// directory there is a status as well.
    pub open spec fn announcement(self, path: Seq<char>, is_dir: bool, now: u64) -> StartStep {
        StartStep::Announce {
            event: FileChange { path, event_type: EVENT_TYPE_INITIAL@, timestamp: now },
            status: if is_dir {
                Some(
                    UploadStatus {
                        relative_path: crate::paths::relative_path(path, self.folder),
                        status: STATUS_DIRECTORY@,
                        error: None,
                    },
                )
            } else {
                None
            },
        }
    }

    /// The next step of the walk.
    pub open spec fn walked(self, walk: Walk, superseded: bool, now: u64) -> (Start, StartStep) {
        let (walk, step) = walk.next(superseded);
        match step {
            ScanStep::ReadDirectory(handle) => (
                self.at(Stage::Scanning(walk)),
                StartStep::ReadDirectory(handle),
            ),
            ScanStep::Visit { path, is_dir } => (
                self.at(Stage::Scanning(walk)),
                self.announcement(path, is_dir, now),
            ),
            ScanStep::Complete(files) => (
                self.at(Stage::Creating(files)),
                StartStep::CreateWatcher,
            ),
            ScanStep::Aborted => self.over(Ok(WatchStartOutcome::Superseded)),
        }
    }

    pub open spec fn over(self, result: Result<WatchStartOutcome, Seq<char>>) -> (
        Start,
        StartStep,
    ) {
        (self.at(Stage::Finished), StartStep::Finish(result))
    }

    /// What a start does next, given the watch state it finds, the reply to the
    /// previous step and the time. A reply that the stage has no use for counts
    /// as `Proceed`.
    pub open spec fn next(self, watch: Watch, reply: Reply, now: u64) -> (Start, StartStep) {
        let superseded = watch.generation != self.expected;
        match self.stage {
            Stage::Begin { root } => if superseded {
                self.over(Ok(WatchStartOutcome::Superseded))
            } else {
                (self.at(Stage::Scanning(Walk::of(root))), StartStep::TearDown)
            },
            Stage::Scanning(walk) => match reply {
                Reply::ReadFailed { directory, error } => self.over(
                    Err(read_failure(directory, error)),
                ),
                Reply::Listing(entries) => self.walked(walk.delivered(entries), superseded, now),
                _ => self.walked(walk, superseded, now),
            },
            Stage::Creating(files) => match reply {
                Reply::WatcherFailed(error) => self.over(Err(create_failure(error))),
                _ => (self.at(Stage::Watching(files)), StartStep::WatchFolder),
            },
            Stage::Watching(files) => match reply {
                Reply::WatcherFailed(error) => self.over(Err(watch_failure(error))),
                _ => if superseded {
                    self.over(Ok(WatchStartOutcome::Superseded))
                } else {
                    (
                        self.at(Stage::Enqueueing(files)),
                        StartStep::Install(
                            StoreUpdate::Put {
                                key: crate::watch::WATCHED_FOLDER_STORE_KEY@,
                                value: self.folder,
                            },
                        ),
                    )
                },
            },
            Stage::Enqueueing(files) => if superseded || files.len() == 0 {
                self.over(Ok(WatchStartOutcome::Started))
            } else {
                (
                    self.at(Stage::Enqueueing(files.drop_first())),
                    StartStep::Enqueue { path: files[0], base_path: self.folder },
                )
            },
            Stage::Finished => (self, StartStep::Idle),
        }
    }

    /// What the step makes of the watch state: it changes only where the
    /// previous watcher is taken down and where the new one is installed.
    pub open spec fn watch_after(self, watch: Watch, reply: Reply) -> Watch {
        match self.stage {
            Stage::Begin { .. } => watch.begun(self.expected),
            Stage::Watching(_) => if reply is WatcherFailed {
                watch
            } else {
                watch.committed(self.expected, self.folder)
            },
            _ => watch,
        }
    }
}

impl WatchStart {
    /// A start for `folder` with the generation that its request was given;
    /// `root` is the caller's handle for the folder itself.
    pub fn new(folder: String, expected: u64, root: usize) -> (start: WatchStart)
        ensures
            start@ == Start::of(folder@, expected, root),
            start@.folder == folder@,
            start@.expected == expected,
            start@.stage == (Stage::Begin { root }),
    {
        WatchStart { folder, expected, phase: Phase::Begin { root } }
    }

    fn announce(&self, path: String, is_dir: bool, now: u64) -> (action: StartAction)
        ensures
            action@ == self@.announcement(path@, is_dir, now),
    {
        let status = if is_dir {
            Some(
                FileUploadStatus {
                    relative_path: get_relative_path(path.as_str(), self.folder.as_str()),
                    status: STATUS_DIRECTORY.to_owned(),
                    error: None,
                },
            )
        } else {
            None
        };
        let event = FileChangeEvent {
            path,
            event_type: EVENT_TYPE_INITIAL.to_owned(),
            timestamp: now,
        };
        StartAction::Announce { event, status }
    }

    fn walk(&mut self, scan: Scan, superseded: bool, now: u64) -> (action: StartAction)
        ensures
            (final(self)@, action@) == old(self)@.walked(scan@, superseded, now),
    {
        let mut scan = scan;
        match scan.next(superseded) {
            ScanAction::ReadDirectory(handle) => {
                self.phase = Phase::Scanning(scan);
                StartAction::ReadDirectory(handle)
            },
            ScanAction::Visit { path, is_dir } => {
                self.phase = Phase::Scanning(scan);
                self.announce(path, is_dir, now)
            },
            ScanAction::Complete(files) => {
                self.phase = Phase::Creating(files);
                StartAction::CreateWatcher
            },
            ScanAction::Aborted => {
                self.phase = Phase::Finished;
                StartAction::Finish(Ok(WatchStartOutcome::Superseded))
            },
        }
    }

    fn fail(&mut self, message: String) -> (action: StartAction)
        ensures
            (final(self)@, action@) == old(self)@.over(Err(message@)),
    {
        self.phase = Phase::Finished;
        StartAction::Finish(Err(message))
    }

    /// Takes the next step. The caller holds the watch state for itself while
    /// the step is taken and, where a watcher is taken down or installed, until
    /// that is done.
    pub fn step(&mut self, watch: &mut WatchState, reply: StartReply, now: u64) -> (action:
        StartAction)
        ensures
            (final(self)@, action@) == old(self)@.next(old(watch)@, reply@, now),
            final(watch)@ == old(self)@.watch_after(old(watch)@, reply@),
    {
        let mut phase = Phase::Finished;
        std::mem::swap(&mut phase, &mut self.phase);
        match phase {
            Phase::Begin { root } => if watch.begin_start(self.expected) {
                self.phase = Phase::Scanning(Scan::new(root));
                StartAction::TearDown
            } else {
                StartAction::Finish(Ok(WatchStartOutcome::Superseded))
            },
            Phase::Scanning(scan) => {
                let mut scan = scan;
                let superseded = watch.is_superseded(self.expected);
                match reply {
                    StartReply::ReadFailed { directory, error } => {
                        let subject = joined("Failed to read directory ", directory.as_str());
                        self.fail(subject.concat(": ").concat(error.as_str()))
                    },
                    StartReply::Listing(entries) => {
                        scan.deliver(entries);
                        self.walk(scan, superseded, now)
                    },
                    _ => self.walk(scan, superseded, now),
                }
            },
            Phase::Creating(files) => match reply {
                StartReply::WatcherFailed(error) => self.fail(
                    joined("Failed to create watcher: ", error.as_str()),
                ),
                _ => {
                    self.phase = Phase::Watching(files);
                    StartAction::WatchFolder
                },
            },
            Phase::Watching(files) => match reply {
                StartReply::WatcherFailed(error) => self.fail(
                    joined("Failed to watch folder: ", error.as_str()),
                ),
                _ => match watch.commit_start(self.expected, &self.folder) {
                    Some(command) => {
                        self.phase = Phase::Enqueueing(ScannedFiles::new(files));
                        StartAction::Install(command)
                    },
                    None => StartAction::Finish(Ok(WatchStartOutcome::Superseded)),
                },
            },
            Phase::Enqueueing(files) => {
                let mut files = files;
                match files.next(watch.is_superseded(self.expected)) {
                    Some(path) => {
                        self.phase = Phase::Enqueueing(files);
                        StartAction::Enqueue(
                            UploadRequest { path, base_path: self.folder.clone() },
                        )
                    },
                    None => StartAction::Finish(Ok(WatchStartOutcome::Started)),
                }
            },
            Phase::Finished => StartAction::Idle,
        }
    }
}

/// What a start found at one of its steps. Between two steps anything may
/// happen to the watch state.
pub struct StartTurn {
    pub watch: Watch,
    pub reply: Reply,
    pub now: u64,
}

impl Start {
    /// The start after a number of steps.
    pub open spec fn after(self, turns: Seq<StartTurn>) -> Start
        decreases turns.len(),
    {
        if turns.len() == 0 {
            self
        } else {
            let turn = turns.last();
            self.after(turns.drop_last()).next(turn.watch, turn.reply, turn.now).0
        }
    }

    /// What the start asked for in each of a number of steps.
    pub open spec fn steps(self, turns: Seq<StartTurn>) -> Seq<StartStep>
        decreases turns.len(),
    {
        if turns.len() == 0 {
            Seq::empty()
        } else {
            let turn = turns.last();
            self.steps(turns.drop_last()).push(
                self.after(turns.drop_last()).next(turn.watch, turn.reply, turn.now).1,
            )
        }
    }

    /// The entries that the walk of the start was given in a number of steps.
    pub open spec fn listed(self, turns: Seq<StartTurn>) -> Seq<Entry>
        decreases turns.len(),
    {
        if turns.len() == 0 {
            Seq::empty()
        } else {
            let earlier = self.listed(turns.drop_last());
            match (self.after(turns.drop_last()).stage, turns.last().reply) {
                (Stage::Scanning(_), Reply::Listing(entries)) => earlier + entries,
                _ => earlier,
            }
        }
    }
}

/// The files that were offered to the upload queue, in order.
pub open spec fn enqueued(steps: Seq<StartStep>) -> Seq<Seq<char>>
    decreases steps.len(),
{
    if steps.len() == 0 {
        Seq::empty()
    } else {
        match steps.last() {
            StartStep::Enqueue { path, .. } => enqueued(steps.drop_last()).push(path),
            _ => enqueued(steps.drop_last()),
        }
    }
}

/// Whether a watcher was installed in one of the first `end` steps.
pub open spec fn installed(steps: Seq<StartStep>, end: int) -> bool {
    exists|i: int| 0 <= i < end && (#[trigger] steps[i] is Install)
}

spec fn is_started(step: StartStep) -> bool {
    step matches StartStep::Finish(Ok(outcome)) && outcome is Started
}

/// What a start has asked for so far, depending on where it stands.
spec fn in_order(stage: Stage, steps: Seq<StartStep>) -> bool {
    &&& forall|i: int|
        0 <= i < steps.len() && (steps[i] is Enqueue || is_started(#[trigger] steps[i]))
            ==> installed(steps, i)
    &&& forall|i: int|
        0 <= i < steps.len() && (#[trigger] steps[i] is Finish) ==> stage is Finished && (
        is_started(steps[i]) || !installed(steps, steps.len() as int))
    &&& installed(steps, steps.len() as int) ==> stage is Enqueueing || stage is Finished
    &&& stage is Enqueueing ==> installed(steps, steps.len() as int)
}

proof fn lemma_in_order(start: Start, turns: Seq<StartTurn>)
    requires
        start.stage is Begin,
    ensures
        in_order(start.after(turns).stage, start.steps(turns)),
        start.steps(turns).len() == turns.len(),
    decreases turns.len(),
{
    let steps = start.steps(turns);
    if turns.len() > 0 {
        let earlier = start.steps(turns.drop_last());
        let stage = start.after(turns.drop_last()).stage;
        lemma_in_order(start, turns.drop_last());
        let n = earlier.len() as int;
        assert(forall|i: int| 0 <= i < n ==> #[trigger] steps[i] == earlier[i]);
        assert forall|end: int| 0 <= end <= n implies #[trigger] installed(steps, end) == installed(
            earlier,
            end,
        ) by {
            if installed(steps, end) {
                let i = choose|i: int| 0 <= i < end && (#[trigger] steps[i] is Install);
                assert(earlier[i] is Install);
            }
            if installed(earlier, end) {
                let i = choose|i: int| 0 <= i < end && (#[trigger] earlier[i] is Install);
                assert(steps[i] is Install);
            }
        }
        assert(installed(steps, n + 1) <==> installed(steps, n) || steps[n] is Install) by {
            if installed(steps, n + 1) {
                let i = choose|i: int| 0 <= i < n + 1 && (#[trigger] steps[i] is Install);
                assert(i < n || i == n);
            }
            if installed(steps, n) {
                let i = choose|i: int| 0 <= i < n && (#[trigger] steps[i] is Install);
                assert(i < n + 1);
            }
        }
    }
}

/// A start that was superseded, or that failed, has queued no file; nor does it
/// queue one afterwards.
pub proof fn law_only_a_started_watch_queues_files(
    start: Start,
    turns: Seq<StartTurn>,
    i: int,
    j: int,
)
    requires
        start.stage is Begin,
        0 <= i < turns.len(),
        0 <= j < turns.len(),
        start.steps(turns)[i] matches StartStep::Finish(result) && result != Ok::<_, Seq<char>>(
            WatchStartOutcome::Started,
        ),
    ensures
        !(start.steps(turns)[j] is Enqueue),
{
    lemma_in_order(start, turns);
    let steps = start.steps(turns);
    if steps[j] is Enqueue {
        assert(is_started(steps[j]) || steps[j] is Enqueue);
        let k = choose|k: int| 0 <= k < j && (#[trigger] steps[k] is Install);
        assert(installed(steps, steps.len() as int));
        assert(is_started(steps[i]));
    }
}

pub(crate) proof fn lemma_step_at(start: Start, turns: Seq<StartTurn>, j: int)
    requires
        0 <= j < turns.len(),
    ensures
        start.steps(turns).len() == turns.len(),
        start.steps(turns)[j] == start.after(turns.take(j)).next(
            turns[j].watch,
            turns[j].reply,
            turns[j].now,
        ).1,
    decreases turns.len(),
{
    let earlier = turns.drop_last();
    if j < earlier.len() {
        lemma_step_at(start, earlier, j);
        assert(earlier[j] == turns[j]);
        assert(earlier.take(j) =~= turns.take(j));
    } else {
        if j > 0 {
            lemma_step_at(start, earlier, 0);
        } else {
            assert(start.steps(earlier).len() == 0);
        }
        assert(turns.take(j) =~= earlier);
    }
}

/// A start that was superseded, or that failed, has installed no watcher and had
/// no folder persisted; nor does it do so afterwards. All it ever did to the
/// watch state was to take down the watcher of the watch before it.
pub proof fn law_only_a_started_watch_is_installed(
    start: Start,
    turns: Seq<StartTurn>,
    i: int,
    j: int,
)
    requires
        start.stage is Begin,
        0 <= i < turns.len(),
        0 <= j < turns.len(),
        start.steps(turns)[i] matches StartStep::Finish(result) && result != Ok::<_, Seq<char>>(
            WatchStartOutcome::Started,
        ),
    ensures
        !(start.steps(turns)[j] is Install),
        ({
            let after = start.after(turns.take(j)).watch_after(turns[j].watch, turns[j].reply);
            after == turns[j].watch || after == turns[j].watch.begun(start.expected)
        }),
{
    lemma_in_order(start, turns);
    let steps = start.steps(turns);
    if steps[j] is Install {
        assert(installed(steps, steps.len() as int));
        assert(is_started(steps[i]));
    }
    lemma_step_at(start, turns, j);
    lemma_expected_is_kept(start, turns.take(j));
}

/// Files are queued, and success is reported, only after the watcher was
/// installed.
pub proof fn law_install_comes_first(start: Start, turns: Seq<StartTurn>, i: int)
    requires
        start.stage is Begin,
        0 <= i < turns.len(),
        start.steps(turns)[i] is Enqueue || start.steps(turns)[i] == StartStep::Finish(
            Ok(WatchStartOutcome::Started),
        ),
    ensures
        exists|j: int| 0 <= j < i && (#[trigger] start.steps(turns)[j] is Install),
{
    lemma_in_order(start, turns);
    let steps = start.steps(turns);
    assert(is_started(steps[i]) || steps[i] is Enqueue);
    assert(installed(steps, i));
}

/// A start that was overtaken before its first step ends there and then: it
/// takes nothing down, reads nothing and changes nothing.
pub proof fn law_stale_start_has_no_effect(start: Start, turns: Seq<StartTurn>)
    requires
        start.stage is Begin,
        turns.len() > 0,
        turns[0].watch.generation != start.expected,
    ensures
        start.steps(turns)[0] == StartStep::Finish(Ok(WatchStartOutcome::Superseded)),
        forall|i: int|
            0 < i < turns.len() ==> #[trigger] start.steps(turns)[i] == StartStep::Idle,
        forall|i: int|
            0 <= i < turns.len() ==> start.after(turns.take(i)).watch_after(
                (#[trigger] turns[i]).watch,
                turns[i].reply,
            ) == turns[i].watch,
        start.after(turns).stage is Finished,
        start.steps(turns).len() == turns.len(),
    decreases turns.len(),
{
    let earlier = turns.drop_last();
    assert forall|i: int| 0 <= i < earlier.len() implies #[trigger] turns.take(i) =~= earlier.take(
        i,
    ) by {}
    assert(turns.take(earlier.len() as int) =~= earlier);
    if earlier.len() == 0 {
        assert(start.after(earlier) == start);
        assert(start.steps(earlier) =~= Seq::empty());
        assert(turns.last() == turns[0]);
    } else {
        assert(earlier[0] == turns[0]);
        law_stale_start_has_no_effect(start, earlier);
        assert forall|i: int| 0 <= i < turns.len() implies start.after(turns.take(i)).watch_after(
            (#[trigger] turns[i]).watch,
            turns[i].reply,
        ) == turns[i].watch by {
            if i < earlier.len() {
                assert(earlier[i] == turns[i]);
                assert(turns.take(i) =~= earlier.take(i));
            }
        }
    }
}

/// A start acts on the watch state only through the steps that are open to it,
/// in the name of its own generation, and so never once it was overtaken.
pub proof fn law_start_acts_in_its_own_name(start: Start, watch: Watch, reply: Reply)
    ensures
        ({
            let after = start.watch_after(watch, reply);
            ||| after == watch
            ||| after == watch.applied(crate::watch::WatchOp::Begin { expected: start.expected })
            ||| after == watch.applied(
                crate::watch::WatchOp::Commit { expected: start.expected, folder: start.folder },
            )
        }),
        watch.generation != start.expected ==> start.watch_after(watch, reply) == watch,
        start.watch_after(watch, reply).generation == watch.generation,
{
}

/// What a start commits is complete: the step that installs the watcher records
/// both the watcher and the folder, and has the same folder persisted.
pub proof fn law_committed_state_is_complete(start: Start, watch: Watch, reply: Reply, now: u64)
    requires
        start.next(watch, reply, now).1 is Install,
    ensures
        start.watch_after(watch, reply) == (Watch {
            generation: start.expected,
            watcher: Some(start.expected),
            folder: Some(start.folder),
        }),
        start.next(watch, reply, now).1 == StartStep::Install(
            StoreUpdate::Put {
                key: crate::watch::WATCHED_FOLDER_STORE_KEY@,
                value: start.folder,
            },
        ),
{
}

/// How the files queued so far relate to the entries listed so far.
spec fn files_add_up(stage: Stage, listed: Seq<Entry>, queued: Seq<Seq<char>>) -> bool {
    let files = crate::scan::files_among(listed);
    match stage {
        Stage::Begin { .. } => listed.len() == 0 && queued.len() == 0,
        Stage::Scanning(walk) => queued.len() == 0 && walk.files + crate::scan::files_among(
            walk.entries,
        ) == files,
        Stage::Creating(found) => queued.len() == 0 && found == files,
        Stage::Watching(found) => queued.len() == 0 && found == files,
        Stage::Enqueueing(rest) => queued + rest == files,
        Stage::Finished => queued.is_prefix_of(files),
    }
}

proof fn lemma_files_among_parts(front: Seq<Entry>, back: Seq<Entry>)
    ensures
        crate::scan::files_among(front + back) == crate::scan::files_among(front)
            + crate::scan::files_among(back),
    decreases back.len(),
{
    if back.len() == 0 {
        assert(front + back =~= front);
        assert(crate::scan::files_among(front) + crate::scan::files_among(back)
            =~= crate::scan::files_among(front));
    } else {
        lemma_files_among_parts(front, back.drop_last());
        assert((front + back).drop_last() =~= front + back.drop_last());
        assert((front + back).last() == back.last());
        assert(crate::scan::files_among(front + back) =~= crate::scan::files_among(front)
            + crate::scan::files_among(back));
    }
}

proof fn lemma_walk_keeps_files(walk: Walk, superseded: bool, files: Seq<Seq<char>>)
    requires
        walk.files + crate::scan::files_among(walk.entries) == files,
    ensures
        ({
            let (after, step) = walk.next(superseded);
            match step {
                ScanStep::Complete(found) => found == files,
                _ => after.files + crate::scan::files_among(after.entries) == files,
            }
        }),
{
    if !superseded {
        if walk.entries.len() > 0 {
            let first = walk.entries[0];
            let rest = walk.entries.drop_first();
            assert(walk.entries =~= seq![first] + rest);
            lemma_files_among_parts(seq![first], rest);
            assert(seq![first].drop_last() =~= Seq::<Entry>::empty());
            assert(crate::scan::files_among(Seq::<Entry>::empty()) =~= Seq::<Seq<char>>::empty());
            let after = walk.visited();
            if first.is_dir {
                assert(after.files + crate::scan::files_among(rest) =~= files);
            } else {
                assert(crate::scan::files_among(seq![first]) =~= seq![first.path]);
                assert(after.files + crate::scan::files_among(rest) =~= files);
            }
        } else if walk.directories.len() == 0 {
            assert(walk.files =~= files);
        }
    }
}

proof fn lemma_files_add_up(start: Start, turns: Seq<StartTurn>)
    requires
        start.stage is Begin,
    ensures
        files_add_up(start.after(turns).stage, start.listed(turns), enqueued(start.steps(turns))),
    decreases turns.len(),
{
    if turns.len() > 0 {
        let earlier = turns.drop_last();
        lemma_files_add_up(start, earlier);
        let before = start.after(earlier);
        let turn = turns.last();
        let superseded = turn.watch.generation != before.expected;
        let listed = start.listed(turns);
        let files = crate::scan::files_among(listed);
        let steps = start.steps(turns);
        assert(steps.drop_last() =~= start.steps(earlier));
        let queued = enqueued(start.steps(earlier));
        match before.stage {
            Stage::Begin { .. } => {
                assert(Seq::<Seq<char>>::empty() + Seq::<Seq<char>>::empty() =~= Seq::<
                    Seq<char>,
                >::empty());
                assert(queued.is_prefix_of(files));
            },
            Stage::Scanning(walk) => {
                assert(queued.is_prefix_of(files));
                match turn.reply {
                    Reply::ReadFailed { .. } => {},
                    Reply::Listing(entries) => {
                        lemma_files_among_parts(start.listed(earlier), entries);
                        lemma_files_among_parts(walk.entries, entries);
                        assert(walk.files + crate::scan::files_among(walk.entries + entries)
                            =~= files);
                        lemma_walk_keeps_files(walk.delivered(entries), superseded, files);
                    },
                    _ => {
                        lemma_walk_keeps_files(walk, superseded, files);
                    },
                }
            },
            Stage::Creating(_) => {
                assert(queued.is_prefix_of(files));
            },
            Stage::Watching(found) => {
                assert(queued.is_prefix_of(files));
                assert(queued + found =~= files);
            },
            Stage::Enqueueing(rest) => {
                assert(queued =~= files.subrange(0, queued.len() as int));
                if rest.len() > 0 {
                    assert(queued.push(rest[0]) + rest.drop_first() =~= queued + rest);
                }
            },
            Stage::Finished => {},
        }
    }
}

/// The files queued are the files that the walk found, in the order in which it
/// found them, from the first one on.
pub proof fn law_found_files_are_queued_in_order(start: Start, turns: Seq<StartTurn>)
    requires
        start.stage is Begin,
    ensures
        enqueued(start.steps(turns)).is_prefix_of(crate::scan::files_among(start.listed(turns))),
{
    lemma_files_add_up(start, turns);
    let files = crate::scan::files_among(start.listed(turns));
    let queued = enqueued(start.steps(turns));
    assert(queued =~= files.subrange(0, queued.len() as int));
}

/// A start that reports success while it is still current has queued every file
/// that the walk found.
pub proof fn law_unchallenged_start_queues_every_file(start: Start, turns: Seq<StartTurn>)
    requires
        start.stage is Begin,
        turns.len() > 0,
        turns.last().watch.generation == start.expected,
        start.steps(turns).last() == StartStep::Finish(Ok(WatchStartOutcome::Started)),
    ensures
        enqueued(start.steps(turns)) == crate::scan::files_among(start.listed(turns)),
{
    lemma_files_add_up(start, turns.drop_last());
    lemma_expected_is_kept(start, turns.drop_last());
    let queued = enqueued(start.steps(turns.drop_last()));
    assert(start.steps(turns).drop_last() =~= start.steps(turns.drop_last()));
    assert(queued + Seq::<Seq<char>>::empty() =~= queued);
    match start.after(turns.drop_last()).stage {
        Stage::Enqueueing(rest) => {
            assert(rest =~= Seq::<Seq<char>>::empty());
        },
        _ => {},
    }
}

pub(crate) proof fn lemma_expected_is_kept(start: Start, turns: Seq<StartTurn>)
    ensures
        start.after(turns).expected == start.expected,
        start.after(turns).folder == start.folder,
    decreases turns.len(),
{
    if turns.len() > 0 {
        lemma_expected_is_kept(start, turns.drop_last());
    }
}

/// What a step asks for tells what it did to the watch state: tearing down takes
/// the watcher away and nothing else, installing puts the start's own watcher and
/// folder in place, and every other step leaves the state as it was.
pub proof fn law_watch_state_follows_the_steps(start: Start, turn: StartTurn)
    ensures
        ({
            let watch = turn.watch;
            let after = start.watch_after(watch, turn.reply);
            match start.next(watch, turn.reply, turn.now).1 {
                StartStep::TearDown => after.watcher is None && after.folder == watch.folder
                    && after.generation == watch.generation,
                StartStep::Install(update) => {
                    &&& after.watcher == Some(start.expected)
                    &&& after.folder == Some(start.folder)
                    &&& after.generation == watch.generation
                    &&& update == (StoreUpdate::Put {
                        key: "watched_folder"@,
                        value: start.folder,
                    })
                },
                _ => after == watch,
            }
        }),
{
}

/// A start that ends does so for a reason that its last turn shows: it reports
/// that it was superseded only if it was overtaken, and an error only if what was
/// asked for failed, with the reason that was given for that.
pub proof fn law_start_ends_for_a_reason(start: Start, turns: Seq<StartTurn>, i: int)
    requires
        0 <= i < turns.len(),
    ensures
        start.steps(turns)[i] == StartStep::Finish(Ok(WatchStartOutcome::Superseded))
            ==> turns[i].watch.generation != start.expected,
        start.steps(turns)[i] matches StartStep::Finish(Err(message)) ==> match turns[i].reply {
            Reply::ReadFailed { directory, error } => message == "Failed to read directory "@
                + directory + ": "@ + error,
            Reply::WatcherFailed(error) => message == "Failed to create watcher: "@ + error
                || message == "Failed to watch folder: "@ + error,
            _ => false,
        },
{
    lemma_step_at(start, turns, i);
    lemma_expected_is_kept(start, turns.take(i));
}

/// A start that was superseded, or that failed, leaves the folder that counted as
/// watched before it, in every one of its steps.
pub proof fn law_unsuccessful_start_keeps_the_folder(
    start: Start,
    turns: Seq<StartTurn>,
    i: int,
    j: int,
)
    requires
        start.stage is Begin,
        0 <= i < turns.len(),
        0 <= j < turns.len(),
        start.steps(turns)[i] matches StartStep::Finish(result) && result != Ok::<_, Seq<char>>(
            WatchStartOutcome::Started,
        ),
    ensures
        ({
            let after = start.after(turns.take(j)).watch_after(turns[j].watch, turns[j].reply);
            after.folder == turns[j].watch.folder && after.generation == turns[j].watch.generation
        }),
{
    law_only_a_started_watch_is_installed(start, turns, i, j);
}

proof fn lemma_stage_after_step(start: Start, turn: StartTurn)
    ensures
        ({
            let (after, step) = start.next(turn.watch, turn.reply, turn.now);
            match step {
                StartStep::TearDown => after.stage is Scanning,
                StartStep::ReadDirectory(_) => after.stage is Scanning,
                StartStep::Announce { .. } => after.stage is Scanning,
                StartStep::CreateWatcher => after.stage is Creating,
                StartStep::WatchFolder => after.stage is Watching,
                StartStep::Install(_) => after.stage is Enqueueing,
                StartStep::Enqueue { .. } => after.stage is Enqueueing,
                StartStep::Finish(_) => after.stage is Finished,
                StartStep::Idle => after.stage is Finished,
            }
        }),
{
}

proof fn lemma_state_at(start: Start, turns: Seq<StartTurn>, j: int)
    requires
        0 <= j < turns.len(),
    ensures
        start.after(turns.take(j + 1)) == start.after(turns.take(j)).next(
            turns[j].watch,
            turns[j].reply,
            turns[j].now,
        ).0,
{
    assert(turns.take(j + 1).drop_last() =~= turns.take(j));
    assert(turns.take(j + 1).last() == turns[j]);
}

/// A start begins by taking down the watch before it, unless it was overtaken.
pub proof fn law_start_begins_with_the_tear_down(start: Start, turns: Seq<StartTurn>)
    requires
        start.stage is Begin,
        turns.len() > 0,
    ensures
        start.steps(turns)[0] == (if turns[0].watch.generation == start.expected {
            StartStep::TearDown
        } else {
            StartStep::Finish(Ok(WatchStartOutcome::Superseded))
        }),
{
    lemma_step_at(start, turns, 0);
    assert(start.after(turns.take(0)) == start);
}

/// What a start asked for before decides, with the reply to it, what it asks for
/// next. During the walk it goes on until the walk is over; then it creates the
/// watcher, lets it watch, installs it, and queues files. A failure ends it with
/// its message wherever it strikes; being overtaken ends it during the walk and
/// where the watcher would be installed, and only cuts the queueing short.
pub proof fn law_one_step_leads_to_the_next(start: Start, turns: Seq<StartTurn>, i: int)
    requires
        0 < i < turns.len(),
    ensures
        ({
            let step = start.steps(turns)[i];
            let overtaken = turns[i].watch.generation != start.expected;
            let superseded = StartStep::Finish(Ok(WatchStartOutcome::Superseded));
            let started = StartStep::Finish(Ok(WatchStartOutcome::Started));
            match (start.steps(turns)[i - 1], turns[i].reply) {
                (
                    StartStep::TearDown
                    | StartStep::ReadDirectory(_)
                    | StartStep::Announce { .. },
                    Reply::ReadFailed { directory, error },
                ) => step == StartStep::Finish(
                    Err("Failed to read directory "@ + directory + ": "@ + error),
                ),
                (
                    StartStep::TearDown
                    | StartStep::ReadDirectory(_)
                    | StartStep::Announce { .. },
                    _,
                ) => if overtaken {
                    step == superseded
                } else {
                    step is ReadDirectory || step is Announce || step is CreateWatcher
                },
                (StartStep::CreateWatcher, Reply::WatcherFailed(error)) => step
                    == StartStep::Finish(Err("Failed to create watcher: "@ + error)),
                (StartStep::CreateWatcher, _) => step is WatchFolder,
                (StartStep::WatchFolder, Reply::WatcherFailed(error)) => step == StartStep::Finish(
                    Err("Failed to watch folder: "@ + error),
                ),
                (StartStep::WatchFolder, _) => if overtaken {
                    step == superseded
                } else {
                    step == StartStep::Install(
                        StoreUpdate::Put { key: "watched_folder"@, value: start.folder },
                    )
                },
                (StartStep::Install(_) | StartStep::Enqueue { .. }, _) => if overtaken {
                    step == started
                } else {
                    step is Enqueue || step == started
                },
                (StartStep::Finish(_) | StartStep::Idle, _) => step is Idle,
            }
        }),
{
    lemma_step_at(start, turns, i - 1);
    lemma_step_at(start, turns, i);
    lemma_state_at(start, turns, i - 1);
    lemma_expected_is_kept(start, turns.take(i));
    lemma_stage_after_step(start.after(turns.take(i - 1)), turns[i - 1]);
}

/// Nobody overtakes the start at any of its turns, and nothing that it asks for
/// fails.
pub open spec fn unchallenged(start: Start, turns: Seq<StartTurn>) -> bool {
    forall|i: int|
        0 <= i < turns.len() ==> {
            &&& (#[trigger] turns[i]).watch.generation == start.expected
            &&& !(turns[i].reply is ReadFailed)
            &&& !(turns[i].reply is WatcherFailed)
        }
}

proof fn lemma_unchallenged_count(start: Start, turns: Seq<StartTurn>)
    requires
        start.stage is Begin,
        unchallenged(start, turns),
    ensures
        ({
            let listed = start.listed(turns).len();
            let n = turns.len();
            match start.after(turns).stage {
                Stage::Begin { .. } => n == 0,
                Stage::Scanning(walk) => walk.entries.len() <= listed && n == 2 + 2 * (listed
                    - walk.entries.len()) - walk.files.len() - walk.directories.len(),
                Stage::Creating(found) => n == 3 + 2 * listed - found.len(),
                Stage::Watching(found) => n == 4 + 2 * listed - found.len(),
                Stage::Enqueueing(rest) => n == 5 + 2 * listed - rest.len(),
                Stage::Finished => n >= 6 + 2 * listed && start.steps(turns)[5 + 2 * listed as int]
                    == StartStep::Finish(Ok(WatchStartOutcome::Started)),
            }
        }),
    decreases turns.len(),
{
    if turns.len() > 0 {
        let earlier = turns.drop_last();
        assert(forall|i: int| 0 <= i < earlier.len() ==> #[trigger] earlier[i] == turns[i]);
        lemma_unchallenged_count(start, earlier);
        lemma_expected_is_kept(start, earlier);
        assert(turns.last() == turns[turns.len() - 1]);
        if earlier.len() > 0 {
            lemma_step_at(start, earlier, 0);
        }
        assert(start.steps(turns).drop_last() =~= start.steps(earlier));
    }
}

/// A start that nobody overtakes and for which nothing fails succeeds, whatever it
/// finds, be it nothing at all: after two turns for each entry and six more it has
/// reported success, and before that it has installed its watcher.
pub proof fn law_unchallenged_start_succeeds(start: Start, turns: Seq<StartTurn>)
    requires
        start.stage is Begin,
        unchallenged(start, turns),
        turns.len() >= 6 + 2 * start.listed(turns).len(),
    ensures
        start.steps(turns)[5 + 2 * start.listed(turns).len() as int] == StartStep::Finish(
            Ok(WatchStartOutcome::Started),
        ),
        exists|j: int|
            0 <= j < 5 + 2 * start.listed(turns).len() && (#[trigger] start.steps(turns)[j] is
                Install),
{
    lemma_unchallenged_count(start, turns);
    lemma_files_add_up(start, turns);
    law_install_comes_first(start, turns, 5 + 2 * start.listed(turns).len() as int);
}

proof fn lemma_listed_stays(start: Start, turns: Seq<StartTurn>, c: int)
    requires
        0 <= c <= turns.len(),
        match start.after(turns.take(c)).stage {
            Stage::Begin { .. } => false,
            Stage::Scanning(_) => false,
            _ => true,
        },
    ensures
        start.listed(turns) == start.listed(turns.take(c)),
        match start.after(turns).stage {
            Stage::Begin { .. } => false,
            Stage::Scanning(_) => false,
            _ => true,
        },
    decreases turns.len(),
{
    if c == turns.len() {
        assert(turns.take(c) =~= turns);
    } else {
        let earlier = turns.drop_last();
        assert(earlier.take(c) =~= turns.take(c));
        lemma_listed_stays(start, earlier, c);
    }
}

proof fn lemma_queueing_goes_on(
    start: Start,
    turns: Seq<StartTurn>,
    from: int,
    files: Seq<Seq<char>>,
    k: int,
)
    requires
        unchallenged(start, turns),
        0 <= k <= files.len(),
        0 <= from,
        from + k <= turns.len(),
        start.after(turns.take(from)).stage == Stage::Enqueueing(files),
    ensures
        start.after(turns.take(from + k)).stage == Stage::Enqueueing(files.skip(k)),
    decreases k,
{
    if k == 0 {
        assert(files.skip(0) =~= files);
    } else {
        lemma_queueing_goes_on(start, turns, from, files, k - 1);
        lemma_state_at(start, turns, from + k - 1);
        lemma_expected_is_kept(start, turns.take(from + k - 1));
        assert(turns[from + k - 1].watch.generation == start.expected);
        assert(files.skip(k - 1).drop_first() =~= files.skip(k));
    }
}

/// Once the walk of a start that nobody overtakes is over, at turn `c`, and nothing
/// fails, the watcher is created, watches, and is installed; then every file found
/// is queued, in order and with the watched folder, if there is any; then the start
/// reports success. What it installs is what is watched.
pub proof fn law_unchallenged_start_goes_through(start: Start, turns: Seq<StartTurn>, c: int)
    requires
        start.stage is Begin,
        unchallenged(start, turns),
        0 <= c < turns.len(),
        start.steps(turns)[c] is CreateWatcher,
    ensures
        ({
            let steps = start.steps(turns);
            let files = crate::scan::files_among(start.listed(turns));
            let n = turns.len() as int;
            &&& c + 1 < n ==> steps[c + 1] is WatchFolder
            &&& c + 2 < n ==> {
                &&& steps[c + 2] == StartStep::Install(
                    StoreUpdate::Put { key: "watched_folder"@, value: start.folder },
                )
                &&& start.after(turns.take(c + 2)).watch_after(
                    turns[c + 2].watch,
                    turns[c + 2].reply,
                ) == (Watch {
                    generation: start.expected,
                    watcher: Some(start.expected),
                    folder: Some(start.folder),
                })
            }
            &&& forall|i: int|
                c + 3 <= i < n && i < c + 3 + files.len() ==> #[trigger] steps[i] == (
                StartStep::Enqueue { path: files[i - c - 3], base_path: start.folder })
            &&& c + 3 + files.len() < n ==> steps[c + 3 + files.len()] == StartStep::Finish(
                Ok(WatchStartOutcome::Started),
            )
        }),
{
    let steps = start.steps(turns);
    let files = crate::scan::files_among(start.listed(turns));
    lemma_step_at(start, turns, c);
    lemma_state_at(start, turns, c);
    lemma_stage_after_step(start.after(turns.take(c)), turns[c]);
    lemma_files_add_up(start, turns.take(c + 1));
    lemma_listed_stays(start, turns, c + 1);
    assert(start.after(turns.take(c + 1)).stage == Stage::Creating(files));
    if c + 1 < turns.len() {
        lemma_step_at(start, turns, c + 1);
        lemma_state_at(start, turns, c + 1);
        assert(!(turns[c + 1].reply is WatcherFailed));
        assert(start.after(turns.take(c + 2)).stage == Stage::Watching(files));
    }
    if c + 2 < turns.len() {
        lemma_step_at(start, turns, c + 2);
        lemma_state_at(start, turns, c + 2);
        lemma_expected_is_kept(start, turns.take(c + 2));
        assert(turns[c + 2].watch.generation == start.expected);
        assert(start.after(turns.take(c + 3)).stage == Stage::Enqueueing(files));
        assert forall|i: int| c + 3 <= i < turns.len() && i < c + 3 + files.len() implies #[trigger]
            steps[i] == (StartStep::Enqueue {
            path: files[i - c - 3],
            base_path: start.folder,
        }) by {
            lemma_queueing_goes_on(start, turns, c + 3, files, i - c - 3);
            lemma_step_at(start, turns, i);
            lemma_expected_is_kept(start, turns.take(i));
            assert(turns[i].watch.generation == start.expected);
        }
        let end = c + 3 + files.len();
        if end < turns.len() {
            lemma_queueing_goes_on(start, turns, c + 3, files, files.len() as int);
            lemma_step_at(start, turns, end);
        }
    }
}

/// While a start walks, it does what the walk wants: it asks for the directory
/// that the walk asks for, announces the entry that the walk visits, goes on to the
/// watcher with the files of a walk that is complete, and is superseded when the
/// walk is aborted. An entry is announced by its path, as `initial` and with the
/// time of the step; a directory has the status `directory` as well, under what
/// its path holds beyond the watched folder and a separator; no other entry has a
/// status.
pub proof fn law_start_does_what_the_walk_wants(
    start: Start,
    walk: Walk,
    turn: StartTurn,
    separator: char,
    name: Seq<char>,
)
    requires
        start.stage == Stage::Scanning(walk),
        !(turn.reply is ReadFailed),
        separator == '/' || separator == '\\',
    ensures
        ({
            let delivered = match turn.reply {
                Reply::Listing(entries) => entries,
                _ => Seq::empty(),
            };
            let superseded = turn.watch.generation != start.expected;
            let (walked, wanted) = walk.turn(crate::scan::ScanTurn { delivered, superseded });
            let (after, step) = start.next(turn.watch, turn.reply, turn.now);
            &&& after.folder == start.folder && after.expected == start.expected
            &&& match wanted {
                ScanStep::ReadDirectory(handle) => step == StartStep::ReadDirectory(handle)
                    && after.stage == Stage::Scanning(walked),
                ScanStep::Visit { path, is_dir } => {
                    &&& after.stage == Stage::Scanning(walked)
                    &&& step matches StartStep::Announce { event, status }
                    &&& event.path == path
                    &&& event.event_type == "initial"@
                    &&& event.timestamp == turn.now
                    &&& status is Some <==> is_dir
                    &&& status matches Some(status) ==> {
                        &&& status.status == "directory"@
                        &&& status.error is None
                        &&& start.folder.len() > 0 && path == start.folder.push(separator) + name
                            ==> status.relative_path == name
                    }
                },
                ScanStep::Complete(files) => step is CreateWatcher && after.stage
                    == Stage::Creating(files),
                ScanStep::Aborted => step == StartStep::Finish(Ok(WatchStartOutcome::Superseded)),
            }
        }),
{
    assert(walk.delivered(Seq::empty()) =~= walk);
    if start.folder.len() > 0 {
        crate::paths::law_relative_path_undoes_join(start.folder, separator, name);
    }
}

} // verus!
