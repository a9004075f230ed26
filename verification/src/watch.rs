//! Who owns the watch.
//!
//! Starting to watch a folder takes long, since the folder is walked first,
//! and the user may ask for something else meanwhile. Every request bumps a
//! generation; a start remembers the generation it was given and may touch the
//! shared state only while that generation is still the current one.

use crate::text::joined;
use vstd::prelude::*;

verus! {

/// Key under which the watched folder is kept in the settings store.
pub const WATCHED_FOLDER_STORE_KEY: &'static str = "watched_folder";

/// How a start that met no error ended.
#[derive(Clone, Copy, Debug, PartialEq, Eq, Structural)]
pub enum WatchStartOutcome {
    Started,
    Superseded,
}

/// A change to the settings store.
#[derive(Debug, PartialEq, Eq)]
pub enum StoreCommand {
    Put { key: String, value: String },
    Delete { key: String },
}

/// Model of a [`StoreCommand`].
pub enum StoreUpdate {
    Put { key: Seq<char>, value: Seq<char> },
    Delete { key: Seq<char> },
}

impl View for StoreCommand {
    type V = StoreUpdate;

    open spec fn view(&self) -> StoreUpdate {
        match self {
            StoreCommand::Put { key, value } => StoreUpdate::Put { key: key@, value: value@ },
            StoreCommand::Delete { key } => StoreUpdate::Delete { key: key@ },
        }
    }
}

/// Shared state of the watch. `watcher` names the installed watcher by the
/// generation of the start that installed it.
#[derive(Debug, PartialEq, Eq)]
pub struct WatchState {
    generation: u64,
    watcher: Option<u64>,
    folder: Option<String>,
}

/// Model of a [`WatchState`].
#[verifier::ext_equal]
pub struct Watch {
    pub generation: u64,
    pub watcher: Option<u64>,
    pub folder: Option<Seq<char>>,
}

impl Watch {
    pub open spec fn initial() -> Watch {
        Watch { generation: 0, watcher: None, folder: None }
    }

    /// The state after a request took the next generation.
    pub open spec fn requested(self) -> Watch {
        Watch { generation: next_generation(self.generation), ..self }
    }

    /// The state after the user stopped watching.
    pub open spec fn stopped(self) -> Watch {
        Watch { generation: next_generation(self.generation), watcher: None, folder: None }
    }

    /// The state after the start with generation `expected` set out.
    pub open spec fn begun(self, expected: u64) -> Watch {
        if self.generation == expected {
            Watch { watcher: None, ..self }
        } else {
            self
        }
    }

    /// The state after the start with generation `expected` tried to install
    /// its watcher on `folder`.
    pub open spec fn committed(self, expected: u64, folder: Seq<char>) -> Watch {
        if self.generation == expected {
            Watch { watcher: Some(expected), folder: Some(folder), ..self }
        } else {
            self
        }
    }

    /// The state after a resumed watch was announced and requested.
    pub open spec fn resuming(self, folder: Seq<char>) -> Watch {
        Watch { folder: Some(folder), ..self }.requested()
    }

    /// The state after the resume with generation `expected` failed.
    pub open spec fn resume_failed(self, expected: u64) -> Watch {
        if self.generation == expected {
            Watch { folder: None, ..self }
        } else {
            self
        }
    }
}

/// Generations count up and start over at zero.
pub open spec fn next_generation(generation: u64) -> u64 {
    if generation == u64::MAX {
        0
    } else {
        (generation + 1) as u64
    }
}

impl View for WatchState {
    type V = Watch;

    closed spec fn view(&self) -> Watch {
        Watch {
            generation: self.generation,
            watcher: self.watcher,
            folder: self.folder.deep_view(),
        }
    }
}

impl WatchState {
    /// Nothing is watched and nothing was asked for.
    pub fn new() -> (state: WatchState)
        ensures
            state@ == Watch::initial(),
            state@.generation == 0 && state@.watcher is None && state@.folder is None,
    {
        WatchState { generation: 0, watcher: None, folder: None }
    }

    /// The generation of the latest request.
    pub fn generation(&self) -> (generation: u64)
        ensures
            generation == self@.generation,
    {
        self.generation
    }

    /// The generation of the start whose watcher is installed, if one is.
    pub fn watcher(&self) -> (watcher: Option<u64>)
        ensures
            watcher == self@.watcher,
    {
        self.watcher
    }

    /// The folder being watched, if any.
    pub fn get_watched_folder(&self) -> (folder: Option<String>)
        ensures
            folder.deep_view() == self@.folder,
    {
        match &self.folder {
            Some(folder) => Some(folder.clone()),
            None => None,
        }
    }

    /// Whether a newer request overtook the start with generation `expected`.
    pub fn is_superseded(&self, expected: u64) -> (superseded: bool)
        ensures
            superseded == (self@.generation != expected),
    {
        self.generation != expected
    }

    /// Takes a generation for a new start and supersedes every earlier one.
    pub fn request_start(&mut self) -> (expected: u64)
        ensures
            final(self)@ == old(self)@.requested(),
            expected == final(self)@.generation,
            expected as int == (old(self)@.generation + 1) % 0x1_0000_0000_0000_0000,
            final(self)@.watcher == old(self)@.watcher,
            final(self)@.folder == old(self)@.folder,
    {
        self.generation = self.generation.wrapping_add(1);
        self.generation
    }

    /// Lets the start with generation `expected` set out: if it is current, the
    /// watcher of an earlier watch goes; if it was overtaken, nothing happens.
    pub fn begin_start(&mut self, expected: u64) -> (current: bool)
        ensures
            final(self)@ == old(self)@.begun(expected),
            current == (old(self)@.generation == expected),
            final(self)@.watcher == (if current {
                None
            } else {
                old(self)@.watcher
            }),
            final(self)@.folder == old(self)@.folder,
            final(self)@.generation == old(self)@.generation,
    {
        if self.generation != expected {
            return false;
        }
        self.watcher = None;
        true
    }

    /// Records the watch of `folder` for the start with generation `expected`
    /// and says how to persist it, so that watching resumes on the next launch.
    /// A start that was overtaken changes nothing and gets `None`.
    pub fn commit_start(&mut self, expected: u64, folder: &String) -> (persist: Option<
        StoreCommand,
    >)
        ensures
            final(self)@ == old(self)@.committed(expected, folder@),
            persist is Some <==> old(self)@.generation == expected,
            persist is Some ==> final(self)@.watcher == Some(expected) && final(self)@.folder
                == Some(folder@) && final(self)@.generation == old(self)@.generation,
            persist is None ==> final(self)@ == old(self)@,
            persist is Some ==> (persist->0 matches StoreCommand::Put { key, value } && key@
                == "watched_folder"@ && value@ == folder@),
            persist matches Some(command) ==> command@ == (StoreUpdate::Put {
                key: WATCHED_FOLDER_STORE_KEY@,
                value: folder@,
            }),
    {
        if self.generation != expected {
            return None;
        }
        self.watcher = Some(expected);
        self.folder = Some(folder.clone());
        Some(
            StoreCommand::Put {
                key: WATCHED_FOLDER_STORE_KEY.to_owned(),
                value: folder.clone(),
            },
        )
    }

    /// Stops watching: supersedes every start, forgets the watcher and the
    /// folder, and says how to make sure that nothing is resumed later.
    pub fn stop_watching(&mut self) -> (persist: StoreCommand)
        ensures
            final(self)@ == old(self)@.stopped(),
            final(self)@.generation as int == (old(self)@.generation + 1)
                % 0x1_0000_0000_0000_0000,
            final(self)@.watcher is None,
            final(self)@.folder is None,
            persist@ == (StoreUpdate::Delete { key: WATCHED_FOLDER_STORE_KEY@ }),
            persist matches StoreCommand::Delete { key } && key@ == "watched_folder"@,
    {
        self.generation = self.generation.wrapping_add(1);
        self.watcher = None;
        self.folder = None;
        StoreCommand::Delete { key: WATCHED_FOLDER_STORE_KEY.to_owned() }
    }

    /// Lets `folder` count as watched ahead of its watch.
    pub(crate) fn publish_folder(&mut self, folder: &String)
        ensures
            final(self)@ == (Watch { folder: Some(folder@), ..old(self)@ }),
    {
        self.folder = Some(folder.clone());
    }

    /// Takes that back for the start with generation `expected`, if it is still
    /// current.
    pub(crate) fn withdraw_folder(&mut self, expected: u64) -> (current: bool)
        ensures
            final(self)@ == old(self)@.resume_failed(expected),
            current == (old(self)@.generation == expected),
    {
        if self.generation != expected {
            return false;
        }
        self.folder = None;
        true
    }
}

/// What the user is told when a start has ended.
pub open spec fn start_reply(
    result: Result<WatchStartOutcome, Seq<char>>,
    folder: Seq<char>,
) -> Result<Seq<char>, Seq<char>> {
    match result {
        Ok(WatchStartOutcome::Started) => Ok("Started watching: "@ + folder),
        Ok(WatchStartOutcome::Superseded) => Ok("Watch superseded by a newer request"@),
        Err(error) => Err(error),
    }
}

/// Answers a request to watch `folder`.
pub fn start_watching_reply(result: Result<WatchStartOutcome, String>, folder: &str) -> (reply:
    Result<String, String>)
    ensures
        crate::text::result_text(reply) == start_reply(
            match result {
                Ok(outcome) => Ok(outcome),
                Err(error) => Err(error@),
            },
            folder@,
        ),
        match result {
            Ok(WatchStartOutcome::Started) => reply matches Ok(text) && text@
                == "Started watching: "@ + folder@,
            Ok(WatchStartOutcome::Superseded) => reply matches Ok(text) && text@
                == "Watch superseded by a newer request"@,
            Err(error) => reply matches Err(message) && message@ == error@,
        },
{
    match result {
        Ok(WatchStartOutcome::Started) => Ok(joined("Started watching: ", folder)),
        Ok(WatchStartOutcome::Superseded) => Ok("Watch superseded by a newer request".to_owned()),
        Err(error) => Err(error),
    }
}

/// Answers a request to stop watching.
pub fn stop_watching_reply() -> (reply: String)
    ensures
        reply@ == "Stopped watching"@,
{
    "Stopped watching".to_owned()
}

/// One atomic step on the shared state: a request, or a step that a start takes
/// in the name of the generation it was given.
pub enum WatchOp {
    RequestStart,
    Resume { folder: Seq<char> },
    Stop,
    Begin { expected: u64 },
    Commit { expected: u64, folder: Seq<char> },
    ResumeFailed { expected: u64 },
}

impl WatchOp {
    pub open spec fn is_start_request(self) -> bool {
        self is RequestStart || self is Resume
    }

    pub open spec fn is_request(self) -> bool {
        self.is_start_request() || self is Stop
    }

    /// The generation in whose name a step of a start is taken.
    pub open spec fn generation(self) -> u64 {
        match self {
            WatchOp::Begin { expected } => expected,
            WatchOp::Commit { expected, .. } => expected,
            WatchOp::ResumeFailed { expected } => expected,
            _ => arbitrary(),
        }
    }
}

impl Watch {
    pub open spec fn applied(self, op: WatchOp) -> Watch {
        match op {
            WatchOp::RequestStart => self.requested(),
            WatchOp::Resume { folder } => self.resuming(folder),
            WatchOp::Stop => self.stopped(),
            WatchOp::Begin { expected } => self.begun(expected),
            WatchOp::Commit { expected, folder } => self.committed(expected, folder),
            WatchOp::ResumeFailed { expected } => self.resume_failed(expected),
        }
    }

    /// The state after a history of steps, whoever took them.
    pub open spec fn after(self, history: Seq<WatchOp>) -> Watch
        decreases history.len(),
    {
        if history.len() == 0 {
            self
        } else {
            self.after(history.drop_last()).applied(history.last())
        }
    }
}

/// How many requests a history holds.
pub open spec fn requests(history: Seq<WatchOp>) -> nat
    decreases history.len(),
{
    if history.len() == 0 {
        0
    } else {
        requests(history.drop_last()) + if history.last().is_request() {
            1nat
        } else {
            0nat
        }
    }
}

/// Whether the request for a start that ends the first `j` steps of a history
/// was given `generation`.
pub open spec fn issues(history: Seq<WatchOp>, j: int, generation: u64) -> bool {
    &&& history[j - 1].is_start_request()
    &&& Watch::initial().after(history.take(j)).generation == generation
}

/// Every step of a start is taken in the name of a generation that an earlier
/// request for a start was given.
pub open spec fn generations_are_issued(history: Seq<WatchOp>) -> bool {
    forall|i: int|
        0 <= i < history.len() && !(#[trigger] history[i]).is_request() ==> exists|j: int|
            0 < j <= i && issues(history, j, history[i].generation())
}

/// A step taken in the name of a generation that is no longer current leaves
/// the shared state exactly as it was.
pub proof fn law_overtaken_step_changes_nothing(watch: Watch, op: WatchOp)
    requires
        !op.is_request(),
        op.generation() != watch.generation,
    ensures
        watch.applied(op) == watch,
{
}

/// A request for a start changes nothing but the generation: what is watched
/// goes on being watched until the start sets out.
pub proof fn law_request_keeps_the_current_watch(watch: Watch)
    ensures
        watch.requested().watcher == watch.watcher,
        watch.requested().folder == watch.folder,
        watch.requested().generation != watch.generation,
{
}

/// Setting out takes down the watcher of the watch before, if the start is
/// current, and nothing else: the folder that counts as watched stays, and so
/// does the generation.
pub proof fn law_setting_out_changes_only_the_watcher(watch: Watch, expected: u64)
    ensures
        watch.begun(expected).folder == watch.folder,
        watch.begun(expected).generation == watch.generation,
        watch.generation == expected ==> watch.begun(expected).watcher is None,
        watch.generation != expected ==> watch.begun(expected).watcher == watch.watcher,
{
}

/// Whatever a start finds installed, if it commits, its own watcher and its own
/// folder are what is there afterwards, and it stays current; if it was
/// overtaken, what it found is still there.
pub proof fn law_commit_installs_both_or_nothing(watch: Watch, expected: u64, folder: Seq<char>)
    ensures
        watch.committed(expected, folder).generation == watch.generation,
        watch.generation == expected ==> watch.committed(expected, folder).watcher == Some(
            expected,
        ) && watch.committed(expected, folder).folder == Some(folder),
        watch.generation != expected ==> watch.committed(expected, folder).watcher
            == watch.watcher && watch.committed(expected, folder).folder == watch.folder,
{
}

/// After a stop nothing is watched, and whoever was current no longer is.
pub proof fn law_stop_ends_the_watch(watch: Watch)
    ensures
        watch.stopped().watcher is None,
        watch.stopped().folder is None,
        watch.stopped().generation != watch.generation,
{
}

/// A folder whose watch is resumed counts as watched at once, and goes on doing
/// so while starts set out and overtaken ones try what they may, until somebody
/// asks for something else or the resume itself commits or fails.
pub proof fn law_resumed_folder_stays_published(
    watch: Watch,
    folder: Seq<char>,
    history: Seq<WatchOp>,
)
    requires
        forall|i: int|
            0 <= i < history.len() ==> match #[trigger] history[i] {
                WatchOp::Begin { .. } => true,
                WatchOp::Commit { expected, .. } => expected != watch.resuming(
                    folder,
                ).generation,
                WatchOp::ResumeFailed { expected } => expected != watch.resuming(
                    folder,
                ).generation,
                _ => false,
            },
    ensures
        watch.resuming(folder).after(history).folder == Some(folder),
        watch.resuming(folder).after(history).generation == watch.resuming(folder).generation,
        watch.resuming(folder).watcher == watch.watcher,
        watch.resuming(folder).generation as int == (watch.generation + 1)
            % 0x1_0000_0000_0000_0000,
    decreases history.len(),
{
    if history.len() > 0 {
        let earlier = history.drop_last();
        assert(forall|i: int| 0 <= i < earlier.len() ==> #[trigger] earlier[i] == history[i]);
        law_resumed_folder_stays_published(watch, folder, earlier);
        assert(history.last() == history[history.len() - 1]);
    }
}

/// The generation counts the requests, starting over at zero.
pub proof fn law_generation_counts_requests(watch: Watch, history: Seq<WatchOp>)
    ensures
        watch.after(history).generation == (watch.generation + requests(history))
            % 0x1_0000_0000_0000_0000,
    decreases history.len(),
{
    if history.len() > 0 {
        law_generation_counts_requests(watch, history.drop_last());
    }
}

/// A start that was overtaken stays superseded, however many requests follow
/// (short of the counter coming all the way round).
pub proof fn law_overtaken_start_stays_superseded(watch: Watch, history: Seq<WatchOp>)
    requires
        0 < requests(history) < 0x1_0000_0000_0000_0000,
    ensures
        watch.after(history).generation != watch.generation,
{
    law_generation_counts_requests(watch, history);
}

/// A start that no request overtakes may commit, whatever other starts do
/// meanwhile: its watcher is installed and its folder recorded.
pub proof fn law_current_start_commits(watch: Watch, history: Seq<WatchOp>, folder: Seq<char>)
    requires
        requests(history) == 0,
    ensures
        ({
            let expected = watch.requested().generation;
            let done = watch.requested().after(history).committed(expected, folder);
            done == Watch { generation: expected, watcher: Some(expected), folder: Some(folder) }
        }),
{
    law_generation_counts_requests(watch.requested(), history);
}

proof fn lemma_requests_of_prefix(history: Seq<WatchOp>, i: int, j: int)
    requires
        0 <= i <= j <= history.len(),
    ensures
        requests(history.take(i)) <= requests(history.take(j)),
        i < j && history[j - 1].is_request() ==> requests(history.take(i)) < requests(
            history.take(j),
        ),
    decreases j,
{
    if i < j {
        assert(history.take(j).drop_last() =~= history.take(j - 1));
        lemma_requests_of_prefix(history, i, j - 1);
    }
}

pub(crate) proof fn lemma_generations_grow(history: Seq<WatchOp>, i: int, j: int, k: int)
    requires
        0 <= i < j <= k <= history.len(),
        history[j - 1].is_request(),
        requests(history) < 0x1_0000_0000_0000_0000,
    ensures
        Watch::initial().after(history.take(i)).generation < Watch::initial().after(
            history.take(k),
        ).generation,
{
    lemma_requests_of_prefix(history, i, j);
    lemma_requests_of_prefix(history, j, k);
    lemma_requests_of_prefix(history, k, history.len() as int);
    assert(history.take(history.len() as int) =~= history);
    law_generation_counts_requests(Watch::initial(), history.take(i));
    law_generation_counts_requests(Watch::initial(), history.take(k));
}

/// Once the user has stopped watching, nothing is watched until a new start is
/// requested: the starts still under way cannot bring a watcher back.
pub proof fn law_nothing_is_watched_after_stop(history: Seq<WatchOp>, stop: int)
    requires
        0 <= stop < history.len(),
        history[stop] is Stop,
        forall|i: int| stop < i < history.len() ==> !(#[trigger] history[i]).is_request(),
        generations_are_issued(history),
        requests(history) < 0x1_0000_0000_0000_0000,
    ensures
        Watch::initial().after(history).watcher is None,
        Watch::initial().after(history).folder is None,
{
    lemma_state_frozen_after_stop(history, stop, history.len() as int);
    assert(history.take(history.len() as int) =~= history);
    assert(history.take(stop + 1).drop_last() =~= history.take(stop));
}

proof fn lemma_state_frozen_after_stop(history: Seq<WatchOp>, stop: int, end: int)
    requires
        0 <= stop < end <= history.len(),
        history[stop] is Stop,
        forall|i: int| stop < i < history.len() ==> !(#[trigger] history[i]).is_request(),
        generations_are_issued(history),
        requests(history) < 0x1_0000_0000_0000_0000,
    ensures
        Watch::initial().after(history.take(end)) == Watch::initial().after(
            history.take(stop + 1),
        ),
    decreases end,
{
    if end > stop + 1 {
        let start = Watch::initial();
        lemma_state_frozen_after_stop(history, stop, end - 1);
        assert(history.take(end).drop_last() =~= history.take(end - 1));
        assert(history.take(end).last() == history[end - 1]);
        let op = history[end - 1];
        let j = choose|j: int| 0 < j <= end - 1 && issues(history, j, op.generation());
        lemma_generations_grow(history, j, stop + 1, stop + 1);
        law_overtaken_step_changes_nothing(start.after(history.take(end - 1)), op);
    }
}

} // verus!
