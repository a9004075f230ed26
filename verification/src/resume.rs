//! Resuming the watch of the previous run.

use crate::watch::{WatchStartOutcome, WatchState};
#[allow(unused_imports)]
use crate::watch::{StoreUpdate, Watch, WatchOp};
use vstd::prelude::*;

verus! {

/// A value read from the settings store, as far as it matters here.
#[derive(Debug, PartialEq, Eq)]
pub enum StoredValue {
    Text(String),
    Other,
}

/// Model of a [`StoredValue`].
pub enum Stored {
    Text(Seq<char>),
    Other,
}

impl View for StoredValue {
    type V = Stored;

    open spec fn view(&self) -> Stored {
        match self {
            StoredValue::Text(text) => Stored::Text(text@),
            StoredValue::Other => Stored::Other,
        }
    }
}

/// The folder that a stored value names, if it names one.
pub open spec fn named_folder(stored: Option<Stored>) -> Option<Seq<char>> {
    match stored {
        Some(Stored::Text(folder)) => Some(folder),
        _ => None,
    }
}

/// The folder that was being watched when the client last ran.
pub fn persisted_folder(stored: Option<StoredValue>) -> (folder: Option<String>)
    ensures
        folder.deep_view() == named_folder(
            match stored {
                Some(value) => Some(value@),
                None => None,
            },
        ),
        match stored {
            Some(StoredValue::Text(text)) => folder matches Some(found) && found@ == text@,
            _ => folder is None,
        },
{
    match stored {
        Some(StoredValue::Text(folder)) => Some(folder),
        _ => None,
    }
}

/// Something to tell the front end about a folder.
#[derive(Debug, PartialEq, Eq)]
pub struct FolderNotice {
    pub event: String,
    pub folder: String,
}

/// The event, if any, that tells the front end how the resumed watch went. A
/// failure is announced only while no newer request owns the watch.
pub open spec fn resume_event(
    result: Result<WatchStartOutcome, Seq<char>>,
    superseded: bool,
) -> Option<Seq<char>> {
    match result {
        Ok(WatchStartOutcome::Started) => Some("watch_resumed"@),
        Ok(WatchStartOutcome::Superseded) => None,
        Err(_) => if superseded {
            None
        } else {
            Some("watch_resume_failed"@)
        },
    }
}

impl WatchState {
    /// Sets out to resume the watch of `folder`: the folder counts as watched
    /// from now on, before the walk is over. A folder that is not there now is
    /// left alone, to be tried again on the next launch.
    pub fn begin_resume(&mut self, folder: &String, is_dir: bool) -> (expected: Option<u64>)
        ensures
            expected is Some <==> is_dir,
            is_dir ==> final(self)@ == old(self)@.resuming(folder@) && expected == Some(
                final(self)@.generation,
            ),
            is_dir ==> {
                &&& final(self)@.folder == Some(folder@)
                &&& final(self)@.watcher == old(self)@.watcher
                &&& final(self)@.generation as int == (old(self)@.generation + 1)
                    % 0x1_0000_0000_0000_0000
            },
            !is_dir ==> final(self)@ == old(self)@,
    {
        if !is_dir {
            return None;
        }
        self.publish_folder(folder);
        Some(self.request_start())
    }

    /// Takes note of how the start of a resumed watch ended. If it failed, the
    /// folder no longer counts as watched, unless a newer request owns the watch.
    pub fn finish_resume(
        &mut self,
        expected: u64,
        folder: &String,
        result: &Result<WatchStartOutcome, String>,
    ) -> (notice: Option<FolderNotice>)
        ensures
            final(self)@ == (if result is Err {
                old(self)@.resume_failed(expected)
            } else {
                old(self)@
            }),
            ({
                let event = resume_event(
                    match result {
                        Ok(outcome) => Ok(*outcome),
                        Err(error) => Err(error@),
                    },
                    old(self)@.generation != expected,
                );
                &&& notice is Some <==> event is Some
                &&& notice matches Some(notice) ==> Some(notice.event@) == event
                    && notice.folder@ == folder@
            }),
            match result {
                Ok(WatchStartOutcome::Started) => notice matches Some(notice) && notice.event@
                    == "watch_resumed"@ && notice.folder@ == folder@,
                Ok(WatchStartOutcome::Superseded) => notice is None,
                Err(_) => if old(self)@.generation == expected {
                    &&& notice matches Some(notice)
                    &&& notice.event@ == "watch_resume_failed"@
                    &&& notice.folder@ == folder@
                } else {
                    notice is None
                },
            },
            result is Err && old(self)@.generation == expected ==> final(self)@.folder is None,
            result is Ok || old(self)@.generation != expected ==> final(self)@.folder == old(
                self,
            )@.folder,
            final(self)@.watcher == old(self)@.watcher,
            final(self)@.generation == old(self)@.generation,
    {
        match result {
            Ok(WatchStartOutcome::Started) => Some(
                FolderNotice { event: "watch_resumed".to_owned(), folder: folder.clone() },
            ),
            Ok(WatchStartOutcome::Superseded) => None,
            Err(_) => if self.withdraw_folder(expected) {
                Some(
                    FolderNotice {
                        event: "watch_resume_failed".to_owned(),
                        folder: folder.clone(),
                    },
                )
            } else {
                None
            },
        }
    }
}

/// What a settings store holds, by key.
pub open spec fn store_after(store: Map<Seq<char>, Stored>, update: StoreUpdate) -> Map<
    Seq<char>,
    Stored,
> {
    match update {
        StoreUpdate::Put { key, value } => store.insert(key, Stored::Text(value)),
        StoreUpdate::Delete { key } => store.remove(key),
    }
}

/// What is found in a store under the key of the watched folder.
pub open spec fn stored_folder(store: Map<Seq<char>, Stored>) -> Option<Seq<char>> {
    let key = crate::watch::WATCHED_FOLDER_STORE_KEY@;
    named_folder(
        if store.contains_key(key) {
            Some(store[key])
        } else {
            None
        },
    )
}

/// What a step on the watch state makes of the store: a start that commits has
/// its folder stored, and a stop has it deleted.
pub open spec fn store_applied(
    store: Map<Seq<char>, Stored>,
    watch: Watch,
    op: WatchOp,
) -> Map<Seq<char>, Stored> {
    let key = crate::watch::WATCHED_FOLDER_STORE_KEY@;
    match op {
        WatchOp::Commit { expected, folder } => if watch.generation == expected {
            store_after(store, StoreUpdate::Put { key, value: folder })
        } else {
            store
        },
        WatchOp::Stop => store_after(store, StoreUpdate::Delete { key }),
        _ => store,
    }
}

/// The store after a history of steps that began with it and with `watch`.
pub open spec fn store_along(
    store: Map<Seq<char>, Stored>,
    watch: Watch,
    history: Seq<WatchOp>,
) -> Map<Seq<char>, Stored>
    decreases history.len(),
{
    if history.len() == 0 {
        store
    } else {
        let earlier = history.drop_last();
        store_applied(store_along(store, watch, earlier), watch.after(earlier), history.last())
    }
}

/// Whether only the folder that is stored at the time is ever resumed.
pub open spec fn resumes_what_is_stored(
    store: Map<Seq<char>, Stored>,
    watch: Watch,
    history: Seq<WatchOp>,
) -> bool {
    forall|i: int|
        0 <= i < history.len() ==> (#[trigger] history[i] matches WatchOp::Resume { folder }
            ==> stored_folder(store_along(store, watch, history.take(i))) == Some(folder))
}

/// Whatever requests and starts overtake each other, a folder that counts as
/// watched is the folder that the next launch resumes.
pub proof fn law_next_launch_resumes_what_is_watched(
    store: Map<Seq<char>, Stored>,
    watch: Watch,
    history: Seq<WatchOp>,
)
    requires
        watch.folder is Some ==> stored_folder(store) == watch.folder,
        resumes_what_is_stored(store, watch, history),
    ensures
        watch.after(history).folder is Some ==> stored_folder(store_along(store, watch, history))
            == watch.after(history).folder,
    decreases history.len(),
{
    if history.len() > 0 {
        let earlier = history.drop_last();
        assert forall|i: int| 0 <= i < earlier.len() implies (#[trigger] earlier[i] matches
            WatchOp::Resume { folder } ==> stored_folder(
            store_along(store, watch, earlier.take(i)),
        ) == Some(folder)) by {
            assert(earlier[i] == history[i]);
            assert(earlier.take(i) =~= history.take(i));
        }
        law_next_launch_resumes_what_is_watched(store, watch, earlier);
        assert(history.take(history.len() - 1) =~= earlier);
        assert(history.last() == history[history.len() - 1]);
    }
}

/// Once the user has stopped watching, the next launch resumes nothing, as long
/// as no later start commits.
pub proof fn law_nothing_is_resumed_after_stop(
    store: Map<Seq<char>, Stored>,
    watch: Watch,
    history: Seq<WatchOp>,
    stop: int,
)
    requires
        0 <= stop < history.len(),
        history[stop] is Stop,
        forall|i: int| stop < i < history.len() ==> !(#[trigger] history[i] is Commit),
    ensures
        stored_folder(store_along(store, watch, history)) is None,
    decreases history.len(),
{
    if stop < history.len() - 1 {
        law_nothing_is_resumed_after_stop(store, watch, history.drop_last(), stop);
        assert(!(history[history.len() - 1] is Commit));
    }
}

proof fn lemma_stop_outlasts_earlier_starts(
    store: Map<Seq<char>, Stored>,
    history: Seq<WatchOp>,
    stop: int,
    end: int,
)
    requires
        0 <= stop < end <= history.len(),
        history[stop] is Stop,
        forall|i: int|
            stop < i < history.len() && (#[trigger] history[i] is Commit) ==> exists|j: int|
                0 < j <= stop && crate::watch::issues(history, j, history[i].generation()),
        crate::watch::requests(history) < 0x1_0000_0000_0000_0000,
    ensures
        stored_folder(store_along(store, Watch::initial(), history.take(end))) is None,
    decreases end,
{
    assert(history.take(end).drop_last() =~= history.take(end - 1));
    assert(history.take(end).last() == history[end - 1]);
    if end > stop + 1 {
        lemma_stop_outlasts_earlier_starts(store, history, stop, end - 1);
        let op = history[end - 1];
        if op is Commit {
            let j = choose|j: int|
                0 < j <= stop && crate::watch::issues(history, j, op.generation());
            crate::watch::lemma_generations_grow(history, j, stop + 1, end - 1);
        }
    }
}

/// Once the user has stopped watching, the next launch resumes nothing, whatever
/// the starts that were requested before still try: only a start that is
/// requested after the stop can have a folder stored again.
pub proof fn law_stop_outlasts_earlier_starts(
    store: Map<Seq<char>, Stored>,
    history: Seq<WatchOp>,
    stop: int,
)
    requires
        0 <= stop < history.len(),
        history[stop] is Stop,
        forall|i: int|
            stop < i < history.len() && (#[trigger] history[i] is Commit) ==> exists|j: int|
                0 < j <= stop && crate::watch::issues(history, j, history[i].generation()),
        crate::watch::requests(history) < 0x1_0000_0000_0000_0000,
    ensures
        stored_folder(store_along(store, Watch::initial(), history)) is None,
{
    lemma_stop_outlasts_earlier_starts(store, history, stop, history.len() as int);
    assert(history.take(history.len() as int) =~= history);
}

/// Once the user has stopped watching, the next launch resumes nothing until a
/// new start is requested: the starts still under way cannot have their folders
/// stored.
pub proof fn law_nothing_is_resumed_until_a_new_start(
    store: Map<Seq<char>, Stored>,
    history: Seq<WatchOp>,
    stop: int,
)
    requires
        0 <= stop < history.len(),
        history[stop] is Stop,
        forall|i: int| stop < i < history.len() ==> !(#[trigger] history[i]).is_request(),
        crate::watch::generations_are_issued(history),
        crate::watch::requests(history) < 0x1_0000_0000_0000_0000,
    ensures
        stored_folder(store_along(store, Watch::initial(), history)) is None,
{
    assert forall|i: int|
        stop < i < history.len() && (#[trigger] history[i] is Commit) implies exists|j: int|
        0 < j <= stop && crate::watch::issues(history, j, history[i].generation()) by {
        let j = choose|j: int|
            0 < j <= i && crate::watch::issues(history, j, history[i].generation());
        assert(history[j - 1].is_request());
        assert(j - 1 != stop);
    }
    law_stop_outlasts_earlier_starts(store, history, stop);
}

/// A resumed watch that fails before anything else is asked for no longer counts
/// as watched, and one that fails after a newer request leaves everything as that
/// request has it.
pub proof fn law_failed_resume_is_rolled_back(
    watch: Watch,
    folder: Seq<char>,
    history: Seq<WatchOp>,
)
    ensures
        ({
            let resuming = watch.resuming(folder);
            let found = resuming.after(history);
            let left = found.resume_failed(resuming.generation);
            &&& crate::watch::requests(history) == 0 ==> left == Watch { folder: None, ..found }
            &&& 0 < crate::watch::requests(history) < 0x1_0000_0000_0000_0000 ==> left == found
        }),
{
    crate::watch::law_generation_counts_requests(watch.resuming(folder), history);
}

} // verus!
