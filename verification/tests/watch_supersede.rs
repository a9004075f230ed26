//! A start that is overtaken by a newer start or stop request must abort
//! without queueing uploads or disturbing state owned by the newer request.

use std::sync::atomic::{AtomicUsize, Ordering};

use labric_sync::backlog::EventBacklog;
use labric_sync::events::{UploadRequest, EVENT_TYPE_INITIAL};
use labric_sync::scan::{Scan, ScanAction, ScannedEntry};
use labric_sync::start::{StartAction, StartReply, WatchStart};
use labric_sync::upload::{ScannedFiles, UploadConfig, UploadQueue};
use labric_sync::watch::{
    start_watching_reply, stop_watching_reply, StoreCommand, WatchStartOutcome, WatchState,
};

/// A folder held in memory. The directory with handle `i` is `dirs[i]`: its
/// entries are a name and, for a directory, its handle.
struct Folder {
    path: String,
    dirs: Vec<(String, Vec<(String, Option<usize>)>)>,
}

impl Folder {
    fn list(&self, handle: usize) -> Vec<ScannedEntry> {
        let (dir, entries) = &self.dirs[handle];
        entries
            .iter()
            .map(|(name, child)| ScannedEntry {
                path: format!("{dir}/{name}"),
                is_dir: child.is_some(),
                handle: child.unwrap_or(usize::MAX),
            })
            .collect()
    }
}

/// root/a.txt, root/b.tmp (matches the default "*.tmp" ignore pattern),
/// root/sub/c.txt
fn fixture_folder() -> Folder {
    Folder {
        path: "/data/root".to_string(),
        dirs: vec![
            (
                "/data/root".to_string(),
                vec![
                    ("a.txt".to_string(), None),
                    ("b.tmp".to_string(), None),
                    ("sub".to_string(), Some(1)),
                ],
            ),
            (
                "/data/root/sub".to_string(),
                vec![("c.txt".to_string(), None)],
            ),
        ],
    }
}

/// Returns true (superseded) starting from the nth call
fn superseded_after(n: usize) -> impl Fn() -> bool {
    let calls = AtomicUsize::new(0);
    move || calls.fetch_add(1, Ordering::SeqCst) + 1 >= n
}

fn scan_folder_contents(folder: &Folder, superseded: &dyn Fn() -> bool) -> Option<Vec<String>> {
    let mut scan = Scan::new(0);
    loop {
        match scan.next(superseded()) {
            ScanAction::ReadDirectory(handle) => scan.deliver(folder.list(handle)),
            ScanAction::Visit { .. } => {}
            ScanAction::Complete(files) => return Some(files),
            ScanAction::Aborted => return None,
        }
    }
}

fn enqueue_scanned_files(
    files: Vec<String>,
    base: &str,
    queue: &mut UploadQueue,
    config: &UploadConfig,
    superseded: &dyn Fn() -> bool,
) {
    let mut files = ScannedFiles::new(files);
    while let Some(path) = files.next(superseded()) {
        let request = UploadRequest {
            path,
            base_path: base.to_string(),
        };
        queue.add_to_upload_queue_with_event_type(request, EVENT_TYPE_INITIAL, config);
    }
}

fn queued_paths(queue: &UploadQueue) -> Vec<String> {
    (0..queue.len())
        .map(|i| queue.get(i).unwrap().path.clone())
        .collect()
}

/// What a start leaves behind outside the watch state.
struct World {
    backlog: EventBacklog,
    queue: UploadQueue,
    config: UploadConfig,
    torn_down: usize,
    stored: Option<String>,
}

fn world() -> World {
    World {
        backlog: EventBacklog::managed(),
        queue: UploadQueue::new(),
        config: UploadConfig::default(),
        torn_down: 0,
        stored: None,
    }
}

/// Runs a start to its end; `between` is called before each step with the
/// number of steps taken so far. Without a folder every read fails.
fn start_watching(
    folder: Option<&Folder>,
    watch: &mut WatchState,
    world: &mut World,
    expected: u64,
    between: &mut dyn FnMut(usize, &mut WatchState),
) -> Result<WatchStartOutcome, String> {
    let path = match folder {
        Some(folder) => folder.path.clone(),
        None => "Z:\\does\\not\\exist".to_string(),
    };
    let mut start = WatchStart::new(path, expected, 0);
    let mut reply = StartReply::Proceed;
    let mut taken = 0;
    loop {
        between(taken, watch);
        let action = start.step(watch, reply, 7);
        taken += 1;
        world.backlog.follow(&action);
        world.queue.follow(&action, &world.config);
        reply = StartReply::Proceed;
        match action {
            StartAction::TearDown => world.torn_down += 1,
            StartAction::ReadDirectory(handle) => {
                reply = match folder {
                    Some(folder) => StartReply::Listing(folder.list(handle)),
                    None => StartReply::ReadFailed {
                        directory: "\"Z:\"".to_string(),
                        error: "not found".to_string(),
                    },
                }
            }
            StartAction::Announce { .. }
            | StartAction::Enqueue(_)
            | StartAction::CreateWatcher
            | StartAction::WatchFolder => {}
            StartAction::Install(StoreCommand::Put { key, value }) => {
                assert_eq!(key, "watched_folder");
                world.stored = Some(value);
            }
            StartAction::Install(StoreCommand::Delete { .. }) => unreachable!(),
            StartAction::Finish(result) => return result,
            StartAction::Idle => unreachable!(),
        }
    }
}

fn undisturbed(_: usize, _: &mut WatchState) {}

#[test]
fn scan_collects_files_recursively_without_queueing() {
    let folder = fixture_folder();

    let files = scan_folder_contents(&folder, &|| false).expect("scan unexpectedly superseded");

    let mut names: Vec<String> = files
        .iter()
        .map(|f| labric_sync::paths::file_name_of(f))
        .collect();
    names.sort();
    // The scan collects everything, including files the upload config would
    // ignore -- filtering happens at enqueue time
    assert_eq!(names, ["a.txt", "b.tmp", "c.txt"]);
}

#[test]
fn scan_aborts_when_superseded_immediately() {
    let folder = fixture_folder();

    let result = scan_folder_contents(&folder, &|| true);

    assert!(result.is_none(), "superseded scan must return None");
}

#[test]
fn scan_aborts_when_superseded_mid_walk() {
    let folder = fixture_folder();

    let result = scan_folder_contents(&folder, &superseded_after(2));

    assert!(result.is_none(), "scan superseded mid-walk must return None");
}

#[test]
fn scan_visits_entries_in_listing_order_and_the_last_directory_first() {
    let folder = Folder {
        path: "/r".to_string(),
        dirs: vec![
            (
                "/r".to_string(),
                vec![
                    ("one".to_string(), Some(1)),
                    ("f".to_string(), None),
                    ("two".to_string(), Some(2)),
                ],
            ),
            ("/r/one".to_string(), vec![("g".to_string(), None)]),
            ("/r/two".to_string(), vec![("h".to_string(), None)]),
        ],
    };
    let mut scan = Scan::new(0);
    let mut log: Vec<String> = Vec::new();
    loop {
        match scan.next(false) {
            ScanAction::ReadDirectory(handle) => {
                log.push(format!("read {handle}"));
                scan.deliver(folder.list(handle));
            }
            ScanAction::Visit { path, is_dir } => log.push(format!("{path} {is_dir}")),
            ScanAction::Complete(files) => {
                assert_eq!(files, ["/r/f", "/r/two/h", "/r/one/g"]);
                break;
            }
            ScanAction::Aborted => unreachable!(),
        }
    }
    assert_eq!(
        log,
        [
            "read 0",
            "/r/one true",
            "/r/f false",
            "/r/two true",
            "read 2",
            "/r/two/h false",
            "read 1",
            "/r/one/g false",
        ]
    );
}

/// However deep a directory lies, it is announced before it is read.
#[test]
fn scan_announces_a_directory_before_it_reads_it() {
    let chain = |i: usize| vec![(format!("d{i}"), Some(i + 1)), (format!("f{i}"), None)];
    let mut dirs: Vec<(String, Vec<(String, Option<usize>)>)> = Vec::new();
    let mut path = "/deep".to_string();
    for i in 0..4 {
        dirs.push((path.clone(), chain(i)));
        path = format!("{path}/d{i}");
    }
    dirs.push((path, Vec::new()));
    let folder = Folder {
        path: "/deep".to_string(),
        dirs,
    };
    let mut announced = vec!["/deep".to_string()];
    let mut scan = Scan::new(0);
    loop {
        match scan.next(false) {
            ScanAction::ReadDirectory(handle) => {
                assert!(announced.contains(&folder.dirs[handle].0));
                scan.deliver(folder.list(handle));
            }
            ScanAction::Visit { path, .. } => announced.push(path),
            ScanAction::Complete(files) => {
                assert_eq!(files.len(), 4);
                break;
            }
            ScanAction::Aborted => unreachable!(),
        }
    }
    assert_eq!(announced.len(), 9);
}

#[test]
fn enqueue_queues_files_and_respects_ignore_patterns() {
    let folder = fixture_folder();
    let mut queue = UploadQueue::new();
    let config = UploadConfig::default();

    let files = scan_folder_contents(&folder, &|| false).unwrap();
    enqueue_scanned_files(files, &folder.path, &mut queue, &config, &|| false);

    let paths = queued_paths(&queue);
    assert_eq!(paths.len(), 2, "expected a.txt and c.txt, got {paths:?}");
    assert!(paths.iter().any(|p| p.ends_with("a.txt")));
    assert!(paths.iter().any(|p| p.ends_with("c.txt")));
    assert!(
        !paths.iter().any(|p| p.ends_with("b.tmp")),
        "*.tmp files must be filtered out at enqueue time"
    );
    let first = queue.get(0).unwrap();
    assert_eq!(first.base_path, "/data/root");
    assert_eq!(first.event_type.as_deref(), Some("initial"));
}

#[test]
fn enqueue_aborts_when_superseded_midway() {
    let entries = (0..5).map(|i| (format!("f{i}.txt"), None)).collect();
    let folder = Folder {
        path: "/five".to_string(),
        dirs: vec![("/five".to_string(), entries)],
    };
    let mut queue = UploadQueue::new();
    let config = UploadConfig::default();

    let files = scan_folder_contents(&folder, &|| false).unwrap();
    assert_eq!(files.len(), 5);

    // Superseded from the third check onward: two files get queued, the
    // remaining three must not
    enqueue_scanned_files(
        files,
        &folder.path,
        &mut queue,
        &config,
        &superseded_after(3),
    );

    assert_eq!(queue.len(), 2);
}

#[test]
fn start_watching_impl_starts_queues_and_records_state() {
    let folder = fixture_folder();
    let mut watch = WatchState::new();
    let mut world = world();

    let expected = watch.request_start();
    let outcome = start_watching(
        Some(&folder),
        &mut watch,
        &mut world,
        expected,
        &mut undisturbed,
    )
    .expect("start failed");

    assert!(matches!(outcome, WatchStartOutcome::Started));
    assert!(watch.watcher().is_some(), "watcher must be installed");
    assert_eq!(watch.watcher(), Some(expected));
    assert_eq!(watch.get_watched_folder(), Some(folder.path.clone()));
    assert_eq!(world.stored, Some(folder.path.clone()));
    assert_eq!(
        world.queue.len(),
        2,
        "a.txt and c.txt queued, b.tmp ignored"
    );
    assert_eq!(
        queued_paths(&world.queue),
        ["/data/root/a.txt", "/data/root/sub/c.txt"]
    );
    let first = world.queue.get(0).unwrap();
    assert_eq!(first.base_path, folder.path);
    assert_eq!(first.event_type.as_deref(), Some("initial"));
    assert_eq!(world.backlog.file_changes().unwrap().len(), 4);
}

#[test]
fn stale_start_is_superseded_before_any_side_effects() {
    let mut watch = WatchState::new();
    watch.request_start();
    watch.request_start();
    let mut world = world();

    // The folder deliberately does not exist: if the stale start ever reached
    // the scan, this would return Err instead of Superseded
    let outcome = start_watching(
        None,
        &mut watch,
        &mut world,
        1, // stale: current generation is 2
        &mut undisturbed,
    )
    .expect("stale start must not error");

    assert!(matches!(outcome, WatchStartOutcome::Superseded));
    assert!(watch.watcher().is_none());
    assert!(watch.get_watched_folder().is_none());
    assert_eq!(world.torn_down, 0);
    assert!(
        world.queue.len() == 0,
        "superseded start must queue nothing"
    );
}

#[test]
fn stale_start_does_not_disturb_current_watcher() {
    let current = fixture_folder();
    let mut watch = WatchState::new();
    watch.request_start();
    // Install a watcher owned by the current (generation 2) watch
    let generation = watch.request_start();
    assert_eq!(generation, 2);
    assert!(watch.begin_start(2));
    assert!(watch.commit_start(2, &current.path).is_some());
    let mut world = world();

    let outcome = start_watching(
        None,
        &mut watch,
        &mut world,
        1, // stale request racing against the installed generation-2 watch
        &mut undisturbed,
    )
    .expect("stale start must not error");

    assert!(matches!(outcome, WatchStartOutcome::Superseded));
    assert!(
        watch.watcher().is_some(),
        "stale start must not tear down the newer watch's watcher"
    );
    assert_eq!(world.torn_down, 0);
    assert_eq!(watch.get_watched_folder(), Some(current.path.clone()));
    assert!(world.queue.len() == 0);
}

#[test]
fn start_superseded_by_stop_leaves_queue_empty_and_no_watcher() {
    let folder = fixture_folder();
    let mut watch = WatchState::new();
    let mut world = world();

    let expected = watch.request_start();
    // stop_watching wins the race: its generation bump lands before this start
    // makes any progress
    watch.stop_watching();

    let outcome = start_watching(
        Some(&folder),
        &mut watch,
        &mut world,
        expected,
        &mut undisturbed,
    )
    .expect("superseded start must not error");

    assert!(matches!(outcome, WatchStartOutcome::Superseded));
    assert!(watch.watcher().is_none());
    assert!(watch.get_watched_folder().is_none());
    assert!(
        world.queue.len() == 0,
        "a start superseded by stop must not queue any uploads"
    );
}

/// The generation is bumped while the start is running: before any of its steps.
/// Wherever the bump lands, the outcome is consistent: either the start committed
/// before it or nothing is left of the start.
#[test]
fn stop_arriving_mid_scan_aborts_start_without_queueing() {
    let folder = fixture_folder();
    let mut superseded = 0;
    let mut started = 0;
    for bump_at in 0..20 {
        let mut watch = WatchState::new();
        let mut world = world();
        let expected = watch.request_start();

        let outcome = start_watching(
            Some(&folder),
            &mut watch,
            &mut world,
            expected,
            &mut |taken, watch| {
                if taken == bump_at {
                    watch.request_start();
                }
            },
        )
        .expect("start must not error");

        match outcome {
            WatchStartOutcome::Superseded => {
                superseded += 1;
                assert!(
                    world.queue.len() == 0,
                    "superseded start must not queue uploads"
                );
                assert!(watch.watcher().is_none());
                assert!(watch.get_watched_folder().is_none());
                assert!(world.stored.is_none());
            }
            WatchStartOutcome::Started => {
                started += 1;
                // The start won the race; committed state must be complete
                assert!(watch.watcher().is_some());
                assert_eq!(watch.get_watched_folder(), Some(folder.path.clone()));
                assert_eq!(world.stored, Some(folder.path.clone()));
            }
        }
    }
    // Ten steps lead up to the commit; a bump before any of them supersedes.
    assert_eq!(superseded, 10);
    assert_eq!(started, 10);
}

/// The same with a stop, which also takes down what the start had committed.
#[test]
fn stop_is_the_last_word_wherever_it_lands() {
    let folder = fixture_folder();
    for stop_at in 0..20 {
        let mut watch = WatchState::new();
        let mut world = world();
        let expected = watch.request_start();
        let mut stopped = false;

        let outcome = start_watching(
            Some(&folder),
            &mut watch,
            &mut world,
            expected,
            &mut |taken, watch| {
                if taken == stop_at {
                    stopped = true;
                    watch.stop_watching();
                }
            },
        )
        .expect("start must not error");

        if stopped {
            assert!(watch.watcher().is_none());
            assert!(watch.get_watched_folder().is_none());
        } else {
            assert_eq!(outcome, WatchStartOutcome::Started);
            assert!(watch.watcher().is_some());
            assert_eq!(world.queue.len(), 2);
        }
        if outcome == WatchStartOutcome::Superseded {
            assert!(world.stored.is_none());
        }
    }
}

/// Once overtaken, a start adds nothing to the backlog, the queue or the watch
/// state, however far it had come.
#[test]
fn overtaken_start_leaves_no_further_trace() {
    let folder = fixture_folder();
    for bump_at in 0..13 {
        let mut watch = WatchState::new();
        let expected = watch.request_start();
        let mut backlog = EventBacklog::managed();
        let mut queue = UploadQueue::new();
        let config = UploadConfig::default();
        let mut start = WatchStart::new(folder.path.clone(), expected, 0);
        let mut reply = StartReply::Proceed;
        let mut before = None;
        for taken in 0..20 {
            if taken == bump_at {
                watch.request_start();
                before = Some((
                    backlog.file_changes().unwrap().len(),
                    queue.len(),
                    watch.watcher(),
                    watch.get_watched_folder(),
                ));
            }
            let action = start.step(&mut watch, reply, 7);
            backlog.follow(&action);
            queue.follow(&action, &config);
            reply = match action {
                StartAction::ReadDirectory(handle) => StartReply::Listing(folder.list(handle)),
                _ => StartReply::Proceed,
            };
        }
        let after = (
            backlog.file_changes().unwrap().len(),
            queue.len(),
            watch.watcher(),
            watch.get_watched_folder(),
        );
        assert_eq!(before, Some(after));
    }
}

#[test]
fn newer_start_takes_over_whatever_the_older_one_does_afterwards() {
    let folder = fixture_folder();
    let mut watch = WatchState::new();
    let mut world = world();
    let older = watch.request_start();
    let newer = watch.request_start();

    assert!(watch.begin_start(newer));
    assert!(watch.commit_start(newer, &"/newer".to_string()).is_some());
    assert!(!watch.begin_start(older));
    assert!(watch.commit_start(older, &folder.path).is_none());
    assert!(watch.is_superseded(older));
    assert!(!watch.is_superseded(newer));

    let outcome = start_watching(
        Some(&folder),
        &mut watch,
        &mut world,
        older,
        &mut undisturbed,
    );
    assert_eq!(outcome, Ok(WatchStartOutcome::Superseded));
    assert_eq!(watch.watcher(), Some(newer));
    assert_eq!(watch.get_watched_folder(), Some("/newer".to_string()));
    assert_eq!(watch.generation(), 2);
}

#[test]
fn failures_of_a_start_are_reported_in_words() {
    let mut watch = WatchState::new();
    let mut world = world();
    let expected = watch.request_start();
    let outcome = start_watching(None, &mut watch, &mut world, expected, &mut undisturbed);
    assert_eq!(
        outcome,
        Err("Failed to read directory \"Z:\": not found".to_string())
    );
    assert_eq!(world.torn_down, 1);
    assert!(watch.watcher().is_none());
    assert!(watch.get_watched_folder().is_none());
    assert!(world.stored.is_none());
    assert_eq!(world.queue.len(), 0);

    let mut start = WatchStart::new("/empty".to_string(), expected, 0);
    for _ in 0..3 {
        start.step(&mut watch, StartReply::Proceed, 0);
    }
    // The walk of an empty folder is over: a watcher is being created.
    let action = start.step(
        &mut watch,
        StartReply::WatcherFailed("no inotify".to_string()),
        0,
    );
    assert_eq!(
        action,
        StartAction::Finish(Err("Failed to create watcher: no inotify".to_string()))
    );
    assert_eq!(
        start.step(&mut watch, StartReply::Proceed, 0),
        StartAction::Idle
    );

    let mut start = WatchStart::new("/empty".to_string(), expected, 0);
    for _ in 0..4 {
        start.step(&mut watch, StartReply::Proceed, 0);
    }
    let action = start.step(
        &mut watch,
        StartReply::WatcherFailed("gone".to_string()),
        0,
    );
    assert_eq!(
        action,
        StartAction::Finish(Err("Failed to watch folder: gone".to_string()))
    );
}

#[test]
fn replies_to_the_user() {
    assert_eq!(
        start_watching_reply(Ok(WatchStartOutcome::Started), "/data"),
        Ok("Started watching: /data".to_string())
    );
    assert_eq!(
        start_watching_reply(Ok(WatchStartOutcome::Superseded), "/data"),
        Ok("Watch superseded by a newer request".to_string())
    );
    assert_eq!(
        start_watching_reply(Err("no".to_string()), "/data"),
        Err("no".to_string())
    );
    assert_eq!(stop_watching_reply(), "Stopped watching");
    let mut watch = WatchState::new();
    assert_eq!(
        watch.stop_watching(),
        StoreCommand::Delete {
            key: "watched_folder".to_string()
        }
    );
    assert_eq!(watch.generation(), 1);
}
