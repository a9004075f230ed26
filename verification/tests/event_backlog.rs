//! The backlog lets the front end recover events emitted before it listened.

use labric_sync::backlog::{EventBacklog, MAX_FILE_CHANGE_LOG, MAX_UPLOAD_STATUS_LOG};
use labric_sync::events::{
    report_change, report_changes, report_notification, ChangeKind, Changes, FileChangeEvent,
    UploadRequest, EVENT_TYPE_INITIAL,
};
use labric_sync::paths::file_name_of;
use labric_sync::scan::{Scan, ScanAction, ScannedEntry};
use labric_sync::start::{StartAction, StartReply, WatchStart};
use labric_sync::watch::{WatchStartOutcome, WatchState};

/// root/a.txt, root/sub/c.txt
fn fixture_listing(handle: usize) -> Vec<ScannedEntry> {
    if handle == 0 {
        vec![entry("/root/a.txt", None), entry("/root/sub", Some(1))]
    } else {
        vec![entry("/root/sub/c.txt", None)]
    }
}

fn entry(path: &str, handle: Option<usize>) -> ScannedEntry {
    ScannedEntry {
        path: path.to_string(),
        is_dir: handle.is_some(),
        handle: handle.unwrap_or(usize::MAX),
    }
}

/// Runs an unchallenged start and keeps what it announces; returns how it ended
/// and how many files it queued.
fn start_and_record(
    backlog: &mut EventBacklog,
    listing: &dyn Fn(usize) -> Vec<ScannedEntry>,
) -> (Result<WatchStartOutcome, String>, usize) {
    let mut watch = WatchState::new();
    let expected = watch.request_start();
    let mut start = WatchStart::new("/root".to_string(), expected, 0);
    let mut reply = StartReply::Proceed;
    let mut queued = 0;
    loop {
        let action = start.step(&mut watch, reply, 42);
        backlog.follow(&action);
        reply = StartReply::Proceed;
        match action {
            StartAction::ReadDirectory(handle) => reply = StartReply::Listing(listing(handle)),
            StartAction::Enqueue(_) => queued += 1,
            StartAction::Finish(result) => return (result, queued),
            _ => {}
        }
    }
}

fn logged_names(backlog: &EventBacklog) -> Vec<String> {
    let mut names: Vec<String> = backlog
        .file_changes()
        .unwrap()
        .snapshot()
        .iter()
        .map(|e| file_name_of(&e.path))
        .collect();
    names.sort();
    names
}

fn change(path: &str, event_type: &str, timestamp: u64) -> FileChangeEvent {
    FileChangeEvent {
        path: path.to_string(),
        event_type: event_type.to_string(),
        timestamp,
    }
}

#[test]
fn scan_records_every_entry_in_the_backlog() {
    let mut backlog = EventBacklog::managed();

    let (outcome, _) = start_and_record(&mut backlog, &fixture_listing);
    assert_eq!(outcome, Ok(WatchStartOutcome::Started));

    // Directories are logged too -- the UI shows them in the change list
    assert_eq!(logged_names(&backlog), ["a.txt", "c.txt", "sub"]);
    let log = backlog.file_changes().unwrap().snapshot();
    assert!(log.iter().all(|e| e.event_type == "initial"));
    assert!(log.iter().all(|e| e.timestamp == 42));
    // and a directory has a status of its own
    let statuses = backlog.upload_statuses().unwrap();
    assert_eq!(statuses.len(), 1);
    assert_eq!(statuses.get(0).unwrap().relative_path, "sub");
    assert_eq!(statuses.get(0).unwrap().status, "directory");
    assert_eq!(statuses.get(0).unwrap().error, None);
}

#[test]
fn backlog_keeps_one_entry_per_path_across_rescans() {
    let mut backlog = EventBacklog::managed();

    for _ in 0..2 {
        let mut scan = Scan::new(0);
        loop {
            match scan.next(false) {
                ScanAction::ReadDirectory(handle) => scan.deliver(fixture_listing(handle)),
                ScanAction::Visit { path, .. } => {
                    backlog.emit_file_change(&change(&path, EVENT_TYPE_INITIAL, 1))
                }
                ScanAction::Complete(files) => {
                    assert_eq!(files, ["/root/a.txt", "/root/sub/c.txt"]);
                    break;
                }
                ScanAction::Aborted => panic!("scan unexpectedly superseded"),
            }
        }
    }

    assert_eq!(logged_names(&backlog), ["a.txt", "c.txt", "sub"]);
}

#[test]
fn repeated_change_moves_to_the_end() {
    let mut backlog = EventBacklog::managed();
    backlog.emit_file_change(&change("a", "created", 1));
    backlog.emit_file_change(&change("b", "created", 2));
    backlog.emit_file_change(&change("a", "modified", 3));
    let log = backlog.file_changes().unwrap();
    assert_eq!(log.len(), 2);
    assert_eq!(log.get(0), Some(&change("b", "created", 2)));
    assert_eq!(log.get(1), Some(&change("a", "modified", 3)));
    assert_eq!(log.get(2), None);
}

#[test]
fn backlog_is_capped_and_evicts_oldest() {
    let mut backlog = EventBacklog::managed();
    // File names sort by creation order so the eviction order is predictable
    let listing = |_: usize| -> Vec<ScannedEntry> {
        (0..MAX_FILE_CHANGE_LOG + 10)
            .map(|i| entry(&format!("/root/f{i:04}.txt"), None))
            .collect()
    };

    let (outcome, queued) = start_and_record(&mut backlog, &listing);
    assert_eq!(outcome, Ok(WatchStartOutcome::Started));
    assert_eq!(queued, MAX_FILE_CHANGE_LOG + 10);

    let log = backlog.file_changes().unwrap().snapshot();
    assert_eq!(log.len(), MAX_FILE_CHANGE_LOG);
    // The oldest entries were evicted from the front
    assert!(!log.iter().any(|e| e.path.ends_with("f0000.txt")));
    assert!(log.iter().any(|e| e.path.ends_with(&format!(
        "f{:04}.txt",
        MAX_FILE_CHANGE_LOG + 9
    ))));
    assert!(log[0].path.ends_with("f0010.txt"));
}

#[test]
fn start_watching_clears_backlog_from_previous_folder() {
    let mut backlog = EventBacklog::managed();
    backlog.emit_file_change(&change("stale-from-old-folder", "created", 0));
    backlog.emit_file_upload_status("stale-from-old-folder", "queued", None);

    let (outcome, _) = start_and_record(&mut backlog, &fixture_listing);

    assert!(matches!(outcome, Ok(WatchStartOutcome::Started)));
    let names = logged_names(&backlog);
    assert!(!names.contains(&"stale-from-old-folder".to_string()));
    assert_eq!(names, ["a.txt", "c.txt", "sub"]);
    let statuses = backlog.upload_statuses().unwrap().snapshot();
    assert!(!statuses
        .iter()
        .any(|s| s.relative_path == "stale-from-old-folder"));
}

#[test]
fn stale_start_leaves_the_backlog_alone() {
    let mut backlog = EventBacklog::managed();
    backlog.emit_file_change(&change("kept", "created", 0));
    let mut watch = WatchState::new();
    let stale = watch.request_start();
    watch.request_start();
    let mut start = WatchStart::new("/root".to_string(), stale, 0);
    let action = start.step(&mut watch, StartReply::Proceed, 1);
    backlog.follow(&action);
    assert_eq!(action, StartAction::Finish(Ok(WatchStartOutcome::Superseded)));
    assert_eq!(logged_names(&backlog), ["kept"]);
}

#[test]
fn status_log_keeps_latest_status_per_path() {
    let mut backlog = EventBacklog::managed();

    backlog.emit_file_upload_status("a.txt", "queued", None);
    backlog.emit_file_upload_status("b.txt", "queued", None);
    backlog.emit_file_upload_status("a.txt", "uploaded", None);

    let log = backlog.upload_statuses().unwrap().snapshot();
    assert_eq!(log.len(), 2);
    // Updating a path keeps its original position (mirrors the frontend Map)
    assert_eq!(log[0].relative_path, "a.txt");
    assert_eq!(log[0].status, "uploaded");
    assert_eq!(log[1].relative_path, "b.txt");
    assert_eq!(log[1].status, "queued");
}

#[test]
fn status_log_is_capped_and_evicts_oldest() {
    let mut backlog = EventBacklog::managed();

    for i in 0..MAX_UPLOAD_STATUS_LOG + 5 {
        backlog.emit_file_upload_status(&format!("f{i}.txt"), "queued", None);
    }

    let log = backlog.upload_statuses().unwrap().snapshot();
    assert_eq!(log.len(), MAX_UPLOAD_STATUS_LOG);
    assert_eq!(log[0].relative_path, "f5.txt");
    assert_eq!(
        log[log.len() - 1].relative_path,
        format!("f{}.txt", MAX_UPLOAD_STATUS_LOG + 4)
    );
}

#[test]
fn recording_is_skipped_gracefully_when_logs_are_not_managed() {
    let mut backlog = EventBacklog::unmanaged();

    // Must not panic, and the scan must still succeed
    let (outcome, files) = start_and_record(&mut backlog, &fixture_listing);
    assert_eq!(outcome, Ok(WatchStartOutcome::Started));
    assert_eq!(files, 2);
    let event = backlog.emit_file_upload_status("a.txt", "queued", None);
    assert_eq!(event.relative_path, "a.txt");
    assert_eq!(event.status, "queued");
    assert_eq!(event.error, None);
    assert!(backlog.file_changes().is_none());
    assert!(backlog.upload_statuses().is_none());
}

#[test]
fn watcher_changes_are_reported_by_kind() {
    let folder = "/root".to_string();
    let cases = [
        (ChangeKind::Create, "created", true),
        (ChangeKind::Modify, "modified", true),
        (ChangeKind::Remove, "deleted", false),
        (ChangeKind::Other, "other", false),
    ];
    for (kind, event_type, uploads) in cases {
        assert_eq!(kind.event_type(), event_type);
        let report = report_change(kind, "/root/x".to_string(), &folder, 9);
        assert_eq!(report.event, change("/root/x", event_type, 9));
        assert_eq!(report.upload.is_some(), uploads);
        if let Some(upload) = report.upload {
            assert_eq!(upload.path, "/root/x");
            assert_eq!(upload.base_path, "/root");
        }
    }
}

#[test]
fn failed_upload_keeps_its_error() {
    let mut backlog = EventBacklog::managed();
    let event = backlog.emit_file_upload_status("a.txt", "failed", Some("late".to_string()));
    assert_eq!(event.error.as_deref(), Some("late"));
    let log = backlog.upload_statuses().unwrap();
    assert_eq!(log.get(0), Some(&event));
}

#[test]
fn rescan_puts_entries_in_the_new_order() {
    let mut backlog = EventBacklog::managed();
    for path in ["a", "b", "c"] {
        backlog.emit_file_change(&change(path, "initial", 1));
    }
    for path in ["c", "d", "a", "b"] {
        backlog.emit_file_change(&change(path, "initial", 2));
    }
    let expected: Vec<FileChangeEvent> = ["c", "d", "a", "b"]
        .iter()
        .map(|path| change(path, "initial", 2))
        .collect();
    assert_eq!(backlog.file_changes().unwrap().snapshot(), expected);
}

#[test]
fn notification_is_reported_path_by_path() {
    let folder = "/root".to_string();
    let paths = || vec!["/root/x".to_string(), "/root/a".to_string()];
    for (kind, label, uploads) in [
        (ChangeKind::Create, "created", true),
        (ChangeKind::Modify, "modified", true),
        (ChangeKind::Remove, "deleted", false),
        (ChangeKind::Other, "other", false),
    ] {
        let reports = report_changes(kind, paths(), &folder, 9);
        assert_eq!(reports.len(), 2);
        for (report, path) in reports.iter().zip(paths()) {
            assert_eq!(report.event, change(&path, label, 9));
            let upload = UploadRequest {
                path,
                base_path: folder.clone(),
            };
            assert_eq!(report.upload, Some(upload).filter(|_| uploads));
        }
        let notification = Changes {
            kind,
            paths: paths(),
        };
        assert_eq!(report_notification(Ok(notification), &folder, 9), reports);
    }
}

#[test]
fn watcher_error_is_not_reported() {
    let folder = "/root".to_string();
    assert_eq!(
        report_notification(Err("overflow".to_string()), &folder, 9),
        vec![]
    );
    assert_eq!(report_changes(ChangeKind::Create, vec![], &folder, 9), vec![]);
}
