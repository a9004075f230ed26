//! Upload queue, paths, resuming, and the tray.

use labric_sync::events::{report_notification, ChangeKind, Changes, UploadRequest};
use labric_sync::paths::{file_name_of, get_relative_path};
use labric_sync::resume::{persisted_folder, FolderNotice, StoredValue};
use labric_sync::shell::{Shell, ShellAction, ShellEvent};
use labric_sync::upload::{matches_pattern, UploadConfig, UploadQueue};
use labric_sync::watch::{
    StoreCommand, WatchStartOutcome, WatchState, WATCHED_FOLDER_STORE_KEY,
};

fn request(path: &str) -> UploadRequest {
    UploadRequest {
        path: path.to_string(),
        base_path: "/data".to_string(),
    }
}

#[test]
fn patterns_match_names() {
    assert!(matches_pattern("*.tmp", "b.tmp"));
    assert!(matches_pattern("*.tmp", ".tmp"));
    assert!(!matches_pattern("*.tmp", "b.tmp.txt"));
    assert!(!matches_pattern("*.tmp", "b.TMP"));
    assert!(matches_pattern("~*", "~lock"));
    assert!(matches_pattern("a*b*c", "aXXbYbZc"));
    assert!(!matches_pattern("a*b*c", "aXXc"));
    assert!(matches_pattern("*", ""));
    assert!(matches_pattern("", ""));
    assert!(!matches_pattern("", "x"));
    assert!(matches_pattern("Thumbs.db", "Thumbs.db"));
    assert!(!matches_pattern("Thumbs.db", "Thumbs.dbx"));
}

#[test]
fn queue_serves_first_come_first_and_skips_ignored() {
    let config = UploadConfig {
        server_url: String::new(),
        ignored_patterns: vec!["*.tmp".to_string(), "~*".to_string()],
    };
    let mut queue = UploadQueue::new();
    assert!(queue.add_to_upload_queue_sync(request("/data/a"), &config));
    assert!(!queue.add_to_upload_queue_sync(request("/data/x.tmp/../y.tmp"), &config));
    assert!(!queue.add_to_upload_queue_sync(request("C:\\data\\~lock"), &config));
    assert!(queue.add_to_upload_queue_with_event_type(
        request("/data/x.tmp/b"),
        "created",
        &config
    ));
    assert_eq!(queue.len(), 2);
    let first = queue.pop().unwrap();
    assert_eq!(first.path, "/data/a");
    assert_eq!(first.base_path, "/data");
    assert_eq!(first.event_type, None);
    let second = queue.pop().unwrap();
    assert_eq!(second.path, "/data/x.tmp/b");
    assert_eq!(second.event_type.as_deref(), Some("created"));
    assert_eq!(queue.pop(), None);
}

#[test]
fn default_config_ignores_temporary_files() {
    let config = UploadConfig::default();
    assert_eq!(config.ignored_patterns, ["*.tmp"]);
    assert_eq!(config.server_url, "");
    assert!(config.is_ignored("/data/b.tmp"));
    assert!(!config.is_ignored("/data/b.txt"));
}

#[test]
fn relative_paths() {
    assert_eq!(get_relative_path("/data/sub/c.txt", "/data"), "sub/c.txt");
    assert_eq!(get_relative_path("/data/sub/c.txt", "/data/"), "sub/c.txt");
    assert_eq!(get_relative_path("C:\\data\\sub", "C:\\data"), "sub");
    assert_eq!(get_relative_path("/data2/c.txt", "/data"), "/data2/c.txt");
    assert_eq!(get_relative_path("/other", "/data"), "/other");
    assert_eq!(get_relative_path("/data", "/data"), "");
    assert_eq!(get_relative_path("/data", ""), "/data");
    assert_eq!(get_relative_path("/d\u{e4}ta/\u{fc}", "/d\u{e4}ta"), "\u{fc}");
}

#[test]
fn file_names() {
    assert_eq!(file_name_of("/data/sub/c.txt"), "c.txt");
    assert_eq!(file_name_of("C:\\data\\c.txt"), "c.txt");
    assert_eq!(file_name_of("c.txt"), "c.txt");
    assert_eq!(file_name_of("/data/"), "");
    assert_eq!(file_name_of(""), "");
}

#[test]
fn stored_folder_is_read_back() {
    assert_eq!(
        persisted_folder(Some(StoredValue::Text("/data".to_string()))),
        Some("/data".to_string())
    );
    assert_eq!(persisted_folder(Some(StoredValue::Other)), None);
    assert_eq!(persisted_folder(None), None);
}

/// The stored folder goes with the watch: a start that commits stores it, an
/// overtaken one does not, and a stop deletes it.
#[test]
fn next_launch_resumes_the_last_watch() {
    let mut store: Option<String> = None;
    let mut perform = |command: StoreCommand| -> Option<String> {
        match command {
            StoreCommand::Put { key, value } => {
                assert_eq!(key, WATCHED_FOLDER_STORE_KEY);
                store = Some(value);
            }
            StoreCommand::Delete { key } => {
                assert_eq!(key, WATCHED_FOLDER_STORE_KEY);
                store = None;
            }
        }
        persisted_folder(store.clone().map(StoredValue::Text))
    };
    let mut watch = WatchState::new();
    let first = watch.request_start();
    let second = watch.request_start();
    let command = watch.commit_start(second, &"/second".to_string()).unwrap();
    assert_eq!(perform(command), watch.get_watched_folder());
    assert!(watch.commit_start(first, &"/first".to_string()).is_none());
    assert_eq!(watch.get_watched_folder(), Some("/second".to_string()));
    let late = watch.request_start();
    let command = watch.stop_watching();
    assert_eq!(perform(command), None);
    // a start that was requested before the stop has nothing stored after it
    assert!(watch.commit_start(late, &"/late".to_string()).is_none());
}

#[test]
fn watcher_uploads_are_queued_in_order() {
    let folder = "/data".to_string();
    let config = UploadConfig::default();
    let mut queue = UploadQueue::new();
    for kind in [ChangeKind::Remove, ChangeKind::Create] {
        let changes = Changes {
            kind,
            paths: ["/data/z", "/data/b.tmp", "/data/a"]
                .iter()
                .map(|path| path.to_string())
                .collect(),
        };
        for report in report_notification(Ok(changes), &folder, 1) {
            if let Some(request) = report.upload {
                queue.add_to_upload_queue_sync(request, &config);
            }
        }
    }
    assert_eq!(queue.len(), 2);
    assert_eq!(queue.get(0).unwrap().path, "/data/z");
    assert_eq!(queue.get(1).unwrap().path, "/data/a");
    assert_eq!(queue.get(1).unwrap().base_path, "/data");
}

#[test]
fn resume_publishes_the_folder_and_announces_success() {
    let folder = "/data".to_string();
    let mut watch = WatchState::new();
    let expected = watch.begin_resume(&folder, true).unwrap();
    assert_eq!(expected, 1);
    assert_eq!(watch.get_watched_folder(), Some(folder.clone()));
    assert_eq!(watch.watcher(), None);
    let notice = watch.finish_resume(expected, &folder, &Ok(WatchStartOutcome::Started));
    assert_eq!(
        notice,
        Some(FolderNotice {
            event: "watch_resumed".to_string(),
            folder: folder.clone()
        })
    );
    assert_eq!(watch.get_watched_folder(), Some(folder));
}

#[test]
fn missing_folder_is_not_resumed() {
    let mut watch = WatchState::new();
    assert_eq!(watch.begin_resume(&"/gone".to_string(), false), None);
    assert_eq!(watch, WatchState::new());
}

#[test]
fn failed_resume_is_rolled_back_unless_overtaken() {
    let folder = "/data".to_string();
    let failed: Result<WatchStartOutcome, String> = Err("no".to_string());

    let mut watch = WatchState::new();
    let expected = watch.begin_resume(&folder, true).unwrap();
    let notice = watch.finish_resume(expected, &folder, &failed);
    assert_eq!(notice.unwrap().event, "watch_resume_failed");
    assert_eq!(watch.get_watched_folder(), None);

    let mut watch = WatchState::new();
    let expected = watch.begin_resume(&folder, true).unwrap();
    let newer = watch.request_start();
    assert!(watch.begin_start(newer));
    watch.commit_start(newer, &"/newer".to_string());
    assert_eq!(watch.finish_resume(expected, &folder, &failed), None);
    assert_eq!(watch.get_watched_folder(), Some("/newer".to_string()));
    assert_eq!(
        watch.finish_resume(expected, &folder, &Ok(WatchStartOutcome::Superseded)),
        None
    );
}

#[test]
fn tray_and_window() {
    let mut shell = Shell::new();
    let mut on = |event: ShellEvent| shell.handle(event);
    assert_eq!(on(ShellEvent::CloseRequested), ShellAction::HideWindow);
    assert_eq!(on(ShellEvent::ExitRequested), ShellAction::PreventExit);
    assert_eq!(
        on(ShellEvent::Menu("show".to_string())),
        ShellAction::ShowWindow
    );
    assert_eq!(
        on(ShellEvent::Menu("other".to_string())),
        ShellAction::Nothing
    );
    let click = |left: bool, released: bool| ShellEvent::TrayClick { left, released };
    assert_eq!(on(click(true, true)), ShellAction::ShowWindow);
    assert_eq!(on(click(true, false)), ShellAction::Nothing);
    assert_eq!(on(click(false, true)), ShellAction::Nothing);
    assert_eq!(on(ShellEvent::Reopened), ShellAction::ShowWindow);
    assert_eq!(on(ShellEvent::ExitRequested), ShellAction::PreventExit);
    assert_eq!(on(ShellEvent::Menu("quit".to_string())), ShellAction::Exit);
    assert_eq!(on(ShellEvent::CloseRequested), ShellAction::HideWindow);
    assert_eq!(on(ShellEvent::ExitRequested), ShellAction::AllowExit);
}
