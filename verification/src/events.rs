//! Events that the front end is told about.

use vstd::prelude::*;

verus! {

pub const EVENT_TYPE_CREATED: &'static str = "created";

pub const EVENT_TYPE_MODIFIED: &'static str = "modified";

pub const EVENT_TYPE_DELETED: &'static str = "deleted";

pub const EVENT_TYPE_INITIAL: &'static str = "initial";

const EVENT_TYPE_OTHER: &'static str = "other";

/// Status reported for a directory that the initial walk comes across.
pub const STATUS_DIRECTORY: &'static str = "directory";

/// What happened to a path, as far as the client tells changes apart.
#[derive(Clone, Copy, Debug, PartialEq, Eq, Structural)]
pub enum ChangeKind {
    Create,
    Modify,
    Remove,
    Other,
}

impl ChangeKind {
    pub open spec fn label(self) -> Seq<char> {
        match self {
            ChangeKind::Create => "created"@,
            ChangeKind::Modify => "modified"@,
            ChangeKind::Remove => "deleted"@,
            ChangeKind::Other => "other"@,
        }
    }

    /// Only what is new or has new contents is worth uploading.
    pub open spec fn uploads(self) -> bool {
        self is Create || self is Modify
    }

    /// The name under which the front end knows this kind of change.
    pub fn event_type(self) -> (name: &'static str)
        ensures
            name@ == self.label(),
    {
        match self {
            ChangeKind::Create => EVENT_TYPE_CREATED,
            ChangeKind::Modify => EVENT_TYPE_MODIFIED,
            ChangeKind::Remove => EVENT_TYPE_DELETED,
            ChangeKind::Other => EVENT_TYPE_OTHER,
        }
    }
}

/// Something happened to a path, at a time in seconds since the Unix epoch.
#[derive(Debug, PartialEq, Eq)]
pub struct FileChangeEvent {
    pub path: String,
    pub event_type: String,
    pub timestamp: u64,
}

/// Model of a [`FileChangeEvent`].
pub struct FileChange {
    pub path: Seq<char>,
    pub event_type: Seq<char>,
    pub timestamp: u64,
}

impl View for FileChangeEvent {
    type V = FileChange;

    open spec fn view(&self) -> FileChange {
        FileChange {
            path: self.path@,
            event_type: self.event_type@,
            timestamp: self.timestamp,
        }
    }
}

impl Clone for FileChangeEvent {
    fn clone(&self) -> (copy: Self)
        ensures
            copy@ == self@,
    {
        FileChangeEvent {
            path: self.path.clone(),
            event_type: self.event_type.clone(),
            timestamp: self.timestamp,
        }
    }
}

/// How far the upload of a file has come; `error` says why it failed, if it did.
#[derive(Debug, PartialEq, Eq)]
pub struct FileUploadStatus {
    pub relative_path: String,
    pub status: String,
    pub error: Option<String>,
}

/// Model of a [`FileUploadStatus`].
pub struct UploadStatus {
    pub relative_path: Seq<char>,
    pub status: Seq<char>,
    pub error: Option<Seq<char>>,
}

impl View for FileUploadStatus {
    type V = UploadStatus;

    open spec fn view(&self) -> UploadStatus {
        UploadStatus {
            relative_path: self.relative_path@,
            status: self.status@,
            error: self.error.deep_view(),
        }
    }
}

impl Clone for FileUploadStatus {
    fn clone(&self) -> (copy: Self)
        ensures
            copy@ == self@,
    {
        let error = match &self.error {
            Some(text) => Some(text.clone()),
            None => None,
        };
        FileUploadStatus {
            relative_path: self.relative_path.clone(),
            status: self.status.clone(),
            error,
        }
    }
}

/// A file to be uploaded, and the watched folder it was found in.
#[derive(Debug, PartialEq, Eq)]
pub struct UploadRequest {
    pub path: String,
    pub base_path: String,
}

/// Model of an [`UploadRequest`].
pub struct Request {
    pub path: Seq<char>,
    pub base_path: Seq<char>,
}

impl View for UploadRequest {
    type V = Request;

    open spec fn view(&self) -> Request {
        Request { path: self.path@, base_path: self.base_path@ }
    }
}

/// What one path of a watcher notification amounts to.
#[derive(Debug, PartialEq, Eq)]
pub struct ChangeReport {
    pub event: FileChangeEvent,
    pub upload: Option<UploadRequest>,
}

/// Model of a [`ChangeReport`].
pub struct Report {
    pub event: FileChange,
    pub upload: Option<Request>,
}

impl View for ChangeReport {
    type V = Report;

    open spec fn view(&self) -> Report {
        Report {
            event: self.event@,
            upload: match self.upload {
                Some(upload) => Some(upload@),
                None => None,
            },
        }
    }
}

/// The event by which a change of `path` is announced and, where the file is new
/// or modified, the upload that it asks for.
pub open spec fn reported(
    kind: ChangeKind,
    path: Seq<char>,
    folder: Seq<char>,
    timestamp: u64,
) -> Report {
    Report {
        event: FileChange { path, event_type: kind.label(), timestamp },
        upload: if kind.uploads() {
            Some(Request { path, base_path: folder })
        } else {
            None
        },
    }
}

/// Turns one path of a watcher notification into the event to announce and,
/// where the file is new or modified, the upload to ask for.
pub fn report_change(kind: ChangeKind, path: String, folder: &String, timestamp: u64) -> (report:
    ChangeReport)
    ensures
        report@ == reported(kind, path@, folder@, timestamp),
        report.event.path@ == path@,
        report.event.event_type@ == kind.label(),
        report.event.timestamp == timestamp,
        report.upload is Some <==> kind is Create || kind is Modify,
        report.upload matches Some(upload) ==> upload.path@ == path@ && upload.base_path@
            == folder@,
{
    let upload = match kind {
        ChangeKind::Create | ChangeKind::Modify => Some(
            UploadRequest { path: path.clone(), base_path: folder.clone() },
        ),
        _ => None,
    };
    ChangeReport {
        event: FileChangeEvent { path, event_type: kind.event_type().to_owned(), timestamp },
        upload,
    }
}

/// Reports on every path of a change, one by one and in order.
pub fn report_changes(
    kind: ChangeKind,
    paths: Vec<String>,
    folder: &String,
    timestamp: u64,
) -> (reports: Vec<ChangeReport>)
    ensures
        reports.len() == paths.len(),
        forall|i: int|
            0 <= i < paths.len() ==> #[trigger] reports[i]@ == reported(
                kind,
                paths[i]@,
                folder@,
                timestamp,
            ),
{
    let mut reports: Vec<ChangeReport> = Vec::new();
    let mut i: usize = 0;
    while i < paths.len()
        invariant
            0 <= i <= paths.len(),
            reports.len() == i,
            forall|k: int|
                0 <= k < i ==> #[trigger] reports[k]@ == reported(
                    kind,
                    paths[k]@,
                    folder@,
                    timestamp,
                ),
        decreases paths.len() - i,
    {
        reports.push(report_change(kind, paths[i].clone(), folder, timestamp));
        i = i + 1;
    }
    reports
}

/// What a watcher notifies of: the same kind of change to a number of paths.
#[derive(Debug, PartialEq, Eq)]
pub struct Changes {
    pub kind: ChangeKind,
    pub paths: Vec<String>,
}

/// Model of [`Changes`].
pub struct ChangedPaths {
    pub kind: ChangeKind,
    pub paths: Seq<Seq<char>>,
}

impl View for Changes {
    type V = ChangedPaths;

    open spec fn view(&self) -> ChangedPaths {
        ChangedPaths { kind: self.kind, paths: self.paths.deep_view() }
    }
}

/// The reports on a notification: one for each path, in order, and none where
/// the watcher notifies of an error.
pub open spec fn notified(
    notification: Result<ChangedPaths, Seq<char>>,
    folder: Seq<char>,
    timestamp: u64,
) -> Seq<Report> {
    match notification {
        Ok(changes) => changes.paths.map_values(
            |path: Seq<char>| reported(changes.kind, path, folder, timestamp),
        ),
        Err(_) => Seq::empty(),
    }
}

/// Reports on a notification of the watcher of `folder`.
pub fn report_notification(
    notification: Result<Changes, String>,
    folder: &String,
    timestamp: u64,
) -> (reports: Vec<ChangeReport>)
    ensures
        reports@.map_values(|report: ChangeReport| report@) == notified(
            match notification {
                Ok(changes) => Ok(changes@),
                Err(error) => Err(error@),
            },
            folder@,
            timestamp,
        ),
{
    match notification {
        Ok(changes) => {
            let ghost known = changes@;
            let reports = report_changes(changes.kind, changes.paths, folder, timestamp);
            assert(reports@.map_values(|report: ChangeReport| report@) =~= notified(
                Ok(known),
                folder@,
                timestamp,
            ));
            reports
        },
        Err(_) => {
            let reports: Vec<ChangeReport> = Vec::new();
            assert(reports@.map_values(|report: ChangeReport| report@) =~= Seq::<Report>::empty());
            reports
        },
    }
}

/// The events that a number of reports announce, in order.
pub open spec fn events_of(reports: Seq<Report>) -> Seq<FileChange> {
    reports.map_values(|report: Report| report.event)
}

/// The uploads that a number of reports ask for, in order.
pub open spec fn uploads_of(reports: Seq<Report>) -> Seq<Request>
    decreases reports.len(),
{
    if reports.len() == 0 {
        Seq::empty()
    } else {
        match reports.last().upload {
            Some(upload) => uploads_of(reports.drop_last()).push(upload),
            None => uploads_of(reports.drop_last()),
        }
    }
}

/// A notification announces exactly one event for each of its paths, in order,
/// all of the notification's kind and time; an error announces none.
pub proof fn law_every_changed_path_is_announced(
    notification: Result<ChangedPaths, Seq<char>>,
    folder: Seq<char>,
    timestamp: u64,
)
    ensures
        events_of(notified(notification, folder, timestamp)) == (match notification {
            Ok(changes) => changes.paths.map_values(
                |path: Seq<char>|
                    FileChange { path, event_type: changes.kind.label(), timestamp },
            ),
            Err(_) => Seq::empty(),
        }),
{
    let events = events_of(notified(notification, folder, timestamp));
    match notification {
        Ok(changes) => {
            assert(events =~= changes.paths.map_values(
                |path: Seq<char>|
                    FileChange { path, event_type: changes.kind.label(), timestamp },
            ));
        },
        Err(_) => {
            assert(events =~= Seq::empty());
        },
    }
}

/// A notification that files are new or modified asks for the upload of exactly
/// its paths, in order, each with the watched folder; any other notification,
/// and an error, asks for none.
pub proof fn law_new_and_modified_files_are_uploaded(
    notification: Result<ChangedPaths, Seq<char>>,
    folder: Seq<char>,
    timestamp: u64,
)
    ensures
        uploads_of(notified(notification, folder, timestamp)) == (match notification {
            Ok(changes) => if changes.kind.uploads() {
                changes.paths.map_values(|path: Seq<char>| Request { path, base_path: folder })
            } else {
                Seq::empty()
            },
            Err(_) => Seq::empty(),
        }),
    decreases notified(notification, folder, timestamp).len(),
{
    if let Ok(changes) = notification {
        let requests = changes.paths.map_values(
            |path: Seq<char>| Request { path, base_path: folder },
        );
        let reports = notified(notification, folder, timestamp);
        if changes.paths.len() == 0 {
            assert(requests =~= Seq::empty());
        } else {
            let fewer = ChangedPaths { paths: changes.paths.drop_last(), ..changes };
            law_new_and_modified_files_are_uploaded(Ok(fewer), folder, timestamp);
            assert(reports.drop_last() =~= notified(Ok(fewer), folder, timestamp));
            assert(requests =~= fewer.paths.map_values(
                |path: Seq<char>| Request { path, base_path: folder },
            ).push(Request { path: changes.paths.last(), base_path: folder }));
        }
    }
}

} // verus!
