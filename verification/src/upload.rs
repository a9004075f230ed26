//! Which files are queued for upload.

use crate::events::UploadRequest;
#[allow(unused_imports)]
use crate::events::{ChangedPaths, Request};
use crate::paths::file_name_of;
use crate::text::{characters, into_queue};
use std::collections::VecDeque;
use vstd::prelude::*;

verus! {

/// Whether `name` matches `pattern`, in which `*` stands for any run of
/// characters and every other character for itself.
pub open spec fn pattern_matches(pattern: Seq<char>, name: Seq<char>) -> bool
    decreases pattern.len(),
{
    if pattern.len() == 0 {
        name.len() == 0
    } else if pattern[0] == '*' {
        exists|k: int|
            0 <= k <= name.len() && pattern_matches(pattern.drop_first(), #[trigger] name.skip(k))
    } else {
        name.len() > 0 && name[0] == pattern[0] && pattern_matches(
            pattern.drop_first(),
            name.drop_first(),
        )
    }
}

proof fn lemma_star_step(pattern: Seq<char>, name: Seq<char>)
    requires
        pattern.len() > 0,
        pattern[0] == '*',
    ensures
        pattern_matches(pattern, name) <==> (pattern_matches(pattern.drop_first(), name) || (
        name.len() > 0 && pattern_matches(pattern, name.drop_first()))),
{
    reveal_with_fuel(pattern_matches, 2);
    let rest = pattern.drop_first();
    assert(name.skip(0) =~= name);
    if pattern_matches(pattern, name) {
        let k = choose|k: int|
            0 <= k <= name.len() && pattern_matches(rest, #[trigger] name.skip(k));
        if k > 0 {
            assert(name.drop_first().skip(k - 1) =~= name.skip(k));
        }
    }
    if name.len() > 0 && pattern_matches(pattern, name.drop_first()) {
        let k = choose|k: int|
            0 <= k <= name.drop_first().len() && pattern_matches(
                rest,
                #[trigger] name.drop_first().skip(k),
            );
        assert(name.drop_first().skip(k) =~= name.skip(k + 1));
    }
}

/// Decides whether a name matches a pattern. Row by row, from the end of the
/// pattern on, it works out which ends of the name match that end of the
/// pattern.
pub fn matches_pattern(pattern: &str, name: &str) -> (matched: bool)
    ensures
        matched == pattern_matches(pattern@, name@),
{
    let p = characters(pattern);
    let n = characters(name);
    let len: usize = n.len();
    let mut row: Vec<bool> = Vec::new();
    let mut k: usize = 0;
    while k < len
        invariant
            len == n.len(),
            0 <= k <= len,
            row.len() == k,
            forall|i: int| 0 <= i < k ==> !row[i],
        decreases len - k,
    {
        row.push(false);
        k = k + 1;
    }
    row.push(true);
    let mut j: usize = p.len();
    assert forall|i: int| 0 <= i <= len implies #[trigger] row[i] == pattern_matches(
        p@.skip(j as int),
        n@.skip(i),
    ) by {
        assert(p@.skip(j as int).len() == 0);
    }
    while j > 0
        invariant
            len == n.len(),
            0 <= j <= p.len(),
            row.len() == len + 1,
            forall|i: int|
                0 <= i <= len ==> #[trigger] row[i] == pattern_matches(
                    p@.skip(j as int),
                    n@.skip(i),
                ),
        decreases j,
    {
        j = j - 1;
        let c = p[j];
        let ghost tail = p@.skip(j as int);
        let ghost old_row = row@;
        assert(tail.drop_first() =~= p@.skip(j + 1));
        let mut i: usize = len + 1;
        let mut next: bool = false;
        while i > 0
            invariant
                len == n.len(),
                0 <= i <= len + 1,
                row.len() == len + 1,
                old_row.len() == len + 1,
                j < p.len(),
                c == p[j as int],
                tail == p@.skip(j as int),
                tail.drop_first() == p@.skip(j + 1),
                forall|m: int|
                    0 <= m <= len ==> #[trigger] old_row[m] == pattern_matches(
                        tail.drop_first(),
                        n@.skip(m),
                    ),
                forall|m: int| 0 <= m < i ==> #[trigger] row[m] == old_row[m],
                forall|m: int|
                    i <= m <= len ==> #[trigger] row[m] == pattern_matches(tail, n@.skip(m)),
                next == (i <= len && old_row[i as int]),
            decreases i,
        {
            i = i - 1;
            let here = row[i];
            assert(here == old_row[i as int]);
            let ghost end = n@.skip(i as int);
            proof {
                assert(old_row[i as int] == pattern_matches(tail.drop_first(), end));
                if i < len {
                    assert(end.drop_first() =~= n@.skip(i + 1));
                    assert(row[i + 1] == pattern_matches(tail, n@.skip(i + 1)));
                    assert(old_row[i + 1] == pattern_matches(tail.drop_first(), n@.skip(i + 1)));
                }
                if c == '*' {
                    lemma_star_step(tail, end);
                }
            }
            let value = if c == '*' {
                here || (i < len && row[i + 1])
            } else {
                i < len && n[i] == c && next
            };
            row.set(i, value);
            next = here;
        }
    }
    assert(p@.skip(0) =~= pattern@);
    assert(n@.skip(0) =~= name@);
    row[0]
}

/// A pattern without a star matches itself and nothing else.
pub proof fn law_pattern_without_star_matches_itself(pattern: Seq<char>, name: Seq<char>)
    requires
        !pattern.contains('*'),
    ensures
        pattern_matches(pattern, name) <==> pattern == name,
    decreases pattern.len(),
{
    if pattern.len() > 0 {
        let rest = pattern.drop_first();
        assert(pattern[0] != '*');
        if rest.contains('*') {
            let i = choose|i: int| 0 <= i < rest.len() && rest[i] == '*';
            assert(pattern[i + 1] == '*');
        }
        if name.len() > 0 {
            law_pattern_without_star_matches_itself(rest, name.drop_first());
            if name[0] == pattern[0] && rest == name.drop_first() {
                assert(pattern =~= seq![pattern[0]] + rest);
                assert(name =~= seq![name[0]] + name.drop_first());
            }
        }
    } else {
        assert(name.len() == 0 ==> pattern =~= name);
    }
}

/// A star alone matches every name.
pub proof fn law_star_matches_every_name(name: Seq<char>)
    ensures
        pattern_matches(seq!['*'], name),
{
    reveal_with_fuel(pattern_matches, 2);
    assert(name.skip(name.len() as int).len() == 0);
    assert(seq!['*'].drop_first().len() == 0);
}

/// Whether `name`, split at `k`, matches one pattern up to there and another one
/// from there on.
pub open spec fn matches_split(
    front: Seq<char>,
    back: Seq<char>,
    name: Seq<char>,
    k: int,
) -> bool {
    &&& 0 <= k <= name.len()
    &&& pattern_matches(front, name.take(k))
    &&& pattern_matches(back, name.skip(k))
}

/// Two patterns in a row match exactly the names that can be split into one that
/// the first matches and one that the second matches.
pub proof fn law_patterns_in_a_row(front: Seq<char>, back: Seq<char>, name: Seq<char>)
    ensures
        pattern_matches(front + back, name) <==> exists|k: int|
            matches_split(front, back, name, k),
    decreases front.len(),
{
    if front.len() == 0 {
        assert(front + back =~= back);
        assert(name.skip(0) =~= name);
        if pattern_matches(back, name) {
            assert(matches_split(front, back, name, 0));
        }
    } else {
        let rest = front.drop_first();
        let whole = front + back;
        assert(whole.drop_first() =~= rest + back);
        if front[0] == '*' {
            if pattern_matches(whole, name) {
                let k = choose|k: int|
                    0 <= k <= name.len() && pattern_matches(rest + back, #[trigger] name.skip(k));
                law_patterns_in_a_row(rest, back, name.skip(k));
                let j = choose|j: int| matches_split(rest, back, name.skip(k), j);
                assert(name.skip(k).take(j) =~= name.take(k + j).skip(k));
                assert(name.skip(k).skip(j) =~= name.skip(k + j));
                assert(matches_split(front, back, name, k + j));
            }
            if exists|m: int| matches_split(front, back, name, m) {
                let m = choose|m: int| matches_split(front, back, name, m);
                let head = name.take(m);
                let k = choose|k: int|
                    0 <= k <= head.len() && pattern_matches(rest, #[trigger] head.skip(k));
                assert(name.skip(k).take(m - k) =~= head.skip(k));
                assert(name.skip(k).skip(m - k) =~= name.skip(m));
                assert(matches_split(rest, back, name.skip(k), m - k));
                law_patterns_in_a_row(rest, back, name.skip(k));
            }
        } else {
            if name.len() > 0 {
                law_patterns_in_a_row(rest, back, name.drop_first());
            }
            if pattern_matches(whole, name) {
                let j = choose|j: int| matches_split(rest, back, name.drop_first(), j);
                assert(name.take(j + 1).drop_first() =~= name.drop_first().take(j));
                assert(name.drop_first().skip(j) =~= name.skip(j + 1));
                assert(matches_split(front, back, name, j + 1));
            }
            if exists|m: int| matches_split(front, back, name, m) {
                let m = choose|m: int| matches_split(front, back, name, m);
                assert(name.take(m).drop_first() =~= name.drop_first().take(m - 1));
                assert(name.drop_first().skip(m - 1) =~= name.skip(m));
                assert(matches_split(rest, back, name.drop_first(), m - 1));
            }
        }
    }
}

/// A pattern with one star, such as `*.tmp`, matches exactly the names that begin
/// with what stands before the star and go on to end with what stands behind it.
pub proof fn law_one_star_leaves_both_ends(front: Seq<char>, back: Seq<char>, name: Seq<char>)
    requires
        !front.contains('*'),
        !back.contains('*'),
    ensures
        pattern_matches(front + seq!['*'] + back, name) <==> {
            &&& front.len() + back.len() <= name.len()
            &&& name.take(front.len() as int) == front
            &&& name.skip(name.len() - back.len()) == back
        },
{
    let head = front + seq!['*'];
    law_patterns_in_a_row(head, back, name);
    if pattern_matches(head + back, name) {
        let m = choose|m: int| matches_split(head, back, name, m);
        law_pattern_without_star_matches_itself(back, name.skip(m));
        law_patterns_in_a_row(front, seq!['*'], name.take(m));
        let k = choose|k: int| matches_split(front, seq!['*'], name.take(m), k);
        law_pattern_without_star_matches_itself(front, name.take(m).take(k));
        assert(name.take(m).take(k) =~= name.take(k));
    }
    if front.len() + back.len() <= name.len() && name.take(front.len() as int) == front
        && name.skip(name.len() - back.len()) == back {
        let m = name.len() - back.len();
        let k = front.len() as int;
        assert(name.take(m).take(k) =~= name.take(k));
        law_pattern_without_star_matches_itself(front, name.take(m).take(k));
        law_star_matches_every_name(name.take(m).skip(k));
        assert(matches_split(front, seq!['*'], name.take(m), k));
        law_patterns_in_a_row(front, seq!['*'], name.take(m));
        law_pattern_without_star_matches_itself(back, name.skip(m));
        assert(matches_split(head, back, name, m));
    }
}

/// Settings of the uploader that the client itself looks at.
#[derive(Debug, PartialEq, Eq)]
pub struct UploadConfig {
    pub server_url: String,
    pub ignored_patterns: Vec<String>,
}

impl Default for UploadConfig {
    /// No server yet; temporary files are ignored.
    fn default() -> (config: UploadConfig)
        ensures
            config.server_url@ == Seq::<char>::empty(),
            config.ignored_patterns.deep_view() == seq!["*.tmp"@],
    {
        let mut ignored_patterns: Vec<String> = Vec::new();
        ignored_patterns.push("*.tmp".to_owned());
        assert(ignored_patterns.deep_view() =~= seq!["*.tmp"@]);
        UploadConfig { server_url: String::new(), ignored_patterns }
    }
}

/// Whether one of the patterns matches the name of the file at `path`.
pub open spec fn ignored(patterns: Seq<Seq<char>>, path: Seq<char>) -> bool {
    exists|i: int|
        0 <= i < patterns.len() && pattern_matches(
            #[trigger] patterns[i],
            crate::paths::file_name(path),
        )
}

impl UploadConfig {
    /// Whether a file is kept from being uploaded.
    pub fn is_ignored(&self, path: &str) -> (result: bool)
        ensures
            result == ignored(self.ignored_patterns.deep_view(), path@),
    {
        let name = file_name_of(path);
        let ghost patterns = self.ignored_patterns.deep_view();
        let mut i: usize = 0;
        while i < self.ignored_patterns.len()
            invariant
                0 <= i <= self.ignored_patterns.len(),
                name@ == crate::paths::file_name(path@),
                patterns == self.ignored_patterns.deep_view(),
                forall|j: int|
                    0 <= j < i ==> !pattern_matches(
                        #[trigger] patterns[j],
                        crate::paths::file_name(path@),
                    ),
            decreases self.ignored_patterns.len() - i,
        {
            assert(patterns[i as int] == self.ignored_patterns[i as int]@);
            if matches_pattern(self.ignored_patterns[i].as_str(), name.as_str()) {
                return true;
            }
            i = i + 1;
        }
        false
    }
}

/// Only the name of a file decides whether it is ignored, not where it lies, and
/// it is ignored exactly if some pattern matches that name.
pub proof fn law_name_decides_what_is_ignored(
    patterns: Seq<Seq<char>>,
    directory: Seq<char>,
    separator: char,
    name: Seq<char>,
)
    requires
        separator == '/' || separator == '\\',
        forall|i: int| 0 <= i < name.len() ==> #[trigger] name[i] != '/' && name[i] != '\\',
    ensures
        ignored(patterns, directory.push(separator) + name) <==> exists|i: int|
            0 <= i < patterns.len() && pattern_matches(#[trigger] patterns[i], name),
        ignored(patterns, name) <==> ignored(patterns, directory.push(separator) + name),
{
    crate::paths::law_file_name_follows_the_last_separator(directory, separator, name);
}

/// A file is ignored by two lists of patterns together if and only if one of them
/// ignores it; without patterns nothing is ignored.
pub proof fn law_patterns_are_independent(
    one: Seq<Seq<char>>,
    other: Seq<Seq<char>>,
    path: Seq<char>,
)
    ensures
        ignored(one + other, path) <==> ignored(one, path) || ignored(other, path),
        !ignored(Seq::empty(), path),
{
    let both = one + other;
    let name = crate::paths::file_name(path);
    if ignored(both, path) {
        let i = choose|i: int|
            0 <= i < both.len() && pattern_matches(#[trigger] both[i], name);
        if i < one.len() {
            assert(one[i] == both[i]);
        } else {
            assert(other[i - one.len()] == both[i]);
        }
    }
    if ignored(one, path) {
        let i = choose|i: int| 0 <= i < one.len() && pattern_matches(#[trigger] one[i], name);
        assert(both[i] == one[i]);
    }
    if ignored(other, path) {
        let i = choose|i: int| 0 <= i < other.len() && pattern_matches(#[trigger] other[i], name);
        assert(both[one.len() + i] == other[i]);
    }
}

/// A file waiting to be uploaded. `event_type` is what brought it into the
/// queue, where that was said.
#[derive(Debug, PartialEq, Eq)]
pub struct QueuedUpload {
    pub path: String,
    pub base_path: String,
    pub event_type: Option<String>,
}

/// Model of a [`QueuedUpload`].
pub struct Upload {
    pub path: Seq<char>,
    pub base_path: Seq<char>,
    pub event_type: Option<Seq<char>>,
}

impl View for QueuedUpload {
    type V = Upload;

    open spec fn view(&self) -> Upload {
        Upload {
            path: self.path@,
            base_path: self.base_path@,
            event_type: self.event_type.deep_view(),
        }
    }
}

impl DeepView for QueuedUpload {
    type V = Upload;

    open spec fn deep_view(&self) -> Upload {
        self@
    }
}

/// The files waiting to be uploaded, first come, first served.
#[derive(Debug, PartialEq, Eq)]
pub struct UploadQueue {
    items: VecDeque<QueuedUpload>,
}

impl View for UploadQueue {
    type V = Seq<Upload>;

    closed spec fn view(&self) -> Seq<Upload> {
        self.items.deep_view()
    }
}

/// The queue after a file was offered to it: at its end, unless it is ignored.
pub open spec fn offered(queue: Seq<Upload>, patterns: Seq<Seq<char>>, upload: Upload) -> Seq<
    Upload,
> {
    if ignored(patterns, upload.path) {
        queue
    } else {
        queue.push(upload)
    }
}

impl UploadQueue {
    pub fn new() -> (queue: UploadQueue)
        ensures
            queue@ == Seq::<Upload>::empty(),
    {
        let queue = UploadQueue { items: VecDeque::new() };
        assert(queue@ =~= Seq::<Upload>::empty());
        queue
    }

    pub fn len(&self) -> (len: usize)
        ensures
            len == self@.len(),
    {
        self.items.len()
    }

    /// The item that `index` others are ahead of.
    pub fn get(&self, index: usize) -> (item: Option<&QueuedUpload>)
        ensures
            item is Some <==> index < self@.len(),
            item matches Some(upload) ==> upload@ == self@[index as int],
    {
        if index < self.items.len() {
            Some(&self.items[index])
        } else {
            None
        }
    }

    /// Takes the item that has waited longest.
    pub fn pop(&mut self) -> (item: Option<QueuedUpload>)
        ensures
            item is Some <==> old(self)@.len() > 0,
            item matches Some(upload) ==> upload@ == old(self)@[0] && final(self)@ == old(
                self,
            )@.drop_first(),
            item is None ==> final(self)@ == old(self)@,
    {
        let ghost before = self@;
        let item = self.items.pop_front();
        if item.is_some() {
            assert(self@ =~= before.drop_first());
        }
        item
    }

    fn offer(&mut self, item: QueuedUpload, config: &UploadConfig) -> (queued: bool)
        ensures
            final(self)@ == offered(
                old(self)@,
                config.ignored_patterns.deep_view(),
                item@,
            ),
            queued == !ignored(config.ignored_patterns.deep_view(), item.path@),
    {
        if config.is_ignored(item.path.as_str()) {
            return false;
        }
        let ghost before = self@;
        let ghost added = item@;
        self.items.push_back(item);
        assert(self@ =~= before.push(added));
        true
    }

    /// Offers a file to the queue and says what brought it there.
    pub fn add_to_upload_queue_with_event_type(
        &mut self,
        request: UploadRequest,
        event_type: &str,
        config: &UploadConfig,
    ) -> (queued: bool)
        ensures
            final(self)@ == offered(
                old(self)@,
                config.ignored_patterns.deep_view(),
                Upload {
                    path: request.path@,
                    base_path: request.base_path@,
                    event_type: Some(event_type@),
                },
            ),
            queued == !ignored(config.ignored_patterns.deep_view(), request.path@),
    {
        let item = QueuedUpload {
            path: request.path,
            base_path: request.base_path,
            event_type: Some(event_type.to_owned()),
        };
        self.offer(item, config)
    }

    /// Offers a file that the watcher reported to the queue.
    pub fn add_to_upload_queue_sync(
        &mut self,
        request: UploadRequest,
        config: &UploadConfig,
    ) -> (queued: bool)
        ensures
            final(self)@ == offered(
                old(self)@,
                config.ignored_patterns.deep_view(),
                Upload {
                    path: request.path@,
                    base_path: request.base_path@,
                    event_type: None,
                },
            ),
            queued == !ignored(config.ignored_patterns.deep_view(), request.path@),
    {
        let item = QueuedUpload {
            path: request.path,
            base_path: request.base_path,
            event_type: None,
        };
        self.offer(item, config)
    }
}

/// The queue after a number of files were offered to it, one after another.
pub open spec fn all_offered(
    queue: Seq<Upload>,
    patterns: Seq<Seq<char>>,
    uploads: Seq<Upload>,
) -> Seq<Upload>
    decreases uploads.len(),
{
    if uploads.len() == 0 {
        queue
    } else {
        offered(all_offered(queue, patterns, uploads.drop_last()), patterns, uploads.last())
    }
}

/// Whatever is offered, the queue grows by exactly the files that no pattern
/// matches, in the order in which they were offered, and keeps what it had.
pub proof fn law_queue_grows_by_what_is_not_ignored(
    queue: Seq<Upload>,
    patterns: Seq<Seq<char>>,
    uploads: Seq<Upload>,
)
    ensures
        all_offered(queue, patterns, uploads) == queue + uploads.filter(
            |upload: Upload| !ignored(patterns, upload.path),
        ),
    decreases uploads.len(),
{
    reveal(Seq::filter);
    let wanted = |upload: Upload| !ignored(patterns, upload.path);
    if uploads.len() == 0 {
        assert(queue + uploads.filter(wanted) =~= queue);
    } else {
        law_queue_grows_by_what_is_not_ignored(queue, patterns, uploads.drop_last());
        assert(queue + uploads.filter(wanted) =~= all_offered(queue, patterns, uploads));
    }
}

/// The uploads that a watcher's requests are queued as.
pub open spec fn watched_uploads(requests: Seq<Request>) -> Seq<Upload> {
    requests.map_values(
        |request: Request|
            Upload { path: request.path, base_path: request.base_path, event_type: None },
    )
}

/// A notification that files are new or modified makes the queue grow by exactly
/// those of its paths that no pattern matches, in order; any other notification,
/// and an error, leaves the queue as it was.
pub proof fn law_watcher_queues_new_and_modified_files(
    queue: Seq<Upload>,
    patterns: Seq<Seq<char>>,
    notification: Result<ChangedPaths, Seq<char>>,
    folder: Seq<char>,
    timestamp: u64,
)
    ensures
        ({
            let requests = crate::events::uploads_of(
                crate::events::notified(notification, folder, timestamp),
            );
            let after = all_offered(queue, patterns, watched_uploads(requests));
            match notification {
                Ok(changes) if changes.kind.uploads() => after == queue
                    + changes.paths.map_values(
                    |path: Seq<char>| Upload { path, base_path: folder, event_type: None },
                ).filter(|upload: Upload| !ignored(patterns, upload.path)),
                _ => after == queue,
            }
        }),
{
    crate::events::law_new_and_modified_files_are_uploaded(notification, folder, timestamp);
    let requests = crate::events::uploads_of(
        crate::events::notified(notification, folder, timestamp),
    );
    if let Ok(changes) = notification {
        assert(changes.kind.uploads() ==> watched_uploads(requests) =~= changes.paths.map_values(
            |path: Seq<char>| Upload { path, base_path: folder, event_type: None },
        ));
    }
    law_queue_grows_by_what_is_not_ignored(queue, patterns, watched_uploads(requests));
}

/// The files of a finished walk, on their way into the queue one by one.
#[derive(Debug, PartialEq, Eq)]
pub struct ScannedFiles {
    files: VecDeque<String>,
}

impl View for ScannedFiles {
    type V = Seq<Seq<char>>;

    closed spec fn view(&self) -> Seq<Seq<char>> {
        self.files.deep_view()
    }
}

impl ScannedFiles {
    pub fn new(files: Vec<String>) -> (scanned: ScannedFiles)
        ensures
            scanned@ == files.deep_view(),
    {
        let scanned = ScannedFiles { files: into_queue(files) };
        assert(scanned@ =~= files.deep_view());
        scanned
    }

    /// The next file to queue; none once the files are used up or the start was
    /// overtaken.
    pub fn next(&mut self, superseded: bool) -> (file: Option<String>)
        ensures
            file is Some <==> !superseded && old(self)@.len() > 0,
            file matches Some(path) ==> path@ == old(self)@[0] && final(self)@ == old(
                self,
            )@.drop_first(),
            file is None ==> final(self)@ == old(self)@,
    {
        if superseded {
            return None;
        }
        let ghost before = self@;
        let file = self.files.pop_front();
        if file.is_some() {
            assert(self@ =~= before.drop_first());
        }
        file
    }
}

} // verus!
