//! Who this device is.

use crate::text::{joined, same_text};
use sha2::{Digest, Sha256};
use uuid::Uuid;
use vstd::prelude::*;

verus! {

/// Name of the file, in the application's data directory, that holds the
/// device ID.
pub const DEVICE_ID_FILENAME: &'static str = "device_id.txt";

/// Bytes in a gigabyte.
const BYTES_TO_GB_DIVISOR: u64 = 1073741824;

/// The SHA-256 digest of a sequence of bytes.
pub uninterp spec fn sha256(data: Seq<u8>) -> Seq<u8>;

/// Hashes `data` with `sha2::Sha256` (`new`, `update` and `finalize` of its
/// `Digest` trait). Nothing is claimed of the digest but that it depends on the
/// data alone and is 32 bytes long.
#[verifier::external_body]
fn sha256_digest(data: &[u8]) -> (digest: Vec<u8>)
    ensures
        digest@ == sha256(data@),
        digest@.len() == 32,
{
    let mut hasher = Sha256::new();
    hasher.update(data);
    hasher.finalize().to_vec()
}

/// The lower-case hexadecimal digit of a value below sixteen.
pub open spec fn hex_digit(value: u8) -> char {
    seq![
        '0', '1', '2', '3', '4', '5', '6', '7', '8', '9', 'a', 'b', 'c', 'd', 'e', 'f',
    ][value as int]
}

/// Whether a character is a lower-case hexadecimal digit.
pub open spec fn is_hex_digit(c: char) -> bool {
    '0' <= c <= '9' || 'a' <= c <= 'f'
}

/// Two hexadecimal digits for each byte, the high one first.
pub open spec fn hex(bytes: Seq<u8>) -> Seq<char> {
    Seq::new(
        2 * bytes.len(),
        |i: int|
            hex_digit(
                if i % 2 == 0 {
                    bytes[i / 2] / 16
                } else {
                    bytes[i / 2] % 16
                },
            ),
    )
}

fn digit_text(value: u8) -> (text: &'static str)
    requires
        value < 16,
    ensures
        text@ == seq![hex_digit(value)],
{
    proof {
        reveal_strlit("0");
        reveal_strlit("1");
        reveal_strlit("2");
        reveal_strlit("3");
        reveal_strlit("4");
        reveal_strlit("5");
        reveal_strlit("6");
        reveal_strlit("7");
        reveal_strlit("8");
        reveal_strlit("9");
        reveal_strlit("a");
        reveal_strlit("b");
        reveal_strlit("c");
        reveal_strlit("d");
        reveal_strlit("e");
        reveal_strlit("f");
    }
    let text = match value {
        0 => "0",
        1 => "1",
        2 => "2",
        3 => "3",
        4 => "4",
        5 => "5",
        6 => "6",
        7 => "7",
        8 => "8",
        9 => "9",
        10 => "a",
        11 => "b",
        12 => "c",
        13 => "d",
        14 => "e",
        _ => "f",
    };
    assert(text@ =~= seq![hex_digit(value)]);
    text
}

/// Writes bytes as lower-case hexadecimal digits.
pub fn to_hex(bytes: &Vec<u8>) -> (text: String)
    ensures
        text@ == hex(bytes@),
{
    let mut text = String::new();
    let mut i: usize = 0;
    assert(text@ =~= hex(bytes@.take(0)));
    while i < bytes.len()
        invariant
            0 <= i <= bytes.len(),
            text@ == hex(bytes@.take(i as int)),
        decreases bytes.len() - i,
    {
        let byte = bytes[i];
        text.append(digit_text(byte / 16));
        text.append(digit_text(byte % 16));
        assert(text@ =~= hex(bytes@.take(i + 1)));
        i = i + 1;
    }
    assert(bytes@.take(i as int) =~= bytes@);
    text
}

/// The fingerprint of the device whose machine ID was read, or why it could not
/// be read.
pub open spec fn fingerprint(machine_id: Result<Seq<char>, Seq<char>>) -> Result<
    Seq<char>,
    Seq<char>,
> {
    match machine_id {
        Ok(id) => Ok(hex(sha256(vstd::utf8::encode_utf8(id)))),
        Err(error) => Err("Failed to get machine ID: "@ + error),
    }
}

/// The fingerprint of this device: the hash of its machine ID.
pub fn get_device_fingerprint(machine_id: Result<String, String>) -> (result: Result<
    String,
    String,
>)
    ensures
        crate::text::result_text(result) == fingerprint(crate::text::result_text(machine_id)),
        match machine_id {
            Ok(id) => result matches Ok(text) && text@ == hex(
                sha256(vstd::utf8::encode_utf8(id@)),
            ),
            Err(error) => result matches Err(message) && message@ == "Failed to get machine ID: "@
                + error@,
        },
        result matches Ok(text) ==> text@.len() == 64 && forall|i: int|
            0 <= i < 64 ==> is_hex_digit(#[trigger] text@[i]),
{
    match machine_id {
        Ok(id) => {
            let digest = sha256_digest(id.as_str().as_bytes());
            Ok(to_hex(&digest))
        },
        Err(error) => Err(joined("Failed to get machine ID: ", error.as_str())),
    }
}

/// Different bytes are written differently.
pub proof fn law_hex_tells_bytes_apart(a: Seq<u8>, b: Seq<u8>)
    requires
        hex(a) == hex(b),
    ensures
        a == b,
{
    assert(hex(a).len() == 2 * a.len() && hex(b).len() == 2 * b.len());
    assert forall|i: int| 0 <= i < a.len() implies a[i] == b[i] by {
        let high = 2 * i;
        let low = 2 * i + 1;
        assert(high / 2 == i && high % 2 == 0 && low / 2 == i && low % 2 == 1);
        assert(hex(a)[high] == hex_digit(a[i] / 16) && hex(b)[high] == hex_digit(b[i] / 16));
        assert(hex(a)[low] == hex_digit(a[i] % 16) && hex(b)[low] == hex_digit(b[i] % 16));
        lemma_hex_digit_tells_values_apart(a[i] / 16, b[i] / 16);
        lemma_hex_digit_tells_values_apart(a[i] % 16, b[i] % 16);
    }
    assert(a =~= b);
}

proof fn lemma_hex_digit_tells_values_apart(a: u8, b: u8)
    requires
        a < 16,
        b < 16,
        hex_digit(a) == hex_digit(b),
    ensures
        a == b,
{
}

/// The value of a lower-case hexadecimal digit.
pub open spec fn digit_value(c: char) -> int {
    if '0' <= c <= '9' {
        c as int - '0' as int
    } else {
        c as int - 'a' as int + 10
    }
}

proof fn lemma_digit_value(value: u8)
    requires
        value < 16,
    ensures
        digit_value(hex_digit(value)) == value,
        is_hex_digit(hex_digit(value)),
{
}

/// The digits can be read back: each byte has two lower-case digits, the high one
/// first, whose values make up the byte.
pub proof fn law_hex_can_be_read_back(bytes: Seq<u8>)
    ensures
        hex(bytes).len() == 2 * bytes.len(),
        forall|i: int|
            0 <= i < hex(bytes).len() ==> '0' <= #[trigger] hex(bytes)[i] <= '9' || 'a' <= hex(
                bytes,
            )[i] <= 'f',
        forall|i: int|
            0 <= i < bytes.len() ==> #[trigger] bytes[i] == 16 * digit_value(hex(bytes)[2 * i])
                + digit_value(hex(bytes)[2 * i + 1]),
{
    assert forall|i: int| 0 <= i < hex(bytes).len() implies '0' <= #[trigger] hex(bytes)[i] <= '9'
        || 'a' <= hex(bytes)[i] <= 'f' by {
        lemma_digit_value(
            if i % 2 == 0 {
                bytes[i / 2] / 16
            } else {
                bytes[i / 2] % 16
            },
        );
    }
    assert forall|i: int| 0 <= i < bytes.len() implies #[trigger] bytes[i] == 16 * digit_value(
        hex(bytes)[2 * i],
    ) + digit_value(hex(bytes)[2 * i + 1]) by {
        let high = 2 * i;
        let low = 2 * i + 1;
        assert(high / 2 == i && high % 2 == 0 && low / 2 == i && low % 2 == 1);
        lemma_digit_value(bytes[i] / 16);
        lemma_digit_value(bytes[i] % 16);
    }
}

/// Machines get the same fingerprint only if the hashes of their whole IDs agree:
/// no part of an ID is left out, and nothing is added to it.
pub proof fn law_fingerprint_hashes_the_whole_id(one: Seq<char>, other: Seq<char>)
    ensures
        fingerprint(Ok(one)) == fingerprint(Ok(other)) <==> sha256(vstd::utf8::encode_utf8(one))
            == sha256(vstd::utf8::encode_utf8(other)),
{
    if fingerprint(Ok(one)) == fingerprint(Ok(other)) {
        law_hex_tells_bytes_apart(
            sha256(vstd::utf8::encode_utf8(one)),
            sha256(vstd::utf8::encode_utf8(other)),
        );
    }
}

/// Every machine ID has a fingerprint, from which the hash of the ID can be read
/// back byte by byte.
pub proof fn law_fingerprint_spells_the_hash(id: Seq<char>)
    ensures
        fingerprint(Ok(id)) matches Ok(text) && {
            let hash = sha256(vstd::utf8::encode_utf8(id));
            &&& text.len() == 2 * hash.len()
            &&& forall|i: int|
                0 <= i < hash.len() ==> #[trigger] hash[i] == 16 * digit_value(text[2 * i])
                    + digit_value(text[2 * i + 1])
        },
{
    law_hex_can_be_read_back(sha256(vstd::utf8::encode_utf8(id)));
}

/// The text of a random UUID: five groups of lower-case hexadecimal digits
/// joined by hyphens, with the version digit `4` and a variant digit between
/// `8` and `b` in their places.
pub open spec fn is_random_uuid(text: Seq<char>) -> bool {
    &&& text.len() == 36
    &&& forall|i: int|
        0 <= i < 36 ==> if i == 8 || i == 13 || i == 18 || i == 23 {
            #[trigger] text[i] == '-'
        } else {
            is_hex_digit(text[i])
        }
    &&& text[14] == '4'
    &&& text[19] == '8' || text[19] == '9' || text[19] == 'a' || text[19] == 'b'
}

/// Draws an ID with `uuid::Uuid::new_v4` and writes it out with its `Display`.
/// The ID is random: all that is claimed is its form. Like that function, this
/// one panics on a machine that cannot provide random numbers.
#[verifier::external_body]
fn random_uuid() -> (text: String)
    ensures
        is_random_uuid(text@),
{
    Uuid::new_v4().to_string()
}

/// What has to be done next to learn the ID of this device.
#[derive(Debug, PartialEq, Eq)]
pub enum DeviceIdStep {
    /// Find out where the application keeps its data.
    LocateDataDirectory,
    /// See whether that directory exists.
    CheckDataDirectory,
    /// Create it.
    CreateDataDirectory,
    /// See whether the file with the ID exists.
    CheckIdFile,
    /// Read it.
    ReadIdFile,
    /// Write this new ID to it.
    WriteIdFile(String),
    /// The ID, or why there is none.
    Done(Result<String, String>),
}

/// Model of a [`DeviceIdStep`].
pub enum IdStep {
    LocateDataDirectory,
    CheckDataDirectory,
    CreateDataDirectory,
    CheckIdFile,
    ReadIdFile,
    WriteIdFile(Seq<char>),
    Done(Result<Seq<char>, Seq<char>>),
}

impl View for DeviceIdStep {
    type V = IdStep;

    open spec fn view(&self) -> IdStep {
        match self {
            DeviceIdStep::LocateDataDirectory => IdStep::LocateDataDirectory,
            DeviceIdStep::CheckDataDirectory => IdStep::CheckDataDirectory,
            DeviceIdStep::CreateDataDirectory => IdStep::CreateDataDirectory,
            DeviceIdStep::CheckIdFile => IdStep::CheckIdFile,
            DeviceIdStep::ReadIdFile => IdStep::ReadIdFile,
            DeviceIdStep::WriteIdFile(id) => IdStep::WriteIdFile(id@),
            DeviceIdStep::Done(result) => IdStep::Done(crate::text::result_text(*result)),
        }
    }
}

/// What came of such a step.
#[derive(Debug, PartialEq, Eq)]
pub enum DeviceIdReply {
    /// It was done.
    Done,
    /// What was looked for exists, or not.
    Exists(bool),
    /// The file holds this text.
    Text(String),
    /// It could not be done.
    Failed(String),
}

/// Model of a [`DeviceIdReply`].
pub enum IdReply {
    Done,
    Exists(bool),
    Text(Seq<char>),
    Failed(Seq<char>),
}

impl View for DeviceIdReply {
    type V = IdReply;

    open spec fn view(&self) -> IdReply {
        match self {
            DeviceIdReply::Done => IdReply::Done,
            DeviceIdReply::Exists(exists) => IdReply::Exists(*exists),
            DeviceIdReply::Text(text) => IdReply::Text(text@),
            DeviceIdReply::Failed(error) => IdReply::Failed(error@),
        }
    }
}

impl IdStep {
    /// The step after this one, given the reply to it and the ID that a device
    /// without one gets. A reply that does not fit the step changes nothing.
    pub open spec fn next(self, reply: IdReply, fresh: Seq<char>) -> IdStep {
        match (self, reply) {
            (IdStep::LocateDataDirectory, IdReply::Done) => IdStep::CheckDataDirectory,
            (IdStep::LocateDataDirectory, IdReply::Failed(error)) => IdStep::Done(
                Err("Failed to get app data directory: "@ + error),
            ),
            (IdStep::CheckDataDirectory, IdReply::Exists(exists)) => if exists {
                IdStep::CheckIdFile
            } else {
                IdStep::CreateDataDirectory
            },
            (IdStep::CreateDataDirectory, IdReply::Done) => IdStep::CheckIdFile,
            (IdStep::CreateDataDirectory, IdReply::Failed(error)) => IdStep::Done(
                Err("Failed to create app directory: "@ + error),
            ),
            (IdStep::CheckIdFile, IdReply::Exists(exists)) => if exists {
                IdStep::ReadIdFile
            } else {
                IdStep::WriteIdFile(fresh)
            },
            (IdStep::ReadIdFile, IdReply::Text(id)) => IdStep::Done(Ok(id)),
            (IdStep::ReadIdFile, IdReply::Failed(error)) => IdStep::Done(
                Err("Failed to read device ID file: "@ + error),
            ),
            (IdStep::WriteIdFile(id), IdReply::Done) => IdStep::Done(Ok(id)),
            (IdStep::WriteIdFile(_), IdReply::Failed(error)) => IdStep::Done(
                Err("Failed to write device ID file: "@ + error),
            ),
            _ => self,
        }
    }

    /// Whether the device is given a new ID now.
    pub open spec fn needs_id(self, reply: IdReply) -> bool {
        self is CheckIdFile && reply == IdReply::Exists(false)
    }
}

fn failure(what: &str, error: &String) -> (step: DeviceIdStep)
    ensures
        step@ == IdStep::Done(Err(what@ + error@)),
{
    DeviceIdStep::Done(Err(joined(what, error.as_str())))
}

impl DeviceIdStep {
    /// The step after this one, for a device that gets the ID `fresh` if it has
    /// none yet.
    pub fn next_with(self, reply: DeviceIdReply, fresh: String) -> (next: DeviceIdStep)
        ensures
            next@ == self@.next(reply@, fresh@),
    {
        match (self, reply) {
            (
                DeviceIdStep::LocateDataDirectory,
                DeviceIdReply::Done,
            ) => DeviceIdStep::CheckDataDirectory,
            (DeviceIdStep::LocateDataDirectory, DeviceIdReply::Failed(error)) => failure(
                "Failed to get app data directory: ",
                &error,
            ),
            (DeviceIdStep::CheckDataDirectory, DeviceIdReply::Exists(exists)) => if exists {
                DeviceIdStep::CheckIdFile
            } else {
                DeviceIdStep::CreateDataDirectory
            },
            (
                DeviceIdStep::CreateDataDirectory,
                DeviceIdReply::Done,
            ) => DeviceIdStep::CheckIdFile,
            (DeviceIdStep::CreateDataDirectory, DeviceIdReply::Failed(error)) => failure(
                "Failed to create app directory: ",
                &error,
            ),
            (DeviceIdStep::CheckIdFile, DeviceIdReply::Exists(exists)) => if exists {
                DeviceIdStep::ReadIdFile
            } else {
                DeviceIdStep::WriteIdFile(fresh)
            },
            (DeviceIdStep::ReadIdFile, DeviceIdReply::Text(id)) => DeviceIdStep::Done(Ok(id)),
            (DeviceIdStep::ReadIdFile, DeviceIdReply::Failed(error)) => failure(
                "Failed to read device ID file: ",
                &error,
            ),
            (DeviceIdStep::WriteIdFile(id), DeviceIdReply::Done) => DeviceIdStep::Done(Ok(id)),
            (DeviceIdStep::WriteIdFile(_), DeviceIdReply::Failed(error)) => failure(
                "Failed to write device ID file: ",
                &error,
            ),
            (step, _) => step,
        }
    }

    /// The step after this one; a device that has no ID yet gets a random one.
    /// To draw it, this panics on a machine that cannot provide random numbers.
    pub fn next(self, reply: DeviceIdReply) -> (next: DeviceIdStep)
        ensures
            self@.needs_id(reply@) ==> next@ is WriteIdFile && is_random_uuid(
                next@->WriteIdFile_0,
            ),
            !self@.needs_id(reply@) ==> forall|fresh: Seq<char>|
                next@ == #[trigger] self@.next(reply@, fresh),
    {
        let fresh = match (&self, &reply) {
            (DeviceIdStep::CheckIdFile, DeviceIdReply::Exists(false)) => random_uuid(),
            _ => String::new(),
        };
        self.next_with(reply, fresh)
    }
}

/// The ID that a device was given is the ID it has from then on: what was
/// written is what the first run reports, and what a later run reports when it
/// finds it in the file.
pub proof fn law_device_keeps_its_id(id: Seq<char>, other: Seq<char>)
    ensures
        IdStep::CheckIdFile.next(IdReply::Exists(false), id) == IdStep::WriteIdFile(id),
        IdStep::WriteIdFile(id).next(IdReply::Done, other) == IdStep::Done(Ok(id)),
        IdStep::CheckIdFile.next(IdReply::Exists(true), other).next(IdReply::Text(id), other)
            == IdStep::Done(Ok(id)),
{
}

/// A device whose file holds an ID has that ID, to the letter, and one without a
/// file gets the fresh one, which is what is written; a data directory that is
/// missing is created on the way and makes no other difference.
pub proof fn law_device_id_is_what_the_file_holds(
    directory_exists: bool,
    text: Seq<char>,
    fresh: Seq<char>,
)
    ensures
        ({
            let located = IdStep::LocateDataDirectory.next(IdReply::Done, fresh);
            let checked = located.next(IdReply::Exists(directory_exists), fresh);
            let ready = if directory_exists {
                checked
            } else {
                checked.next(IdReply::Done, fresh)
            };
            &&& located == IdStep::CheckDataDirectory
            &&& checked is CreateDataDirectory <==> !directory_exists
            &&& ready == IdStep::CheckIdFile
            &&& ready.next(IdReply::Exists(true), fresh) == IdStep::ReadIdFile
            &&& ready.next(IdReply::Exists(true), fresh).next(IdReply::Text(text), fresh)
                == IdStep::Done(Ok(text))
            &&& ready.next(IdReply::Exists(false), fresh) == IdStep::WriteIdFile(fresh)
            &&& ready.next(IdReply::Exists(false), fresh).next(IdReply::Done, text)
                == IdStep::Done(Ok(fresh))
        }),
{
}

/// Whatever fails on the way to the ID ends the search with an error that names
/// the step and ends with the reason; a search that is over stays as it is.
pub proof fn law_failure_ends_the_search_for_the_id(
    step: IdStep,
    reply: IdReply,
    error: Seq<char>,
    fresh: Seq<char>,
)
    ensures
        IdStep::LocateDataDirectory.next(IdReply::Failed(error), fresh) == IdStep::Done(
            Err("Failed to get app data directory: "@ + error),
        ),
        IdStep::CreateDataDirectory.next(IdReply::Failed(error), fresh) == IdStep::Done(
            Err("Failed to create app directory: "@ + error),
        ),
        IdStep::ReadIdFile.next(IdReply::Failed(error), fresh) == IdStep::Done(
            Err("Failed to read device ID file: "@ + error),
        ),
        IdStep::WriteIdFile(fresh).next(IdReply::Failed(error), fresh) == IdStep::Done(
            Err("Failed to write device ID file: "@ + error),
        ),
        step is Done ==> step.next(reply, fresh) == step,
        step.next(reply, fresh) matches IdStep::Done(Err(_)) && !(step is Done) ==> reply is Failed,
{
}

/// What is known of the system the client runs on. `os` and `arch` are the names
/// under which Rust knows them.
#[derive(Debug, PartialEq, Eq)]
pub struct SystemFacts {
    pub host_name: Option<String>,
    pub os_version: Option<String>,
    pub os: String,
    pub arch: String,
    pub cpus: usize,
    pub memory_bytes: u64,
}

/// Model of [`SystemFacts`].
pub struct Facts {
    pub host_name: Option<Seq<char>>,
    pub os_version: Option<Seq<char>>,
    pub os: Seq<char>,
    pub arch: Seq<char>,
    pub cpus: usize,
    pub memory_bytes: u64,
}

impl View for SystemFacts {
    type V = Facts;

    open spec fn view(&self) -> Facts {
        Facts {
            host_name: self.host_name.deep_view(),
            os_version: self.os_version.deep_view(),
            os: self.os@,
            arch: self.arch@,
            cpus: self.cpus,
            memory_bytes: self.memory_bytes,
        }
    }
}

/// What the front end is told about this device.
#[derive(Debug, PartialEq, Eq)]
pub struct DeviceInfo {
    pub hostname: String,
    pub platform: String,
    pub release: String,
    pub arch: String,
    pub cpus: usize,
    /// In gigabytes, rounded down.
    pub total_memory: u64,
    pub os_type: String,
    pub device_id: String,
    pub device_fingerprint: String,
}

/// Model of a [`DeviceInfo`].
pub struct Particulars {
    pub hostname: Seq<char>,
    pub platform: Seq<char>,
    pub release: Seq<char>,
    pub arch: Seq<char>,
    pub cpus: usize,
    pub total_memory: u64,
    pub os_type: Seq<char>,
    pub device_id: Seq<char>,
    pub device_fingerprint: Seq<char>,
}

impl View for DeviceInfo {
    type V = Particulars;

    open spec fn view(&self) -> Particulars {
        Particulars {
            hostname: self.hostname@,
            platform: self.platform@,
            release: self.release@,
            arch: self.arch@,
            cpus: self.cpus,
            total_memory: self.total_memory,
            os_type: self.os_type@,
            device_id: self.device_id@,
            device_fingerprint: self.device_fingerprint@,
        }
    }
}

/// A text, or `Unknown` where there is none.
pub open spec fn or_unknown(text: Option<Seq<char>>) -> Seq<char> {
    match text {
        Some(text) => text,
        None => "Unknown"@,
    }
}

/// The name by which users know an operating system.
pub open spec fn platform_label(os: Seq<char>) -> Seq<char> {
    if os == "windows"@ {
        "Windows"@
    } else if os == "macos"@ {
        "macOS"@
    } else if os == "linux"@ {
        "Linux"@
    } else {
        "Unknown"@
    }
}

/// The short name of a processor architecture, where it has one.
pub open spec fn arch_label(arch: Seq<char>) -> Seq<char> {
    if arch == "x86_64"@ {
        "x64"@
    } else if arch == "aarch64"@ {
        "arm64"@
    } else {
        arch
    }
}

fn text_or_unknown(text: Option<String>) -> (result: String)
    ensures
        result@ == or_unknown(text.deep_view()),
{
    match text {
        Some(text) => text,
        None => "Unknown".to_owned(),
    }
}

fn platform_name(os: &str) -> (name: String)
    ensures
        name@ == platform_label(os@),
{
    if same_text(os, "windows") {
        "Windows".to_owned()
    } else if same_text(os, "macos") {
        "macOS".to_owned()
    } else if same_text(os, "linux") {
        "Linux".to_owned()
    } else {
        "Unknown".to_owned()
    }
}

fn arch_name(arch: &str) -> (name: String)
    ensures
        name@ == arch_label(arch@),
{
    if same_text(arch, "x86_64") {
        "x64".to_owned()
    } else if same_text(arch, "aarch64") {
        "arm64".to_owned()
    } else {
        arch.to_owned()
    }
}

/// What is known of a device, or why it is not known: a missing ID is reported
/// before a missing fingerprint.
pub open spec fn particulars(
    device_id: Result<Seq<char>, Seq<char>>,
    device_fingerprint: Result<Seq<char>, Seq<char>>,
    facts: Facts,
) -> Result<Particulars, Seq<char>> {
    match (device_id, device_fingerprint) {
        (Err(error), _) => Err(error),
        (Ok(_), Err(error)) => Err(error),
        (Ok(device_id), Ok(device_fingerprint)) => Ok(
            Particulars {
                hostname: or_unknown(facts.host_name),
                platform: platform_label(facts.os),
                release: or_unknown(facts.os_version),
                arch: arch_label(facts.arch),
                cpus: facts.cpus,
                total_memory: facts.memory_bytes / 1073741824,
                os_type: platform_label(facts.os),
                device_id,
                device_fingerprint,
            },
        ),
    }
}

/// A `Result` of a device's particulars, with the models in their places.
pub open spec fn info_result(result: Result<DeviceInfo, String>) -> Result<
    Particulars,
    Seq<char>,
> {
    match result {
        Ok(info) => Ok(info@),
        Err(error) => Err(error@),
    }
}

/// Puts together what is known of this device. A missing ID is reported before
/// a missing fingerprint.
pub fn get_device_info(
    device_id: Result<String, String>,
    device_fingerprint: Result<String, String>,
    facts: SystemFacts,
) -> (result: Result<DeviceInfo, String>)
    ensures
        info_result(result) == particulars(
            crate::text::result_text(device_id),
            crate::text::result_text(device_fingerprint),
            facts@,
        ),
        match (device_id, device_fingerprint) {
            (Err(error), _) => result matches Err(message) && message@ == error@,
            (Ok(_), Err(error)) => result matches Err(message) && message@ == error@,
            (Ok(id), Ok(print)) => result matches Ok(info) && {
                &&& info.device_id@ == id@
                &&& info.device_fingerprint@ == print@
                &&& info.hostname@ == or_unknown(facts.host_name.deep_view())
                &&& info.platform@ == platform_label(facts.os@)
                &&& info.os_type@ == platform_label(facts.os@)
                &&& info.release@ == or_unknown(facts.os_version.deep_view())
                &&& info.arch@ == arch_label(facts.arch@)
                &&& info.cpus == facts.cpus
                &&& info.total_memory == facts.memory_bytes as int / 1073741824
            },
        },
{
    let device_id = match device_id {
        Ok(id) => id,
        Err(error) => return Err(error),
    };
    let device_fingerprint = match device_fingerprint {
        Ok(fingerprint) => fingerprint,
        Err(error) => return Err(error),
    };
    let platform = platform_name(facts.os.as_str());
    Ok(
        DeviceInfo {
            hostname: text_or_unknown(facts.host_name),
            platform: platform.clone(),
            release: text_or_unknown(facts.os_version),
            arch: arch_name(facts.arch.as_str()),
            cpus: facts.cpus,
            total_memory: facts.memory_bytes / BYTES_TO_GB_DIVISOR,
            os_type: platform,
            device_id,
            device_fingerprint,
        },
    )
}

/// The particulars carry over what was found, unchanged: the ID, the fingerprint,
/// the names, the number of processors. Memory is given in whole gigabytes, and
/// what is not known reads `Unknown`.
pub proof fn law_particulars_carry_what_was_found(
    id: Seq<char>,
    print: Seq<char>,
    facts: Facts,
)
    ensures
        particulars(Ok(id), Ok(print), facts) matches Ok(info) && {
            &&& info.device_id == id
            &&& info.device_fingerprint == print
            &&& info.hostname == (match facts.host_name {
                Some(name) => name,
                None => "Unknown"@,
            })
            &&& info.release == (match facts.os_version {
                Some(version) => version,
                None => "Unknown"@,
            })
            &&& info.cpus == facts.cpus
            &&& info.total_memory * 1073741824 <= facts.memory_bytes < (info.total_memory + 1)
                * 1073741824
            &&& info.os_type == info.platform
            &&& facts.os == "windows"@ ==> info.platform == "Windows"@
            &&& facts.os == "macos"@ ==> info.platform == "macOS"@
            &&& facts.os == "linux"@ ==> info.platform == "Linux"@
            &&& facts.os != "windows"@ && facts.os != "macos"@ && facts.os != "linux"@
                ==> info.platform == "Unknown"@
            &&& facts.arch == "x86_64"@ ==> info.arch == "x64"@
            &&& facts.arch == "aarch64"@ ==> info.arch == "arm64"@
            &&& facts.arch != "x86_64"@ && facts.arch != "aarch64"@ ==> info.arch == facts.arch
        },
{
    reveal_strlit("windows");
    reveal_strlit("macos");
    reveal_strlit("linux");
    reveal_strlit("x86_64");
    reveal_strlit("aarch64");
    assert("windows"@.len() == 7 && "macos"@.len() == 5 && "linux"@.len() == 5);
    assert("macos"@[0] != "linux"@[0]);
    assert("x86_64"@.len() != "aarch64"@.len());
}

/// Without an ID the particulars are refused for that reason, whatever else is
/// known, and with an ID but no fingerprint for the other.
pub proof fn law_first_failure_is_reported(
    error: Seq<char>,
    id: Seq<char>,
    print: Result<Seq<char>, Seq<char>>,
    facts: Facts,
)
    ensures
        particulars(Err(error), print, facts) == Err::<Particulars, Seq<char>>(error),
        particulars(Ok(id), Err(error), facts) == Err::<Particulars, Seq<char>>(error),
{
}

/// What has to be done next to learn the particulars of this device.
#[derive(Debug, PartialEq, Eq)]
pub enum DeviceInfoStep {
    /// Find the ID of the device.
    FindDeviceId,
    /// Read the ID of the machine.
    ReadMachineId { device_id: String },
    /// Look at the system.
    ReadFacts { device_id: String, device_fingerprint: String },
    /// The particulars, or why there are none.
    Done(Result<DeviceInfo, String>),
}

/// Model of a [`DeviceInfoStep`].
pub enum InfoStep {
    FindDeviceId,
    ReadMachineId { device_id: Seq<char> },
    ReadFacts { device_id: Seq<char>, device_fingerprint: Seq<char> },
    Done(Result<Particulars, Seq<char>>),
}

impl View for DeviceInfoStep {
    type V = InfoStep;

    open spec fn view(&self) -> InfoStep {
        match self {
            DeviceInfoStep::FindDeviceId => InfoStep::FindDeviceId,
            DeviceInfoStep::ReadMachineId { device_id } => InfoStep::ReadMachineId {
                device_id: device_id@,
            },
            DeviceInfoStep::ReadFacts { device_id, device_fingerprint } => InfoStep::ReadFacts {
                device_id: device_id@,
                device_fingerprint: device_fingerprint@,
            },
            DeviceInfoStep::Done(result) => InfoStep::Done(info_result(*result)),
        }
    }
}

/// What came of such a step.
#[derive(Debug, PartialEq, Eq)]
pub enum DeviceInfoReply {
    DeviceId(Result<String, String>),
    MachineId(Result<String, String>),
    Facts(SystemFacts),
}

/// Model of a [`DeviceInfoReply`].
pub enum InfoReply {
    DeviceId(Result<Seq<char>, Seq<char>>),
    MachineId(Result<Seq<char>, Seq<char>>),
    Facts(Facts),
}

impl View for DeviceInfoReply {
    type V = InfoReply;

    open spec fn view(&self) -> InfoReply {
        match self {
            DeviceInfoReply::DeviceId(result) => InfoReply::DeviceId(
                crate::text::result_text(*result),
            ),
            DeviceInfoReply::MachineId(result) => InfoReply::MachineId(
                crate::text::result_text(*result),
            ),
            DeviceInfoReply::Facts(facts) => InfoReply::Facts(facts@),
        }
    }
}

impl InfoStep {
    /// The step after this one, given the reply to it. The first failure ends the
    /// search; a reply that does not fit the step changes nothing.
    pub open spec fn next(self, reply: InfoReply) -> InfoStep {
        match (self, reply) {
            (InfoStep::FindDeviceId, InfoReply::DeviceId(Ok(device_id))) => {
                InfoStep::ReadMachineId { device_id }
            },
            (InfoStep::FindDeviceId, InfoReply::DeviceId(Err(error))) => InfoStep::Done(
                Err(error),
            ),
            (InfoStep::ReadMachineId { device_id }, InfoReply::MachineId(machine_id)) => {
                match fingerprint(machine_id) {
                    Ok(device_fingerprint) => InfoStep::ReadFacts { device_id, device_fingerprint },
                    Err(error) => InfoStep::Done(Err(error)),
                }
            },
            (
                InfoStep::ReadFacts { device_id, device_fingerprint },
                InfoReply::Facts(facts),
            ) => InfoStep::Done(particulars(Ok(device_id), Ok(device_fingerprint), facts)),
            _ => self,
        }
    }

    /// The step after a number of replies.
    pub open spec fn after(self, replies: Seq<InfoReply>) -> InfoStep
        decreases replies.len(),
    {
        if replies.len() == 0 {
            self
        } else {
            self.after(replies.drop_last()).next(replies.last())
        }
    }
}

impl DeviceInfoStep {
    /// The step after this one, given the reply to it.
    pub fn next(self, reply: DeviceInfoReply) -> (next: DeviceInfoStep)
        ensures
            next@ == self@.next(reply@),
    {
        match (self, reply) {
            (DeviceInfoStep::FindDeviceId, DeviceInfoReply::DeviceId(result)) => match result {
                Ok(device_id) => DeviceInfoStep::ReadMachineId { device_id },
                Err(error) => DeviceInfoStep::Done(Err(error)),
            },
            (
                DeviceInfoStep::ReadMachineId { device_id },
                DeviceInfoReply::MachineId(machine_id),
            ) => match get_device_fingerprint(machine_id) {
                Ok(device_fingerprint) => DeviceInfoStep::ReadFacts {
                    device_id,
                    device_fingerprint,
                },
                Err(error) => DeviceInfoStep::Done(Err(error)),
            },
            (
                DeviceInfoStep::ReadFacts { device_id, device_fingerprint },
                DeviceInfoReply::Facts(facts),
            ) => DeviceInfoStep::Done(
                get_device_info(Ok(device_id), Ok(device_fingerprint), facts),
            ),
            (step, _) => step,
        }
    }
}

/// Whatever the device ID, the machine ID and the system turn out to be, the
/// steps come to what [`get_device_info`] makes of all three.
pub proof fn law_steps_come_to_the_particulars(
    device_id: Result<Seq<char>, Seq<char>>,
    machine_id: Result<Seq<char>, Seq<char>>,
    facts: Facts,
)
    ensures
        InfoStep::FindDeviceId.next(InfoReply::DeviceId(device_id)).next(
            InfoReply::MachineId(machine_id),
        ).next(InfoReply::Facts(facts)) == InfoStep::Done(
            particulars(device_id, fingerprint(machine_id), facts),
        ),
{
}

/// Whether the reply at `i` is the first one about the device ID.
pub open spec fn first_id_reply(replies: Seq<InfoReply>, i: int) -> bool {
    &&& 0 <= i < replies.len()
    &&& replies[i] is DeviceId
    &&& forall|j: int| 0 <= j < i ==> !(#[trigger] replies[j] is DeviceId)
}

/// Whether the first reply about the device ID gave `device_id`.
pub open spec fn id_is_known(replies: Seq<InfoReply>, device_id: Seq<char>) -> bool {
    exists|i: int|
        #[trigger] first_id_reply(replies, i) && replies[i] == InfoReply::DeviceId(Ok(device_id))
}

/// How far the search is after a number of replies, by the replies it had.
proof fn lemma_search_so_far(replies: Seq<InfoReply>)
    ensures
        match InfoStep::FindDeviceId.after(replies) {
            InfoStep::FindDeviceId => forall|i: int|
                0 <= i < replies.len() ==> !(#[trigger] replies[i] is DeviceId),
            InfoStep::ReadMachineId { device_id } => id_is_known(replies, device_id),
            InfoStep::ReadFacts { device_id, .. } => id_is_known(replies, device_id),
            InfoStep::Done(_) => exists|i: int|
                0 <= i < replies.len() && (#[trigger] replies[i] is DeviceId),
        },
    decreases replies.len(),
{
    if replies.len() > 0 {
        let earlier = replies.drop_last();
        lemma_search_so_far(earlier);
        assert(replies.last() == replies[replies.len() - 1]);
        assert(forall|i: int| 0 <= i < earlier.len() ==> earlier[i] == #[trigger] replies[i]);
        match InfoStep::FindDeviceId.after(earlier) {
            InfoStep::FindDeviceId => {
                if let InfoReply::DeviceId(Ok(device_id)) = replies.last() {
                    assert(first_id_reply(replies, replies.len() - 1));
                }
            },
            InfoStep::ReadMachineId { device_id } => {
                lemma_known_id_stays(replies, device_id);
            },
            InfoStep::ReadFacts { device_id, .. } => {
                lemma_known_id_stays(replies, device_id);
            },
            InfoStep::Done(_) => {
                let i = choose|i: int|
                    0 <= i < earlier.len() && (#[trigger] earlier[i] is DeviceId);
                assert(earlier[i] == replies[i]);
            },
        }
    }
}

proof fn lemma_known_id_stays(replies: Seq<InfoReply>, device_id: Seq<char>)
    requires
        replies.len() > 0,
        id_is_known(replies.drop_last(), device_id),
    ensures
        id_is_known(replies, device_id),
{
    let earlier = replies.drop_last();
    let i = choose|i: int|
        #[trigger] first_id_reply(earlier, i) && earlier[i] == InfoReply::DeviceId(Ok(device_id));
    assert(forall|j: int| 0 <= j < earlier.len() ==> earlier[j] == #[trigger] replies[j]);
    assert(first_id_reply(replies, i));
}

/// The machine ID is asked for, and the fingerprint worked out, only once the ID
/// of the device is known.
pub proof fn law_fingerprint_waits_for_the_device_id(replies: Seq<InfoReply>)
    ensures
        InfoStep::FindDeviceId.after(replies) matches InfoStep::ReadMachineId { device_id }
            ==> id_is_known(replies, device_id),
        InfoStep::FindDeviceId.after(replies) matches InfoStep::ReadFacts { device_id, .. }
            ==> id_is_known(replies, device_id),
{
    lemma_search_so_far(replies);
}

/// Once the ID of the device could not be found, the search is over with that
/// error, and the machine ID is neither asked for nor hashed, at any time.
pub proof fn law_no_fingerprint_without_a_device_id(
    replies: Seq<InfoReply>,
    failed: int,
    error: Seq<char>,
)
    requires
        first_id_reply(replies, failed),
        replies[failed] == InfoReply::DeviceId(Err(error)),
    ensures
        InfoStep::FindDeviceId.after(replies) == InfoStep::Done(Err(error)),
        forall|k: int|
            0 <= k <= replies.len() ==> {
                let step = InfoStep::FindDeviceId.after(#[trigger] replies.take(k));
                !(step is ReadMachineId) && !(step is ReadFacts)
            },
    decreases replies.len(),
{
    let earlier = replies.drop_last();
    assert(replies.take(replies.len() as int) =~= replies);
    if failed == earlier.len() {
        assert forall|k: int| 0 <= k <= earlier.len() implies InfoStep::FindDeviceId.after(
            #[trigger] replies.take(k),
        ) is FindDeviceId by {
            let some = replies.take(k);
            assert(forall|j: int| 0 <= j < some.len() ==> #[trigger] some[j] == replies[j]);
            lemma_search_so_far(some);
        }
        assert(replies.take(failed) =~= earlier);
    } else {
        assert(forall|j: int| 0 <= j < earlier.len() ==> earlier[j] == #[trigger] replies[j]);
        assert(first_id_reply(earlier, failed));
        law_no_fingerprint_without_a_device_id(earlier, failed, error);
        assert forall|k: int| 0 <= k <= replies.len() implies {
            let step = InfoStep::FindDeviceId.after(#[trigger] replies.take(k));
            !(step is ReadMachineId) && !(step is ReadFacts)
        } by {
            if k < replies.len() {
                assert(replies.take(k) =~= earlier.take(k));
            }
        }
    }
}

} // verus!
