//! Sirv access for folder sync: what a request says, what an answer means, and how a
//! local folder stands against a remote one.
//!
//! Secrets live in their own file next to the window settings, because the window
//! settings are rewritten on every viewport change and must never be the thing that
//! silently drops a credential.

use crate::paths;
use crate::scan;
use crate::scan::ImageFormat;
use crate::text;
use vstd::hash_set::StringHashSet;
use vstd::prelude::*;

verus! {

/// Where the API lives.
pub const API: &'static str = "https://api.sirv.com";

/// How many seconds before its end a token is no longer used, so that an upload
/// started at the last minute does not die mid-flight.
pub const TOKEN_MARGIN: u64 = 60;

/// How many seconds a token lives where the answer does not say.
pub const DEFAULT_EXPIRY: u64 = 1200;

/// What the API knows the account by.
#[derive(Debug)]
pub struct Credentials {
    pub client_id: String,
    pub client_secret: String,
}

impl Clone for Credentials {
    fn clone(&self) -> (out: Self)
        ensures
            out == *self,
    {
        Credentials {
            client_id: self.client_id.clone(),
            client_secret: self.client_secret.clone(),
        }
    }
}

/// One entry as Sirv reports it from a directory listing.
#[derive(Debug)]
pub struct Node {
    pub filename: String,
    /// `"file"`, `"folder"` or `"symlink"`.
    pub kind: String,
    pub size: u64,
}

impl Clone for Node {
    fn clone(&self) -> (out: Self)
        ensures
            out == *self,
    {
        Node { filename: self.filename.clone(), kind: self.kind.clone(), size: self.size }
    }
}

impl Node {
    /// An entry as a listing gives it. What the listing leaves out is empty.
    pub fn listed(filename: Option<String>, kind: Option<String>, size: Option<u64>) -> (out: Self)
        ensures
            out.filename@ == match filename {
                Some(filename) => filename@,
                None => seq![],
            },
            out.kind@ == match kind {
                Some(kind) => kind@,
                None => seq![],
            },
            out.size == match size {
                Some(size) => size,
                None => 0,
            },
    {
        let nothing = String::new();
        assert(nothing@ =~= seq![]);
        Node {
            filename: match filename {
                Some(filename) => filename,
                None => nothing.clone(),
            },
            kind: match kind {
                Some(kind) => kind,
                None => nothing,
            },
            size: match size {
                Some(size) => size,
                None => 0,
            },
        }
    }

    /// Whether the entry is a folder.
    pub fn is_folder(&self) -> (out: bool)
        ensures
            out == (self.kind@ == "folder"@),
    {
        text::same(self.kind.as_str(), "folder")
    }
}

/// An upstream failure with its status and body kept intact. "Sirv said 403" is
/// debuggable; "request failed" is not.
#[derive(Debug)]
pub struct Error {
    pub status: u16,
    pub message: String,
}

impl Error {
    /// The failure as the window says it.
    pub fn text(&self) -> (out: String)
        ensures
            out@ == "Sirv "@ + text::decimal(self.status as nat) + ": "@ + self.message@,
    {
        let mut out = "Sirv ".to_string();
        out.append(text::decimal_of(self.status as u128).as_str());
        out.append(": ");
        out.append(self.message.as_str());
        out
    }
}

/// Letters, digits and the four marks that stand for themselves in a query.
pub open spec fn is_unreserved(byte: u8) -> bool {
    ||| 0x41 <= byte <= 0x5a
    ||| 0x61 <= byte <= 0x7a
    ||| 0x30 <= byte <= 0x39
    ||| byte == 0x2d
    ||| byte == 0x5f
    ||| byte == 0x2e
    ||| byte == 0x7e
}

/// The hexadecimal digit with value `value`, in capitals.
pub open spec fn hex_digit(value: nat) -> char {
    if value < 10 {
        text::digit(value)
    } else if value == 10 {
        'A'
    } else if value == 11 {
        'B'
    } else if value == 12 {
        'C'
    } else if value == 13 {
        'D'
    } else if value == 14 {
        'E'
    } else {
        'F'
    }
}

/// One byte as a query carries it.
pub open spec fn escaped_byte(byte: u8) -> Seq<char> {
    if is_unreserved(byte) {
        seq![byte as char]
    } else {
        seq!['%', hex_digit(byte as nat / 16), hex_digit(byte as nat % 16)]
    }
}

/// Bytes as a query carries them.
pub open spec fn escaped(bytes: Seq<u8>) -> Seq<char>
    decreases bytes.len(),
{
    if bytes.len() == 0 {
        seq![]
    } else {
        escaped(bytes.drop_last()) + escaped_byte(bytes.last())
    }
}

/// The hexadecimal digit with value `value`, in capitals.
fn hex_digit_of(value: u8) -> (out: char)
    requires
        value < 16,
    ensures
        out == hex_digit(value as nat),
{
    if value < 10 {
        text::digit_of(value as u128)
    } else if value == 10 {
        'A'
    } else if value == 11 {
        'B'
    } else if value == 12 {
        'C'
    } else if value == 13 {
        'D'
    } else if value == 14 {
        'E'
    } else {
        'F'
    }
}

/// Percent-encode a path for a query string. Everything outside the unreserved set
/// escapes, including `/` as `%2F`.
pub fn encode_path(path: &str) -> (out: String)
    ensures
        out@ == escaped(vstd::utf8::encode_utf8(path@)),
{
    let bytes = path.as_bytes();
    let ghost all = bytes@;
    let mut out = String::new();
    let mut i: usize = 0;
    assert(all.take(0) =~= seq![]);
    assert(out@ =~= escaped(all.take(0)));
    while i < bytes.len()
        invariant
            i <= bytes@.len(),
            all == bytes@,
            out@ == escaped(all.take(i as int)),
        decreases bytes@.len() - i,
    {
        let byte: u8 = bytes[i];
        let ghost before = out@;
        if (0x41 <= byte && byte <= 0x5a) || (0x61 <= byte && byte <= 0x7a) || (0x30 <= byte && byte
            <= 0x39) || byte == 0x2d || byte == 0x5f || byte == 0x2e || byte == 0x7e {
            out.push(byte as char);
        } else {
            out.push('%');
            out.push(hex_digit_of(byte / 16));
            out.push(hex_digit_of(byte % 16));
        }
        proof {
            assert(all.take(i + 1).drop_last() =~= all.take(i as int));
            assert(all.take(i + 1).last() == byte);
            assert(out@ =~= before + escaped_byte(byte));
        }
        i += 1;
    }
    assert(all.take(i as int) =~= all);
    out
}

/// How a local file stands against the paired remote folder.
#[derive(Clone, Copy, Debug, PartialEq, Eq, Structural)]
pub enum SyncState {
    /// No file with this relative path on Sirv.
    OnlyLocal,
    /// Same relative path and byte size.
    Same,
    /// Same path, different size.
    Changed,
}

/// How a local file of `local_size` bytes stands against `remote`.
pub open spec fn standing(local_size: u64, remote: Option<Node>) -> SyncState {
    match remote {
        None => SyncState::OnlyLocal,
        Some(node) => if node.size == local_size {
            SyncState::Same
        } else {
            SyncState::Changed
        },
    }
}

/// Classify one local file against the remote listing. Size is the only comparator on
/// purpose: local and server clocks disagree often enough that comparing times would
/// report lies as changes.
pub fn classify(local_size: u64, remote: Option<&Node>) -> (out: SyncState)
    ensures
        out == standing(
            local_size,
            match remote {
                Some(node) => Some(*node),
                None => None,
            },
        ),
{
    match remote {
        None => SyncState::OnlyLocal,
        Some(node) => if node.size == local_size {
            SyncState::Same
        } else {
            SyncState::Changed
        },
    }
}

/// The key a local file carries inside the paired folder: its path below `root`, one
/// slash between the names.
pub open spec fn key_below(root: Seq<char>, path: Seq<char>) -> Option<Seq<char>> {
    match paths::below(paths::components(path), paths::components(root)) {
        Some(rest) => Some(text::joined(rest, seq!['/'])),
        None => None,
    }
}

/// The key a local file carries inside the paired folder: its path below `root`,
/// forward-slashed, so `/photos/a.jpg` under `/photos` becomes `a.jpg`. `None` when
/// the file sits outside the root.
pub fn relative_key(root: &str, path: &str) -> (out: Option<String>)
    ensures
        text::text_in(out) == key_below(root@, path@),
{
    proof {
        reveal_strlit("/");
        assert("/"@ =~= seq!['/']);
    }
    match paths::strip_root(&paths::components_of(path), &paths::components_of(root)) {
        Some(rest) => Some(text::join(&rest, "/")),
        None => None,
    }
}

/// What a remote filename is called below the paired folder `dir`.
pub open spec fn unpaired(dir: Seq<char>, filename: Seq<char>) -> Option<Seq<char>> {
    let prefix = text::without_trailing(dir, '/').push('/');
    if prefix.is_prefix_of(filename) {
        Some(filename.skip(prefix.len() as int))
    } else {
        None
    }
}

/// Strip the paired folder off a remote filename so both sides of the diff speak the
/// same key language. `/photos/a.jpg` paired at `/photos` is `a.jpg`; anything
/// outside the pair is `None`.
pub fn unpair_remote(dir: &str, filename: &str) -> (out: Option<String>)
    ensures
        text::text_in(out) == unpaired(dir@, filename@),
{
    let mut prefix = text::trim_trailing(dir, '/');
    prefix.push('/');
    text::after_prefix(filename, prefix.as_str())
}

/// A remote key is safe to join onto the local root only when every path component is
/// a normal name: no `..`, no absolute remainder.
pub open spec fn is_safe(key: Seq<char>) -> bool {
    key.len() > 0 && forall|i: int|
        0 <= i < paths::components(key).len() ==> paths::is_name(
            #[trigger] paths::components(key)[i],
        )
}

/// Whether a remote key is safe to join onto the local root.
pub fn safe_key(key: &str) -> (out: bool)
    ensures
        out == is_safe(key@),
{
    if key.is_empty() {
        return false;
    }
    let parts = paths::components_of(key);
    let ghost all = paths::components(key@);
    let mut i: usize = 0;
    while i < parts.len()
        invariant
            i <= parts@.len(),
            all == text::views(parts@),
            all == paths::components(key@),
            forall|j: int| 0 <= j < i ==> paths::is_name(#[trigger] all[j]),
        decreases parts@.len() - i,
    {
        assert(all[i as int] == parts@[i as int]@);
        if !paths::name_part(parts[i].as_str()) {
            return false;
        }
        i += 1;
    }
    true
}

/// A key as local keys are spelled: one slash between the names, and no more.
pub open spec fn spelled(key: Seq<char>) -> Seq<char> {
    paths::path_text(paths::components(key))
}

/// The local folder has the file that this key stands for.
pub open spec fn is_there(local: Set<Seq<char>>, key: Seq<char>) -> bool {
    local.contains(key) || local.contains(spelled(key))
}

/// The keys to download among the first `n` remote files: below the paired folder,
/// safe to write, and not there locally.
pub open spec fn missing_keys(
    remote: Seq<Node>,
    dir: Seq<char>,
    local: Set<Seq<char>>,
    n: int,
) -> Seq<Seq<char>>
    decreases n,
{
    if n <= 0 {
        seq![]
    } else {
        let before = missing_keys(remote, dir, local, n - 1);
        match unpaired(dir, remote[n - 1].filename@) {
            Some(key) => if !is_there(local, key) && is_safe(key) {
                before.push(key)
            } else {
                before
            },
            None => before,
        }
    }
}

/// Remote keys worth downloading: what the local folder lacks, and nothing that would
/// be written outside it.
pub fn pull_plan(remote: &Vec<Node>, dir: &str, local_keys: &StringHashSet) -> (out: Vec<String>)
    ensures
        text::views(out@) == missing_keys(remote@, dir@, local_keys@, remote@.len() as int),
{
    let mut out: Vec<String> = Vec::new();
    let mut i: usize = 0;
    assert(text::views(out@) =~= seq![]);
    while i < remote.len()
        invariant
            i <= remote@.len(),
            text::views(out@) == missing_keys(remote@, dir@, local_keys@, i as int),
        decreases remote@.len() - i,
    {
        let ghost before = out@;
        match unpair_remote(dir, remote[i].filename.as_str()) {
            Some(key) => {
                let plain = paths::path_of(&paths::components_of(key.as_str()));
                if !local_keys.contains(key.as_str()) && !local_keys.contains(plain.as_str())
                    && safe_key(key.as_str()) {
                    out.push(key);
                    assert(text::views(out@) =~= text::views(before).push(key@));
                }
            },
            None => {},
        }
        i += 1;
    }
    out
}

/// The folders a key lies in, outermost first.
pub open spec fn folders_of(key: Seq<char>) -> Seq<Seq<char>> {
    let names = text::pieces(key, '/');
    Seq::new(
        (names.len() - 1) as nat,
        |i: int| text::joined(names.take(i + 1), seq!['/']),
    )
}

/// The folders a key lies in, outermost first: `sub` and `sub/deep` for
/// `sub/deep/a.jpg`.
pub fn ancestor_dirs(key: &str) -> (out: Vec<String>)
    ensures
        text::views(out@) == folders_of(key@),
{
    proof {
        reveal_strlit("/");
        assert("/"@ =~= seq!['/']);
        text::lemma_some_piece(key@, '/');
    }
    let names = text::split(key, '/');
    let ghost all = text::pieces(key@, '/');
    let mut out: Vec<String> = Vec::new();
    let mut above: Vec<String> = Vec::new();
    let mut i: usize = 0;
    assert(text::views(above@) =~= all.take(0));
    while i < names.len() - 1
        invariant
            names@.len() >= 1,
            i <= names@.len() - 1,
            all == text::views(names@),
            "/"@ == seq!['/'],
            text::views(above@) == all.take(i as int),
            out@.len() == i,
            forall|j: int|
                0 <= j < i ==> (#[trigger] out@[j])@ == text::joined(all.take(j + 1), seq!['/']),
        decreases names@.len() - i,
    {
        let ghost before = above@;
        above.push(names[i].clone());
        assert(text::views(above@) =~= text::views(before).push(names@[i as int]@));
        assert(text::views(above@) =~= all.take(i + 1));
        out.push(text::join(&above, "/"));
        i += 1;
    }
    assert(text::views(out@) =~= folders_of(key@));
    out
}

/// Whether `list` holds `value`.
fn lists(list: &Vec<String>, value: &str) -> (out: bool)
    ensures
        out == text::views(list@).contains(value@),
{
    let mut i: usize = 0;
    while i < list.len()
        invariant
            i <= list@.len(),
            forall|j: int| 0 <= j < i ==> (#[trigger] text::views(list@)[j]) != value@,
        decreases list@.len() - i,
    {
        assert(text::views(list@)[i as int] == list@[i as int]@);
        if text::same(list[i].as_str(), value) {
            return true;
        }
        i += 1;
    }
    false
}

/// `seen`, then each of the first `n` of `more` that is new when its turn comes.
pub open spec fn with_new(seen: Seq<Seq<char>>, more: Seq<Seq<char>>, n: int) -> Seq<Seq<char>>
    decreases n,
{
    if n <= 0 {
        seen
    } else {
        let before = with_new(seen, more, n - 1);
        if before.contains(more[n - 1]) {
            before
        } else {
            before.push(more[n - 1])
        }
    }
}

/// The folders the first `n` keys lie in, each once, in the order they come up.
pub open spec fn all_folders(keys: Seq<String>, n: int) -> Seq<Seq<char>>
    decreases n,
{
    if n <= 0 {
        seq![]
    } else {
        let more = folders_of(keys[n - 1]@);
        with_new(all_folders(keys, n - 1), more, more.len() as int)
    }
}

/// The remote folders a push needs, each once, outer folders before inner ones.
pub fn push_folders(keys: &Vec<String>) -> (out: Vec<String>)
    ensures
        text::views(out@) == all_folders(keys@, keys@.len() as int),
{
    let mut out: Vec<String> = Vec::new();
    let mut i: usize = 0;
    assert(text::views(out@) =~= seq![]);
    while i < keys.len()
        invariant
            i <= keys@.len(),
            text::views(out@) == all_folders(keys@, i as int),
        decreases keys@.len() - i,
    {
        let more = ancestor_dirs(keys[i].as_str());
        let ghost (seen, new) = (text::views(out@), text::views(more@));
        let mut j: usize = 0;
        while j < more.len()
            invariant
                j <= more@.len(),
                new == text::views(more@),
                text::views(out@) == with_new(seen, new, j as int),
            decreases more@.len() - j,
        {
            assert(new[j as int] == more@[j as int]@);
            let ghost before = out@;
            if !lists(&out, more[j].as_str()) {
                out.push(more[j].clone());
                assert(text::views(out@) =~= text::views(before).push(new[j as int]));
            }
            j += 1;
        }
        i += 1;
    }
    out
}

// ── Requests ────────────────────────────────────────────────────────────────

/// A token the server issued.
#[derive(Debug)]
pub struct Token {
    pub value: String,
    /// When it came, in milliseconds on a clock that never goes back.
    pub fetched_at: u64,
    /// How many seconds it lives.
    pub lifetime: u64,
}

/// A token of this age may still be used.
pub open spec fn is_fresh(now: u64, fetched_at: u64, lifetime: u64) -> bool {
    let age = if now >= fetched_at {
        now - fetched_at
    } else {
        0
    };
    lifetime >= TOKEN_MARGIN && age < (lifetime - TOKEN_MARGIN) * 1000
}

/// Whether a token fetched at `fetched_at` that lives for `lifetime` seconds may still
/// be used, keeping `TOKEN_MARGIN` of headroom.
pub fn token_fresh(now: u64, fetched_at: u64, lifetime: u64) -> (out: bool)
    ensures
        out == is_fresh(now, fetched_at, lifetime),
{
    let age: u128 = if now >= fetched_at {
        (now - fetched_at) as u128
    } else {
        0
    };
    lifetime >= TOKEN_MARGIN && age < (lifetime - TOKEN_MARGIN) as u128 * 1000
}

/// An answer the server refused to give, with what it said instead.
pub fn status_error(stage: &str, status: u16, body: &str) -> (out: Error)
    ensures
        out.status == status,
        out.message@ == stage@ + ": "@ + body@,
{
    let mut message = stage.to_string();
    message.append(": ");
    message.append(body);
    Error { status, message }
}

/// A request that never got an answer, or one whose answer could not be read.
pub fn transport_error(stage: &str, reason: &str) -> (out: Error)
    ensures
        out.status == 0,
        out.message@ == stage@ + ": "@ + reason@,
{
    let mut message = stage.to_string();
    message.append(": ");
    message.append(reason);
    Error { status: 0, message }
}

/// How a request came to nothing.
#[derive(Debug)]
pub enum Failure {
    /// The server refused, and said this instead.
    Status(u16, String),
    /// There was no answer, and why.
    Transport(String),
    /// The answer could not be read, and why.
    Body(String),
}

/// What a failure of a token request is reported as.
pub fn token_failed(failure: Failure) -> (out: Error)
    ensures
        match failure {
            Failure::Status(status, body) => {
                &&& out.status == status
                &&& out.message@ == "token request"@ + ": "@ + body@
            },
            Failure::Transport(reason) => {
                &&& out.status == 0
                &&& out.message@ == "token request"@ + ": "@ + reason@
            },
            Failure::Body(reason) => {
                &&& out.status == 0
                &&& out.message@ == "token body"@ + ": "@ + reason@
            },
        },
{
    match failure {
        Failure::Status(status, body) => status_error("token request", status, body.as_str()),
        Failure::Transport(reason) => transport_error("token request", reason.as_str()),
        Failure::Body(reason) => transport_error("token body", reason.as_str()),
    }
}

/// What a failure to list a folder is reported as.
pub fn readdir_failed(failure: Failure) -> (out: Error)
    ensures
        match failure {
            Failure::Status(status, body) => {
                &&& out.status == status
                &&& out.message@ == "readdir"@ + ": "@ + body@
            },
            Failure::Transport(reason) => {
                &&& out.status == 0
                &&& out.message@ == "readdir"@ + ": "@ + reason@
            },
            Failure::Body(reason) => {
                &&& out.status == 0
                &&& out.message@ == "readdir body"@ + ": "@ + reason@
            },
        },
{
    match failure {
        Failure::Status(status, body) => status_error("readdir", status, body.as_str()),
        Failure::Transport(reason) => transport_error("readdir", reason.as_str()),
        Failure::Body(reason) => transport_error("readdir body", reason.as_str()),
    }
}

/// What to do next to read a folder.
#[derive(Debug)]
pub enum Step {
    /// Ask for a token.
    Authenticate,
    /// Ask for the listing at `url`, showing `authorization`.
    List { url: String, authorization: String },
    /// The folder is read, or will not be.
    Done(Result<Vec<Node>, Error>),
}

/// A folder being read.
#[derive(Debug)]
pub struct Reading {
    pub url: String,
    /// A refused token was given up once already.
    pub retried: bool,
}

/// The account, and the token it has.
#[derive(Debug)]
pub struct Client {
    pub credentials: Credentials,
    pub token: Option<Token>,
}

/// What `service` of the API is asked under about `path`.
pub open spec fn asked_under(service: Seq<char>, path: Seq<char>) -> Seq<char> {
    API@ + service + escaped(vstd::utf8::encode_utf8(path))
}

/// What a listing of `dirname` is asked for under.
pub open spec fn readdir_url(dirname: Seq<char>) -> Seq<char> {
    asked_under("/v2/files/readdir?dirname="@, dirname)
}

fn ask_under(service: &str, path: &str) -> (out: String)
    ensures
        out@ == asked_under(service@, path@),
{
    let mut url = API.to_string();
    url.append(service);
    url.append(encode_path(path).as_str());
    url
}

/// What a token is asked for under.
pub fn token_url() -> (out: String)
    ensures
        out@ == API@ + "/v2/token"@,
{
    text::glued(API, "/v2/token")
}

/// What a folder is created under.
pub fn mkdir_url(dirname: &str) -> (out: String)
    ensures
        out@ == asked_under("/v2/files/mkdir?dirname="@, dirname@),
{
    ask_under("/v2/files/mkdir?dirname=", dirname)
}

/// What a file is sent under.
pub fn upload_url(filename: &str) -> (out: String)
    ensures
        out@ == asked_under("/v2/files/upload?filename="@, filename@),
{
    ask_under("/v2/files/upload?filename=", filename)
}

/// What a file is fetched under.
pub fn download_url(filename: &str) -> (out: String)
    ensures
        out@ == asked_under("/v2/files/download?filename="@, filename@),
{
    ask_under("/v2/files/download?filename=", filename)
}

/// What a file of this format is sent as.
pub open spec fn media_type(format: Option<ImageFormat>) -> Seq<char> {
    match format {
        Some(ImageFormat::Avif) => "image/avif"@,
        Some(ImageFormat::Jpeg) => "image/jpeg"@,
        Some(ImageFormat::Png) => "image/png"@,
        Some(ImageFormat::Gif) => "image/gif"@,
        Some(ImageFormat::WebP) => "image/webp"@,
        Some(ImageFormat::Tiff) => "image/tiff"@,
        Some(ImageFormat::Bmp) => "image/bmp"@,
        Some(ImageFormat::Ico) => "image/x-icon"@,
        _ => "application/octet-stream"@,
    }
}

/// What the file with this key is sent as, by its extension: the type of an image where
/// it stands for one that browsers know.
pub fn content_type(key: &str) -> (out: &'static str)
    ensures
        out@ == media_type(scan::claimed_format(key@)),
{
    match scan::claimed(key) {
        Some(ImageFormat::Avif) => "image/avif",
        Some(ImageFormat::Jpeg) => "image/jpeg",
        Some(ImageFormat::Png) => "image/png",
        Some(ImageFormat::Gif) => "image/gif",
        Some(ImageFormat::WebP) => "image/webp",
        Some(ImageFormat::Tiff) => "image/tiff",
        Some(ImageFormat::Bmp) => "image/bmp",
        Some(ImageFormat::Ico) => "image/x-icon",
        _ => "application/octet-stream",
    }
}

/// The step that asks for the listing with this token.
pub open spec fn asks_with(step: Step, url: Seq<char>, token: Seq<char>) -> bool {
    &&& step matches Step::List { url: asked, authorization }
    &&& asked@ == url
    &&& authorization@ == "Bearer "@ + token
}

impl Client {
    /// A client that has no token yet.
    pub fn new(credentials: Credentials) -> (out: Self)
        ensures
            out.credentials == credentials,
            out.token is None,
    {
        Client { credentials, token: None }
    }

    /// The client has a token that may still be used.
    pub open spec fn is_ready(self, now: u64) -> bool {
        self.token matches Some(token) && is_fresh(now, token.fetched_at, token.lifetime)
    }

    /// What a request shows to be let in, where there is a token that may still be used.
    pub fn authorization(&self, now: u64) -> (out: Option<String>)
        ensures
            out is Some == self.is_ready(now),
            out matches Some(shown) ==> shown@ == "Bearer "@ + self.token->0.value@,
    {
        match &self.token {
            Some(token) => if token_fresh(now, token.fetched_at, token.lifetime) {
                Some(text::glued("Bearer ", token.value.as_str()))
            } else {
                None
            },
            None => None,
        }
    }

    /// Keep a token that was just issued. What a request shows of it comes back.
    pub fn keep_token(&mut self, value: String, lifetime: u64, now: u64) -> (out: String)
        ensures
            *final(self) == (Client {
                token: Some(Token { value, fetched_at: now, lifetime }),
                ..*old(self)
            }),
            out@ == "Bearer "@ + value@,
    {
        let shown = text::glued("Bearer ", value.as_str());
        self.token = Some(Token { value, fetched_at: now, lifetime });
        shown
    }

    /// Start reading a folder: with the token there is, or by asking for one.
    pub fn readdir(&self, dirname: &str, now: u64) -> (out: (Reading, Step))
        ensures
            out.0.url@ == readdir_url(dirname@),
            !out.0.retried,
            self.is_ready(now) ==> asks_with(out.1, out.0.url@, self.token->0.value@),
            !self.is_ready(now) ==> out.1 is Authenticate,
    {
        let url = ask_under("/v2/files/readdir?dirname=", dirname);
        let step = match self.authorization(now) {
            Some(authorization) => Step::List { url: url.clone(), authorization },
            None => Step::Authenticate,
        };
        (Reading { url, retried: false }, step)
    }

    /// A refusal of the token is routine where one expired between check and use:
    /// forget it and start over, once. Everything else ends the reading.
    fn failed(&mut self, reading: &mut Reading, error: Error) -> (out: Step)
        ensures
            final(self).credentials == old(self).credentials,
            final(reading).url == old(reading).url,
            error.status == 401 && !old(reading).retried ==> {
                &&& out is Authenticate
                &&& final(self).token is None
                &&& final(reading).retried
            },
            !(error.status == 401 && !old(reading).retried) ==> {
                &&& out == Step::Done(Err(error))
                &&& *final(self) == *old(self)
                &&& *final(reading) == *old(reading)
            },
    {
        if error.status == 401 && !reading.retried {
            self.token = None;
            reading.retried = true;
            Step::Authenticate
        } else {
            Step::Done(Err(error))
        }
    }

    /// The answer to a request for a token: the token and how many seconds it lives.
    pub fn authenticated(
        &mut self,
        reading: &mut Reading,
        answer: Result<(String, u64), Error>,
        now: u64,
    ) -> (out: Step)
        ensures
            final(self).credentials == old(self).credentials,
            final(reading).url == old(reading).url,
            match answer {
                Ok((value, lifetime)) => {
                    &&& final(self).token matches Some(token)
                    &&& token.value@ == value@
                    &&& token.fetched_at == now
                    &&& token.lifetime == lifetime
                    &&& *final(reading) == *old(reading)
                    &&& asks_with(out, old(reading).url@, value@)
                },
                Err(error) => if error.status == 401 && !old(reading).retried {
                    &&& out is Authenticate
                    &&& final(self).token is None
                    &&& final(reading).retried
                } else {
                    &&& out == Step::Done(Err(error))
                    &&& *final(self) == *old(self)
                    &&& *final(reading) == *old(reading)
                },
            },
    {
        match answer {
            Ok((value, lifetime)) => {
                let authorization = self.keep_token(value, lifetime, now);
                Step::List { url: reading.url.clone(), authorization }
            },
            Err(error) => self.failed(reading, error),
        }
    }

    /// The answer to a request for a listing.
    pub fn listed(
        &mut self,
        reading: &mut Reading,
        answer: Result<Vec<Node>, Error>,
    ) -> (out: Step)
        ensures
            final(self).credentials == old(self).credentials,
            final(reading).url == old(reading).url,
            match answer {
                Ok(nodes) => {
                    &&& out == Step::Done(Ok(nodes))
                    &&& *final(self) == *old(self)
                    &&& *final(reading) == *old(reading)
                },
                Err(error) => if error.status == 401 && !old(reading).retried {
                    &&& out is Authenticate
                    &&& final(self).token is None
                    &&& final(reading).retried
                } else {
                    &&& out == Step::Done(Err(error))
                    &&& *final(self) == *old(self)
                    &&& *final(reading) == *old(reading)
                },
            },
    {
        match answer {
            Ok(nodes) => Step::Done(Ok(nodes)),
            Err(error) => self.failed(reading, error),
        }
    }
}

/// The names of the folders among the first `n` entries of a listing.
pub open spec fn folders_listed(nodes: Seq<Node>, n: int) -> Seq<Seq<char>>
    decreases n,
{
    if n <= 0 {
        seq![]
    } else if nodes[n - 1].kind@ == "folder"@ {
        folders_listed(nodes, n - 1).push(nodes[n - 1].filename@)
    } else {
        folders_listed(nodes, n - 1)
    }
}

/// Everything but the folders among the first `n` entries of a listing.
pub open spec fn files_listed(nodes: Seq<Node>, n: int) -> Seq<Node>
    decreases n,
{
    if n <= 0 {
        seq![]
    } else if nodes[n - 1].kind@ == "folder"@ {
        files_listed(nodes, n - 1)
    } else {
        files_listed(nodes, n - 1).push(nodes[n - 1])
    }
}

/// A folder being listed end to end: what it holds as far as that is known, and the
/// folders below it that are still to be listed.
#[derive(Debug)]
pub struct Walk {
    pub waiting: Vec<String>,
    pub files: Vec<Node>,
}

impl Walk {
    /// A walk that begins at `dirname`.
    pub fn new(dirname: &str) -> (out: Self)
        ensures
            text::views(out.waiting@) == seq![dirname@],
            out.files@.len() == 0,
    {
        let mut waiting: Vec<String> = Vec::new();
        waiting.push(dirname.to_string());
        assert(text::views(waiting@) =~= seq![dirname@]);
        Walk { waiting, files: Vec::new() }
    }

    /// The folder to list next. There is none once the walk is over.
    pub fn next(&mut self) -> (out: Option<String>)
        ensures
            final(self).files == old(self).files,
            out is Some == (old(self).waiting@.len() > 0),
            out matches Some(folder) ==> {
                &&& folder == old(self).waiting@.last()
                &&& final(self).waiting@ == old(self).waiting@.drop_last()
            },
            out is None ==> final(self).waiting@ == old(self).waiting@,
    {
        self.waiting.pop()
    }

    /// The listing of a folder has come in: its folders wait, its files are there.
    pub fn listed(&mut self, nodes: Vec<Node>)
        ensures
            text::views(final(self).waiting@) == text::views(old(self).waiting@) + folders_listed(
                nodes@,
                nodes@.len() as int,
            ),
            final(self).files@ == old(self).files@ + files_listed(nodes@, nodes@.len() as int),
    {
        let ghost first = *self;
        let mut i: usize = 0;
        assert(text::views(self.waiting@) =~= text::views(first.waiting@) + folders_listed(
            nodes@,
            0,
        ));
        assert(self.files@ =~= first.files@ + files_listed(nodes@, 0));
        while i < nodes.len()
            invariant
                i <= nodes@.len(),
                text::views(self.waiting@) == text::views(first.waiting@) + folders_listed(
                    nodes@,
                    i as int,
                ),
                self.files@ == first.files@ + files_listed(nodes@, i as int),
            decreases nodes@.len() - i,
        {
            if nodes[i].is_folder() {
                let ghost before = self.waiting@;
                self.waiting.push(nodes[i].filename.clone());
                assert(text::views(self.waiting@) =~= text::views(before).push(
                    nodes@[i as int].filename@,
                ));
            } else {
                self.files.push(nodes[i].clone());
            }
            i += 1;
            assert(text::views(self.waiting@) =~= text::views(first.waiting@) + folders_listed(
                nodes@,
                i as int,
            ));
            assert(self.files@ =~= first.files@ + files_listed(nodes@, i as int));
        }
    }
}

// ── Credential store ────────────────────────────────────────────────────────

/// The kind of system the program runs on.
#[derive(Clone, Copy, Debug, PartialEq, Eq, Structural)]
pub enum Platform {
    Windows,
    MacOs,
    Other,
}

/// The environment variables that say where configuration lives.
#[derive(Debug)]
pub struct Environment {
    pub appdata: Option<String>,
    pub home: Option<String>,
    pub xdg_config_home: Option<String>,
}

/// The components of the folder configuration lives in.
pub open spec fn config_parts(platform: Platform, environment: Environment) -> Option<
    Seq<Seq<char>>,
> {
    match platform {
        Platform::Windows => match environment.appdata {
            Some(base) => Some(paths::components(base@)),
            None => None,
        },
        Platform::MacOs => match environment.home {
            Some(home) => Some(
                paths::placed(
                    paths::components(home@),
                    paths::components("Library/Application Support"@),
                ),
            ),
            None => None,
        },
        Platform::Other => match environment.xdg_config_home {
            Some(base) => Some(paths::components(base@)),
            None => match environment.home {
                Some(home) => Some(
                    paths::placed(paths::components(home@), paths::components(".config"@)),
                ),
                None => None,
            },
        },
    }
}

/// The components of the folder configuration lives in.
pub(crate) fn config_parts_of(platform: Platform, environment: &Environment) -> (out: Option<
    Vec<String>,
>)
    ensures
        config_parts(platform, *environment) == match out {
            Some(parts) => Some(text::views(parts@)),
            None => None,
        },
{
    match platform {
        Platform::Windows => match &environment.appdata {
            Some(base) => Some(paths::components_of(base.as_str())),
            None => None,
        },
        Platform::MacOs => match &environment.home {
            Some(home) => Some(
                paths::place(
                    &paths::components_of(home.as_str()),
                    &paths::components_of("Library/Application Support"),
                ),
            ),
            None => None,
        },
        Platform::Other => match &environment.xdg_config_home {
            Some(base) => Some(paths::components_of(base.as_str())),
            None => match &environment.home {
                Some(home) => Some(
                    paths::place(
                        &paths::components_of(home.as_str()),
                        &paths::components_of(".config"),
                    ),
                ),
                None => None,
            },
        },
    }
}

/// The text of a file's path below the program's own folder in `base`.
pub open spec fn stored_at(base: Seq<Seq<char>>, name: Seq<char>) -> Seq<char> {
    paths::path_text(base.push("imageguide"@).push(name))
}

/// The path of a file of the program's own in `base`.
pub(crate) fn stored_at_of(base: Vec<String>, name: &str) -> (out: String)
    ensures
        out@ == stored_at(text::views(base@), name@),
{
    let mut parts = base;
    let ghost first = parts@;
    parts.push("imageguide".to_string());
    let ghost second = parts@;
    assert(text::views(second) =~= text::views(first).push("imageguide"@));
    parts.push(name.to_string());
    assert(text::views(parts@) =~= text::views(second).push(name@));
    paths::path_of(&parts)
}

/// Where the credentials live below `base`.
pub fn store_path_in(base: &str) -> (out: String)
    ensures
        out@ == stored_at(paths::components(base@), "sirv"@),
{
    stored_at_of(paths::components_of(base), "sirv")
}

/// The file a user edits to add credentials, named in errors. `None` when the
/// environment gives nothing usable.
pub fn credentials_path(platform: Platform, environment: &Environment) -> (out: Option<String>)
    ensures
        text::text_in(out) == match config_parts(platform, *environment) {
            Some(parts) => Some(stored_at(parts, "sirv"@)),
            None => None,
        },
{
    match config_parts_of(platform, environment) {
        Some(parts) => Some(stored_at_of(parts, "sirv")),
        None => None,
    }
}

/// What a stored text says of the credentials: both fields, or nothing.
pub open spec fn stored_credentials(stored: Seq<char>) -> Option<(Seq<char>, Seq<char>)> {
    match (
        text::value_in(stored, "client_id"@),
        text::value_in(stored, "client_secret"@),
    ) {
        (Some(client_id), Some(client_secret)) => Some((client_id, client_secret)),
        _ => None,
    }
}

/// The two fields behind optional credentials.
pub open spec fn credentials_view(credentials: Option<Credentials>) -> Option<
    (Seq<char>, Seq<char>),
> {
    match credentials {
        Some(credentials) => Some((credentials.client_id@, credentials.client_secret@)),
        None => None,
    }
}

/// The credentials a stored text holds.
pub fn parse_credentials(stored: &str) -> (out: Option<Credentials>)
    ensures
        credentials_view(out) == stored_credentials(stored@),
{
    match text::find_value(stored, "client_id") {
        Some(client_id) => match text::find_value(stored, "client_secret") {
            Some(client_secret) => Some(Credentials { client_id, client_secret }),
            None => None,
        },
        None => None,
    }
}

/// The credentials in the store, given what the store holds, if it could be read.
pub fn load_credentials(stored: Option<&str>) -> (out: Option<Credentials>)
    ensures
        credentials_view(out) == match stored {
            Some(stored) => stored_credentials(stored@),
            None => None,
        },
{
    match stored {
        Some(stored) => parse_credentials(stored),
        None => None,
    }
}

/// The text credentials are stored as.
pub open spec fn credentials_text(client_id: Seq<char>, client_secret: Seq<char>) -> Seq<char> {
    "client_id="@ + client_id + "\n"@ + "client_secret="@ + client_secret + "\n"@
}

/// The text to store credentials as.
pub fn render_credentials(credentials: &Credentials) -> (out: String)
    ensures
        out@ == credentials_text(credentials.client_id@, credentials.client_secret@),
{
    let mut out = "client_id=".to_string();
    out.append(credentials.client_id.as_str());
    out.append("\n");
    out.append("client_secret=");
    out.append(credentials.client_secret.as_str());
    out.append("\n");
    out
}

// ── What holds throughout ───────────────────────────────────────────────────

/// Stored credentials read back the same, as long as neither field spans lines or
/// begins or ends with white space.
pub proof fn law_stored_credentials_read_back(client_id: Seq<char>, client_secret: Seq<char>)
    requires
        !client_id.contains('\n'),
        !client_secret.contains('\n'),
        text::trimmed(client_id) == client_id,
        text::trimmed(client_secret) == client_secret,
    ensures
        stored_credentials(credentials_text(client_id, client_secret)) == Some(
            (client_id, client_secret),
        ),
{
    reveal_strlit("client_id");
    reveal_strlit("client_secret");
    reveal_strlit("client_id=");
    reveal_strlit("client_secret=");
    reveal_strlit("\n");
    let (id_key, secret_key) = ("client_id"@, "client_secret"@);
    let id_line = id_key.push('=') + client_id;
    let secret_line = secret_key.push('=') + client_secret;
    assert("client_id="@ =~= id_key.push('='));
    assert("client_secret="@ =~= secret_key.push('='));
    let nothing = Seq::<char>::empty();
    let stored = credentials_text(client_id, client_secret);
    assert(stored =~= id_line.push('\n') + (secret_line.push('\n') + nothing));
    text::lemma_pieces_join(id_line, '\n', secret_line.push('\n') + nothing);
    text::lemma_pieces_join(secret_line, '\n', nothing);
    assert(!id_line.contains('\n')) by {
        if id_line.contains('\n') {
            let i = choose|i: int| 0 <= i < id_line.len() && id_line[i] == '\n';
            if i > id_key.len() {
                assert(client_id[i - id_key.len() - 1] == '\n');
            }
        }
    }
    assert(!secret_line.contains('\n')) by {
        if secret_line.contains('\n') {
            let i = choose|i: int| 0 <= i < secret_line.len() && secret_line[i] == '\n';
            if i > secret_key.len() {
                assert(client_secret[i - secret_key.len() - 1] == '\n');
            }
        }
    }
    text::lemma_one_piece(id_line, '\n');
    text::lemma_one_piece(secret_line, '\n');
    text::lemma_one_piece(nothing, '\n');
    let lines = text::pieces(stored, '\n');
    assert(lines =~= seq![id_line, secret_line, nothing]);
    assert(!id_key.contains('=') && !secret_key.contains('='));
    assert(text::trimmed(id_key) == id_key && text::trimmed(secret_key) == secret_key);
    text::lemma_line_value(id_key, client_id);
    text::lemma_line_value(secret_key, client_secret);
    assert(id_key.len() != secret_key.len());
    text::lemma_other_line(secret_key, client_secret, id_key);
    nothing.index_of_first_ensures('=');
    assert(text::line_value(nothing, id_key) is None);
    assert(text::line_value(nothing, secret_key) is None);
    reveal_with_fuel(text::last_value, 4);
    assert(lines[0] == id_line && lines[1] == secret_line && lines[2] == nothing);
    assert(text::value_in(stored, id_key) == Some(client_id));
    assert(text::value_in(stored, secret_key) == Some(client_secret));
}

/// What stands below the paired folder is called the same there as here.
pub proof fn law_remote_names_lose_just_the_folder(dir: Seq<char>, key: Seq<char>)
    ensures
        unpaired(dir, text::without_trailing(dir, '/').push('/') + key) == Some(key),
{
    let prefix = text::without_trailing(dir, '/').push('/');
    assert((prefix + key).subrange(0, prefix.len() as int) =~= prefix);
    assert((prefix + key).skip(prefix.len() as int) =~= key);
}

/// A file below the root carries the names below it as its key.
pub proof fn law_local_names_lose_just_the_root(root: Seq<char>, names: Seq<Seq<char>>)
    requires
        paths::is_spelled(paths::components(root) + names),
    ensures
        key_below(root, paths::path_text(paths::components(root) + names)) == Some(
            text::joined(names, seq!['/']),
        ),
{
    let base = paths::components(root);
    paths::law_written_path_reads_back(base + names);
    assert((base + names).subrange(0, base.len() as int) =~= base);
    assert((base + names).skip(base.len() as int) =~= names);
}

/// A pull writes no file the local folder has, and none outside it.
pub proof fn law_a_pull_only_adds(
    remote: Seq<Node>,
    dir: Seq<char>,
    local: Set<Seq<char>>,
    n: int,
    i: int,
)
    requires
        0 <= n <= remote.len(),
        0 <= i < missing_keys(remote, dir, local, n).len(),
    ensures
        !is_there(local, missing_keys(remote, dir, local, n)[i]),
        is_safe(missing_keys(remote, dir, local, n)[i]),
    decreases n,
{
    if n > 0 && i < missing_keys(remote, dir, local, n - 1).len() {
        law_a_pull_only_adds(remote, dir, local, n - 1, i);
    }
}

/// A token in use has more than a minute to live.
pub proof fn law_tokens_are_refreshed_a_minute_early(now: u64, fetched_at: u64, lifetime: u64)
    requires
        fetched_at <= now,
        is_fresh(now, fetched_at, lifetime),
    ensures
        now + 60_000 < fetched_at + lifetime * 1000,
{
}

/// The characters an escaped path is made of: the unreserved ones and `%`.
pub open spec fn is_query_char(c: char) -> bool {
    ||| 'A' <= c && c <= 'Z'
    ||| 'a' <= c && c <= 'z'
    ||| '0' <= c && c <= '9'
    ||| c == '-'
    ||| c == '_'
    ||| c == '.'
    ||| c == '~'
    ||| c == '%'
}

/// An escaped path holds nothing a query string gives a meaning of its own.
pub proof fn law_escaped_paths_are_plain(bytes: Seq<u8>, i: int)
    requires
        0 <= i < escaped(bytes).len(),
    ensures
        is_query_char(escaped(bytes)[i]),
    decreases bytes.len(),
{
    if bytes.len() > 0 {
        let front = escaped(bytes.drop_last());
        if i < front.len() {
            law_escaped_paths_are_plain(bytes.drop_last(), i);
        } else {
            let byte = bytes.last();
            assert(escaped(bytes)[i] == escaped_byte(byte)[i - front.len()]);
        }
    }
}

/// A `%` in an escaped path always has two digits behind it.
proof fn lemma_percent_has_digits(bytes: Seq<u8>, i: int)
    requires
        0 <= i < escaped(bytes).len(),
        escaped(bytes)[i] == '%',
    ensures
        i + 3 <= escaped(bytes).len(),
    decreases bytes.len(),
{
    if bytes.len() > 0 {
        let front = escaped(bytes.drop_last());
        if i < front.len() {
            lemma_percent_has_digits(bytes.drop_last(), i);
        } else {
            let byte = bytes.last();
            assert(escaped(bytes)[i] == escaped_byte(byte)[i - front.len()]);
        }
    }
}

/// Whether an escaped path ends in an escape shows in its third last character.
proof fn lemma_last_escape_shows(bytes: Seq<u8>)
    requires
        bytes.len() > 0,
    ensures
        ({
            let whole = escaped(bytes);
            &&& whole.len() >= 1
            &&& !is_unreserved(bytes.last()) <==> whole.len() >= 3 && whole[whole.len() - 3] == '%'
        }),
{
    let whole = escaped(bytes);
    let front = escaped(bytes.drop_last());
    let byte = bytes.last();
    if is_unreserved(byte) {
        if whole.len() >= 3 && whole[whole.len() - 3] == '%' {
            assert(front[whole.len() - 3] == '%');
            lemma_percent_has_digits(bytes.drop_last(), whole.len() - 3);
        }
    } else {
        assert(whole[whole.len() - 3] == escaped_byte(byte)[0]);
    }
}

proof fn lemma_escaping_bytes_is_reversible(a: Seq<u8>, b: Seq<u8>)
    requires
        escaped(a) == escaped(b),
    ensures
        a == b,
    decreases a.len(),
{
    if a.len() == 0 {
        if b.len() > 0 {
            lemma_last_escape_shows(b);
        }
        assert(a =~= b);
    } else {
        lemma_last_escape_shows(a);
        if b.len() == 0 {
            assert(escaped(b).len() == 0);
        } else {
            lemma_last_escape_shows(b);
            let whole = escaped(a);
            let (x, y) = (a.last(), b.last());
            let (f, g) = (escaped(a.drop_last()), escaped(b.drop_last()));
            assert(whole =~= f + escaped_byte(x));
            assert(whole =~= g + escaped_byte(y));
            assert(escaped_byte(x).len() == escaped_byte(y).len());
            assert(f =~= whole.take(f.len() as int));
            assert(g =~= whole.take(g.len() as int));
            let k = f.len() as int;
            if is_unreserved(x) {
                assert(whole[k] == x as char && whole[k] == y as char);
            } else {
                assert(whole[k + 1] == escaped_byte(x)[1] && whole[k + 1] == escaped_byte(y)[1]);
                assert(whole[k + 2] == escaped_byte(x)[2] && whole[k + 2] == escaped_byte(y)[2]);
                assert(x as nat / 16 == y as nat / 16);
                assert(x as nat % 16 == y as nat % 16);
            }
            assert(x == y);
            lemma_escaping_bytes_is_reversible(a.drop_last(), b.drop_last());
            assert(a =~= a.drop_last().push(x));
            assert(b =~= b.drop_last().push(y));
        }
    }
}

/// Different paths escape differently.
pub proof fn law_escaping_is_reversible(a: Seq<char>, b: Seq<char>)
    requires
        escaped(vstd::utf8::encode_utf8(a)) == escaped(vstd::utf8::encode_utf8(b)),
    ensures
        a == b,
{
    lemma_escaping_bytes_is_reversible(
        vstd::utf8::encode_utf8(a),
        vstd::utf8::encode_utf8(b),
    );
    vstd::utf8::encode_utf8_decode_utf8(a);
    vstd::utf8::encode_utf8_decode_utf8(b);
}

/// Names that can stand in a key: each with something in it, without a slash, and neither
/// `.` nor `..`.
pub open spec fn are_plain_names(names: Seq<Seq<char>>) -> bool {
    names.len() > 0 && forall|i: int|
        0 <= i < names.len() ==> {
            &&& (#[trigger] names[i]).len() > 0
            &&& !names[i].contains('/')
            &&& names[i] != seq!['.']
            &&& names[i] != seq!['.', '.']
        }
}

/// Plain names, however many, make a safe key, which is read back as those names, and is
/// spelled as it is.
pub proof fn law_plain_names_make_safe_keys(names: Seq<Seq<char>>)
    requires
        are_plain_names(names),
    ensures
        is_safe(text::joined(names, seq!['/'])),
        paths::components(text::joined(names, seq!['/'])) == names,
        spelled(text::joined(names, seq!['/'])) == text::joined(names, seq!['/']),
        text::joined(names, seq!['/']).len() > 0,
{
    let key = text::joined(names, seq!['/']);
    assert(seq!['/'].contains('/')) by {
        assert(seq!['/'][0] == '/');
    }
    assert(names[0] != seq!['/']) by {
        assert(!names[0].contains('/'));
    }
    assert(paths::is_spelled(names)) by {
        assert forall|i: int| 0 <= i < names.len() implies {
            &&& (#[trigger] names[i]).len() > 0
            &&& !names[i].contains('/')
            &&& names[i] == seq!['.'] ==> i == 0
        } by {
        }
    }
    assert(paths::path_text(names) == key);
    paths::law_written_path_reads_back(names);
    assert forall|i: int| 0 <= i < names.len() implies paths::is_name(#[trigger] names[i]) by {
        assert(!names[i].contains('/'));
    }
    if key.len() == 0 {
        assert(key =~= seq![]);
        assert(text::pieces(key, '/') =~= seq![key]);
        assert(paths::counted(seq![key], 0) =~= seq![]);
        assert(!paths::counts(seq![key][0], 0));
        assert(paths::counted(seq![key], 1) =~= seq![]);
        assert(paths::components(key) =~= seq![]);
    }
}

/// A key that leads out of the folder, or is none, is not safe: one with `..` among its
/// names, one that starts at the root, and the empty one.
pub proof fn law_keys_that_lead_out_are_not_safe(key: Seq<char>, i: int)
    requires
        key.len() == 0 || key[0] == '/' || (0 <= i < paths::components(key).len()
            && paths::components(key)[i] == seq!['.', '.']),
    ensures
        !is_safe(key),
{
    if key.len() > 0 && key[0] == '/' {
        assert(paths::components(key)[0] == seq!['/']);
        assert(!paths::is_name(paths::components(key)[0]));
    } else if key.len() > 0 {
        assert(!paths::is_name(paths::components(key)[i]));
    }
}

/// A file of the paired folder is known by what its name says below it, whether the folder
/// is written with a slash behind it or not; one that lies elsewhere is not known.
pub proof fn law_remote_files_are_known_by_their_names(dir: Seq<char>, key: Seq<char>)
    requires
        dir.len() == 0 || dir.last() != '/',
    ensures
        unpaired(dir, dir + seq!['/'] + key) == Some(key),
        unpaired(dir.push('/'), dir + seq!['/'] + key) == Some(key),
        unpaired(dir, key) is Some ==> key == dir + seq!['/'] + unpaired(dir, key)->0,
{
    assert(text::without_trailing(dir, '/') == dir);
    assert(dir.push('/').drop_last() =~= dir);
    assert(text::without_trailing(dir.push('/'), '/') == dir);
    let name = dir + seq!['/'] + key;
    let prefix = dir.push('/');
    assert(prefix =~= name.subrange(0, prefix.len() as int));
    assert(name.skip(prefix.len() as int) =~= key);
    if unpaired(dir, key) is Some {
        assert(prefix =~= key.subrange(0, prefix.len() as int));
        assert(key =~= dir + seq!['/'] + key.skip(prefix.len() as int));
    }
}

/// A pull is complete: every file of the paired folder, at any depth, is downloaded, as
/// long as its names are plain and the local folder does not have it.
pub proof fn law_a_pull_takes_every_missing_file(
    remote: Seq<Node>,
    dir: Seq<char>,
    local: Set<Seq<char>>,
    n: int,
    i: int,
    names: Seq<Seq<char>>,
)
    requires
        0 <= i < n <= remote.len(),
        dir.len() == 0 || dir.last() != '/',
        are_plain_names(names),
        remote[i].filename@ == dir + seq!['/'] + text::joined(names, seq!['/']),
        !local.contains(text::joined(names, seq!['/'])),
    ensures
        missing_keys(remote, dir, local, n).contains(text::joined(names, seq!['/'])),
    decreases n,
{
    let key = text::joined(names, seq!['/']);
    law_plain_names_make_safe_keys(names);
    law_remote_files_are_known_by_their_names(dir, key);
    let (before, all) = (
        missing_keys(remote, dir, local, n - 1),
        missing_keys(remote, dir, local, n),
    );
    if i == n - 1 {
        assert(all[all.len() - 1] == key);
    } else {
        law_a_pull_takes_every_missing_file(remote, dir, local, n - 1, i, names);
        let at = choose|at: int| 0 <= at < before.len() && before[at] == key;
        assert(all[at] == key);
    }
}

/// A file is the same on both sides just where both have it with as many bytes, changed
/// where both have it with other numbers of bytes, and new where only this side has it.
pub proof fn law_files_are_told_apart_by_size(size: u64, node: Node)
    ensures
        standing(size, None) is OnlyLocal,
        !(standing(size, Some(node)) is OnlyLocal),
        standing(size, Some(node)) is Same <==> size == node.size,
        standing(size, Some(node)) is Changed <==> size != node.size,
{
}

/// A token is used as long as it lives for more than another minute.
pub proof fn law_tokens_are_used_until_then(now: u64, fetched_at: u64, lifetime: u64)
    requires
        fetched_at <= now,
        now + 60_000 < fetched_at + lifetime * 1000,
    ensures
        is_fresh(now, fetched_at, lifetime),
{
}

/// A listing falls into folders and files, and nothing is lost of it: what is named a
/// folder is walked into, and everything else is a file, each in the order listed.
pub proof fn law_a_listing_is_folders_and_files(nodes: Seq<Node>, n: int)
    requires
        0 <= n <= nodes.len(),
    ensures
        files_listed(nodes, n) == nodes.take(n).filter(
            |node: Node| node.kind@ != seq!['f', 'o', 'l', 'd', 'e', 'r'],
        ),
        folders_listed(nodes, n) == nodes.take(n).filter(
            |node: Node| node.kind@ == seq!['f', 'o', 'l', 'd', 'e', 'r'],
        ).map_values(|node: Node| node.filename@),
        files_listed(nodes, n).len() + folders_listed(nodes, n).len() == n,
    decreases n,
{
    reveal(Seq::filter);
    reveal_strlit("folder");
    assert("folder"@ =~= seq!['f', 'o', 'l', 'd', 'e', 'r']);
    let is_file = |node: Node| node.kind@ != seq!['f', 'o', 'l', 'd', 'e', 'r'];
    let is_folder = |node: Node| node.kind@ == seq!['f', 'o', 'l', 'd', 'e', 'r'];
    let named = |node: Node| node.filename@;
    if n > 0 {
        law_a_listing_is_folders_and_files(nodes, n - 1);
        assert(nodes.take(n).drop_last() =~= nodes.take(n - 1));
        assert(nodes.take(n).last() == nodes[n - 1]);
        let front = nodes.take(n - 1).filter(is_folder);
        assert(front.push(nodes[n - 1]).map_values(named) =~= front.map_values(named).push(
            nodes[n - 1].filename@,
        ));
    } else {
        assert(nodes.take(0).filter(is_file) =~= seq![]);
        assert(nodes.take(0).filter(is_folder).map_values(named) =~= seq![]);
    }
}

/// What is new is put behind what was seen, each once and in order, and nothing is lost.
proof fn lemma_with_new(seen: Seq<Seq<char>>, more: Seq<Seq<char>>, n: int)
    requires
        0 <= n <= more.len(),
        seen.no_duplicates(),
    ensures
        with_new(seen, more, n).no_duplicates(),
        with_new(seen, more, n).len() >= seen.len(),
        forall|i: int| 0 <= i < seen.len() ==> with_new(seen, more, n)[i] == #[trigger] seen[i],
        forall|i: int|
            seen.len() <= i < with_new(seen, more, n).len() ==> more.contains(
                #[trigger] with_new(seen, more, n)[i],
            ),
        forall|i: int| 0 <= i < n ==> with_new(seen, more, n).contains(#[trigger] more[i]),
    decreases n,
{
    if n > 0 {
        lemma_with_new(seen, more, n - 1);
        let (before, all) = (with_new(seen, more, n - 1), with_new(seen, more, n));
        assert(more.contains(more[n - 1]));
        assert forall|i: int| 0 <= i < n implies all.contains(#[trigger] more[i]) by {
            if before.contains(more[i]) {
                let at = choose|at: int| 0 <= at < before.len() && before[at] == more[i];
                assert(all[at] == more[i]);
            } else {
                assert(all[all.len() - 1] == more[i]);
            }
        }
    }
}

/// The text before the last slash of each folder stands earlier in the list.
pub open spec fn outer_first(folders: Seq<Seq<char>>) -> bool {
    forall|i: int|
        0 <= i < folders.len() ==> (text::split_last(#[trigger] folders[i], '/') matches Some(
            (outer, _),
        ) ==> folders.take(i).contains(outer))
}

proof fn lemma_with_new_outer_first(
    seen: Seq<Seq<char>>,
    names: Seq<Seq<char>>,
    more: Seq<Seq<char>>,
    n: int,
)
    requires
        0 <= n <= more.len() < names.len(),
        forall|i: int| 0 <= i < names.len() ==> !(#[trigger] names[i]).contains('/'),
        forall|i: int|
            0 <= i < more.len() ==> #[trigger] more[i] == text::joined(names.take(i + 1), seq!['/']),
        seen.no_duplicates(),
        outer_first(seen),
    ensures
        outer_first(with_new(seen, more, n)),
    decreases n,
{
    if n > 0 {
        lemma_with_new_outer_first(seen, names, more, n - 1);
        lemma_with_new(seen, more, n - 1);
        let (before, all) = (with_new(seen, more, n - 1), with_new(seen, more, n));
        assert forall|i: int| 0 <= i < all.len() implies (text::split_last(
            #[trigger] all[i],
            '/',
        ) matches Some((outer, _)) ==> all.take(i).contains(outer)) by {
            if i < before.len() {
                assert(all[i] == before[i]);
                assert(all.take(i) =~= before.take(i));
            } else {
                let (folder, last) = (more[n - 1], names[n - 1]);
                assert(all.take(i) =~= before);
                if n == 1 {
                    assert(names.take(1) =~= seq![last]);
                    folder.index_of_last_ensures('/');
                } else {
                    let outer = more[n - 2];
                    let front = names.take(n);
                    assert(front.drop_last() =~= names.take(n - 1));
                    assert(folder == outer + seq!['/'] + last);
                    lemma_last_slash(outer, last);
                    assert(before.contains(more[n - 2]));
                }
            }
        }
    }
}

pub proof fn lemma_last_slash(outer: Seq<char>, last: Seq<char>)
    requires
        !last.contains('/'),
    ensures
        text::split_last(outer + seq!['/'] + last, '/') == Some((outer, last)),
{
    let whole = outer + seq!['/'] + last;
    let at = outer.len() as int;
    whole.index_of_last_ensures('/');
    assert(whole[at] == '/');
    assert(whole.contains('/'));
    let found = whole.index_of_last('/')->0;
    assert(found == at) by {
        if found > at {
            assert(last[found - at - 1] == '/');
        }
        if found < at {
            assert(whole[at] != '/');
        }
    }
    assert(whole.take(at) =~= outer);
    assert(whole.skip(at + 1) =~= last);
}

/// A push makes every folder that a file of it lies in, each once, no other, and none
/// before the folder that it lies in itself.
pub proof fn law_a_push_makes_every_folder_once(keys: Seq<String>, n: int)
    requires
        0 <= n <= keys.len(),
    ensures
        all_folders(keys, n).no_duplicates(),
        outer_first(all_folders(keys, n)),
        forall|k: int, i: int|
            0 <= k < n && 0 < i < text::pieces(keys[k]@, '/').len() ==> all_folders(
                keys,
                n,
            ).contains(
                #[trigger] text::joined(text::pieces(keys[k]@, '/').take(i), seq!['/']),
            ),
        forall|j: int|
            0 <= j < all_folders(keys, n).len() ==> exists|k: int, i: int|
                {
                    &&& 0 <= k < n
                    &&& 0 < i < text::pieces(keys[k]@, '/').len()
                    &&& #[trigger] all_folders(keys, n)[j] == #[trigger] text::joined(
                        text::pieces(keys[k]@, '/').take(i),
                        seq!['/'],
                    )
                },
    decreases n,
{
    if n > 0 {
        law_a_push_makes_every_folder_once(keys, n - 1);
        let key = keys[n - 1]@;
        let (before, all) = (all_folders(keys, n - 1), all_folders(keys, n));
        let (names, more) = (text::pieces(key, '/'), folders_of(key));
        text::lemma_some_piece(key, '/');
        assert forall|i: int| 0 <= i < names.len() implies !(#[trigger] names[i]).contains('/') by {
            paths::lemma_pieces_are_plain(key, '/', i);
        }
        lemma_with_new(before, more, more.len() as int);
        lemma_with_new_outer_first(before, names, more, more.len() as int);
        assert forall|k: int, i: int|
            0 <= k < n && 0 < i < text::pieces(keys[k]@, '/').len() implies all.contains(
            #[trigger] text::joined(text::pieces(keys[k]@, '/').take(i), seq!['/']),
        ) by {
            let folder = text::joined(text::pieces(keys[k]@, '/').take(i), seq!['/']);
            if k == n - 1 {
                assert(more[i - 1] == folder);
            } else {
                assert(before.contains(folder));
                let at = choose|at: int| 0 <= at < before.len() && before[at] == folder;
                assert(all[at] == before[at]);
            }
        }
        assert forall|j: int| 0 <= j < all.len() implies exists|k: int, i: int|
            {
                &&& 0 <= k < n
                &&& 0 < i < text::pieces(keys[k]@, '/').len()
                &&& #[trigger] all[j] == #[trigger] text::joined(
                    text::pieces(keys[k]@, '/').take(i),
                    seq!['/'],
                )
            } by {
            if j < before.len() {
                assert(all[j] == before[j]);
                let (k, i) = choose|k: int, i: int|
                    {
                        &&& 0 <= k < n - 1
                        &&& 0 < i < text::pieces(keys[k]@, '/').len()
                        &&& before[j] == #[trigger] text::joined(
                            text::pieces(keys[k]@, '/').take(i),
                            seq!['/'],
                        )
                    };
                assert(all[j] == text::joined(text::pieces(keys[k]@, '/').take(i), seq!['/']));
            } else {
                assert(more.contains(all[j]));
                let at = choose|at: int| 0 <= at < more.len() && more[at] == all[j];
                assert(all[j] == text::joined(
                    text::pieces(keys[n - 1]@, '/').take(at + 1),
                    seq!['/'],
                ));
            }
        }
    }
}

/// The value of a hexadecimal digit in capitals.
pub open spec fn hex_value(c: char) -> int {
    if '0' <= c && c <= '9' {
        c as int - '0' as int
    } else {
        c as int - 'A' as int + 10
    }
}

/// Letters, digits, `-`, `_`, `.` and `~` stand for themselves in a query, and every other
/// byte for a `%` and its value in two hexadecimal digits.
pub proof fn law_bytes_are_escaped_by_their_value(byte: u8)
    ensures
        ({
            let plain = {
                ||| 'A' <= byte as char && byte as char <= 'Z'
                ||| 'a' <= byte as char && byte as char <= 'z'
                ||| '0' <= byte as char && byte as char <= '9'
                ||| byte as char == '-'
                ||| byte as char == '_'
                ||| byte as char == '.'
                ||| byte as char == '~'
            };
            let out = escaped(seq![byte]);
            &&& plain ==> out == seq![byte as char]
            &&& !plain ==> out.len() == 3 && out[0] == '%' && 16 * hex_value(out[1]) + hex_value(
                out[2],
            ) == byte
        }),
{
    assert(seq![byte].drop_last() =~= seq![]);
    assert(escaped(seq![]) =~= seq![]);
    assert(escaped(seq![byte]) =~= escaped_byte(byte));
    lemma_hex_value(byte as nat / 16);
    lemma_hex_value(byte as nat % 16);
}

proof fn lemma_hex_value(value: nat)
    requires
        value < 16,
    ensures
        hex_value(hex_digit(value)) == value,
{
}

/// What is escaped is escaped byte by byte.
pub proof fn law_paths_are_escaped_byte_by_byte(a: Seq<u8>, b: Seq<u8>)
    ensures
        escaped(a + b) == escaped(a) + escaped(b),
        escaped(seq![]) == Seq::<char>::empty(),
    decreases b.len(),
{
    if b.len() == 0 {
        assert(a + b =~= a);
        assert(escaped(a) + escaped(b) =~= escaped(a));
    } else {
        law_paths_are_escaped_byte_by_byte(a, b.drop_last());
        assert((a + b).drop_last() =~= a + b.drop_last());
        assert(escaped(a + b) =~= escaped(a) + escaped(b));
    }
}

/// A key with `..` between its slashes is never safe.
pub proof fn law_keys_never_lead_upwards(key: Seq<char>, i: int)
    requires
        0 <= i < text::pieces(key, '/').len(),
        text::pieces(key, '/')[i] == seq!['.', '.'],
    ensures
        !is_safe(key),
{
    assert(seq!['.', '.'].len() == 2);
    paths::law_nothing_between_slashes_is_lost(key, i);
    let parts = paths::components(key);
    let at = choose|at: int| 0 <= at < parts.len() && parts[at] == seq!['.', '.'];
    law_keys_that_lead_out_are_not_safe(key, at);
}

/// Configuration lives in the folder the user's environment names for it: on Windows its
/// own, elsewhere one below the home folder, unless another is named. Without any of these
/// it lives nowhere.
pub proof fn law_configuration_lives_where_the_environment_says(environment: Environment)
    ensures
        config_parts(Platform::Windows, environment) is Some <==> environment.appdata is Some,
        config_parts(Platform::MacOs, environment) is Some <==> environment.home is Some,
        config_parts(Platform::Other, environment) is Some <==> environment.xdg_config_home is Some
            || environment.home is Some,
        environment.appdata matches Some(base) ==> config_parts(Platform::Windows, environment)
            == Some(paths::components(base@)),
        environment.xdg_config_home matches Some(base) ==> config_parts(
            Platform::Other,
            environment,
        ) == Some(paths::components(base@)),
        environment.home matches Some(home) ==> {
            &&& paths::components(home@).is_prefix_of(
                config_parts(Platform::MacOs, environment)->0,
            )
            &&& environment.xdg_config_home is None ==> paths::components(home@).is_prefix_of(
                config_parts(Platform::Other, environment)->0,
            )
        },
{
    reveal_strlit("Library/Application Support");
    reveal_strlit(".config");
    paths::law_paths_begin_at_the_root_or_nowhere("Library/Application Support"@);
    paths::law_paths_begin_at_the_root_or_nowhere(".config"@);
    if environment.home is Some {
        let home = paths::components(environment.home->0@);
        let (mac, other) = (
            paths::components("Library/Application Support"@),
            paths::components(".config"@),
        );
        assert(mac.len() > 0 ==> mac.contains(mac[0]));
        assert(other.len() > 0 ==> other.contains(other[0]));
        assert((home + mac).take(home.len() as int) =~= home);
        assert((home + other).take(home.len() as int) =~= home);
    }
}

/// Formats that browsers know are sent under types of their own, and just those as images.
pub proof fn law_media_types_tell_formats_apart(a: ImageFormat, b: ImageFormat)
    ensures
        "image/"@.is_prefix_of(media_type(Some(a))) && media_type(Some(a)) == media_type(Some(b))
            ==> a == b,
        "image/"@.is_prefix_of(media_type(Some(a))) <==> a is Avif || a is Jpeg || a is Png
            || a is Gif || a is WebP || a is Tiff || a is Bmp || a is Ico,
        !"image/"@.is_prefix_of(media_type(None)),
        media_type(Some(ImageFormat::Jpeg)) == "image/jpeg"@,
        media_type(Some(ImageFormat::Png)) == "image/"@ + scan::first_extension(ImageFormat::Png),
        media_type(Some(ImageFormat::WebP)) == "image/"@ + scan::first_extension(
            ImageFormat::WebP,
        ),
        media_type(Some(ImageFormat::Avif)) == "image/"@ + scan::first_extension(
            ImageFormat::Avif,
        ),
        media_type(Some(ImageFormat::Gif)) == "image/"@ + scan::first_extension(ImageFormat::Gif),
        media_type(Some(ImageFormat::Tiff)) == "image/"@ + scan::first_extension(
            ImageFormat::Tiff,
        ),
        media_type(Some(ImageFormat::Bmp)) == "image/"@ + scan::first_extension(ImageFormat::Bmp),
{
    reveal_strlit("image/");
    reveal_strlit("image/avif");
    reveal_strlit("image/jpeg");
    reveal_strlit("image/png");
    reveal_strlit("image/gif");
    reveal_strlit("image/webp");
    reveal_strlit("image/tiff");
    reveal_strlit("image/bmp");
    reveal_strlit("image/x-icon");
    reveal_strlit("application/octet-stream");
    reveal_strlit("png");
    reveal_strlit("webp");
    reveal_strlit("avif");
    reveal_strlit("gif");
    reveal_strlit("tiff");
    reveal_strlit("bmp");
    assert("image/png"@ =~= "image/"@ + "png"@);
    assert("image/webp"@ =~= "image/"@ + "webp"@);
    assert("image/avif"@ =~= "image/"@ + "avif"@);
    assert("image/gif"@ =~= "image/"@ + "gif"@);
    assert("image/tiff"@ =~= "image/"@ + "tiff"@);
    assert("image/bmp"@ =~= "image/"@ + "bmp"@);
    let other = "application/octet-stream"@;
    assert(other.subrange(0, 6)[0] == 'a' && "image/"@[0] == 'i');
    assert("image/avif"@.subrange(0, 6) =~= "image/"@);
    assert("image/jpeg"@.subrange(0, 6) =~= "image/"@);
    assert("image/png"@.subrange(0, 6) =~= "image/"@);
    assert("image/gif"@.subrange(0, 6) =~= "image/"@);
    assert("image/webp"@.subrange(0, 6) =~= "image/"@);
    assert("image/tiff"@.subrange(0, 6) =~= "image/"@);
    assert("image/bmp"@.subrange(0, 6) =~= "image/"@);
    assert("image/x-icon"@.subrange(0, 6) =~= "image/"@);
    assert("image/jpeg"@[6] == 'j' && "image/x-icon"@[6] == 'x' && "image/bmp"@[6] == 'b'
        && "image/tiff"@[6] == 't' && "image/gif"@[6] == 'g' && "image/webp"@[6] == 'w'
        && "image/png"@[6] == 'p' && "image/avif"@[6] == 'a');
}

} // verus!
