//! The index as a tool server: which paths it may tell of, and what it answers.

use crate::compact_index::{CompactIndex, IndexError};
use crate::delta::DeltaIndex;
use crate::host::Host;
use crate::index::Index;
use crate::query::{Query, QueryView};
use crate::rank::{HitView, SearchHit, SearchStats};
use crate::text::Separator;
use crate::types::{FileKind, RecordView};
use vstd::prelude::*;

verus! {

// ---------------------------------------------------------------------------
// Paths

/// A text without a slash behind another.
pub open spec fn single_slashes(s: Seq<char>) -> Seq<char>
    decreases s.len(),
{
    if s.len() == 0 {
        s
    } else {
        let front = single_slashes(s.drop_last());
        if s.last() == '/' && s.len() > 1 && s[s.len() - 2] == '/' {
            front
        } else {
            front.push(s.last())
        }
    }
}

/// A path with forward slashes and without an extended prefix.
pub open spec fn unprefixed(path: Seq<char>) -> Seq<char> {
    let r = crate::text::replace_char(path, '\\', '/');
    if "//?/UNC/"@.is_prefix_of(r) {
        "//"@ + r.skip(8)
    } else if "//?/"@.is_prefix_of(r) || "//./"@.is_prefix_of(r) {
        r.skip(4)
    } else {
        r
    }
}

/// A path as all hosts write it: forward slashes, no extended prefix, no slash behind another
/// but at the beginning of a share, and none at the end of more than a root.
pub open spec fn portable_text(path: Seq<char>) -> Seq<char> {
    let u = unprefixed(path);
    let n = if "//"@.is_prefix_of(u) {
        u.take(2) + single_slashes(u.skip(2))
    } else {
        single_slashes(u)
    };
    if vstd::utf8::encode_utf8(n).len() > 3 {
        crate::text::trim_end(n, Separator::Char('/'))
    } else {
        n
    }
}

fn collapse(s: &[char]) -> (r: Vec<char>)
    ensures
        r@ == single_slashes(s@),
{
    let mut r: Vec<char> = Vec::new();
    let mut i: usize = 0;
    assert(s@.take(0) =~= Seq::empty());
    while i < s.len()
        invariant
            i <= s@.len(),
            r@ == single_slashes(s@.take(i as int)),
        decreases s@.len() - i,
    {
        proof {
            let t = s@.take(i + 1);
            assert(t.drop_last() =~= s@.take(i as int));
            assert(t.last() == s@[i as int]);
            if i > 0 {
                assert(t[t.len() - 2] == s@[i - 1]);
            }
        }
        if !(s[i] == '/' && i > 0 && s[i - 1] == '/') {
            r.push(s[i]);
        }
        i += 1;
    }
    assert(s@.take(i as int) =~= s@);
    r
}

/// Writes a path as all hosts do.
pub fn portable_path_text(path: &str) -> (out: String)
    ensures
        out@ == portable_text(path@),
{
    proof {
        reveal_strlit("//?/UNC/");
        reveal_strlit("//?/");
        reveal_strlit("//./");
        reveal_strlit("//");
    }
    let chars = crate::text::chars_of(path);
    let r = crate::text::replaced(chars.as_slice(), '\\', '/');
    let n: usize = r.len();
    let u: Vec<char> = if crate::text::begins(r.as_slice(), "//?/UNC/") {
        let mut share = crate::text::chars_of("//");
        let rest = crate::text::part(r.as_slice(), 8, n);
        assert(rest@ =~= r@.skip(8));
        crate::text::push_all(&mut share, rest.as_slice());
        share
    } else if crate::text::begins(r.as_slice(), "//?/") || crate::text::begins(
        r.as_slice(),
        "//./",
    ) {
        let rest = crate::text::part(r.as_slice(), 4, n);
        assert(rest@ =~= r@.skip(4));
        rest
    } else {
        r
    };
    assert(u@ =~= unprefixed(path@));
    let k: usize = u.len();
    let whole: Vec<char> = if crate::text::begins(u.as_slice(), "//") {
        let mut head = crate::text::part(u.as_slice(), 0, 2);
        assert(head@ =~= u@.take(2));
        let tail = crate::text::part(u.as_slice(), 2, k);
        assert(tail@ =~= u@.skip(2));
        let rest = collapse(tail.as_slice());
        crate::text::push_all(&mut head, rest.as_slice());
        head
    } else {
        collapse(u.as_slice())
    };
    let text = crate::text::string_of(whole.as_slice());
    if text.as_str().as_bytes().len() > 3 {
        let keep: usize = crate::text::end_run(whole.as_slice(), Separator::Char('/'));
        let bare = crate::text::part(whole.as_slice(), 0, keep);
        assert(bare@ =~= crate::text::trim_end(whole@, Separator::Char('/')));
        return crate::text::string_of(bare.as_slice());
    }
    text
}

/// A path lies at or below a root, both as all hosts write them.
pub open spec fn is_under(path: Seq<char>, root: Seq<char>, case_sensitive: bool) -> bool {
    let p = if case_sensitive {
        path
    } else {
        crate::text::lowercase(path)
    };
    let r = if case_sensitive {
        root
    } else {
        crate::text::lowercase(root)
    };
    &&& r.is_prefix_of(p)
    &&& p.len() == r.len() || (r.len() > 0 && r.last() == '/') || p[r.len() as int] == '/'
}

/// Whether a path lies at or below a root, both as all hosts write them.
pub fn portable_path_is_under(path: &str, root: &str, case_sensitive: bool) -> (out: bool)
    ensures
        out == is_under(path@, root@, case_sensitive),
{
    let (p, r): (Vec<char>, Vec<char>) = if case_sensitive {
        (crate::text::chars_of(path), crate::text::chars_of(root))
    } else {
        let low_path = crate::text::to_lowercase(path);
        let low_root = crate::text::to_lowercase(root);
        (crate::text::chars_of(low_path.as_str()), crate::text::chars_of(low_root.as_str()))
    };
    let n: usize = r.len();
    if !crate::text::starts_with(p.as_slice(), r.as_slice()) {
        return false;
    }
    p.len() == n || (n > 0 && r[n - 1] == '/') || p[n] == '/'
}

/// The path is absolute and holds no NUL, and no component goes up or stays in place. A `.`
/// is a component only behind a verbatim prefix of Windows.
pub open spec fn is_safe_path(host: Host, path: Seq<char>) -> bool {
    &&& !path.contains('\0')
    &&& crate::host::host_absolute(host, path)
    &&& !crate::host::path_parts(host, path).contains(seq!['.', '.'])
    &&& !crate::host::path_parts(host, path).contains(seq!['.'])
}

fn goes_nowhere(part: &[char]) -> (r: bool)
    ensures
        r == (part@ == seq!['.', '.'] || part@ == seq!['.']),
{
    let up: bool = part.len() == 2 && part[0] == '.' && part[1] == '.';
    let stay: bool = part.len() == 1 && part[0] == '.';
    proof {
        if up {
            assert(part@ =~= seq!['.', '.']);
        }
        if stay {
            assert(part@ =~= seq!['.']);
        }
    }
    up || stay
}

/// Whether a path is absolute and holds no NUL, and no component goes up or stays in place.
pub fn safe_absolute_path(host: Host, path: &str) -> (r: bool)
    ensures
        r == is_safe_path(host, path@),
{
    let chars = crate::text::chars_of(path);
    if crate::text::has_char(chars.as_slice(), '\0') || !crate::host::is_absolute(
        host,
        chars.as_slice(),
    ) {
        return false;
    }
    let parts = crate::host::parts_of(host, chars.as_slice());
    let ghost views = crate::text::texts(parts@);
    let mut i: usize = 0;
    while i < parts.len()
        invariant
            i <= parts@.len(),
            views == crate::text::texts(parts@),
            views == crate::host::path_parts(host, path@),
            forall|k: int| 0 <= k < i ==> views[k] != seq!['.', '.'] && views[k] != seq!['.'],
        decreases parts@.len() - i,
    {
        assert(views[i as int] == parts@[i as int]@);
        if goes_nowhere(parts[i].as_slice()) {
            return false;
        }
        i += 1;
    }
    true
}

/// The server may tell of a path: it is safe, and lies in one of the allowed roots where
/// there are any.
pub open spec fn allowed(host: Host, path: Seq<char>, roots: Seq<Seq<char>>) -> bool {
    &&& is_safe_path(host, path)
    &&& roots.len() == 0 || exists|i: int|
        0 <= i < roots.len() && is_under(
            portable_text(path),
            portable_text(#[trigger] roots[i]),
            host.cased(),
        )
}

/// Whether the server may tell of a path.
pub fn path_is_allowed(host: Host, path: &str, roots: &Vec<String>) -> (r: bool)
    ensures
        r == allowed(host, path@, crate::text::strings(roots@)),
{
    let ghost views = crate::text::strings(roots@);
    assert(views.len() == roots@.len());
    if !safe_absolute_path(host, path) {
        return false;
    }
    if roots.len() == 0 {
        return true;
    }
    let p = portable_path_text(path);
    let mut i: usize = 0;
    while i < roots.len()
        invariant
            i <= roots@.len(),
            views == crate::text::strings(roots@),
            p@ == portable_text(path@),
            is_safe_path(host, path@),
            forall|k: int|
                0 <= k < i ==> !is_under(p@, portable_text(#[trigger] views[k]), host.cased()),
        decreases roots@.len() - i,
    {
        assert(views[i as int] == roots@[i as int]@);
        let root = portable_path_text(roots[i].as_str());
        if portable_path_is_under(p.as_str(), root.as_str(), host.case_sensitive()) {
            return true;
        }
        i += 1;
    }
    false
}

// ---------------------------------------------------------------------------
// Settings

/// The index that the server is configured with; there must be one.
pub fn configured_index_from(primary: Option<String>, legacy: Option<String>) -> (r: Result<
    String,
    String,
>)
    ensures
        ({
            let chosen = crate::paths::either(
                crate::launch::some_text(primary),
                crate::launch::some_text(legacy),
            );
            match r {
                Ok(p) => chosen == Some(p@) && p@.len() > 0,
                Err(e) => if chosen is None {
                    e@
                        == "NEUTRASEARCH_INDEX (or legacy NEUTRA_INDEX) must be configured for MCP"@
                } else {
                    chosen->0.len() == 0 && e@ == "configured MCP index path must not be empty"@
                },
            }
        }),
{
    let chosen = match primary {
        Some(p) => Some(p),
        None => legacy,
    };
    match chosen {
        None => Err(
            "NEUTRASEARCH_INDEX (or legacy NEUTRA_INDEX) must be configured for MCP".to_owned(),
        ),
        Some(p) => {
            let chars = crate::text::chars_of(p.as_str());
            if chars.len() == 0 {
                Err("configured MCP index path must not be empty".to_owned())
            } else {
                Ok(p)
            }
        },
    }
}

/// What is wrong with the configured roots, which are taken apart already.
pub open spec fn roots_fault(host: Host, roots: Seq<Seq<char>>) -> Option<Seq<char>> {
    if roots.len() == 0 || exists|i: int|
        0 <= i < roots.len() && (#[trigger] roots[i]).len() == 0 {
        Some("NEUTRASEARCH_MCP_ALLOWED_ROOTS contains an empty path"@)
    } else if exists|i: int|
        0 <= i < roots.len() && !is_safe_path(host, #[trigger] roots[i]) {
        Some("MCP allowed roots must be absolute and must not contain '..'"@)
    } else {
        None
    }
}

/// The roots that the server is configured with; each is yet to be resolved. No setting means
/// no roots, and then everything safe is allowed.
pub fn allowed_roots_from(host: Host, value: Option<Vec<String>>) -> (r: Result<Vec<String>, String>)
    ensures
        match value {
            None => r matches Ok(v) && v@.len() == 0,
            Some(roots) => match r {
                Ok(v) => v == roots && roots_fault(host, crate::text::strings(roots@)) is None,
                Err(e) => roots_fault(host, crate::text::strings(roots@)) == Some(e@),
            },
        },
{
    let roots = match value {
        None => {
            return Ok(Vec::new());
        },
        Some(v) => v,
    };
    let ghost views = crate::text::strings(roots@);
    assert(views.len() == roots@.len());
    if roots.len() == 0 {
        return Err("NEUTRASEARCH_MCP_ALLOWED_ROOTS contains an empty path".to_owned());
    }
    let mut safe: bool = true;
    let mut i: usize = 0;
    while i < roots.len()
        invariant
            i <= roots@.len(),
            value == Some(roots),
            views == crate::text::strings(roots@),
            forall|k: int| 0 <= k < i ==> (#[trigger] views[k]).len() > 0,
            safe <==> forall|k: int| 0 <= k < i ==> is_safe_path(host, #[trigger] views[k]),
        decreases roots@.len() - i,
    {
        assert(views[i as int] == roots@[i as int]@);
        let chars = crate::text::chars_of(roots[i].as_str());
        if chars.len() == 0 {
            assert(views[i as int].len() == 0);
            return Err("NEUTRASEARCH_MCP_ALLOWED_ROOTS contains an empty path".to_owned());
        }
        if !safe_absolute_path(host, roots[i].as_str()) {
            assert(!is_safe_path(host, views[i as int]));
            safe = false;
        }
        i += 1;
    }
    if !safe {
        return Err("MCP allowed roots must be absolute and must not contain '..'".to_owned());
    }
    Ok(roots)
}

/// Whether a file begins as a compact index does.
pub fn looks_compact(head: &[u8]) -> (r: bool)
    ensures
        r == (head@.len() >= 8 && head@.take(8) == crate::compact::index_magic()),
{
    if head.len() < 8 {
        return false;
    }
    let first = vstd::slice::slice_subrange(head, 0, 8);
    assert(first@ =~= head@.take(8));
    let magic = crate::compact::magic();
    crate::bytes::same_bytes(first, magic.as_slice())
}

// ---------------------------------------------------------------------------
// The store

/// What the server searches.
pub enum Store {
    /// A compact index with the log beside it.
    Compact(CompactIndex, Option<DeltaIndex>),
    /// An index of an older version, held whole.
    Legacy(Index),
}

// ---------------------------------------------------------------------------
// Requests

/// Whether a text is one JSON document.
pub uninterp spec fn json_document(doc: Seq<char>) -> bool;

/// The JSON text of what a pointer finds in a document.
pub uninterp spec fn json_at(doc: Seq<char>, place: Seq<char>) -> Option<Seq<char>>;

/// The string that a pointer finds in a document.
pub uninterp spec fn json_text_at(doc: Seq<char>, place: Seq<char>) -> Option<Seq<char>>;

/// The number that a pointer finds in a document, where it is a `u64`.
pub uninterp spec fn json_number_at(doc: Seq<char>, place: Seq<char>) -> Option<u64>;

/// The truth value that a pointer finds in a document.
pub uninterp spec fn json_flag_at(doc: Seq<char>, place: Seq<char>) -> Option<bool>;

/// Calls `serde_json::from_str` for a `serde_json::Value`, and tells whether it read one. Which
/// texts those are depends on the text alone and is named, not stated.
#[verifier::external_body]
fn is_json(doc: &str) -> (r: bool)
    ensures
        r == json_document(doc@),
{
    serde_json::from_str::<serde_json::Value>(doc).is_ok()
}

/// Calls `serde_json::from_str`, `Value::pointer` and `Value::to_string`: what the pointer
/// finds, as JSON, or nothing where the text is no document or the pointer finds nothing. The
/// result depends on the two texts alone and is named, not stated.
#[verifier::external_body]
fn json_value(doc: &str, place: &str) -> (r: Option<String>)
    ensures
        crate::launch::some_text(r) == json_at(doc@, place@),
{
    let value = serde_json::from_str::<serde_json::Value>(doc).ok()?;
    value.pointer(place).map(|found| found.to_string())
}

/// Calls `serde_json::from_str`, `Value::pointer` and `Value::as_str`: the string that the
/// pointer finds, or nothing where the text is no document, the pointer finds nothing, or what
/// it finds is no string. The result depends on the two texts alone and is named, not stated.
#[verifier::external_body]
fn json_text(doc: &str, place: &str) -> (r: Option<String>)
    ensures
        crate::launch::some_text(r) == json_text_at(doc@, place@),
{
    let value = serde_json::from_str::<serde_json::Value>(doc).ok()?;
    value.pointer(place)?.as_str().map(|found| found.to_owned())
}

/// Calls `serde_json::from_str`, `Value::pointer` and `Value::as_u64`: the number that the
/// pointer finds, or nothing where the text is no document, the pointer finds nothing, or what
/// it finds is no whole number of 64 bits. The result depends on the two texts alone and is
/// named, not stated.
#[verifier::external_body]
fn json_number(doc: &str, place: &str) -> (r: Option<u64>)
    ensures
        r == json_number_at(doc@, place@),
{
    let value = serde_json::from_str::<serde_json::Value>(doc).ok()?;
    value.pointer(place)?.as_u64()
}

/// Calls `serde_json::from_str`, `Value::pointer` and `Value::as_bool`: the truth value that
/// the pointer finds, or nothing where the text is no document, the pointer finds nothing, or
/// what it finds is no truth value. The result depends on the two texts alone and is named, not
/// stated.
#[verifier::external_body]
fn json_flag(doc: &str, place: &str) -> (r: Option<bool>)
    ensures
        r == json_flag_at(doc@, place@),
{
    let value = serde_json::from_str::<serde_json::Value>(doc).ok()?;
    value.pointer(place)?.as_bool()
}

/// The methods of the protocol.
#[derive(Debug, Clone, Copy, PartialEq, Eq, Structural)]
pub enum Method {
    Initialize,
    ListTools,
    CallTool,
    Ping,
    Unknown,
}

/// The method that a name means.
pub open spec fn method_of(name: Seq<char>) -> Method {
    if name == "initialize"@ {
        Method::Initialize
    } else if name == "tools/list"@ {
        Method::ListTools
    } else if name == "tools/call"@ {
        Method::CallTool
    } else if name == "ping"@ {
        Method::Ping
    } else {
        Method::Unknown
    }
}

/// Finds the method that a name means.
pub fn method(name: &str) -> (r: Method)
    ensures
        r == method_of(name@),
{
    if crate::text::same_text(name, "initialize") {
        Method::Initialize
    } else if crate::text::same_text(name, "tools/list") {
        Method::ListTools
    } else if crate::text::same_text(name, "tools/call") {
        Method::CallTool
    } else if crate::text::same_text(name, "ping") {
        Method::Ping
    } else {
        Method::Unknown
    }
}

/// The tools of the server.
#[derive(Debug, Clone, Copy, PartialEq, Eq, Structural)]
pub enum Tool {
    Search,
    Status,
    Unknown,
}

/// The tool that a name means.
pub open spec fn tool_of(name: Seq<char>) -> Tool {
    if name == "neutra_search"@ {
        Tool::Search
    } else if name == "neutra_status"@ {
        Tool::Status
    } else {
        Tool::Unknown
    }
}

/// Finds the tool that a name means.
pub fn tool(name: &str) -> (r: Tool)
    ensures
        r == tool_of(name@),
{
    if crate::text::same_text(name, "neutra_search") {
        Tool::Search
    } else if crate::text::same_text(name, "neutra_status") {
        Tool::Status
    } else {
        Tool::Unknown
    }
}

impl Tool {
    /// The name that a tool is offered under; none where it is unknown.
    pub fn name(self) -> (r: String)
        ensures
            self == Tool::Unknown ==> r@.len() == 0,
            self == Tool::Search ==> r@ == "neutra_search"@,
            self == Tool::Status ==> r@ == "neutra_status"@,
    {
        match self {
            Tool::Search => "neutra_search".to_owned(),
            Tool::Status => "neutra_status".to_owned(),
            Tool::Unknown => String::new(),
        }
    }
}

/// The code of an error for a method that there is none of.
pub const METHOD_NOT_FOUND: i64 = -32_601;

/// What is told of a method that there is none of.
pub fn unknown_method(name: &str) -> (r: String)
    ensures
        r@ == "unknown method "@ + name@,
{
    crate::text::joined("unknown method ", name)
}

/// What is told of a tool that there is none of.
pub fn unknown_tool(name: &str) -> (r: String)
    ensures
        r@ == "unknown tool "@ + name@,
{
    crate::text::joined("unknown tool ", name)
}

/// What a line asks of the server. An `id` is kept as JSON, to be handed back with the answer.
#[derive(Debug)]
pub enum Request {
    /// Nothing stands on the line.
    Blank,
    /// What stands on the line is no JSON document.
    Broken,
    /// A message without an `id`, which is not answered.
    Notice,
    Initialize { id: String },
    ListTools { id: String },
    Ping { id: String },
    Search { id: String, query: String, limit: Option<u64>, metadata: bool },
    Status { id: String },
    UnknownTool { id: String, name: String },
    UnknownMethod { id: String, name: String },
}

/// The same as a mathematical value.
pub enum RequestView {
    Blank,
    Broken,
    Notice,
    Initialize { id: Seq<char> },
    ListTools { id: Seq<char> },
    Ping { id: Seq<char> },
    Search { id: Seq<char>, query: Seq<char>, limit: Option<u64>, metadata: bool },
    Status { id: Seq<char> },
    UnknownTool { id: Seq<char>, name: Seq<char> },
    UnknownMethod { id: Seq<char>, name: Seq<char> },
}

impl View for Request {
    type V = RequestView;

    open spec fn view(&self) -> RequestView {
        match self {
            Request::Blank => RequestView::Blank,
            Request::Broken => RequestView::Broken,
            Request::Notice => RequestView::Notice,
            Request::Initialize { id } => RequestView::Initialize { id: id@ },
            Request::ListTools { id } => RequestView::ListTools { id: id@ },
            Request::Ping { id } => RequestView::Ping { id: id@ },
            Request::Search { id, query, limit, metadata } => RequestView::Search {
                id: id@,
                query: query@,
                limit: *limit,
                metadata: *metadata,
            },
            Request::Status { id } => RequestView::Status { id: id@ },
            Request::UnknownTool { id, name } => RequestView::UnknownTool { id: id@, name: name@ },
            Request::UnknownMethod { id, name } => RequestView::UnknownMethod {
                id: id@,
                name: name@,
            },
        }
    }
}

/// A text, or the empty one.
pub open spec fn or_empty(t: Option<Seq<char>>) -> Seq<char> {
    match t {
        Some(s) => s,
        None => Seq::empty(),
    }
}

/// What a message asks, from what was found in it. A name that is missing is the empty one,
/// and so is the query; metadata are wanted where the message says so.
pub open spec fn message_asks(
    id: Option<Seq<char>>,
    method: Option<Seq<char>>,
    name: Option<Seq<char>>,
    query: Option<Seq<char>>,
    limit: Option<u64>,
    metadata: Option<bool>,
) -> RequestView {
    match id {
        None => RequestView::Notice,
        Some(id) => match method_of(or_empty(method)) {
            Method::Initialize => RequestView::Initialize { id },
            Method::ListTools => RequestView::ListTools { id },
            Method::Ping => RequestView::Ping { id },
            Method::CallTool => match tool_of(or_empty(name)) {
                Tool::Search => RequestView::Search {
                    id,
                    query: or_empty(query),
                    limit,
                    metadata: metadata == Some(true),
                },
                Tool::Status => RequestView::Status { id },
                Tool::Unknown => RequestView::UnknownTool { id, name: or_empty(name) },
            },
            Method::Unknown => RequestView::UnknownMethod { id, name: or_empty(method) },
        },
    }
}

/// What a line asks.
pub open spec fn request_of(line: Seq<char>) -> RequestView {
    if crate::text::trim(line).len() == 0 {
        RequestView::Blank
    } else if !json_document(line) {
        RequestView::Broken
    } else {
        message_asks(
            json_at(line, "/id"@),
            json_text_at(line, "/method"@),
            json_text_at(line, "/params/name"@),
            json_text_at(line, "/params/arguments/query"@),
            json_number_at(line, "/params/arguments/limit"@),
            json_flag_at(line, "/params/arguments/metadata"@),
        )
    }
}

/// `r` is what a line asks.
pub open spec fn is_request(line: Seq<char>, r: Request) -> bool {
    r@ == request_of(line)
}

/// The `id` that a request is answered under; none where it is not answered.
pub open spec fn answered_under(r: RequestView) -> Option<Seq<char>> {
    match r {
        RequestView::Blank | RequestView::Broken | RequestView::Notice => None,
        RequestView::Initialize { id } => Some(id),
        RequestView::ListTools { id } => Some(id),
        RequestView::Ping { id } => Some(id),
        RequestView::Search { id, .. } => Some(id),
        RequestView::Status { id } => Some(id),
        RequestView::UnknownTool { id, .. } => Some(id),
        RequestView::UnknownMethod { id, .. } => Some(id),
    }
}

/// Every document with an `id` is answered, under that `id`, whatever else it holds; nothing
/// else is answered.
pub proof fn law_what_has_an_id_is_answered_under_it(line: Seq<char>)
    ensures
        answered_under(request_of(line)) == if crate::text::trim(line).len() > 0 && json_document(
            line,
        ) {
            json_at(line, "/id"@)
        } else {
            None
        },
{
}

fn given(t: Option<String>) -> (r: String)
    ensures
        r@ == or_empty(crate::launch::some_text(t)),
{
    match t {
        Some(s) => s,
        None => String::new(),
    }
}

/// Tells what a message asks, from what was found in it.
pub fn message_request(
    id: Option<String>,
    method_name: Option<String>,
    tool_name: Option<String>,
    query: Option<String>,
    limit: Option<u64>,
    metadata: Option<bool>,
) -> (r: Request)
    ensures
        r@ == message_asks(
            crate::launch::some_text(id),
            crate::launch::some_text(method_name),
            crate::launch::some_text(tool_name),
            crate::launch::some_text(query),
            limit,
            metadata,
        ),
{
    let id = match id {
        None => {
            return Request::Notice;
        },
        Some(id) => id,
    };
    let asked = given(method_name);
    match method(asked.as_str()) {
        Method::Initialize => Request::Initialize { id },
        Method::ListTools => Request::ListTools { id },
        Method::Ping => Request::Ping { id },
        Method::CallTool => {
            let name = given(tool_name);
            match tool(name.as_str()) {
                Tool::Search => Request::Search {
                    id,
                    query: given(query),
                    limit,
                    metadata: match metadata {
                        Some(flag) => flag,
                        None => false,
                    },
                },
                Tool::Status => Request::Status { id },
                Tool::Unknown => Request::UnknownTool { id, name },
            }
        },
        Method::Unknown => Request::UnknownMethod { id, name: asked },
    }
}

/// Reads what a line asks.
pub fn read_request(line: &str) -> (r: Request)
    ensures
        is_request(line@, r),
{
    let chars = crate::text::chars_of(line);
    if crate::text::trimmed(chars.as_slice()).len() == 0 {
        return Request::Blank;
    }
    if !is_json(line) {
        return Request::Broken;
    }
    message_request(
        json_value(line, "/id"),
        json_text(line, "/method"),
        json_text(line, "/params/name"),
        json_text(line, "/params/arguments/query"),
        json_number(line, "/params/arguments/limit"),
        json_flag(line, "/params/arguments/metadata"),
    )
}

// ---------------------------------------------------------------------------
// Answers

/// The query of a search: at most a thousand hits, fifty where it does not say, and only what
/// is allowed, before hits are ranked and counted off.
pub open spec fn tool_query(
    host: Host,
    raw: Seq<char>,
    limit: Option<u64>,
    roots: Seq<Seq<char>>,
) -> QueryView {
    QueryView {
        limit: match limit {
            Some(n) => crate::client::bounded_limit(n as nat),
            None => 50,
        },
        scope_roots: roots,
        scope_case_sensitive: host.cased(),
        ..crate::query::parsed_query(raw)
    }
}

/// A number in decimal, with its sign.
pub open spec fn signed_decimal(n: int) -> Seq<char> {
    if n < 0 {
        "-"@ + crate::text::decimal((-n) as nat)
    } else {
        crate::text::decimal(n as nat)
    }
}

/// The name of a kind.
pub open spec fn kind_title(k: FileKind) -> Seq<char> {
    match k {
        FileKind::File => "File"@,
        FileKind::Dir => "Dir"@,
        FileKind::Symlink => "Symlink"@,
        FileKind::Other => "Other"@,
    }
}

/// A line of an answer.
pub open spec fn answer_line(r: RecordView, metadata: bool) -> Seq<char> {
    if metadata {
        r.path + "\t"@ + kind_title(r.kind) + "\t"@ + crate::text::decimal(r.size as nat) + "\t"@
            + signed_decimal(r.mtime as int) + "\t"@ + crate::mounts::label_of(r.fs)
    } else {
        r.path
    }
}

/// The lines of an answer.
pub open spec fn answer_lines(hits: Seq<HitView>, metadata: bool) -> Seq<Seq<char>> {
    Seq::new(hits.len(), |i: int| answer_line(hits[i].record, metadata))
}

/// The hits that the server may tell of.
pub open spec fn told(host: Host, hits: Seq<HitView>, roots: Seq<Seq<char>>) -> Seq<HitView>
    decreases hits.len(),
{
    if hits.len() == 0 {
        Seq::empty()
    } else if allowed(host, hits.last().record.path, roots) {
        told(host, hits.drop_last(), roots).push(hits.last())
    } else {
        told(host, hits.drop_last(), roots)
    }
}

/// An answer to a search.
#[derive(Debug)]
pub struct Reply {
    pub text: String,
    pub paths: Vec<String>,
    pub matched: u64,
    pub returned: usize,
    pub search_us: u64,
}

/// The same as a mathematical value.
#[verifier::ext_equal]
pub struct ReplyView {
    pub text: Seq<char>,
    pub paths: Seq<Seq<char>>,
    pub matched: u64,
    pub returned: nat,
    pub search_us: u64,
}

impl View for Reply {
    type V = ReplyView;

    open spec fn view(&self) -> ReplyView {
        ReplyView {
            text: self.text@,
            paths: crate::text::strings(self.paths@),
            matched: self.matched,
            returned: self.returned as nat,
            search_us: self.search_us,
        }
    }
}

/// The head of an answer.
pub open spec fn head_line(matched: u64, returned: nat, search_us: u64) -> Seq<char> {
    "# matched="@ + crate::text::decimal(matched as nat) + " returned="@ + crate::text::decimal(
        returned,
    ) + " search_us="@ + crate::text::decimal(search_us as nat)
}

/// The answer to a search that found some hits.
pub open spec fn reply_of(
    host: Host,
    hits: Seq<HitView>,
    stats: SearchStats,
    metadata: bool,
    roots: Seq<Seq<char>>,
) -> ReplyView {
    let kept = told(host, hits, roots);
    let head = head_line(stats.matched, kept.len(), stats.wall_us);
    let body = crate::text::join(answer_lines(kept, metadata), '\n');
    ReplyView {
        text: if body.len() == 0 {
            head
        } else {
            head + "\n"@ + body
        },
        paths: crate::client::hit_paths(kept),
        matched: stats.matched,
        returned: kept.len(),
        search_us: stats.wall_us,
    }
}

fn signed_text(n: i64) -> (r: String)
    ensures
        r@ == signed_decimal(n as int),
{
    if n < 0 {
        let rest: u64 = (-(n + 1)) as u64 + 1;
        let digits = crate::text::decimal_text(rest);
        crate::text::joined("-", digits.as_str())
    } else {
        crate::text::decimal_text(n as u64)
    }
}

fn line_chars(h: &SearchHit, metadata: bool) -> (r: Vec<char>)
    ensures
        r@ == answer_line(h@.record, metadata),
{
    if !metadata {
        return crate::text::chars_of(h.record.path.as_str());
    }
    let kind = match h.record.kind {
        FileKind::File => "File",
        FileKind::Dir => "Dir",
        FileKind::Symlink => "Symlink",
        FileKind::Other => "Other",
    };
    let size = crate::text::decimal_text(h.record.size);
    let mtime = signed_text(h.record.mtime);
    let label = h.record.fs.label();
    let a = crate::text::joined3(h.record.path.as_str(), "\t", kind);
    let b = crate::text::joined3(a.as_str(), "\t", size.as_str());
    let c = crate::text::joined3(b.as_str(), "\t", mtime.as_str());
    let d = crate::text::joined3(c.as_str(), "\t", label.as_str());
    crate::text::chars_of(d.as_str())
}

fn keep_told(host: Host, hits: Vec<SearchHit>, roots: &Vec<String>) -> (r: Vec<SearchHit>)
    ensures
        crate::rank::hit_views(r@) == told(
            host,
            crate::rank::hit_views(hits@),
            crate::text::strings(roots@),
        ),
{
    let ghost views = crate::rank::hit_views(hits@);
    let ghost rts = crate::text::strings(roots@);
    let total: usize = hits.len();
    let mut r: Vec<SearchHit> = Vec::new();
    let mut i: usize = 0;
    proof {
        assert(views.take(0) =~= Seq::empty());
        assert(crate::rank::hit_views(r@) =~= Seq::empty());
    }
    for h in it: hits
        invariant
            it.seq() == hits@,
            i == it.index(),
            i <= total == hits@.len(),
            views == crate::rank::hit_views(hits@),
            rts == crate::text::strings(roots@),
            crate::rank::hit_views(r@) == told(host, views.take(i as int), rts),
    {
        let ghost had = crate::rank::hit_views(r@);
        let ghost v = h@;
        proof {
            assert(views[i as int] == v);
            assert(views.take(i + 1).drop_last() =~= views.take(i as int));
        }
        if path_is_allowed(host, h.record.path.as_str(), roots) {
            r.push(h);
            assert(crate::rank::hit_views(r@) =~= had.push(v));
        }
        i = i + 1;
    }
    assert(views.take(i as int) =~= views);
    r
}

/// Makes the answer to a search. The query was held to the allowed roots already; what is
/// told is held to them once more.
pub fn reply(host: Host, hits: Vec<SearchHit>, stats: SearchStats, metadata: bool, roots: &Vec<
    String,
>) -> (r: Reply)
    ensures
        r@ == reply_of(
            host,
            crate::rank::hit_views(hits@),
            stats,
            metadata,
            crate::text::strings(roots@),
        ),
{
    let kept = keep_told(host, hits, roots);
    let ghost views = crate::rank::hit_views(kept@);
    let mut lines: Vec<Vec<char>> = Vec::new();
    let mut i: usize = 0;
    while i < kept.len()
        invariant
            i <= kept@.len(),
            lines@.len() == i,
            forall|k: int|
                0 <= k < i ==> (#[trigger] lines@[k])@ == answer_line(kept@[k]@.record, metadata),
        decreases kept@.len() - i,
    {
        lines.push(line_chars(&kept[i], metadata));
        i += 1;
    }
    assert(crate::text::texts(lines@) =~= answer_lines(views, metadata));
    let body = crate::text::join_parts(lines.as_slice(), '\n');
    let returned: usize = kept.len();
    let matched = crate::text::decimal_text(stats.matched);
    let count = crate::text::decimal_text(returned as u64);
    let us = crate::text::decimal_text(stats.wall_us);
    let a = crate::text::joined3("# matched=", matched.as_str(), " returned=");
    let b = crate::text::joined3(a.as_str(), count.as_str(), " search_us=");
    let head = crate::text::joined(b.as_str(), us.as_str());
    let paths = crate::client::paths_of(&kept);
    let text = if body.len() == 0 {
        head
    } else {
        let body_text = crate::text::string_of(body.as_slice());
        crate::text::joined3(head.as_str(), "\n", body_text.as_str())
    };
    Reply { text, paths, matched: stats.matched, returned, search_us: stats.wall_us }
}

impl Store {
    /// Its parts are sound.
    pub open spec fn wf(&self) -> bool {
        match self {
            Store::Compact(base, delta) => base.wf() && (delta matches Some(d) ==> d.wf()),
            Store::Legacy(_) => true,
        }
    }

    /// `hits` and `stats` are an answer of the store to a query.
    pub open spec fn answers(&self, q: QueryView, hits: Seq<HitView>, stats: SearchStats) -> bool {
        match self {
            Store::Compact(base, delta) => crate::compact_index::search_answer(
                base@,
                match delta {
                    Some(d) => d@.overlay,
                    None => crate::delta::no_changes(),
                },
                q,
                hits,
                stats,
            ),
            Store::Legacy(index) => {
                let found = crate::index::hits_among(q, index@.records);
                &&& crate::index::answers(crate::index::index_ranking(q), q.limit, found, hits)
                &&& stats.scanned == index@.records.len()
                &&& stats.matched == found.len()
            },
        }
    }

    /// The store cannot answer a query.
    pub open spec fn fails(&self, q: QueryView) -> Option<IndexError> {
        match self {
            Store::Compact(base, delta) => crate::compact_index::search_error(
                base@,
                match delta {
                    Some(d) => d@.overlay,
                    None => crate::delta::no_changes(),
                },
                q,
            ),
            Store::Legacy(_) => None,
        }
    }

    /// How many records there are.
    pub fn len(&self) -> (r: u64)
        ensures
            r == match self {
                Store::Compact(base, _) => base@.record_count as nat,
                Store::Legacy(index) => index@.records.len(),
            },
    {
        match self {
            Store::Compact(base, _) => base.len(),
            Store::Legacy(index) => index.len() as u64,
        }
    }

    /// What the store is.
    pub open spec fn kind_text(&self) -> Seq<char> {
        match self {
            Store::Compact(_, Some(_)) => "compact-mmap+delta"@,
            Store::Compact(_, None) => "compact-mmap"@,
            Store::Legacy(_) => "legacy-resident"@,
        }
    }

    /// What the store is.
    pub fn kind(&self) -> (r: String)
        ensures
            r@ == self.kind_text(),
    {
        match self {
            Store::Compact(_, Some(_)) => "compact-mmap+delta".to_owned(),
            Store::Compact(_, None) => "compact-mmap".to_owned(),
            Store::Legacy(_) => "legacy-resident".to_owned(),
        }
    }

    /// Searches the store.
    pub fn search(&self, q: &Query) -> (r: Result<(Vec<SearchHit>, SearchStats), IndexError>)
        requires
            self.wf(),
        ensures
            match r {
                Ok((hits, stats)) => self.answers(q@, crate::rank::hit_views(hits@), stats),
                Err(e) => self.fails(q@) == Some(e),
            },
    {
        match self {
            Store::Compact(base, delta) => match delta {
                Some(d) => base.search_with_delta(q, d),
                None => base.search(q),
            },
            Store::Legacy(index) => Ok(index.search(q)),
        }
    }
}

/// The query that the search tool asks.
pub fn search_query(host: Host, raw: &str, limit: Option<u64>, roots: &Vec<String>) -> (r: Query)
    ensures
        r@ == tool_query(host, raw@, limit, crate::text::strings(roots@)),
{
    let mut q = Query::parse(raw);
    q.limit = match limit {
        Some(n) => if n < 1 {
            1
        } else if n > 1_000 {
            1_000
        } else {
            n as usize
        },
        None => 50,
    };
    let mut scope: Vec<String> = Vec::new();
    let mut i: usize = 0;
    while i < roots.len()
        invariant
            i <= roots@.len(),
            scope@.len() == i,
            forall|k: int| 0 <= k < i ==> (#[trigger] scope@[k])@ == roots@[k]@,
        decreases roots@.len() - i,
    {
        scope.push(roots[i].clone());
        i += 1;
    }
    assert(crate::text::strings(scope@) =~= crate::text::strings(roots@));
    q.scope_roots = scope;
    q.scope_case_sensitive = host.case_sensitive();
    assert(q@ =~= tool_query(host, raw@, limit, crate::text::strings(roots@)));
    q
}

/// Answers the search tool. An error is what is told of it.
pub fn call_search(
    host: Host,
    store: &Store,
    raw: &str,
    limit: Option<u64>,
    metadata: bool,
    roots: &Vec<String>,
) -> (r: Result<Reply, String>)
    requires
        store.wf(),
    ensures
        ({
            let rts = crate::text::strings(roots@);
            let q = tool_query(host, raw@, limit, rts);
            match r {
                Ok(reply) => exists|hits: Seq<HitView>, stats: SearchStats| #[trigger]
                    store.answers(q, hits, stats) && reply@ == reply_of(
                        host,
                        hits,
                        stats,
                        metadata,
                        rts,
                    ),
                Err(e) => store.fails(q) is Some && e@ == "index search failed: "@ + store.fails(
                    q,
                )->0.text(),
            }
        }),
{
    let q = search_query(host, raw, limit, roots);
    match store.search(&q) {
        Ok((hits, stats)) => Ok(reply(host, hits, stats, metadata, roots)),
        Err(e) => {
            let why = e.message();
            Err(crate::text::joined("index search failed: ", why.as_str()))
        },
    }
}

/// What the status tool tells.
pub fn status_text(records: u64, kind: &str, bytes: u64) -> (r: String)
    ensures
        r@ == crate::text::decimal(records as nat) + " indexed entries; "@ + kind@ + " store; "@
            + crate::text::decimal(bytes as nat) + " bytes"@,
{
    let n = crate::text::decimal_text(records);
    let b = crate::text::decimal_text(bytes);
    let a = crate::text::joined3(n.as_str(), " indexed entries; ", kind);
    crate::text::joined3(crate::text::joined(a.as_str(), " store; ").as_str(), b.as_str(), " bytes")
}

proof fn lemma_told(host: Host, hits: Seq<HitView>, roots: Seq<Seq<char>>, i: int)
    requires
        0 <= i < told(host, hits, roots).len(),
    ensures
        allowed(host, told(host, hits, roots)[i].record.path, roots),
    decreases hits.len(),
{
    if hits.len() > 0 && i < told(host, hits.drop_last(), roots).len() {
        lemma_told(host, hits.drop_last(), roots, i);
    }
}

/// Whatever is asked for, and whatever the store finds, an answer only tells of paths that
/// are allowed.
pub proof fn law_replies_stay_in_the_allowed_roots(
    host: Host,
    hits: Seq<HitView>,
    stats: SearchStats,
    metadata: bool,
    roots: Seq<Seq<char>>,
    i: int,
)
    requires
        0 <= i < reply_of(host, hits, stats, metadata, roots).paths.len(),
    ensures
        allowed(host, reply_of(host, hits, stats, metadata, roots).paths[i], roots),
{
    lemma_told(host, hits, roots, i);
}

} // verus!
