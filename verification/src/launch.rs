//! How the window finds, trusts and starts its helper, what it makes of failures, and where
//! it keeps its files.

use crate::host::Host;
use crate::proto::HelperMsg;
use crate::text::Separator;
use vstd::prelude::*;

verus! {

/// A path without a prefix, with another last name.
pub open spec fn renamed(
    path: Seq<char>,
    sep: Separator,
    joint: char,
    name: Seq<char>,
) -> Seq<char> {
    let p = crate::files::to_last_name(path, sep);
    let last = p.skip(crate::files::name_start(p, sep));
    let head = if last.len() == 0 || last == seq!['.'] || last == seq!['.', '.'] {
        path
    } else {
        p.take(crate::files::name_start(p, sep))
    };
    joined_path(crate::files::to_last_name(head, sep), head, sep, joint, name)
}

/// A name behind a folder. `folder` is `head` without what follows its last name.
pub open spec fn joined_path(
    folder: Seq<char>,
    head: Seq<char>,
    sep: Separator,
    joint: char,
    name: Seq<char>,
) -> Seq<char> {
    if folder.len() > 0 {
        folder.push(joint) + name
    } else if head.len() > 0 && sep.has(head[0]) {
        seq![head[0]] + name
    } else {
        name
    }
}

/// The path with another last name.
pub open spec fn with_file_name(host: Host, path: Seq<char>, name: Seq<char>) -> Seq<char> {
    crate::host::written_prefix(host, path) + renamed(
        crate::host::unprefixed(host, path),
        crate::host::separator_of(host, path),
        crate::host::joint(host),
        name,
    )
}

fn rename(path: &[char], sep: Separator, joint: char, name: &str) -> (out: Vec<char>)
    ensures
        out@ == renamed(path@, sep, joint, name@),
{
    let end: usize = crate::files::last_name_end(path, sep);
    let p = crate::text::part(path, 0, end);
    let ghost q = crate::files::to_last_name(path@, sep);
    assert(p@ =~= q);
    let start: usize = crate::files::last_name_start(p.as_slice(), sep);
    let last = crate::text::part(p.as_slice(), start, p.len());
    assert(last@ =~= q.skip(crate::files::name_start(q, sep)));
    let plain: bool = last.len() == 0 || (last.len() == 1 && last[0] == '.') || (last.len() == 2
        && last[0] == '.' && last[1] == '.');
    proof {
        if last@.len() == 1 && last@[0] == '.' {
            assert(last@ =~= seq!['.']);
        }
        if last@.len() == 2 && last@[0] == '.' && last@[1] == '.' {
            assert(last@ =~= seq!['.', '.']);
        }
    }
    let head = if plain {
        crate::text::part(path, 0, path.len())
    } else {
        crate::text::part(p.as_slice(), 0, start)
    };
    assert(plain ==> head@ =~= path@);
    assert(!plain ==> head@ =~= q.take(crate::files::name_start(q, sep)));
    let n: usize = crate::files::last_name_end(head.as_slice(), sep);
    let mut out = crate::text::part(head.as_slice(), 0, n);
    assert(out@ =~= crate::files::to_last_name(head@, sep));
    if n > 0 {
        out.push(joint);
    } else if head.len() > 0 && sep.test(head[0]) {
        out.push(head[0]);
    }
    let tail = crate::text::chars_of(name);
    crate::text::push_all(&mut out, tail.as_slice());
    assert(out@ =~= renamed(path@, sep, joint, name@));
    out
}

/// Puts another last name to a path.
pub fn set_file_name(host: Host, path: &str, name: &str) -> (r: String)
    ensures
        r@ == with_file_name(host, path@, name@),
{
    let chars = crate::text::chars_of(path);
    let (front, rest, sep): (Vec<char>, Vec<char>, Separator) = crate::host::without_prefix(
        host,
        chars.as_slice(),
    );
    let tail = rename(rest.as_slice(), sep, crate::host::joint_of(host), name);
    let mut out = front;
    crate::text::push_all(&mut out, tail.as_slice());
    assert(out@ =~= with_file_name(host, path@, name@));
    crate::text::string_of(out.as_slice())
}

/// The file name of the helper.
pub open spec fn helper_name(host: Host) -> Seq<char> {
    if host == Host::Windows {
        "neutrasearch-helper.exe"@
    } else {
        "neutrasearch-helper"@
    }
}

/// What an optional text is.
pub open spec fn some_text(t: Option<String>) -> Option<Seq<char>> {
    match t {
        Some(s) => Some(s@),
        None => None,
    }
}

/// The helper to start. One that the environment names is never started with
/// administrator rights, and with those only a trusted one is.
pub open spec fn helper_choice(
    host: Host,
    configured: Option<Seq<char>>,
    current_exe: Option<Seq<char>>,
    elevated: bool,
    trusted: Option<Seq<char>>,
) -> Result<Seq<char>, Seq<char>> {
    if elevated && configured is Some {
        Err(
            "refusing to elevate a helper selected through NEUTRASEARCH_HELPER; install a trusted system helper"@,
        )
    } else if elevated {
        match trusted {
            Some(h) => Ok(h),
            None => Err(
                "no trusted administrator helper is installed; reinstall Neutrasearch system-wide"@,
            ),
        }
    } else {
        match configured {
            Some(h) => Ok(h),
            None => match current_exe {
                Some(exe) => Ok(with_file_name(host, exe, helper_name(host))),
                None => Ok("neutrasearch-helper"@),
            },
        }
    }
}

/// Chooses the helper to start. `trusted` is the first installed helper that was found to be
/// trusted.
pub fn select_helper(
    host: Host,
    configured: Option<String>,
    current_exe: Option<String>,
    elevated: bool,
    trusted: Option<String>,
) -> (r: Result<String, String>)
    ensures
        ({
            let x = helper_choice(
                host,
                some_text(configured),
                some_text(current_exe),
                elevated,
                some_text(trusted),
            );
            match r {
                Ok(h) => x == Ok::<Seq<char>, Seq<char>>(h@),
                Err(e) => x == Err::<Seq<char>, Seq<char>>(e@),
            }
        }),
{
    if elevated && configured.is_some() {
        return Err(
            "refusing to elevate a helper selected through NEUTRASEARCH_HELPER; install a trusted system helper".to_owned(),
        );
    }
    if elevated {
        return match trusted {
            Some(h) => Ok(h),
            None => Err(
                "no trusted administrator helper is installed; reinstall Neutrasearch system-wide".to_owned(),
            ),
        };
    }
    match configured {
        Some(h) => Ok(h),
        None => match current_exe {
            Some(exe) => {
                let name = match host {
                    Host::Windows => "neutrasearch-helper.exe",
                    _ => "neutrasearch-helper",
                };
                Ok(set_file_name(host, exe.as_str(), name))
            },
            None => Ok("neutrasearch-helper".to_owned()),
        },
    }
}

/// A helper from the environment never gets administrator rights.
pub proof fn law_configured_helpers_are_never_elevated(
    host: Host,
    configured: Seq<char>,
    current_exe: Option<Seq<char>>,
    trusted: Option<Seq<char>>,
)
    ensures
        helper_choice(host, Some(configured), current_exe, true, trusted) is Err,
{
}

/// Whom a file or folder belongs to, what it is, and who may change it.
#[derive(Debug, Clone, Copy, PartialEq, Eq, Structural)]
pub struct Ownership {
    pub expected_kind: bool,
    pub uid: u32,
    pub mode: u32,
}

/// Only the administrator can change it.
pub open spec fn is_protected(o: Ownership) -> bool {
    o.expected_kind && o.uid == 0 && o.mode & 0o022 == 0
}

fn protected(o: Ownership) -> (r: bool)
    ensures
        r == is_protected(o),
{
    o.expected_kind && o.uid == 0 && o.mode & 0o022 == 0
}

/// A folder around a helper.
#[derive(Debug)]
pub struct Around {
    pub path: String,
    pub owner: Ownership,
}

/// The path is in one of the folders of installed programs.
pub open spec fn in_system_place(path: Seq<char>) -> bool {
    ||| crate::host::path_starts_with(Host::Linux, path, "/usr/local/lib/neutrasearch"@)
    ||| crate::host::path_starts_with(Host::Linux, path, "/usr/lib/neutrasearch"@)
    ||| crate::host::path_starts_with(Host::Linux, path, "/usr/local/bin"@)
}

/// The first folder that someone else can change.
pub open spec fn first_open(around: Seq<Around>) -> Option<Seq<char>>
    decreases around.len(),
{
    if around.len() == 0 {
        None
    } else if !is_protected(around[0].owner) {
        Some(around[0].path@)
    } else {
        first_open(around.skip(1))
    }
}

/// Why a helper is not trusted with administrator rights.
pub open spec fn distrust(path: Seq<char>, owner: Ownership, around: Seq<Around>) -> Option<Seq<char>> {
    if !in_system_place(path) {
        Some("refusing helper outside trusted system locations: "@ + path)
    } else if !is_protected(owner) {
        Some(
            "refusing to elevate untrusted helper "@ + path
                + "; it must be a root-owned regular file not writable by group/others"@,
        )
    } else {
        match first_open(around) {
            Some(d) => Some("refusing helper beneath untrusted directory "@ + d),
            None => None,
        }
    }
}

/// Decides whether an installed helper is trusted with administrator rights. The path is
/// resolved, and `around` are its folders, the innermost first.
pub fn validate_elevated_helper(path: &str, owner: Ownership, around: &Vec<Around>) -> (r: Result<
    (),
    String,
>)
    ensures
        match r {
            Ok(_) => distrust(path@, owner, around@) is None,
            Err(e) => distrust(path@, owner, around@) == Some(e@),
        },
{
    let chars = crate::text::chars_of(path);
    let a = crate::text::chars_of("/usr/local/lib/neutrasearch");
    let b = crate::text::chars_of("/usr/lib/neutrasearch");
    let c = crate::text::chars_of("/usr/local/bin");
    if !crate::host::begins_with(Host::Linux, chars.as_slice(), a.as_slice()) && !crate::host::begins_with(
        Host::Linux,
        chars.as_slice(),
        b.as_slice(),
    ) && !crate::host::begins_with(Host::Linux, chars.as_slice(), c.as_slice()) {
        return Err(
            crate::text::joined("refusing helper outside trusted system locations: ", path),
        );
    }
    if !protected(owner) {
        return Err(
            crate::text::joined3(
                "refusing to elevate untrusted helper ",
                path,
                "; it must be a root-owned regular file not writable by group/others",
            ),
        );
    }
    let mut i: usize = 0;
    assert(around@.skip(0) =~= around@);
    while i < around.len()
        invariant
            i <= around@.len(),
            in_system_place(path@),
            is_protected(owner),
            first_open(around@.skip(i as int)) == first_open(around@),
        decreases around@.len() - i,
    {
        proof {
            assert(around@.skip(i as int)[0] == around@[i as int]);
            assert(around@.skip(i as int).skip(1) =~= around@.skip(i + 1));
        }
        if !protected(around[i].owner) {
            return Err(
                crate::text::joined(
                    "refusing helper beneath untrusted directory ",
                    around[i].path.as_str(),
                ),
            );
        }
        i += 1;
    }
    Ok(())
}

/// What is said when the helper did not start. A missing authorization prompt becomes
/// something that the user can act on.
pub open spec fn start_failure(summary: Seq<char>, stderr: Seq<char>) -> Seq<char> {
    let detail = crate::text::trim(stderr);
    if crate::text::first_occurrence(detail, "textual authentication agent"@) is Some
        || crate::text::first_occurrence(detail, "current controlling terminal"@) is Some {
        "administrator approval could not open in this desktop session; launch Neutrasearch from the desktop and try again"@
    } else if detail.len() == 0 {
        summary
    } else {
        summary + ": "@ + detail
    }
}

/// Says why the helper did not start.
pub fn helper_start_failure(summary: &str, stderr: &str) -> (r: String)
    ensures
        r@ == start_failure(summary@, stderr@),
{
    let chars = crate::text::chars_of(stderr);
    let detail = crate::text::trimmed(chars.as_slice());
    if crate::text::contains_text(detail.as_slice(), "textual authentication agent")
        || crate::text::contains_text(detail.as_slice(), "current controlling terminal") {
        return "administrator approval could not open in this desktop session; launch Neutrasearch from the desktop and try again".to_owned();
    }
    if detail.len() == 0 {
        return summary.to_owned();
    }
    let text = crate::text::string_of(detail.as_slice());
    crate::text::joined3(summary, ": ", text.as_str())
}

/// How many bytes of what the helper reports are kept.
pub const MAX_REPORT_BYTES: usize = 8192;

/// The longest front part of a text that fits in some bytes.
pub open spec fn fitting(s: Seq<char>, limit: nat) -> Seq<char>
    decreases s.len(),
{
    if s.len() == 0 || vstd::utf8::encode_utf8(s).len() <= limit {
        s
    } else {
        fitting(s.drop_last(), limit)
    }
}

/// What is kept of the reports of the helper once there is one more line.
pub open spec fn report_with(text: Seq<char>, line: Seq<char>) -> Seq<char> {
    if vstd::utf8::encode_utf8(text).len() >= MAX_REPORT_BYTES {
        text
    } else if text.len() == 0 {
        fitting(line, MAX_REPORT_BYTES as nat)
    } else {
        fitting(text.push('\n') + line, MAX_REPORT_BYTES as nat)
    }
}

fn cut_to_fit(s: Vec<char>, limit: usize) -> (r: String)
    ensures
        r@ == fitting(s@, limit as nat),
{
    let mut s = s;
    let ghost given = s@;
    let mut text = crate::text::string_of(s.as_slice());
    let mut size: usize = text.as_str().as_bytes().len();
    while s.len() > 0 && size > limit
        invariant
            text@ == s@,
            size == vstd::utf8::encode_utf8(text@).len(),
            fitting(s@, limit as nat) == fitting(given, limit as nat),
        decreases s@.len(),
    {
        let ghost was = s@;
        s.pop();
        assert(s@ =~= was.drop_last());
        text = crate::text::string_of(s.as_slice());
        size = text.as_str().as_bytes().len();
    }
    text
}

/// Keeps one more line of what the helper reports, up to a limit.
pub fn keep_report(text: &str, line: &str) -> (r: String)
    ensures
        r@ == report_with(text@, line@),
{
    let size: usize = text.as_bytes().len();
    if size >= MAX_REPORT_BYTES {
        return text.to_owned();
    }
    let mut chars = crate::text::chars_of(text);
    if chars.len() > 0 {
        chars.push('\n');
    }
    let tail = crate::text::chars_of(line);
    crate::text::push_all(&mut chars, tail.as_slice());
    proof {
        if text@.len() == 0 {
            assert(chars@ =~= line@);
        } else {
            assert(chars@ =~= text@.push('\n') + line@);
        }
    }
    cut_to_fit(chars, MAX_REPORT_BYTES)
}

/// The scanner stopped before it was done.
pub open spec fn stopped_early(status: Option<Seq<char>>) -> Seq<char> {
    match status {
        Some(s) => "the native scanner stopped before completing"@ + (" ("@ + s + ")"@),
        None => "the native scanner stopped before completing"@,
    }
}

/// Says that the scanner stopped before it was done.
pub fn early_stop(status: Option<&str>) -> (r: String)
    ensures
        r@ == stopped_early(
            match status {
                Some(s) => Some(s@),
                None => None,
            },
        ),
{
    match status {
        Some(s) => {
            let tail = crate::text::joined3(" (", s, ")");
            crate::text::joined("the native scanner stopped before completing", tail.as_str())
        },
        None => "the native scanner stopped before completing".to_owned(),
    }
}

/// Whether a message is the last of a scan.
pub fn ends_scan(message: &HelperMsg) -> (r: bool)
    ensures
        r == (message@ is ScanComplete),
{
    match message {
        HelperMsg::ScanComplete { .. } => true,
        _ => false,
    }
}

/// What came of a scan once the scanner is gone: it has failed unless its last message came.
pub fn scan_outcome(completed: bool, status: Option<&str>) -> (r: Result<(), String>)
    ensures
        r is Ok <==> completed,
        r matches Err(e) ==> e@ == stopped_early(
            match status {
                Some(s) => Some(s@),
                None => None,
            },
        ),
{
    if completed {
        Ok(())
    } else {
        Err(early_stop(status))
    }
}

/// At least one lane of a scan was reached.
pub open spec fn some_lane_reached(mounts: u32, errors: u32) -> bool {
    mounts > 0 && errors < mounts
}

/// Whether at least one lane of a scan was reached: what it found then replaces the old
/// records, even where it found nothing.
pub fn scan_has_reachable_lane(mounts: u32, errors: u32) -> (r: bool)
    ensures
        r == some_lane_reached(mounts, errors),
{
    mounts > 0 && errors < mounts
}

/// The message is about a server that is not there at the moment.
pub open spec fn sounds_offline(message: Seq<char>) -> bool {
    let m = crate::text::ascii_lower_all(message);
    ||| crate::text::first_occurrence(m, "connection timed out"@) is Some
    ||| crate::text::first_occurrence(m, "connection refused"@) is Some
    ||| crate::text::first_occurrence(m, "no route to host"@) is Some
    ||| crate::text::first_occurrence(m, "network is unreachable"@) is Some
    ||| crate::text::first_occurrence(m, "could not resolve hostname"@) is Some
    ||| crate::text::first_occurrence(m, "name or service not known"@) is Some
    ||| crate::text::first_occurrence(m, "operation timed out"@) is Some
}

/// Whether a failure is only that the server is not there at the moment.
pub fn remote_failure_is_offline(message: &str) -> (r: bool)
    ensures
        r == sounds_offline(message@),
{
    let chars = crate::text::chars_of(message);
    let m = crate::text::lowered(chars.as_slice());
    crate::text::contains_text(m.as_slice(), "connection timed out") || crate::text::contains_text(
        m.as_slice(),
        "connection refused",
    ) || crate::text::contains_text(m.as_slice(), "no route to host")
        || crate::text::contains_text(m.as_slice(), "network is unreachable")
        || crate::text::contains_text(m.as_slice(), "could not resolve hostname")
        || crate::text::contains_text(m.as_slice(), "name or service not known")
        || crate::text::contains_text(m.as_slice(), "operation timed out")
}

// ---------------------------------------------------------------------------
// Watching servers

/// How long to wait before a server is tried again, in seconds.
pub const RETRY_SECONDS: u64 = 30;

/// The servers that need no further try, and those that are known to be away.
pub struct ServerWatch {
    ready: Vec<String>,
    waiting: Vec<String>,
}

/// The same as a mathematical value.
#[verifier::ext_equal]
pub struct ServerWatchView {
    pub ready: Set<Seq<char>>,
    pub waiting: Set<Seq<char>>,
}

impl View for ServerWatch {
    type V = ServerWatchView;

    closed spec fn view(&self) -> ServerWatchView {
        ServerWatchView {
            ready: crate::text::strings(self.ready@).to_set(),
            waiting: crate::text::strings(self.waiting@).to_set(),
        }
    }
}

/// What is shown of a server.
#[derive(Debug)]
pub struct RemoteNote {
    pub status: String,
    pub error: bool,
}

/// What came of setting a server up.
#[derive(Debug)]
pub enum SetUp {
    /// The helper runs there: the names of its system and its processor.
    Ready { os: String, arch: String },
    Failed(String),
}

/// What is shown of a server that was tried, and what is remembered of it.
pub open spec fn tried(w: ServerWatchView, key: Seq<char>, r: SetUp) -> (
    ServerWatchView,
    Option<(Seq<char>, bool)>,
) {
    match r {
        SetUp::Ready { os, arch } => (
            ServerWatchView { ready: w.ready.insert(key), waiting: w.waiting.remove(key) },
            Some(
                (
                    "helper build "@ + crate::text::decimal(crate::proto::HELPER_BUILD as nat)
                        + " ready ("@ + (os@ + "/"@ + arch@) + ")"@,
                    false,
                ),
            ),
        ),
        SetUp::Failed(e) => if sounds_offline(e@) {
            (
                ServerWatchView { waiting: w.waiting.insert(key), ..w },
                if w.waiting.contains(key) {
                    None
                } else {
                    Some(("offline; waiting to retry when the server is available"@, false))
                },
            )
        } else {
            (
                ServerWatchView { ready: w.ready.insert(key), ..w },
                Some(("network helper needs attention: "@ + e@, true)),
            )
        },
    }
}

fn listed(v: &Vec<String>, key: &str) -> (r: Option<usize>)
    ensures
        match r {
            Some(i) => i < v@.len() && v@[i as int]@ == key@ && crate::text::strings(v@).contains(
                key@,
            ),
            None => !crate::text::strings(v@).contains(key@),
        },
{
    let ghost s = crate::text::strings(v@);
    let mut i: usize = 0;
    while i < v.len()
        invariant
            i <= v@.len(),
            s == crate::text::strings(v@),
            forall|k: int| 0 <= k < i ==> #[trigger] s[k] != key@,
        decreases v@.len() - i,
    {
        assert(s[i as int] == v@[i as int]@);
        if crate::text::same_text(v[i].as_str(), key) {
            return Some(i);
        }
        i += 1;
    }
    None
}

fn note_down(v: &mut Vec<String>, key: &str) -> (fresh: bool)
    ensures
        crate::text::strings(final(v)@).to_set() == crate::text::strings(old(v)@).to_set().insert(
            key@,
        ),
        fresh == !crate::text::strings(old(v)@).to_set().contains(key@),
{
    let ghost before = crate::text::strings(v@);
    if listed(v, key).is_some() {
        assert(before.to_set() =~= before.to_set().insert(key@));
        return false;
    }
    v.push(key.to_owned());
    proof {
        assert(crate::text::strings(v@) =~= before.push(key@));
        lemma_push_set(before, key@);
    }
    true
}

fn strike_out(v: &mut Vec<String>, key: &str)
    ensures
        crate::text::strings(final(v)@).to_set() == crate::text::strings(old(v)@).to_set().remove(
            key@,
        ),
{
    let ghost before = crate::text::strings(v@);
    let mut out: Vec<String> = Vec::new();
    let mut i: usize = 0;
    assert(crate::text::strings(out@).to_set() =~= before.take(0).to_set().remove(key@));
    while i < v.len()
        invariant
            i <= v@.len(),
            v@ == old(v)@,
            before == crate::text::strings(v@),
            crate::text::strings(out@).to_set() == before.take(i as int).to_set().remove(key@),
        decreases v@.len() - i,
    {
        let ghost had = crate::text::strings(out@);
        let ghost here = before[i as int];
        proof {
            assert(here == v@[i as int]@);
            assert(before.take(i + 1) =~= before.take(i as int).push(here));
            lemma_push_set(before.take(i as int), here);
            lemma_push_set(had, here);
        }
        if !crate::text::same_text(v[i].as_str(), key) {
            out.push(v[i].clone());
            proof {
                assert(crate::text::strings(out@) =~= had.push(here));
                assert(before.take(i as int).to_set().remove(key@).insert(here)
                    =~= before.take(i as int).to_set().insert(here).remove(key@));
            }
        } else {
            assert(before.take(i as int).to_set().remove(key@) =~= before.take(
                i as int,
            ).to_set().insert(here).remove(key@));
        }
        i += 1;
    }
    assert(before.take(i as int) =~= before);
    *v = out;
}

proof fn lemma_push_set(s: Seq<Seq<char>>, x: Seq<char>)
    ensures
        s.push(x).to_set() == s.to_set().insert(x),
{
    assert forall|k: Seq<char>| s.push(x).to_set().contains(k) == s.to_set().insert(x).contains(
        k,
    ) by {
        if s.contains(k) {
            assert(s.push(x)[s.index_of(k)] == k);
        }
        if k == x {
            assert(s.push(x)[s.len() as int] == k);
        }
        if s.push(x).contains(k) {
            let i = s.push(x).index_of(k);
            if i < s.len() {
                assert(s[i] == k);
            }
        }
    }
    assert(s.push(x).to_set() =~= s.to_set().insert(x));
}

impl ServerWatch {
    /// Nothing is known yet.
    pub fn new() -> (r: ServerWatch)
        ensures
            r@ == (ServerWatchView { ready: Set::empty(), waiting: Set::empty() }),
    {
        let r = ServerWatch { ready: Vec::new(), waiting: Vec::new() };
        assert(r@.ready =~= Set::empty());
        assert(r@.waiting =~= Set::empty());
        r
    }

    /// Whether a server is to be tried now. `since` is how many seconds ago it was tried.
    pub fn is_due(&self, key: &str, since: Option<u64>) -> (r: bool)
        ensures
            r == (!self@.ready.contains(key@) && !(since matches Some(s) && s < RETRY_SECONDS)),
    {
        if listed(&self.ready, key).is_some() {
            return false;
        }
        match since {
            Some(s) => s >= RETRY_SECONDS,
            None => true,
        }
    }

    /// Remembers what came of setting a server up, and says what is shown of it.
    pub fn record(&mut self, key: &str, result: SetUp) -> (r: Option<RemoteNote>)
        ensures
            final(self)@ == tried(old(self)@, key@, result).0,
            match r {
                Some(n) => tried(old(self)@, key@, result).1 == Some((n.status@, n.error)),
                None => tried(old(self)@, key@, result).1 is None,
            },
    {
        match result {
            SetUp::Ready { os, arch } => {
                note_down(&mut self.ready, key);
                strike_out(&mut self.waiting, key);
                let build = crate::text::decimal_text(crate::proto::HELPER_BUILD as u64);
                let head = crate::text::joined3("helper build ", build.as_str(), " ready (");
                let names = crate::text::joined3(os.as_str(), "/", arch.as_str());
                Some(
                    RemoteNote {
                        status: crate::text::joined3(head.as_str(), names.as_str(), ")"),
                        error: false,
                    },
                )
            },
            SetUp::Failed(e) => {
                if remote_failure_is_offline(e.as_str()) {
                    let fresh: bool = note_down(&mut self.waiting, key);
                    if fresh {
                        Some(
                            RemoteNote {
                                status: "offline; waiting to retry when the server is available".to_owned(),
                                error: false,
                            },
                        )
                    } else {
                        None
                    }
                } else {
                    let fresh: bool = note_down(&mut self.ready, key);
                    Some(
                        RemoteNote {
                            status: crate::text::joined(
                                "network helper needs attention: ",
                                e.as_str(),
                            ),
                            error: true,
                        },
                    )
                }
            },
        }
    }
}

// ---------------------------------------------------------------------------
// Opening files

/// The folder of a path; the path itself where there is nothing above it.
pub open spec fn folder_above(path: Seq<char>) -> Seq<char> {
    let slash = Separator::Char('/');
    let p = crate::files::to_last_name(path, slash);
    let head = p.take(crate::files::name_start(p, slash));
    let above = crate::files::to_last_name(head, slash);
    if p.len() == 0 {
        path
    } else if above.len() == 0 && head.len() > 0 {
        "/"@
    } else {
        above
    }
}

/// The program and its arguments that open a file, or show it in its folder.
pub open spec fn opener(host: Host, reveal: bool, path: Seq<char>) -> (Seq<char>, Seq<Seq<char>>) {
    match host {
        Host::Windows => (
            "explorer.exe"@,
            seq![
                if reveal {
                    "/select,"@ + path
                } else {
                    path
                },
            ],
        ),
        Host::MacOs => (
            "open"@,
            if reveal {
                seq!["-R"@, path]
            } else {
                seq![path]
            },
        ),
        Host::Linux => (
            "xdg-open"@,
            seq![
                if reveal {
                    folder_above(path)
                } else {
                    path
                },
            ],
        ),
    }
}

fn above(path: &str) -> (r: String)
    ensures
        r@ == folder_above(path@),
{
    let chars = crate::text::chars_of(path);
    let slash = Separator::Char('/');
    let keep: usize = crate::files::last_name_end(chars.as_slice(), slash);
    let p = crate::text::part(chars.as_slice(), 0, keep);
    assert(p@ =~= crate::files::to_last_name(path@, slash));
    if p.len() == 0 {
        return path.to_owned();
    }
    let start: usize = crate::files::last_name_start(p.as_slice(), slash);
    let head = crate::text::part(p.as_slice(), 0, start);
    assert(head@ =~= p@.take(start as int));
    let n: usize = crate::files::last_name_end(head.as_slice(), slash);
    let above = crate::text::part(head.as_slice(), 0, n);
    assert(above@ =~= crate::files::to_last_name(head@, slash));
    if above.len() == 0 && head.len() > 0 {
        "/".to_owned()
    } else {
        crate::text::string_of(above.as_slice())
    }
}

/// Finds the program and its arguments that open a file, or show it in its folder.
pub fn file_action(host: Host, reveal: bool, path: &str) -> (r: (String, Vec<String>))
    ensures
        (r.0@, crate::text::strings(r.1@)) == opener(host, reveal, path@),
{
    let mut args: Vec<String> = Vec::new();
    let program = match host {
        Host::Windows => {
            if reveal {
                args.push(crate::text::joined("/select,", path));
            } else {
                args.push(path.to_owned());
            }
            "explorer.exe"
        },
        Host::MacOs => {
            if reveal {
                args.push("-R".to_owned());
            }
            args.push(path.to_owned());
            "open"
        },
        Host::Linux => {
            if reveal {
                args.push(above(path));
            } else {
                args.push(path.to_owned());
            }
            "xdg-open"
        },
    };
    assert(crate::text::strings(args@) =~= opener(host, reveal, path@).1);
    (program.to_owned(), args)
}

} // verus!
