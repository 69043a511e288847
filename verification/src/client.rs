//! The scriptable client: it opens an index to read only, and never scans anything.

use crate::compact_index::{CompactIndex, CompactView, IndexError};
use crate::delta::{DeltaIndex, OverlayView};
use crate::host::Host;
use crate::query::{Query, QueryView};
use crate::rank::{HitView, SearchHit, SearchStats};
use crate::types::{FileKind, RecordView};
use vstd::prelude::*;

verus! {

/// A request for a search.
pub struct Request {
    pub query: String,
    pub limit: Option<usize>,
    pub metadata: Option<bool>,
    pub scope_roots: Vec<String>,
    pub scope_case_sensitive: Option<bool>,
}

/// What is told of a hit.
#[derive(Debug)]
pub struct ResponseRecord {
    pub path: String,
    pub kind: String,
    pub size: u64,
    pub mtime: i64,
    pub fs: String,
}

/// The same as a mathematical value.
#[verifier::ext_equal]
pub struct LineView {
    pub path: Seq<char>,
    pub kind: Seq<char>,
    pub size: u64,
    pub mtime: i64,
    pub fs: Seq<char>,
}

impl View for ResponseRecord {
    type V = LineView;

    open spec fn view(&self) -> LineView {
        LineView {
            path: self.path@,
            kind: self.kind@,
            size: self.size,
            mtime: self.mtime,
            fs: self.fs@,
        }
    }
}

/// The answer to a request.
#[derive(Debug)]
pub struct Response {
    pub paths: Vec<String>,
    pub matched: u64,
    pub returned: usize,
    pub search_us: u64,
    pub records: Option<Vec<ResponseRecord>>,
}

/// The same as a mathematical value.
#[verifier::ext_equal]
pub struct ResponseView {
    pub paths: Seq<Seq<char>>,
    pub matched: u64,
    pub returned: nat,
    pub search_us: u64,
    pub records: Option<Seq<LineView>>,
}

impl View for Response {
    type V = ResponseView;

    open spec fn view(&self) -> ResponseView {
        ResponseView {
            paths: crate::text::strings(self.paths@),
            matched: self.matched,
            returned: self.returned as nat,
            search_us: self.search_us,
            records: match self.records {
                Some(rs) => Some(line_views(rs@)),
                None => None,
            },
        }
    }
}

/// Lines as mathematical values.
pub open spec fn line_views(rs: Seq<ResponseRecord>) -> Seq<LineView> {
    Seq::new(rs.len(), |i: int| rs[i]@)
}

/// Why a request fails.
#[derive(Debug)]
pub enum RunError {
    RelativeScope,
    Index(IndexError),
}

impl RunError {
    /// What the error says.
    pub fn message(&self) -> (r: String)
        ensures
            r@ == match self {
                RunError::RelativeScope => "scope_roots must contain only absolute paths"@,
                RunError::Index(e) => e.text(),
            },
    {
        match self {
            RunError::RelativeScope => "scope_roots must contain only absolute paths".to_owned(),
            RunError::Index(e) => e.message(),
        }
    }
}

/// A number kept between 1 and 1000.
pub open spec fn bounded_limit(n: nat) -> usize {
    if n < 1 {
        1
    } else if n > 1_000 {
        1_000
    } else {
        n as usize
    }
}

/// The query of a request: at most a thousand hits, fifty where it does not say, and letters
/// told apart as the host does where it does not say.
pub open spec fn request_query(host: Host, r: Request) -> QueryView {
    QueryView {
        limit: match r.limit {
            Some(n) => bounded_limit(n as nat),
            None => 50,
        },
        scope_roots: crate::text::strings(r.scope_roots@),
        scope_case_sensitive: match r.scope_case_sensitive {
            Some(b) => b,
            None => host.cased(),
        },
        ..crate::query::parsed_query(r.query@)
    }
}

/// Every path is absolute.
pub open spec fn all_absolute(host: Host, roots: Seq<Seq<char>>) -> bool {
    forall|i: int| 0 <= i < roots.len() ==> crate::host::host_absolute(host, #[trigger] roots[i])
}

/// The name of a kind.
pub open spec fn kind_name(k: FileKind) -> Seq<char> {
    match k {
        FileKind::File => "file"@,
        FileKind::Dir => "dir"@,
        FileKind::Symlink => "symlink"@,
        FileKind::Other => "other"@,
    }
}

/// What is told of a record.
pub open spec fn line(r: RecordView) -> LineView {
    LineView {
        path: r.path,
        kind: kind_name(r.kind),
        size: r.size,
        mtime: r.mtime,
        fs: crate::mounts::label_of(r.fs),
    }
}

/// The paths of some hits.
pub open spec fn hit_paths(hits: Seq<HitView>) -> Seq<Seq<char>> {
    Seq::new(hits.len(), |i: int| hits[i].record.path)
}

/// The answer that some hits make.
pub open spec fn response_of(hits: Seq<HitView>, stats: SearchStats, metadata: bool) -> ResponseView {
    ResponseView {
        paths: hit_paths(hits),
        matched: stats.matched,
        returned: hits.len(),
        search_us: stats.wall_us,
        records: if metadata {
            Some(Seq::new(hits.len(), |i: int| line(hits[i].record)))
        } else {
            None
        },
    }
}

/// The paths of some hits, copied.
pub fn paths_of(hits: &Vec<SearchHit>) -> (r: Vec<String>)
    ensures
        crate::text::strings(r@) == hit_paths(crate::rank::hit_views(hits@)),
{
    let mut r: Vec<String> = Vec::new();
    let mut i: usize = 0;
    while i < hits.len()
        invariant
            i <= hits@.len(),
            r@.len() == i,
            forall|k: int| 0 <= k < i ==> (#[trigger] r@[k])@ == hits@[k].record.path@,
        decreases hits@.len() - i,
    {
        r.push(hits[i].record.path.clone());
        i += 1;
    }
    assert(crate::text::strings(r@) =~= hit_paths(crate::rank::hit_views(hits@)));
    r
}

/// Makes the answer of some hits.
pub fn response(hits: Vec<SearchHit>, stats: SearchStats, metadata: bool) -> (r: Response)
    ensures
        r@ == response_of(crate::rank::hit_views(hits@), stats, metadata),
{
    let ghost views = crate::rank::hit_views(hits@);
    let paths = paths_of(&hits);
    let records = if metadata {
        let mut lines: Vec<ResponseRecord> = Vec::new();
        let mut i: usize = 0;
        while i < hits.len()
            invariant
                i <= hits@.len(),
                lines@.len() == i,
                forall|k: int| 0 <= k < i ==> (#[trigger] lines@[k])@ == line(hits@[k].record@),
            decreases hits@.len() - i,
        {
            let kind = match hits[i].record.kind {
                FileKind::File => "file",
                FileKind::Dir => "dir",
                FileKind::Symlink => "symlink",
                FileKind::Other => "other",
            };
            lines.push(
                ResponseRecord {
                    path: hits[i].record.path.clone(),
                    kind: kind.to_owned(),
                    size: hits[i].record.size,
                    mtime: hits[i].record.mtime,
                    fs: hits[i].record.fs.label(),
                },
            );
            i += 1;
        }
        assert(line_views(lines@) =~= Seq::new(views.len(), |i: int| line(views[i].record)));
        Some(lines)
    } else {
        None
    };
    Response {
        paths,
        matched: stats.matched,
        returned: hits.len(),
        search_us: stats.wall_us,
        records,
    }
}

/// What the log beside an index changes.
pub open spec fn overlay_of(delta: Option<&DeltaIndex>) -> OverlayView {
    match delta {
        Some(d) => d@.overlay,
        None => crate::delta::no_changes(),
    }
}

/// `r` is an answer of an index to a query.
pub open spec fn answers(
    base: CompactView,
    o: OverlayView,
    q: QueryView,
    metadata: bool,
    r: ResponseView,
) -> bool {
    exists|hits: Seq<HitView>, stats: SearchStats| #[trigger]
        crate::compact_index::search_answer(base, o, q, hits, stats) && r == response_of(
            hits,
            stats,
            metadata,
        )
}

fn make_query(host: Host, request: &Request) -> (q: Query)
    ensures
        q@ == request_query(host, *request),
{
    let mut q = Query::parse(request.query.as_str());
    q.limit = match request.limit {
        Some(n) => if n < 1 {
            1
        } else if n > 1_000 {
            1_000
        } else {
            n
        },
        None => 50,
    };
    let mut roots: Vec<String> = Vec::new();
    let mut i: usize = 0;
    while i < request.scope_roots.len()
        invariant
            i <= request.scope_roots@.len(),
            roots@.len() == i,
            forall|k: int| 0 <= k < i ==> (#[trigger] roots@[k])@ == request.scope_roots@[k]@,
        decreases request.scope_roots@.len() - i,
    {
        roots.push(request.scope_roots[i].clone());
        i += 1;
    }
    assert(crate::text::strings(roots@) =~= crate::text::strings(request.scope_roots@));
    q.scope_roots = roots;
    q.scope_case_sensitive = match request.scope_case_sensitive {
        Some(b) => b,
        None => host.case_sensitive(),
    };
    q
}

fn absolute_roots(host: Host, roots: &Vec<String>) -> (r: bool)
    ensures
        r == all_absolute(host, crate::text::strings(roots@)),
{
    let ghost views = crate::text::strings(roots@);
    let mut i: usize = 0;
    while i < roots.len()
        invariant
            i <= roots@.len(),
            views == crate::text::strings(roots@),
            forall|k: int|
                0 <= k < i ==> crate::host::host_absolute(host, #[trigger] views[k]),
        decreases roots@.len() - i,
    {
        assert(views[i as int] == roots@[i as int]@);
        let chars = crate::text::chars_of(roots[i].as_str());
        if !crate::host::is_absolute(host, chars.as_slice()) {
            return false;
        }
        i += 1;
    }
    true
}

/// Answers a request from an index and the log beside it.
pub fn run(host: Host, index: &CompactIndex, delta: Option<&DeltaIndex>, request: &Request) -> (r:
    Result<Response, RunError>)
    requires
        index.wf(),
        delta matches Some(d) ==> d.wf(),
    ensures
        ({
            let absolute = all_absolute(host, crate::text::strings(request.scope_roots@));
            let q = request_query(host, *request);
            match r {
                Err(RunError::RelativeScope) => !absolute,
                Err(RunError::Index(e)) => absolute && crate::compact_index::search_error(
                    index@,
                    overlay_of(delta),
                    q,
                ) == Some(e),
                Ok(response) => absolute && answers(
                    index@,
                    overlay_of(delta),
                    q,
                    request.metadata == Some(true),
                    response@,
                ),
            }
        }),
{
    if !absolute_roots(host, &request.scope_roots) {
        return Err(RunError::RelativeScope);
    }
    let q = make_query(host, request);
    let found = match delta {
        Some(d) => index.search_with_delta(&q, d),
        None => index.search(&q),
    };
    let metadata: bool = match request.metadata {
        Some(b) => b,
        None => false,
    };
    match found {
        Err(e) => Err(RunError::Index(e)),
        Ok((hits, stats)) => Ok(response(hits, stats, metadata)),
    }
}

/// Whether an index that is open has to be opened again before the next search: it was
/// replaced, its log cannot be read on, or there is a log where there was none.
pub fn must_reopen(opened: u64, on_disk: u64, log_open: bool, log_failed: bool, log_there: bool) -> (r:
    bool)
    ensures
        r == (on_disk != opened || (if log_open {
            log_failed
        } else {
            log_there
        })),
{
    if on_disk != opened {
        return true;
    }
    if log_open {
        log_failed
    } else {
        log_there
    }
}

// ---------------------------------------------------------------------------
// Arguments

/// What the arguments ask for.
pub struct Arguments {
    pub help: bool,
    pub index: Option<String>,
    pub limit: usize,
    pub json: bool,
    pub json_paths: bool,
    pub stdio: bool,
    pub scope_roots: Vec<String>,
    pub words: Vec<String>,
}

/// The same as a mathematical value.
#[verifier::ext_equal]
pub struct ArgumentsView {
    pub help: bool,
    pub index: Option<Seq<char>>,
    pub limit: usize,
    pub json: bool,
    pub json_paths: bool,
    pub stdio: bool,
    pub scope_roots: Seq<Seq<char>>,
    pub words: Seq<Seq<char>>,
}

impl View for Arguments {
    type V = ArgumentsView;

    open spec fn view(&self) -> ArgumentsView {
        ArgumentsView {
            help: self.help,
            index: crate::launch::some_text(self.index),
            limit: self.limit,
            json: self.json,
            json_paths: self.json_paths,
            stdio: self.stdio,
            scope_roots: crate::text::strings(self.scope_roots@),
            words: crate::text::strings(self.words@),
        }
    }
}

/// Nothing asked for yet.
pub open spec fn nothing_asked() -> ArgumentsView {
    ArgumentsView {
        help: false,
        index: None,
        limit: 50,
        json: false,
        json_paths: false,
        stdio: false,
        scope_roots: Seq::empty(),
        words: Seq::empty(),
    }
}

/// An option that takes a value.
pub open spec fn takes_value(t: Seq<char>) -> bool {
    t == "--index"@ || t == "--limit"@ || t == "--scope"@
}

/// What an option with its value adds, or what is wrong with it.
pub open spec fn with_value(host: Host, option: Seq<char>, value: Seq<char>, seen: ArgumentsView) -> Result<
    ArgumentsView,
    Seq<char>,
> {
    if option == "--index"@ {
        Ok(ArgumentsView { index: Some(value), ..seen })
    } else if option == "--limit"@ {
        match crate::text::parsed_number(value, usize::MAX as nat) {
            Some(n) => Ok(ArgumentsView { limit: bounded_limit(n), ..seen }),
            None => Err("invalid --limit"@),
        }
    } else if crate::host::host_absolute(host, value) {
        Ok(ArgumentsView { scope_roots: seen.scope_roots.push(value), ..seen })
    } else {
        Err("--scope requires an absolute path"@)
    }
}

/// What is said where the value of an option is missing.
pub open spec fn value_missing(option: Seq<char>) -> Seq<char> {
    if option == "--index"@ {
        "--index requires a path"@
    } else if option == "--limit"@ {
        "--limit requires a number"@
    } else {
        "--scope requires an absolute path"@
    }
}

/// What a word that takes no value adds, or what is wrong with it.
pub open spec fn with_word(word: Seq<char>, seen: ArgumentsView) -> Result<
    ArgumentsView,
    Seq<char>,
> {
    if word == "--json"@ {
        Ok(ArgumentsView { json: true, ..seen })
    } else if word == "--json-paths"@ {
        Ok(ArgumentsView { json_paths: true, ..seen })
    } else if word == "--stdio"@ {
        Ok(ArgumentsView { stdio: true, ..seen })
    } else if word.len() > 0 && word[0] == '-' {
        Err("unknown option "@ + word)
    } else {
        Ok(ArgumentsView { words: seen.words.push(word), ..seen })
    }
}

/// What the arguments ask for from `at` on, or what is wrong with them. A request for help
/// ends them.
pub open spec fn asked(host: Host, args: Seq<Seq<char>>, at: int, seen: ArgumentsView) -> Result<
    ArgumentsView,
    Seq<char>,
>
    decreases args.len() - at,
{
    if at < 0 || at >= args.len() {
        Ok(seen)
    } else if takes_value(args[at]) {
        if at + 1 >= args.len() {
            Err(value_missing(args[at]))
        } else {
            match with_value(host, args[at], args[at + 1], seen) {
                Ok(next) => asked(host, args, at + 2, next),
                Err(e) => Err(e),
            }
        }
    } else if args[at] == "--help"@ || args[at] == "-h"@ {
        Ok(ArgumentsView { help: true, ..seen })
    } else {
        match with_word(args[at], seen) {
            Ok(next) => asked(host, args, at + 1, next),
            Err(e) => Err(e),
        }
    }
}

impl Arguments {
    fn take_value(&mut self, host: Host, option: &str, value: &str) -> (r: Result<(), String>)
        requires
            takes_value(option@),
        ensures
            match r {
                Ok(_) => with_value(host, option@, value@, old(self)@) == Ok::<
                    ArgumentsView,
                    Seq<char>,
                >(final(self)@),
                Err(e) => with_value(host, option@, value@, old(self)@) == Err::<
                    ArgumentsView,
                    Seq<char>,
                >(e@),
            },
    {
        let ghost before = self@;
        let chars = crate::text::chars_of(value);
        if crate::text::same_text(option, "--index") {
            self.index = Some(value.to_owned());
            return Ok(());
        }
        if crate::text::same_text(option, "--limit") {
            return match crate::text::parse_number(chars.as_slice(), usize::MAX as u64) {
                Some(n) => {
                    self.limit = if n < 1 {
                        1
                    } else if n > 1_000 {
                        1_000
                    } else {
                        n as usize
                    };
                    Ok(())
                },
                None => Err("invalid --limit".to_owned()),
            };
        }
        if !crate::host::is_absolute(host, chars.as_slice()) {
            return Err("--scope requires an absolute path".to_owned());
        }
        self.scope_roots.push(value.to_owned());
        assert(self@.scope_roots =~= before.scope_roots.push(value@));
        Ok(())
    }

    fn take_word(&mut self, word: &str) -> (r: Result<(), String>)
        ensures
            match r {
                Ok(_) => with_word(word@, old(self)@) == Ok::<ArgumentsView, Seq<char>>(
                    final(self)@,
                ),
                Err(e) => with_word(word@, old(self)@) == Err::<ArgumentsView, Seq<char>>(e@),
            },
    {
        let ghost before = self@;
        if crate::text::same_text(word, "--json") {
            self.json = true;
            return Ok(());
        }
        if crate::text::same_text(word, "--json-paths") {
            self.json_paths = true;
            return Ok(());
        }
        if crate::text::same_text(word, "--stdio") {
            self.stdio = true;
            return Ok(());
        }
        let chars = crate::text::chars_of(word);
        if chars.len() > 0 && chars[0] == '-' {
            return Err(crate::text::joined("unknown option ", word));
        }
        self.words.push(word.to_owned());
        assert(self@.words =~= before.words.push(word@));
        Ok(())
    }
}

/// Reads the arguments of the client.
pub fn parse_arguments(host: Host, args: &Vec<String>) -> (r: Result<Arguments, String>)
    ensures
        match r {
            Ok(a) => asked(host, crate::text::strings(args@), 0, nothing_asked()) == Ok::<
                ArgumentsView,
                Seq<char>,
            >(a@),
            Err(e) => asked(host, crate::text::strings(args@), 0, nothing_asked()) == Err::<
                ArgumentsView,
                Seq<char>,
            >(e@),
        },
{
    let ghost views = crate::text::strings(args@);
    let mut seen = Arguments {
        help: false,
        index: None,
        limit: 50,
        json: false,
        json_paths: false,
        stdio: false,
        scope_roots: Vec::new(),
        words: Vec::new(),
    };
    assert(seen@ =~= nothing_asked());
    let mut at: usize = 0;
    let n: usize = args.len();
    while at < n
        invariant
            at <= n == args@.len(),
            views == crate::text::strings(args@),
            asked(host, views, at as int, seen@) == asked(host, views, 0, nothing_asked()),
        decreases n - at,
    {
        assert(views[at as int] == args@[at as int]@);
        let word = args[at].as_str();
        let is_index: bool = crate::text::same_text(word, "--index");
        let is_limit: bool = crate::text::same_text(word, "--limit");
        if is_index || is_limit || crate::text::same_text(word, "--scope") {
            if n - at < 2 {
                return Err(
                    if is_index {
                        "--index requires a path".to_owned()
                    } else if is_limit {
                        "--limit requires a number".to_owned()
                    } else {
                        "--scope requires an absolute path".to_owned()
                    },
                );
            }
            assert(views[at + 1] == args@[at + 1]@);
            if let Err(e) = seen.take_value(host, word, args[at + 1].as_str()) {
                return Err(e);
            }
            at += 2;
        } else if crate::text::same_text(word, "--help") || crate::text::same_text(word, "-h") {
            seen.help = true;
            return Ok(seen);
        } else {
            if let Err(e) = seen.take_word(word) {
                return Err(e);
            }
            at += 1;
        }
    }
    Ok(seen)
}

} // verus!
