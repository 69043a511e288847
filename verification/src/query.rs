//! Query parsing and record matching.
//!
//! Syntax (deliberately small):
//!   plain words        case-insensitive substrings, all must match the name or path
//!   ext:rs,toml        extension filter (comma = OR)
//!   kind:file|dir|link type filter
//!   fs:btrfs|ext4|ntfs|zfs
//!   size:>100M  size:<4k  size:1M..2M
//!   under:/some/dir    path prefix filter
//!   "exact phrase"     quoted substring with spaces
//!
//! Sorting: relevance by default (name-prefix > name > path, then mtime descending).

use crate::mounts::{FsKind, FsView};
use crate::text::Separator;
use crate::types::{FileKind, FileRecord, RecordView};
use vstd::prelude::*;

verus! {

/// The order in which hits are returned.
#[derive(Debug, Clone, Copy, PartialEq, Eq, Structural)]
pub enum SortKey {
    Relevance,
    NameAsc,
    SizeDesc,
    MtimeDesc,
    PathAsc,
}

/// What to look for, and how to rank it.
#[derive(Debug, Clone)]
pub struct Query {
    /// Lowercased substrings that must all match (name or path).
    pub terms: Vec<String>,
    pub exts: Vec<String>,
    pub kinds: Vec<FileKind>,
    pub fss: Vec<FsKind>,
    pub min_size: Option<u64>,
    pub max_size: Option<u64>,
    /// Lowercased path prefix supplied by the query language.
    pub under: Option<String>,
    /// Trusted caller-injected path scopes, ORed together before ranking and limiting.
    pub scope_roots: Vec<String>,
    /// Security-sensitive callers use host filesystem case semantics for scopes.
    pub scope_case_sensitive: bool,
    pub sort: SortKey,
    /// Hard cap on returned hits; 0 = unlimited.
    pub limit: usize,
}

/// A query as a mathematical value.
#[verifier::ext_equal]
pub struct QueryView {
    pub terms: Seq<Seq<char>>,
    pub exts: Seq<Seq<char>>,
    pub kinds: Seq<FileKind>,
    pub fss: Seq<FsView>,
    pub min_size: Option<u64>,
    pub max_size: Option<u64>,
    pub under: Option<Seq<char>>,
    pub scope_roots: Seq<Seq<char>>,
    pub scope_case_sensitive: bool,
    pub sort: SortKey,
    pub limit: usize,
}

/// The views of filesystem families.
pub open spec fn fs_views(s: Seq<FsKind>) -> Seq<FsView> {
    Seq::new(s.len(), |i: int| s[i]@)
}

impl View for Query {
    type V = QueryView;

    open spec fn view(&self) -> QueryView {
        QueryView {
            terms: crate::text::strings(self.terms@),
            exts: crate::text::strings(self.exts@),
            kinds: self.kinds@,
            fss: fs_views(self.fss@),
            min_size: self.min_size,
            max_size: self.max_size,
            under: match self.under {
                Some(u) => Some(u@),
                None => None,
            },
            scope_roots: crate::text::strings(self.scope_roots@),
            scope_case_sensitive: self.scope_case_sensitive,
            sort: self.sort,
            limit: self.limit,
        }
    }
}

/// The query that asks for everything.
pub open spec fn default_query() -> QueryView {
    QueryView {
        terms: Seq::empty(),
        exts: Seq::empty(),
        kinds: Seq::empty(),
        fss: Seq::empty(),
        min_size: None,
        max_size: None,
        under: None,
        scope_roots: Seq::empty(),
        scope_case_sensitive: false,
        sort: SortKey::Relevance,
        limit: 1000,
    }
}

impl Default for Query {
    fn default() -> (q: Query)
        ensures
            q@ == default_query(),
    {
        let q = Query {
            terms: Vec::new(),
            exts: Vec::new(),
            kinds: Vec::new(),
            fss: Vec::new(),
            min_size: None,
            max_size: None,
            under: None,
            scope_roots: Vec::new(),
            scope_case_sensitive: false,
            sort: SortKey::Relevance,
            limit: 1000,
        };
        assert(q@ =~= default_query());
        q
    }
}

// ---------------------------------------------------------------------------
// Tokens

/// How far a text has been cut into tokens.
#[verifier::ext_equal]
pub struct TokenState {
    pub done: Seq<Seq<char>>,
    pub current: Seq<char>,
    pub quoted: bool,
}

/// The tokens of a text up to its end. A double quote starts or ends a quoted
/// stretch, in which white space does not separate.
pub open spec fn token_state(s: Seq<char>) -> TokenState
    decreases s.len(),
{
    if s.len() == 0 {
        TokenState { done: Seq::empty(), current: Seq::empty(), quoted: false }
    } else {
        let before = token_state(s.drop_last());
        let c = s.last();
        if c == '"' {
            TokenState { quoted: !before.quoted, ..before }
        } else if crate::text::is_space(c) && !before.quoted {
            if before.current.len() == 0 {
                before
            } else {
                TokenState {
                    done: before.done.push(before.current),
                    current: Seq::empty(),
                    quoted: before.quoted,
                }
            }
        } else {
            TokenState { current: before.current.push(c), ..before }
        }
    }
}

/// The tokens of a text. None is empty.
pub open spec fn tokens(s: Seq<char>) -> Seq<Seq<char>> {
    let end = token_state(s);
    if end.current.len() == 0 {
        end.done
    } else {
        end.done.push(end.current)
    }
}

/// Splits input into tokens, respecting double quotes.
fn tokenize(input: &str) -> (r: Vec<Vec<char>>)
    ensures
        crate::text::texts(r@) == tokens(input@),
{
    let chars = crate::text::chars_of(input);
    let mut out: Vec<Vec<char>> = Vec::new();
    let mut current: Vec<char> = Vec::new();
    let mut quoted: bool = false;
    let mut i: usize = 0;
    proof {
        assert(chars@.take(0) =~= Seq::empty());
        assert(crate::text::texts(out@) =~= Seq::empty());
    }
    while i < chars.len()
        invariant
            i <= chars@.len(),
            crate::text::texts(out@) == token_state(chars@.take(i as int)).done,
            current@ == token_state(chars@.take(i as int)).current,
            quoted == token_state(chars@.take(i as int)).quoted,
        decreases chars@.len() - i,
    {
        let c: char = chars[i];
        proof {
            assert(chars@.take(i + 1).drop_last() =~= chars@.take(i as int));
            assert(chars@.take(i + 1).last() == c);
        }
        if c == '"' {
            quoted = !quoted;
        } else if crate::text::space(c) && !quoted {
            if current.len() > 0 {
                let ghost done = current@;
                let ghost before = out@;
                out.push(current);
                current = Vec::new();
                assert(crate::text::texts(out@) =~= crate::text::texts(before).push(done));
            }
        } else {
            current.push(c);
        }
        i += 1;
    }
    assert(chars@.take(i as int) =~= chars@);
    if current.len() > 0 {
        let ghost done = current@;
        let ghost before = out@;
        out.push(current);
        assert(crate::text::texts(out@) =~= crate::text::texts(before).push(done));
    }
    out
}

// ---------------------------------------------------------------------------
// Sizes

/// What a unit letter multiplies by, or 1.
pub open spec fn unit_of(c: char) -> nat {
    if c == 'k' || c == 'K' {
        0x400
    } else if c == 'm' || c == 'M' {
        0x10_0000
    } else if c == 'g' || c == 'G' {
        0x4000_0000
    } else if c == 't' || c == 'T' {
        0x100_0000_0000
    } else {
        1
    }
}

/// The digits and the multiplier of a size.
pub open spec fn size_parts(s: Seq<char>) -> (Seq<char>, nat) {
    if unit_of(s.last()) == 1 {
        (s, 1)
    } else {
        (s.drop_last(), unit_of(s.last()))
    }
}

/// The number of bytes that a size such as `4k` stands for; none where it is not a
/// number, or is too large for one.
pub open spec fn size_value(s: Seq<char>) -> Option<u64> {
    let t = crate::text::trim(s);
    if t.len() == 0 {
        None
    } else {
        let (digits, unit) = size_parts(t);
        match crate::text::parsed_number(digits, u64::MAX as nat) {
            Some(n) => if n * unit <= u64::MAX {
                Some((n * unit) as u64)
            } else {
                None
            },
            None => None,
        }
    }
}

/// The smallest and the largest size that a `size:` filter sets, as far as it sets
/// them.
pub open spec fn size_bounds(s: Seq<char>, q: QueryView) -> QueryView {
    match crate::text::first_occurrence(s, seq!['.', '.']) {
        Some(i) => QueryView {
            min_size: size_value(s.take(i)),
            max_size: size_value(s.skip(i + 2)),
            ..q
        },
        None => if s.len() > 0 && s[0] == '>' {
            QueryView { min_size: size_value(s.skip(1)), ..q }
        } else if s.len() > 0 && s[0] == '<' {
            QueryView { max_size: size_value(s.skip(1)), ..q }
        } else {
            QueryView { min_size: size_value(s), ..q }
        },
    }
}

fn parse_size_num(s: &[char]) -> (r: Option<u64>)
    ensures
        r == size_value(s@),
{
    let t = crate::text::trimmed(s);
    if t.len() == 0 {
        return None;
    }
    let last: char = t[t.len() - 1];
    let unit: u64 = if last == 'k' || last == 'K' {
        0x400
    } else if last == 'm' || last == 'M' {
        0x10_0000
    } else if last == 'g' || last == 'G' {
        0x4000_0000
    } else if last == 't' || last == 'T' {
        0x100_0000_0000
    } else {
        1
    };
    let end: usize = if unit == 1 {
        t.len()
    } else {
        t.len() - 1
    };
    let digits = crate::text::part(t.as_slice(), 0, end);
    assert(digits@ =~= size_parts(t@).0);
    match crate::text::parse_number(digits.as_slice(), u64::MAX) {
        Some(n) => {
            assert(n as nat * unit as nat == n * unit) by (nonlinear_arith);
            n.checked_mul(unit)
        },
        None => None,
    }
}

fn parse_size(spec: &[char], q: &mut Query)
    ensures
        final(q)@ == size_bounds(spec@, old(q)@),
{
    let dots: Vec<char> = vec!['.', '.'];
    assert(dots@ =~= seq!['.', '.']);
    let total: usize = spec.len();
    match crate::text::find_chars(spec, dots.as_slice()) {
        Some(i) => {
            let a = crate::text::part(spec, 0, i);
            let b = crate::text::part(spec, i + 2, total);
            assert(a@ =~= spec@.take(i as int));
            assert(b@ =~= spec@.skip(i + 2));
            q.min_size = parse_size_num(a.as_slice());
            q.max_size = parse_size_num(b.as_slice());
        },
        None => {
            if total > 0 && spec[0] == '>' {
                let rest = crate::text::part(spec, 1, total);
                assert(rest@ =~= spec@.skip(1));
                q.min_size = parse_size_num(rest.as_slice());
            } else if total > 0 && spec[0] == '<' {
                let rest = crate::text::part(spec, 1, total);
                assert(rest@ =~= spec@.skip(1));
                q.max_size = parse_size_num(rest.as_slice());
            } else {
                q.min_size = parse_size_num(spec);
            }
        },
    }
    assert(q@ =~= size_bounds(spec@, old(q)@));
}

// ---------------------------------------------------------------------------
// Parsing

/// The kind that a word of a `kind:` filter names.
pub open spec fn kind_named(k: Seq<char>) -> Option<FileKind> {
    if k == "file"@ || k == "f"@ {
        Some(FileKind::File)
    } else if k == "dir"@ || k == "d"@ || k == "folder"@ {
        Some(FileKind::Dir)
    } else if k == "link"@ || k == "symlink"@ || k == "l"@ {
        Some(FileKind::Symlink)
    } else {
        None
    }
}

/// The kinds that words name; other words are passed over.
pub open spec fn kinds_named(ks: Seq<Seq<char>>) -> Seq<FileKind>
    decreases ks.len(),
{
    if ks.len() == 0 {
        Seq::empty()
    } else {
        let front = kinds_named(ks.drop_last());
        match kind_named(ks.last()) {
            Some(k) => front.push(k),
            None => front,
        }
    }
}

/// The extensions that an `ext:` filter lists: lowercased, without leading dots.
pub open spec fn exts_named(rest: Seq<char>) -> Seq<Seq<char>> {
    let ws = crate::text::words(rest, Separator::Char(','));
    Seq::new(
        ws.len(),
        |i: int| crate::text::lowercase(crate::text::trim_front(ws[i], Separator::Char('.'))),
    )
}

/// The families that an `fs:` filter lists.
pub open spec fn fss_named(rest: Seq<char>) -> Seq<FsView> {
    let ws = crate::text::words(rest, Separator::Char(','));
    Seq::new(ws.len(), |i: int| crate::mounts::fs_of(ws[i]))
}

/// What stands behind a prefix.
pub open spec fn behind(tok: Seq<char>, prefix: Seq<char>) -> Seq<char> {
    tok.skip(prefix.len() as int)
}

/// One token added to a query.
pub open spec fn with_token(q: QueryView, tok: Seq<char>) -> QueryView {
    if "ext:"@.is_prefix_of(tok) {
        QueryView { exts: q.exts + exts_named(behind(tok, "ext:"@)), ..q }
    } else if "kind:"@.is_prefix_of(tok) {
        QueryView {
            kinds: q.kinds + kinds_named(
                crate::text::split(behind(tok, "kind:"@), Separator::Char(',')),
            ),
            ..q
        }
    } else if "fs:"@.is_prefix_of(tok) {
        QueryView { fss: q.fss + fss_named(behind(tok, "fs:"@)), ..q }
    } else if "size:"@.is_prefix_of(tok) {
        size_bounds(behind(tok, "size:"@), q)
    } else if "under:"@.is_prefix_of(tok) {
        QueryView { under: Some(crate::text::lowercase(behind(tok, "under:"@))), ..q }
    } else {
        QueryView { terms: q.terms.push(crate::text::lowercase(tok)), ..q }
    }
}

/// The tokens added one after the other.
pub open spec fn with_tokens(q: QueryView, toks: Seq<Seq<char>>) -> QueryView
    decreases toks.len(),
{
    if toks.len() == 0 {
        q
    } else {
        with_token(with_tokens(q, toks.drop_last()), toks.last())
    }
}

/// What a text asks for.
pub open spec fn parsed_query(input: Seq<char>) -> QueryView {
    with_tokens(default_query(), tokens(input))
}

/// What stands behind `prefix`, where `tok` begins with it.
fn strip_prefix(tok: &[char], prefix: &str) -> (r: Option<Vec<char>>)
    ensures
        match r {
            Some(rest) => prefix@.is_prefix_of(tok@) && rest@ == behind(tok@, prefix@),
            None => !prefix@.is_prefix_of(tok@),
        },
{
    let p = crate::text::chars_of(prefix);
    if crate::text::starts_with(tok, p.as_slice()) {
        let rest = crate::text::part(tok, p.len(), tok.len());
        assert(rest@ =~= behind(tok@, prefix@));
        Some(rest)
    } else {
        None
    }
}

fn push_exts(rest: &[char], exts: &mut Vec<String>)
    ensures
        crate::text::strings(final(exts)@) == crate::text::strings(old(exts)@) + exts_named(rest@),
{
    let ws = crate::text::split_words(rest, Separator::Char(','));
    let ghost texts = crate::text::texts(ws@);
    let mut i: usize = 0;
    assert(crate::text::strings(exts@) =~= crate::text::strings(exts@) + exts_named(rest@).take(0));
    while i < ws.len()
        invariant
            i <= ws@.len(),
            texts == crate::text::texts(ws@),
            texts == crate::text::words(rest@, Separator::Char(',')),
            crate::text::strings(exts@) == crate::text::strings(old(exts)@) + exts_named(
                rest@,
            ).take(i as int),
        decreases ws@.len() - i,
    {
        let w = ws[i].as_slice();
        let n: usize = crate::text::front_run(w, Separator::Char('.'));
        let bare = crate::text::part(w, n, w.len());
        assert(bare@ =~= w@.skip(n as int));
        let s = crate::text::string_of(bare.as_slice());
        let l = crate::text::to_lowercase(s.as_str());
        let ghost before = exts@;
        assert(texts[i as int] == w@);
        exts.push(l);
        assert(crate::text::strings(exts@) =~= crate::text::strings(before).push(l@));
        i += 1;
        assert(exts_named(rest@).take(i as int) =~= exts_named(rest@).take(i - 1).push(l@));
    }
    assert(exts_named(rest@).take(i as int) =~= exts_named(rest@));
}

fn push_fss(rest: &[char], fss: &mut Vec<FsKind>)
    ensures
        fs_views(final(fss)@) == fs_views(old(fss)@) + fss_named(rest@),
{
    let ws = crate::text::split_words(rest, Separator::Char(','));
    let ghost texts = crate::text::texts(ws@);
    let mut i: usize = 0;
    assert(fs_views(fss@) =~= fs_views(fss@) + fss_named(rest@).take(0));
    while i < ws.len()
        invariant
            i <= ws@.len(),
            texts == crate::text::texts(ws@),
            texts == crate::text::words(rest@, Separator::Char(',')),
            fs_views(fss@) == fs_views(old(fss)@) + fss_named(rest@).take(i as int),
        decreases ws@.len() - i,
    {
        let s = crate::text::string_of(ws[i].as_slice());
        let f = FsKind::from_fstype(s.as_str());
        let ghost before = fss@;
        assert(texts[i as int] == ws@[i as int]@);
        fss.push(f);
        assert(fs_views(fss@) =~= fs_views(before).push(f@));
        i += 1;
        assert(fss_named(rest@).take(i as int) =~= fss_named(rest@).take(i - 1).push(f@));
    }
    assert(fss_named(rest@).take(i as int) =~= fss_named(rest@));
}

fn kind_of_word(k: &[char]) -> (r: Option<FileKind>)
    ensures
        r == kind_named(k@),
{
    let s = crate::text::string_of(k);
    let t = s.as_str();
    let is = |name: &str| -> (b: bool)
        ensures
            b == (t@ == name@),
        { crate::text::same_text(t, name) };
    if is("file") || is("f") {
        Some(FileKind::File)
    } else if is("dir") || is("d") || is("folder") {
        Some(FileKind::Dir)
    } else if is("link") || is("symlink") || is("l") {
        Some(FileKind::Symlink)
    } else {
        None
    }
}

fn push_kinds(rest: &[char], kinds: &mut Vec<FileKind>)
    ensures
        final(kinds)@ == old(kinds)@ + kinds_named(
            crate::text::split(rest@, Separator::Char(',')),
        ),
{
    let ws = crate::text::split_chars(rest, Separator::Char(','));
    let ghost texts = crate::text::texts(ws@);
    let mut i: usize = 0;
    assert(texts.take(0) =~= Seq::empty());
    assert(kinds@ =~= kinds@ + kinds_named(texts.take(0)));
    while i < ws.len()
        invariant
            i <= ws@.len(),
            texts == crate::text::texts(ws@),
            kinds@ == old(kinds)@ + kinds_named(texts.take(i as int)),
        decreases ws@.len() - i,
    {
        proof {
            assert(texts.take(i + 1).drop_last() =~= texts.take(i as int));
            assert(texts.take(i + 1).last() == ws@[i as int]@);
        }
        match kind_of_word(ws[i].as_slice()) {
            Some(k) => {
                kinds.push(k);
            },
            None => {},
        }
        i += 1;
        assert(kinds@ =~= old(kinds)@ + kinds_named(texts.take(i as int)));
    }
    assert(texts.take(i as int) =~= texts);
}

fn add_token(q: &mut Query, tok: &[char])
    ensures
        final(q)@ == with_token(old(q)@, tok@),
{
    if let Some(rest) = strip_prefix(tok, "ext:") {
        push_exts(rest.as_slice(), &mut q.exts);
    } else if let Some(rest) = strip_prefix(tok, "kind:") {
        push_kinds(rest.as_slice(), &mut q.kinds);
    } else if let Some(rest) = strip_prefix(tok, "fs:") {
        push_fss(rest.as_slice(), &mut q.fss);
    } else if let Some(rest) = strip_prefix(tok, "size:") {
        parse_size(rest.as_slice(), q);
    } else if let Some(rest) = strip_prefix(tok, "under:") {
        let s = crate::text::string_of(rest.as_slice());
        q.under = Some(crate::text::to_lowercase(s.as_str()));
    } else {
        let s = crate::text::string_of(tok);
        let l = crate::text::to_lowercase(s.as_str());
        let ghost before = q.terms@;
        q.terms.push(l);
        assert(crate::text::strings(q.terms@) =~= crate::text::strings(before).push(l@));
    }
    assert(q@ =~= with_token(old(q)@, tok@));
}

// ---------------------------------------------------------------------------
// Matching

/// Where a lowercased term stands in a text: the byte position of the first match. ASCII
/// text is matched whatever its case; other text is put into lower case first.
pub open spec fn found_at(hay: Seq<char>, term: Seq<char>) -> Option<int> {
    if term.len() == 0 {
        Some(0)
    } else if vstd::utf8::is_ascii_chars(hay) && vstd::utf8::is_ascii_chars(term) {
        crate::text::first_occurrence(
            crate::text::ascii_lower_all(hay),
            crate::text::ascii_lower_all(term),
        )
    } else {
        crate::text::first_occurrence(
            vstd::utf8::encode_utf8(crate::text::lowercase(hay)),
            vstd::utf8::encode_utf8(term),
        )
    }
}

/// Points for a term that stands in the file name at `pos`: a prefix of the name counts
/// most, and a term as long as the name still more.
pub open spec fn name_points(name: Seq<char>, term: Seq<char>, pos: int) -> nat {
    let base: nat = if pos == 0 {
        0x10_0000
    } else {
        0x1000
    };
    let exact: nat = if vstd::utf8::encode_utf8(name).len() == vstd::utf8::encode_utf8(term).len() {
        0x100_0000
    } else {
        0
    };
    let near: nat = if pos < 255 {
        (256 - pos) as nat
    } else {
        1
    };
    base + exact + near
}

/// Points for one term, or none where it stands in neither the name nor the path.
pub open spec fn points(path: Seq<char>, term: Seq<char>) -> Option<nat> {
    let name = crate::types::name_of(path);
    match found_at(name, term) {
        Some(pos) => Some(name_points(name, term, pos)),
        None => if found_at(path, term) is Some {
            Some(64)
        } else {
            None
        },
    }
}

/// Points for all terms together; none where one of them fails.
pub open spec fn total_points(path: Seq<char>, terms: Seq<Seq<char>>) -> Option<nat>
    decreases terms.len(),
{
    if terms.len() == 0 {
        Some(0)
    } else {
        match (total_points(path, terms.drop_last()), points(path, terms.last())) {
            (Some(a), Some(b)) => Some(a + b),
            _ => None,
        }
    }
}

/// The relevance of a record, or none where it does not match.
pub open spec fn score_of(q: QueryView, r: RecordView) -> Option<u32> {
    match total_points(r.path, q.terms) {
        Some(n) => Some(
            if n <= u32::MAX {
                n as u32
            } else {
                u32::MAX
            },
        ),
        None => None,
    }
}

/// Equal but for ASCII case.
pub open spec fn same_but_case(a: Seq<char>, b: Seq<char>) -> bool {
    crate::text::ascii_lower_all(a) == crate::text::ascii_lower_all(b)
}

/// The record passes every filter but the terms.
pub open spec fn admits(q: QueryView, r: RecordView) -> bool {
    let ext = crate::types::raw_extension_of(crate::types::name_of(r.path));
    &&& crate::scope::safe_path(r.path)
    &&& q.kinds.len() == 0 || q.kinds.contains(r.kind)
    &&& q.fss.len() == 0 || q.fss.contains(r.fs)
    &&& q.exts.len() == 0 || exists|i: int|
        0 <= i < q.exts.len() && same_but_case(ext, #[trigger] q.exts[i])
    &&& q.min_size matches Some(min) ==> r.size >= min
    &&& q.max_size matches Some(max) ==> r.size <= max
    &&& q.under matches Some(under) ==> crate::scope::under_ci(r.path, under)
    &&& q.scope_roots.len() == 0 || exists|i: int|
        0 <= i < q.scope_roots.len() && in_scope(q, r.path, #[trigger] q.scope_roots[i])
}

/// The path lies under a scope root, by the query's case rule.
pub open spec fn in_scope(q: QueryView, path: Seq<char>, root: Seq<char>) -> bool {
    if q.scope_case_sensitive {
        crate::scope::under(path, root)
    } else {
        crate::scope::under_ci(path, root)
    }
}

/// The record passes the filters and every term stands in it.
pub open spec fn matches_query(q: QueryView, r: RecordView) -> bool {
    admits(q, r) && score_of(q, r) is Some
}

fn find_ci(hay: &str, term: &str) -> (r: Option<usize>)
    ensures
        match r {
            Some(i) => found_at(hay@, term@) == Some(i as int),
            None => found_at(hay@, term@) is None,
        },
{
    if term.is_empty() {
        return Some(0);
    }
    if hay.is_ascii() && term.is_ascii() {
        let h = crate::text::lowered(crate::text::chars_of(hay).as_slice());
        let n = crate::text::lowered(crate::text::chars_of(term).as_slice());
        return crate::text::find_chars(h.as_slice(), n.as_slice());
    }
    let l = crate::text::to_lowercase(hay);
    crate::text::find_bytes(l.as_str().as_bytes(), term.as_bytes())
}

fn same_ignoring_case(a: &str, b: &str) -> (r: bool)
    ensures
        r == same_but_case(a@, b@),
{
    let x = crate::text::lowered(crate::text::chars_of(a).as_slice());
    let y = crate::text::lowered(crate::text::chars_of(b).as_slice());
    crate::text::same_chars(x.as_slice(), y.as_slice())
}

impl Query {
    /// What a text asks for.
    pub fn parse(input: &str) -> (q: Query)
        ensures
            q@ == parsed_query(input@),
    {
        let mut q = Query::default();
        let toks = tokenize(input);
        let ghost texts = crate::text::texts(toks@);
        let mut i: usize = 0;
        assert(texts.take(0) =~= Seq::empty());
        while i < toks.len()
            invariant
                i <= toks@.len(),
                texts == crate::text::texts(toks@),
                q@ == with_tokens(default_query(), texts.take(i as int)),
            decreases toks@.len() - i,
        {
            proof {
                assert(texts.take(i + 1).drop_last() =~= texts.take(i as int));
                assert(texts.take(i + 1).last() == toks@[i as int]@);
            }
            add_token(&mut q, toks[i].as_slice());
            i += 1;
        }
        assert(texts.take(i as int) =~= texts);
        q
    }

    fn kind_passes(&self, kind: FileKind) -> (r: bool)
        ensures
            r == (self.kinds@.len() == 0 || self.kinds@.contains(kind)),
    {
        let mut i: usize = 0;
        while i < self.kinds.len()
            invariant
                i <= self.kinds@.len(),
                forall|k: int| 0 <= k < i ==> self.kinds@[k] != kind,
            decreases self.kinds@.len() - i,
        {
            if self.kinds[i] == kind {
                assert(self.kinds@[i as int] == kind);
                return true;
            }
            i += 1;
        }
        self.kinds.len() == 0
    }

    fn fs_passes(&self, fs: &FsKind) -> (r: bool)
        ensures
            r == (self@.fss.len() == 0 || self@.fss.contains(fs@)),
    {
        let mut i: usize = 0;
        while i < self.fss.len()
            invariant
                i <= self.fss@.len(),
                forall|k: int| 0 <= k < i ==> self@.fss[k] != fs@,
            decreases self.fss@.len() - i,
        {
            if self.fss[i].same(fs) {
                assert(self@.fss[i as int] == fs@);
                return true;
            }
            i += 1;
        }
        self.fss.len() == 0
    }

    fn ext_passes(&self, ext: &str) -> (r: bool)
        ensures
            r == (self@.exts.len() == 0 || exists|i: int|
                0 <= i < self@.exts.len() && same_but_case(ext@, #[trigger] self@.exts[i])),
    {
        let mut i: usize = 0;
        while i < self.exts.len()
            invariant
                i <= self.exts@.len(),
                forall|k: int| 0 <= k < i ==> !same_but_case(ext@, #[trigger] self@.exts[k]),
            decreases self.exts@.len() - i,
        {
            assert(self@.exts[i as int] == self.exts@[i as int]@);
            if same_ignoring_case(ext, self.exts[i].as_str()) {
                return true;
            }
            i += 1;
        }
        self.exts.len() == 0
    }

    fn scope_passes(&self, path: &str) -> (r: bool)
        ensures
            r == (self@.scope_roots.len() == 0 || exists|i: int|
                0 <= i < self@.scope_roots.len() && in_scope(
                    self@,
                    path@,
                    #[trigger] self@.scope_roots[i],
                )),
    {
        let mut i: usize = 0;
        while i < self.scope_roots.len()
            invariant
                i <= self.scope_roots@.len(),
                forall|k: int|
                    0 <= k < i ==> !in_scope(self@, path@, #[trigger] self@.scope_roots[k]),
            decreases self.scope_roots@.len() - i,
        {
            let root = self.scope_roots[i].as_str();
            assert(self@.scope_roots[i as int] == root@);
            let inside: bool = if self.scope_case_sensitive {
                crate::scope::path_is_under(path, root)
            } else {
                crate::scope::path_is_under_ci(path, root)
            };
            if inside {
                return true;
            }
            i += 1;
        }
        self.scope_roots.len() == 0
    }

    /// Cheap filter phase (no term matching). Run before the term phase.
    pub fn passes_filters(&self, r: &FileRecord) -> (b: bool)
        ensures
            b == admits(self@, r@),
    {
        if !crate::scope::safe_absolute_path(r.path.as_str()) {
            return false;
        }
        if !self.kind_passes(r.kind) || !self.fs_passes(&r.fs) || !self.ext_passes(
            r.raw_extension(),
        ) {
            return false;
        }
        if let Some(min) = self.min_size {
            if r.size < min {
                return false;
            }
        }
        if let Some(max) = self.max_size {
            if r.size > max {
                return false;
            }
        }
        if let Some(under) = &self.under {
            if !crate::scope::path_is_under_ci(r.path.as_str(), under.as_str()) {
                return false;
            }
        }
        self.scope_passes(r.path.as_str())
    }

    /// Relevance score for term matching; `None` means no match. Higher is better.
    /// Without terms everything matches with score 0.
    pub fn score(&self, r: &FileRecord) -> (s: Option<u32>)
        ensures
            s == score_of(self@, r@),
    {
        let name = r.name();
        let path = r.path.as_str();
        let ghost terms = self@.terms;
        let mut total: u64 = 0;
        let mut i: usize = 0;
        assert(terms.take(0) =~= Seq::empty());
        while i < self.terms.len()
            invariant
                i <= self.terms@.len(),
                terms == self@.terms,
                path@ == r@.path,
                name@ == crate::types::name_of(path@),
                total_points(path@, terms.take(i as int)) is Some,
                ({
                    let exact = total_points(path@, terms.take(i as int))->0;
                    total == if exact <= u64::MAX {
                        exact
                    } else {
                        u64::MAX as nat
                    }
                }),
            decreases self.terms@.len() - i,
        {
            let term = self.terms[i].as_str();
            proof {
                assert(terms.take(i + 1).drop_last() =~= terms.take(i as int));
                assert(terms.take(i + 1).last() == term@);
            }
            match find_ci(name, term) {
                Some(pos) => {
                    let base: u64 = if pos == 0 {
                        0x10_0000
                    } else {
                        0x1000
                    };
                    let exact: u64 = if name.as_bytes().len() == term.as_bytes().len() {
                        0x100_0000
                    } else {
                        0
                    };
                    let near: u64 = if pos < 255 {
                        256 - pos as u64
                    } else {
                        1
                    };
                    total = total.saturating_add(base + exact + near);
                },
                None => {
                    if find_ci(path, term).is_some() {
                        total = total.saturating_add(64);
                    } else {
                        proof {
                            lemma_failed_term(path@, terms, i as int);
                        }
                        return None;
                    }
                },
            }
            i += 1;
        }
        assert(terms.take(i as int) =~= terms);
        if total <= u32::MAX as u64 {
            Some(total as u32)
        } else {
            Some(u32::MAX)
        }
    }
}

/// A term that fails makes the whole query fail.
pub proof fn lemma_failed_term(path: Seq<char>, terms: Seq<Seq<char>>, i: int)
    requires
        0 <= i < terms.len(),
        points(path, terms[i]) is None,
    ensures
        total_points(path, terms) is None,
    decreases terms.len(),
{
    if i < terms.len() - 1 {
        assert(terms.drop_last()[i] == terms[i]);
        lemma_failed_term(path, terms.drop_last(), i);
    }
}

/// A term in the file name earns more than one that stands in the path alone.
pub proof fn law_names_outrank_paths(inside: Seq<char>, above: Seq<char>, term: Seq<char>)
    requires
        found_at(crate::types::name_of(inside), term) is Some,
        found_at(crate::types::name_of(above), term) is None,
        points(above, term) is Some,
    ensures
        points(inside, term) is Some,
        points(inside, term)->0 > points(above, term)->0,
{
}

/// A name that begins with a term earns more than one that has it further on, unless the
/// two are of one length.
pub proof fn law_prefixes_outrank_inner_hits(first: Seq<char>, later: Seq<char>, term: Seq<char>)
    requires
        found_at(crate::types::name_of(first), term) == Some(0int),
        found_at(crate::types::name_of(later), term) is Some,
        found_at(crate::types::name_of(later), term)->0 > 0,
        vstd::utf8::encode_utf8(crate::types::name_of(later)).len() != vstd::utf8::encode_utf8(
            term,
        ).len(),
    ensures
        points(first, term)->0 > points(later, term)->0,
{
}

/// Nothing outside the scope roots of a query matches it, whatever else the query says.
pub proof fn law_scope_is_never_left(q: QueryView, r: RecordView)
    requires
        q.scope_roots.len() > 0,
        forall|i: int|
            0 <= i < q.scope_roots.len() ==> !in_scope(q, r.path, #[trigger] q.scope_roots[i]),
    ensures
        !matches_query(q, r),
{
}

/// No text widens the scope, orders the hits or bounds their number: those are the caller's
/// to set.
pub proof fn law_no_text_sets_the_scope(input: Seq<char>)
    ensures
        parsed_query(input).scope_roots == default_query().scope_roots,
        parsed_query(input).scope_case_sensitive == default_query().scope_case_sensitive,
        parsed_query(input).sort == default_query().sort,
        parsed_query(input).limit == default_query().limit,
{
    lemma_scope_kept(default_query(), tokens(input));
}

proof fn lemma_scope_kept(q: QueryView, toks: Seq<Seq<char>>)
    ensures
        with_tokens(q, toks).scope_roots == q.scope_roots,
        with_tokens(q, toks).scope_case_sensitive == q.scope_case_sensitive,
        with_tokens(q, toks).sort == q.sort,
        with_tokens(q, toks).limit == q.limit,
    decreases toks.len(),
{
    if toks.len() > 0 {
        lemma_scope_kept(q, toks.drop_last());
    }
}

} // verus!
