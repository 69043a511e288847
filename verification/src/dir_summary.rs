//! Read-only directory summaries, each bound to one generation of a compact index.

use crate::host::Host;
use crate::sidecar::{Fault, SummaryError};
use crate::summary::{ChildView, DirectoryChild, DirectorySummaryEntry, EntryView};
use crate::types::{FileKind, FileRecord, RecordView};
use vstd::hash_map::StringHashMap;
use vstd::prelude::*;

verus! {

/// Folder totals for one generation of a compact index.
pub struct DirectorySummary {
    host: Host,
    generation: u64,
    entries: Vec<DirectorySummaryEntry>,
}

/// A summary as a mathematical value.
#[verifier::ext_equal]
pub struct SummaryView {
    /// Whose rules tell paths apart.
    pub host: Host,
    pub generation: u64,
    pub entries: Seq<EntryView>,
}

impl View for DirectorySummary {
    type V = SummaryView;

    closed spec fn view(&self) -> SummaryView {
        SummaryView {
            host: self.host,
            generation: self.generation,
            entries: crate::summary::entry_views(self.entries@),
        }
    }
}

// ---------------------------------------------------------------------------
// Validation

/// What keys are told apart by: the path with forward slashes, and in lower case where the
/// host does not tell case apart.
pub open spec fn canonical(host: Host, path: Seq<char>) -> Seq<char> {
    let r = crate::text::replace_char(path, '\\', '/');
    if host.cased() {
        r
    } else {
        crate::text::lowercase(r)
    }
}

/// Some entry has this source and this canonical path.
pub open spec fn has_canonical(host: Host, es: Seq<EntryView>, source: u32, c: Seq<char>) -> bool {
    exists|i: int|
        0 <= i < es.len() && (#[trigger] es[i]).source == source && canonical(host, es[i].path) == c
}

/// Some entry has this source and this path.
pub open spec fn has_key(host: Host, es: Seq<EntryView>, source: u32, path: Seq<char>) -> bool {
    has_canonical(host, es, source, canonical(host, path))
}

/// What is wrong with a child.
pub open spec fn child_fault(host: Host, es: Seq<EntryView>, e: EntryView, c: ChildView) -> Option<Fault> {
    match crate::dirs::normal_form(c.path) {
        None => Some(Fault::UnsafePath(c.path)),
        Some(n) => if n != c.path {
            Some(Fault::UnnormalizedChild)
        } else if crate::dirs::parent_of(c.path) != e.path {
            Some(Fault::WrongParent)
        } else if c.kind is Dir && !has_key(host, es, e.source, c.path) {
            Some(Fault::MissingDirectory)
        } else {
            None
        },
    }
}

/// What is wrong with the first children that are.
pub open spec fn children_fault(host: Host, es: Seq<EntryView>, e: EntryView, n: nat) -> Option<Fault>
    decreases n,
{
    if n == 0 {
        None
    } else {
        match children_fault(host, es, e, (n - 1) as nat) {
            Some(f) => Some(f),
            None => child_fault(host, es, e, e.children[n - 1]),
        }
    }
}

/// What is wrong with an entry.
pub open spec fn entry_fault(host: Host, es: Seq<EntryView>, e: EntryView) -> Option<Fault> {
    match crate::dirs::normal_form(e.path) {
        None => Some(Fault::UnsafePath(e.path)),
        Some(n) => if n != e.path {
            Some(Fault::UnnormalizedPath)
        } else {
            children_fault(host, es, e, e.children.len())
        },
    }
}

/// What is wrong with the first entries that are.
pub open spec fn entries_fault(host: Host, es: Seq<EntryView>, n: nat) -> Option<Fault>
    decreases n,
{
    if n == 0 {
        None
    } else {
        match entries_fault(host, es, (n - 1) as nat) {
            Some(f) => Some(f),
            None => entry_fault(host, es, es[n - 1]),
        }
    }
}

/// A path in its normal form.
pub open spec fn is_plain(path: Seq<char>) -> bool {
    crate::dirs::normal_form(path) == Some(path)
}

/// Children whose paths are in their normal form.
pub open spec fn all_plain(cs: Seq<ChildView>) -> bool {
    forall|i: int| 0 <= i < cs.len() ==> is_plain((#[trigger] cs[i]).path)
}

/// Entries all of whose children have paths in their normal form.
pub open spec fn plain_children(es: Seq<EntryView>) -> bool {
    forall|i: int| 0 <= i < es.len() ==> all_plain((#[trigger] es[i]).children)
}

proof fn lemma_children_faultless(host: Host, es: Seq<EntryView>, e: EntryView, n: nat, i: int)
    requires
        0 <= i < n,
        children_fault(host, es, e, n) is None,
    ensures
        is_plain(e.children[i].path),
    decreases n,
{
    if i < n - 1 {
        lemma_children_faultless(host, es, e, (n - 1) as nat, i);
    }
}

/// Entries without a fault have children in normal form.
proof fn lemma_plain_children(host: Host, es: Seq<EntryView>)
    requires
        entries_fault(host, es, es.len()) is None,
    ensures
        plain_children(es),
{
    assert forall|i: int| 0 <= i < es.len() implies all_plain((#[trigger] es[i]).children) by {
        lemma_faultless(host, es, es.len(), i);
        let e = es[i];
        assert forall|j: int| 0 <= j < e.children.len() implies is_plain(
            (#[trigger] e.children[j]).path,
        ) by {
            lemma_children_faultless(host, es, e, e.children.len(), j);
        }
    }
}

/// The keys of entries, for looking them up.
struct Keys {
    sources: StringHashMap<Vec<u32>>,
}

impl Keys {
    closed spec fn knows(&self, source: u32, path: Seq<char>) -> bool {
        self.sources@.contains_key(path) && self.sources@[path]@.contains(source)
    }
}

/// Writes a path as keys are told apart.
pub fn canonical_text(host: Host, path: &str) -> (r: String)
    ensures
        r@ == canonical(host, path@),
{
    let chars = crate::text::chars_of(path);
    let same = crate::text::replaced(chars.as_slice(), '\\', '/');
    let text = crate::text::string_of(same.as_slice());
    if host.case_sensitive() {
        text
    } else {
        crate::text::to_lowercase(text.as_str())
    }
}

proof fn lemma_one_more_key(host: Host, es: Seq<EntryView>, e: EntryView, source: u32, c: Seq<char>)
    ensures
        has_canonical(host, es.push(e), source, c) <==> has_canonical(host, es, source, c) || (e.source
            == source && canonical(host, e.path) == c),
{
    let all = es.push(e);
    if has_canonical(host, es, source, c) {
        let i = choose|i: int|
            0 <= i < es.len() && (#[trigger] es[i]).source == source && canonical(host, es[i].path) == c;
        assert(all[i] == es[i]);
    }
    if has_canonical(host, all, source, c) {
        let i = choose|i: int|
            0 <= i < all.len() && (#[trigger] all[i]).source == source && canonical(host, all[i].path)
                == c;
        if i < es.len() {
            assert(all[i] == es[i]);
        }
    }
    assert(all[es.len() as int] == e);
}

/// Adds one key.
fn add_key(keys: &mut Keys, text: String, source: u32)
    ensures
        forall|s: u32, c: Seq<char>| #[trigger]
            final(keys).knows(s, c) <==> old(keys).knows(s, c) || (s == source && c == text@),
{
    let mut list: Vec<u32> = Vec::new();
    if let Some(had) = keys.sources.get(text.as_str()) {
        list = had.clone();
        assert(list@ =~= had@);
    }
    let ghost was = list@;
    list.push(source);
    let ghost now = list@;
    keys.sources.insert(text, list);
    proof {
        assert forall|s: u32| now.contains(s) <==> was.contains(s) || s == source by {
            if now.contains(s) {
                let k = now.index_of(s);
                if k < was.len() {
                    assert(was[k] == s);
                }
            }
            if was.contains(s) {
                let k = was.index_of(s);
                assert(now[k] == s);
            }
            assert(now[was.len() as int] == source);
        }
    }
}

fn keys_of(host: Host, es: &[DirectorySummaryEntry]) -> (r: Keys)
    ensures
        forall|source: u32, c: Seq<char>| #[trigger]
            r.knows(source, c) <==> has_canonical(host, crate::summary::entry_views(es@), source, c),
{
    let ghost views = crate::summary::entry_views(es@);
    let mut keys = Keys { sources: StringHashMap::new() };
    let mut i: usize = 0;
    while i < es.len()
        invariant
            i <= es@.len(),
            views == crate::summary::entry_views(es@),
            forall|source: u32, c: Seq<char>| #[trigger]
                keys.knows(source, c) <==> has_canonical(host, views.take(i as int), source, c),
        decreases es@.len() - i,
    {
        let text = canonical_text(host, es[i].path.as_str());
        let ghost before = keys;
        let ghost e = es@[i as int]@;
        add_key(&mut keys, text, es[i].source);
        proof {
            assert(views.take(i + 1) =~= views.take(i as int).push(e));
            assert forall|source: u32, c: Seq<char>| #[trigger]
                keys.knows(source, c) <==> has_canonical(host, views.take(i + 1), source, c) by {
                lemma_one_more_key(host, views.take(i as int), e, source, c);
                assert(before.knows(source, c) <==> has_canonical(
                    host,
                    views.take(i as int),
                    source,
                    c,
                ));
            }
        }
        i += 1;
    }
    assert(views.take(i as int) =~= views);
    keys
}

fn has_source(list: &Vec<u32>, source: u32) -> (r: bool)
    ensures
        r == list@.contains(source),
{
    let mut i: usize = 0;
    while i < list.len()
        invariant
            i <= list@.len(),
            forall|k: int| 0 <= k < i ==> list@[k] != source,
        decreases list@.len() - i,
    {
        if list[i] == source {
            assert(list@[i as int] == source);
            return true;
        }
        i += 1;
    }
    false
}

fn check_child(
    host: Host,
    keys: &Keys,
    e: &DirectorySummaryEntry,
    c: &DirectoryChild,
    Ghost(es): Ghost<Seq<EntryView>>,
) -> (r: Option<SummaryError>)
    requires
        forall|source: u32, c: Seq<char>| #[trigger]
            keys.knows(source, c) <==> has_canonical(host, es, source, c),
    ensures
        match r {
            Some(f) => child_fault(host, es, e@, c@) == Some(f@),
            None => child_fault(host, es, e@, c@) is None,
        },
{
    let chars = crate::text::chars_of(c.path.as_str());
    match crate::dirs::normalize(chars.as_slice()) {
        None => Some(SummaryError::UnsafePath(c.path.clone())),
        Some(n) => {
            if !crate::text::same_chars(n.as_slice(), chars.as_slice()) {
                return Some(SummaryError::UnnormalizedChild);
            }
            let parent = crate::dirs::parent_path(chars.as_slice());
            let path = crate::text::chars_of(e.path.as_str());
            if !crate::text::same_chars(parent.as_slice(), path.as_slice()) {
                return Some(SummaryError::WrongParent);
            }
            let is_dir: bool = match c.kind {
                FileKind::Dir => true,
                _ => false,
            };
            if is_dir {
                let text = canonical_text(host, c.path.as_str());
                assert(keys.knows(e.source, canonical(host, c.path@)) <==> has_key(
                    host,
                    es,
                    e.source,
                    c.path@,
                ));
                match keys.sources.get(text.as_str()) {
                    Some(list) => if !has_source(list, e.source) {
                        return Some(SummaryError::MissingDirectory);
                    },
                    None => {
                        return Some(SummaryError::MissingDirectory);
                    },
                }
            }
            None
        },
    }
}

/// An early fault of a child is the fault of the entry.
proof fn lemma_child_fault(host: Host, es: Seq<EntryView>, e: EntryView, n: nat, m: nat)
    requires
        n <= m,
        children_fault(host, es, e, n) is Some,
    ensures
        children_fault(host, es, e, m) == children_fault(host, es, e, n),
    decreases m,
{
    if n < m {
        lemma_child_fault(host, es, e, n, (m - 1) as nat);
    }
}

fn check_entry(host: Host, keys: &Keys, e: &DirectorySummaryEntry, Ghost(es): Ghost<Seq<EntryView>>) -> (r:
    Option<SummaryError>)
    requires
        forall|source: u32, c: Seq<char>| #[trigger]
            keys.knows(source, c) <==> has_canonical(host, es, source, c),
    ensures
        match r {
            Some(f) => entry_fault(host, es, e@) == Some(f@),
            None => entry_fault(host, es, e@) is None,
        },
{
    let chars = crate::text::chars_of(e.path.as_str());
    match crate::dirs::normalize(chars.as_slice()) {
        None => {
            return Some(SummaryError::UnsafePath(e.path.clone()));
        },
        Some(n) => {
            if !crate::text::same_chars(n.as_slice(), chars.as_slice()) {
                return Some(SummaryError::UnnormalizedPath);
            }
        },
    }
    let ghost normal = crate::dirs::normal_form(e@.path);
    let mut i: usize = 0;
    while i < e.children.len()
        invariant
            i <= e.children@.len(),
            normal == crate::dirs::normal_form(e@.path),
            normal == Some(e@.path),
            children_fault(host, es, e@, i as nat) is None,
            forall|source: u32, c: Seq<char>| #[trigger]
                keys.knows(source, c) <==> has_canonical(host, es, source, c),
        decreases e.children@.len() - i,
    {
        assert(e@.children[i as int] == e.children@[i as int]@);
        if let Some(f) = check_child(host, keys, e, &e.children[i], Ghost(es)) {
            proof {
                lemma_child_fault(host, es, e@, (i + 1) as nat, e@.children.len());
            }
            return Some(f);
        }
        i += 1;
    }
    None
}

/// An early fault of an entry is the fault of all.
proof fn lemma_entry_fault(host: Host, es: Seq<EntryView>, n: nat, m: nat)
    requires
        n <= m,
        entries_fault(host, es, n) is Some,
    ensures
        entries_fault(host, es, m) == entries_fault(host, es, n),
    decreases m,
{
    if n < m {
        lemma_entry_fault(host, es, n, (m - 1) as nat);
    }
}

/// The first fault of some entries.
pub fn validate_entries(host: Host, es: &[DirectorySummaryEntry]) -> (r: Option<SummaryError>)
    ensures
        match r {
            Some(f) => entries_fault(host, crate::summary::entry_views(es@), es@.len()) == Some(f@),
            None => entries_fault(host, crate::summary::entry_views(es@), es@.len()) is None,
        },
{
    let ghost views = crate::summary::entry_views(es@);
    let keys = keys_of(host, es);
    let mut i: usize = 0;
    while i < es.len()
        invariant
            i <= es@.len(),
            views == crate::summary::entry_views(es@),
            entries_fault(host, views, i as nat) is None,
            forall|source: u32, c: Seq<char>| #[trigger]
                keys.knows(source, c) <==> has_canonical(host, views, source, c),
        decreases es@.len() - i,
    {
        assert(views[i as int] == es@[i as int]@);
        if let Some(f) = check_entry(host, &keys, &es[i], Ghost(views)) {
            proof {
                lemma_entry_fault(host, views, (i + 1) as nat, views.len());
            }
            return Some(f);
        }
        i += 1;
    }
    None
}

// ---------------------------------------------------------------------------
// Order and lookup

/// The bytes of a number, most significant first.
pub open spec fn big_bytes(n: u32) -> Seq<u8> {
    seq![
        (n / 0x100_0000) as u8,
        ((n / 0x1_0000) % 256) as u8,
        ((n / 0x100) % 256) as u8,
        (n % 256) as u8,
    ]
}

/// What is ordered by source and path is ordered by these bytes.
pub open spec fn place_key(host: Host, source: u32, path: Seq<char>) -> Seq<u8> {
    big_bytes(source) + vstd::utf8::encode_utf8(crate::dirs::order_form(host, path))
}

/// The keys of entries.
pub open spec fn place_keys(host: Host, es: Seq<EntryView>) -> Seq<Seq<u8>> {
    Seq::new(es.len(), |i: int| place_key(host, es[i].source, es[i].path))
}

/// An entry comes before another by source and path.
pub open spec fn place_first(host: Host, a: EntryView, b: EntryView) -> bool {
    a.source < b.source || (a.source == b.source && crate::order::text_lt(
        crate::dirs::order_form(host, a.path),
        crate::dirs::order_form(host, b.path),
    ))
}

/// An entry is that of a folder, as far as the host tells paths apart.
pub open spec fn is_at(host: Host, e: EntryView, source: u32, path: Seq<char>) -> bool {
    e.source == source && crate::dirs::order_form(host, e.path) == crate::dirs::order_form(
        host,
        path,
    )
}

proof fn lemma_lex_after(p: Seq<u8>, x: Seq<u8>, y: Seq<u8>)
    ensures
        crate::order::lex_lt(p + x, p + y) == crate::order::lex_lt(x, y),
    decreases p.len(),
{
    if p.len() == 0 {
        assert(p + x =~= x);
        assert(p + y =~= y);
    } else {
        lemma_lex_after(p.drop_first(), x, y);
        assert((p + x).drop_first() =~= p.drop_first() + x);
        assert((p + y).drop_first() =~= p.drop_first() + y);
    }
}

proof fn lemma_lex_before(p: Seq<u8>, q: Seq<u8>, x: Seq<u8>, y: Seq<u8>)
    requires
        p.len() == q.len(),
        crate::order::lex_lt(p, q),
    ensures
        crate::order::lex_lt(p + x, q + y),
    decreases p.len(),
{
    if p.len() > 0 {
        if p[0] == q[0] {
            lemma_lex_before(p.drop_first(), q.drop_first(), x, y);
            assert((p + x).drop_first() =~= p.drop_first() + x);
            assert((q + y).drop_first() =~= q.drop_first() + y);
        }
    }
}

proof fn lemma_big_order(a: u32, b: u32)
    requires
        a < b,
    ensures
        crate::order::lex_lt(big_bytes(a), big_bytes(b)),
{
    reveal_with_fuel(crate::order::lex_lt, 5);
    let (x, y) = (big_bytes(a), big_bytes(b));
    assert(x.drop_first() =~= seq![x[1], x[2], x[3]]);
    assert(y.drop_first() =~= seq![y[1], y[2], y[3]]);
    assert(x.drop_first().drop_first() =~= seq![x[2], x[3]]);
    assert(y.drop_first().drop_first() =~= seq![y[2], y[3]]);
    assert(x.drop_first().drop_first().drop_first() =~= seq![x[3]]);
    assert(y.drop_first().drop_first().drop_first() =~= seq![y[3]]);
}

/// The order of keys is that of sources and paths.
pub proof fn lemma_place_order(host: Host, a: EntryView, b: EntryView)
    ensures
        crate::order::lex_lt(
            place_key(host, a.source, a.path),
            place_key(host, b.source, b.path),
        ) == place_first(host, a, b),
        place_key(host, a.source, a.path) == place_key(host, b.source, b.path) ==> is_at(
            host,
            a,
            b.source,
            b.path,
        ),
{
    let (u, v) = (
        crate::dirs::order_form(host, a.path),
        crate::dirs::order_form(host, b.path),
    );
    let (x, y) = (vstd::utf8::encode_utf8(u), vstd::utf8::encode_utf8(v));
    let (p, q) = (place_key(host, a.source, a.path), place_key(host, b.source, b.path));
    if a.source == b.source {
        lemma_lex_after(big_bytes(a.source), x, y);
        if p == q {
            assert(p.skip(4) =~= x);
            assert(q.skip(4) =~= y);
            crate::text::lemma_encoding_is_faithful(u, v);
        }
    } else if a.source < b.source {
        lemma_big_order(a.source, b.source);
        lemma_lex_before(big_bytes(a.source), big_bytes(b.source), x, y);
        crate::order::lemma_lex_irreflexive(p);
    } else {
        lemma_big_order(b.source, a.source);
        lemma_lex_before(big_bytes(b.source), big_bytes(a.source), y, x);
        crate::order::lemma_lex_irreflexive(p);
        if crate::order::lex_lt(p, q) {
            crate::order::lemma_lex_transitive(p, q, p);
        }
    }
}

/// No entry comes before an earlier one.
pub open spec fn in_place_order(host: Host, es: Seq<EntryView>) -> bool {
    forall|i: int, j: int|
        0 <= i < j < es.len() ==> !place_first(host, #[trigger] es[j], #[trigger] es[i])
}

/// The first entry of a folder.
pub open spec fn entry_at(
    host: Host,
    es: Seq<EntryView>,
    source: u32,
    path: Seq<char>,
) -> Option<EntryView>
    decreases es.len(),
{
    if es.len() == 0 {
        None
    } else {
        match entry_at(host, es.drop_last(), source, path) {
            Some(e) => Some(e),
            None => if is_at(host, es.last(), source, path) {
                Some(es.last())
            } else {
                None
            },
        }
    }
}

proof fn lemma_entry_at(host: Host, es: Seq<EntryView>, source: u32, path: Seq<char>, i: int)
    requires
        0 <= i <= es.len(),
        forall|k: int| 0 <= k < i ==> !is_at(host, #[trigger] es[k], source, path),
        i < es.len() ==> is_at(host, es[i], source, path),
    ensures
        entry_at(host, es, source, path) == if i < es.len() {
            Some(es[i])
        } else {
            None
        },
    decreases es.len(),
{
    if es.len() > 0 {
        let less = es.drop_last();
        assert forall|k: int| 0 <= k < i && k < less.len() implies !is_at(
            host,
            #[trigger] less[k],
            source,
            path,
        ) by {
            assert(less[k] == es[k]);
        }
        if i < less.len() {
            assert(less[i] == es[i]);
            lemma_entry_at(host, less, source, path, i);
        } else {
            lemma_entry_at(host, less, source, path, less.len() as int);
            if i == es.len() {
                assert(!is_at(host, es[es.len() - 1], source, path));
            }
        }
    }
}

/// The entry of a folder is one of the entries.
proof fn lemma_entry_listed(host: Host, es: Seq<EntryView>, source: u32, path: Seq<char>)
    ensures
        entry_at(host, es, source, path) matches Some(e) ==> exists|k: int|
            0 <= k < es.len() && #[trigger] es[k] == e,
    decreases es.len(),
{
    if es.len() > 0 {
        let less = es.drop_last();
        lemma_entry_listed(host, less, source, path);
        match entry_at(host, less, source, path) {
            Some(e) => {
                let k = choose|k: int| 0 <= k < less.len() && #[trigger] less[k] == e;
                assert(es[k] == e);
            },
            None => {
                assert(es[es.len() - 1] == es.last());
            },
        }
    }
}

fn first_place(source: u32, path: &str, other_source: u32, other_path: &str) -> (r: bool)
    ensures
        r == (source < other_source || (source == other_source && crate::order::text_lt(
            path@,
            other_path@,
        ))),
{
    if source != other_source {
        return source < other_source;
    }
    proof {
        let (x, y) = (vstd::utf8::encode_utf8(path@), vstd::utf8::encode_utf8(other_path@));
        crate::order::lemma_lex_irreflexive(x);
        if crate::order::lex_lt(x, y) && crate::order::lex_lt(y, x) {
            crate::order::lemma_lex_transitive(x, y, x);
        }
    }
    match crate::order::text_standing(path, other_path) {
        crate::order::Standing::Before => true,
        _ => false,
    }
}

/// A child of a folder with the totals that its own entry has.
pub open spec fn refreshed(host: Host, es: Seq<EntryView>, source: u32, c: ChildView) -> ChildView {
    if c.kind is Dir {
        match looked_up(host, es, source, c.path) {
            Some(e) => ChildView {
                logical_bytes: e.logical_bytes,
                file_count: e.file_count,
                directory_count: e.directory_count,
                ..c
            },
            None => c,
        }
    } else {
        c
    }
}

/// The entry of a folder however its path is spelled.
pub open spec fn looked_up(host: Host, es: Seq<EntryView>, source: u32, path: Seq<char>) -> Option<EntryView> {
    match crate::dirs::normal_form(path) {
        None => None,
        Some(n) => entry_at(host, es, source, n),
    }
}

/// The children of a folder, each folder among them with its totals.
pub open spec fn listed(host: Host, es: Seq<EntryView>, source: u32, path: Seq<char>) -> Option<
    Seq<ChildView>,
> {
    match looked_up(host, es, source, path) {
        None => None,
        Some(e) => Some(
            Seq::new(e.children.len(), |i: int| refreshed(host, es, source, e.children[i])),
        ),
    }
}

// ---------------------------------------------------------------------------
// Summaries

/// The summary in a file, or what is wrong with it.
pub open spec fn opened_summary(host: Host, b: Seq<u8>) -> Result<SummaryView, Fault> {
    match crate::sidecar::generation_in(b) {
        Err(f) => Err(f),
        Ok(generation) => match crate::sidecar::entries_in(b) {
            Err(f) => Err(f),
            Ok(es) => match entries_fault(host, es, es.len()) {
                Some(f) => Err(f),
                None => Ok(
                    SummaryView {
                        host,
                        generation,
                        entries: crate::order::key_sorted(es, place_keys(host, es)),
                    },
                ),
            },
        },
    }
}

/// The same for one generation only.
pub open spec fn opened_for(host: Host, b: Seq<u8>, generation: u64) -> Result<SummaryView, Fault> {
    match opened_summary(host, b) {
        Err(f) => Err(f),
        Ok(v) => if v.generation != generation {
            Err(Fault::OtherGeneration { stored: v.generation, expected: generation })
        } else {
            Ok(v)
        },
    }
}

/// What happens to the file beside an index that is published.
#[derive(Debug, Clone, Copy, PartialEq, Eq, Structural)]
pub enum Publication {
    /// The staged file takes its place.
    Install,
    /// There is none, so that no totals of another generation are left.
    Remove,
}

/// What publishing a staged file comes to.
pub open spec fn publication(staged: Option<Seq<u8>>, generation: u64) -> Result<
    Publication,
    Fault,
> {
    match staged {
        None => Ok(Publication::Remove),
        Some(b) => match crate::sidecar::generation_in(b) {
            Err(f) => Err(f),
            Ok(g) => if g != generation {
                Err(Fault::StagedGeneration)
            } else {
                Ok(Publication::Install)
            },
        },
    }
}

/// Whether a file may be read as a summary at all.
pub fn admit_sidecar(is_regular: bool, len: u64) -> (r: Option<SummaryError>)
    ensures
        r is None <==> is_regular && len <= crate::sidecar::MAX_SIDECAR_BYTES,
        !is_regular ==> r is Some && r->0@ == Fault::NotRegular,
        is_regular && len > crate::sidecar::MAX_SIDECAR_BYTES ==> r is Some && r->0@
            == Fault::TooLarge,
{
    if !is_regular {
        Some(SummaryError::NotRegular)
    } else if len > crate::sidecar::MAX_SIDECAR_BYTES {
        Some(SummaryError::TooLarge)
    } else {
        None
    }
}

fn key_bytes(host: Host, source: u32, path: &str) -> (out: Vec<u8>)
    ensures
        out@ == place_key(host, source, path@),
{
    let mut out: Vec<u8> = Vec::new();
    out.push((source / 0x100_0000) as u8);
    out.push(((source / 0x1_0000) % 256) as u8);
    out.push(((source / 0x100) % 256) as u8);
    out.push((source % 256) as u8);
    let form = crate::dirs::order_text(host, path);
    crate::bytes::write_all(&mut out, form.as_str().as_bytes());
    assert(out@ =~= place_key(host, source, path@));
    out
}

fn sort_entries(host: Host, es: Vec<DirectorySummaryEntry>) -> (out: Vec<DirectorySummaryEntry>)
    ensures
        crate::summary::entry_views(out@) == crate::order::key_sorted(
            crate::summary::entry_views(es@),
            place_keys(host, crate::summary::entry_views(es@)),
        ),
        in_place_order(host, crate::summary::entry_views(out@)),
        plain_children(crate::summary::entry_views(es@)) ==> plain_children(
            crate::summary::entry_views(out@),
        ),
{
    let ghost views = crate::summary::entry_views(es@);
    let ghost keys_wanted = place_keys(host, views);
    let mut keys: Vec<Vec<u8>> = Vec::new();
    let mut i: usize = 0;
    while i < es.len()
        invariant
            i <= es@.len(),
            keys@.len() == i,
            views == crate::summary::entry_views(es@),
            keys_wanted == place_keys(host, views),
            forall|k: int| 0 <= k < i ==> (#[trigger] keys@[k])@ == keys_wanted[k],
        decreases es@.len() - i,
    {
        keys.push(key_bytes(host, es[i].source, es[i].path.as_str()));
        i += 1;
    }
    assert(crate::order::key_views(keys@) =~= keys_wanted);
    let order = crate::order::key_order(&keys, false);
    let out = crate::order::arranged(es, &order);
    proof {
        let sorted = crate::summary::entry_views(out@);
        assert(sorted =~= crate::rank::picked(views, order@));
        crate::order::lemma_key_sorted(views, keys_wanted, order@);
        if plain_children(views) {
            assert forall|i: int| 0 <= i < sorted.len() implies all_plain(
                (#[trigger] sorted[i]).children,
            ) by {
                assert(sorted[i] == views[order@[i] as int]);
            }
        }
        assert forall|i: int, j: int| 0 <= i < j < sorted.len() implies !place_first(
            host,
            #[trigger] sorted[j],
            #[trigger] sorted[i],
        ) by {
            let a = order@[i] as int;
            let b = order@[j] as int;
            assert(crate::order::comes_first(keys_wanted, false, a, b));
            lemma_place_order(host, views[b], views[a]);
            lemma_place_order(host, views[a], views[b]);
            crate::order::lemma_lex_irreflexive(keys_wanted[a]);
            if crate::order::lex_lt(keys_wanted[a], keys_wanted[b]) && crate::order::lex_lt(
                keys_wanted[b],
                keys_wanted[a],
            ) {
                crate::order::lemma_lex_transitive(keys_wanted[a], keys_wanted[b], keys_wanted[a]);
            }
        }
    }
    out
}

impl DirectorySummary {
    /// The entries stand in the order of their keys, and the paths of their children are in
    /// normal form.
    pub closed spec fn wf(&self) -> bool {
        in_place_order(self@.host, self@.entries) && plain_children(self@.entries)
    }

    /// Reads a summary from its file, whatever its generation.
    pub fn open(host: Host, b: &[u8]) -> (r: Result<DirectorySummary, SummaryError>)
        ensures
            match r {
                Ok(s) => s.wf() && opened_summary(host, b@) == Ok::<SummaryView, Fault>(s@),
                Err(e) => opened_summary(host, b@) == Err::<SummaryView, Fault>(e@),
            },
    {
        let generation: u64 = match crate::sidecar::sidecar_generation(b) {
            Ok(g) => g,
            Err(e) => {
                return Err(e);
            },
        };
        let es = match crate::sidecar::sidecar_entries(b) {
            Ok(es) => es,
            Err(e) => {
                return Err(e);
            },
        };
        if let Some(e) = validate_entries(host, es.as_slice()) {
            return Err(e);
        }
        proof {
            lemma_plain_children(host, crate::summary::entry_views(es@));
        }
        Ok(DirectorySummary { host, generation, entries: sort_entries(host, es) })
    }

    /// Reads a summary only when it belongs to the expected compact base.
    pub fn open_for_compact(host: Host, b: &[u8], generation: u64) -> (r: Result<
        DirectorySummary,
        SummaryError,
    >)
        ensures
            match r {
                Ok(s) => s.wf() && opened_for(host, b@, generation) == Ok::<SummaryView, Fault>(s@),
                Err(e) => opened_for(host, b@, generation) == Err::<SummaryView, Fault>(e@),
            },
    {
        match DirectorySummary::open(host, b) {
            Err(e) => Err(e),
            Ok(s) => if s.generation != generation {
                Err(SummaryError::OtherGeneration { stored: s.generation, expected: generation })
            } else {
                Ok(s)
            },
        }
    }

    /// The file beside a compact index.
    pub fn path_for(index_path: &str) -> (r: String)
        ensures
            r@ == index_path@ + ".dirs"@,
    {
        crate::text::joined(index_path, ".dirs")
    }

    /// What to do with the file beside a compact index that is published.
    pub fn publish(staged: Option<&[u8]>, expected_generation: u64) -> (r: Result<
        Publication,
        SummaryError,
    >)
        ensures
            match r {
                Ok(p) => publication(
                    crate::delta::file_view(staged),
                    expected_generation,
                ) == Ok::<Publication, Fault>(p),
                Err(e) => publication(
                    crate::delta::file_view(staged),
                    expected_generation,
                ) == Err::<Publication, Fault>(e@),
            },
    {
        match staged {
            None => Ok(Publication::Remove),
            Some(b) => match crate::sidecar::sidecar_generation(b) {
                Err(e) => Err(e),
                Ok(g) => if g != expected_generation {
                    Err(SummaryError::StagedGeneration)
                } else {
                    Ok(Publication::Install)
                },
            },
        }
    }

    /// Whose rules tell paths apart.
    pub fn host(&self) -> (r: Host)
        ensures
            r == self@.host,
    {
        self.host
    }

    /// The generation of the index that it belongs to.
    pub fn generation(&self) -> (r: u64)
        ensures
            r == self@.generation,
    {
        self.generation
    }

    /// All entries.
    pub fn entries(&self) -> (r: &[DirectorySummaryEntry])
        ensures
            crate::summary::entry_views(r@) == self@.entries,
    {
        self.entries.as_slice()
    }

    fn find(&self, source: u32, path: &str) -> (r: Option<usize>)
        requires
            self.wf(),
        ensures
            match r {
                Some(i) => i < self.entries@.len() && entry_at(
                    self@.host,
                    self@.entries,
                    source,
                    path@,
                ) == Some(self.entries@[i as int]@),
                None => entry_at(self@.host, self@.entries, source, path@) is None,
            },
    {
        let host = self.host;
        let ghost es = self@.entries;
        let form = crate::dirs::order_text(host, path);
        let mut low: usize = 0;
        let mut high: usize = self.entries.len();
        let ghost probe = EntryView {
            source,
            path: path@,
            logical_bytes: 0,
            file_count: 0,
            directory_count: 0,
            children: Seq::empty(),
        };
        while low < high
            invariant
                low <= high <= self.entries@.len(),
                es == self@.entries,
                host == self@.host,
                in_place_order(host, es),
                form@ == crate::dirs::order_form(host, path@),
                probe.source == source,
                probe.path == path@,
                forall|k: int| 0 <= k < low ==> place_first(host, #[trigger] es[k], probe),
                forall|k: int|
                    high <= k < es.len() ==> !place_first(host, #[trigger] es[k], probe),
            decreases high - low,
        {
            let mid: usize = low + (high - low) / 2;
            let e = &self.entries[mid];
            assert(e@ == es[mid as int]);
            let here = crate::dirs::order_text(host, e.path.as_str());
            if first_place(e.source, here.as_str(), source, form.as_str()) {
                proof {
                    assert forall|k: int| 0 <= k < mid + 1 implies place_first(
                        host,
                        #[trigger] es[k],
                        probe,
                    ) by {
                        if k < mid {
                            assert(!place_first(host, es[mid as int], es[k]));
                            lemma_first_chain(host, es[k], es[mid as int], probe);
                        }
                    }
                }
                low = mid + 1;
            } else {
                proof {
                    assert forall|k: int| mid <= k < es.len() implies !place_first(
                        host,
                        #[trigger] es[k],
                        probe,
                    ) by {
                        if k > mid {
                            assert(!place_first(host, es[k], es[mid as int]));
                            if place_first(host, es[k], probe) {
                                lemma_first_chain(host, es[mid as int], es[k], probe);
                            }
                        }
                    }
                }
                high = mid;
            }
        }
        proof {
            assert forall|k: int| 0 <= k < low implies !is_at(
                host,
                #[trigger] es[k],
                source,
                path@,
            ) by {
                crate::order::lemma_lex_irreflexive(vstd::utf8::encode_utf8(form@));
                assert(place_first(host, es[k], probe));
            }
        }
        if low < self.entries.len() {
            let e = &self.entries[low];
            assert(e@ == es[low as int]);
            let here = crate::dirs::order_text(host, e.path.as_str());
            if e.source == source && crate::text::same_text(here.as_str(), form.as_str()) {
                proof {
                    lemma_entry_at(host, es, source, path@, low as int);
                }
                return Some(low);
            }
        }
        proof {
            assert forall|k: int| 0 <= k < es.len() implies !is_at(
                host,
                #[trigger] es[k],
                source,
                path@,
            ) by {
                if k > low {
                    if is_at(host, es[k], source, path@) {
                        let first = crate::dirs::order_form(host, es[low as int].path);
                        assert(!place_first(host, es[k], es[low as int]));
                        assert(!place_first(host, es[low as int], probe));
                        crate::order::lemma_lex_total(
                            vstd::utf8::encode_utf8(first),
                            vstd::utf8::encode_utf8(form@),
                        );
                        crate::text::lemma_encoding_is_faithful(first, form@);
                    }
                }
            }
            lemma_entry_at(host, es, source, path@, es.len() as int);
        }
        None
    }

    /// The entry of a folder, by source and path.
    pub fn get(&self, source: u32, path: &str) -> (r: Option<&DirectorySummaryEntry>)
        requires
            self.wf(),
        ensures
            match r {
                Some(e) => looked_up(self@.host, self@.entries, source, path@) == Some(e@),
                None => looked_up(self@.host, self@.entries, source, path@) is None,
            },
    {
        let chars = crate::text::chars_of(path);
        match crate::dirs::normalize(chars.as_slice()) {
            None => None,
            Some(n) => {
                let text = crate::text::string_of(n.as_slice());
                match self.find(source, text.as_str()) {
                    Some(i) => Some(&self.entries[i]),
                    None => None,
                }
            },
        }
    }

    /// The direct children of a folder, each folder among them with its totals.
    pub fn children(&self, source: u32, path: &str) -> (r: Option<Vec<DirectoryChild>>)
        requires
            self.wf(),
        ensures
            match r {
                Some(cs) => listed(self@.host, self@.entries, source, path@) == Some(
                    crate::summary::child_views(cs@),
                ) && all_plain(crate::summary::child_views(cs@)),
                None => listed(self@.host, self@.entries, source, path@) is None,
            },
    {
        let ghost es = self@.entries;
        let ghost host = self@.host;
        let e = match self.get(source, path) {
            Some(e) => e,
            None => {
                return None;
            },
        };
        let ghost wanted = Seq::new(
            e@.children.len(),
            |i: int| refreshed(host, es, source, e@.children[i]),
        );
        let mut out: Vec<DirectoryChild> = Vec::new();
        let mut i: usize = 0;
        while i < e.children.len()
            invariant
                i <= e.children@.len(),
                self.wf(),
                es == self@.entries,
                host == self@.host,
                out@.len() == i,
                forall|k: int|
                    0 <= k < i ==> (#[trigger] out@[k])@ == refreshed(host, es, source, e@.children[k]),
            decreases e.children@.len() - i,
        {
            assert(e@.children[i as int] == e.children@[i as int]@);
            let mut child = e.children[i].clone();
            let is_dir: bool = match child.kind {
                FileKind::Dir => true,
                _ => false,
            };
            if is_dir {
                if let Some(own) = self.get(source, child.path.as_str()) {
                    child.logical_bytes = own.logical_bytes;
                    child.file_count = own.file_count;
                    child.directory_count = own.directory_count;
                }
            }
            out.push(child);
            i += 1;
        }
        proof {
            let cs = crate::summary::child_views(out@);
            assert(cs =~= wanted);
            let n = crate::dirs::normal_form(path@)->0;
            lemma_entry_listed(host, es, source, n);
            let k = choose|k: int| 0 <= k < es.len() && #[trigger] es[k] == e@;
            assert(all_plain(es[k].children));
            assert forall|i: int| 0 <= i < cs.len() implies is_plain((#[trigger] cs[i]).path) by {
                assert(is_plain(e@.children[i].path));
            }
        }
        Some(out)
    }
}

/// What does not come after something that comes first comes first too.
proof fn lemma_first_chain(host: Host, a: EntryView, b: EntryView, c: EntryView)
    requires
        !place_first(host, b, a),
        place_first(host, b, c),
    ensures
        place_first(host, a, c),
{
    let (x, y, z) = (
        vstd::utf8::encode_utf8(crate::dirs::order_form(host, a.path)),
        vstd::utf8::encode_utf8(crate::dirs::order_form(host, b.path)),
        vstd::utf8::encode_utf8(crate::dirs::order_form(host, c.path)),
    );
    if a.source == b.source && b.source == c.source {
        crate::order::lemma_lex_total(x, y);
        if crate::order::lex_lt(x, y) {
            crate::order::lemma_lex_transitive(x, y, z);
        }
    }
}

// ---------------------------------------------------------------------------
// Building

/// The keys of records: source, then path.
pub open spec fn record_keys(host: Host, rs: Seq<RecordView>) -> Seq<Seq<u8>> {
    Seq::new(rs.len(), |i: int| place_key(host, rs[i].source, rs[i].path))
}

/// The first path that a summary does not accept.
pub open spec fn first_unsafe(rs: Seq<RecordView>) -> Option<Seq<char>>
    decreases rs.len(),
{
    if rs.len() == 0 {
        None
    } else {
        match first_unsafe(rs.drop_last()) {
            Some(p) => Some(p),
            None => if crate::dirs::normal_form(rs.last().path) is None {
                Some(rs.last().path)
            } else {
                None
            },
        }
    }
}

/// The same in the order of source and path.
pub open spec fn unsafe_path(host: Host, rs: Seq<RecordView>) -> Option<Seq<char>> {
    first_unsafe(crate::order::key_sorted(rs, record_keys(host, rs)))
}

/// What building a summary of some entries gives.
pub open spec fn built_summary(
    host: Host,
    rs: Seq<RecordView>,
    es: Seq<EntryView>,
    generation: u64,
) -> Result<(Seq<u8>, SummaryView), Fault> {
    if rs.len() > 0x1_0000_0000 {
        Err(Fault::TooManyRecords)
    } else if generation == 0 {
        Err(Fault::ZeroGeneration)
    } else {
        match unsafe_path(host, rs) {
            Some(p) => Err(Fault::UnsafePath(p)),
            None => match crate::sidecar::sidecar_made(es, generation) {
                Err(f) => Err(f),
                Ok(b) => match opened_for(host, b, generation) {
                    Err(f) => Err(f),
                    Ok(v) => Ok((b, v)),
                },
            },
        }
    }
}

proof fn lemma_safe_prefix(rs: Seq<RecordView>, n: int)
    requires
        0 <= n <= rs.len(),
        first_unsafe(rs.take(n)) is Some,
    ensures
        first_unsafe(rs) == first_unsafe(rs.take(n)),
    decreases rs.len(),
{
    if n < rs.len() {
        assert(rs.drop_last().take(n) =~= rs.take(n));
        lemma_safe_prefix(rs.drop_last(), n);
    } else {
        assert(rs.take(n) =~= rs);
    }
}

/// The first path in the order of source and path that a summary does not accept.
fn find_unsafe(host: Host, records: &[FileRecord]) -> (r: Option<String>)
    ensures
        match r {
            Some(p) => unsafe_path(host, crate::types::record_views(records@)) == Some(p@),
            None => unsafe_path(host, crate::types::record_views(records@)) is None,
        },
{
    let ghost views = crate::types::record_views(records@);
    let ghost wanted = record_keys(host, views);
    let mut keys: Vec<Vec<u8>> = Vec::new();
    let mut i: usize = 0;
    while i < records.len()
        invariant
            i <= records@.len(),
            keys@.len() == i,
            views == crate::types::record_views(records@),
            wanted == record_keys(host, views),
            forall|k: int| 0 <= k < i ==> (#[trigger] keys@[k])@ == wanted[k],
        decreases records@.len() - i,
    {
        keys.push(key_bytes(host, records[i].source, records[i].path.as_str()));
        i += 1;
    }
    assert(crate::order::key_views(keys@) =~= wanted);
    let order = crate::order::key_order(&keys, false);
    let ghost sorted = crate::rank::picked(views, order@);
    proof {
        crate::order::lemma_key_sorted(views, wanted, order@);
    }
    let mut k: usize = 0;
    assert(sorted.take(0) =~= Seq::empty());
    while k < order.len()
        invariant
            k <= order@.len(),
            views == crate::types::record_views(records@),
            sorted == crate::rank::picked(views, order@),
            unsafe_path(host, views) == first_unsafe(sorted),
            forall|i: int| 0 <= i < order@.len() ==> (#[trigger] order@[i]) < records@.len(),
            first_unsafe(sorted.take(k as int)) is None,
        decreases order@.len() - k,
    {
        let at: usize = order[k];
        let chars = crate::text::chars_of(records[at].path.as_str());
        proof {
            assert(sorted.take(k + 1).drop_last() =~= sorted.take(k as int));
            assert(sorted.take(k + 1).last() == records@[at as int]@);
        }
        if crate::dirs::normalize(chars.as_slice()).is_none() {
            proof {
                lemma_safe_prefix(sorted, k + 1);
            }
            return Some(records[at].path.clone());
        }
        k += 1;
    }
    assert(sorted.take(k as int) =~= sorted);
    None
}

impl DirectorySummary {
    /// Summarizes records, makes the file of the summary, and reads it back.
    pub fn build(host: Host, records: &[FileRecord], generation: u64) -> (r: Result<
        (Vec<u8>, DirectorySummary),
        SummaryError,
    >)
        ensures
            exists|es: Seq<EntryView>|
                #[trigger] crate::summary::summarizes(
                    host,
                    es,
                    crate::types::record_views(records@),
                ) && match r {
                    Ok((b, s)) => s.wf() && built_summary(
                        host,
                        crate::types::record_views(records@),
                        es,
                        generation,
                    ) == Ok::<(Seq<u8>, SummaryView), Fault>((b@, s@)) && s@.generation
                        == generation && s@.entries == crate::order::key_sorted(
                        es,
                        place_keys(host, es),
                    ) && (host.cased() ==> s@.entries == es),
                    Err(e) => built_summary(
                        host,
                        crate::types::record_views(records@),
                        es,
                        generation,
                    ) == Err::<(Seq<u8>, SummaryView), Fault>(e@),
                },
    {
        let entries = crate::summary::summarize(host, records);
        let ghost es = crate::summary::entry_views(entries@);
        let folders: usize = entries.len();
        assert(es.len() == folders);
        let count: usize = records.len();
        if count as u64 > 0x1_0000_0000 {
            return Err(SummaryError::TooManyRecords);
        }
        if generation == 0 {
            return Err(SummaryError::ZeroGeneration);
        }
        if let Some(p) = find_unsafe(host, records) {
            return Err(SummaryError::UnsafePath(p));
        }
        match crate::sidecar::make_sidecar(entries.as_slice(), generation) {
            Err(e) => Err(e),
            Ok(b) => match DirectorySummary::open_for_compact(host, b.as_slice(), generation) {
                Err(e) => Err(e),
                Ok(s) => {
                    proof {
                        if host.cased() {
                            lemma_order_kept(host, es);
                        }
                    }
                    Ok((b, s))
                },
            },
        }
    }
}

proof fn lemma_faultless(host: Host, es: Seq<EntryView>, n: nat, i: int)
    requires
        0 <= i < n,
        entries_fault(host, es, n) is None,
    ensures
        entry_fault(host, es, es[i]) is None,
    decreases n,
{
    if i < n - 1 {
        lemma_faultless(host, es, (n - 1) as nat, i);
    }
}

/// Each entry comes before the later ones.
pub open spec fn strictly_placed(host: Host, es: Seq<EntryView>) -> bool {
    forall|i: int, j: int|
        0 <= i < j < es.len() ==> place_first(host, #[trigger] es[i], #[trigger] es[j])
}

/// Entries that stand in order stay as they are.
proof fn lemma_placed_stay(host: Host, es: Seq<EntryView>)
    requires
        strictly_placed(host, es),
        es.len() <= usize::MAX,
    ensures
        crate::order::key_sorted(es, place_keys(host, es)) == es,
{
    let keys = place_keys(host, es);
    assert forall|i: int, j: int| 0 <= i < j < keys.len() implies crate::order::lex_lt(
        #[trigger] keys[i],
        #[trigger] keys[j],
    ) by {
        lemma_place_order(host, es[i], es[j]);
        assert(place_first(host, es[i], es[j]));
    }
    crate::order::lemma_sorted_stays(es, keys);
}

/// Summarized entries stand in the order of their keys already, where case counts.
proof fn lemma_order_kept(host: Host, es: Seq<EntryView>)
    requires
        host.cased(),
        crate::summary::entries_ordered(es),
        entries_fault(host, es, es.len()) is None,
        es.len() <= usize::MAX,
    ensures
        crate::order::key_sorted(es, place_keys(host, es)) == es,
{
    assert forall|i: int| 0 <= i < es.len() implies crate::dirs::order_form(
        host,
        (#[trigger] es[i]).path,
    ) == es[i].path by {
        lemma_faultless(host, es, es.len(), i);
        crate::dirs::lemma_tidy_plain(es[i].path);
        crate::dirs::lemma_nothing_to_replace(es[i].path);
    }
    assert forall|i: int, j: int| 0 <= i < j < es.len() implies place_first(
        host,
        #[trigger] es[i],
        #[trigger] es[j],
    ) by {
        assert(crate::summary::key_first(es[i], es[j]));
    }
    lemma_placed_stay(host, es);
}

/// A file of valid entries in order opens as the summary that was written, for its own
/// generation and no other.
pub proof fn law_summary_is_generation_bound(
    host: Host,
    b: Seq<u8>,
    es: Seq<EntryView>,
    generation: u64,
    other: u64,
)
    requires
        crate::sidecar::gives_back(b, es, generation),
        generation != 0,
        crate::sidecar::payload_of(es).len() <= crate::sidecar::MAX_UNCOMPRESSED_BYTES,
        crate::sidecar::payload_of(es).len() <= isize::MAX,
        strictly_placed(host, es),
        es.len() <= usize::MAX,
        entries_fault(host, es, es.len()) is None,
        other != generation,
    ensures
        opened_for(host, b, generation) == Ok::<SummaryView, Fault>(
            SummaryView { host, generation, entries: es },
        ),
        opened_for(host, b, other) == Err::<SummaryView, Fault>(
            Fault::OtherGeneration { stored: generation, expected: other },
        ),
{
    lemma_placed_stay(host, es);
}

} // verus!
