//! Directory totals under live changes.
//!
//! An overlay never writes a summary: it holds what changed since the summary was built, and
//! answers from both.

use crate::compact_index::{CompactIndex, CompactView, IndexError};
use crate::delta::{ChangeView, DeltaChange, DeltaIndex, OverlayView};
use crate::dir_summary::{all_plain, canonical, is_plain, DirectorySummary, SummaryView};
use crate::host::Host;
use crate::pathmap::{HasPath, PathMap};
use crate::sidecar::{Fault, SummaryError};
use crate::summary::{ChildView, DirectoryChild, DirectorySummaryEntry, EntryView};
use crate::types::{FileKind, FileRecord, RecordView};
use vstd::hash_map::StringHashMap;
use vstd::prelude::*;

verus! {

struct ChildChange {
    key: String,
    child: Option<DirectoryChild>,
}

impl View for ChildChange {
    type V = Option<ChildView>;

    closed spec fn view(&self) -> Option<ChildView> {
        match self.child {
            Some(c) => Some(c@),
            None => None,
        }
    }
}

impl HasPath for ChildChange {
    closed spec fn key(&self) -> Seq<char> {
        self.key@
    }

    fn key_text(&self) -> (r: &str) {
        self.key.as_str()
    }
}

struct FolderChange {
    key: String,
    bytes: i128,
    files: i128,
    dirs: i128,
    children: PathMap<ChildChange>,
}

/// What changed of a folder: its totals, and its direct children by their paths.
#[verifier::ext_equal]
pub struct FolderChangeView {
    pub bytes: int,
    pub files: int,
    pub dirs: int,
    pub children: Map<Seq<char>, Option<ChildView>>,
}

impl View for FolderChange {
    type V = FolderChangeView;

    closed spec fn view(&self) -> FolderChangeView {
        FolderChangeView {
            bytes: self.bytes as int,
            files: self.files as int,
            dirs: self.dirs as int,
            children: self.children.entries(),
        }
    }
}

impl HasPath for FolderChange {
    closed spec fn key(&self) -> Seq<char> {
        self.key@
    }

    fn key_text(&self) -> (r: &str) {
        self.key.as_str()
    }
}

/// An in-memory projection of live changes onto a summary.
pub struct DirectorySummaryOverlay {
    base: DirectorySummary,
    folders: PathMap<FolderChange>,
}

/// An overlay as a mathematical value.
#[verifier::ext_equal]
pub struct SummaryOverlayView {
    pub base: SummaryView,
    /// What changed, by source and path.
    pub folders: Folders,
}

/// The changed folders by their keys.
pub type Folders = Map<Seq<char>, FolderChangeView>;

impl View for DirectorySummaryOverlay {
    type V = SummaryOverlayView;

    closed spec fn view(&self) -> SummaryOverlayView {
        SummaryOverlayView {
            base: self.base@,
            folders: self.folders.entries(),
        }
    }
}

// ---------------------------------------------------------------------------
// Keys

/// The key of a folder of a source.
pub open spec fn slot_key(host: Host, source: u32, path: Seq<char>) -> Seq<char> {
    crate::text::decimal(source as nat) + ":"@ + canonical(host, path)
}

proof fn lemma_decimal_is_faithful(a: nat, b: nat)
    requires
        crate::text::decimal(a) == crate::text::decimal(b),
    ensures
        a == b,
    decreases a,
{
    crate::text::lemma_decimal_digits(a / 10);
    crate::text::lemma_decimal_digits(b / 10);
    let (x, y) = (crate::text::decimal(a), crate::text::decimal(b));
    assert(x.last() == y.last());
    if a >= 10 && b >= 10 {
        assert(x.drop_last() =~= crate::text::decimal(a / 10));
        assert(y.drop_last() =~= crate::text::decimal(b / 10));
        lemma_decimal_is_faithful(a / 10, b / 10);
    }
}

/// Different folders have different keys, as far as the host tells paths apart.
pub proof fn law_keys_tell_folders_apart(host: Host, s: u32, p: Seq<char>, t: u32, q: Seq<char>)
    requires
        slot_key(host, s, p) == slot_key(host, t, q),
    ensures
        s == t,
        canonical(host, p) == canonical(host, q),
{
    reveal_strlit(":");
    crate::text::lemma_decimal_digits(s as nat);
    crate::text::lemma_decimal_digits(t as nat);
    let (x, y) = (crate::text::decimal(s as nat), crate::text::decimal(t as nat));
    let (a, b) = (slot_key(host, s, p), slot_key(host, t, q));
    if x.len() < y.len() {
        assert(a[x.len() as int] == ':');
        assert(b[x.len() as int] == y[x.len() as int]);
    } else if y.len() < x.len() {
        assert(b[y.len() as int] == ':');
        assert(a[y.len() as int] == x[y.len() as int]);
    }
    assert(x =~= a.take(x.len() as int));
    assert(y =~= b.take(y.len() as int));
    assert(canonical(host, p) =~= a.skip(x.len() as int + 1));
    assert(canonical(host, q) =~= b.skip(y.len() as int + 1));
    lemma_decimal_is_faithful(s as nat, t as nat);
}

fn slot_text(host: Host, source: u32, path: &str) -> (r: String)
    ensures
        r@ == slot_key(host, source, path@),
{
    let digits = crate::text::decimal_text(source as u64);
    let form = crate::dir_summary::canonical_text(host, path);
    crate::text::joined3(digits.as_str(), ":", form.as_str())
}

// ---------------------------------------------------------------------------
// Changes

/// A folder of which nothing changed.
pub open spec fn unchanged() -> FolderChangeView {
    FolderChangeView { bytes: 0, files: 0, dirs: 0, children: Map::empty() }
}

/// What changed of a folder.
pub open spec fn change_at(m: Folders, key: Seq<char>) -> FolderChangeView {
    if m.contains_key(key) {
        m[key]
    } else {
        unchanged()
    }
}

/// A count, kept among the numbers that a counter holds.
pub open spec fn held(n: int) -> int {
    if n > i128::MAX {
        i128::MAX as int
    } else if n < i128::MIN {
        i128::MIN as int
    } else {
        n
    }
}

/// A folder's totals with a record more (`sign` is 1) or less (`sign` is -1) below it.
pub open spec fn shifted(f: FolderChangeView, r: RecordView, sign: int) -> FolderChangeView {
    FolderChangeView {
        bytes: if crate::summary::counts_as_file(r.kind) {
            held(f.bytes + sign * r.size)
        } else {
            f.bytes
        },
        files: if crate::summary::counts_as_file(r.kind) {
            held(f.files + sign)
        } else {
            f.files
        },
        dirs: if r.kind is Dir {
            held(f.dirs + sign)
        } else {
            f.dirs
        },
        ..f
    }
}

/// The folders with a record more or less below each of `above`.
pub open spec fn adjusted(
    host: Host,
    m: Folders,
    r: RecordView,
    above: Seq<Seq<char>>,
    sign: int,
) -> Folders
    decreases above.len(),
{
    if above.len() == 0 {
        m
    } else {
        let less = adjusted(host, m, r, above.drop_last(), sign);
        let key = slot_key(host, r.source, above.last());
        less.insert(key, shifted(change_at(less, key), r, sign))
    }
}

/// The folders with a changed child: the record's, or none any more.
pub open spec fn with_child(
    host: Host,
    m: Folders,
    r: RecordView,
    child: Option<ChildView>,
) -> Folders {
    let key = slot_key(host, r.source, crate::dirs::parent_of(crate::summary::place(r)));
    let f = change_at(m, key);
    m.insert(
        key,
        FolderChangeView {
            children: f.children.insert(canonical(host, crate::summary::place(r)), child),
            ..f
        },
    )
}

/// A record as a child of its folder.
pub open spec fn record_child(r: RecordView) -> ChildView {
    ChildView {
        path: crate::summary::place(r),
        kind: r.kind,
        logical_bytes: if r.kind is Dir {
            0
        } else {
            r.size
        },
        file_count: if crate::summary::counts_as_file(r.kind) {
            1
        } else {
            0
        },
        directory_count: 0,
    }
}

/// The overlay once a record was counted out.
pub open spec fn counted_out(o: SummaryOverlayView, r: RecordView) -> SummaryOverlayView {
    SummaryOverlayView {
        folders: with_child(
            o.base.host,
            adjusted(o.base.host, o.folders, r, crate::summary::folders(r), -1),
            r,
            None,
        ),
        ..o
    }
}

/// The overlay once a record was counted in.
pub open spec fn counted_in(o: SummaryOverlayView, r: RecordView) -> SummaryOverlayView {
    SummaryOverlayView {
        folders: with_child(
            o.base.host,
            adjusted(o.base.host, o.folders, r, crate::summary::folders(r), 1),
            r,
            Some(record_child(r)),
        ),
        ..o
    }
}

/// What is wrong with a record that is to be counted out; `target` is the place that it must
/// have.
pub open spec fn record_fault(host: Host, r: RecordView, target: Option<Seq<char>>) -> Option<Fault> {
    match crate::dirs::normal_form(r.path) {
        None => Some(Fault::UnsafePath(r.path)),
        Some(n) => if target is Some && canonical(host, target->0) != canonical(host, n) {
            Some(Fault::RemovalMismatch)
        } else {
            None
        },
    }
}

/// The overlay once records were counted out, up to the first that is wrong.
pub open spec fn all_out(o: SummaryOverlayView, rs: Seq<RecordView>, target: Option<Seq<char>>) -> (
    SummaryOverlayView,
    Option<Fault>,
)
    decreases rs.len(),
{
    if rs.len() == 0 {
        (o, None)
    } else {
        let (p, f) = all_out(o, rs.drop_last(), target);
        if f is Some {
            (p, f)
        } else if record_fault(o.base.host, rs.last(), target) is Some {
            (p, record_fault(o.base.host, rs.last(), target))
        } else {
            (counted_out(p, rs.last()), None)
        }
    }
}

/// The overlay once a change was applied whose path held `previous` before, and what was wrong
/// with it.
pub open spec fn changed(o: SummaryOverlayView, c: ChangeView, previous: Seq<RecordView>) -> (
    SummaryOverlayView,
    Option<Fault>,
) {
    match c {
        ChangeView::Upsert(r) => {
            let (p, f) = all_out(o, previous, None);
            if f is Some {
                (p, f)
            } else if record_fault(o.base.host, r, None) is Some {
                (p, record_fault(o.base.host, r, None))
            } else {
                (counted_in(p, r), None)
            }
        },
        ChangeView::Remove(path) => if previous.len() == 0 {
            (o, Some(Fault::RemovalWithoutRecord(path)))
        } else {
            match crate::dirs::normal_form(path) {
                None => (o, Some(Fault::UnsafePath(path))),
                Some(n) => all_out(o, previous, Some(n)),
            }
        },
    }
}

/// The changed children have paths in their normal form.
pub open spec fn plain_changes(ch: Map<Seq<char>, Option<ChildView>>) -> bool {
    forall|p: Seq<char>| #[trigger]
        ch.contains_key(p) && ch[p] is Some ==> is_plain(ch[p]->0.path)
}

/// The same in every folder.
pub open spec fn plain_folders(m: Folders) -> bool {
    forall|k: Seq<char>| #[trigger] m.contains_key(k) ==> plain_changes(m[k].children)
}

proof fn lemma_adjusted_plain(
    host: Host,
    m: Folders,
    r: RecordView,
    above: Seq<Seq<char>>,
    sign: int,
)
    requires
        plain_folders(m),
    ensures
        plain_folders(adjusted(host, m, r, above, sign)),
    decreases above.len(),
{
    if above.len() > 0 {
        lemma_adjusted_plain(host, m, r, above.drop_last(), sign);
        let less = adjusted(host, m, r, above.drop_last(), sign);
        let key = slot_key(host, r.source, above.last());
        assert(plain_changes(change_at(less, key).children));
    }
}

/// A changed child in normal form keeps the folders so.
proof fn lemma_with_child_plain(
    host: Host,
    m: Folders,
    r: RecordView,
    child: Option<ChildView>,
)
    requires
        plain_folders(m),
        child matches Some(c) ==> is_plain(c.path),
    ensures
        plain_folders(with_child(host, m, r, child)),
{
    let key = slot_key(host, r.source, crate::dirs::parent_of(crate::summary::place(r)));
    let ch = change_at(m, key).children;
    assert(plain_changes(ch));
    assert(plain_changes(ch.insert(canonical(host, crate::summary::place(r)), child)));
}

spec fn sound(items: Seq<FolderChange>) -> bool {
    forall|x: FolderChange| #[trigger] items.contains(x) ==> x.children.wf()
}

fn take_folder(m: &mut PathMap<FolderChange>, key: String) -> (f: FolderChange)
    requires
        old(m).wf(),
        sound(old(m).items()),
    ensures
        final(m).wf(),
        sound(final(m).items()),
        final(m).entries() == old(m).entries().remove(key@),
        f@ == change_at(old(m).entries(), key@),
        f.key() == key@,
        f.children.wf(),
{
    match m.take(key.as_str()) {
        Some(f) => f,
        None => FolderChange { key, bytes: 0, files: 0, dirs: 0, children: PathMap::new() },
    }
}

fn put_folder(m: &mut PathMap<FolderChange>, f: FolderChange)
    requires
        old(m).wf(),
        sound(old(m).items()),
        f.children.wf(),
    ensures
        final(m).wf(),
        sound(final(m).items()),
        final(m).entries() == old(m).entries().insert(f.key(), f@),
{
    m.insert(f);
}

fn is_counted(k: FileKind) -> (r: bool)
    ensures
        r == crate::summary::counts_as_file(k),
{
    match k {
        FileKind::File => true,
        FileKind::Symlink => true,
        _ => false,
    }
}

/// Adds to a count, which stays at its end where it cannot go further.
fn hold(count: i128, change: i128) -> (r: i128)
    ensures
        r == held(count + change),
{
    match count.checked_add(change) {
        Some(n) => n,
        None => if change > 0 {
            i128::MAX
        } else {
            i128::MIN
        },
    }
}

fn shift(f: &mut FolderChange, r: &FileRecord, more: bool)
    ensures
        final(f)@ == shifted(
            old(f)@,
            r@,
            if more {
                1
            } else {
                -1
            },
        ),
        final(f).key() == old(f).key(),
        final(f).children == old(f).children,
{
    let size: i128 = r.size as i128;
    let amount: i128 = if more {
        size
    } else {
        0 - size
    };
    let one: i128 = if more {
        1
    } else {
        -1
    };
    assert(amount == one * size) by (nonlinear_arith)
        requires
            more && one == 1 && amount == size || !more && one == -1 && amount == 0 - size,
    ;
    if is_counted(r.kind) {
        f.bytes = hold(f.bytes, amount);
        f.files = hold(f.files, one);
    }
    let dir: bool = match r.kind {
        FileKind::Dir => true,
        _ => false,
    };
    if dir {
        f.dirs = hold(f.dirs, one);
    }
}

fn adjust(
    host: Host,
    m: &mut PathMap<FolderChange>,
    r: &FileRecord,
    above: &Vec<Vec<char>>,
    more: bool,
)
    requires
        old(m).wf(),
        sound(old(m).items()),
        crate::text::texts(above@) == crate::dirs::ancestors_of(r@.path),
    ensures
        final(m).wf(),
        sound(final(m).items()),
        final(m).entries() == adjusted(
            host,
            old(m).entries(),
            r@,
            crate::summary::folders(r@),
            if more {
                1
            } else {
                -1
            },
        ),
{
    let ghost all = crate::dirs::ancestors_of(r@.path);
    let ghost fs = crate::summary::folders(r@);
    let ghost sign: int = if more {
        1
    } else {
        -1
    };
    let ghost before = m.entries();
    proof {
        crate::dirs::law_ancestors_differ(r@.path);
        assert(above@.len() == all.len());
        assert(fs.take(0) =~= Seq::empty());
    }
    let n: usize = above.len() - 1;
    let mut i: usize = 0;
    while i < n
        invariant
            i <= n,
            n == fs.len(),
            above@.len() == n + 1,
            crate::text::texts(above@) == all,
            fs == all.drop_last(),
            m.wf(),
            sound(m.items()),
            sign == if more {
                1int
            } else {
                -1int
            },
            m.entries() == adjusted(host, before, r@, fs.take(i as int), sign),
        decreases n - i,
    {
        let ghost now = m.entries();
        let path = crate::text::string_of(above[i].as_slice());
        assert(path@ == fs[i as int]) by {
            assert(crate::text::texts(above@)[i as int] == above@[i as int]@);
        }
        let key = slot_text(host, r.source, path.as_str());
        let ghost k = key@;
        let mut f = take_folder(m, key);
        assert(k == slot_key(host, r@.source, fs[i as int]));
        shift(&mut f, r, more);
        put_folder(m, f);
        proof {
            assert(fs.take(i + 1).drop_last() =~= fs.take(i as int));
            assert(fs.take(i + 1).last() == fs[i as int]);
            assert(m.entries() =~= now.insert(k, shifted(change_at(now, k), r@, sign)));
        }
        i += 1;
    }
    assert(fs.take(n as int) =~= fs);
}

fn set_child(
    host: Host,
    m: &mut PathMap<FolderChange>,
    r: &FileRecord,
    child: Option<DirectoryChild>,
)
    requires
        old(m).wf(),
        sound(old(m).items()),
    ensures
        final(m).wf(),
        sound(final(m).items()),
        final(m).entries() == with_child(
            host,
            old(m).entries(),
            r@,
            match child {
                Some(c) => Some(c@),
                None => None,
            },
        ),
{
    let ghost before = m.entries();
    let chars = crate::text::chars_of(r.path.as_str());
    let n = crate::dirs::tidied(chars.as_slice());
    let above = crate::dirs::parent_path(n.as_slice());
    let above_text = crate::text::string_of(above.as_slice());
    let key = slot_text(host, r.source, above_text.as_str());
    let mut f = take_folder(m, key);
    let spelled = crate::text::string_of(n.as_slice());
    let change = ChildChange {
        key: crate::dir_summary::canonical_text(host, spelled.as_str()),
        child,
    };
    f.children.insert(change);
    put_folder(m, f);
    assert(m.entries() =~= with_child(host, before, r@, change@));
}

fn child_for_record(r: &FileRecord) -> (c: DirectoryChild)
    ensures
        c@ == record_child(r@),
{
    let chars = crate::text::chars_of(r.path.as_str());
    let n = crate::dirs::tidied(chars.as_slice());
    let dir: bool = match r.kind {
        FileKind::Dir => true,
        _ => false,
    };
    DirectoryChild {
        path: crate::text::string_of(n.as_slice()),
        kind: r.kind,
        logical_bytes: if dir {
            0
        } else {
            r.size
        },
        file_count: if is_counted(r.kind) {
            1
        } else {
            0
        },
        directory_count: 0,
    }
}

fn check_record(host: Host, r: &FileRecord, target: Option<&Vec<char>>) -> (f: Option<SummaryError>)
    ensures
        match f {
            Some(e) => record_fault(
            host,
                r@,
                match target {
                    Some(t) => Some(t@),
                    None => None,
                },
            ) == Some(e@),
            None => record_fault(
            host,
                r@,
                match target {
                    Some(t) => Some(t@),
                    None => None,
                },
            ) is None,
        },
{
    let chars = crate::text::chars_of(r.path.as_str());
    match crate::dirs::normalize(chars.as_slice()) {
        None => Some(SummaryError::UnsafePath(r.path.clone())),
        Some(n) => match target {
            Some(t) => {
                let here = crate::text::string_of(n.as_slice());
                let there = crate::text::string_of(t.as_slice());
                let a = crate::dir_summary::canonical_text(host, here.as_str());
                let b = crate::dir_summary::canonical_text(host, there.as_str());
                if !crate::text::same_text(a.as_str(), b.as_str()) {
                    Some(SummaryError::RemovalMismatch)
                } else {
                    None
                }
            },
            None => None,
        },
    }
}

impl DirectorySummaryOverlay {
    /// Its parts are sound.
    pub closed spec fn wf(&self) -> bool {
        &&& self.base.wf()
        &&& self.folders.wf()
        &&& sound(self.folders.items())
        &&& plain_folders(self.folders.entries())
    }

    /// Nothing has changed yet.
    pub fn new(base: DirectorySummary) -> (r: DirectorySummaryOverlay)
        requires
            base.wf(),
        ensures
            r.wf(),
            r@ == (SummaryOverlayView { base: base@, folders: Map::empty() }),
    {
        let r = DirectorySummaryOverlay { base, folders: PathMap::new() };
        assert(sound(r.folders.items()));
        r
    }

    fn count(&mut self, r: &FileRecord, more: bool)
        requires
            old(self).wf(),
            more ==> crate::dirs::normal_form(r@.path) is Some,
        ensures
            final(self).wf(),
            final(self)@ == if more {
                counted_in(old(self)@, r@)
            } else {
                counted_out(old(self)@, r@)
            },
    {
        let chars = crate::text::chars_of(r.path.as_str());
        let above = crate::dirs::ancestor_paths(chars.as_slice());
        let host = self.base.host();
        adjust(host, &mut self.folders, r, &above, more);
        let child = if more {
            Some(child_for_record(r))
        } else {
            None
        };
        proof {
            let sign: int = if more {
                1
            } else {
                -1
            };
            lemma_adjusted_plain(
                host,
                old(self)@.folders,
                r@,
                crate::summary::folders(r@),
                sign,
            );
            if more {
                crate::dirs::law_normal_forms_are_settled(r@.path);
            }
            lemma_with_child_plain(
                host,
                self.folders.entries(),
                r@,
                if more {
                    Some(record_child(r@))
                } else {
                    None
                },
            );
        }
        set_child(host, &mut self.folders, r, child);
    }

    fn count_out_all(&mut self, previous: &[FileRecord], target: Option<&Vec<char>>) -> (f: Option<
        SummaryError,
    >)
        requires
            old(self).wf(),
        ensures
            final(self).wf(),
            final(self)@.base == old(self)@.base,
            ({
                let t = match target {
                    Some(t) => Some(t@),
                    None => None,
                };
                let (o, e) = all_out(old(self)@, crate::types::record_views(previous@), t);
                final(self)@ == o && e == match f {
                    Some(x) => Some(x@),
                    None => None,
                }
            }),
    {
        let ghost before = self@;
        let ghost views = crate::types::record_views(previous@);
        let ghost t = match target {
            Some(t) => Some(t@),
            None => None,
        };
        let mut i: usize = 0;
        assert(views.take(0) =~= Seq::empty());
        while i < previous.len()
            invariant
                i <= previous@.len(),
                self.wf(),
                before == old(self)@,
                self@.base == before.base,
                views == crate::types::record_views(previous@),
                t == match target {
                    Some(t) => Some(t@),
                    None => None,
                },
                all_out(before, views.take(i as int), t) == (self@, None::<Fault>),
            decreases previous@.len() - i,
        {
            proof {
                assert(views.take(i + 1).drop_last() =~= views.take(i as int));
                assert(views.take(i + 1).last() == previous@[i as int]@);
            }
            if let Some(e) = check_record(self.base.host(), &previous[i], target) {
                proof {
                    lemma_all_out_stops(before, views, t, i + 1);
                }
                return Some(e);
            }
            self.count(&previous[i], false);
            i += 1;
        }
        assert(views.take(i as int) =~= views);
        None
    }

    /// Applies a change whose path held `previous` before. Where something is wrong, the
    /// records before it stay counted.
    pub fn apply_change(&mut self, change: &DeltaChange, previous: &[FileRecord]) -> (r: Result<
        (),
        SummaryError,
    >)
        requires
            old(self).wf(),
        ensures
            final(self).wf(),
            ({
                let (o, e) = changed(
                    old(self)@,
                    change@,
                    crate::types::record_views(previous@),
                );
                final(self)@ == o && e == match r {
                    Err(x) => Some(x@),
                    Ok(()) => None,
                }
            }),
    {
        match change {
            DeltaChange::Upsert(record) => {
                if let Some(e) = self.count_out_all(previous, None) {
                    return Err(e);
                }
                if let Some(e) = check_record(self.base.host(), record, None) {
                    return Err(e);
                }
                self.count(record, true);
                Ok(())
            },
            DeltaChange::Remove(path) => {
                if previous.len() == 0 {
                    return Err(SummaryError::RemovalWithoutRecord(path.clone()));
                }
                let chars = crate::text::chars_of(path.as_str());
                match crate::dirs::normalize(chars.as_slice()) {
                    None => Err(SummaryError::UnsafePath(path.clone())),
                    Some(n) => match self.count_out_all(previous, Some(&n)) {
                        Some(e) => Err(e),
                        None => Ok(()),
                    },
                }
            },
        }
    }
}

proof fn lemma_all_out_stops(
    o: SummaryOverlayView,
    rs: Seq<RecordView>,
    target: Option<Seq<char>>,
    i: int,
)
    requires
        0 <= i <= rs.len(),
        all_out(o, rs.take(i), target).1 is Some,
    ensures
        all_out(o, rs, target) == all_out(o, rs.take(i), target),
    decreases rs.len(),
{
    if i < rs.len() {
        assert(rs.drop_last().take(i) =~= rs.take(i));
        lemma_all_out_stops(o, rs.drop_last(), target, i);
    } else {
        assert(rs.take(i) =~= rs);
    }
}

// ---------------------------------------------------------------------------
// Reading

/// A total with a change, kept among the numbers that it can have.
pub open spec fn clamped(total: u64, change: int) -> u64 {
    if total + change < 0 {
        0
    } else if total + change > u64::MAX {
        u64::MAX
    } else {
        (total + change) as u64
    }
}

/// The totals of a folder under the changes; none where nothing is known of it.
pub open spec fn aggregated(o: SummaryOverlayView, source: u32, path: Seq<char>) -> Option<EntryView> {
    let base = crate::dir_summary::looked_up(o.base.host, o.base.entries, source, path);
    let f = change_at(o.folders, slot_key(o.base.host, source, path));
    if base is None && f.bytes == 0 && f.files == 0 && f.dirs == 0 {
        None
    } else {
        let e = match base {
            Some(e) => e,
            None => EntryView {
                source,
                path,
                logical_bytes: 0,
                file_count: 0,
                directory_count: 0,
                children: Seq::empty(),
            },
        };
        Some(
            EntryView {
                logical_bytes: clamped(e.logical_bytes, f.bytes),
                file_count: clamped(e.file_count, f.files),
                directory_count: clamped(e.directory_count, f.dirs),
                ..e
            },
        )
    }
}

/// No later child has this one's path.
pub open spec fn is_last(host: Host, cs: Seq<ChildView>, i: int) -> bool {
    forall|j: int|
        i < j < cs.len() ==> canonical(host, (#[trigger] cs[j]).path) != canonical(
            host,
            cs[i].path,
        )
}

/// Some child has a path with this key.
pub open spec fn has_child(host: Host, cs: Seq<ChildView>, key: Seq<char>) -> bool {
    exists|i: int| 0 <= i < cs.len() && canonical(host, (#[trigger] cs[i]).path) == key
}

/// The first `n` children, the last of each path replaced or dropped where it changed.
pub open spec fn replaced(
    host: Host,
    cs: Seq<ChildView>,
    ch: Map<Seq<char>, Option<ChildView>>,
    n: int,
) -> Seq<ChildView>
    decreases n,
{
    if n <= 0 {
        Seq::empty()
    } else {
        let less = replaced(host, cs, ch, n - 1);
        let c = cs[n - 1];
        let key = canonical(host, c.path);
        if ch.contains_key(key) && is_last(host, cs, n - 1) {
            match ch[key] {
                Some(new) => less.push(new),
                None => less,
            }
        } else {
            less.push(c)
        }
    }
}

/// The children that came, in the order of `paths`.
pub open spec fn arrived(
    host: Host,
    cs: Seq<ChildView>,
    ch: Map<Seq<char>, Option<ChildView>>,
    paths: Seq<Seq<char>>,
) -> Seq<ChildView>
    decreases paths.len(),
{
    if paths.len() == 0 {
        Seq::empty()
    } else {
        let less = arrived(host, cs, ch, paths.drop_last());
        match ch[paths.last()] {
            Some(c) if !has_child(host, cs, paths.last()) => less.push(c),
            _ => less,
        }
    }
}

/// A child with the totals that its folder has under the changes.
pub open spec fn current(o: SummaryOverlayView, source: u32, c: ChildView) -> ChildView {
    if c.kind is Dir {
        match aggregated(o, source, c.path) {
            Some(e) => ChildView {
                logical_bytes: e.logical_bytes,
                file_count: e.file_count,
                directory_count: e.directory_count,
                ..c
            },
            None => c,
        }
    } else {
        c
    }
}

/// Keys that put folders first.
pub open spec fn rank_keys(cs: Seq<ChildView>) -> Seq<Seq<u8>> {
    Seq::new(
        cs.len(),
        |i: int|
            if cs[i].kind is Dir {
                seq![0u8]
            } else {
                seq![1u8]
            },
    )
}

/// Keys that put paths in order.
pub open spec fn path_keys(host: Host, cs: Seq<ChildView>) -> Seq<Seq<u8>> {
    Seq::new(
        cs.len(),
        |i: int| vstd::utf8::encode_utf8(crate::dirs::order_form(host, cs[i].path)),
    )
}

/// Children by path; where two have the same, a folder comes first.
pub open spec fn in_order(host: Host, cs: Seq<ChildView>) -> Seq<ChildView> {
    let ranked = crate::order::key_sorted(cs, rank_keys(cs));
    crate::order::key_sorted(ranked, path_keys(host, ranked))
}

/// The children of a folder in the summary alone.
pub open spec fn base_children(o: SummaryOverlayView, source: u32, path: Seq<char>) -> Seq<ChildView> {
    match crate::dir_summary::listed(o.base.host, o.base.entries, source, path) {
        Some(cs) => cs,
        None => Seq::empty(),
    }
}

/// Every folder among the children carries the totals that it has under the changes.
pub open spec fn totals_carried(o: SummaryOverlayView, source: u32, cs: Seq<ChildView>) -> bool {
    forall|i: int| 0 <= i < cs.len() ==> carries_totals(o, source, #[trigger] cs[i])
}

/// A child that is a folder carries the totals that it has under the changes.
pub open spec fn carries_totals(o: SummaryOverlayView, source: u32, c: ChildView) -> bool {
    c.kind is Dir && aggregated(o, source, c.path) is Some ==> {
        let e = aggregated(o, source, c.path)->0;
        &&& c.logical_bytes == e.logical_bytes
        &&& c.file_count == e.file_count
        &&& c.directory_count == e.directory_count
    }
}

/// `r` are the children of a folder under the changes, where `paths` are those of the changed
/// ones in path order.
pub open spec fn lists_with(
    o: SummaryOverlayView,
    source: u32,
    path: Seq<char>,
    r: Seq<ChildView>,
    paths: Seq<Seq<char>>,
) -> bool {
    let cs = base_children(o, source, path);
    let ch = change_at(o.folders, slot_key(o.base.host, source, path)).children;
    let all = replaced(o.base.host, cs, ch, cs.len() as int) + arrived(
        o.base.host,
        cs,
        ch,
        paths,
    );
    &&& crate::pathmap::ascending(paths)
    &&& forall|k: Seq<char>| #[trigger] paths.contains(k) <==> ch.contains_key(k)
    &&& r == in_order(o.base.host, Seq::new(all.len(), |i: int| current(o, source, all[i])))
}

/// `r` are the children of a folder under the changes.
pub open spec fn lists(o: SummaryOverlayView, source: u32, path: Seq<char>, r: Seq<ChildView>) -> bool {
    exists|paths: Seq<Seq<char>>| #[trigger] lists_with(o, source, path, r, paths)
}

proof fn lemma_totals_carried(
    o: SummaryOverlayView,
    source: u32,
    before: Seq<ChildView>,
    cs: Seq<ChildView>,
    out: Seq<ChildView>,
)
    requires
        cs == Seq::new(before.len(), |i: int| current(o, source, before[i])),
        out.to_multiset() == cs.to_multiset(),
    ensures
        totals_carried(o, source, out),
{
    broadcast use vstd::seq_lib::group_to_multiset_ensures;

    assert forall|i: int| 0 <= i < out.len() implies carries_totals(o, source, #[trigger] out[i]) by {
        assert(out.contains(out[i]));
        assert(out.to_multiset().contains(out[i]));
        assert(cs.to_multiset().contains(out[i]));
        assert(cs.contains(out[i]));
        let k = cs.index_of(out[i]);
        assert(cs[k] == current(o, source, before[k]));
    }
}

proof fn lemma_replaced_plain(
    host: Host,
    cs: Seq<ChildView>,
    ch: Map<Seq<char>, Option<ChildView>>,
    n: int,
)
    requires
        all_plain(cs),
        plain_changes(ch),
        n <= cs.len(),
    ensures
        all_plain(replaced(host, cs, ch, n)),
    decreases n,
{
    if n > 0 {
        lemma_replaced_plain(host, cs, ch, n - 1);
        assert(is_plain(cs[n - 1].path));
    }
}

proof fn lemma_arrived_plain(
    host: Host,
    cs: Seq<ChildView>,
    ch: Map<Seq<char>, Option<ChildView>>,
    paths: Seq<Seq<char>>,
)
    requires
        plain_changes(ch),
        forall|k: Seq<char>| #[trigger] paths.contains(k) ==> ch.contains_key(k),
    ensures
        all_plain(arrived(host, cs, ch, paths)),
    decreases paths.len(),
{
    if paths.len() > 0 {
        let less = paths.drop_last();
        assert forall|k: Seq<char>| #[trigger] less.contains(k) implies ch.contains_key(k) by {
            let i = less.index_of(k);
            assert(paths[i] == k);
            assert(paths.contains(k));
        }
        lemma_arrived_plain(host, cs, ch, less);
        assert(paths.contains(paths[paths.len() - 1]));
        assert(ch.contains_key(paths.last()));
    }
}

proof fn lemma_listed_plain(
    o: SummaryOverlayView,
    source: u32,
    before: Seq<ChildView>,
    cs: Seq<ChildView>,
    out: Seq<ChildView>,
)
    requires
        cs == Seq::new(before.len(), |i: int| current(o, source, before[i])),
        out.to_multiset() == cs.to_multiset(),
        all_plain(before),
    ensures
        all_plain(out),
{
    broadcast use vstd::seq_lib::group_to_multiset_ensures;

    assert forall|i: int| 0 <= i < out.len() implies is_plain((#[trigger] out[i]).path) by {
        assert(out.contains(out[i]));
        assert(out.to_multiset().contains(out[i]));
        assert(cs.to_multiset().contains(out[i]));
        assert(cs.contains(out[i]));
        let k = cs.index_of(out[i]);
        assert(cs[k] == current(o, source, before[k]));
        assert(is_plain(before[k].path));
    }
}

fn clamp(total: u64, change: i128) -> (r: u64)
    ensures
        r == clamped(total, change as int),
{
    let max: i128 = 0xffff_ffff_ffff_ffff;
    let t: i128 = total as i128;
    if change > max {
        u64::MAX
    } else if change < 0 - max {
        0
    } else {
        let sum: i128 = t + change;
        if sum < 0 {
            0
        } else if sum > max {
            u64::MAX
        } else {
            sum as u64
        }
    }
}

fn sort_children(cs: Vec<DirectoryChild>, keys: &Vec<Vec<u8>>) -> (out: Vec<DirectoryChild>)
    requires
        keys@.len() == cs@.len(),
    ensures
        crate::summary::child_views(out@) == crate::order::key_sorted(
            crate::summary::child_views(cs@),
            crate::order::key_views(keys@),
        ),
        crate::summary::child_views(out@).to_multiset() == crate::summary::child_views(
            cs@,
        ).to_multiset(),
{
    let ghost views = crate::summary::child_views(cs@);
    assert(cs.len() == views.len());
    let order = crate::order::key_order(keys, false);
    let out = crate::order::arranged(cs, &order);
    proof {
        crate::order::lemma_arranged_keeps(views, order@);
        assert(crate::summary::child_views(out@) =~= crate::rank::picked(views, order@));
        crate::order::lemma_key_sorted(views, crate::order::key_views(keys@), order@);
    }
    out
}

fn order_children(host: Host, cs: Vec<DirectoryChild>) -> (out: Vec<DirectoryChild>)
    ensures
        crate::summary::child_views(out@) == in_order(
            host,
            crate::summary::child_views(cs@),
        ),
        crate::summary::child_views(out@).to_multiset() == crate::summary::child_views(
            cs@,
        ).to_multiset(),
{
    let ghost views = crate::summary::child_views(cs@);
    let mut ranks: Vec<Vec<u8>> = Vec::new();
    let mut i: usize = 0;
    while i < cs.len()
        invariant
            i <= cs@.len(),
            ranks@.len() == i,
            views == crate::summary::child_views(cs@),
            forall|k: int| 0 <= k < i ==> (#[trigger] ranks@[k])@ == rank_keys(views)[k],
        decreases cs@.len() - i,
    {
        let mut key: Vec<u8> = Vec::new();
        let rank: u8 = match cs[i].kind {
            FileKind::Dir => 0,
            _ => 1,
        };
        key.push(rank);
        assert(key@ =~= rank_keys(views)[i as int]);
        ranks.push(key);
        i += 1;
    }
    assert(crate::order::key_views(ranks@) =~= rank_keys(views));
    let ranked = sort_children(cs, &ranks);
    let ghost again = crate::summary::child_views(ranked@);
    let mut keys: Vec<Vec<u8>> = Vec::new();
    let mut k: usize = 0;
    while k < ranked.len()
        invariant
            k <= ranked@.len(),
            keys@.len() == k,
            again == crate::summary::child_views(ranked@),
            forall|j: int| 0 <= j < k ==> (#[trigger] keys@[j])@ == path_keys(host, again)[j],
        decreases ranked@.len() - k,
    {
        let form = crate::dirs::order_text(host, ranked[k].path.as_str());
        keys.push(crate::bytes::to_vec(form.as_str().as_bytes()));
        k += 1;
    }
    assert(crate::order::key_views(keys@) =~= path_keys(host, again));
    sort_children(ranked, &keys)
}

/// Where each path stands last among the first `n` children.
spec fn tells(host: Host, m: Map<Seq<char>, usize>, cs: Seq<ChildView>, n: int) -> bool {
    &&& forall|p: Seq<char>| #[trigger]
        m.contains_key(p) ==> m[p] < n && canonical(host, cs[m[p] as int].path) == p && forall|
            j: int,
        |
            m[p] < j < n ==> canonical(host, (#[trigger] cs[j]).path) != p
    &&& forall|j: int| 0 <= j < n ==> m.contains_key(canonical(host, (#[trigger] cs[j]).path))
}

fn positions_of(host: Host, cs: &Vec<DirectoryChild>) -> (r: StringHashMap<usize>)
    ensures
        tells(host, r@, crate::summary::child_views(cs@), cs@.len() as int),
{
    let ghost views = crate::summary::child_views(cs@);
    let mut r: StringHashMap<usize> = StringHashMap::new();
    let mut i: usize = 0;
    while i < cs.len()
        invariant
            i <= cs@.len(),
            views == crate::summary::child_views(cs@),
            tells(host, r@, views, i as int),
        decreases cs@.len() - i,
    {
        assert(views[i as int].path == cs@[i as int].path@);
        let key = crate::dir_summary::canonical_text(host, cs[i].path.as_str());
        r.insert(key, i);
        i += 1;
    }
    r
}

fn replace_children(
    host: Host,
    cs: &Vec<DirectoryChild>,
    positions: &StringHashMap<usize>,
    ch: &PathMap<ChildChange>,
) -> (out: Vec<DirectoryChild>)
    requires
        ch.wf(),
        tells(host, positions@, crate::summary::child_views(cs@), cs@.len() as int),
    ensures
        crate::summary::child_views(out@) == replaced(
            host,
            crate::summary::child_views(cs@),
            ch.entries(),
            cs@.len() as int,
        ),
{
    let ghost views = crate::summary::child_views(cs@);
    let ghost m = ch.entries();
    let mut out: Vec<DirectoryChild> = Vec::new();
    let mut i: usize = 0;
    assert(crate::summary::child_views(out@) =~= Seq::empty());
    while i < cs.len()
        invariant
            i <= cs@.len(),
            ch.wf(),
            m == ch.entries(),
            views == crate::summary::child_views(cs@),
            tells(host, positions@, views, cs@.len() as int),
            crate::summary::child_views(out@) == replaced(host, views, m, i as int),
        decreases cs@.len() - i,
    {
        let ghost had = crate::summary::child_views(out@);
        let c = &cs[i];
        assert(views[i as int] == c@);
        let key = crate::dir_summary::canonical_text(host, c.path.as_str());
        let last: bool = match positions.get(key.as_str()) {
            Some(at) => *at == i,
            None => false,
        };
        assert(last == is_last(host, views, i as int)) by {
            assert(positions@.contains_key(canonical(host, views[i as int].path)));
            let at = positions@[key@];
            if at != i {
                if at < i {
                    assert(canonical(host, views[i as int].path) != key@);
                }
                assert(canonical(host, views[at as int].path) == key@);
            }
        }
        if last {
            match ch.get(key.as_str()) {
                Some(change) => {
                    if let Some(new) = &change.child {
                        out.push(new.clone());
                        assert(crate::summary::child_views(out@) =~= had.push(new@));
                    }
                },
                None => {
                    out.push(c.clone());
                    assert(crate::summary::child_views(out@) =~= had.push(c@));
                },
            }
        } else {
            out.push(c.clone());
            assert(crate::summary::child_views(out@) =~= had.push(c@));
        }
        i += 1;
    }
    out
}

fn add_arrived(
    host: Host,
    out: &mut Vec<DirectoryChild>,
    cs: &Vec<DirectoryChild>,
    positions: &StringHashMap<usize>,
    ch: &PathMap<ChildChange>,
)
    requires
        ch.wf(),
        tells(host, positions@, crate::summary::child_views(cs@), cs@.len() as int),
    ensures
        crate::summary::child_views(final(out)@) == crate::summary::child_views(old(out)@)
            + arrived(
            host,
            crate::summary::child_views(cs@),
            ch.entries(),
            crate::pathmap::keys_of(ch.items()),
        ),
{
    let ghost start = crate::summary::child_views(out@);
    let ghost views = crate::summary::child_views(cs@);
    let ghost m = ch.entries();
    let items = ch.as_slice();
    let ghost paths = crate::pathmap::keys_of(items@);
    let mut i: usize = 0;
    proof {
        assert(paths.take(0) =~= Seq::empty());
        assert(start + Seq::<ChildView>::empty() =~= start);
    }
    while i < items.len()
        invariant
            i <= items@.len(),
            items@ == ch.items(),
            ch.wf(),
            m == ch.entries(),
            paths == crate::pathmap::keys_of(items@),
            views == crate::summary::child_views(cs@),
            tells(host, positions@, views, cs@.len() as int),
            crate::summary::child_views(out@) == start + arrived(host, views, m, paths.take(i as int)),
        decreases items@.len() - i,
    {
        let ghost had = crate::summary::child_views(out@);
        let x = &items[i];
        proof {
            assert(paths.take(i + 1).drop_last() =~= paths.take(i as int));
            assert(paths.take(i + 1).last() == x.key());
            crate::pathmap::lemma_key_position(items@, i as int);
            assert(m[x.key()] == x@);
            assert(positions@.contains_key(x.key()) == has_child(
                host,
                views,
                x.key(),
            )) by {
                if positions@.contains_key(x.key()) {
                    assert(canonical(host, views[positions@[x.key()] as int].path) == x.key());
                }
            }
        }
        if !positions.contains_key(x.key.as_str()) {
            if let Some(c) = &x.child {
                out.push(c.clone());
                assert(crate::summary::child_views(out@) =~= had.push(c@));
                assert(had.push(c@) =~= start + arrived(host, views, m, paths.take(i as int)).push(c@));
            }
        }
        i += 1;
    }
    assert(paths.take(i as int) =~= paths);
}

impl DirectorySummaryOverlay {
    fn aggregate(&self, source: u32, path: &str) -> (r: Option<(u64, u64, u64)>)
        requires
            self.wf(),
        ensures
            match r {
                Some((b, f, d)) => aggregated(self@, source, path@) matches Some(e)
                    && e.logical_bytes == b && e.file_count == f && e.directory_count == d,
                None => aggregated(self@, source, path@) is None,
            },
    {
        let host = self.base.host();
        let key = slot_text(host, source, path);
        let (bytes, files, dirs): (i128, i128, i128) = match self.folders.get(key.as_str()) {
            Some(f) => (f.bytes, f.files, f.dirs),
            None => (0, 0, 0),
        };
        match self.base.get(source, path) {
            Some(e) => Some(
                (
                    clamp(e.logical_bytes, bytes),
                    clamp(e.file_count, files),
                    clamp(e.directory_count, dirs),
                ),
            ),
            None => if bytes == 0 && files == 0 && dirs == 0 {
                None
            } else {
                Some((clamp(0, bytes), clamp(0, files), clamp(0, dirs)))
            },
        }
    }

    fn refresh(&self, source: u32, cs: Vec<DirectoryChild>) -> (out: Vec<DirectoryChild>)
        requires
            self.wf(),
        ensures
            crate::summary::child_views(out@) == Seq::new(
                cs@.len(),
                |i: int| current(self@, source, crate::summary::child_views(cs@)[i]),
            ),
    {
        let mut out: Vec<DirectoryChild> = Vec::new();
        let mut i: usize = 0;
        while i < cs.len()
            invariant
                i <= cs@.len(),
                self.wf(),
                out@.len() == i,
                forall|k: int|
                    0 <= k < i ==> (#[trigger] out@[k])@ == current(self@, source, cs@[k]@),
            decreases cs@.len() - i,
        {
            let mut c = cs[i].clone();
            let dir: bool = match c.kind {
                FileKind::Dir => true,
                _ => false,
            };
            if dir {
                if let Some((b, f, d)) = self.aggregate(source, c.path.as_str()) {
                    c.logical_bytes = b;
                    c.file_count = f;
                    c.directory_count = d;
                }
            }
            out.push(c);
            i += 1;
        }
        assert(crate::summary::child_views(out@) =~= Seq::new(
            cs@.len(),
            |i: int| current(self@, source, crate::summary::child_views(cs@)[i]),
        ));
        out
    }

    fn list(&self, source: u32, path: &str) -> (r: Vec<DirectoryChild>)
        requires
            self.wf(),
        ensures
            lists(self@, source, path@, crate::summary::child_views(r@)),
            totals_carried(self@, source, crate::summary::child_views(r@)),
            all_plain(crate::summary::child_views(r@)),
    {
        let cs = match self.base.children(source, path) {
            Some(cs) => cs,
            None => Vec::new(),
        };
        let ghost views = crate::summary::child_views(cs@);
        assert(views =~= base_children(self@, source, path@));
        let host = self.base.host();
        let key = slot_text(host, source, path);
        let none: PathMap<ChildChange> = PathMap::new();
        let ch = match self.folders.get(key.as_str()) {
            Some(f) => &f.children,
            None => &none,
        };
        let ghost m = ch.entries();
        assert(m == change_at(self@.folders, slot_key(host, source, path@)).children);
        let positions = positions_of(host, &cs);
        let mut all = replace_children(host, &cs, &positions, ch);
        add_arrived(host, &mut all, &cs, &positions, ch);
        let ghost whole = crate::summary::child_views(all@);
        let fresh = self.refresh(source, all);
        let out = order_children(host, fresh);
        proof {
            let paths = crate::pathmap::keys_of(ch.items());
            assert(whole == replaced(host, views, m, views.len() as int) + arrived(
                host,
                views,
                m,
                paths,
            ));
            assert forall|k: Seq<char>| #[trigger] paths.contains(k) <==> m.contains_key(k) by {}
            assert(crate::summary::child_views(out@) == in_order(
                host,
                Seq::new(whole.len(), |i: int| current(self@, source, whole[i])),
            )) by {
                assert(crate::summary::child_views(fresh@) =~= Seq::new(
                    whole.len(),
                    |i: int| current(self@, source, whole[i]),
                ));
            }
            assert(lists_with(self@, source, path@, crate::summary::child_views(out@), paths));
            lemma_totals_carried(
                self@,
                source,
                whole,
                crate::summary::child_views(fresh@),
                crate::summary::child_views(out@),
            );
            assert(plain_changes(m));
            lemma_replaced_plain(host, views, m, views.len() as int);
            lemma_arrived_plain(host, views, m, paths);
            lemma_listed_plain(
                self@,
                source,
                whole,
                crate::summary::child_views(fresh@),
                crate::summary::child_views(out@),
            );
        }
        out
    }

    /// The direct children of a folder under the changes.
    pub fn children(&self, source: u32, path: &str) -> (r: Result<
        Vec<DirectoryChild>,
        SummaryError,
    >)
        requires
            self.wf(),
        ensures
            match r {
                Ok(cs) => crate::dirs::normal_form(path@) matches Some(n) && lists(
                    self@,
                    source,
                    n,
                    crate::summary::child_views(cs@),
                ) && totals_carried(self@, source, crate::summary::child_views(cs@)) && all_plain(
                    crate::summary::child_views(cs@),
                ),
                Err(e) => crate::dirs::normal_form(path@) is None && e@ == Fault::UnsafePath(path@),
            },
    {
        let chars = crate::text::chars_of(path);
        match crate::dirs::normalize(chars.as_slice()) {
            None => Err(SummaryError::UnsafePath(path.to_owned())),
            Some(n) => {
                let text = crate::text::string_of(n.as_slice());
                Ok(self.list(source, text.as_str()))
            },
        }
    }

    /// The entry of a folder under the changes; none where nothing is known of it.
    pub fn get(&self, source: u32, path: &str) -> (r: Result<
        Option<DirectorySummaryEntry>,
        SummaryError,
    >)
        requires
            self.wf(),
        ensures
            match r {
                Err(e) => crate::dirs::normal_form(path@) is None && e@ == Fault::UnsafePath(path@),
                Ok(None) => crate::dirs::normal_form(path@) matches Some(n) && aggregated(
                    self@,
                    source,
                    n,
                ) is None,
                Ok(Some(entry)) => ({
                    let n = crate::dirs::normal_form(path@)->0;
                    &&& crate::dirs::normal_form(path@) is Some
                    &&& aggregated(self@, source, n) is Some
                    &&& entry@ == (EntryView {
                        children: entry@.children,
                        ..aggregated(self@, source, n)->0
                    })
                    &&& lists(self@, source, n, entry@.children)
                    &&& totals_carried(self@, source, entry@.children)
                    &&& all_plain(entry@.children)
                }),
            },
    {
        let chars = crate::text::chars_of(path);
        match crate::dirs::normalize(chars.as_slice()) {
            None => Err(SummaryError::UnsafePath(path.to_owned())),
            Some(n) => {
                let text = crate::text::string_of(n.as_slice());
                match self.aggregate(source, text.as_str()) {
                    None => Ok(None),
                    Some((b, f, d)) => {
                        let (s, p): (u32, String) = match self.base.get(source, text.as_str()) {
                            Some(e) => (e.source, e.path.clone()),
                            None => (source, text.clone()),
                        };
                        let children = self.list(source, text.as_str());
                        Ok(
                            Some(
                                DirectorySummaryEntry {
                                    source: s,
                                    path: p,
                                    logical_bytes: b,
                                    file_count: f,
                                    directory_count: d,
                                    children,
                                },
                            ),
                        )
                    },
                }
            },
        }
    }
}

// ---------------------------------------------------------------------------
// A whole log at once

/// Why an overlay cannot be made.
#[derive(Debug)]
pub enum OverlayError {
    /// The index cannot be read.
    Index(IndexError),
    /// A change is wrong.
    Summary(SummaryError),
}

/// Every record of an index, or why it cannot be read.
pub open spec fn base_records(v: CompactView) -> Result<Seq<RecordView>, IndexError> {
    crate::compact_index::standing_in(
        v,
        crate::delta::no_changes(),
        Seq::new(v.blocks.len(), |i: int| i as u32),
    )
}

/// The path that a change is about.
pub open spec fn changed_path(c: ChangeView) -> Seq<char> {
    match c {
        ChangeView::Upsert(r) => r.path,
        ChangeView::Remove(p) => p,
    }
}

/// The change is one that a log left.
pub open spec fn is_change_of(d: OverlayView, c: ChangeView) -> bool {
    match c {
        ChangeView::Upsert(r) => d.upserts.contains_key(r.path) && d.upserts[r.path] == r,
        ChangeView::Remove(p) => d.removed.contains(p),
    }
}

/// First the records that were written, then the paths that were removed, each in path order.
pub open spec fn change_first(a: ChangeView, b: ChangeView) -> bool {
    if a is Upsert == b is Upsert {
        crate::order::text_lt(changed_path(a), changed_path(b))
    } else {
        a is Upsert
    }
}

/// The changes that a log left, in their order.
pub open spec fn lists_changes(d: OverlayView, cs: Seq<ChangeView>) -> bool {
    &&& forall|c: ChangeView| #[trigger] cs.contains(c) <==> is_change_of(d, c)
    &&& forall|i: int, j: int|
        0 <= i < j < cs.len() ==> change_first(#[trigger] cs[i], #[trigger] cs[j])
}

fn changes_of(delta: &DeltaIndex) -> (out: Vec<DeltaChange>)
    requires
        delta.wf(),
    ensures
        lists_changes(delta@.overlay, crate::store::change_views(out@)),
{
    let ups = delta.upserts();
    let gone = delta.removed();
    let ghost keys = crate::pathmap::keys_of(ups@);
    let ghost paths = crate::pathmap::keys_of(gone@);
    let mut out: Vec<DeltaChange> = Vec::new();
    let mut i: usize = 0;
    while i < ups.len()
        invariant
            i <= ups@.len(),
            out@.len() == i,
            forall|k: int|
                0 <= k < i ==> (#[trigger] out@[k])@ == ChangeView::Upsert(ups@[k]@),
        decreases ups@.len() - i,
    {
        out.push(DeltaChange::Upsert(ups[i].clone()));
        i += 1;
    }
    let mut j: usize = 0;
    let ghost n = ups@.len();
    while j < gone.len()
        invariant
            j <= gone@.len(),
            n == ups@.len(),
            out@.len() == n + j,
            forall|k: int|
                0 <= k < n ==> (#[trigger] out@[k])@ == ChangeView::Upsert(ups@[k]@),
            forall|k: int|
                n <= k < n + j ==> (#[trigger] out@[k])@ == ChangeView::Remove(gone@[k - n]@),
        decreases gone@.len() - j,
    {
        out.push(DeltaChange::Remove(gone[j].clone()));
        j += 1;
    }
    proof {
        let d = delta@.overlay;
        let cs = crate::store::change_views(out@);
        assert forall|c: ChangeView| #[trigger] cs.contains(c) <==> is_change_of(d, c) by {
            if cs.contains(c) {
                let k = cs.index_of(c);
                if k < n {
                    crate::pathmap::lemma_key_position(ups@, k);
                } else {
                    crate::pathmap::lemma_key_position(gone@, k - n);
                    assert(crate::pathmap::entries_of(gone@).contains_key(gone@[k - n].key()));
                }
            }
            if is_change_of(d, c) {
                match c {
                    ChangeView::Upsert(r) => {
                        let k = keys.index_of(r.path);
                        assert(keys.contains(r.path));
                        crate::pathmap::lemma_key_position(ups@, k);
                        assert(cs[k] == c);
                    },
                    ChangeView::Remove(p) => {
                        assert(crate::pathmap::entries_of(gone@).dom().contains(p));
                        let k = paths.index_of(p);
                        assert(paths.contains(p));
                        assert(cs[n + k] == c);
                    },
                }
            }
        }
        assert forall|a: int, b: int| 0 <= a < b < cs.len() implies change_first(
            #[trigger] cs[a],
            #[trigger] cs[b],
        ) by {
            if b < n {
                assert(crate::order::text_lt(keys[a], keys[b]));
            } else if a >= n {
                assert(crate::order::text_lt(paths[a - n], paths[b - n]));
            }
        }
    }
    out
}

/// The records of a path, whichever separators it is written with.
pub open spec fn at_path(host: Host, rs: Seq<RecordView>, path: Seq<char>) -> Seq<RecordView>
    decreases rs.len(),
{
    if rs.len() == 0 {
        Seq::empty()
    } else if canonical(host, rs.last().path) == canonical(host, path) {
        at_path(host, rs.drop_last(), path).push(rs.last())
    } else {
        at_path(host, rs.drop_last(), path)
    }
}

/// The overlay once the changes of a log were applied, up to the first that is wrong. A path
/// that is removed without having been there is no change.
pub open spec fn all_changed(o: SummaryOverlayView, rs: Seq<RecordView>, cs: Seq<ChangeView>) -> (
    SummaryOverlayView,
    Option<Fault>,
)
    decreases cs.len(),
{
    if cs.len() == 0 {
        (o, None)
    } else {
        let (p, f) = all_changed(o, rs, cs.drop_last());
        let path = changed_path(cs.last());
        if f is Some {
            (p, f)
        } else if cs.last() is Remove && at_path(o.base.host, rs, path).len() == 0 {
            (p, None)
        } else {
            changed(p, cs.last(), at_path(o.base.host, rs, path))
        }
    }
}

proof fn lemma_all_changed_stops(o: SummaryOverlayView, rs: Seq<RecordView>, cs: Seq<ChangeView>, i: int)
    requires
        0 <= i <= cs.len(),
        all_changed(o, rs, cs.take(i)).1 is Some,
    ensures
        all_changed(o, rs, cs) == all_changed(o, rs, cs.take(i)),
    decreases cs.len(),
{
    if i < cs.len() {
        assert(cs.drop_last().take(i) =~= cs.take(i));
        lemma_all_changed_stops(o, rs, cs.drop_last(), i);
    } else {
        assert(cs.take(i) =~= cs);
    }
}

fn find_records(host: Host, rs: &Vec<FileRecord>, path: &str) -> (out: Vec<FileRecord>)
    ensures
        crate::types::record_views(out@) == at_path(
            host,
            crate::types::record_views(rs@),
            path@,
        ),
        out@.len() <= rs@.len(),
{
    let ghost views = crate::types::record_views(rs@);
    let wanted = crate::dir_summary::canonical_text(host, path);
    let mut out: Vec<FileRecord> = Vec::new();
    let mut i: usize = 0;
    proof {
        assert(views.take(0) =~= Seq::empty());
        assert(crate::types::record_views(out@) =~= Seq::empty());
    }
    while i < rs.len()
        invariant
            i <= rs@.len(),
            wanted@ == canonical(host, path@),
            out@.len() <= i,
            views == crate::types::record_views(rs@),
            crate::types::record_views(out@) == at_path(host, views.take(i as int), path@),
        decreases rs@.len() - i,
    {
        let ghost had = crate::types::record_views(out@);
        proof {
            assert(views.take(i + 1).drop_last() =~= views.take(i as int));
            assert(views.take(i + 1).last() == rs@[i as int]@);
        }
        let here = crate::dir_summary::canonical_text(host, rs[i].path.as_str());
        if crate::text::same_text(here.as_str(), wanted.as_str()) {
            out.push(rs[i].clone());
            assert(crate::types::record_views(out@) =~= had.push(rs@[i as int]@));
        }
        i += 1;
    }
    assert(views.take(i as int) =~= views);
    out
}

impl DirectorySummaryOverlay {
    fn apply_all(&mut self, rs: &Vec<FileRecord>, changes: &Vec<DeltaChange>) -> (r: Option<
        SummaryError,
    >)
        requires
            old(self).wf(),
        ensures
            final(self).wf(),
            ({
                let (o, e) = all_changed(
                    old(self)@,
                    crate::types::record_views(rs@),
                    crate::store::change_views(changes@),
                );
                final(self)@ == o && e == match r {
                    Some(x) => Some(x@),
                    None => None,
                }
            }),
    {
        let ghost before = self@;
        let ghost views = crate::types::record_views(rs@);
        let ghost cs = crate::store::change_views(changes@);
        let host = self.base.host();
        let mut i: usize = 0;
        assert(cs.take(0) =~= Seq::empty());
        while i < changes.len()
            invariant
                i <= changes@.len(),
                before == old(self)@,
                self.wf(),
                host == before.base.host,
                views == crate::types::record_views(rs@),
                cs == crate::store::change_views(changes@),
                all_changed(before, views, cs.take(i as int)) == (self@, None::<Fault>),
            decreases changes@.len() - i,
        {
            proof {
                assert(cs.take(i + 1).drop_last() =~= cs.take(i as int));
                assert(cs.take(i + 1).last() == changes@[i as int]@);
            }
            let (path, gone): (&String, bool) = match &changes[i] {
                DeltaChange::Upsert(r) => (&r.path, false),
                DeltaChange::Remove(p) => (p, true),
            };
            let previous = find_records(host, rs, path.as_str());
            if !gone || previous.len() > 0 {
                if let Err(e) = self.apply_change(&changes[i], previous.as_slice()) {
                    proof {
                        lemma_all_changed_stops(before, views, cs, i + 1);
                    }
                    return Some(e);
                }
            } else {
                assert(at_path(host, views, path@).len() == 0);
            }
            i += 1;
        }
        assert(cs.take(i as int) =~= cs);
        None
    }

    /// The overlay of a log over the index that the summary belongs to.
    pub fn from_delta(base: DirectorySummary, compact: &CompactIndex, delta: &DeltaIndex) -> (r:
        Result<DirectorySummaryOverlay, OverlayError>)
        requires
            base.wf(),
            compact.wf(),
            delta.wf(),
        ensures
            ({
                let fresh = SummaryOverlayView { base: base@, folders: Map::empty() };
                let all = base_records(compact@);
                match r {
                    Ok(o) => o.wf() && all is Ok && exists|cs: Seq<ChangeView>| #[trigger]
                        lists_changes(delta@.overlay, cs) && all_changed(
                            fresh,
                            all->Ok_0,
                            cs,
                        ) == (o@, None::<Fault>),
                    Err(OverlayError::Index(e)) => all == Err::<Seq<RecordView>, IndexError>(e),
                    Err(OverlayError::Summary(e)) => all is Ok && exists|cs: Seq<ChangeView>|
                     #[trigger]
                        lists_changes(delta@.overlay, cs) && all_changed(
                            fresh,
                            all->Ok_0,
                            cs,
                        ).1 == Some(e@),
                }
            }),
    {
        let rs = match compact.records() {
            Ok(rs) => rs,
            Err(e) => {
                return Err(OverlayError::Index(e));
            },
        };
        let changes = changes_of(delta);
        let ghost cs = crate::store::change_views(changes@);
        let mut o = DirectorySummaryOverlay::new(base);
        match o.apply_all(&rs, &changes) {
            Some(e) => Err(OverlayError::Summary(e)),
            None => Ok(o),
        }
    }
}

// ---------------------------------------------------------------------------
// What a change undoes

/// The host tells the folders above a record apart.
pub open spec fn told_apart(host: Host, above: Seq<Seq<char>>) -> bool {
    forall|i: int, j: int|
        0 <= i < j < above.len() ==> canonical(host, #[trigger] above[i]) != canonical(
            host,
            #[trigger] above[j],
        )
}

/// The folders above a record are told apart wherever case counts, and everywhere where its
/// path is plain ASCII.
pub proof fn law_folders_above_are_told_apart(host: Host, r: RecordView)
    requires
        host.cased() || vstd::utf8::is_ascii_chars(r.path),
    ensures
        told_apart(host, crate::summary::folders(r)),
{
    let all = crate::dirs::ancestors_of(r.path);
    let above = crate::summary::folders(r);
    crate::dirs::law_ancestors_differ(r.path);
    assert forall|i: int| 0 <= i < above.len() implies canonical(host, #[trigger] above[i]).len()
        == above[i].len() by {
        assert(all[i] == above[i]);
        if !host.cased() {
            crate::dirs::lemma_ancestors_ascii(r.path, i);
            let p = crate::text::replace_char(above[i], '\\', '/');
            assert forall|k: int| 0 <= k < p.len() implies '\0' <= #[trigger] p[k] <= '\u{7f}' by {
                assert(above[i][k] <= '\u{7f}');
            }
            assert(vstd::utf8::is_ascii_chars(p));
        }
    }
    assert forall|i: int, j: int| 0 <= i < j < above.len() implies canonical(
        host,
        #[trigger] above[i],
    ) != canonical(host, #[trigger] above[j]) by {
        assert(all[i] == above[i] && all[j] == above[j]);
        assert(all[i].len() < all[j].len());
        assert(canonical(host, above[i]).len() == above[i].len());
        assert(canonical(host, above[j]).len() == above[j].len());
    }
}

proof fn lemma_adjusted_at(
    host: Host,
    m: Folders,
    r: RecordView,
    above: Seq<Seq<char>>,
    sign: int,
    k: Seq<char>,
)
    requires
        told_apart(host, above),
    ensures
        change_at(adjusted(host, m, r, above, sign), k) == if exists|j: int|
            0 <= j < above.len() && slot_key(host, r.source, #[trigger] above[j]) == k {
            shifted(change_at(m, k), r, sign)
        } else {
            change_at(m, k)
        },
    decreases above.len(),
{
    if above.len() > 0 {
        let less = above.drop_last();
        assert forall|i: int, j: int| 0 <= i < j < less.len() implies canonical(
            host,
            #[trigger] less[i],
        ) != canonical(host, #[trigger] less[j]) by {
            assert(less[i] == above[i] && less[j] == above[j]);
        }
        lemma_adjusted_at(host, m, r, less, sign, k);
        let last = slot_key(host, r.source, above.last());
        if last == k {
            assert(slot_key(host, r.source, above[above.len() - 1]) == k);
            if exists|j: int| 0 <= j < less.len() && slot_key(host, r.source, #[trigger] less[j]) == k {
                let j = choose|j: int|
                    0 <= j < less.len() && slot_key(host, r.source, #[trigger] less[j]) == k;
                law_keys_tell_folders_apart(host, r.source, less[j], r.source, above.last());
                assert(above[j] == less[j]);
                assert(above[above.len() - 1] == above.last());
            }
        } else {
            if exists|j: int| 0 <= j < above.len() && slot_key(host, r.source, #[trigger] above[j]) == k {
                let j = choose|j: int|
                    0 <= j < above.len() && slot_key(host, r.source, #[trigger] above[j]) == k;
                assert(less[j] == above[j]);
            }
            if exists|j: int| 0 <= j < less.len() && slot_key(host, r.source, #[trigger] less[j]) == k {
                let j = choose|j: int|
                    0 <= j < less.len() && slot_key(host, r.source, #[trigger] less[j]) == k;
                assert(above[j] == less[j]);
            }
        }
    }
}

/// The counters of a folder have room for a record more.
pub open spec fn has_room(f: FolderChangeView, r: RecordView) -> bool {
    &&& i128::MIN <= f.bytes <= i128::MAX - r.size
    &&& i128::MIN <= f.files < i128::MAX
    &&& i128::MIN <= f.dirs < i128::MAX
}

/// A folder of the record's source does not list it.
pub open spec fn is_new(o: SummaryOverlayView, r: RecordView, path: Seq<char>) -> bool {
    let key = canonical(o.base.host, crate::summary::place(r));
    let ch = change_at(o.folders, slot_key(o.base.host, r.source, path)).children;
    !has_child(o.base.host, base_children(o, r.source, path), key) && (ch.contains_key(key)
        ==> ch[key] is None)
}

/// What is left of a record that came and went: nothing in the totals, and a note among the
/// children of its folder.
proof fn lemma_came_and_went(o: SummaryOverlayView, r: RecordView, source: u32, path: Seq<char>)
    requires
        told_apart(o.base.host, crate::summary::folders(r)),
        has_room(change_at(o.folders, slot_key(o.base.host, source, path)), r),
    ensures
        ({
            let host = o.base.host;
            let key = slot_key(host, source, path);
            let p = crate::summary::place(r);
            let before = change_at(o.folders, key);
            let after = change_at(counted_out(counted_in(o, r), r).folders, key);
            after == FolderChangeView {
                children: if key == slot_key(host, r.source, crate::dirs::parent_of(p)) {
                    before.children.insert(canonical(host, p), None)
                } else {
                    before.children
                },
                ..before
            }
        }),
{
    let host = o.base.host;
    let k = slot_key(host, source, path);
    let p = crate::summary::place(r);
    let c = canonical(host, p);
    let above = crate::summary::folders(r);
    let inside = counted_in(o, r);
    lemma_adjusted_at(host, o.folders, r, above, 1, k);
    lemma_adjusted_at(host, inside.folders, r, above, -1, k);
    assert(1 * r.size == r.size && (-1) * r.size == -r.size) by (nonlinear_arith);
    let before = change_at(o.folders, k);
    if k == slot_key(host, r.source, crate::dirs::parent_of(p)) {
        assert(before.children.insert(c, Some(record_child(r))).insert(c, None)
            =~= before.children.insert(c, None));
    }
}

proof fn lemma_replaced_without(
    host: Host,
    cs: Seq<ChildView>,
    ch: Map<Seq<char>, Option<ChildView>>,
    p: Seq<char>,
    n: int,
)
    requires
        !has_child(host, cs, p),
        n <= cs.len(),
    ensures
        replaced(host, cs, ch.insert(p, None), n) == replaced(host, cs, ch, n),
    decreases n,
{
    if n > 0 {
        lemma_replaced_without(host, cs, ch, p, n - 1);
        assert(canonical(host, cs[n - 1].path) != p);
    }
}

proof fn lemma_arrived_without(
    host: Host,
    cs: Seq<ChildView>,
    ch: Map<Seq<char>, Option<ChildView>>,
    p: Seq<char>,
    paths: Seq<Seq<char>>,
)
    requires
        !paths.contains(p),
    ensures
        arrived(host, cs, ch.insert(p, None), paths) == arrived(host, cs, ch, paths),
    decreases paths.len(),
{
    if paths.len() > 0 {
        assert(paths.contains(paths[paths.len() - 1]));
        assert(!paths.drop_last().contains(p)) by {
            if paths.drop_last().contains(p) {
                let k = paths.drop_last().index_of(p);
                assert(paths[k] == p);
            }
        }
        lemma_arrived_without(host, cs, ch, p, paths.drop_last());
    }
}

/// A child that is gone adds nothing, wherever its path stands.
proof fn lemma_arrived_past(
    host: Host,
    cs: Seq<ChildView>,
    ch: Map<Seq<char>, Option<ChildView>>,
    p: Seq<char>,
    paths: Seq<Seq<char>>,
    at: int,
)
    requires
        !paths.contains(p),
        0 <= at <= paths.len(),
    ensures
        arrived(host, cs, ch.insert(p, None), paths.insert(at, p)) == arrived(host, cs, ch, paths),
    decreases paths.len(),
{
    let longer = paths.insert(at, p);
    if at == paths.len() {
        assert(longer.drop_last() =~= paths);
        lemma_arrived_without(host, cs, ch, p, paths);
    } else {
        let front = paths.drop_last();
        assert(longer.drop_last() =~= front.insert(at, p));
        assert(longer.last() == paths.last());
        assert(paths.contains(paths[paths.len() - 1]));
        assert(!front.contains(p)) by {
            if front.contains(p) {
                let k = front.index_of(p);
                assert(paths[k] == p);
            }
        }
        lemma_arrived_past(host, cs, ch, p, front, at);
    }
}

/// A path has its place among ascending ones.
proof fn lemma_place_among(paths: Seq<Seq<char>>, p: Seq<char>) -> (at: int)
    requires
        crate::pathmap::ascending(paths),
        !paths.contains(p),
    ensures
        0 <= at <= paths.len(),
        crate::pathmap::ascending(paths.insert(at, p)),
    decreases paths.len(),
{
    if paths.len() == 0 {
        assert(paths.insert(0, p) =~= seq![p]);
        0
    } else {
        let front = paths.drop_last();
        let last = paths.last();
        assert(paths.contains(paths[paths.len() - 1]));
        crate::order::lemma_lex_total(
            vstd::utf8::encode_utf8(last),
            vstd::utf8::encode_utf8(p),
        );
        crate::text::lemma_encoding_is_faithful(last, p);
        if crate::order::text_lt(last, p) {
            let longer = paths.insert(paths.len() as int, p);
            assert forall|i: int, j: int| 0 <= i < j < longer.len() implies crate::order::text_lt(
                #[trigger] longer[i],
                #[trigger] longer[j],
            ) by {
                if j == paths.len() && i < paths.len() - 1 {
                    crate::order::lemma_lex_transitive(
                        vstd::utf8::encode_utf8(paths[i]),
                        vstd::utf8::encode_utf8(last),
                        vstd::utf8::encode_utf8(p),
                    );
                    assert(crate::order::text_lt(paths[i], paths[paths.len() - 1]));
                }
            }
            paths.len() as int
        } else {
            assert(!front.contains(p)) by {
                if front.contains(p) {
                    let k = front.index_of(p);
                    assert(paths[k] == p);
                }
            }
            assert(crate::pathmap::ascending(front)) by {
                assert forall|i: int, j: int| 0 <= i < j < front.len() implies crate::order::text_lt(
                    #[trigger] front[i],
                    #[trigger] front[j],
                ) by {
                    assert(crate::order::text_lt(paths[i], paths[j]));
                }
            }
            let at = lemma_place_among(front, p);
            let shorter = front.insert(at, p);
            let longer = paths.insert(at, p);
            assert(longer =~= shorter.push(last));
            assert forall|i: int, j: int| 0 <= i < j < longer.len() implies crate::order::text_lt(
                #[trigger] longer[i],
                #[trigger] longer[j],
            ) by {
                if j < shorter.len() {
                    assert(crate::order::text_lt(shorter[i], shorter[j]));
                } else if i < at {
                    assert(longer[i] == paths[i]);
                    assert(crate::order::text_lt(paths[i], paths[paths.len() - 1]));
                } else if i > at {
                    assert(longer[i] == paths[i - 1]);
                    assert(crate::order::text_lt(paths[i - 1], paths[paths.len() - 1]));
                }
            }
            at
        }
    }
}

/// The second overlay only notes that a child is gone which the first did not list.
spec fn notes_gone(
    o: SummaryOverlayView,
    other: SummaryOverlayView,
    source: u32,
    path: Seq<char>,
    p: Seq<char>,
) -> bool {
    let key = slot_key(o.base.host, source, path);
    let ch = change_at(o.folders, key).children;
    &&& other.base == o.base
    &&& !has_child(o.base.host, base_children(o, source, path), p)
    &&& ch.contains_key(p) ==> ch[p] is None
    &&& change_at(other.folders, key).children == ch.insert(p, None)
    &&& forall|c: ChildView| #[trigger] current(other, source, c) == current(o, source, c)
}

proof fn lemma_still_listed(
    o: SummaryOverlayView,
    other: SummaryOverlayView,
    source: u32,
    path: Seq<char>,
    p: Seq<char>,
    cs: Seq<ChildView>,
)
    requires
        notes_gone(o, other, source, path, p),
        lists(o, source, path, cs),
    ensures
        lists(other, source, path, cs),
{
    let host = o.base.host;
    let base = base_children(o, source, path);
    let ch = change_at(o.folders, slot_key(host, source, path)).children;
    let gone = ch.insert(p, None);
    lemma_replaced_without(host, base, ch, p, base.len() as int);
    if ch.contains_key(p) {
        assert(gone =~= ch);
    }
    let paths = choose|paths: Seq<Seq<char>>| #[trigger] lists_with(o, source, path, cs, paths);
    if ch.contains_key(p) {
        lemma_same_refreshed(
            o,
            other,
            source,
            replaced(host, base, ch, base.len() as int) + arrived(host, base, ch, paths),
        );
        assert(lists_with(other, source, path, cs, paths));
    } else {
        assert(!paths.contains(p));
        let at = lemma_place_among(paths, p);
        let more = paths.insert(at, p);
        lemma_arrived_past(host, base, ch, p, paths, at);
        assert forall|k: Seq<char>| #[trigger] more.contains(k) <==> gone.contains_key(k) by {
            if gone.contains_key(k) {
                if k == p {
                    assert(more[at] == k);
                } else {
                    assert(paths.contains(k));
                    let i = paths.index_of(k);
                    assert(more[if i < at { i } else { i + 1 }] == k);
                }
            }
            if more.contains(k) {
                let i = more.index_of(k);
                if i < at {
                    assert(paths[i] == k);
                    assert(paths.contains(k));
                } else if i > at {
                    assert(paths[i - 1] == k);
                    assert(paths.contains(k));
                }
            }
        }
        lemma_same_refreshed(
            o,
            other,
            source,
            replaced(host, base, ch, base.len() as int) + arrived(host, base, ch, paths),
        );
        assert(lists_with(other, source, path, cs, more));
    }
}

proof fn lemma_was_listed(
    o: SummaryOverlayView,
    other: SummaryOverlayView,
    source: u32,
    path: Seq<char>,
    p: Seq<char>,
    cs: Seq<ChildView>,
)
    requires
        notes_gone(o, other, source, path, p),
        lists(other, source, path, cs),
    ensures
        lists(o, source, path, cs),
{
    let host = o.base.host;
    let base = base_children(o, source, path);
    let ch = change_at(o.folders, slot_key(host, source, path)).children;
    let gone = ch.insert(p, None);
    lemma_replaced_without(host, base, ch, p, base.len() as int);
    if ch.contains_key(p) {
        assert(gone =~= ch);
    }
    let more = choose|paths: Seq<Seq<char>>| #[trigger]
        lists_with(other, source, path, cs, paths);
    if ch.contains_key(p) {
        lemma_same_refreshed(
            o,
            other,
            source,
            replaced(host, base, ch, base.len() as int) + arrived(host, base, ch, more),
        );
        assert(lists_with(o, source, path, cs, more));
    } else {
        assert(gone.contains_key(p));
        assert(more.contains(p));
        let at = more.index_of(p);
        let paths = more.remove(at);
        assert(more =~= paths.insert(at, p));
        assert forall|i: int, j: int| 0 <= i < j < paths.len() implies crate::order::text_lt(
            #[trigger] paths[i],
            #[trigger] paths[j],
        ) by {
            let a = if i < at {
                i
            } else {
                i + 1
            };
            let b = if j < at {
                j
            } else {
                j + 1
            };
            assert(crate::order::text_lt(more[a], more[b]));
        }
        assert(!paths.contains(p)) by {
            if paths.contains(p) {
                let i = paths.index_of(p);
                let a = if i < at {
                    i
                } else {
                    i + 1
                };
                assert(more[a] == p && more[at] == p);
                crate::order::lemma_lex_irreflexive(vstd::utf8::encode_utf8(p));
                if a < at {
                    assert(crate::order::text_lt(more[a], more[at]));
                } else {
                    assert(crate::order::text_lt(more[at], more[a]));
                }
            }
        }
        lemma_arrived_past(host, base, ch, p, paths, at);
        assert forall|k: Seq<char>| #[trigger] paths.contains(k) <==> ch.contains_key(k) by {
            if ch.contains_key(k) {
                assert(gone.contains_key(k));
                assert(more.contains(k));
                let i = more.index_of(k);
                assert(i != at);
                assert(paths[if i < at { i } else { i - 1 }] == k);
            }
            if paths.contains(k) {
                let i = paths.index_of(k);
                assert(more[if i < at { i } else { i + 1 }] == k);
                assert(more.contains(k));
                assert(gone.contains_key(k));
            }
        }
        lemma_same_refreshed(
            o,
            other,
            source,
            replaced(host, base, ch, base.len() as int) + arrived(host, base, ch, paths),
        );
        assert(lists_with(o, source, path, cs, paths));
    }
}

proof fn lemma_same_refreshed(
    o: SummaryOverlayView,
    other: SummaryOverlayView,
    source: u32,
    all: Seq<ChildView>,
)
    requires
        forall|c: ChildView| #[trigger] current(other, source, c) == current(o, source, c),
    ensures
        Seq::new(all.len(), |i: int| current(other, source, all[i])) == Seq::new(
            all.len(),
            |i: int| current(o, source, all[i]),
        ),
{
    assert(Seq::new(all.len(), |i: int| current(other, source, all[i])) =~= Seq::new(
        all.len(),
        |i: int| current(o, source, all[i]),
    ));
}

/// A removal undoes an arrival: once a record that its folder did not list was written and
/// removed again, every folder has the totals and lists the children that it had before.
pub proof fn law_a_removal_undoes_an_arrival(
    o: SummaryOverlayView,
    r: RecordView,
    source: u32,
    path: Seq<char>,
    cs: Seq<ChildView>,
)
    requires
        crate::dirs::normal_form(r.path) is Some,
        told_apart(o.base.host, crate::summary::folders(r)),
        slot_key(o.base.host, source, path) == slot_key(
            o.base.host,
            r.source,
            crate::dirs::parent_of(crate::summary::place(r)),
        ) ==> is_new(o, r, path),
        forall|k: Seq<char>| #[trigger] o.folders.contains_key(k) ==> has_room(o.folders[k], r),
    ensures
        ({
            let (there, fault) = changed(o, ChangeView::Upsert(r), Seq::empty());
            let (gone, other) = changed(there, ChangeView::Remove(r.path), seq![r]);
            &&& fault is None
            &&& other is None
            &&& aggregated(gone, source, path) == aggregated(o, source, path)
            &&& lists(gone, source, path, cs) <==> lists(o, source, path, cs)
        }),
{
    let host = o.base.host;
    let there = counted_in(o, r);
    let gone = counted_out(there, r);
    assert(changed(o, ChangeView::Upsert(r), Seq::empty()) == (there, None::<Fault>));
    assert(seq![r].drop_last() =~= Seq::<RecordView>::empty());
    assert(all_out(there, Seq::empty(), Some(crate::dirs::normal_form(r.path)->0)) == (
        there,
        None::<Fault>,
    ));
    assert(changed(there, ChangeView::Remove(r.path), seq![r]) == (gone, None::<Fault>));
    let p = crate::summary::place(r);
    let above = crate::dirs::parent_of(p);
    assert forall|q: Seq<char>| #[trigger] aggregated(gone, source, q) == aggregated(
        o,
        source,
        q,
    ) by {
        lemma_came_and_went(o, r, source, q);
    }
    assert forall|c: ChildView| #[trigger] current(gone, source, c) == current(o, source, c) by {
        assert(aggregated(gone, source, c.path) == aggregated(o, source, c.path));
    }
    lemma_came_and_went(o, r, source, path);
    if slot_key(host, source, path) == slot_key(host, r.source, above) {
        law_keys_tell_folders_apart(host, source, path, r.source, above);
        if lists(o, source, path, cs) {
            lemma_still_listed(o, gone, source, path, canonical(host, p), cs);
        }
        if lists(gone, source, path, cs) {
            lemma_was_listed(o, gone, source, path, canonical(host, p), cs);
        }
    } else {
        let base = base_children(o, source, path);
        let ch = change_at(o.folders, slot_key(o.base.host, source, path)).children;
        assert forall|paths: Seq<Seq<char>>| #[trigger]
            lists_with(gone, source, path, cs, paths) <==> lists_with(
            o,
            source,
            path,
            cs,
            paths,
        ) by {
            lemma_same_refreshed(
                o,
                gone,
                source,
                replaced(host, base, ch, base.len() as int) + arrived(host, base, ch, paths),
            );
        }
        if lists(o, source, path, cs) {
            let paths = choose|paths: Seq<Seq<char>>| #[trigger]
                lists_with(o, source, path, cs, paths);
            assert(lists_with(gone, source, path, cs, paths));
        }
    }
}

/// A removal is refused without the record that was there, and changes nothing.
pub proof fn law_a_removal_needs_its_record(o: SummaryOverlayView, path: Seq<char>)
    ensures
        changed(o, ChangeView::Remove(path), Seq::empty()) == (
            o,
            Some(Fault::RemovalWithoutRecord(path)),
        ),
{
}

/// Ascending paths are told by which they are.
proof fn lemma_one_ascent(a: Seq<Seq<char>>, b: Seq<Seq<char>>)
    requires
        crate::pathmap::ascending(a),
        crate::pathmap::ascending(b),
        forall|k: Seq<char>| #[trigger] a.contains(k) <==> b.contains(k),
    ensures
        a == b,
    decreases a.len(),
{
    if a.len() == 0 {
        if b.len() > 0 {
            assert(b.contains(b[0]));
            assert(a.contains(b[0]));
        }
        assert(a =~= b);
    } else {
        assert(a.contains(a[a.len() - 1]));
        let (x, y) = (a.last(), b.last());
        assert(b.contains(x));
        assert(b.contains(b[b.len() - 1]));
        assert(a.contains(y));
        let i = a.index_of(y);
        let j = b.index_of(x);
        let (ex, ey) = (vstd::utf8::encode_utf8(x), vstd::utf8::encode_utf8(y));
        crate::order::lemma_lex_irreflexive(ex);
        crate::order::lemma_lex_irreflexive(ey);
        if x != y {
            assert(crate::order::text_lt(a[i], a[a.len() - 1]));
            assert(crate::order::text_lt(b[j], b[b.len() - 1]));
            crate::order::lemma_lex_transitive(ex, ey, ex);
        }
        let (fa, fb) = (a.drop_last(), b.drop_last());
        assert forall|k: Seq<char>| #[trigger] fa.contains(k) <==> fb.contains(k) by {
            if fa.contains(k) {
                let m = fa.index_of(k);
                assert(a[m] == k);
                assert(a.contains(k));
                assert(b.contains(k));
                let n = b.index_of(k);
                if n == b.len() - 1 {
                    assert(crate::order::text_lt(a[m], a[a.len() - 1]));
                }
                assert(fb[n] == k);
            }
            if fb.contains(k) {
                let m = fb.index_of(k);
                assert(b[m] == k);
                assert(b.contains(k));
                assert(a.contains(k));
                let n = a.index_of(k);
                if n == a.len() - 1 {
                    assert(crate::order::text_lt(b[m], b[b.len() - 1]));
                }
                assert(fa[n] == k);
            }
        }
        assert forall|i: int, j: int| 0 <= i < j < fa.len() implies crate::order::text_lt(
            #[trigger] fa[i],
            #[trigger] fa[j],
        ) by {
            assert(crate::order::text_lt(a[i], a[j]));
        }
        assert forall|i: int, j: int| 0 <= i < j < fb.len() implies crate::order::text_lt(
            #[trigger] fb[i],
            #[trigger] fb[j],
        ) by {
            assert(crate::order::text_lt(b[i], b[j]));
        }
        lemma_one_ascent(fa, fb);
        assert(a =~= fa.push(x));
        assert(b =~= fb.push(y));
    }
}

/// A folder has one list of children: its entry and its listing agree.
pub proof fn law_children_are_listed_one_way(
    o: SummaryOverlayView,
    source: u32,
    path: Seq<char>,
    a: Seq<ChildView>,
    b: Seq<ChildView>,
)
    requires
        lists(o, source, path, a),
        lists(o, source, path, b),
    ensures
        a == b,
{
    let p = choose|paths: Seq<Seq<char>>| #[trigger] lists_with(o, source, path, a, paths);
    let q = choose|paths: Seq<Seq<char>>| #[trigger] lists_with(o, source, path, b, paths);
    lemma_one_ascent(p, q);
}

/// The totals of every folder above a record count it; those of all others stay.
pub proof fn law_arrivals_count_in_every_folder_above(
    o: SummaryOverlayView,
    r: RecordView,
    source: u32,
    path: Seq<char>,
)
    requires
        told_apart(o.base.host, crate::summary::folders(r)),
    ensures
        ({
            let host = o.base.host;
            let key = slot_key(host, source, path);
            let before = change_at(o.folders, key);
            let after = change_at(counted_in(o, r).folders, key);
            if source == r.source && lies_below(host, r, path) {
                &&& after.bytes == shifted(before, r, 1).bytes
                &&& after.files == shifted(before, r, 1).files
                &&& after.dirs == shifted(before, r, 1).dirs
            } else {
                &&& after.bytes == before.bytes
                &&& after.files == before.files
                &&& after.dirs == before.dirs
            }
        }),
{
    let host = o.base.host;
    let k = slot_key(host, source, path);
    let above = crate::summary::folders(r);
    lemma_adjusted_at(host, o.folders, r, above, 1, k);
    if exists|j: int| 0 <= j < above.len() && slot_key(host, r.source, #[trigger] above[j]) == k {
        let j = choose|j: int|
            0 <= j < above.len() && slot_key(host, r.source, #[trigger] above[j]) == k;
        law_keys_tell_folders_apart(host, r.source, above[j], source, path);
        assert(lies_below(host, r, path));
    }
    if source == r.source && lies_below(host, r, path) {
        let j = choose|j: int|
            0 <= j < above.len() && canonical(host, #[trigger] above[j]) == canonical(host, path);
        assert(slot_key(host, r.source, above[j]) == k);
    }
}

/// A record lies somewhere below a folder, as far as the host tells paths apart.
pub open spec fn lies_below(host: Host, r: RecordView, path: Seq<char>) -> bool {
    let above = crate::summary::folders(r);
    exists|j: int|
        0 <= j < above.len() && canonical(host, #[trigger] above[j]) == canonical(host, path)
}

} // verus!
