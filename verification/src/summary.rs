//! Folder totals and direct children, aggregated from native metadata records.

use crate::host::Host;
use crate::types::{FileKind, FileRecord, RecordView};
use vstd::hash_map::StringHashMap;
use vstd::prelude::*;

verus! {

/// One direct child shown by a folder view.
#[derive(Debug)]
pub struct DirectoryChild {
    pub path: String,
    pub kind: FileKind,
    /// For files this is the file's logical size; for directories it is the aggregate
    /// logical size of the directory subtree.
    pub logical_bytes: u64,
    pub file_count: u64,
    pub directory_count: u64,
}

/// Aggregate metadata for one indexed directory.
#[derive(Debug)]
pub struct DirectorySummaryEntry {
    pub source: u32,
    pub path: String,
    pub logical_bytes: u64,
    pub file_count: u64,
    pub directory_count: u64,
    pub children: Vec<DirectoryChild>,
}

/// A child as a mathematical value.
#[verifier::ext_equal]
pub struct ChildView {
    pub path: Seq<char>,
    pub kind: FileKind,
    pub logical_bytes: u64,
    pub file_count: u64,
    pub directory_count: u64,
}

/// A directory as a mathematical value.
#[verifier::ext_equal]
pub struct EntryView {
    pub source: u32,
    pub path: Seq<char>,
    pub logical_bytes: u64,
    pub file_count: u64,
    pub directory_count: u64,
    pub children: Seq<ChildView>,
}

impl View for DirectoryChild {
    type V = ChildView;

    open spec fn view(&self) -> ChildView {
        ChildView {
            path: self.path@,
            kind: self.kind,
            logical_bytes: self.logical_bytes,
            file_count: self.file_count,
            directory_count: self.directory_count,
        }
    }
}

/// Children as mathematical values.
pub open spec fn child_views(cs: Seq<DirectoryChild>) -> Seq<ChildView> {
    Seq::new(cs.len(), |i: int| cs[i]@)
}

impl View for DirectorySummaryEntry {
    type V = EntryView;

    open spec fn view(&self) -> EntryView {
        EntryView {
            source: self.source,
            path: self.path@,
            logical_bytes: self.logical_bytes,
            file_count: self.file_count,
            directory_count: self.directory_count,
            children: child_views(self.children@),
        }
    }
}

/// Directories as mathematical values.
pub open spec fn entry_views(es: Seq<DirectorySummaryEntry>) -> Seq<EntryView> {
    Seq::new(es.len(), |i: int| es[i]@)
}

impl Clone for DirectoryChild {
    fn clone(&self) -> (r: DirectoryChild)
        ensures
            r@ == self@,
    {
        DirectoryChild {
            path: self.path.clone(),
            kind: self.kind,
            logical_bytes: self.logical_bytes,
            file_count: self.file_count,
            directory_count: self.directory_count,
        }
    }
}

/// Copies children.
pub fn copied_children(cs: &[DirectoryChild]) -> (out: Vec<DirectoryChild>)
    ensures
        child_views(out@) == child_views(cs@),
{
    let mut out: Vec<DirectoryChild> = Vec::new();
    let mut i: usize = 0;
    while i < cs.len()
        invariant
            i <= cs@.len(),
            out@.len() == i,
            forall|k: int| 0 <= k < i ==> (#[trigger] out@[k])@ == cs@[k]@,
        decreases cs@.len() - i,
    {
        out.push(cs[i].clone());
        i += 1;
    }
    assert(child_views(out@) =~= child_views(cs@));
    out
}

impl Clone for DirectorySummaryEntry {
    fn clone(&self) -> (r: DirectorySummaryEntry)
        ensures
            r@ == self@,
    {
        DirectorySummaryEntry {
            source: self.source,
            path: self.path.clone(),
            logical_bytes: self.logical_bytes,
            file_count: self.file_count,
            directory_count: self.directory_count,
            children: copied_children(self.children.as_slice()),
        }
    }
}

// ---------------------------------------------------------------------------
// What a summary says

/// The normal form of a record's path.
pub open spec fn place(r: RecordView) -> Seq<char> {
    crate::dirs::tidy(r.path)
}

/// The folders that a record lies in, from the top down.
pub open spec fn folders(r: RecordView) -> Seq<Seq<char>> {
    crate::dirs::ancestors_of(r.path).drop_last()
}

/// Files and links count as files.
pub open spec fn counts_as_file(k: FileKind) -> bool {
    k is File || k is Symlink
}

/// One of the records has this place.
pub open spec fn has_place(rs: Seq<RecordView>, p: Seq<char>) -> bool
    decreases rs.len(),
{
    rs.len() > 0 && (has_place(rs.drop_last(), p) || place(rs.last()) == p)
}

/// One of the records has a place that is put in order like this.
pub open spec fn has_form(host: Host, rs: Seq<RecordView>, form: Seq<char>) -> bool
    decreases rs.len(),
{
    rs.len() > 0 && (has_form(host, rs.drop_last(), form) || crate::dirs::order_form(
        host,
        place(rs.last()),
    ) == form)
}

/// The records of a source, of several with one place the first.
pub open spec fn kept(host: Host, rs: Seq<RecordView>, source: u32) -> Seq<RecordView>
    decreases rs.len(),
{
    if rs.len() == 0 {
        Seq::empty()
    } else {
        let front = kept(host, rs.drop_last(), source);
        let r = rs.last();
        if r.source == source && !has_form(host, front, crate::dirs::order_form(host, place(r))) {
            front.push(r)
        } else {
            front
        }
    }
}

/// The record makes `d` a folder: it lies in it, or is it.
pub open spec fn makes(r: RecordView, d: Seq<char>) -> bool {
    folders(r).contains(d) || (r.kind is Dir && place(r) == d)
}

/// `d` is a folder of the records.
pub open spec fn is_folder(ks: Seq<RecordView>, d: Seq<char>) -> bool
    decreases ks.len(),
{
    ks.len() > 0 && (is_folder(ks.drop_last(), d) || makes(ks.last(), d))
}

/// The logical size of all files below a folder.
pub open spec fn bytes_below(ks: Seq<RecordView>, d: Seq<char>) -> nat
    decreases ks.len(),
{
    if ks.len() == 0 {
        0
    } else {
        let r = ks.last();
        bytes_below(ks.drop_last(), d) + if folders(r).contains(d) && counts_as_file(r.kind) {
            r.size as nat
        } else {
            0
        }
    }
}

/// The number of files below a folder.
pub open spec fn files_below(ks: Seq<RecordView>, d: Seq<char>) -> nat
    decreases ks.len(),
{
    if ks.len() == 0 {
        0
    } else {
        let r = ks.last();
        files_below(ks.drop_last(), d) + if folders(r).contains(d) && counts_as_file(r.kind) {
            1nat
        } else {
            0
        }
    }
}

/// The number of directory records below a folder.
pub open spec fn dirs_below(ks: Seq<RecordView>, d: Seq<char>) -> nat
    decreases ks.len(),
{
    if ks.len() == 0 {
        0
    } else {
        let r = ks.last();
        dirs_below(ks.drop_last(), d) + if folders(r).contains(d) && r.kind is Dir {
            1nat
        } else {
            0
        }
    }
}

/// A record as a child of its folder.
pub open spec fn file_child(r: RecordView) -> ChildView {
    ChildView {
        path: place(r),
        kind: r.kind,
        logical_bytes: r.size,
        file_count: if counts_as_file(r.kind) {
            1
        } else {
            0
        },
        directory_count: 0,
    }
}

/// The record is no directory and lies directly in `d`.
pub open spec fn lies_in(r: RecordView, d: Seq<char>) -> bool {
    !(r.kind is Dir) && folders(r).len() > 0 && folders(r).last() == d
}

/// The records that lie directly in `d`, directories left out.
pub open spec fn files_in(ks: Seq<RecordView>, d: Seq<char>) -> Seq<ChildView>
    decreases ks.len(),
{
    if ks.len() == 0 {
        Seq::empty()
    } else {
        let front = files_in(ks.drop_last(), d);
        if lies_in(ks.last(), d) {
            front.push(file_child(ks.last()))
        } else {
            front
        }
    }
}

/// A folder as a child: its totals stand for its subtree.
pub open spec fn folder_child(ks: Seq<RecordView>, p: Seq<char>) -> ChildView {
    ChildView {
        path: p,
        kind: FileKind::Dir,
        logical_bytes: crate::rank::capped(bytes_below(ks, p)),
        file_count: crate::rank::capped(files_below(ks, p)),
        directory_count: crate::rank::capped(dirs_below(ks, p)),
    }
}

/// The folder right above a folder.
pub open spec fn up(p: Seq<char>) -> Option<Seq<char>> {
    let a = crate::dirs::ancestors_of(p);
    if a.len() >= 2 {
        Some(a[a.len() - 2])
    } else {
        None
    }
}

/// `c` is a direct child of the folder `d`.
pub open spec fn is_child(ks: Seq<RecordView>, d: Seq<char>, c: ChildView) -> bool {
    ||| files_in(ks, d).contains(c)
    ||| is_folder(ks, c.path) && up(c.path) == Some(d) && c == folder_child(ks, c.path)
}

/// Children in path order, a folder before a file of the same path, and each once.
pub open spec fn children_ordered(host: Host, cs: Seq<ChildView>) -> bool {
    forall|i: int, j: int|
        0 <= i < j < cs.len() ==> stands_before(host, #[trigger] cs[i], #[trigger] cs[j])
}

/// A child may stand before another: its path comes first, or it is a folder or the other is
/// none where the paths are the same but for what the host does not tell apart.
pub open spec fn stands_before(host: Host, a: ChildView, b: ChildView) -> bool {
    let (x, y) = (
        crate::dirs::order_form(host, a.path),
        crate::dirs::order_form(host, b.path),
    );
    ||| crate::order::text_lt(x, y)
    ||| x == y && (a.kind is Dir || !(b.kind is Dir)) && (a.path == b.path ==> a.kind is Dir && !(
    b.kind is Dir))
}

/// The entry says what holds of its folder.
pub open spec fn entry_right(host: Host, e: EntryView, ks: Seq<RecordView>) -> bool {
    &&& e.logical_bytes == crate::rank::capped(bytes_below(ks, e.path))
    &&& e.file_count == crate::rank::capped(files_below(ks, e.path))
    &&& e.directory_count == crate::rank::capped(dirs_below(ks, e.path))
    &&& children_ordered(host, e.children)
    &&& forall|c: ChildView| #[trigger] e.children.contains(c) <==> is_child(ks, e.path, c)
}

/// The key of an entry comes before another.
pub open spec fn key_first(a: EntryView, b: EntryView) -> bool {
    a.source < b.source || (a.source == b.source && crate::order::text_lt(a.path, b.path))
}

/// Entries in the order of source and path, each folder once.
pub open spec fn entries_ordered(es: Seq<EntryView>) -> bool {
    forall|i: int, j: int|
        0 <= i < j < es.len() ==> key_first(#[trigger] es[i], #[trigger] es[j])
}

/// There is an entry for the folder.
pub open spec fn has_entry_for(es: Seq<EntryView>, source: u32, d: Seq<char>) -> bool {
    exists|i: int| 0 <= i < es.len() && (#[trigger] es[i]).source == source && es[i].path == d
}

/// `es` summarizes the records: every folder has its one entry, which says what holds.
pub open spec fn summarizes(host: Host, es: Seq<EntryView>, rs: Seq<RecordView>) -> bool {
    &&& entries_ordered(es)
    &&& forall|source: u32, d: Seq<char>| #[trigger]
        has_entry_for(es, source, d) <==> is_folder(kept(host, rs, source), d)
    &&& forall|i: int|
        0 <= i < es.len() ==> entry_right(host, #[trigger] es[i], kept(host, rs, es[i].source))
}

// ---------------------------------------------------------------------------
// Counting

/// Running totals of one folder.
struct Folder {
    path: String,
    bytes: u64,
    files: u64,
    dirs: u64,
    held: Vec<DirectoryChild>,
}

/// The folder holds what the records say of it.
spec fn folder_right(f: Folder, ks: Seq<RecordView>) -> bool {
    &&& f.bytes == crate::rank::capped(bytes_below(ks, f.path@))
    &&& f.files == crate::rank::capped(files_below(ks, f.path@))
    &&& f.dirs == crate::rank::capped(dirs_below(ks, f.path@))
    &&& child_views(f.held@) == files_in(ks, f.path@)
}

/// The index leads to every folder by its path.
spec fn indexed(fs: Seq<Folder>, index: Map<Seq<char>, usize>) -> bool {
    &&& forall|p: Seq<char>| #[trigger]
        index.contains_key(p) ==> index[p] < fs.len() && fs[index[p] as int].path@ == p
    &&& forall|i: int|
        0 <= i < fs.len() ==> index.contains_key((#[trigger] fs[i]).path@) && index[fs[i].path@]
            == i
}

/// The folders are those of the records, with their totals.
spec fn counted(fs: Seq<Folder>, index: Map<Seq<char>, usize>, ks: Seq<RecordView>) -> bool {
    &&& indexed(fs, index)
    &&& forall|p: Seq<char>| #[trigger] index.contains_key(p) <==> is_folder(ks, p)
    &&& forall|i: int| 0 <= i < fs.len() ==> folder_right(#[trigger] fs[i], ks)
}

/// Nothing is counted for what is no folder.
proof fn lemma_nothing_there(ks: Seq<RecordView>, d: Seq<char>)
    requires
        !is_folder(ks, d),
    ensures
        bytes_below(ks, d) == 0,
        files_below(ks, d) == 0,
        dirs_below(ks, d) == 0,
        files_in(ks, d) == Seq::<ChildView>::empty(),
    decreases ks.len(),
{
    if ks.len() > 0 {
        lemma_nothing_there(ks.drop_last(), d);
        let r = ks.last();
        if lies_in(r, d) {
            assert(folders(r).contains(folders(r)[folders(r).len() - 1]));
        }
    }
}

/// Makes sure that there is a folder of this path.
fn ensure_folder(fs: &mut Vec<Folder>, index: &mut StringHashMap<usize>, path: &[char], Ghost(ks): Ghost<Seq<RecordView>>)
    requires
        indexed(old(fs)@, old(index)@),
        forall|p: Seq<char>| is_folder(ks, p) ==> #[trigger] old(index)@.contains_key(p),
        forall|i: int| 0 <= i < old(fs)@.len() ==> folder_right(#[trigger] old(fs)@[i], ks),
    ensures
        indexed(final(fs)@, final(index)@),
        forall|p: Seq<char>| #[trigger]
            final(index)@.contains_key(p) <==> old(index)@.contains_key(p) || p == path@,
        forall|i: int| 0 <= i < final(fs)@.len() ==> folder_right(#[trigger] final(fs)@[i], ks),
{
    let text = crate::text::string_of(path);
    if index.contains_key(text.as_str()) {
        return;
    }
    let held: Vec<DirectoryChild> = Vec::new();
    let f = Folder { path: text.clone(), bytes: 0, files: 0, dirs: 0, held };
    proof {
        if is_folder(ks, path@) {
            assert(index@.contains_key(path@));
        }
        lemma_nothing_there(ks, path@);
        assert(child_views(held@) =~= Seq::empty());
    }
    let ghost before = fs@;
    let ghost had = index@;
    let at: usize = fs.len();
    fs.push(f);
    index.insert(text, at);
    proof {
        assert forall|p: Seq<char>| #[trigger] index@.contains_key(p) implies index@[p] < fs@.len()
            && fs@[index@[p] as int].path@ == p by {
            if p != path@ {
                assert(had.contains_key(p));
            }
        }
        assert forall|i: int| 0 <= i < fs@.len() implies index@.contains_key(
            (#[trigger] fs@[i]).path@,
        ) && index@[fs@[i].path@] == i by {
            if i < before.len() {
                assert(before[i] == fs@[i]);
                assert(had.contains_key(before[i].path@));
            }
        }
        assert forall|i: int| 0 <= i < fs@.len() implies folder_right(#[trigger] fs@[i], ks) by {
            if i < before.len() {
                assert(before[i] == fs@[i]);
            }
        }
    }
}

/// What one more record changes.
proof fn lemma_one_more(ks: Seq<RecordView>, r: RecordView, d: Seq<char>)
    ensures
        is_folder(ks.push(r), d) <==> is_folder(ks, d) || makes(r, d),
        bytes_below(ks.push(r), d) == bytes_below(ks, d) + (if folders(r).contains(d)
            && counts_as_file(r.kind) {
            r.size as nat
        } else {
            0
        }),
        files_below(ks.push(r), d) == files_below(ks, d) + (if folders(r).contains(d)
            && counts_as_file(r.kind) {
            1nat
        } else {
            0
        }),
        dirs_below(ks.push(r), d) == dirs_below(ks, d) + (if folders(r).contains(d)
            && r.kind is Dir {
            1nat
        } else {
            0
        }),
        files_in(ks.push(r), d) == if lies_in(r, d) {
            files_in(ks, d).push(file_child(r))
        } else {
            files_in(ks, d)
        },
{
    assert(ks.push(r).drop_last() =~= ks);
}

/// How far one record is counted: the totals of the first folders have it already.
spec fn half_right(
    f: Folder,
    ks: Seq<RecordView>,
    r: RecordView,
    done: Seq<Seq<char>>,
    held: bool,
) -> bool {
    let now = if done.contains(f.path@) {
        ks.push(r)
    } else {
        ks
    };
    &&& f.bytes == crate::rank::capped(bytes_below(now, f.path@))
    &&& f.files == crate::rank::capped(files_below(now, f.path@))
    &&& f.dirs == crate::rank::capped(dirs_below(now, f.path@))
    &&& child_views(f.held@) == files_in(
        if held {
            ks.push(r)
        } else {
            ks
        },
        f.path@,
    )
}

/// Adds one record to the totals of a folder.
fn add_to(f: &mut Folder, r: &FileRecord)
    ensures
        final(f).path@ == old(f).path@,
        final(f).held@ == old(f).held@,
        final(f).bytes == if counts_as_file(r.kind) {
            crate::rank::capped(old(f).bytes as nat + r.size as nat)
        } else {
            old(f).bytes
        },
        final(f).files == if counts_as_file(r.kind) {
            crate::rank::capped(old(f).files as nat + 1)
        } else {
            old(f).files
        },
        final(f).dirs == if r.kind is Dir {
            crate::rank::capped(old(f).dirs as nat + 1)
        } else {
            old(f).dirs
        },
{
    match r.kind {
        FileKind::File | FileKind::Symlink => {
            f.bytes = f.bytes.saturating_add(r.size);
            f.files = f.files.saturating_add(1);
        },
        FileKind::Dir => {
            f.dirs = f.dirs.saturating_add(1);
        },
        FileKind::Other => {},
    }
}

/// A record as a child of its folder.
fn child_of_record(r: &FileRecord, path: &[char]) -> (c: DirectoryChild)
    requires
        path@ == place(r@),
    ensures
        c@ == file_child(r@),
{
    let counts: bool = match r.kind {
        FileKind::File => true,
        FileKind::Symlink => true,
        _ => false,
    };
    DirectoryChild {
        path: crate::text::string_of(path),
        kind: r.kind,
        logical_bytes: r.size,
        file_count: if counts {
            1
        } else {
            0
        },
        directory_count: 0,
    }
}

/// Counts one record into its folders, which all exist.
fn count_into(
    fs: &mut Vec<Folder>,
    index: &StringHashMap<usize>,
    r: &FileRecord,
    chain: &Vec<Vec<char>>,
    Ghost(ks): Ghost<Seq<RecordView>>,
)
    requires
        crate::text::texts(chain@) == crate::dirs::ancestors_of(r@.path),
        chain@.len() > 0,
        indexed(old(fs)@, index@),
        forall|i: int| 0 <= i < old(fs)@.len() ==> folder_right(#[trigger] old(fs)@[i], ks),
        forall|p: Seq<char>| folders(r@).contains(p) ==> #[trigger] index@.contains_key(p),
    ensures
        final(fs)@.len() == old(fs)@.len(),
        indexed(final(fs)@, index@),
        forall|i: int|
            0 <= i < final(fs)@.len() ==> half_right(
                #[trigger] final(fs)@[i],
                ks,
                r@,
                folders(r@),
                false,
            ),
{
    let ghost all = folders(r@);
    let n: usize = chain.len();
    let mut k: usize = 0;
    proof {
        crate::dirs::law_ancestors_differ(r@.path);
        assert(all.no_duplicates()) by {
            let a = crate::dirs::ancestors_of(r@.path);
            assert forall|i: int, j: int| 0 <= i < all.len() && 0 <= j < all.len() && i != j implies all[i]
                != all[j] by {
                assert(a[i] != a[j]);
            }
        }
        assert(all.take(0) =~= Seq::empty());
    }
    while k < n - 1
        invariant
            0 <= k <= n - 1,
            n == chain@.len(),
            all == folders(r@),
            all.len() == n - 1,
            all.no_duplicates(),
            crate::text::texts(chain@) == crate::dirs::ancestors_of(r@.path),
            fs@.len() == old(fs)@.len(),
            indexed(fs@, index@),
            forall|p: Seq<char>| all.contains(p) ==> #[trigger] index@.contains_key(p),
            forall|i: int|
                0 <= i < fs@.len() ==> half_right(
                    #[trigger] fs@[i],
                    ks,
                    r@,
                    all.take(k as int),
                    false,
                ),
        decreases n - k,
    {
        let text = crate::text::string_of(chain[k].as_slice());
        assert(text@ == all[k as int]) by {
            assert(crate::text::texts(chain@)[k as int] == chain@[k as int]@);
        }
        assert(all.contains(all[k as int]));
        assert(index@.contains_key(text@));
        let ghost before = fs@;
        let ghost step = all.take(k + 1);
        if let Some(at) = index.get(text.as_str()) {
            let i: usize = *at;
            add_to(&mut fs[i], r);
            proof {
                assert(before[i as int].path@ == text@);
                lemma_one_more(ks, r@, text@);
                assert(!all.take(k as int).contains(text@)) by {
                    if all.take(k as int).contains(text@) {
                        let j = all.take(k as int).index_of(text@);
                        assert(all[j] == all[k as int]);
                    }
                }
                assert(step.contains(text@)) by {
                    assert(step[k as int] == text@);
                }
                assert(half_right(before[i as int], ks, r@, all.take(k as int), false));
                assert forall|j: int| 0 <= j < fs@.len() implies half_right(
                    #[trigger] fs@[j],
                    ks,
                    r@,
                    step,
                    false,
                ) by {
                    if j != i {
                        assert(fs@[j] == before[j]);
                        assert(half_right(before[j], ks, r@, all.take(k as int), false));
                        assert(before[j].path@ != text@) by {
                            assert(index@[before[j].path@] == j);
                        }
                        assert(step.contains(fs@[j].path@) == all.take(k as int).contains(
                            fs@[j].path@,
                        )) by {
                            if step.contains(fs@[j].path@) {
                                let m = step.index_of(fs@[j].path@);
                                assert(m < k);
                                assert(all.take(k as int)[m] == fs@[j].path@);
                            }
                            if all.take(k as int).contains(fs@[j].path@) {
                                let m = all.take(k as int).index_of(fs@[j].path@);
                                assert(step[m] == fs@[j].path@);
                            }
                        }
                    }
                }
                assert(indexed(fs@, index@)) by {
                    assert forall|j: int| 0 <= j < fs@.len() implies index@.contains_key(
                        (#[trigger] fs@[j]).path@,
                    ) && index@[fs@[j].path@] == j by {
                        assert(fs@[j].path@ == before[j].path@);
                        assert(index@.contains_key(before[j].path@));
                    }
                    assert forall|p: Seq<char>| #[trigger] index@.contains_key(p) implies index@[p]
                        < fs@.len() && fs@[index@[p] as int].path@ == p by {
                        assert(before[index@[p] as int].path@ == p);
                    }
                }
            }
        }
        k += 1;
    }
    assert(all.take(k as int) =~= all);
}

/// Hands a record that is no directory to the folder that it lies in.
fn hold_file(
    fs: &mut Vec<Folder>,
    index: &StringHashMap<usize>,
    r: &FileRecord,
    chain: &Vec<Vec<char>>,
    Ghost(ks): Ghost<Seq<RecordView>>,
)
    requires
        crate::text::texts(chain@) == crate::dirs::ancestors_of(r@.path),
        chain@.len() > 0,
        indexed(old(fs)@, index@),
        forall|p: Seq<char>| folders(r@).contains(p) ==> #[trigger] index@.contains_key(p),
        forall|i: int|
            0 <= i < old(fs)@.len() ==> half_right(
                #[trigger] old(fs)@[i],
                ks,
                r@,
                folders(r@),
                false,
            ),
    ensures
        indexed(final(fs)@, index@),
        forall|i: int| 0 <= i < final(fs)@.len() ==> folder_right(
            #[trigger] final(fs)@[i],
            ks.push(r@),
        ),
{
    let ghost all = folders(r@);
    let ghost before = fs@;
    let n: usize = chain.len();
    let is_dir: bool = match r.kind {
        FileKind::Dir => true,
        _ => false,
    };
    if !is_dir && n >= 2 {
        let text = crate::text::string_of(chain[n - 2].as_slice());
        assert(text@ == all.last()) by {
            assert(crate::text::texts(chain@)[n - 2] == chain@[n - 2]@);
        }
        assert(all.contains(all[n - 2]));
        assert(index@.contains_key(text@));
        let path = crate::text::chars_of(r.path.as_str());
        let tidy = crate::dirs::tidied(path.as_slice());
        let child = child_of_record(r, tidy.as_slice());
        if let Some(at) = index.get(text.as_str()) {
            let i: usize = *at;
            let ghost old_held = before[i as int].held@;
            fs[i].held.push(child);
            proof {
                assert(child_views(fs@[i as int].held@) =~= child_views(old_held).push(child@));
                assert forall|j: int| 0 <= j < fs@.len() implies half_right(
                    #[trigger] fs@[j],
                    ks,
                    r@,
                    all,
                    true,
                ) by {
                    lemma_one_more(ks, r@, fs@[j].path@);
                    assert(half_right(before[j], ks, r@, all, false));
                    if j != i {
                        assert(fs@[j] == before[j]);
                        assert(index@[before[j].path@] == j);
                    }
                }
                assert(indexed(fs@, index@)) by {
                    assert forall|j: int| 0 <= j < fs@.len() implies index@.contains_key(
                        (#[trigger] fs@[j]).path@,
                    ) && index@[fs@[j].path@] == j by {
                        assert(fs@[j].path@ == before[j].path@);
                        assert(index@.contains_key(before[j].path@));
                    }
                    assert forall|p: Seq<char>| #[trigger] index@.contains_key(p) implies index@[p]
                        < fs@.len() && fs@[index@[p] as int].path@ == p by {
                        assert(before[index@[p] as int].path@ == p);
                    }
                }
            }
        }
    } else {
        proof {
            assert forall|j: int| 0 <= j < fs@.len() implies half_right(
                #[trigger] fs@[j],
                ks,
                r@,
                all,
                true,
            ) by {
                lemma_one_more(ks, r@, fs@[j].path@);
            }
        }
    }
    proof {
        assert forall|j: int| 0 <= j < fs@.len() implies folder_right(
            #[trigger] fs@[j],
            ks.push(r@),
        ) by {
            assert(half_right(fs@[j], ks, r@, all, true));
            lemma_one_more(ks, r@, fs@[j].path@);
        }
    }
}

/// Counts one more record.
fn count_record(
    fs: &mut Vec<Folder>,
    index: &mut StringHashMap<usize>,
    r: &FileRecord,
    Ghost(ks): Ghost<Seq<RecordView>>,
)
    requires
        counted(old(fs)@, old(index)@, ks),
    ensures
        counted(final(fs)@, final(index)@, ks.push(r@)),
{
    let path = crate::text::chars_of(r.path.as_str());
    let chain = crate::dirs::ancestor_paths(path.as_slice());
    let ghost all = folders(r@);
    let ghost had = index@;
    proof {
        crate::dirs::law_ancestors_differ(r@.path);
        assert(crate::text::texts(chain@).len() == chain@.len());
    }
    let n: usize = chain.len();
    let mut k: usize = 0;
    assert(all.take(0) =~= Seq::empty());
    while k < n - 1
        invariant
            0 <= k <= n - 1,
            n == chain@.len(),
            all == folders(r@),
            all.len() == n - 1,
            crate::text::texts(chain@) == crate::dirs::ancestors_of(r@.path),
            indexed(fs@, index@),
            forall|p: Seq<char>| #[trigger] had.contains_key(p) <==> is_folder(ks, p),
            forall|p: Seq<char>| #[trigger]
                index@.contains_key(p) <==> had.contains_key(p) || all.take(k as int).contains(p),
            forall|i: int| 0 <= i < fs@.len() ==> folder_right(#[trigger] fs@[i], ks),
        decreases n - k,
    {
        let ghost was = index@;
        assert(chain@[k as int]@ == all[k as int]) by {
            assert(crate::text::texts(chain@)[k as int] == chain@[k as int]@);
        }
        assert forall|p: Seq<char>| is_folder(ks, p) implies #[trigger] index@.contains_key(p) by {
            assert(had.contains_key(p));
        }
        ensure_folder(fs, index, chain[k].as_slice(), Ghost(ks));
        proof {
            let step = all.take(k + 1);
            assert(step =~= all.take(k as int).push(all[k as int]));
            assert forall|p: Seq<char>| #[trigger]
                index@.contains_key(p) <==> had.contains_key(p) || step.contains(p) by {
                assert(was.contains_key(p) <==> had.contains_key(p) || all.take(
                    k as int,
                ).contains(p));
                if step.contains(p) {
                    let m = step.index_of(p);
                    if m < k {
                        assert(all.take(k as int)[m] == p);
                    }
                }
                if all.take(k as int).contains(p) {
                    let m = all.take(k as int).index_of(p);
                    assert(step[m] == p);
                }
                assert(step[k as int] == all[k as int]);
            }
        }
        k += 1;
    }
    assert(all.take(k as int) =~= all);
    let is_dir: bool = match r.kind {
        FileKind::Dir => true,
        _ => false,
    };
    if is_dir {
        let tidy = crate::dirs::tidied(path.as_slice());
        assert forall|p: Seq<char>| is_folder(ks, p) implies #[trigger] index@.contains_key(p) by {
            assert(had.contains_key(p));
        }
        ensure_folder(fs, index, tidy.as_slice(), Ghost(ks));
    }
    count_into(fs, index, r, &chain, Ghost(ks));
    hold_file(fs, index, r, &chain, Ghost(ks));
    proof {
        assert forall|p: Seq<char>| #[trigger] index@.contains_key(p) <==> is_folder(
            ks.push(r@),
            p,
        ) by {
            lemma_one_more(ks, r@, p);
            assert(had.contains_key(p) <==> is_folder(ks, p));
        }
    }
}

/// The folders of the records of one source.
fn folders_of_source(host: Host, records: &[FileRecord], source: u32) -> (r: (
    Vec<Folder>,
    StringHashMap<usize>,
))
    ensures
        counted(r.0@, r.1@, kept(host, crate::types::record_views(records@), source)),
{
    let ghost views = crate::types::record_views(records@);
    let mut fs: Vec<Folder> = Vec::new();
    let mut index: StringHashMap<usize> = StringHashMap::new();
    let mut seen: StringHashMap<bool> = StringHashMap::new();
    let mut i: usize = 0;
    assert(views.take(0) =~= Seq::empty());
    while i < records.len()
        invariant
            i <= records@.len(),
            views == crate::types::record_views(records@),
            counted(fs@, index@, kept(host, views.take(i as int), source)),
            forall|p: Seq<char>| #[trigger]
                seen@.contains_key(p) <==> has_form(
                    host,
                    kept(host, views.take(i as int), source),
                    p,
                ),
        decreases records@.len() - i,
    {
        let ghost ks = kept(host, views.take(i as int), source);
        let ghost next = views.take(i + 1);
        let r = &records[i];
        proof {
            assert(next.drop_last() =~= views.take(i as int));
            assert(next.last() == r@);
        }
        if r.source == source {
            let path = crate::text::chars_of(r.path.as_str());
            let tidy = crate::dirs::tidied(path.as_slice());
            let spelled = crate::text::string_of(tidy.as_slice());
            let text = crate::dirs::order_text(host, spelled.as_str());
            if !seen.contains_key(text.as_str()) {
                let ghost was = seen@;
                count_record(&mut fs, &mut index, r, Ghost(ks));
                seen.insert(text, true);
                proof {
                    assert(!has_form(host, ks, crate::dirs::order_form(host, place(r@))));
                    assert(kept(host, next, source) == ks.push(r@));
                    assert(ks.push(r@).drop_last() =~= ks);
                    assert forall|p: Seq<char>| #[trigger] seen@.contains_key(p) <==> has_form(
                        host,
                        ks.push(r@),
                        p,
                    ) by {
                        assert(was.contains_key(p) <==> has_form(host, ks, p));
                    }
                }
            }
        }
        i += 1;
    }
    assert(views.take(i as int) =~= views);
    (fs, index)
}

// ---------------------------------------------------------------------------
// Children and entries

/// The folders among some paths that lie right below `d`, as children.
spec fn subs_of(ps: Seq<Seq<char>>, ks: Seq<RecordView>, d: Seq<char>) -> Seq<ChildView>
    decreases ps.len(),
{
    if ps.len() == 0 {
        Seq::empty()
    } else {
        let front = subs_of(ps.drop_last(), ks, d);
        if up(ps.last()) == Some(d) {
            front.push(folder_child(ks, ps.last()))
        } else {
            front
        }
    }
}

spec fn folder_paths(fs: Seq<Folder>) -> Seq<Seq<char>> {
    Seq::new(fs.len(), |i: int| fs[i].path@)
}

proof fn lemma_subs(ps: Seq<Seq<char>>, ks: Seq<RecordView>, d: Seq<char>)
    requires
        ps.no_duplicates(),
    ensures
        forall|c: ChildView| #[trigger]
            subs_of(ps, ks, d).contains(c) <==> ps.contains(c.path) && up(c.path) == Some(d) && c
                == folder_child(ks, c.path),
        forall|i: int, j: int|
            0 <= i < j < subs_of(ps, ks, d).len() ==> (#[trigger] subs_of(ps, ks, d)[i]).path != (
            #[trigger] subs_of(ps, ks, d)[j]).path,
    decreases ps.len(),
{
    let all = subs_of(ps, ks, d);
    if ps.len() > 0 {
        let less = ps.drop_last();
        let p = ps.last();
        assert(less.no_duplicates());
        lemma_subs(less, ks, d);
        let front = subs_of(less, ks, d);
        assert(!less.contains(p)) by {
            if less.contains(p) {
                let k = less.index_of(p);
                assert(ps[k] == ps[ps.len() - 1]);
            }
        }
        assert forall|c: ChildView| #[trigger] all.contains(c) <==> ps.contains(c.path) && up(
            c.path,
        ) == Some(d) && c == folder_child(ks, c.path) by {
            if all.contains(c) {
                let k = all.index_of(c);
                if k < front.len() {
                    assert(front[k] == c);
                    assert(front.contains(c));
                    let m = less.index_of(c.path);
                    assert(ps[m] == c.path);
                } else {
                    assert(ps[ps.len() - 1] == c.path);
                }
            }
            if ps.contains(c.path) && up(c.path) == Some(d) && c == folder_child(ks, c.path) {
                if c.path == p {
                    assert(all[front.len() as int] == c);
                } else {
                    let m = ps.index_of(c.path);
                    assert(less[m] == c.path);
                    assert(front.contains(c));
                    let k = front.index_of(c);
                    assert(all[k] == c);
                }
            }
        }
        assert forall|i: int, j: int| 0 <= i < j < all.len() implies (#[trigger] all[i]).path != (
        #[trigger] all[j]).path by {
            if j < front.len() {
                assert(front[i] == all[i] && front[j] == all[j]);
            } else if i < front.len() {
                assert(front[i] == all[i]);
                assert(front.contains(front[i]));
                assert(less.contains(front[i].path));
            }
        }
    }
}

/// No two records have one place.
spec fn fresh(ks: Seq<RecordView>) -> bool
    decreases ks.len(),
{
    ks.len() > 0 ==> fresh(ks.drop_last()) && !has_place(ks.drop_last(), place(ks.last()))
}

/// A place has its form.
proof fn lemma_place_form(host: Host, rs: Seq<RecordView>, p: Seq<char>)
    requires
        has_place(rs, p),
    ensures
        has_form(host, rs, crate::dirs::order_form(host, p)),
    decreases rs.len(),
{
    if has_place(rs.drop_last(), p) {
        lemma_place_form(host, rs.drop_last(), p);
    }
}

proof fn lemma_kept_fresh(host: Host, rs: Seq<RecordView>, source: u32)
    ensures
        fresh(kept(host, rs, source)),
    decreases rs.len(),
{
    if rs.len() > 0 {
        lemma_kept_fresh(host, rs.drop_last(), source);
        let front = kept(host, rs.drop_last(), source);
        assert(front.push(rs.last()).drop_last() =~= front);
        if has_place(front, place(rs.last())) {
            lemma_place_form(host, front, place(rs.last()));
        }
    }
}

proof fn lemma_files_in(ks: Seq<RecordView>, d: Seq<char>)
    requires
        fresh(ks),
    ensures
        forall|i: int|
            0 <= i < files_in(ks, d).len() ==> has_place(ks, (#[trigger] files_in(ks, d)[i]).path)
                && !(files_in(ks, d)[i].kind is Dir),
        forall|i: int, j: int|
            0 <= i < j < files_in(ks, d).len() ==> (#[trigger] files_in(ks, d)[i]).path != (
            #[trigger] files_in(ks, d)[j]).path,
    decreases ks.len(),
{
    if ks.len() > 0 {
        let less = ks.drop_last();
        lemma_files_in(less, d);
        let front = files_in(less, d);
        let all = files_in(ks, d);
        assert forall|i: int, j: int| 0 <= i < j < all.len() implies (#[trigger] all[i]).path != (
        #[trigger] all[j]).path by {
            if j < front.len() {
                assert(front[i] == all[i] && front[j] == all[j]);
            } else {
                assert(front[i] == all[i]);
                assert(has_place(less, front[i].path));
            }
        }
        assert forall|i: int| 0 <= i < all.len() implies has_place(ks, (#[trigger] all[i]).path)
            && !(all[i].kind is Dir) by {
            if i < front.len() {
                assert(front[i] == all[i]);
            }
        }
    }
}

/// The bytes by which children are put in order.
spec fn path_keys(host: Host, cs: Seq<ChildView>) -> Seq<Seq<u8>> {
    Seq::new(
        cs.len(),
        |i: int| vstd::utf8::encode_utf8(crate::dirs::order_form(host, cs[i].path)),
    )
}

/// Puts the folders and the files of a folder in order.
fn ordered_children(
    host: Host,
    subs: Vec<DirectoryChild>,
    held: Vec<DirectoryChild>,
    Ghost(ks): Ghost<Seq<RecordView>>,
    Ghost(ps): Ghost<Seq<Seq<char>>>,
    Ghost(d): Ghost<Seq<char>>,
) -> (out: Vec<DirectoryChild>)
    requires
        fresh(ks),
        ps.no_duplicates(),
        forall|p: Seq<char>| #[trigger] ps.contains(p) <==> is_folder(ks, p),
        child_views(subs@) == subs_of(ps, ks, d),
        child_views(held@) == files_in(ks, d),
    ensures
        children_ordered(host, child_views(out@)),
        forall|c: ChildView| #[trigger] child_views(out@).contains(c) <==> is_child(ks, d, c),
{
    let ghost dirs = child_views(subs@);
    let ghost files = child_views(held@);
    let mut all = subs;
    let mut held = held;
    all.append(&mut held);
    let ghost views = child_views(all@);
    assert(views =~= dirs + files);
    let mut keys: Vec<Vec<u8>> = Vec::new();
    let mut i: usize = 0;
    while i < all.len()
        invariant
            i <= all@.len(),
            keys@.len() == i,
            views == child_views(all@),
            forall|k: int| 0 <= k < i ==> (#[trigger] keys@[k])@ == path_keys(host, views)[k],
        decreases all@.len() - i,
    {
        let form = crate::dirs::order_text(host, all[i].path.as_str());
        keys.push(crate::bytes::to_vec(form.as_str().as_bytes()));
        i += 1;
    }
    assert(crate::order::key_views(keys@) =~= path_keys(host, views));
    let order = crate::order::key_order(&keys, false);
    let out = crate::order::arranged(all, &order);
    proof {
        let cs = child_views(out@);
        assert(cs =~= crate::rank::picked(views, order@));
        lemma_subs(ps, ks, d);
        lemma_files_in(ks, d);
        assert forall|i: int, j: int| 0 <= i < j < cs.len() implies stands_before(
            host,
            #[trigger] cs[i],
            #[trigger] cs[j],
        ) by {
            let a = order@[i] as int;
            let b = order@[j] as int;
            let (x, y) = (
                crate::dirs::order_form(host, cs[i].path),
                crate::dirs::order_form(host, cs[j].path),
            );
            assert(crate::order::comes_first(path_keys(host, views), false, a, b));
            if !crate::order::text_lt(x, y) {
                crate::text::lemma_encoding_is_faithful(x, y);
                assert(a < b);
                assert(views[a] == cs[i] && views[b] == cs[j]);
                if b < dirs.len() {
                    assert(dirs[a] == views[a] && dirs[b] == views[b]);
                    assert(dirs.contains(dirs[a]));
                } else if a >= dirs.len() {
                    assert(files[a - dirs.len()] == views[a]);
                    assert(files[b - dirs.len()] == views[b]);
                } else {
                    assert(dirs[a] == views[a]);
                    assert(dirs.contains(dirs[a]));
                    assert(files[b - dirs.len()] == views[b]);
                }
            }
        }
        assert forall|c: ChildView| #[trigger] cs.contains(c) <==> is_child(ks, d, c) by {
            if cs.contains(c) {
                let k = cs.index_of(c);
                let a = order@[k] as int;
                assert(views[a] == c);
                if a < dirs.len() {
                    assert(dirs[a] == c);
                    assert(dirs.contains(c));
                    assert(ps.contains(c.path));
                } else {
                    assert(files[a - dirs.len()] == c);
                }
            }
            if is_child(ks, d, c) {
                let a = if files.contains(c) {
                    dirs.len() + files.index_of(c)
                } else {
                    assert(ps.contains(c.path));
                    assert(dirs.contains(c));
                    dirs.index_of(c)
                };
                assert(views[a] == c);
                crate::order::lemma_order_covers(order@, views.len(), a);
                let k = order@.index_of(a as usize);
                assert(cs[k] == c);
            }
        }
    }
    out
}

/// The folder right above a folder.
fn folder_above(path: &str) -> (r: Option<String>)
    ensures
        match r {
            Some(d) => up(path@) == Some(d@),
            None => up(path@) is None,
        },
{
    let chars = crate::text::chars_of(path);
    let chain = crate::dirs::ancestor_paths(chars.as_slice());
    let n: usize = chain.len();
    assert(crate::text::texts(chain@).len() == n);
    if n >= 2 {
        assert(crate::text::texts(chain@)[n - 2] == chain@[n - 2]@);
        Some(crate::text::string_of(chain[n - 2].as_slice()))
    } else {
        None
    }
}

/// Hands every folder to the one above it.
fn subfolders(fs: &Vec<Folder>, index: &StringHashMap<usize>, Ghost(ks): Ghost<Seq<RecordView>>) -> (
    out: Vec<Vec<DirectoryChild>>)
    requires
        counted(fs@, index@, ks),
    ensures
        out@.len() == fs@.len(),
        forall|i: int|
            0 <= i < fs@.len() ==> child_views((#[trigger] out@[i])@) == subs_of(
                folder_paths(fs@),
                ks,
                fs@[i].path@,
            ),
{
    let n: usize = fs.len();
    let ghost ps = folder_paths(fs@);
    let mut out: Vec<Vec<DirectoryChild>> = Vec::new();
    let mut k: usize = 0;
    assert(ps.take(0) =~= Seq::empty());
    while k < n
        invariant
            k <= n == fs@.len(),
            out@.len() == k,
            ps.take(0) =~= Seq::empty(),
            forall|i: int|
                0 <= i < k ==> child_views((#[trigger] out@[i])@) == subs_of(
                    ps.take(0),
                    ks,
                    fs@[i].path@,
                ),
        decreases n - k,
    {
        let none: Vec<DirectoryChild> = Vec::new();
        assert(child_views(none@) =~= Seq::empty());
        out.push(none);
        k += 1;
    }
    let mut j: usize = 0;
    while j < n
        invariant
            j <= n == fs@.len(),
            out@.len() == n,
            ps == folder_paths(fs@),
            counted(fs@, index@, ks),
            forall|i: int|
                0 <= i < n ==> child_views((#[trigger] out@[i])@) == subs_of(
                    ps.take(j as int),
                    ks,
                    fs@[i].path@,
                ),
        decreases n - j,
    {
        let ghost next = ps.take(j + 1);
        proof {
            assert(next.drop_last() =~= ps.take(j as int));
            assert(next.last() == fs@[j as int].path@);
            assert(folder_right(fs@[j as int], ks));
        }
        let ghost before = out@;
        let f = &fs[j];
        match folder_above(f.path.as_str()) {
            Some(d) => {
                match index.get(d.as_str()) {
                    Some(at) => {
                        let i: usize = *at;
                        let child = DirectoryChild {
                            path: f.path.clone(),
                            kind: FileKind::Dir,
                            logical_bytes: f.bytes,
                            file_count: f.files,
                            directory_count: f.dirs,
                        };
                        assert(child@ == folder_child(ks, f.path@));
                        out[i].push(child);
                        proof {
                            assert(child_views(out@[i as int]@) =~= child_views(
                                before[i as int]@,
                            ).push(child@));
                            assert forall|m: int| 0 <= m < n implies child_views(
                                (#[trigger] out@[m])@,
                            ) == subs_of(next, ks, fs@[m].path@) by {
                                assert(child_views(before[m]@) == subs_of(
                                    ps.take(j as int),
                                    ks,
                                    fs@[m].path@,
                                ));
                                if m != i {
                                    assert(out@[m] == before[m]);
                                    assert(index@[fs@[m].path@] == m);
                                }
                            }
                        }
                    },
                    None => {
                        assert forall|m: int| 0 <= m < n implies child_views((#[trigger] out@[m])@)
                            == subs_of(next, ks, fs@[m].path@) by {
                            assert(index@.contains_key(fs@[m].path@));
                        }
                    },
                }
            },
            None => {},
        }
        j += 1;
    }
    assert(ps.take(j as int) =~= ps);
    out
}

spec fn entry_keys(es: Seq<EntryView>) -> Seq<Seq<u8>> {
    Seq::new(es.len(), |i: int| vstd::utf8::encode_utf8(es[i].path))
}

/// The entry of a folder.
spec fn entry_of(host: Host, e: EntryView, f: Folder, source: u32, ks: Seq<RecordView>) -> bool {
    e.source == source && e.path == f.path@ && entry_right(host, e, ks)
}

/// Turns folders into entries, in no particular order.
fn entries_from(
    host: Host,
    fs: Vec<Folder>,
    subs: Vec<Vec<DirectoryChild>>,
    source: u32,
    Ghost(index): Ghost<Map<Seq<char>, usize>>,
    Ghost(ks): Ghost<Seq<RecordView>>,
) -> (out: Vec<DirectorySummaryEntry>)
    requires
        fresh(ks),
        counted(fs@, index, ks),
        subs@.len() == fs@.len(),
        forall|i: int|
            0 <= i < fs@.len() ==> child_views((#[trigger] subs@[i])@) == subs_of(
                folder_paths(fs@),
                ks,
                fs@[i].path@,
            ),
    ensures
        out@.len() == fs@.len(),
        forall|i: int|
            0 <= i < out@.len() ==> entry_of(
                host,
                (#[trigger] out@[i])@,
                fs@[fs@.len() - 1 - i],
                source,
                ks,
            ),
{
    let ghost given = fs@;
    let ghost lists = subs@;
    let ghost ps = folder_paths(given);
    proof {
        assert(ps.no_duplicates()) by {
            assert forall|i: int, j: int| 0 <= i < ps.len() && 0 <= j < ps.len() && i != j implies ps[i]
                != ps[j] by {
                assert(index[given[i].path@] == i);
                assert(index[given[j].path@] == j);
            }
        }
        assert forall|p: Seq<char>| #[trigger] ps.contains(p) <==> is_folder(ks, p) by {
            if ps.contains(p) {
                let k = ps.index_of(p);
                assert(index.contains_key(given[k].path@));
            }
            if is_folder(ks, p) {
                assert(index.contains_key(p));
                assert(ps[index[p] as int] == p);
            }
        }
    }
    let mut fs = fs;
    let mut subs = subs;
    let n: usize = fs.len();
    let mut out: Vec<DirectorySummaryEntry> = Vec::new();
    let mut left: usize = n;
    while left > 0
        invariant
            left <= n == given.len(),
            lists.len() == n,
            fs@ == given.take(left as int),
            subs@ == lists.take(left as int),
            out@.len() == n - left,
            fresh(ks),
            ps == folder_paths(given),
            ps.no_duplicates(),
            forall|p: Seq<char>| #[trigger] ps.contains(p) <==> is_folder(ks, p),
            forall|i: int| 0 <= i < n ==> folder_right(#[trigger] given[i], ks),
            forall|i: int|
                0 <= i < n ==> child_views((#[trigger] lists[i])@) == subs_of(
                    ps,
                    ks,
                    given[i].path@,
                ),
            forall|i: int|
                0 <= i < out@.len() ==> entry_of(
                    host,
                    (#[trigger] out@[i])@,
                    given[n - 1 - i],
                    source,
                    ks,
                ),
        decreases left,
    {
        left -= 1;
        match (fs.pop(), subs.pop()) {
            (Some(f), Some(sub)) => {
                proof {
                    assert(f == given[left as int]);
                    assert(sub == lists[left as int]);
                    assert(folder_right(f, ks));
                    assert(fs@ =~= given.take(left as int));
                    assert(subs@ =~= lists.take(left as int));
                }
                let ghost d = f.path@;
                let children = ordered_children(host, sub, f.held, Ghost(ks), Ghost(ps), Ghost(d));
                let e = DirectorySummaryEntry {
                    source,
                    path: f.path,
                    logical_bytes: f.bytes,
                    file_count: f.files,
                    directory_count: f.dirs,
                    children,
                };
                out.push(e);
            },
            _ => {
                assert(false);
            },
        }
    }
    out
}

/// The entries of one source, in path order.
fn entries_of_source(host: Host, records: &[FileRecord], source: u32) -> (out: Vec<DirectorySummaryEntry>)
    ensures
        forall|i: int| 0 <= i < out@.len() ==> (#[trigger] out@[i]).source == source,
        entries_ordered(entry_views(out@)),
        forall|d: Seq<char>| #[trigger]
            has_entry_for(entry_views(out@), source, d) <==> is_folder(
                kept(host, crate::types::record_views(records@), source),
                d,
            ),
        forall|i: int|
            0 <= i < out@.len() ==> entry_right(
                host,
                (#[trigger] out@[i])@,
                kept(host, crate::types::record_views(records@), source),
            ),
{
    let ghost ks = kept(host, crate::types::record_views(records@), source);
    let (fs, index): (Vec<Folder>, StringHashMap<usize>) = folders_of_source(host, records, source);
    proof {
        lemma_kept_fresh(host, crate::types::record_views(records@), source);
    }
    let ghost given = fs@;
    let subs = subfolders(&fs, &index, Ghost(ks));
    let es = entries_from(host, fs, subs, source, Ghost(index@), Ghost(ks));
    let ghost views = entry_views(es@);
    let mut keys: Vec<Vec<u8>> = Vec::new();
    let mut i: usize = 0;
    while i < es.len()
        invariant
            i <= es@.len(),
            keys@.len() == i,
            views == entry_views(es@),
            forall|k: int| 0 <= k < i ==> (#[trigger] keys@[k])@ == entry_keys(views)[k],
        decreases es@.len() - i,
    {
        keys.push(crate::bytes::to_vec(es[i].path.as_str().as_bytes()));
        i += 1;
    }
    assert(crate::order::key_views(keys@) =~= entry_keys(views));
    let order = crate::order::key_order(&keys, false);
    let ghost before = es@;
    let out = crate::order::arranged(es, &order);
    proof {
        let n = given.len() as int;
        let sorted = entry_views(out@);
        assert(sorted =~= crate::rank::picked(views, order@));
        assert forall|i: int| 0 <= i < out@.len() implies (#[trigger] out@[i]).source == source
            && entry_right(host, out@[i]@, ks) by {
            let a = order@[i] as int;
            assert(out@[i] == before[a]);
            assert(entry_of(host, before[a]@, given[n - 1 - a], source, ks));
        }
        assert forall|i: int, j: int| 0 <= i < j < sorted.len() implies key_first(
            #[trigger] sorted[i],
            #[trigger] sorted[j],
        ) by {
            let a = order@[i] as int;
            let b = order@[j] as int;
            assert(crate::order::comes_first(entry_keys(views), false, a, b));
            assert(sorted[i] == before[a]@ && sorted[j] == before[b]@);
            assert(entry_of(host, before[a]@, given[n - 1 - a], source, ks));
            assert(entry_of(host, before[b]@, given[n - 1 - b], source, ks));
            if !crate::order::text_lt(sorted[i].path, sorted[j].path) {
                crate::text::lemma_encoding_is_faithful(sorted[i].path, sorted[j].path);
                assert(index@[given[n - 1 - a].path@] == n - 1 - a);
                assert(index@[given[n - 1 - b].path@] == n - 1 - b);
            }
        }
        assert forall|d: Seq<char>| #[trigger] has_entry_for(sorted, source, d) <==> is_folder(
            ks,
            d,
        ) by {
            if has_entry_for(sorted, source, d) {
                let i = choose|i: int|
                    0 <= i < sorted.len() && (#[trigger] sorted[i]).source == source
                        && sorted[i].path == d;
                let a = order@[i] as int;
                assert(entry_of(host, before[a]@, given[n - 1 - a], source, ks));
                assert(index@.contains_key(given[n - 1 - a].path@));
            }
            if is_folder(ks, d) {
                assert(index@.contains_key(d));
                let a = n - 1 - index@[d];
                assert(entry_of(host, before[a]@, given[n - 1 - a], source, ks));
                crate::order::lemma_order_covers(order@, views.len(), a);
                let i = order@.index_of(a as usize);
                assert(sorted[i] == views[a]);
                assert(sorted[i].source == source && sorted[i].path == d);
            }
        }
    }
    out
}

/// The sources of some records as wide numbers.
fn sources_of(records: &[FileRecord]) -> (out: Vec<u64>)
    ensures
        crate::order::strictly_ascending(out@),
        forall|i: int| 0 <= i < out@.len() ==> #[trigger] out@[i] <= u32::MAX,
        forall|i: int|
            0 <= i < records@.len() ==> out@.contains(#[trigger] records@[i].source as u64),
{
    let mut all: Vec<u64> = Vec::new();
    let mut i: usize = 0;
    while i < records.len()
        invariant
            i <= records@.len(),
            all@.len() == i,
            forall|k: int| 0 <= k < i ==> #[trigger] all@[k] == records@[k].source,
        decreases records@.len() - i,
    {
        all.push(records[i].source as u64);
        i += 1;
    }
    let out = crate::order::ascending_set(&all);
    proof {
        assert forall|i: int| 0 <= i < out@.len() implies #[trigger] out@[i] <= u32::MAX by {
            assert(out@.contains(out@[i]));
            let k = all@.index_of(out@[i]);
            assert(all@[k] == records@[k].source);
        }
        assert forall|i: int| 0 <= i < records@.len() implies out@.contains(
            #[trigger] records@[i].source as u64,
        ) by {
            assert(all@[i] == records@[i].source);
            assert(all@.contains(all@[i]));
        }
    }
    out
}

/// A source without records keeps none.
proof fn lemma_kept_none(host: Host, rs: Seq<RecordView>, source: u32)
    requires
        forall|i: int| 0 <= i < rs.len() ==> (#[trigger] rs[i]).source != source,
    ensures
        kept(host, rs, source) == Seq::<RecordView>::empty(),
    decreases rs.len(),
{
    if rs.len() > 0 {
        let less = rs.drop_last();
        assert forall|i: int| 0 <= i < less.len() implies (#[trigger] less[i]).source != source by {
            assert(less[i] == rs[i]);
        }
        lemma_kept_none(host, less, source);
        assert(rs[rs.len() - 1].source != source);
    }
}

/// Folder totals and children for all records.
pub fn summarize(host: Host, records: &[FileRecord]) -> (out: Vec<DirectorySummaryEntry>)
    ensures
        summarizes(host, entry_views(out@), crate::types::record_views(records@)),
{
    let ghost rs = crate::types::record_views(records@);
    let sources = sources_of(records);
    let mut out: Vec<DirectorySummaryEntry> = Vec::new();
    let mut i: usize = 0;
    while i < sources.len()
        invariant
            i <= sources@.len(),
            rs == crate::types::record_views(records@),
            crate::order::strictly_ascending(sources@),
            forall|k: int| 0 <= k < sources@.len() ==> #[trigger] sources@[k] <= u32::MAX,
            entries_ordered(entry_views(out@)),
            forall|k: int|
                0 <= k < out@.len() ==> sources@.take(i as int).contains(
                    (#[trigger] out@[k]).source as u64,
                ) && entry_right(host, out@[k]@, kept(host, rs, out@[k].source)),
            forall|source: u32, d: Seq<char>|
                sources@.take(i as int).contains(source as u64) ==> (#[trigger] has_entry_for(
                    entry_views(out@),
                    source,
                    d,
                ) <==> is_folder(kept(host, rs, source), d)),
        decreases sources@.len() - i,
    {
        let source: u32 = sources[i] as u32;
        let mut more = entries_of_source(host, records, source);
        let ghost before = out@;
        let ghost added = more@;
        let ghost old_views = entry_views(out@);
        let ghost new_views = entry_views(more@);
        let ghost done = sources@.take(i as int);
        let ghost next = sources@.take(i + 1);
        out.append(&mut more);
        proof {
            let all = entry_views(out@);
            assert(out@ =~= before + added);
            assert(all =~= old_views + new_views);
            assert(next =~= done.push(source as u64));
            assert forall|a: int, b: int| 0 <= a < b < all.len() implies key_first(
                #[trigger] all[a],
                #[trigger] all[b],
            ) by {
                if b < old_views.len() {
                    assert(key_first(old_views[a], old_views[b]));
                } else if a >= old_views.len() {
                    assert(key_first(
                        new_views[a - old_views.len()],
                        new_views[b - old_views.len()],
                    ));
                } else {
                    assert(done.contains(before[a].source as u64));
                    let k = done.index_of(before[a].source as u64);
                    assert(sources@[k] < sources@[i as int]);
                    assert(added[b - old_views.len()].source == source);
                }
            }
            assert forall|k: int| 0 <= k < out@.len() implies next.contains(
                (#[trigger] out@[k]).source as u64,
            ) && entry_right(host, out@[k]@, kept(host, rs, out@[k].source)) by {
                if k < before.len() {
                    assert(before[k] == out@[k]);
                    let m = done.index_of(out@[k].source as u64);
                    assert(next[m] == out@[k].source as u64);
                } else {
                    assert(added[k - before.len()] == out@[k]);
                    assert(next[i as int] == source as u64);
                }
            }
            assert forall|s: u32, d: Seq<char>| next.contains(s as u64) implies (
            #[trigger] has_entry_for(all, s, d) <==> is_folder(kept(host, rs, s), d)) by {
                if s == source {
                    if has_entry_for(all, s, d) {
                        let k = choose|k: int|
                            0 <= k < all.len() && (#[trigger] all[k]).source == s && all[k].path
                                == d;
                        if k < old_views.len() {
                            assert(done.contains(before[k].source as u64));
                            let m = done.index_of(s as u64);
                            assert(sources@[m] < sources@[i as int]);
                        } else {
                            assert(new_views[k - old_views.len()] == all[k]);
                            assert(has_entry_for(new_views, s, d));
                        }
                    }
                    if is_folder(kept(host, rs, s), d) {
                        assert(has_entry_for(new_views, s, d));
                        let k = choose|k: int|
                            0 <= k < new_views.len() && (#[trigger] new_views[k]).source == s
                                && new_views[k].path == d;
                        assert(all[old_views.len() + k] == new_views[k]);
                    }
                } else {
                    let m = next.index_of(s as u64);
                    assert(m < i);
                    assert(done[m] == s as u64);
                    assert(has_entry_for(old_views, s, d) <==> is_folder(kept(host, rs, s), d));
                    if has_entry_for(all, s, d) {
                        let k = choose|k: int|
                            0 <= k < all.len() && (#[trigger] all[k]).source == s && all[k].path
                                == d;
                        if k < old_views.len() {
                            assert(old_views[k] == all[k]);
                        } else {
                            assert(added[k - old_views.len()].source == source);
                        }
                        assert(has_entry_for(old_views, s, d));
                    }
                    if has_entry_for(old_views, s, d) {
                        let k = choose|k: int|
                            0 <= k < old_views.len() && (#[trigger] old_views[k]).source == s
                                && old_views[k].path == d;
                        assert(all[k] == old_views[k]);
                    }
                }
            }
        }
        i += 1;
    }
    proof {
        let all = entry_views(out@);
        assert(sources@.take(i as int) =~= sources@);
        assert forall|s: u32, d: Seq<char>| #[trigger] has_entry_for(all, s, d) <==> is_folder(
            kept(host, rs, s),
            d,
        ) by {
            if !sources@.contains(s as u64) {
                assert forall|k: int| 0 <= k < rs.len() implies (#[trigger] rs[k]).source != s by {
                    assert(rs[k].source == records@[k].source);
                }
                lemma_kept_none(host, rs, s);
                if has_entry_for(all, s, d) {
                    let k = choose|k: int|
                        0 <= k < all.len() && (#[trigger] all[k]).source == s && all[k].path == d;
                    assert(sources@.contains(out@[k].source as u64));
                }
            }
        }
        assert forall|k: int| 0 <= k < all.len() implies entry_right(
            host,
            #[trigger] all[k],
            kept(host, rs, all[k].source),
        ) by {
            assert(all[k] == out@[k]@);
        }
    }
    out
}

} // verus!
