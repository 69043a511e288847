//! The ext2/3/4 metadata lane: an inode table and directory blocks become records.
//!
//! Whoever runs the lane reads inodes and directory entries from the device; the lane picks
//! out what counts and walks the directories from the top.

use crate::clock::Stopwatch;
use crate::mounts::{FsKind, FsView};
use crate::text::Separator;
use crate::types::{FileKind, FileRecord, RecordView, ScanStats};
use std::collections::{HashMap, HashSet};
use vstd::prelude::*;

verus! {

broadcast use vstd::std_specs::hash::group_hash_axioms;

/// The inode of the top directory.
pub const TOP_INODE: u32 = 2;

/// The entry kind of everything but `.` and `..`.
pub const OTHER_FILE: i32 = 3;

/// An inode as it stands on disk.
#[derive(Debug, Clone, Copy)]
pub struct Ext2Inode {
    pub mode: u16,
    pub uid: u16,
    pub size: u32,
    pub atime: u32,
    pub ctime: u32,
    pub mtime: u32,
    pub dtime: u32,
    pub gid: u16,
    pub links: u16,
    pub blocks: u32,
    pub flags: u32,
    pub osd1: u32,
    pub block: [u32; 15],
    pub generation: u32,
    pub file_acl: u32,
    pub size_high: u32,
    pub faddr: u32,
    pub osd2: [u8; 12],
}

/// A directory entry as it stands on disk.
#[derive(Debug, Clone, Copy)]
pub struct DirEntry {
    pub inode: u32,
    pub rec_len: u16,
    pub name_len: u16,
    pub name: [u8; 255],
}

/// What is kept of an inode.
#[derive(Debug, Clone, Copy, PartialEq, Eq, Structural)]
pub struct Meta {
    pub mode: u16,
    pub size: u64,
    pub mtime: i64,
}

/// The kind that a mode says.
pub open spec fn kind_of_mode(mode: u16) -> FileKind {
    let format = mode & 0xf000;
    if format == 0x8000 {
        FileKind::File
    } else if format == 0x4000 {
        FileKind::Dir
    } else if format == 0xa000 {
        FileKind::Symlink
    } else {
        FileKind::Other
    }
}

/// The kind that a mode says.
pub fn kind(mode: u16) -> (r: FileKind)
    ensures
        r == kind_of_mode(mode),
{
    let format: u16 = mode & 0xf000;
    if format == 0x8000 {
        FileKind::File
    } else if format == 0x4000 {
        FileKind::Dir
    } else if format == 0xa000 {
        FileKind::Symlink
    } else {
        FileKind::Other
    }
}

/// What is kept of an inode: nothing where it is not in use. Only files have sizes beyond
/// 32 bits.
pub open spec fn meta_of(inode: Ext2Inode) -> Option<Meta> {
    if inode.mode == 0 || inode.links == 0 {
        None
    } else {
        Some(
            Meta {
                mode: inode.mode,
                size: if kind_of_mode(inode.mode) is File {
                    (inode.size + inode.size_high * 0x1_0000_0000) as u64
                } else {
                    inode.size as u64
                },
                mtime: inode.mtime as i64,
            },
        )
    }
}

/// What is kept of an inode.
pub fn inode_meta(inode: &Ext2Inode) -> (r: Option<Meta>)
    ensures
        r == meta_of(*inode),
        r is Some <==> inode.mode != 0 && inode.links != 0,
        r matches Some(m) ==> {
            &&& m.mode == inode.mode
            &&& m.mtime == inode.mtime
            &&& m.size % 0x1_0000_0000 == inode.size
            &&& m.size / 0x1_0000_0000 == (if inode.mode / 0x1000 == 8 {
                inode.size_high
            } else {
                0
            })
        },
{
    proof {
        crate::lane_laws::law_modes_tell_kinds_apart(inode.mode as u32);
    }
    if inode.mode == 0 || inode.links == 0 {
        return None;
    }
    let is_file: bool = match kind(inode.mode) {
        FileKind::File => true,
        _ => false,
    };
    let size: u64 = if is_file {
        inode.size as u64 + inode.size_high as u64 * 0x1_0000_0000
    } else {
        inode.size as u64
    };
    Some(Meta { mode: inode.mode, size, mtime: inode.mtime as i64 })
}

/// A name in a directory.
#[derive(Debug)]
pub struct DirLink {
    pub ino: u32,
    pub name: String,
}

/// A name as a mathematical value.
#[verifier::ext_equal]
pub struct LinkView {
    pub ino: u32,
    pub name: Seq<char>,
}

impl View for DirLink {
    type V = LinkView;

    open spec fn view(&self) -> LinkView {
        LinkView { ino: self.ino, name: self.name@ }
    }
}

/// Names as mathematical values.
pub open spec fn link_views(ls: Seq<DirLink>) -> Seq<LinkView> {
    Seq::new(ls.len(), |i: int| ls[i]@)
}

/// The name in a directory entry: the low byte of the length counts, and the directory
/// itself and its parent are left out.
pub open spec fn link_of(entry_kind: i32, e: DirEntry) -> Option<LinkView> {
    let n = (e.name_len % 256) as int;
    let name = crate::text::lossy_text(e.name@.take(n));
    if entry_kind != OTHER_FILE || e.inode == 0 || n == 0 || name == "."@ || name == ".."@ {
        None
    } else {
        Some(LinkView { ino: e.inode, name })
    }
}

/// The name in a directory entry.
pub fn entry_link(entry_kind: i32, e: &DirEntry) -> (r: Option<DirLink>)
    ensures
        match r {
            Some(l) => link_of(entry_kind, *e) == Some(l@),
            None => link_of(entry_kind, *e) is None,
        },
{
    if entry_kind != OTHER_FILE || e.inode == 0 {
        return None;
    }
    let n: usize = (e.name_len % 256) as usize;
    if n == 0 {
        return None;
    }
    let all = vstd::array::array_as_slice(&e.name);
    let bytes = vstd::slice::slice_subrange(all, 0, n);
    assert(bytes@ =~= e.name@.take(n as int));
    let name = crate::text::text_from_utf8_lossy(bytes);
    if crate::text::same_text(name.as_str(), ".") || crate::text::same_text(name.as_str(), "..") {
        return None;
    }
    Some(DirLink { ino: e.inode, name })
}

/// A directory with the names in it.
#[derive(Debug)]
pub struct DirBlock {
    pub ino: u32,
    pub links: Vec<DirLink>,
}

/// The names in each directory.
pub open spec fn dir_map(ds: Seq<DirBlock>) -> Map<u32, Seq<LinkView>>
    decreases ds.len(),
{
    if ds.len() == 0 {
        Map::empty()
    } else {
        dir_map(ds.drop_last()).insert(ds.last().ino, link_views(ds.last().links@))
    }
}

/// What is kept of each inode.
pub open spec fn meta_map(ms: Seq<(u32, Meta)>) -> Map<u32, Meta>
    decreases ms.len(),
{
    if ms.len() == 0 {
        Map::empty()
    } else {
        meta_map(ms.drop_last()).insert(ms.last().0, ms.last().1)
    }
}

proof fn lemma_dirs_finite(ds: Seq<DirBlock>)
    ensures
        dir_map(ds).dom().finite(),
    decreases ds.len(),
{
    if ds.len() > 0 {
        lemma_dirs_finite(ds.drop_last());
    }
}

/// The record of a name in a directory.
pub open spec fn link_record(m: Meta, l: LinkView, parent: u32, parent_path: Seq<char>) -> RecordView {
    RecordView {
        path: parent_path.push('/') + l.name,
        size: m.size,
        mtime: m.mtime,
        mode: m.mode as u32,
        kind: kind_of_mode(m.mode),
        fs: FsView::Ext4,
        native_id: l.ino as u64,
        native_parent: parent as u64,
        source: 0,
    }
}

/// The records of the names in a directory; names of unused inodes have none.
pub open spec fn link_records(
    metas: Map<u32, Meta>,
    ls: Seq<LinkView>,
    parent: u32,
    parent_path: Seq<char>,
) -> Seq<RecordView>
    decreases ls.len(),
{
    if ls.len() == 0 {
        Seq::empty()
    } else {
        let front = link_records(metas, ls.drop_last(), parent, parent_path);
        let l = ls.last();
        if metas.contains_key(l.ino) {
            front.push(link_record(metas[l.ino], l, parent, parent_path))
        } else {
            front
        }
    }
}

/// The directories among the names in a directory, with their paths.
pub open spec fn link_dirs(metas: Map<u32, Meta>, ls: Seq<LinkView>, parent_path: Seq<char>) -> Seq<
    (u32, Seq<char>),
>
    decreases ls.len(),
{
    if ls.len() == 0 {
        Seq::empty()
    } else {
        let front = link_dirs(metas, ls.drop_last(), parent_path);
        let l = ls.last();
        if metas.contains_key(l.ino) && kind_of_mode(metas[l.ino].mode) is Dir {
            front.push((l.ino, parent_path.push('/') + l.name))
        } else {
            front
        }
    }
}

/// One directory fewer is left to expand.
pub proof fn lemma_one_fewer(all: Set<u32>, expanded: Set<u32>, p: u32)
    requires
        all.finite(),
    ensures
        all.difference(expanded.insert(p)).len() <= all.difference(expanded).len(),
        all.contains(p) && !expanded.contains(p) ==> all.difference(expanded.insert(p)).len()
            < all.difference(expanded).len(),
{
    let before = all.difference(expanded);
    let after = all.difference(expanded.insert(p));
    assert(after =~= before.remove(p));
}

/// What a walk finds from the directories in a queue on, each of them expanded once.
pub open spec fn walked(
    dirs: Map<u32, Seq<LinkView>>,
    metas: Map<u32, Meta>,
    queue: Seq<(u32, Seq<char>)>,
    expanded: Set<u32>,
) -> Seq<RecordView>
    decreases dirs.dom().difference(expanded).len(), queue.len(),
    when dirs.dom().finite()
{
    proof {
        if queue.len() > 0 {
            lemma_one_fewer(dirs.dom(), expanded, queue[0].0);
        }
    }
    if queue.len() == 0 {
        Seq::empty()
    } else {
        let (p, path) = queue[0];
        let rest = queue.drop_first();
        if expanded.contains(p) {
            walked(dirs, metas, rest, expanded)
        } else if !dirs.contains_key(p) {
            walked(dirs, metas, rest, expanded.insert(p))
        } else {
            link_records(metas, dirs[p], p, path) + walked(
                dirs,
                metas,
                rest + link_dirs(metas, dirs[p], path),
                expanded.insert(p),
            )
        }
    }
}

/// How many records are directories.
pub open spec fn dirs_among(rs: Seq<RecordView>) -> nat
    decreases rs.len(),
{
    if rs.len() == 0 {
        0
    } else {
        dirs_among(rs.drop_last()) + if rs.last().kind is Dir {
            1nat
        } else {
            0
        }
    }
}

/// A directory that waits to be expanded.
struct Waiting {
    ino: u32,
    path: String,
}

spec fn waiting_views(q: Seq<Waiting>) -> Seq<(u32, Seq<char>)> {
    Seq::new(q.len(), |i: int| (q[i].ino, q[i].path@))
}

/// Finds directories by their inodes.
fn index_dirs(ds: &Vec<DirBlock>) -> (index: HashMap<u32, usize>)
    ensures
        forall|k: u32| #[trigger] index@.contains_key(k) <==> dir_map(ds@).contains_key(k),
        forall|k: u32| #[trigger]
            index@.contains_key(k) ==> index@[k] < ds@.len() && link_views(
                ds@[index@[k] as int].links@,
            ) == dir_map(ds@)[k],
{
    let mut index: HashMap<u32, usize> = HashMap::new();
    let mut i: usize = 0;
    assert(ds@.take(0) =~= Seq::empty());
    while i < ds.len()
        invariant
            i <= ds@.len(),
            forall|k: u32| #[trigger]
                index@.contains_key(k) <==> dir_map(ds@.take(i as int)).contains_key(k),
            forall|k: u32| #[trigger]
                index@.contains_key(k) ==> index@[k] < i && link_views(
                    ds@[index@[k] as int].links@,
                ) == dir_map(ds@.take(i as int))[k],
        decreases ds@.len() - i,
    {
        proof {
            assert(ds@.take(i + 1).drop_last() =~= ds@.take(i as int));
            assert(ds@.take(i + 1).last() == ds@[i as int]);
        }
        index.insert(ds[i].ino, i);
        i += 1;
    }
    assert(ds@.take(i as int) =~= ds@);
    index
}

/// Finds what is kept of inodes by their numbers.
fn index_metas(ms: &Vec<(u32, Meta)>) -> (index: HashMap<u32, Meta>)
    ensures
        index@ == meta_map(ms@),
{
    let mut index: HashMap<u32, Meta> = HashMap::new();
    let mut i: usize = 0;
    assert(ms@.take(0) =~= Seq::empty());
    while i < ms.len()
        invariant
            i <= ms@.len(),
            index@ == meta_map(ms@.take(i as int)),
        decreases ms@.len() - i,
    {
        proof {
            assert(ms@.take(i + 1).drop_last() =~= ms@.take(i as int));
            assert(ms@.take(i + 1).last() == ms@[i as int]);
        }
        let (ino, meta): (u32, Meta) = ms[i];
        index.insert(ino, meta);
        i += 1;
    }
    assert(ms@.take(i as int) =~= ms@);
    index
}

/// Expands one directory.
fn expand(
    metas: &HashMap<u32, Meta>,
    links: &Vec<DirLink>,
    parent: u32,
    parent_path: &str,
    out: &mut Vec<FileRecord>,
    queue: &mut Vec<Waiting>,
)
    ensures
        crate::types::record_views(final(out)@) == crate::types::record_views(old(out)@)
            + link_records(metas@, link_views(links@), parent, parent_path@),
        waiting_views(final(queue)@) == waiting_views(old(queue)@) + link_dirs(
            metas@,
            link_views(links@),
            parent_path@,
        ),
{
    let ghost ls = link_views(links@);
    let ghost had = crate::types::record_views(out@);
    let ghost waited = waiting_views(queue@);
    let mut i: usize = 0;
    proof {
        assert(ls.take(0) =~= Seq::empty());
        assert(had + link_records(metas@, ls.take(0), parent, parent_path@) =~= had);
        assert(waited + link_dirs(metas@, ls.take(0), parent_path@) =~= waited);
    }
    while i < links.len()
        invariant
            i <= links@.len(),
            ls == link_views(links@),
            crate::types::record_views(out@) == had + link_records(
                metas@,
                ls.take(i as int),
                parent,
                parent_path@,
            ),
            waiting_views(queue@) == waited + link_dirs(
                metas@,
                ls.take(i as int),
                parent_path@,
            ),
        decreases links@.len() - i,
    {
        let l = &links[i];
        let ghost records = crate::types::record_views(out@);
        let ghost waits = waiting_views(queue@);
        proof {
            assert(ls.take(i + 1).drop_last() =~= ls.take(i as int));
            assert(ls.take(i + 1).last() == l@);
            reveal_strlit("/");
        }
        if let Some(m) = metas.get(&l.ino) {
            let path = crate::text::joined3(parent_path, "/", l.name.as_str());
            assert(path@ =~= parent_path@.push('/') + l.name@);
            let fk = kind(m.mode);
            let is_dir: bool = match fk {
                FileKind::Dir => true,
                _ => false,
            };
            if is_dir {
                let w = Waiting { ino: l.ino, path: path.clone() };
                let ghost wv = (w.ino, w.path@);
                queue.push(w);
                proof {
                    assert(waiting_views(queue@) =~= waits.push(wv));
                    assert(waited + link_dirs(metas@, ls.take(i + 1), parent_path@) =~= (waited
                        + link_dirs(metas@, ls.take(i as int), parent_path@)).push(wv));
                }
            }
            let rec = FileRecord {
                path,
                size: m.size,
                mtime: m.mtime,
                mode: m.mode as u32,
                kind: fk,
                fs: FsKind::Ext4,
                native_id: l.ino as u64,
                native_parent: parent as u64,
                source: 0,
            };
            let ghost v = rec@;
            out.push(rec);
            proof {
                assert(crate::types::record_views(out@) =~= records.push(v));
                assert(had + link_records(metas@, ls.take(i + 1), parent, parent_path@) =~= (had
                    + link_records(metas@, ls.take(i as int), parent, parent_path@)).push(v));
            }
        }
        i += 1;
    }
    assert(ls.take(i as int) =~= ls);
}

/// How many records are directories.
pub fn count_dirs(rs: &Vec<FileRecord>) -> (n: u64)
    ensures
        n == dirs_among(crate::types::record_views(rs@)),
        n <= rs@.len(),
{
    let ghost views = crate::types::record_views(rs@);
    let mut n: u64 = 0;
    let mut i: usize = 0;
    assert(views.take(0) =~= Seq::empty());
    while i < rs.len()
        invariant
            i <= rs@.len(),
            views == crate::types::record_views(rs@),
            n == dirs_among(views.take(i as int)),
            n <= i,
        decreases rs@.len() - i,
    {
        proof {
            assert(views.take(i + 1).drop_last() =~= views.take(i as int));
            assert(views.take(i + 1).last() == rs@[i as int]@);
        }
        match rs[i].kind {
            FileKind::Dir => {
                n += 1;
            },
            _ => {},
        }
        i += 1;
    }
    assert(views.take(i as int) =~= views);
    n
}

/// Walks the directories from the top and turns what is found into records below a prefix.
/// The watch runs since the scan began.
pub fn scan_image(
    ms: &Vec<(u32, Meta)>,
    ds: &Vec<DirBlock>,
    prefix: &str,
    watch: &Stopwatch,
) -> (r: (Vec<FileRecord>, ScanStats))
    ensures
        crate::types::record_views(r.0@) == walked(
            dir_map(ds@),
            meta_map(ms@),
            seq![(TOP_INODE, crate::text::trim_end(prefix@, Separator::Char('/')))],
            Set::empty(),
        ),
        r.1.records == r.0@.len(),
        r.1.dirs == dirs_among(crate::types::record_views(r.0@)),
        r.1.files == r.0@.len() - r.1.dirs,
        r.1.bytes_read == 0,
        r.1.detail@ == "libext2fs inode table + directory blocks; "@ + crate::text::decimal(
            meta_map(ms@).len(),
        ) + " allocated inodes"@,
{
    let index = index_dirs(ds);
    let metas = index_metas(ms);
    let ghost dm = dir_map(ds@);
    proof {
        lemma_dirs_finite(ds@);
    }
    let chars = crate::text::chars_of(prefix);
    let keep: usize = crate::text::end_run(chars.as_slice(), Separator::Char('/'));
    let cut = crate::text::part(chars.as_slice(), 0, keep);
    assert(cut@ =~= chars@.take(keep as int));
    let top = Waiting { ino: TOP_INODE, path: crate::text::string_of(cut.as_slice()) };
    let ghost start = seq![(TOP_INODE, crate::text::trim_end(prefix@, Separator::Char('/')))];
    let mut queue: Vec<Waiting> = Vec::new();
    queue.push(top);
    let mut expanded: HashSet<u32> = HashSet::new();
    let mut out: Vec<FileRecord> = Vec::new();
    let mut head: usize = 0;
    let ghost all = walked(dm, metas@, start, Set::empty());
    proof {
        assert(waiting_views(queue@).skip(0) =~= start);
        assert(crate::types::record_views(out@) + all =~= all);
        assert(expanded@ =~= Set::empty());
    }
    while head < queue.len()
        invariant
            head <= queue@.len(),
            dm == dir_map(ds@),
            dm.dom().finite(),
            forall|k: u32| #[trigger] index@.contains_key(k) <==> dm.contains_key(k),
            forall|k: u32| #[trigger]
                index@.contains_key(k) ==> index@[k] < ds@.len() && link_views(
                    ds@[index@[k] as int].links@,
                ) == dm[k],
            all == crate::types::record_views(out@) + walked(
                dm,
                metas@,
                waiting_views(queue@).skip(head as int),
                expanded@,
            ),
        decreases dm.dom().difference(expanded@).len(), queue@.len() - head,
    {
        let ghost waits = waiting_views(queue@);
        let ghost had = crate::types::record_views(out@);
        let ghost done = expanded@;
        let parent: u32 = queue[head].ino;
        let path = queue[head].path.clone();
        proof {
            let now = waits.skip(head as int);
            assert(now[0] == (parent, path@));
            assert(now.drop_first() =~= waits.skip(head + 1));
            lemma_one_fewer(dm.dom(), done, parent);
        }
        head += 1;
        if !expanded.contains(&parent) {
            expanded.insert(parent);
            if let Some(at) = index.get(&parent) {
                let i: usize = *at;
                expand(&metas, &ds[i].links, parent, path.as_str(), &mut out, &mut queue);
                proof {
                    let found = link_records(metas@, dm[parent], parent, path@);
                    let more = link_dirs(metas@, dm[parent], path@);
                    assert(waiting_views(queue@).skip(head as int) =~= waits.skip(head as int)
                        + more);
                    let rest = walked(
                        dm,
                        metas@,
                        waits.skip(head as int) + more,
                        done.insert(parent),
                    );
                    assert(had + (found + rest) =~= (had + found) + rest);
                }
            }
        }
    }
    proof {
        assert(waiting_views(queue@).skip(head as int).len() == 0);
        assert(crate::types::record_views(out@) + Seq::<RecordView>::empty()
            =~= crate::types::record_views(out@));
    }
    let records: u64 = out.len() as u64;
    let dirs: u64 = count_dirs(&out);
    let known = crate::text::decimal_text(metas.len() as u64);
    let detail = crate::text::joined3(
        "libext2fs inode table + directory blocks; ",
        known.as_str(),
        " allocated inodes",
    );
    let stats = ScanStats {
        records,
        dirs,
        files: records - dirs,
        bytes_read: 0,
        wall_ms: watch.millis(),
        detail,
    };
    (out, stats)
}

/// The same for a mounted device.
pub fn scan(ms: &Vec<(u32, Meta)>, ds: &Vec<DirBlock>, mountpoint: &str, watch: &Stopwatch) -> (r: (
    Vec<FileRecord>,
    ScanStats,
))
    ensures
        crate::types::record_views(r.0@) == walked(
            dir_map(ds@),
            meta_map(ms@),
            seq![(TOP_INODE, crate::text::trim_end(mountpoint@, Separator::Char('/')))],
            Set::empty(),
        ),
        r.1.records == r.0@.len(),
        r.1.dirs == dirs_among(crate::types::record_views(r.0@)),
        r.1.files == r.0@.len() - r.1.dirs,
        r.1.bytes_read == 0,
        r.1.detail@ == "libext2fs inode table + directory blocks; "@ + crate::text::decimal(
            meta_map(ms@).len(),
        ) + " allocated inodes"@,
{
    scan_image(ms, ds, mountpoint, watch)
}

/// A directory that was expanded is not expanded again, so that circles end.
pub proof fn law_expanded_directories_are_passed_over(
    dirs: Map<u32, Seq<LinkView>>,
    metas: Map<u32, Meta>,
    queue: Seq<(u32, Seq<char>)>,
    expanded: Set<u32>,
)
    requires
        dirs.dom().finite(),
        forall|i: int| 0 <= i < queue.len() ==> expanded.contains((#[trigger] queue[i]).0),
    ensures
        walked(dirs, metas, queue, expanded) == Seq::<RecordView>::empty(),
    decreases queue.len(),
{
    if queue.len() > 0 {
        let rest = queue.drop_first();
        assert(expanded.contains(queue[0].0));
        assert forall|i: int| 0 <= i < rest.len() implies expanded.contains(
            (#[trigger] rest[i]).0,
        ) by {
            assert(rest[i] == queue[i + 1]);
        }
        law_expanded_directories_are_passed_over(dirs, metas, rest, expanded);
    }
}

} // verus!
