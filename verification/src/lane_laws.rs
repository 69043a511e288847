//! What the lanes read: sizes and times of files, byte by byte, and every name in every folder.

use crate::btrfs::{GatherView, ItemView, NodeTable, NodeView};
use crate::ext4::{Ext2Inode, LinkView};
use crate::layout::{eight, four, two};
use crate::macos::{BulkView, Looked};
use crate::types::{FileKind, RecordView};
use vstd::prelude::*;

verus! {

// ---------------------------------------------------------------------------
// Modes

/// The kind of a file is the top four bits of its mode: eight for files, four for folders and
/// ten for links. All lanes read it the same way.
pub proof fn law_modes_tell_kinds_apart(mode: u32)
    ensures
        ({
            let kind = if mode / 0x1000 % 16 == 8 {
                FileKind::File
            } else if mode / 0x1000 % 16 == 4 {
                FileKind::Dir
            } else if mode / 0x1000 % 16 == 10 {
                FileKind::Symlink
            } else {
                FileKind::Other
            };
            &&& crate::btrfs::kind_of_mode(mode) == kind
            &&& crate::watch::kind_of_mode(mode) == kind
            &&& mode < 0x1_0000 ==> crate::ext4::kind_of_mode(mode as u16) == kind
        }),
{
    assert(((mode & 0xf000) == 0x8000) == (mode / 0x1000 % 16 == 8)) by (bit_vector);
    assert(((mode & 0xf000) == 0x4000) == (mode / 0x1000 % 16 == 4)) by (bit_vector);
    assert(((mode & 0xf000) == 0xa000) == (mode / 0x1000 % 16 == 10)) by (bit_vector);
    if mode < 0x1_0000 {
        let m = mode as u16;
        assert(((m & 0xf000) == 0x8000) == (m / 0x1000 % 16 == 8)) by (bit_vector);
        assert(((m & 0xf000) == 0x4000) == (m / 0x1000 % 16 == 4)) by (bit_vector);
        assert(((m & 0xf000) == 0xa000) == (m / 0x1000 % 16 == 10)) by (bit_vector);
        assert(m / 0x1000 == mode / 0x1000);
    }
}

// ---------------------------------------------------------------------------
// ext4

/// An inode in use is kept with its mode, its size and the time it was last written. When it
/// was last read, changed or deleted has no say in it, nor has its owner.
pub proof fn law_inodes_keep_size_and_time(inode: Ext2Inode)
    ensures
        crate::ext4::meta_of(inode) is Some <==> inode.mode != 0 && inode.links != 0,
        crate::ext4::meta_of(inode) is Some ==> {
            let m = crate::ext4::meta_of(inode)->0;
            &&& m.mode == inode.mode
            &&& m.mtime == inode.mtime
            &&& m.size as int == inode.size + (if inode.mode / 0x1000 == 8 {
                0x1_0000_0000 * inode.size_high
            } else {
                0
            })
        },
{
    law_modes_tell_kinds_apart(inode.mode as u32);
}

/// Two inodes that differ in nothing but the times when they were read, changed or deleted are
/// kept alike; two that were written at different times are not.
pub proof fn law_only_the_time_of_writing_counts(
    a: Ext2Inode,
    atime: u32,
    ctime: u32,
    dtime: u32,
    mtime: u32,
)
    requires
        a.mode != 0,
        a.links != 0,
    ensures
        crate::ext4::meta_of(a) == crate::ext4::meta_of(Ext2Inode { atime, ctime, dtime, ..a }),
        mtime != a.mtime ==> crate::ext4::meta_of(a) != crate::ext4::meta_of(
            Ext2Inode { mtime, ..a },
        ),
{
}

/// The record is that of a name in a folder, with what its inode says.
#[verifier::opaque]
pub open spec fn is_link_record(
    r: RecordView,
    metas: Map<u32, crate::ext4::Meta>,
    l: LinkView,
    folder: u32,
) -> bool {
    &&& metas.contains_key(l.ino)
    &&& exists|above: Seq<char>| r.path == #[trigger] (above + seq!['/'] + l.name)
    &&& r.size == metas[l.ino].size
    &&& r.mtime == metas[l.ino].mtime
    &&& r.mode == metas[l.ino].mode
    &&& r.kind == crate::ext4::kind_of_mode(metas[l.ino].mode)
    &&& r.fs is Ext4
    &&& r.native_id == l.ino
    &&& r.native_parent == folder
    &&& r.source == 0
}

/// One of the records is that of a name in a folder.
pub open spec fn link_is_told(
    rs: Seq<RecordView>,
    metas: Map<u32, crate::ext4::Meta>,
    l: LinkView,
    folder: u32,
) -> bool {
    exists|k: int| 0 <= k < rs.len() && is_link_record(#[trigger] rs[k], metas, l, folder)
}

/// Every name in a folder whose inode is in use is told of.
#[verifier::opaque]
pub open spec fn folder_is_told(
    rs: Seq<RecordView>,
    dirs: Map<u32, Seq<LinkView>>,
    metas: Map<u32, crate::ext4::Meta>,
    folder: u32,
) -> bool {
    dirs.contains_key(folder) ==> forall|i: int|
        0 <= i < dirs[folder].len() && metas.contains_key((#[trigger] dirs[folder][i]).ino)
            ==> link_is_told(rs, metas, dirs[folder][i], folder)
}

/// The record is that of a name in one of the folders.
#[verifier::opaque]
pub open spec fn is_some_link(
    r: RecordView,
    dirs: Map<u32, Seq<LinkView>>,
    metas: Map<u32, crate::ext4::Meta>,
) -> bool {
    exists|folder: u32, i: int|
        dirs.contains_key(folder) && 0 <= i < dirs[folder].len() && is_link_record(
            r,
            metas,
            #[trigger] dirs[folder][i],
            folder,
        )
}

proof fn lemma_link_record(
    metas: Map<u32, crate::ext4::Meta>,
    l: LinkView,
    folder: u32,
    path: Seq<char>,
)
    requires
        metas.contains_key(l.ino),
    ensures
        is_link_record(crate::ext4::link_record(metas[l.ino], l, folder, path), metas, l, folder),
{
    reveal(is_link_record);
    assert(path.push('/') + l.name =~= path + seq!['/'] + l.name);
}

#[verifier::rlimit(40)]
proof fn lemma_links_told(
    metas: Map<u32, crate::ext4::Meta>,
    ls: Seq<LinkView>,
    folder: u32,
    path: Seq<char>,
)
    ensures
        ({
            let rs = crate::ext4::link_records(metas, ls, folder, path);
            let ds = crate::ext4::link_dirs(metas, ls, path);
            &&& forall|i: int|
                0 <= i < ls.len() && metas.contains_key((#[trigger] ls[i]).ino) ==> exists|k: int|
                    0 <= k < rs.len() && is_link_record(#[trigger] rs[k], metas, ls[i], folder)
                        && rs[k].path == path.push('/') + ls[i].name
            &&& forall|k: int|
                0 <= k < rs.len() ==> exists|i: int|
                    0 <= i < ls.len() && is_link_record(
                        #[trigger] rs[k],
                        metas,
                        #[trigger] ls[i],
                        folder,
                    )
            &&& forall|k: int|
                0 <= k < rs.len() && (#[trigger] rs[k]).kind is Dir ==> exists|j: int|
                    0 <= j < ds.len() && (#[trigger] ds[j]).0 == rs[k].native_id
        }),
    decreases ls.len(),
{
    if ls.len() > 0 {
        let less = ls.drop_last();
        let l = ls.last();
        lemma_links_told(metas, less, folder, path);
        let front = crate::ext4::link_records(metas, less, folder, path);
        let rs = crate::ext4::link_records(metas, ls, folder, path);
        let fds = crate::ext4::link_dirs(metas, less, path);
        let ds = crate::ext4::link_dirs(metas, ls, path);
        if metas.contains_key(l.ino) {
            lemma_link_record(metas, l, folder, path);
        }
        assert forall|i: int| 0 <= i < ls.len() && metas.contains_key((#[trigger] ls[i]).ino) implies exists|
            k: int,
        |
            0 <= k < rs.len() && is_link_record(#[trigger] rs[k], metas, ls[i], folder)
                && rs[k].path == path.push('/') + ls[i].name by {
            if i < less.len() {
                assert(less[i] == ls[i]);
                let k = choose|k: int|
                    0 <= k < front.len() && is_link_record(#[trigger] front[k], metas, less[i], folder)
                        && front[k].path == path.push('/') + less[i].name;
                assert(rs[k] == front[k]);
            } else {
                assert(is_link_record(rs[front.len() as int], metas, ls[i], folder));
            }
        }
        assert forall|k: int| 0 <= k < rs.len() implies exists|i: int|
            0 <= i < ls.len() && is_link_record(
                #[trigger] rs[k],
                metas,
                #[trigger] ls[i],
                folder,
            ) by {
            if k < front.len() {
                assert(rs[k] == front[k]);
                let i = choose|i: int|
                    0 <= i < less.len() && is_link_record(front[k], metas, #[trigger] less[i], folder);
                assert(less[i] == ls[i]);
            } else {
                assert(is_link_record(rs[k], metas, ls[ls.len() - 1], folder));
            }
        }
        assert forall|k: int| 0 <= k < rs.len() && (#[trigger] rs[k]).kind is Dir implies exists|
            j: int,
        |
            0 <= j < ds.len() && (#[trigger] ds[j]).0 == rs[k].native_id by {
            if k < front.len() {
                assert(rs[k] == front[k]);
                let j = choose|j: int|
                    0 <= j < fds.len() && (#[trigger] fds[j]).0 == front[k].native_id;
                assert(ds[j] == fds[j]);
            } else {
                assert(ds[fds.len() as int].0 == l.ino);
            }
        }
    }
}

/// What a walk has told of: the folders in its queue, and every folder that it tells of.
spec fn walk_is_told(
    dirs: Map<u32, Seq<LinkView>>,
    metas: Map<u32, crate::ext4::Meta>,
    queue: Seq<(u32, Seq<char>)>,
    expanded: Set<u32>,
    rs: Seq<RecordView>,
) -> bool {
    &&& forall|j: int|
        0 <= j < queue.len() && !expanded.contains((#[trigger] queue[j]).0) ==> folder_is_told(
            rs,
            dirs,
            metas,
            queue[j].0,
        )
    &&& forall|k: int|
        0 <= k < rs.len() && (#[trigger] rs[k]).kind is Dir && !expanded.contains(
            rs[k].native_id as u32,
        ) ==> folder_is_told(rs, dirs, metas, rs[k].native_id as u32)
    &&& forall|k: int| 0 <= k < rs.len() ==> is_some_link(#[trigger] rs[k], dirs, metas)
}

proof fn lemma_more_is_told(
    a: Seq<RecordView>,
    b: Seq<RecordView>,
    dirs: Map<u32, Seq<LinkView>>,
    metas: Map<u32, crate::ext4::Meta>,
    folder: u32,
)
    ensures
        folder_is_told(a, dirs, metas, folder) ==> folder_is_told(a + b, dirs, metas, folder),
        folder_is_told(b, dirs, metas, folder) ==> folder_is_told(a + b, dirs, metas, folder),
{
    reveal(folder_is_told);
    let ls = dirs[folder];
    if folder_is_told(a, dirs, metas, folder) && dirs.contains_key(folder) {
        assert forall|i: int| 0 <= i < ls.len() && metas.contains_key((#[trigger] ls[i]).ino) implies link_is_told(
        a + b, metas, ls[i], folder) by {
            assert(link_is_told(a, metas, ls[i], folder));
            let k = choose|k: int|
                0 <= k < a.len() && is_link_record(#[trigger] a[k], metas, ls[i], folder);
            assert((a + b)[k] == a[k]);
        }
    }
    if folder_is_told(b, dirs, metas, folder) && dirs.contains_key(folder) {
        assert forall|i: int| 0 <= i < ls.len() && metas.contains_key((#[trigger] ls[i]).ino) implies link_is_told(
        a + b, metas, ls[i], folder) by {
            assert(link_is_told(b, metas, ls[i], folder));
            let k = choose|k: int|
                0 <= k < b.len() && is_link_record(#[trigger] b[k], metas, ls[i], folder);
            assert((a + b)[a.len() + k] == b[k]);
        }
    }
}

proof fn lemma_found_is_told(
    dirs: Map<u32, Seq<LinkView>>,
    metas: Map<u32, crate::ext4::Meta>,
    p: u32,
    path: Seq<char>,
)
    requires
        dirs.contains_key(p),
    ensures
        ({
            let found = crate::ext4::link_records(metas, dirs[p], p, path);
            let more = crate::ext4::link_dirs(metas, dirs[p], path);
            &&& folder_is_told(found, dirs, metas, p)
            &&& forall|k: int|
                0 <= k < found.len() ==> is_some_link(#[trigger] found[k], dirs, metas)
            &&& forall|k: int|
                0 <= k < found.len() && (#[trigger] found[k]).kind is Dir ==> exists|j: int|
                    0 <= j < more.len() && (#[trigger] more[j]).0 == found[k].native_id
        }),
{
    let found = crate::ext4::link_records(metas, dirs[p], p, path);
    let ls = dirs[p];
    lemma_links_told(metas, ls, p, path);
    reveal(folder_is_told);
    reveal(is_some_link);
    assert forall|i: int| 0 <= i < ls.len() && metas.contains_key((#[trigger] ls[i]).ino) implies link_is_told(
    found, metas, ls[i], p) by {
        let k = choose|k: int|
            0 <= k < found.len() && is_link_record(#[trigger] found[k], metas, ls[i], p)
                && found[k].path == path.push('/') + ls[i].name;
        assert(is_link_record(found[k], metas, ls[i], p));
    }
    assert forall|k: int| 0 <= k < found.len() implies is_some_link(
        #[trigger] found[k],
        dirs,
        metas,
    ) by {
        let i = choose|i: int|
            0 <= i < ls.len() && is_link_record(found[k], metas, #[trigger] ls[i], p);
        assert(is_link_record(found[k], metas, dirs[p][i], p));
    }
}

#[verifier::rlimit(40)]
proof fn lemma_walk_step(
    dirs: Map<u32, Seq<LinkView>>,
    metas: Map<u32, crate::ext4::Meta>,
    queue: Seq<(u32, Seq<char>)>,
    expanded: Set<u32>,
    later: Seq<RecordView>,
)
    requires
        queue.len() > 0,
        dirs.contains_key(queue[0].0),
        walk_is_told(
            dirs,
            metas,
            queue.drop_first() + crate::ext4::link_dirs(metas, dirs[queue[0].0], queue[0].1),
            expanded.insert(queue[0].0),
            later,
        ),
    ensures
        walk_is_told(
            dirs,
            metas,
            queue,
            expanded,
            crate::ext4::link_records(metas, dirs[queue[0].0], queue[0].0, queue[0].1) + later,
        ),
{
    let (p, path) = queue[0];
    let rest = queue.drop_first();
    let found = crate::ext4::link_records(metas, dirs[p], p, path);
    let more = crate::ext4::link_dirs(metas, dirs[p], path);
    let next = rest + more;
    let rs = found + later;
    lemma_found_is_told(dirs, metas, p, path);
    lemma_more_is_told(found, later, dirs, metas, p);
    assert forall|j: int|
        0 <= j < queue.len() && !expanded.contains((#[trigger] queue[j]).0) implies folder_is_told(
        rs,
        dirs,
        metas,
        queue[j].0,
    ) by {
        if queue[j].0 != p {
            assert(next[j - 1] == queue[j]);
            lemma_more_is_told(found, later, dirs, metas, queue[j].0);
        }
    }
    assert forall|k: int|
        0 <= k < rs.len() && (#[trigger] rs[k]).kind is Dir && !expanded.contains(
            rs[k].native_id as u32,
        ) implies folder_is_told(rs, dirs, metas, rs[k].native_id as u32) by {
        let id = rs[k].native_id as u32;
        if id != p {
            lemma_more_is_told(found, later, dirs, metas, id);
            if k < found.len() {
                assert(rs[k] == found[k]);
                let j = choose|j: int|
                    0 <= j < more.len() && (#[trigger] more[j]).0 == found[k].native_id;
                assert(next[rest.len() + j] == more[j]);
                assert(more[j].0 == id);
            } else {
                assert(rs[k] == later[k - found.len()]);
            }
        }
    }
    assert forall|k: int| 0 <= k < rs.len() implies is_some_link(#[trigger] rs[k], dirs, metas) by {
        if k < found.len() {
            assert(rs[k] == found[k]);
        } else {
            assert(rs[k] == later[k - found.len()]);
        }
    }
}

#[verifier::rlimit(40)]
proof fn lemma_walk(
    dirs: Map<u32, Seq<LinkView>>,
    metas: Map<u32, crate::ext4::Meta>,
    queue: Seq<(u32, Seq<char>)>,
    expanded: Set<u32>,
)
    requires
        dirs.dom().finite(),
    ensures
        walk_is_told(
            dirs,
            metas,
            queue,
            expanded,
            crate::ext4::walked(dirs, metas, queue, expanded),
        ),
    decreases dirs.dom().difference(expanded).len(), queue.len(),
{
    if queue.len() > 0 {
        let (p, path) = queue[0];
        let rest = queue.drop_first();
        let rs = crate::ext4::walked(dirs, metas, queue, expanded);
        crate::ext4::lemma_one_fewer(dirs.dom(), expanded, p);
        if expanded.contains(p) {
            lemma_walk(dirs, metas, rest, expanded);
            assert forall|j: int|
                0 <= j < queue.len() && !expanded.contains(
                    (#[trigger] queue[j]).0,
                ) implies folder_is_told(rs, dirs, metas, queue[j].0) by {
                assert(queue[j] == rest[j - 1]);
            }
        } else if !dirs.contains_key(p) {
            lemma_walk(dirs, metas, rest, expanded.insert(p));
            assert(folder_is_told(rs, dirs, metas, p)) by {
                reveal(folder_is_told);
            }
            assert forall|j: int|
                0 <= j < queue.len() && !expanded.contains(
                    (#[trigger] queue[j]).0,
                ) implies folder_is_told(rs, dirs, metas, queue[j].0) by {
                if queue[j].0 != p {
                    assert(queue[j] == rest[j - 1]);
                }
            }
            assert forall|k: int|
                0 <= k < rs.len() && (#[trigger] rs[k]).kind is Dir && !expanded.contains(
                    rs[k].native_id as u32,
                ) implies folder_is_told(rs, dirs, metas, rs[k].native_id as u32) by {
                if rs[k].native_id as u32 != p {
                    assert(!expanded.insert(p).contains(rs[k].native_id as u32));
                }
            }
        } else {
            let more = crate::ext4::link_dirs(metas, dirs[p], path);
            lemma_walk(dirs, metas, rest + more, expanded.insert(p));
            lemma_walk_step(
                dirs,
                metas,
                queue,
                expanded,
                crate::ext4::walked(dirs, metas, rest + more, expanded.insert(p)),
            );
        }
    }
}

/// A scan of an ext4 volume tells of every name in the top folder, at its path, and of every
/// name in every folder that it tells of; with the size, the time and the mode of its inode. It
/// tells of nothing else.
pub proof fn law_every_name_in_every_folder_is_told(
    dirs: Map<u32, Seq<LinkView>>,
    metas: Map<u32, crate::ext4::Meta>,
    prefix: Seq<char>,
)
    requires
        dirs.dom().finite(),
    ensures
        ({
            let rs = crate::ext4::walked(dirs, metas, seq![(2u32, prefix)], Set::empty());
            &&& forall|i: int|
                dirs.contains_key(2) && 0 <= i < dirs[2].len() && metas.contains_key(
                    (#[trigger] dirs[2][i]).ino,
                ) ==> exists|k: int|
                    0 <= k < rs.len() && is_link_record(#[trigger] rs[k], metas, dirs[2][i], 2)
                        && rs[k].path == prefix.push('/') + dirs[2][i].name
            &&& forall|k: int|
                0 <= k < rs.len() && (#[trigger] rs[k]).kind is Dir ==> folder_is_told(
                    rs,
                    dirs,
                    metas,
                    rs[k].native_id as u32,
                )
            &&& forall|k: int| 0 <= k < rs.len() ==> is_some_link(#[trigger] rs[k], dirs, metas)
        }),
{
    let queue = seq![(2u32, prefix)];
    let rs = crate::ext4::walked(dirs, metas, queue, Set::empty());
    lemma_walk(dirs, metas, queue, Set::empty());
    if dirs.contains_key(2) {
        let found = crate::ext4::link_records(metas, dirs[2], 2, prefix);
        lemma_links_told(metas, dirs[2], 2, prefix);
        assert(queue[0] == (2u32, prefix));
        let ls = dirs[2];
        assert forall|i: int|
            0 <= i < ls.len() && metas.contains_key((#[trigger] ls[i]).ino) implies exists|k: int|
            0 <= k < rs.len() && is_link_record(#[trigger] rs[k], metas, ls[i], 2) && rs[k].path
                == prefix.push('/') + ls[i].name by {
            let k = choose|k: int|
                0 <= k < found.len() && is_link_record(#[trigger] found[k], metas, ls[i], 2)
                    && found[k].path == prefix.push('/') + ls[i].name;
            assert(rs[k] == found[k]);
        }
    }
}

/// An entry of a folder gives its inode and as many bytes of its name as it says, unless it is
/// empty, unused, or the folder itself or its parent.
pub proof fn law_entries_give_inode_and_name(kind: i32, e: crate::ext4::DirEntry)
    ensures
        ({
            let name = crate::text::lossy_text(e.name@.take((e.name_len % 256) as int));
            match crate::ext4::link_of(kind, e) {
                Some(l) => l.ino == e.inode && l.name == name && e.inode != 0 && name != "."@
                    && name != ".."@,
                None => kind != 3 || e.inode == 0 || e.name_len % 256 == 0 || name == "."@ || name
                    == ".."@,
            }
        }),
{
}

// ---------------------------------------------------------------------------
// Btrfs

/// An inode item has the size at its byte 16, the mode at 52 and the time of the last
/// modification at 136, each with the low byte first, the time with a sign.
pub proof fn law_inode_items_are_read_as_laid_out(data: Seq<u8>)
    requires
        data.len() >= 148,
    ensures
        ({
            let m = crate::btrfs::meta_in(data);
            let t = eight(data, 136);
            &&& m.size as int == eight(data, 16)
            &&& m.mode as int == four(data, 52)
            &&& m.mtime as int == (if t < 0x8000_0000_0000_0000 {
                t as int
            } else {
                t - 0x1_0000_0000_0000_0000
            })
        }),
{
    crate::layout::law_numbers_are_read_as_laid_out(data, 16);
    crate::layout::law_numbers_are_read_as_laid_out(data, 52);
    crate::layout::law_numbers_are_read_as_laid_out(data, 136);
}

/// An item of a search has a transaction, its object, its offset, its type and its length in
/// front of its data.
pub proof fn law_items_are_read_as_laid_out(b: Seq<u8>, pos: int, item: ItemView, end: int)
    requires
        0 <= pos,
        crate::btrfs::item_at(b, pos) == Ok::<(ItemView, int), crate::btrfs::BtrfsError>(
            (item, end),
        ),
    ensures
        item.objectid as int == eight(b, pos + 8),
        item.offset as int == eight(b, pos + 16),
        item.item_type as int == four(b, pos + 24),
        end == pos + 32 + four(b, pos + 28),
        item.data == b.subrange(pos + 32, end),
{
    crate::layout::law_numbers_are_read_as_laid_out(b, pos + 8);
    crate::layout::law_numbers_are_read_as_laid_out(b, pos + 16);
    crate::layout::law_numbers_are_read_as_laid_out(b, pos + 24);
    crate::layout::law_numbers_are_read_as_laid_out(b, pos + 28);
}

/// The item gives an inode a name in a folder: the offset of the item is the folder, or, for
/// an extended one, its first eight bytes are.
pub open spec fn gives_a_name(item: ItemView, folder: u64, name: Seq<char>) -> bool {
    ||| item.item_type == 12 && item.data.len() >= 10 + two(item.data, 8) && folder == item.offset
        && name == crate::text::lossy_text(item.data.subrange(10, 10 + two(item.data, 8) as int))
    ||| item.item_type == 13 && item.data.len() >= 18 + two(item.data, 16) && folder as int
        == eight(item.data, 0) && name == crate::text::lossy_text(
        item.data.subrange(18, 18 + two(item.data, 16) as int),
    )
}

/// An inode that has an inode item and a name, in two items in a row, is kept with both as soon
/// as an item of another inode follows.
pub proof fn law_inodes_are_kept_with_their_names(
    g: GatherView,
    first: ItemView,
    second: ItemView,
    third: ItemView,
    folder: u64,
    name: Seq<char>,
)
    requires
        g.ino is None,
        g.meta is None,
        g.link is None,
        first.item_type == 1,
        first.data.len() >= 148,
        second.data.len() >= 18,
        gives_a_name(second, folder, name),
        vstd::utf8::encode_utf8(name).len() <= 0xffff,
        first.objectid == second.objectid,
        third.objectid != first.objectid,
        first.objectid != 256,
    ensures
        ({
            let after = crate::btrfs::absorbed(
                crate::btrfs::absorbed(crate::btrfs::absorbed(g, first), second),
                third,
            );
            &&& after.nodes.len() == g.nodes.len() + 1
            &&& after.nodes.drop_last() == g.nodes
            &&& after.nodes.last().ino == first.objectid
            &&& after.nodes.last().parent == folder
            &&& after.nodes.last().name == name
            &&& after.nodes.last().meta.size as int == eight(first.data, 16)
            &&& after.nodes.last().meta.mode as int == four(first.data, 52)
            &&& after.nodes.last().meta == crate::btrfs::meta_in(first.data)
        }),
{
    law_inode_items_are_read_as_laid_out(first.data);
    crate::layout::law_numbers_are_read_as_laid_out(second.data, 8);
    crate::layout::law_numbers_are_read_as_laid_out(second.data, 0);
    crate::layout::law_numbers_are_read_as_laid_out(second.data, 16);
    let a = crate::btrfs::absorbed(g, first);
    let b = crate::btrfs::absorbed(a, second);
    let c = crate::btrfs::absorbed(b, third);
    assert(b.link == Some((folder, name)));
    assert(c.nodes.drop_last() =~= g.nodes);
}

/// A chain of folders from the top of a volume down.
pub open spec fn folders_in_a_row(ns: Seq<NodeView>, row: Seq<NodeView>) -> bool {
    &&& row.len() > 0
    &&& row[0].ino == 256
    &&& forall|i: int|
        0 <= i < row.len() - 1 ==> {
            let n = #[trigger] row[i + 1];
            &&& crate::btrfs::first_with(ns, n.ino) == Some(n)
            &&& n.ino != 256
            &&& crate::btrfs::kind_of_mode(n.meta.mode) is Dir
            &&& n.parent == row[i].ino
            &&& n.parent != u64::MAX
            &&& n.name.len() > 0
        }
}

/// The names of folders in a row, but for the top.
pub open spec fn row_names(row: Seq<NodeView>) -> Seq<Seq<char>> {
    Seq::new((row.len() - 1) as nat, |i: int| row[i + 1].name)
}

#[verifier::rlimit(40)]
proof fn lemma_climb(t: &NodeTable, row: Seq<NodeView>)
    requires
        folders_in_a_row(crate::btrfs::node_views(t.nodes@), row),
    ensures
        crate::dirtree::climb(t, 256, row.last().ino, (row.len() - 1) as nat) == Some(
            crate::text::join(row_names(row), '/'),
        ),
        row.len() > 1 ==> crate::text::join(row_names(row), '/').len() > 0,
    decreases row.len(),
{
    let ns = crate::btrfs::node_views(t.nodes@);
    let names = row_names(row);
    if row.len() == 1 {
        assert(names =~= Seq::empty());
    } else {
        let less = row.drop_last();
        let i = row.len() - 2;
        assert(folders_in_a_row(ns, less)) by {
            assert forall|i: int| 0 <= i < less.len() - 1 implies {
                let n = #[trigger] less[i + 1];
                &&& crate::btrfs::first_with(ns, n.ino) == Some(n)
                &&& n.ino != 256
                &&& crate::btrfs::kind_of_mode(n.meta.mode) is Dir
                &&& n.parent == less[i].ino
                &&& n.parent != u64::MAX
                &&& n.name.len() > 0
            } by {
                assert(less[i + 1] == row[i + 1] && less[i] == row[i]);
            }
        }
        lemma_climb(t, less);
        assert(row[i + 1] == row.last());
        assert(row[i] == less.last());
        assert(names.drop_last() =~= row_names(less));
        assert(names.last() == row.last().name);
        assert(crate::dirtree::DirTable::step(t, row.last().ino) == Some(
            (row[i].ino, row.last().name),
        ));
        if less.len() == 1 {
            assert(row_names(less) =~= Seq::empty());
        }
    }
}

/// The record tells of an inode at a path what its item says.
pub open spec fn tells_of(r: RecordView, n: NodeView, path: Seq<char>) -> bool {
    &&& r.path == path
    &&& r.size == n.meta.size
    &&& r.mtime == n.meta.mtime
    &&& r.mode == n.meta.mode
    &&& r.kind == crate::btrfs::kind_of_mode(n.meta.mode)
    &&& r.fs is Btrfs
    &&& r.native_id == n.ino
    &&& r.native_parent == n.parent
    &&& r.source == 0
}

/// A file in a chain of folders is told of at the path that their names spell, below the mount
/// point, with the size, the time and the mode of its inode.
pub proof fn law_inodes_are_told_of_at_their_paths(
    t: &NodeTable,
    prefix: Seq<char>,
    ns: Seq<NodeView>,
    n: NodeView,
    row: Seq<NodeView>,
)
    requires
        folders_in_a_row(crate::btrfs::node_views(t.nodes@), row),
        ns.contains(n),
        n.ino != 256,
        n.parent == row.last().ino,
        n.parent != u64::MAX,
        n.name.len() > 0,
    ensures
        exists|k: int|
            0 <= k < crate::btrfs::node_records(t, prefix, ns).len() && tells_of(
                #[trigger] crate::btrfs::node_records(t, prefix, ns)[k],
                n,
                prefix.push('/') + crate::text::join(row_names(row).push(n.name), '/'),
            ),
{
    let names = row_names(row);
    let folder = crate::text::join(names, '/');
    let relative = crate::text::join(names.push(n.name), '/');
    lemma_climb(t, row);
    assert(crate::dirtree::leads_to(t, 256, n.parent, folder));
    assert(crate::dirtree::reaches(t, 256, n.parent));
    let below = crate::dirtree::path_below(t, 256, n.parent);
    assert(crate::dirtree::leads_to(t, 256, n.parent, below));
    crate::dirtree::law_paths_are_unique(t, 256, n.parent, folder, below);
    assert(names.push(n.name).drop_last() =~= names);
    if names.len() == 0 {
        assert(folder =~= Seq::empty());
    }
    assert(crate::dirtree::appended(folder, n.name) == relative);
    assert(relative.len() > 0);
    lemma_told(t, prefix, ns, n, prefix.push('/') + relative);
}

proof fn lemma_told(
    t: &NodeTable,
    prefix: Seq<char>,
    ns: Seq<NodeView>,
    n: NodeView,
    path: Seq<char>,
)
    requires
        ns.contains(n),
        n.parent != u64::MAX,
        crate::btrfs::node_path(t, prefix, n) == Some(path),
    ensures
        exists|k: int|
            0 <= k < crate::btrfs::node_records(t, prefix, ns).len() && tells_of(
                #[trigger] crate::btrfs::node_records(t, prefix, ns)[k],
                n,
                path,
            ),
    decreases ns.len(),
{
    let less = ns.drop_last();
    let front = crate::btrfs::node_records(t, prefix, less);
    let all = crate::btrfs::node_records(t, prefix, ns);
    if ns.last() == n {
        assert(tells_of(all[front.len() as int], n, path));
    } else {
        let i = ns.index_of(n);
        assert(less[i] == n);
        assert(less.contains(n));
        lemma_told(t, prefix, less, n, path);
        let k = choose|k: int| 0 <= k < front.len() && tells_of(#[trigger] front[k], n, path);
        assert(all[k] == front[k]);
    }
}

// ---------------------------------------------------------------------------
// macOS

/// What was looked up of a path stands in its record.
pub proof fn law_looked_up_paths_keep_what_was_found(l: Looked)
    ensures
        ({
            let r = crate::macos::looked_record(l);
            &&& r.path == l.path@
            &&& r.kind == l.kind
            &&& r.size == l.size
            &&& r.mtime == l.mtime
            &&& r.mode == l.mode
            &&& r.fs == crate::mounts::FsView::Unsupported("apfs"@)
            &&& r.source == 0
        }),
{
}

/// The texts in UTF-8, each with a zero byte behind it.
pub open spec fn with_zeros(paths: Seq<Seq<char>>) -> Seq<u8>
    decreases paths.len(),
{
    if paths.len() == 0 {
        Seq::empty()
    } else {
        with_zeros(paths.drop_last()) + vstd::utf8::encode_utf8(paths.last()) + seq![0u8]
    }
}

proof fn lemma_no_zeros(a: Seq<u8>, b: Seq<u8>)
    requires
        !b.contains(0u8),
    ensures
        crate::macos::nul_parts(a + b) == crate::macos::nul_parts(a).drop_last().push(
            crate::macos::nul_parts(a).last() + b,
        ),
        crate::macos::nul_parts(a).len() > 0,
    decreases a.len() + b.len(),
{
    if b.len() == 0 {
        assert(a + b =~= a);
        lemma_parts(a);
        let parts = crate::macos::nul_parts(a);
        assert(parts.last() + b =~= parts.last());
        assert(parts.drop_last().push(parts.last()) =~= parts);
    } else {
        let less = b.drop_last();
        assert(!less.contains(0u8)) by {
            if less.contains(0u8) {
                let i = less.index_of(0u8);
                assert(b[i] == 0u8);
            }
        }
        lemma_no_zeros(a, less);
        assert((a + b).drop_last() =~= a + less);
        assert((a + b).last() == b.last());
        assert(b.contains(b[b.len() - 1]));
        let parts = crate::macos::nul_parts(a);
        let front = crate::macos::nul_parts(a + less);
        assert(front.drop_last() =~= parts.drop_last());
        assert((parts.last() + less).push(b.last()) =~= parts.last() + b);
    }
}

proof fn lemma_parts(b: Seq<u8>)
    ensures
        crate::macos::nul_parts(b).len() > 0,
    decreases b.len(),
{
    if b.len() > 0 {
        lemma_parts(b.drop_last());
    }
}

/// Paths that a search hands out with a zero byte behind each are read as those paths, whatever
/// else they hold.
pub proof fn law_paths_between_zeros_are_read_back(paths: Seq<Seq<char>>)
    requires
        forall|i: int|
            0 <= i < paths.len() ==> (#[trigger] paths[i]).len() > 0 && !vstd::utf8::encode_utf8(
                paths[i],
            ).contains(0u8),
    ensures
        crate::macos::texts_among(crate::macos::nul_parts(with_zeros(paths))) == paths,
{
    lemma_read_back(paths);
    let parts = crate::macos::nul_parts(with_zeros(paths));
    assert(parts.last().len() == 0);
    assert(crate::macos::texts_among(parts) == crate::macos::texts_among(parts.drop_last()));
}

proof fn lemma_read_back(paths: Seq<Seq<char>>)
    requires
        forall|i: int|
            0 <= i < paths.len() ==> (#[trigger] paths[i]).len() > 0 && !vstd::utf8::encode_utf8(
                paths[i],
            ).contains(0u8),
    ensures
        ({
            let parts = crate::macos::nul_parts(with_zeros(paths));
            &&& parts.len() > 0
            &&& parts.last() == Seq::<u8>::empty()
            &&& crate::macos::texts_among(parts.drop_last()) == paths
        }),
    decreases paths.len(),
{
    if paths.len() == 0 {
        let parts = crate::macos::nul_parts(with_zeros(paths));
        assert(parts.drop_last() =~= Seq::empty());
        assert(paths =~= Seq::empty());
    } else {
        let less = paths.drop_last();
        let p = paths.last();
        let bytes = vstd::utf8::encode_utf8(p);
        assert(p == paths[paths.len() - 1]);
        assert forall|i: int| 0 <= i < less.len() implies (#[trigger] less[i]).len() > 0
            && !vstd::utf8::encode_utf8(less[i]).contains(0u8) by {
            assert(less[i] == paths[i]);
        }
        lemma_read_back(less);
        let front = with_zeros(less);
        let before = crate::macos::nul_parts(front);
        lemma_no_zeros(front, bytes);
        let whole = with_zeros(paths);
        assert(whole.drop_last() =~= front + bytes);
        assert(whole.last() == 0);
        let parts = crate::macos::nul_parts(whole);
        assert(before.last() + bytes =~= bytes);
        assert(parts.drop_last() =~= before.drop_last().push(bytes));
        assert(before.drop_last().push(bytes).drop_last() =~= before.drop_last());
        vstd::utf8::encode_utf8_valid_utf8(p);
        vstd::utf8::encode_utf8_decode_utf8(p);
        assert(bytes.len() > 0) by {
            if bytes.len() == 0 {
                assert(bytes =~= vstd::utf8::encode_utf8(Seq::empty()));
                crate::text::lemma_encoding_is_faithful(p, Seq::empty());
            }
        }
        assert(less.push(p) =~= paths);
    }
}

/// A record of a folder that was read in bulk: its length, the place of the name counted from
/// where that is said, the length of the name with the zero byte behind it, and whether it is a
/// folder.
pub proof fn law_bulk_records_are_read_as_laid_out(b: Seq<u8>, pos: int, start: int, name: Seq<u8>)
    requires
        0 <= pos,
        crate::macos::record_at(b, pos),
        four(b, pos + 24) < 0x8000_0000,
        start == pos + 24 + four(b, pos + 24),
        four(b, pos + 28) == name.len() + 1,
        start + name.len() + 1 <= pos + four(b, pos),
        b.subrange(start, start + name.len()) == name,
        b[start + name.len()] == 0,
        name.len() > 0,
        !name.contains(0u8),
        name != seq![46u8],
        name != seq![46u8, 46u8],
    ensures
        crate::macos::entry_at(b, pos) == Some(
            BulkView { name, is_directory: four(b, pos + 32) == 2 },
        ),
{
    crate::layout::law_numbers_are_read_as_laid_out(b, pos);
    crate::layout::law_numbers_are_read_as_laid_out(b, pos + 24);
    crate::layout::law_numbers_are_read_as_laid_out(b, pos + 28);
    crate::layout::law_numbers_are_read_as_laid_out(b, pos + 32);
    let whole = b.subrange(start, start + name.len() + 1);
    assert(whole.last() == 0);
    assert(whole.drop_last() =~= b.subrange(start, start + name.len()));
}

// ---------------------------------------------------------------------------
// Counts and keys

/// A scan counts its folders, and macOS its files, one by one.
pub proof fn law_scans_count_folders_and_files(rs: Seq<RecordView>, r: RecordView)
    ensures
        crate::ext4::dirs_among(Seq::empty()) == 0,
        crate::macos::files_among(Seq::empty()) == 0,
        crate::ext4::dirs_among(rs.push(r)) == crate::ext4::dirs_among(rs) + (if r.kind
            == FileKind::Dir {
            1nat
        } else {
            0
        }),
        crate::macos::files_among(rs.push(r)) == crate::macos::files_among(rs) + (if r.kind
            == FileKind::File {
            1nat
        } else {
            0
        }),
{
    assert(rs.push(r).drop_last() =~= rs);
}

/// A search goes on at the very next key: none that can hold an inode, a name or an extended
/// name lies between.
pub proof fn law_no_key_is_passed_over(key: crate::btrfs::Cursor, other: crate::btrfs::Cursor)
    requires
        1 <= key.1 <= 13,
        1 <= other.1 <= 13,
        crate::btrfs::key_before(key, other),
    ensures
        crate::btrfs::key_after(key) is Some,
        other == crate::btrfs::key_after(key)->0 || crate::btrfs::key_before(
            crate::btrfs::key_after(key)->0,
            other,
        ),
        other.0 > key.0 || (other.0 == key.0 && (other.1 > key.1 || (other.1 == key.1 && other.2
            > key.2))),
{
}

/// A name that an inode has already is kept: further names of it are passed over.
pub proof fn law_the_first_name_of_an_inode_is_kept(g: GatherView, item: ItemView)
    requires
        g.ino == Some(item.objectid),
        g.link is Some,
    ensures
        crate::btrfs::absorbed(g, item).link == g.link,
        crate::btrfs::absorbed(g, item).nodes == g.nodes,
{
}

/// Only inodes that were read are told of, each with the size, the time and the mode that its
/// item says.
pub proof fn law_only_inodes_that_were_read_are_told(
    t: &NodeTable,
    prefix: Seq<char>,
    ns: Seq<NodeView>,
    k: int,
)
    requires
        0 <= k < crate::btrfs::node_records(t, prefix, ns).len(),
    ensures
        exists|i: int|
            0 <= i < ns.len() && ({
                let r = crate::btrfs::node_records(t, prefix, ns)[k];
                let n = #[trigger] ns[i];
                &&& r.native_id == n.ino
                &&& r.size == n.meta.size && r.mtime == n.meta.mtime && r.mode == n.meta.mode
                &&& r.kind == crate::btrfs::kind_of_mode(n.meta.mode)
                &&& r.fs is Btrfs
                &&& n.parent != u64::MAX ==> r.native_parent == n.parent
                &&& n.ino == 256 ==> r.path == prefix
            }),
    decreases ns.len(),
{
    let less = ns.drop_last();
    let front = crate::btrfs::node_records(t, prefix, less);
    let all = crate::btrfs::node_records(t, prefix, ns);
    if k < front.len() {
        law_only_inodes_that_were_read_are_told(t, prefix, less, k);
        assert(all[k] == front[k]);
        let i = choose|i: int|
            0 <= i < less.len() && ({
                let r = front[k];
                let n = #[trigger] less[i];
                &&& r.native_id == n.ino
                &&& r.size == n.meta.size && r.mtime == n.meta.mtime && r.mode == n.meta.mode
                &&& r.kind == crate::btrfs::kind_of_mode(n.meta.mode)
                &&& r.fs is Btrfs
                &&& n.parent != u64::MAX ==> r.native_parent == n.parent
                &&& n.ino == 256 ==> r.path == prefix
            });
        assert(ns[i] == less[i]);
    } else {
        assert(ns[ns.len() - 1] == ns.last());
    }
}

/// The top of a volume is told of at its mount point.
pub proof fn law_the_top_is_told_at_the_mount_point(
    t: &NodeTable,
    prefix: Seq<char>,
    ns: Seq<NodeView>,
    n: NodeView,
)
    requires
        ns.contains(n),
        n.ino == 256,
    ensures
        exists|k: int|
            0 <= k < crate::btrfs::node_records(t, prefix, ns).len() && (
            #[trigger] crate::btrfs::node_records(t, prefix, ns)[k]).path == prefix
                && crate::btrfs::node_records(t, prefix, ns)[k].native_id == 256,
    decreases ns.len(),
{
    let less = ns.drop_last();
    let front = crate::btrfs::node_records(t, prefix, less);
    let all = crate::btrfs::node_records(t, prefix, ns);
    if ns.last() == n {
        assert(all[front.len() as int].path == prefix);
    } else {
        let i = ns.index_of(n);
        assert(less[i] == n);
        assert(less.contains(n));
        law_the_top_is_told_at_the_mount_point(t, prefix, less, n);
        let k = choose|k: int|
            0 <= k < front.len() && (#[trigger] front[k]).path == prefix && front[k].native_id
                == 256;
        assert(all[k] == front[k]);
    }
}

} // verus!
