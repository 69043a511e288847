//! What the mount table says, which mounts folders lie on, and what is scanned of them.

use crate::host::Host;
use crate::lanes::Lane;
use crate::mounts::{FsView, MountView};
use crate::text::Separator;
use crate::types::RecordView;
use vstd::prelude::*;

verus! {

// ---------------------------------------------------------------------------
// The mount table

/// The text does not hold the mark.
pub open spec fn free_of(s: Seq<char>, mark: Seq<char>) -> bool {
    forall|i: int| 0 <= i && i + mark.len() <= s.len() ==> #[trigger] s.subrange(i, i + mark.len())
        != mark
}

/// A line of the mount table has the mount point as the fifth word, and, behind a dash, the
/// type of the filesystem and the device.
pub proof fn law_mount_lines_are_read_by_their_fields(line: Seq<char>, at: int)
    requires
        0 <= at,
        at + 3 <= line.len(),
        line.subrange(at, at + 3) == seq![' ', '-', ' '],
        free_of(line.take(at + 2), seq![' ', '-', ' ']),
        crate::text::words(line.take(at), Separator::Space).len() >= 5,
        crate::text::words(line.skip(at + 3), Separator::Space).len() >= 2,
    ensures
        ({
            let pre = crate::text::words(line.take(at), Separator::Space);
            let post = crate::text::words(line.skip(at + 3), Separator::Space);
            let fs = crate::mounts::fs_of(post[0]);
            let device = crate::mounts::unescaped(post[1]);
            match crate::mounts::mount_in_line(line) {
                Some(m) => {
                    &&& !(fs is Unsupported)
                    &&& m.fs == fs
                    &&& m.device == device
                    &&& m.mountpoint == crate::text::replace_text(pre[4], "\\040"@, " "@)
                    &&& fs is Network ==> m.host is Some && m.host == crate::mounts::host_of(device)
                    &&& !(fs is Network) ==> m.host is None
                },
                None => fs is Unsupported || (fs is Network && crate::mounts::host_of(
                    device,
                ) is None),
            }
        }),
{
    let mark = " - "@;
    reveal_strlit(" - ");
    assert(mark =~= seq![' ', '-', ' ']);
    assert(crate::text::occurs_at(line, mark, at));
    assert forall|j: int| 0 <= j < at implies !crate::text::occurs_at(line, mark, j) by {
        if crate::text::occurs_at(line, mark, j) {
            if j + 3 <= at + 2 {
                assert(line.take(at + 2).subrange(j, j + 3) =~= line.subrange(j, j + 3));
            }
        }
    }
    crate::text::lemma_first_occurrence(line, mark, at);
}

/// A name of a server, as it stands in a device.
pub open spec fn server_name(h: Seq<char>) -> bool {
    h.len() > 0 && !h.contains('/') && !h.contains(':') && !h.contains('@')
}

proof fn lemma_authority(a: Seq<char>, rest: Seq<char>)
    requires
        !a.contains('/'),
    ensures
        crate::text::first_index(a + seq!['/'] + rest, Separator::Char('/')) == a.len(),
{
    let s = a + seq!['/'] + rest;
    let sep = Separator::Char('/');
    crate::text::lemma_first_index(s, sep);
    let k = crate::text::first_index(s, sep);
    assert(s[a.len() as int] == '/');
    if k < a.len() {
        assert(s[k] == a[k]);
        assert(a.contains(a[k]));
    }
    if k > a.len() {
        assert(!sep.has(s[a.len() as int]));
    }
}

#[verifier::rlimit(40)]
proof fn lemma_server(a: Seq<char>, h: Seq<char>, rest: Seq<char>)
    requires
        server_name(h),
        a == h || a == h.push(':') || exists|user: Seq<char>|
            !user.contains('/') && (a == #[trigger] (user + seq!['@'] + h) || a == (user + seq!['@']
                + h).push(':')),
    ensures
        ({
            let e = a.skip(crate::text::last_index(a, '@') + 1);
            e.take(crate::text::first_index(e, Separator::Char(':'))) == h
        }),
        !a.contains('/'),
{
    crate::text::lemma_last_index(a, '@');
    let at = crate::text::last_index(a, '@');
    if exists|user: Seq<char>|
        !user.contains('/') && (a == #[trigger] (user + seq!['@'] + h) || a == (user + seq!['@']
            + h).push(':')) {
        let user = choose|user: Seq<char>|
            !user.contains('/') && (a == #[trigger] (user + seq!['@'] + h) || a == (user + seq!['@']
                + h).push(':'));
        assert(a[user.len() as int] == '@');
        assert(at >= user.len());
        if at > user.len() {
            if at < user.len() + 1 + h.len() {
                assert(a[at] == h[at - user.len() - 1]);
                assert(h.contains(h[at - user.len() - 1]));
            }
        }
        assert(at == user.len());
        if a.contains('/') {
            let i = a.index_of('/');
            if i < user.len() {
                assert(user[i] == '/');
            } else if i > user.len() && i < user.len() + 1 + h.len() {
                assert(h[i - user.len() - 1] == '/');
            }
        }
    } else {
        if at >= 0 {
            if at < h.len() {
                assert(h[at] == '@');
            }
        }
        if a.contains('/') {
            let i = a.index_of('/');
            if i < h.len() {
                assert(h[i] == '/');
            }
        }
    }
    let e = a.skip(at + 1);
    assert(e =~= h || e =~= h.push(':'));
    let sep = Separator::Char(':');
    crate::text::lemma_first_index(e, sep);
    let k = crate::text::first_index(e, sep);
    if k < h.len() {
        assert(e[k] == h[k]);
        assert(h.contains(h[k]));
    }
    if e.len() > h.len() {
        assert(e[h.len() as int] == ':');
        assert(k == h.len());
    }
    assert(e.take(k) =~= h);
}

/// The server of a network mount: what stands in front of the colon of an export, behind the
/// two slashes of a share, or behind the name of a user in either.
#[verifier::rlimit(40)]
pub proof fn law_servers_stand_in_front_of_their_exports(
    h: Seq<char>,
    user: Seq<char>,
    rest: Seq<char>,
)
    requires
        server_name(h),
        !user.contains('/'),
        user.len() > 0,
    ensures
        crate::mounts::host_of(h + seq![':', '/'] + rest) == Some(h),
        crate::mounts::host_of(seq!['/', '/'] + h + seq!['/'] + rest) == Some(h),
        crate::mounts::host_of(user + seq!['@'] + h + seq![':', '/'] + rest) == Some(h),
        crate::mounts::host_of(seq!['/', '/'] + user + seq!['@'] + h + seq!['/'] + rest) == Some(h),
{
    let named = user + seq!['@'] + h;
    assert(h[0] != '/') by {
        assert(h.contains(h[0]));
    }
    assert(user[0] != '/') by {
        assert(user.contains(user[0]));
    }
    let one = h + seq![':', '/'] + rest;
    let two = seq!['/', '/'] + h + seq!['/'] + rest;
    let three = user + seq!['@'] + h + seq![':', '/'] + rest;
    let four = seq!['/', '/'] + user + seq!['@'] + h + seq!['/'] + rest;
    assert(one[0] == h[0]);
    assert(three[0] == user[0]);
    assert(crate::mounts::without_slashes(one) == one);
    assert(crate::mounts::without_slashes(three) == three);
    assert(two.skip(2) =~= h + seq!['/'] + rest);
    assert(four.skip(2) =~= named + seq!['/'] + rest);
    assert((h + seq!['/'] + rest)[0] == h[0]);
    assert((named + seq!['/'] + rest)[0] == user[0]);
    let (x, y) = (h + seq!['/'] + rest, named + seq!['/'] + rest);
    assert(crate::mounts::without_slashes(x) == x);
    assert(crate::mounts::without_slashes(y) == y);
    assert(two[0] == '/' && two[1] == '/');
    assert(four[0] == '/' && four[1] == '/');
    assert(crate::mounts::without_slashes(two) == h + seq!['/'] + rest);
    assert(crate::mounts::without_slashes(four) == named + seq!['/'] + rest);
    lemma_server(h, h, rest);
    lemma_server(h.push(':'), h, rest);
    lemma_server(named, h, rest);
    lemma_server(named.push(':'), h, rest);
    lemma_authority(h, rest);
    lemma_authority(h.push(':'), rest);
    lemma_authority(named, rest);
    lemma_authority(named.push(':'), rest);
    assert(one =~= h.push(':') + seq!['/'] + rest);
    assert(three =~= named.push(':') + seq!['/'] + rest);
    assert(one.take((h.len() + 1) as int) =~= h.push(':'));
    assert((h + seq!['/'] + rest).take(h.len() as int) =~= h);
    assert(three.take((named.len() + 1) as int) =~= named.push(':'));
    assert((named + seq!['/'] + rest).take(named.len() as int) =~= named);
}

// ---------------------------------------------------------------------------
// Folders on mounts

/// The mount has the folder: its components begin those of the folder.
pub open spec fn has_folder(host: Host, m: MountView, root: Seq<char>) -> bool {
    crate::host::path_parts(host, m.mountpoint).is_prefix_of(crate::host::path_parts(host, root))
}

/// A folder lies on the mount with the longest place among those that have it, and on none
/// where none has it.
pub proof fn law_folders_lie_on_the_innermost_mount(
    host: Host,
    table: Seq<MountView>,
    root: Seq<char>,
)
    ensures
        match crate::roots::mount_around(host, table, root) {
            Some(m) => table.contains(m) && has_folder(host, m, root) && forall|i: int|
                0 <= i < table.len() && has_folder(host, #[trigger] table[i], root)
                    ==> vstd::utf8::encode_utf8(table[i].mountpoint).len()
                    <= vstd::utf8::encode_utf8(m.mountpoint).len(),
            None => forall|i: int|
                0 <= i < table.len() ==> !has_folder(host, #[trigger] table[i], root),
        },
    decreases table.len(),
{
    if table.len() > 0 {
        let less = table.drop_last();
        let m = table.last();
        law_folders_lie_on_the_innermost_mount(host, less, root);
        let best = crate::roots::mount_around(host, less, root);
        assert(table[table.len() - 1] == m);
        if best is Some {
            let k = less.index_of(best->0);
            assert(table[k] == best->0);
        }
        match crate::roots::mount_around(host, table, root) {
            Some(x) => {
                assert forall|i: int|
                    0 <= i < table.len() && has_folder(
                        host,
                        #[trigger] table[i],
                        root,
                    ) implies vstd::utf8::encode_utf8(table[i].mountpoint).len()
                    <= vstd::utf8::encode_utf8(x.mountpoint).len() by {
                    if i < less.len() {
                        assert(less[i] == table[i]);
                    }
                }
            },
            None => {
                assert forall|i: int| 0 <= i < table.len() implies !has_folder(
                    host,
                    #[trigger] table[i],
                    root,
                ) by {
                    if i < less.len() {
                        assert(less[i] == table[i]);
                    }
                }
            },
        }
    }
}

/// Every folder that lies on a local mount has that mount scanned.
pub proof fn law_the_mounts_of_all_folders_are_selected(
    host: Host,
    roots: Seq<Seq<char>>,
    table: Seq<MountView>,
    i: int,
)
    requires
        0 <= i < roots.len(),
        crate::roots::mount_around(host, table, roots[i]) is Some,
        ({
            let fs = crate::roots::mount_around(host, table, roots[i])->0.fs;
            fs is Btrfs || fs is Ext4 || fs is Ntfs || fs is Zfs
        }),
    ensures
        exists|k: int|
            0 <= k < crate::roots::mounts_of(host, roots, table).len() && crate::host::path_parts(
                host,
                (#[trigger] crate::roots::mounts_of(host, roots, table)[k]).mountpoint,
            ) == crate::host::path_parts(
                host,
                crate::roots::mount_around(host, table, roots[i])->0.mountpoint,
            ),
    decreases roots.len(),
{
    let less = roots.drop_last();
    let front = crate::roots::mounts_of(host, less, table);
    let all = crate::roots::mounts_of(host, roots, table);
    let m = crate::roots::mount_around(host, table, roots[i])->0;
    if i < less.len() {
        assert(less[i] == roots[i]);
        law_the_mounts_of_all_folders_are_selected(host, less, table, i);
        let k = choose|k: int|
            0 <= k < front.len() && crate::host::path_parts(host, (#[trigger] front[k]).mountpoint)
                == crate::host::path_parts(host, m.mountpoint);
        assert(all[k] == front[k]);
    } else {
        assert(roots.last() == roots[i]);
        if crate::roots::has_mount(host, front, m.mountpoint) {
            let k = choose|k: int|
                0 <= k < front.len() && crate::host::same_path(
                    host,
                    (#[trigger] front[k]).mountpoint,
                    m.mountpoint,
                );
            assert(all[k] == front[k]);
        } else {
            assert(all[front.len() as int] == m);
        }
    }
}

/// A folder of Windows is kept without the prefix of extended paths, a share with its two
/// backslashes; other hosts keep it as it is.
pub proof fn law_extended_prefixes_are_dropped(rest: Seq<char>, root: Seq<char>)
    requires
        !"UNC\\"@.is_prefix_of(rest),
    ensures
        crate::roots::kept_root(Host::Windows, "\\\\?\\"@ + rest) == rest,
        crate::roots::kept_root(Host::Windows, "\\\\?\\UNC\\"@ + rest) == "\\\\"@ + rest,
        crate::roots::kept_root(Host::Linux, root) == root,
        crate::roots::kept_root(Host::MacOs, root) == root,
{
    reveal_strlit("UNC\\");
    reveal_strlit("\\\\?\\");
    reveal_strlit("\\\\?\\UNC\\");
    let (p, u) = ("\\\\?\\"@, "\\\\?\\UNC\\"@);
    let a = p + rest;
    let b = u + rest;
    assert(u =~= p + "UNC\\"@);
    if u.is_prefix_of(a) {
        assert(a.subrange(0, 8) == u);
        assert(rest.subrange(0, 4) =~= "UNC\\"@) by {
            assert forall|i: int| 0 <= i < 4 implies rest.subrange(0, 4)[i] == "UNC\\"@[i] by {
                assert(a.subrange(0, 8)[i + 4] == rest[i]);
                assert(u[i + 4] == "UNC\\"@[i]);
            }
        }
    }
    assert(a.subrange(0, 4) =~= p);
    assert(b.subrange(0, 8) =~= u);
    assert(a.skip(4) =~= rest);
    assert(b.skip(8) =~= rest);
}

/// Each of some mounts with a server is reported with that server.
pub proof fn law_servers_of_mounts_are_reported(ms: Seq<MountView>, i: int)
    requires
        0 <= i < ms.len(),
        ms[i].host is Some,
    ensures
        exists|k: int|
            0 <= k < crate::roots::servers_of(ms).len() && (
            #[trigger] crate::roots::servers_of(ms)[k]).host == ms[i].host->0
                && crate::roots::servers_of(ms)[k].key == ms[i].device + seq![':']
                + ms[i].mountpoint,
    decreases ms.len(),
{
    reveal_strlit(":");
    assert(":"@ =~= seq![':']);
    let less = ms.drop_last();
    let front = crate::roots::servers_of(less);
    let all = crate::roots::servers_of(ms);
    if i < less.len() {
        assert(less[i] == ms[i]);
        law_servers_of_mounts_are_reported(less, i);
        let k = choose|k: int|
            0 <= k < front.len() && (#[trigger] front[k]).host == ms[i].host->0 && front[k].key
                == ms[i].device + seq![':'] + ms[i].mountpoint;
        assert(all[k] == front[k]);
    } else {
        assert(all[front.len() as int].host == ms[i].host->0);
    }
}

// ---------------------------------------------------------------------------
// Scans

/// Every native filesystem is scanned by its own lane, and no lane walks a network mount.
pub proof fn law_lanes_scan_their_own_filesystems(host: Host, fs: FsView)
    ensures
        fs is Network ==> crate::lanes::lane_of(host, fs) is None,
        host == Host::Linux ==> match crate::lanes::lane_of(host, fs) {
            Some(Lane::Btrfs) => fs is Btrfs,
            Some(Lane::Ext4) => fs is Ext4,
            Some(Lane::Ntfs) => fs is Ntfs,
            Some(Lane::Zfs) => fs is Zfs,
            Some(Lane::MacOs) => false,
            None => fs is Network || fs is Unsupported,
        },
        host == Host::Windows ==> (crate::lanes::lane_of(host, fs) == (if fs is Ntfs {
            Some(Lane::Ntfs)
        } else {
            None
        })),
        host == Host::MacOs && !(fs is Network) ==> crate::lanes::lane_of(host, fs) == Some(
            Lane::MacOs,
        ),
{
}

/// Every record that lies in one of the folders and is not left out by default is sent.
pub proof fn law_every_approved_record_is_sent(
    host: Host,
    mountpoint: Seq<char>,
    roots: Seq<Seq<char>>,
    rs: Seq<RecordView>,
    i: int,
    k: int,
)
    requires
        0 <= i < rs.len(),
        0 <= k < roots.len(),
        crate::host::in_root(host, rs[i].path, roots[k]),
        !crate::lanes::excluded(host, mountpoint, rs[i].path),
    ensures
        crate::lanes::kept(host, mountpoint, roots, rs).contains(rs[i]),
    decreases rs.len(),
{
    let less = rs.drop_last();
    let front = crate::lanes::kept(host, mountpoint, roots, less);
    let all = crate::lanes::kept(host, mountpoint, roots, rs);
    if i < less.len() {
        assert(less[i] == rs[i]);
        law_every_approved_record_is_sent(host, mountpoint, roots, less, i, k);
        let j = front.index_of(rs[i]);
        assert(all[j] == rs[i]);
    } else {
        assert(crate::lanes::keeps(host, mountpoint, roots, rs.last().path));
        assert(all[front.len() as int] == rs[i]);
    }
}

/// By default snapshots of a mount are left out, and below the top the pseudo filesystems of
/// the kernel; nothing else.
pub proof fn law_snapshots_and_pseudo_files_are_left_out(mountpoint: Seq<char>, path: Seq<char>)
    ensures
        ({
            let m = crate::host::path_parts(Host::Linux, mountpoint);
            let p = crate::host::path_parts(Host::Linux, path);
            let top = crate::host::path_parts(Host::Linux, "/"@);
            let proc_parts = crate::host::path_parts(Host::Linux, "/proc"@);
            let sys = crate::host::path_parts(Host::Linux, "/sys"@);
            crate::lanes::excluded(Host::Linux, mountpoint, path) <==> (m.push(
                ".snapshots"@,
            ).is_prefix_of(p) || (m == top && (proc_parts.is_prefix_of(p) || sys.is_prefix_of(p))))
        }),
{
}

/// The batches of a scan hold its records in order, each once; no batch is empty or larger than
/// a message takes.
pub proof fn law_batches_hold_every_record_once(rs: Seq<RecordView>, k: int)
    ensures
        0 <= k < rs.len() ==> k / 1024 < crate::lanes::batched(rs).len() && 0 <= k % 1024
            < crate::lanes::batched(rs)[k / 1024].len() && crate::lanes::batched(rs)[k / 1024][k
            % 1024] == rs[k],
        0 <= k < crate::lanes::batched(rs).len() ==> 0 < crate::lanes::batched(rs)[k].len() <= 1024
            && (k + 1 < crate::lanes::batched(rs).len() ==> crate::lanes::batched(rs)[k].len()
            == 1024),
        rs.len() == 0 ==> crate::lanes::batched(rs).len() == 0,
{
    let bs = crate::lanes::batched(rs);
    let n = rs.len();
    if 0 <= k < n {
        let i = k / 1024;
        assert(i < (n + 1023) / 1024);
        let b = crate::lanes::batch_of(rs, i);
        assert(b[k % 1024] == rs[1024 * i + k % 1024]);
    }
}

/// A drive is scanned where it is fixed or removable and has NTFS.
pub proof fn law_ntfs_drives_are_scanned(root: Seq<u16>, kind: u32, filesystem: Seq<u16>)
    ensures
        ({
            let name = crate::text::utf16_text(
                filesystem.take(crate::lanes::zero_at(filesystem)),
            );
            match crate::lanes::windows_mount_of(root, kind, filesystem) {
                Some(m) => (kind == 2 || kind == 3) && crate::text::ascii_lower_all(name)
                    == "ntfs"@ && m.fs is Ntfs && m.mountpoint == crate::text::utf16_text(root)
                    && m.host is None,
                None => (kind != 2 && kind != 3) || crate::text::ascii_lower_all(name) != "ntfs"@,
            }
        }),
{
}

// ---------------------------------------------------------------------------
// Families

/// Every type of filesystem belongs to one family: those that are scanned natively, those of
/// servers, which keep their names, and all others.
#[verifier::rlimit(40)]
pub proof fn law_types_belong_to_families(t: Seq<char>)
    ensures
        ({
            let fs = crate::mounts::fs_of(t);
            &&& fs is Btrfs ==> t == "btrfs"@
            &&& fs is Ext4 ==> t == "ext4"@ || t == "ext3"@ || t == "ext2"@
            &&& fs is Ntfs ==> t == "ntfs"@ || t == "ntfs3"@ || t == "ntfs-3g"@ || t == "fuseblk"@
            &&& fs is Zfs ==> t == "zfs"@
            &&& fs is Network ==> fs->Network_0 == t && (t == "nfs"@ || t == "nfs4"@ || t == "cifs"@
                || t == "smb3"@ || t == "smbfs"@ || t == "sshfs"@ || t == "fuse.sshfs"@ || t
                == "9p"@ || t == "virtiofs"@ || t == "glusterfs"@ || t == "ceph"@ || t
                == "fuse.ceph"@)
            &&& fs is Unsupported ==> fs->Unsupported_0 == t && t != "btrfs"@ && t != "ext4"@ && t
                != "ext3"@ && t != "ext2"@ && t != "ntfs"@ && t != "ntfs3"@ && t != "ntfs-3g"@ && t
                != "fuseblk"@ && t != "zfs"@ && t != "nfs"@ && t != "nfs4"@ && t != "cifs"@ && t
                != "smb3"@ && t != "smbfs"@ && t != "sshfs"@ && t != "fuse.sshfs"@ && t != "9p"@
                && t != "virtiofs"@ && t != "glusterfs"@ && t != "ceph"@ && t != "fuse.ceph"@
            &&& crate::mounts::indexable(fs) <==> !(fs is Network) && !(fs is Unsupported)
        }),
        crate::mounts::label_of(FsView::Btrfs) == "btrfs"@,
        crate::mounts::label_of(FsView::Ext4) == "ext4"@,
        crate::mounts::label_of(FsView::Ntfs) == "ntfs"@,
        crate::mounts::label_of(FsView::Zfs) == "zfs"@,
        crate::mounts::label_of(FsView::Network(t)) == "net:"@ + t,
        crate::mounts::label_of(FsView::Unsupported(t)) == t,
{
}

} // verus!
