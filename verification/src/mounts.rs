//! Filesystem families, and the mounts that a kernel mount table lists.

use crate::host::Host;
use crate::text::Separator;
use vstd::prelude::*;

verus! {

/// Filesystem families with a native metadata lane, and the others.
#[derive(Debug, PartialEq, Eq, Hash)]
pub enum FsKind {
    Btrfs,
    Ext4,
    Ntfs,
    Zfs,
    /// Network mount (nfs, cifs/smb, sshfs, ...). Never indexed client-side; handled
    /// by provisioning a remote helper.
    Network(String),
    /// Anything else: not indexable without walking, therefore unsupported.
    Unsupported(String),
}

/// A filesystem family as a mathematical value.
#[verifier::ext_equal]
pub enum FsView {
    Btrfs,
    Ext4,
    Ntfs,
    Zfs,
    Network(Seq<char>),
    Unsupported(Seq<char>),
}

impl View for FsKind {
    type V = FsView;

    open spec fn view(&self) -> FsView {
        match self {
            FsKind::Btrfs => FsView::Btrfs,
            FsKind::Ext4 => FsView::Ext4,
            FsKind::Ntfs => FsView::Ntfs,
            FsKind::Zfs => FsView::Zfs,
            FsKind::Network(n) => FsView::Network(n@),
            FsKind::Unsupported(n) => FsView::Unsupported(n@),
        }
    }
}

/// The names of network filesystems.
pub open spec fn is_network_type(t: Seq<char>) -> bool {
    ||| t == "nfs"@
    ||| t == "nfs4"@
    ||| t == "cifs"@
    ||| t == "smb3"@
    ||| t == "smbfs"@
    ||| t == "sshfs"@
    ||| t == "fuse.sshfs"@
    ||| t == "9p"@
    ||| t == "virtiofs"@
    ||| t == "glusterfs"@
    ||| t == "ceph"@
    ||| t == "fuse.ceph"@
}

/// The family of a filesystem type name.
pub open spec fn fs_of(t: Seq<char>) -> FsView {
    if t == "btrfs"@ {
        FsView::Btrfs
    } else if t == "ext4"@ || t == "ext3"@ || t == "ext2"@ {
        FsView::Ext4
    } else if t == "ntfs"@ || t == "ntfs3"@ || t == "ntfs-3g"@ || t == "fuseblk"@ {
        FsView::Ntfs
    } else if t == "zfs"@ {
        FsView::Zfs
    } else if is_network_type(t) {
        FsView::Network(t)
    } else {
        FsView::Unsupported(t)
    }
}

/// How a family is shown.
pub open spec fn label_of(fs: FsView) -> Seq<char> {
    match fs {
        FsView::Btrfs => "btrfs"@,
        FsView::Ext4 => "ext4"@,
        FsView::Ntfs => "ntfs"@,
        FsView::Zfs => "zfs"@,
        FsView::Network(n) => "net:"@ + n,
        FsView::Unsupported(n) => n,
    }
}

/// Families that a lane on this machine can scan.
pub open spec fn indexable(fs: FsView) -> bool {
    fs is Btrfs || fs is Ext4 || fs is Ntfs || fs is Zfs
}

impl FsKind {
    /// The family of a filesystem type name.
    pub fn from_fstype(fstype: &str) -> (r: FsKind)
        ensures
            r@ == fs_of(fstype@),
    {
        let is = |name: &str| -> (b: bool)
            ensures
                b == (fstype@ == name@),
            { crate::text::same_text(fstype, name) };
        if is("btrfs") {
            FsKind::Btrfs
        } else if is("ext4") || is("ext3") || is("ext2") {
            FsKind::Ext4
        } else if is("ntfs") || is("ntfs3") || is("ntfs-3g") || is("fuseblk") {
            FsKind::Ntfs
        } else if is("zfs") {
            FsKind::Zfs
        } else if is("nfs") || is("nfs4") || is("cifs") || is("smb3") || is("smbfs") || is("sshfs")
            || is("fuse.sshfs") || is("9p") || is("virtiofs") || is("glusterfs") || is("ceph") || is(
            "fuse.ceph",
        ) {
            FsKind::Network(fstype.to_owned())
        } else {
            FsKind::Unsupported(fstype.to_owned())
        }
    }

    /// How the family is shown.
    pub fn label(&self) -> (r: String)
        ensures
            r@ == label_of(self@),
    {
        match self {
            FsKind::Btrfs => "btrfs".to_owned(),
            FsKind::Ext4 => "ext4".to_owned(),
            FsKind::Ntfs => "ntfs".to_owned(),
            FsKind::Zfs => "zfs".to_owned(),
            FsKind::Network(n) => crate::text::joined("net:", n.as_str()),
            FsKind::Unsupported(n) => n.clone(),
        }
    }

    /// Whether a lane on this machine can scan it.
    pub fn is_indexable_local(&self) -> (r: bool)
        ensures
            r == indexable(self@),
    {
        match self {
            FsKind::Btrfs => true,
            FsKind::Ext4 => true,
            FsKind::Ntfs => true,
            FsKind::Zfs => true,
            FsKind::Network(_) => false,
            FsKind::Unsupported(_) => false,
        }
    }

    /// Whether two families are the same.
    pub fn same(&self, other: &FsKind) -> (r: bool)
        ensures
            r == (self@ == other@),
    {
        match (self, other) {
            (FsKind::Btrfs, FsKind::Btrfs) => true,
            (FsKind::Ext4, FsKind::Ext4) => true,
            (FsKind::Ntfs, FsKind::Ntfs) => true,
            (FsKind::Zfs, FsKind::Zfs) => true,
            (FsKind::Network(a), FsKind::Network(b)) => crate::text::same_text(
                a.as_str(),
                b.as_str(),
            ),
            (FsKind::Unsupported(a), FsKind::Unsupported(b)) => crate::text::same_text(
                a.as_str(),
                b.as_str(),
            ),
            _ => false,
        }
    }
}

impl Clone for FsKind {
    fn clone(&self) -> (r: FsKind)
        ensures
            r@ == self@,
    {
        match self {
            FsKind::Btrfs => FsKind::Btrfs,
            FsKind::Ext4 => FsKind::Ext4,
            FsKind::Ntfs => FsKind::Ntfs,
            FsKind::Zfs => FsKind::Zfs,
            FsKind::Network(n) => FsKind::Network(n.clone()),
            FsKind::Unsupported(n) => FsKind::Unsupported(n.clone()),
        }
    }
}

// ---------------------------------------------------------------------------
// Mounts

/// Where a mount's index comes from.
#[derive(Debug, PartialEq, Eq)]
pub enum MountSource {
    /// Local privileged scan of a block device or local filesystem.
    Local,
    /// Remote helper reached over SSH because this is a network mount.
    Remote { host: String },
}

/// One mounted filesystem worth indexing.
#[derive(Debug)]
pub struct MountInfo {
    /// Block device or network specification as shown by the kernel.
    pub device: String,
    pub mountpoint: String,
    pub fs: FsKind,
    pub source: MountSource,
}

/// A mount as a mathematical value. `host` is the server of a remote source.
#[verifier::ext_equal]
pub struct MountView {
    pub device: Seq<char>,
    pub mountpoint: Seq<char>,
    pub fs: FsView,
    pub host: Option<Seq<char>>,
}

impl View for MountSource {
    type V = Option<Seq<char>>;

    open spec fn view(&self) -> Option<Seq<char>> {
        match self {
            MountSource::Local => None,
            MountSource::Remote { host } => Some(host@),
        }
    }
}

impl View for MountInfo {
    type V = MountView;

    open spec fn view(&self) -> MountView {
        MountView {
            device: self.device@,
            mountpoint: self.mountpoint@,
            fs: self.fs@,
            host: self.source@,
        }
    }
}

impl Clone for MountSource {
    fn clone(&self) -> (r: MountSource)
        ensures
            r@ == self@,
    {
        match self {
            MountSource::Local => MountSource::Local,
            MountSource::Remote { host } => MountSource::Remote { host: host.clone() },
        }
    }
}

impl Clone for MountInfo {
    fn clone(&self) -> (r: MountInfo)
        ensures
            r@ == self@,
    {
        MountInfo {
            device: self.device.clone(),
            mountpoint: self.mountpoint.clone(),
            fs: self.fs.clone(),
            source: self.source.clone(),
        }
    }
}

/// Mounts as mathematical values.
pub open spec fn mount_views(ms: Seq<MountInfo>) -> Seq<MountView> {
    Seq::new(ms.len(), |i: int| ms[i]@)
}

/// The text without any `//` in front.
pub open spec fn without_slashes(s: Seq<char>) -> Seq<char>
    decreases s.len(),
{
    if s.len() >= 2 && s[0] == '/' && s[1] == '/' {
        without_slashes(s.skip(2))
    } else {
        s
    }
}

/// The server in a network specification: `server:/export` gives `server`, `//win/share`
/// gives `win`, `user@host:/path` gives `host`, and `//user:word@win/share` gives `win`. What
/// stands behind the next slash is not looked at.
pub open spec fn host_of(device: Seq<char>) -> Option<Seq<char>> {
    let d = without_slashes(device);
    let a = d.take(crate::text::first_index(d, Separator::Char('/')));
    let e = a.skip(crate::text::last_index(a, '@') + 1);
    let host = e.take(crate::text::first_index(e, Separator::Char(':')));
    if host.len() == 0 {
        None
    } else {
        Some(host)
    }
}

fn slashes_in_front(s: &[char]) -> (n: usize)
    ensures
        n <= s@.len(),
        s@.skip(n as int) == without_slashes(s@),
{
    let len: usize = s.len();
    let mut i: usize = 0;
    assert(s@.skip(0) =~= s@);
    while len - i >= 2 && s[i] == '/' && s[i + 1] == '/'
        invariant
            i <= len == s@.len(),
            without_slashes(s@.skip(i as int)) == without_slashes(s@),
        decreases len - i,
    {
        assert(s@.skip(i as int).skip(2) =~= s@.skip(i + 2));
        i += 2;
    }
    i
}

/// The server in a network specification.
pub fn device_host(device: &str) -> (r: Option<String>)
    ensures
        match r {
            Some(h) => host_of(device@) == Some(h@),
            None => host_of(device@) is None,
        },
{
    let all = crate::text::chars_of(device);
    let n: usize = slashes_in_front(all.as_slice());
    let d = crate::text::part(all.as_slice(), n, all.len());
    assert(d@ =~= without_slashes(device@));
    let end: usize = crate::text::find_first(d.as_slice(), Separator::Char('/'));
    let a = crate::text::part(d.as_slice(), 0, end);
    assert(a@ =~= d@.take(end as int));
    proof {
        crate::text::lemma_last_index(a@, '@');
    }
    let from: usize = match crate::text::rfind(a.as_slice(), '@') {
        Some(i) => i + 1,
        None => 0,
    };
    let e = crate::text::part(a.as_slice(), from, a.len());
    assert(e@ =~= a@.skip(crate::text::last_index(a@, '@') + 1));
    let stop: usize = crate::text::find_first(e.as_slice(), Separator::Char(':'));
    let host = crate::text::part(e.as_slice(), 0, stop);
    assert(host@ =~= e@.take(stop as int));
    if host.len() == 0 {
        None
    } else {
        Some(crate::text::string_of(host.as_slice()))
    }
}

impl MountInfo {
    /// The server of a network mount.
    pub fn network_host(&self) -> (r: Option<String>)
        ensures
            match r {
                Some(h) => host_of(self@.device) == Some(h@),
                None => host_of(self@.device) is None,
            },
    {
        device_host(self.device.as_str())
    }
}

// ---------------------------------------------------------------------------
// The mount table

/// A device name with the kernel's octal escapes undone, in this order: space, tab,
/// newline, backslash.
pub open spec fn unescaped(s: Seq<char>) -> Seq<char> {
    let a = crate::text::replace_text(s, "\\040"@, " "@);
    let b = crate::text::replace_text(a, "\\011"@, "\t"@);
    let c = crate::text::replace_text(b, "\\012"@, "\n"@);
    crate::text::replace_text(c, "\\134"@, "\\"@)
}

/// A mount point with its escaped spaces undone.
pub open spec fn spaced(s: Seq<char>) -> Seq<char> {
    crate::text::replace_text(s, "\\040"@, " "@)
}

/// The mount that a line of the mount table describes. Lines of pseudo and unsupported
/// filesystems describe none, nor do network mounts without a server.
pub open spec fn mount_in_line(line: Seq<char>) -> Option<MountView> {
    match crate::text::first_occurrence(line, " - "@) {
        None => None,
        Some(at) => {
            let pre = crate::text::words(line.take(at), Separator::Space);
            let post = crate::text::words(line.skip(at + 3), Separator::Space);
            if post.len() < 2 || pre.len() < 5 || fs_of(post[0]) is Unsupported {
                None
            } else {
                let fs = fs_of(post[0]);
                let device = unescaped(post[1]);
                if fs is Network && host_of(device) is None {
                    None
                } else {
                    Some(
                        MountView {
                            device,
                            mountpoint: spaced(pre[4]),
                            fs,
                            host: if fs is Network {
                                host_of(device)
                            } else {
                                None
                            },
                        },
                    )
                }
            }
        },
    }
}

/// The mounts that some lines describe, in the order of the lines.
pub open spec fn mounts_in_lines(lines: Seq<Seq<char>>) -> Seq<MountView>
    decreases lines.len(),
{
    if lines.len() == 0 {
        Seq::empty()
    } else {
        let front = mounts_in_lines(lines.drop_last());
        match mount_in_line(lines.last()) {
            Some(m) => front.push(m),
            None => front,
        }
    }
}

/// A component marked so that a prefix of Windows comes first, then the top, a dot, two dots
/// and names.
pub open spec fn marked_part(host: Host, part: Seq<char>) -> Seq<char> {
    if part == seq!['/'] {
        seq!['\u{1}']
    } else if part == seq!['.'] {
        seq!['\u{2}']
    } else if part == seq!['.', '.'] {
        seq!['\u{3}']
    } else if host == Host::Windows && part.len() > 0 && part[0] == '\\' {
        seq!['\0'] + part
    } else {
        seq!['\u{4}'] + part
    }
}

/// Components with their marks.
pub open spec fn marked_parts(host: Host, parts: Seq<Seq<char>>) -> Seq<Seq<char>> {
    Seq::new(parts.len(), |i: int| marked_part(host, parts[i]))
}

/// What mount points are ordered by: their components, one after the other, set apart by
/// the lowest byte.
pub open spec fn mount_key(host: Host, mountpoint: Seq<char>) -> Seq<u8> {
    vstd::utf8::encode_utf8(
        crate::text::join(marked_parts(host, crate::host::path_parts(host, mountpoint)), '\0'),
    )
}

/// The keys of some mounts.
pub open spec fn mount_keys(ms: Seq<MountView>) -> Seq<Seq<u8>> {
    Seq::new(ms.len(), |i: int| mount_key(Host::Linux, ms[i].mountpoint))
}

/// Mounts in descending order of their mount points, so that an inner mount comes before
/// the one around it.
pub open spec fn innermost_first(ms: Seq<MountView>, r: Seq<MountView>) -> bool {
    exists|order: Seq<usize>|
        #[trigger] crate::order::is_key_order(mount_keys(ms), true, order) && r
            == crate::rank::picked(ms, order)
}

fn undo_escapes(s: &[char]) -> (r: Vec<char>)
    ensures
        r@ == unescaped(s@),
{
    proof {
        reveal_strlit("\\040");
        reveal_strlit("\\011");
        reveal_strlit("\\012");
        reveal_strlit("\\134");
    }
    let a = crate::text::replaced_text(s, "\\040", " ");
    let b = crate::text::replaced_text(a.as_slice(), "\\011", "\t");
    let c = crate::text::replaced_text(b.as_slice(), "\\012", "\n");
    crate::text::replaced_text(c.as_slice(), "\\134", "\\")
}

/// The mount that a line of the mount table describes.
pub fn parse_mount_line(line: &[char]) -> (r: Option<MountInfo>)
    ensures
        match r {
            Some(m) => mount_in_line(line@) == Some(m@),
            None => mount_in_line(line@) is None,
        },
{
    proof {
        reveal_strlit(" - ");
        reveal_strlit("\\040");
    }
    let mark = crate::text::chars_of(" - ");
    let at: usize = match crate::text::find_chars(line, mark.as_slice()) {
        Some(i) => i,
        None => {
            return None;
        },
    };
    let n: usize = line.len();
    let front = crate::text::part(line, 0, at);
    let back = crate::text::part(line, at + 3, n);
    assert(front@ =~= line@.take(at as int));
    assert(back@ =~= line@.skip(at + 3));
    let pre = crate::text::split_words(front.as_slice(), Separator::Space);
    let post = crate::text::split_words(back.as_slice(), Separator::Space);
    let ghost pres = crate::text::texts(pre@);
    let ghost posts = crate::text::texts(post@);
    if post.len() < 2 {
        return None;
    }
    let fstype = crate::text::string_of(post[0].as_slice());
    assert(fstype@ == posts[0]);
    let fs = FsKind::from_fstype(fstype.as_str());
    if let FsKind::Unsupported(_) = fs {
        return None;
    }
    if pre.len() < 5 {
        return None;
    }
    assert(post@[1]@ == posts[1]);
    assert(pre@[4]@ == pres[4]);
    let device = crate::text::string_of(undo_escapes(post[1].as_slice()).as_slice());
    let place = crate::text::replaced_text(pre[4].as_slice(), "\\040", " ");
    let mountpoint = crate::text::string_of(place.as_slice());
    if let FsKind::Network(_) = fs {
        match device_host(device.as_str()) {
            None => None,
            Some(host) => Some(
                MountInfo { device, mountpoint, fs, source: MountSource::Remote { host } },
            ),
        }
    } else {
        Some(MountInfo { device, mountpoint, fs, source: MountSource::Local })
    }
}

fn mark_part(host: Host, part: &[char]) -> (r: Vec<char>)
    ensures
        r@ == marked_part(host, part@),
{
    let n: usize = part.len();
    proof {
        if n == 1 {
            assert(part@ =~= seq![part@[0]]);
        }
        if n == 2 {
            assert(part@ =~= seq![part@[0], part@[1]]);
        }
        assert(seq!['/'][0] == '/' && seq!['.'][0] == '.');
        assert(seq!['.', '.'][0] == '.' && seq!['.', '.'][1] == '.');
    }
    let mut out: Vec<char> = Vec::new();
    if n == 1 && part[0] == '/' {
        out.push('\u{1}');
    } else if n == 1 && part[0] == '.' {
        out.push('\u{2}');
    } else if n == 2 && part[0] == '.' && part[1] == '.' {
        out.push('\u{3}');
    } else if host == Host::Windows && n > 0 && part[0] == '\\' {
        out.push('\0');
        crate::text::push_all(&mut out, part);
    } else {
        out.push('\u{4}');
        crate::text::push_all(&mut out, part);
    }
    assert(out@ =~= marked_part(host, part@));
    out
}

/// What a mount point is ordered by.
pub fn key_of(host: Host, mountpoint: &str) -> (r: Vec<u8>)
    ensures
        r@ == mount_key(host, mountpoint@),
{
    let chars = crate::text::chars_of(mountpoint);
    let parts = crate::host::parts_of(host, chars.as_slice());
    let ghost views = crate::host::path_parts(host, mountpoint@);
    let mut marked: Vec<Vec<char>> = Vec::new();
    let mut i: usize = 0;
    while i < parts.len()
        invariant
            i <= parts@.len(),
            views == crate::text::texts(parts@),
            marked@.len() == i,
            forall|k: int| 0 <= k < i ==> (#[trigger] marked@[k])@ == marked_part(host, views[k]),
        decreases parts@.len() - i,
    {
        assert(views[i as int] == parts@[i as int]@);
        marked.push(mark_part(host, parts[i].as_slice()));
        i += 1;
    }
    assert(crate::text::texts(marked@) =~= marked_parts(host, views));
    let joined = crate::text::join_parts(marked.as_slice(), '\0');
    let text = crate::text::string_of(joined.as_slice());
    crate::bytes::to_vec(text.as_str().as_bytes())
}

/// Puts mounts in descending order of their mount points.
pub fn sort_innermost_first(ms: Vec<MountInfo>) -> (r: Vec<MountInfo>)
    ensures
        innermost_first(mount_views(ms@), mount_views(r@)),
{
    let ghost views = mount_views(ms@);
    let mut keys: Vec<Vec<u8>> = Vec::new();
    let mut i: usize = 0;
    while i < ms.len()
        invariant
            i <= ms@.len(),
            keys@.len() == i,
            views == mount_views(ms@),
            forall|k: int| 0 <= k < i ==> (#[trigger] keys@[k])@ == mount_keys(views)[k],
        decreases ms@.len() - i,
    {
        keys.push(key_of(Host::Linux, ms[i].mountpoint.as_str()));
        i += 1;
    }
    assert(crate::order::key_views(keys@) =~= mount_keys(views));
    let order = crate::order::key_order(&keys, true);
    let ghost given = ms@;
    let r = crate::order::arranged(ms, &order);
    proof {
        assert forall|k: int| 0 <= k < order@.len() implies (#[trigger] order@[k])
            < given.len() by {}
        assert(mount_views(r@) =~= crate::rank::picked(views, order@));
    }
    r
}

/// The indexable and the network mounts of a mount table. Pseudo filesystems are left out:
/// they are not user data.
pub fn parse_mountinfo(raw: &str) -> (r: Vec<MountInfo>)
    ensures
        innermost_first(mounts_in_lines(crate::text::lines(raw@)), mount_views(r@)),
{
    let chars = crate::text::chars_of(raw);
    let lines = crate::text::split_lines(chars.as_slice());
    let ghost texts = crate::text::texts(lines@);
    let mut out: Vec<MountInfo> = Vec::new();
    let mut i: usize = 0;
    assert(mount_views(out@) =~= mounts_in_lines(texts.take(0)));
    while i < lines.len()
        invariant
            i <= lines@.len(),
            texts == crate::text::texts(lines@),
            mount_views(out@) == mounts_in_lines(texts.take(i as int)),
        decreases lines@.len() - i,
    {
        proof {
            assert(texts.take(i + 1).drop_last() =~= texts.take(i as int));
            assert(texts.take(i + 1).last() == lines@[i as int]@);
        }
        let ghost before = out@;
        if let Some(m) = parse_mount_line(lines[i].as_slice()) {
            out.push(m);
            assert(mount_views(out@) =~= mount_views(before).push(m@));
        }
        i += 1;
    }
    assert(texts.take(i as int) =~= texts);
    sort_innermost_first(out)
}

/// Fewer of the same parts make the front of what more of them make.
proof fn lemma_joined_front(a: Seq<Seq<char>>, b: Seq<Seq<char>>, sep: char)
    requires
        a.is_prefix_of(b),
    ensures
        crate::text::join(a, sep).is_prefix_of(crate::text::join(b, sep)),
        0 < a.len() < b.len() ==> crate::text::join(a, sep).len() < crate::text::join(b, sep).len(),
    decreases b.len(),
{
    if a.len() < b.len() {
        assert(a.is_prefix_of(b.drop_last()));
        lemma_joined_front(a, b.drop_last(), sep);
        if b.len() == 1 {
            assert(a =~= Seq::empty());
        }
    } else {
        assert(a =~= b);
    }
}

/// A mount point inside another comes before it.
pub proof fn law_inner_mounts_come_first(
    ms: Seq<MountView>,
    r: Seq<MountView>,
    i: int,
    j: int,
)
    requires
        innermost_first(ms, r),
        0 <= i < r.len(),
        0 <= j < r.len(),
        crate::host::path_starts_with(Host::Linux, r[i].mountpoint, r[j].mountpoint),
        !crate::host::same_path(Host::Linux, r[i].mountpoint, r[j].mountpoint),
        crate::host::path_parts(Host::Linux, r[j].mountpoint).len() > 0,
    ensures
        i < j,
{
    let order = choose|order: Seq<usize>|
        #[trigger] crate::order::is_key_order(mount_keys(ms), true, order) && r
            == crate::rank::picked(ms, order);
    let keys = mount_keys(ms);
    let (a, b) = (keys[order[i] as int], keys[order[j] as int]);
    let p = crate::host::path_parts(Host::Linux, r[i].mountpoint);
    let q = crate::host::path_parts(Host::Linux, r[j].mountpoint);
    if q.len() == p.len() {
        assert(q =~= p);
    }
    let (mp, mq) = (marked_parts(Host::Linux, p), marked_parts(Host::Linux, q));
    assert(mq.is_prefix_of(mp)) by {
        assert(mq =~= mp.take(mq.len() as int));
    }
    lemma_joined_front(mq, mp, '\0');
    let (jp, jq) = (crate::text::join(mp, '\0'), crate::text::join(mq, '\0'));
    let rest = jp.skip(jq.len() as int);
    assert(jp =~= jq + rest);
    crate::text::lemma_encoded_in_a_row(jq, rest);
    assert(a == vstd::utf8::encode_utf8(jp));
    assert(b == vstd::utf8::encode_utf8(jq));
    assert(vstd::utf8::encode_utf8(rest).len() > 0) by {
        assert(rest.len() > 0);
    }
    assert(b.is_prefix_of(a));
    crate::order::lemma_prefix_first(b, a);
    if j < i {
        assert(crate::order::comes_first(keys, true, order[j] as int, order[i] as int));
        crate::order::lemma_lex_irreflexive(a);
        crate::order::lemma_lex_irreflexive(b);
        if crate::order::lex_lt(a, b) {
            crate::order::lemma_lex_transitive(a, b, a);
        }
    }
}

} // verus!
