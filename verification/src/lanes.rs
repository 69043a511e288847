//! Which lane scans a mount, which of its records are kept, and what local mounts the
//! other hosts report.

use crate::host::Host;
use crate::mounts::{FsKind, FsView, MountInfo, MountSource, MountView};
use crate::requests::RECORD_BATCH;
use crate::text::Separator;
use crate::types::{FileKind, FileRecord, RecordView, ScanStats};
use vstd::prelude::*;

verus! {

/// The native way to read the metadata of a filesystem.
#[derive(Debug, Clone, Copy, PartialEq, Eq, Structural)]
pub enum Lane {
    Btrfs,
    Ext4,
    Ntfs,
    Zfs,
    MacOs,
}

/// The name of a host in messages.
pub open spec fn host_name(host: Host) -> Seq<char> {
    match host {
        Host::Linux => "linux"@,
        Host::MacOs => "macos"@,
        Host::Windows => "windows"@,
    }
}

/// The name of a host in messages.
pub fn host_label(host: Host) -> (r: &'static str)
    ensures
        r@ == host_name(host),
{
    match host {
        Host::Linux => "linux",
        Host::MacOs => "macos",
        Host::Windows => "windows",
    }
}

/// The lane of a filesystem, if the host has one.
pub open spec fn lane_of(host: Host, fs: FsView) -> Option<Lane> {
    match (host, fs) {
        (_, FsView::Network(_)) => None,
        (Host::MacOs, _) => Some(Lane::MacOs),
        (Host::Linux, FsView::Btrfs) => Some(Lane::Btrfs),
        (Host::Linux, FsView::Ext4) => Some(Lane::Ext4),
        (Host::Linux, FsView::Ntfs) => Some(Lane::Ntfs),
        (Host::Linux, FsView::Zfs) => Some(Lane::Zfs),
        (Host::Windows, FsView::Ntfs) => Some(Lane::Ntfs),
        _ => None,
    }
}

/// Why there is no lane.
pub open spec fn no_lane_text(host: Host, fs: FsView) -> Seq<char> {
    if fs is Network {
        "network mounts are indexed by provisioning a helper on the server, not scanned locally"@
    } else {
        "no native metadata lane for filesystem '"@ + crate::mounts::label_of(fs) + "' on "@
            + host_name(host) + " \u{2014} refusing to walk"@
    }
}

/// Routes a mount to its native lane. Unsupported combinations are errors, never a silent
/// fallback to walking.
pub fn dispatch_lane(host: Host, fs: &FsKind) -> (r: Result<Lane, String>)
    ensures
        match r {
            Ok(l) => lane_of(host, fs@) == Some(l),
            Err(e) => lane_of(host, fs@) is None && e@ == no_lane_text(host, fs@),
        },
{
    match fs {
        FsKind::Network(_) => {
            return Err(
                "network mounts are indexed by provisioning a helper on the server, not scanned locally".to_owned(),
            );
        },
        _ => {},
    }
    match host {
        Host::MacOs => {
            return Ok(Lane::MacOs);
        },
        Host::Linux => match fs {
            FsKind::Btrfs => {
                return Ok(Lane::Btrfs);
            },
            FsKind::Ext4 => {
                return Ok(Lane::Ext4);
            },
            FsKind::Ntfs => {
                return Ok(Lane::Ntfs);
            },
            FsKind::Zfs => {
                return Ok(Lane::Zfs);
            },
            _ => {},
        },
        Host::Windows => match fs {
            FsKind::Ntfs => {
                return Ok(Lane::Ntfs);
            },
            _ => {},
        },
    }
    let label = fs.label();
    let head = crate::text::joined3(
        "no native metadata lane for filesystem '",
        label.as_str(),
        "' on ",
    );
    Err(crate::text::joined3(head.as_str(), host_label(host), " \u{2014} refusing to walk"))
}

// ---------------------------------------------------------------------------
// Records of a scan

/// The path is left out by default: a snapshot directory of the mount, or a pseudo
/// filesystem below the top.
pub open spec fn excluded(host: Host, mountpoint: Seq<char>, path: Seq<char>) -> bool {
    let p = crate::host::path_parts(host, path);
    ||| (crate::host::path_parts(host, mountpoint).push(".snapshots"@)).is_prefix_of(p)
    ||| crate::host::same_path(host, mountpoint, "/"@) && (crate::host::path_starts_with(host, path, "/proc"@)
        || crate::host::path_starts_with(host, path, "/sys"@))
}

/// Whether the path is left out by default.
pub fn default_path_excluded(host: Host, mountpoint: &str, path: &str) -> (r: bool)
    ensures
        r == excluded(host, mountpoint@, path@),
{
    let chars = crate::text::chars_of(path);
    let point = crate::text::chars_of(mountpoint);
    let parts = crate::host::parts_of(host, chars.as_slice());
    let base = crate::host::parts_of(host, point.as_slice());
    let n: usize = base.len();
    let ghost p = crate::host::path_parts(host, path@);
    let ghost m = crate::host::path_parts(host, mountpoint@);
    let below: bool = crate::host::begins_with(host, chars.as_slice(), point.as_slice());
    if below && parts.len() > n {
        let name = crate::text::chars_of(".snapshots");
        assert(p[n as int] == parts@[n as int]@);
        if crate::text::same_chars(parts[n].as_slice(), name.as_slice()) {
            assert(p.subrange(0, n + 1) =~= m.push(".snapshots"@));
            return true;
        }
    }
    proof {
        let q = m.push(".snapshots"@);
        if q.is_prefix_of(p) {
            assert(m =~= p.subrange(0, n as int)) by {
                assert(p.subrange(0, n + 1) == q);
                assert forall|k: int| 0 <= k < n implies m[k] == p[k] by {
                    assert(p.subrange(0, n + 1)[k] == q[k]);
                }
            }
            assert(p[n as int] == p.subrange(0, n + 1)[n as int]);
            assert(false);
        }
    }
    let proc_dir = crate::text::chars_of("/proc");
    let sys_dir = crate::text::chars_of("/sys");
    crate::host::same(host, mountpoint, "/") && (crate::host::begins_with(
        host,
        chars.as_slice(),
        proc_dir.as_slice(),
    ) || crate::host::begins_with(host, chars.as_slice(), sys_dir.as_slice()))
}

/// The record is kept: it is not left out by default and lies in one of the roots.
pub open spec fn keeps(host: Host, mountpoint: Seq<char>, roots: Seq<Seq<char>>, path: Seq<char>) -> bool {
    !excluded(host, mountpoint, path) && exists|i: int|
        0 <= i < roots.len() && crate::host::in_root(host, path, #[trigger] roots[i])
}

/// The records that are kept, in order.
pub open spec fn kept(
    host: Host,
    mountpoint: Seq<char>,
    roots: Seq<Seq<char>>,
    rs: Seq<RecordView>,
) -> Seq<RecordView>
    decreases rs.len(),
{
    if rs.len() == 0 {
        Seq::empty()
    } else {
        let front = kept(host, mountpoint, roots, rs.drop_last());
        if keeps(host, mountpoint, roots, rs.last().path) {
            front.push(rs.last())
        } else {
            front
        }
    }
}

/// How many batches some records make.
pub open spec fn batch_count(n: nat) -> nat {
    (n + RECORD_BATCH - 1) as nat / RECORD_BATCH as nat
}

/// The batch at a position: all but the last are full.
pub open spec fn batch_of(rs: Seq<RecordView>, i: int) -> Seq<RecordView> {
    let end = if RECORD_BATCH * (i + 1) <= rs.len() {
        RECORD_BATCH * (i + 1)
    } else {
        rs.len() as int
    };
    rs.subrange(RECORD_BATCH * i, end)
}

/// The records in batches.
pub open spec fn batched(rs: Seq<RecordView>) -> Seq<Seq<RecordView>> {
    Seq::new(batch_count(rs.len()), |i: int| batch_of(rs, i))
}

/// The views of batches.
pub open spec fn batch_views(bs: Seq<Vec<FileRecord>>) -> Seq<Seq<RecordView>> {
    Seq::new(bs.len(), |i: int| crate::types::record_views(bs[i]@))
}

fn is_kept(host: Host, mountpoint: &str, roots: &Vec<String>, path: &str) -> (r: bool)
    ensures
        r == keeps(host, mountpoint@, crate::text::strings(roots@), path@),
{
    if default_path_excluded(host, mountpoint, path) {
        return false;
    }
    let ghost views = crate::text::strings(roots@);
    let mut i: usize = 0;
    while i < roots.len()
        invariant
            i <= roots@.len(),
            !excluded(host, mountpoint@, path@),
            views == crate::text::strings(roots@),
            forall|k: int|
                0 <= k < i ==> !crate::host::in_root(host, path@, #[trigger] views[k]),
        decreases roots@.len() - i,
    {
        assert(views[i as int] == roots@[i as int]@);
        if crate::host::portable_path_in_root(host, path, roots[i].as_str()) {
            return true;
        }
        i += 1;
    }
    false
}

/// What a lane found, as it is sent: the kept records in batches, and the statistics with
/// their counts.
pub fn scan_batches(
    host: Host,
    mountpoint: &str,
    roots: &Vec<String>,
    records: Vec<FileRecord>,
    stats: ScanStats,
) -> (r: (Vec<Vec<FileRecord>>, ScanStats))
    ensures
        ({
            let all = kept(
                host,
                mountpoint@,
                crate::text::strings(roots@),
                crate::types::record_views(records@),
            );
            &&& batch_views(r.0@) == batched(all)
            &&& r.1.records == all.len()
            &&& r.1.dirs == crate::ext4::dirs_among(all)
            &&& r.1.files == all.len() - r.1.dirs
            &&& r.1.bytes_read == stats.bytes_read
            &&& r.1.wall_ms == stats.wall_ms
            &&& r.1.detail@ == stats.detail@
        }),
{
    let ghost views = crate::types::record_views(records@);
    let ghost rts = crate::text::strings(roots@);
    let ghost point = mountpoint@;
    let mut batches: Vec<Vec<FileRecord>> = Vec::new();
    let mut batch: Vec<FileRecord> = Vec::new();
    let mut dirs: u64 = 0;
    let mut count: u64 = 0;
    let total: usize = records.len();
    let mut i: usize = 0;
    proof {
        assert(views.take(0) =~= Seq::empty());
        assert(crate::types::record_views(batch@) =~= Seq::empty());
    }
    for rec in it: records
        invariant
            it.seq() == records@,
            i == it.index(),
            i <= total == records@.len(),
            views == crate::types::record_views(records@),
            rts == crate::text::strings(roots@),
            point == mountpoint@,
            count == kept(host, point, rts, views.take(i as int)).len(),
            count <= i,
            dirs == crate::ext4::dirs_among(kept(host, point, rts, views.take(i as int))),
            dirs <= count,
            batch@.len() < RECORD_BATCH,
            count == RECORD_BATCH * batches@.len() + batch@.len(),
            batches@.len() <= i,
            forall|k: int|
                0 <= k < batches@.len() ==> crate::types::record_views((#[trigger] batches@[k])@)
                    == kept(host, point, rts, views.take(i as int)).subrange(
                    RECORD_BATCH * k,
                    RECORD_BATCH * (k + 1),
                ),
            crate::types::record_views(batch@) == kept(host, point, rts, views.take(i as int)).skip(
                RECORD_BATCH * batches@.len(),
            ),
    {
        let ghost v = rec@;
        let ghost had = kept(host, point, rts, views.take(i as int));
        let ghost now = kept(host, point, rts, views.take(i + 1));
        proof {
            assert(views[i as int] == v);
            assert(views.take(i + 1).drop_last() =~= views.take(i as int));
        }
        if is_kept(host, mountpoint, roots, rec.path.as_str()) {
            proof {
                assert(now == had.push(v));
                assert(now.drop_last() =~= had);
                assert forall|k: int| 0 <= k < batches@.len() implies now.subrange(
                    RECORD_BATCH * k,
                    RECORD_BATCH * (k + 1),
                ) == #[trigger] crate::types::record_views(batches@[k]@) by {
                    assert(now.subrange(RECORD_BATCH * k, RECORD_BATCH * (k + 1)) =~= had.subrange(
                        RECORD_BATCH * k,
                        RECORD_BATCH * (k + 1),
                    ));
                }
            }
            count = count + 1;
            if let FileKind::Dir = rec.kind {
                dirs = dirs + 1;
            }
            let ghost pending = crate::types::record_views(batch@);
            batch.push(rec);
            proof {
                assert(crate::types::record_views(batch@) =~= pending.push(v));
                assert(crate::types::record_views(batch@) =~= now.skip(
                    RECORD_BATCH * batches@.len(),
                ));
            }
            if batch.len() >= RECORD_BATCH {
                let mut full: Vec<FileRecord> = Vec::new();
                std::mem::swap(&mut full, &mut batch);
                let ghost k = batches@.len();
                proof {
                    assert(crate::types::record_views(full@) =~= now.subrange(
                        RECORD_BATCH * k,
                        RECORD_BATCH * (k + 1),
                    ));
                }
                batches.push(full);
                assert(crate::types::record_views(batch@) =~= now.skip(
                    RECORD_BATCH * batches@.len(),
                ));
            }
        }
        i = i + 1;
    }
    assert(views.take(i as int) =~= views);
    let ghost all = kept(host, point, rts, views);
    if batch.len() > 0 {
        batches.push(batch);
    }
    proof {
        assert forall|k: int| 0 <= k < batches@.len() implies #[trigger] crate::types::record_views(
            batches@[k]@,
        ) == batch_of(all, k) by {
            assert(crate::types::record_views(batches@[k]@) =~= batch_of(all, k));
        }
        assert(batch_views(batches@) =~= batched(all));
    }
    let ScanStats { bytes_read, wall_ms, detail, .. } = stats;
    (batches, ScanStats { records: count, dirs, files: count - dirs, bytes_read, wall_ms, detail })
}

/// Every record that is sent lies in an approved root.
pub proof fn law_only_approved_records_are_sent(
    host: Host,
    mountpoint: Seq<char>,
    roots: Seq<Seq<char>>,
    rs: Seq<RecordView>,
)
    ensures
        forall|i: int|
            0 <= i < kept(host, mountpoint, roots, rs).len() ==> keeps(
                host,
                mountpoint,
                roots,
                (#[trigger] kept(host, mountpoint, roots, rs)[i]).path,
            ),
    decreases rs.len(),
{
    if rs.len() > 0 {
        law_only_approved_records_are_sent(host, mountpoint, roots, rs.drop_last());
    }
}

// ---------------------------------------------------------------------------
// Local mounts of other hosts

/// The volume that a line of the macOS mount table describes, if it is one that users see.
pub open spec fn macos_mount_in(line: Seq<char>) -> Option<MountView> {
    match crate::text::first_occurrence(line, " on "@) {
        None => None,
        Some(at) => {
            let mounted = line.skip(at + 4);
            match crate::text::last_occurrence(mounted, " ("@) {
                None => None,
                Some(k) => {
                    let options = crate::text::trim_end(mounted.skip(k + 2), Separator::Char(')'));
                    let fs = crate::text::trim(
                        options.take(crate::text::first_index(options, Separator::Char(','))),
                    );
                    let point = mounted.take(k);
                    if (fs != "apfs"@ && fs != "hfs"@) || "/System/Volumes/"@.is_prefix_of(point) {
                        None
                    } else {
                        Some(
                            MountView {
                                device: line.take(at),
                                mountpoint: point,
                                fs: FsView::Unsupported(crate::text::ascii_lower_all(fs)),
                                host: None,
                            },
                        )
                    }
                },
            }
        },
    }
}

/// The volumes that some lines describe.
pub open spec fn macos_mounts_in(lines: Seq<Seq<char>>) -> Seq<MountView>
    decreases lines.len(),
{
    if lines.len() == 0 {
        Seq::empty()
    } else {
        match macos_mount_in(lines.last()) {
            Some(m) => macos_mounts_in(lines.drop_last()).push(m),
            None => macos_mounts_in(lines.drop_last()),
        }
    }
}

/// A macOS volume. The lane of the host takes it whatever the family.
pub fn macos_mount(device: &[char], mountpoint: &[char], filesystem: &[char]) -> (r: MountInfo)
    ensures
        r@ == (MountView {
            device: device@,
            mountpoint: mountpoint@,
            fs: FsView::Unsupported(crate::text::ascii_lower_all(filesystem@)),
            host: None,
        }),
{
    let low = crate::text::lowered(filesystem);
    MountInfo {
        device: crate::text::string_of(device),
        mountpoint: crate::text::string_of(mountpoint),
        fs: FsKind::Unsupported(crate::text::string_of(low.as_slice())),
        source: MountSource::Local,
    }
}

fn macos_line(line: &[char]) -> (r: Option<MountInfo>)
    ensures
        match r {
            Some(m) => macos_mount_in(line@) == Some(m@),
            None => macos_mount_in(line@) is None,
        },
{
    proof {
        reveal_strlit(" on ");
        reveal_strlit(" (");
    }
    let on = crate::text::chars_of(" on ");
    let at: usize = match crate::text::find_chars(line, on.as_slice()) {
        None => {
            return None;
        },
        Some(i) => i,
    };
    let whole: usize = line.len();
    assert(at + 4 <= whole);
    let mounted = crate::text::part(line, at + 4, line.len());
    assert(mounted@ =~= line@.skip(at + 4));
    let k: usize = match crate::text::find_last(mounted.as_slice(), " (") {
        None => {
            return None;
        },
        Some(i) => i,
    };
    let tail = crate::text::part(mounted.as_slice(), k + 2, mounted.len());
    assert(tail@ =~= mounted@.skip(k + 2));
    let n: usize = crate::text::end_run(tail.as_slice(), Separator::Char(')'));
    let options = crate::text::part(tail.as_slice(), 0, n);
    assert(options@ =~= tail@.take(n as int));
    let c: usize = crate::text::find_first(options.as_slice(), Separator::Char(','));
    let first = crate::text::part(options.as_slice(), 0, c);
    assert(first@ =~= options@.take(c as int));
    let fs = crate::text::trimmed(first.as_slice());
    let apfs = crate::text::chars_of("apfs");
    let hfs = crate::text::chars_of("hfs");
    let point = crate::text::part(mounted.as_slice(), 0, k);
    assert(point@ =~= mounted@.take(k as int));
    if !crate::text::same_chars(fs.as_slice(), apfs.as_slice()) && !crate::text::same_chars(
        fs.as_slice(),
        hfs.as_slice(),
    ) {
        return None;
    }
    if crate::text::begins(point.as_slice(), "/System/Volumes/") {
        return None;
    }
    let device = crate::text::part(line, 0, at);
    assert(device@ =~= line@.take(at as int));
    Some(macos_mount(device.as_slice(), point.as_slice(), fs.as_slice()))
}

/// The volumes in the output of the macOS mount command.
pub fn parse_macos_mount_output(output: &str) -> (r: Vec<MountInfo>)
    ensures
        crate::mounts::mount_views(r@) == macos_mounts_in(crate::text::lines(output@)),
{
    let chars = crate::text::chars_of(output);
    let lines = crate::text::split_lines(chars.as_slice());
    let ghost texts = crate::text::texts(lines@);
    let mut out: Vec<MountInfo> = Vec::new();
    let mut i: usize = 0;
    assert(crate::mounts::mount_views(out@) =~= macos_mounts_in(texts.take(0)));
    while i < lines.len()
        invariant
            i <= lines@.len(),
            texts == crate::text::texts(lines@),
            crate::mounts::mount_views(out@) == macos_mounts_in(texts.take(i as int)),
        decreases lines@.len() - i,
    {
        proof {
            assert(texts.take(i + 1).drop_last() =~= texts.take(i as int));
            assert(texts.take(i + 1).last() == lines@[i as int]@);
        }
        let ghost before = out@;
        if let Some(m) = macos_line(lines[i].as_slice()) {
            out.push(m);
            assert(crate::mounts::mount_views(out@) =~= crate::mounts::mount_views(before).push(m@));
        }
        i += 1;
    }
    assert(texts.take(i as int) =~= texts);
    out
}

/// The texts in a buffer that end in a zero unit each, up to an empty one or the first that
/// does not end.
pub open spec fn drive_names(units: Seq<u16>) -> Seq<Seq<u16>>
    decreases units.len(),
{
    let n = zero_at(units);
    if n >= units.len() || n == 0 {
        Seq::empty()
    } else {
        proof {
            lemma_zero_at(units);
        }
        seq![units.take(n)] + drive_names(units.skip(n + 1))
    }
}

/// The position of the first zero unit, or the length.
pub open spec fn zero_at(units: Seq<u16>) -> int
    decreases units.len(),
{
    if units.len() == 0 || units[0] == 0 {
        0
    } else {
        1 + zero_at(units.skip(1))
    }
}

pub proof fn lemma_zero_at(units: Seq<u16>)
    ensures
        0 <= zero_at(units) <= units.len(),
    decreases units.len(),
{
    if units.len() > 0 && units[0] != 0 {
        lemma_zero_at(units.skip(1));
    }
}

fn find_zero(units: &[u16], from: usize) -> (n: usize)
    requires
        from <= units@.len(),
    ensures
        from <= n <= units@.len(),
        n - from == zero_at(units@.skip(from as int)),
{
    let mut n: usize = from;
    while n < units.len() && units[n] != 0
        invariant
            from <= n <= units@.len(),
            zero_at(units@.skip(from as int)) == n - from + zero_at(units@.skip(n as int)),
        decreases units@.len() - n,
    {
        assert(units@.skip(n as int)[0] == units@[n as int]);
        assert(units@.skip(n as int).skip(1) =~= units@.skip(n + 1));
        n += 1;
    }
    proof {
        if n < units@.len() {
            assert(units@.skip(n as int)[0] == units@[n as int]);
        }
    }
    n
}

/// The views of unit lists.
pub open spec fn unit_views(v: Seq<Vec<u16>>) -> Seq<Seq<u16>> {
    Seq::new(v.len(), |i: int| v[i]@)
}

/// The drive roots in the buffer of the system.
pub fn split_drives(units: &[u16]) -> (r: Vec<Vec<u16>>)
    ensures
        unit_views(r@) == drive_names(units@),
{
    let mut out: Vec<Vec<u16>> = Vec::new();
    let mut at: usize = 0;
    let mut going: bool = true;
    proof {
        assert(units@.skip(0) =~= units@);
        assert(unit_views(out@) + drive_names(units@.skip(0)) =~= drive_names(units@));
    }
    while going
        invariant
            at <= units@.len(),
            going ==> unit_views(out@) + drive_names(units@.skip(at as int)) == drive_names(units@),
            !going ==> unit_views(out@) == drive_names(units@),
        decreases units@.len() - at, (if going { 1int } else { 0int }),
    {
        let ghost rest = units@.skip(at as int);
        let ghost had = unit_views(out@);
        let end: usize = find_zero(units, at);
        if end >= units.len() || end == at {
            proof {
                assert(drive_names(rest) =~= Seq::empty());
                assert(had + Seq::<Seq<u16>>::empty() =~= had);
            }
            going = false;
        } else {
            let mut name: Vec<u16> = Vec::new();
            let mut k: usize = at;
            while k < end
                invariant
                    at <= k <= end < units@.len(),
                    name@ == units@.subrange(at as int, k as int),
                decreases end - k,
            {
                name.push(units[k]);
                assert(name@ =~= units@.subrange(at as int, k + 1));
                k += 1;
            }
            proof {
                assert(name@ =~= rest.take(end - at));
            }
            let ghost v = name@;
            out.push(name);
            proof {
                assert(unit_views(out@) =~= had.push(v));
                assert(rest.skip(end - at + 1) =~= units@.skip(end + 1));
                assert(had.push(v) + drive_names(units@.skip(end + 1)) =~= had + (seq![v]
                    + drive_names(units@.skip(end + 1))));
            }
            at = end + 1;
        }
    }
    out
}

/// Kinds of drives that are scanned.
pub const DRIVE_REMOVABLE: u32 = 2;

pub const DRIVE_FIXED: u32 = 3;

/// The mount that a drive of a kind with a filesystem is, if it is one to scan.
pub open spec fn windows_mount_of(root: Seq<u16>, kind: u32, filesystem: Seq<u16>) -> Option<MountView> {
    let name = crate::text::utf16_text(filesystem.take(zero_at(filesystem)));
    let point = crate::text::utf16_text(root);
    if (kind != DRIVE_FIXED && kind != DRIVE_REMOVABLE) || crate::text::ascii_lower_all(name)
        != "ntfs"@ {
        None
    } else {
        Some(
            MountView {
                device: crate::text::trim_end(point, Separator::Slash),
                mountpoint: point,
                fs: FsView::Ntfs,
                host: None,
            },
        )
    }
}

/// The mount that a drive is: a fixed or removable one with NTFS.
pub fn windows_mount(root: &[u16], kind: u32, filesystem: &[u16]) -> (r: Option<MountInfo>)
    ensures
        match r {
            Some(m) => windows_mount_of(root@, kind, filesystem@) == Some(m@),
            None => windows_mount_of(root@, kind, filesystem@) is None,
        },
{
    if kind != DRIVE_FIXED && kind != DRIVE_REMOVABLE {
        return None;
    }
    assert(filesystem@.skip(0) =~= filesystem@);
    let n: usize = find_zero(filesystem, 0);
    let units = vstd::slice::slice_subrange(filesystem, 0, n);
    assert(units@ =~= filesystem@.take(n as int));
    let name = crate::text::text_from_utf16_lossy(units);
    let chars = crate::text::chars_of(name.as_str());
    let low = crate::text::lowered(chars.as_slice());
    let ntfs = crate::text::chars_of("ntfs");
    if !crate::text::same_chars(low.as_slice(), ntfs.as_slice()) {
        return None;
    }
    let mountpoint = crate::text::text_from_utf16_lossy(root);
    let point = crate::text::chars_of(mountpoint.as_str());
    let end: usize = crate::text::end_run(point.as_slice(), Separator::Slash);
    let cut = crate::text::part(point.as_slice(), 0, end);
    assert(cut@ =~= point@.take(end as int));
    Some(
        MountInfo {
            device: crate::text::string_of(cut.as_slice()),
            mountpoint,
            fs: FsKind::Ntfs,
            source: MountSource::Local,
        },
    )
}

/// The first mount of some at a place.
pub open spec fn mount_at(host: Host, ms: Seq<MountView>, target: Seq<char>) -> Option<MountView>
    decreases ms.len(),
{
    if ms.len() == 0 {
        None
    } else if crate::host::same_point(host, ms[0].mountpoint, target) {
        Some(ms[0])
    } else {
        mount_at(host, ms.skip(1), target)
    }
}

/// Finds the local mount at a place.
pub fn find_local_mount(host: Host, mounts: &Vec<MountInfo>, target: &str) -> (r: Result<
    MountInfo,
    String,
>)
    ensures
        match r {
            Ok(m) => mount_at(host, crate::mounts::mount_views(mounts@), target@) == Some(m@),
            Err(e) => mount_at(host, crate::mounts::mount_views(mounts@), target@) is None && e@
                == "no supported native filesystem is mounted at "@ + target@ + " on "@ + host_name(
                host,
            ),
        },
{
    let ghost views = crate::mounts::mount_views(mounts@);
    let mut i: usize = 0;
    assert(views.skip(0) =~= views);
    while i < mounts.len()
        invariant
            i <= mounts@.len(),
            views == crate::mounts::mount_views(mounts@),
            mount_at(host, views.skip(i as int), target@) == mount_at(host, views, target@),
        decreases mounts@.len() - i,
    {
        proof {
            assert(views.skip(i as int)[0] == mounts@[i as int]@);
            assert(views.skip(i as int).skip(1) =~= views.skip(i + 1));
        }
        if crate::host::same_mountpoint(host, mounts[i].mountpoint.as_str(), target) {
            return Ok(mounts[i].clone());
        }
        i += 1;
    }
    let head = crate::text::joined3(
        "no supported native filesystem is mounted at ",
        target,
        " on ",
    );
    Err(crate::text::joined(head.as_str(), host_label(host)))
}

} // verus!
