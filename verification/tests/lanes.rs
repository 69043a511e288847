//! The lanes that read file systems.

use std::collections::HashMap;

use neutrasearch::btrfs::{
    ensure_dir_path, merge_nodes, next_key, search_ranges, shard_ranges, Meta, Node, SearchArgsV2,
    SearchKey, INODE_EXTREF, INODE_ITEM, ROOT_INO, SEARCH_V2_HEADER,
};
use neutrasearch::clock::Stopwatch;
use neutrasearch::dirtree::append_component;
use neutrasearch::ext4::{kind, DirEntry, Ext2Inode};
use neutrasearch::host::Host;
use neutrasearch::lanes::{default_path_excluded, dispatch_lane, parse_macos_mount_output, Lane};
use neutrasearch::macos::{
    bulk_record, parse_bulk, parse_mdfind_nul, spotlight_answer, spotlight_records, BulkEntry,
    Looked, Spotlight,
};
use neutrasearch::mounts::FsKind;
use neutrasearch::ntfs::{apply_fixup, parse_runlist, read_geometry, volume_path, Entry, NtfsError};
use neutrasearch::types::FileKind;
use neutrasearch::zfs::{
    destroy_snapshot_command, is_neutrasearch_snapshot, parse_diff, snapshot_command,
    snapshot_name, DiffEntry, ZfsError,
};

#[test]
fn uapi_sizes() {
    assert_eq!(std::mem::size_of::<SearchKey>(), 104);
    assert_eq!(SEARCH_V2_HEADER, 112);
    assert_eq!(std::mem::size_of::<SearchArgsV2>(), 112);
    assert_eq!(std::mem::align_of::<SearchArgsV2>(), 8);
}

#[test]
fn cursor_carries() {
    assert_eq!(next_key((1, 2, 9)), Some((1, 2, 10)));
    assert_eq!(next_key((1, 2, u64::MAX)), Some((1, 3, 0)));
    assert_eq!(
        next_key((1, INODE_EXTREF, u64::MAX)),
        Some((2, INODE_ITEM, 0))
    );
}

#[test]
fn cursors_end_behind_the_last_key() {
    assert_eq!(next_key((u64::MAX, INODE_EXTREF, u64::MAX)), None);
}

#[test]
fn shards_cover_all_inodes_once() {
    let ranges = shard_ranges();
    assert_eq!(ranges[ranges.len() - 1].1, u64::MAX);
    for pair in ranges.windows(2) {
        assert_eq!(pair[0].1 + 1, pair[1].0);
    }
}

fn meta() -> Meta {
    Meta { size: 0, mode: libc::S_IFDIR, mtime: 0 }
}

fn node(ino: u64, parent: u64, name: &str) -> Node {
    Node { ino, parent, meta: meta(), name: name.to_owned() }
}

#[test]
fn paths_resolve_and_cycles_stop() {
    let mut nodes = vec![
        node(ROOT_INO, u64::MAX, ""),
        node(300, ROOT_INO, "a"),
        node(301, 300, "b"),
    ];
    let mut cache = HashMap::from([(ROOT_INO, String::new())]);
    assert!(ensure_dir_path(301, &nodes, &mut cache));
    assert_eq!(cache.get(&301).map(String::as_str), Some("a/b"));
    let all = [(ROOT_INO, String::new()), (300, "a".to_owned()), (301, "a/b".to_owned())];
    assert_eq!(cache, HashMap::from(all));
    nodes[1].parent = 301;
    let mut cache = HashMap::from([(ROOT_INO, String::new())]);
    assert!(!ensure_dir_path(301, &nodes, &mut cache));
    assert_eq!(cache, HashMap::from([(ROOT_INO, String::new())]));
}

#[test]
fn nodes_of_all_shards_become_records() {
    let file = Node {
        ino: 302,
        parent: 300,
        meta: Meta { size: 5, mode: libc::S_IFREG | 0o644, mtime: 9 },
        name: "x.txt".to_owned(),
    };
    let merged = merge_nodes(vec![
        file,
        node(ROOT_INO, u64::MAX, ""),
        node(300, ROOT_INO, "a"),
    ]);
    let (records, stats) = neutrasearch::btrfs::scan(&merged, "/mnt", 3, &Stopwatch::start());
    let paths: Vec<&str> = records.iter().map(|r| r.path.as_str()).collect();
    assert!(paths.contains(&"/mnt/a"));
    assert!(paths.contains(&"/mnt/a/x.txt"));
    assert_eq!(stats.records, records.len() as u64);
}

#[test]
fn inode_layout() {
    assert_eq!(std::mem::size_of::<Ext2Inode>(), 128);
    assert_eq!(std::mem::size_of::<DirEntry>(), 264);
}

#[test]
fn modes() {
    assert_eq!(kind(0o100644), FileKind::File);
    assert_eq!(kind(0o040755), FileKind::Dir);
}

#[test]
fn runlist_fragmented() {
    let r = parse_runlist(&[0x11, 3, 5, 0x11, 2, 0xfe, 0], 4096).unwrap();
    assert_eq!(r.len(), 2);
    assert_eq!(r[0].physical, 5 * 4096);
    assert_eq!(r[1].physical, 3 * 4096);
}

#[test]
fn runlists_that_break_off_are_refused() {
    assert!(parse_runlist(&[0x11, 3], 4096).is_err());
}

#[test]
fn usa_repairs() {
    let mut r = vec![0u8; 1024];
    r[4..6].copy_from_slice(&48u16.to_le_bytes());
    r[6..8].copy_from_slice(&3u16.to_le_bytes());
    r[48..50].copy_from_slice(&[0xaa, 0xbb]);
    r[50..52].copy_from_slice(&[1, 2]);
    r[52..54].copy_from_slice(&[3, 4]);
    r[510..512].copy_from_slice(&[0xaa, 0xbb]);
    r[1022..1024].copy_from_slice(&[0xaa, 0xbb]);
    apply_fixup(&mut r, 512).unwrap();
    assert_eq!(&r[510..512], &[1, 2]);
    assert_eq!(&r[1022..1024], &[3, 4]);
}

#[test]
fn torn_records_are_refused() {
    let mut r = vec![0u8; 1024];
    r[4..6].copy_from_slice(&48u16.to_le_bytes());
    r[6..8].copy_from_slice(&3u16.to_le_bytes());
    r[48..50].copy_from_slice(&[0xaa, 0xbb]);
    let given = r.clone();
    assert!(apply_fixup(&mut r, 512).is_err());
    assert_eq!(r, given);
}

#[test]
fn sectors_before_a_torn_one_are_repaired() {
    let mut r = vec![0u8; 1536];
    r[4..6].copy_from_slice(&48u16.to_le_bytes());
    r[6..8].copy_from_slice(&4u16.to_le_bytes());
    r[48..56].copy_from_slice(&[0xaa, 0xbb, 1, 2, 3, 4, 5, 6]);
    r[510..512].copy_from_slice(&[0xaa, 0xbb]);
    r[1022..1024].copy_from_slice(&[0xaa, 0]);
    r[1534..1536].copy_from_slice(&[0xaa, 0xbb]);
    let mut expected = r.clone();
    expected[510..512].copy_from_slice(&[1, 2]);
    assert_eq!(apply_fixup(&mut r, 512), Err(NtfsError::UsaMismatch));
    assert_eq!(r, expected);
    assert_eq!(apply_fixup(&mut r, 500), Err(NtfsError::InvalidUsa));
    assert_eq!(r, expected);
}

#[test]
fn boot_sectors_of_other_systems_are_refused() {
    let boot = vec![0u8; 512];
    let error = read_geometry(&boot).err().unwrap();
    let said: NtfsError = error;
    assert!(!said.message().is_empty());
}

fn entry(parent: u64, parent_sequence: u16, name: &str, dir: bool) -> Entry {
    Entry {
        parent,
        parent_sequence,
        sequence: 1,
        name: name.to_owned(),
        size: 0,
        mtime: 0,
        dir,
    }
}

#[test]
fn path_cycles_stop() {
    let mut e = HashMap::new();
    e.insert(6, entry(5, 0, "a", true));
    e.insert(7, entry(6, 1, "b", false));
    let mut c = HashMap::from([(5, String::new())]);
    assert!(neutrasearch::ntfs::ensure_dir_path(6, 1, &e, &mut c));
    assert_eq!(append_component(c.get(&6).unwrap(), "b"), "a/b");
    e.get_mut(&6).unwrap().parent = 7;
    let mut c = HashMap::from([(5, String::new())]);
    assert!(!neutrasearch::ntfs::ensure_dir_path(6, 1, &e, &mut c));
    assert_eq!(c, HashMap::from([(5, String::new())]));
}

#[test]
fn parses_nul_paths_without_losing_newlines() {
    let p = parse_mdfind_nul(b"/A/a file\0/A/with\nnewline\0");
    assert_eq!(p, vec!["/A/a file", "/A/with\nnewline"]);
}

#[test]
fn paths_that_are_not_text_are_left_out() {
    assert_eq!(parse_mdfind_nul(b"/a\0\xff\xfe\0\0/b"), vec!["/a", "/b"]);
    assert!(parse_mdfind_nul(b"").is_empty());
}

#[test]
fn spotlight_that_is_off_falls_back() {
    assert!(matches!(
        spotlight_answer(true, b"", b"", Some(b"/:\n\tIndexing disabled.\n")),
        Spotlight::Fallback
    ));
    match spotlight_answer(true, b"", b"", Some(b"/:\n\tIndexing enabled.\n")) {
        Spotlight::Found(paths) => assert!(paths.is_empty()),
        _ => panic!("nothing found is no failure"),
    }
    match spotlight_answer(false, b"", b"no index", None) {
        Spotlight::Failed(e) => assert_eq!(e, "Spotlight query failed: no index"),
        _ => panic!("a failed query is a failure"),
    }
}

#[test]
fn spotlight_records_are_counted() {
    let found = vec![
        Looked { path: "/a".into(), kind: FileKind::Dir, size: 0, mtime: 1, mode: 0o040755 },
        Looked { path: "/a/b".into(), kind: FileKind::File, size: 3, mtime: 2, mode: 0o100644 },
    ];
    let (records, stats) = spotlight_records(found, &Stopwatch::start());
    assert_eq!((stats.records, stats.dirs, stats.files), (2, 1, 1));
    assert_eq!(records[1].fs, FsKind::Unsupported("apfs".into()));
    assert_eq!(records[1].size, 3);
    let error = neutrasearch::macos::scan(Host::Linux, Vec::new(), &Stopwatch::start()).err().unwrap();
    assert!(error.contains("only available on macOS"));
}

fn bulk(name: &[u8], object_type: u32) -> Vec<u8> {
    let len = 36 + name.len() as u32;
    let mut b = Vec::new();
    b.extend_from_slice(&len.to_le_bytes());
    b.extend_from_slice(&[0; 20]);
    b.extend_from_slice(&12i32.to_le_bytes());
    b.extend_from_slice(&(name.len() as u32).to_le_bytes());
    b.extend_from_slice(&object_type.to_le_bytes());
    b.extend_from_slice(name);
    b
}

#[test]
fn bulk_attributes_give_names_and_types() {
    let mut b = bulk(b"docs\0", 2);
    b.extend_from_slice(&bulk(b".\0", 2));
    b.extend_from_slice(&bulk(b"a.txt\0", 1));
    let entries = parse_bulk(&b, 3);
    assert_eq!(entries.len(), 2);
    assert_eq!(entries[0].name, b"docs");
    assert!(entries[0].is_directory);
    assert_eq!(entries[1].name, b"a.txt");
    assert!(!entries[1].is_directory);
    // A record that does not fit ends the list.
    assert_eq!(parse_bulk(&b[..b.len() - 1], 3).len(), 1);

    let (record, dir) = bulk_record(
        "/Volumes/Work",
        &BulkEntry { name: b"a.txt".to_vec(), is_directory: false },
        -1,
        5,
        0o100644,
    );
    assert_eq!(record.path, "/Volumes/Work/a.txt");
    assert_eq!((record.size, record.mtime, dir), (0, 5, false));
}

#[test]
fn parses_diff_with_types_and_spaces() {
    let input = "+\tF\t/tank/a file.txt\n-\t/old\nM\tF\t/tank/m\nR\tF\t/tank/old name\t/tank/new name\n";
    let diff = parse_diff(input).unwrap();
    assert_eq!(diff.len(), 4);
    assert!(matches!(&diff[0], DiffEntry::Created(p) if p == "/tank/a file.txt"));
    assert!(matches!(&diff[1], DiffEntry::Removed(p) if p == "/old"));
    assert!(matches!(&diff[2], DiffEntry::Modified(p) if p == "/tank/m"));
    assert!(matches!(
        &diff[3],
        DiffEntry::Renamed { from, to } if from == "/tank/old name" && to == "/tank/new name"
    ));
}

#[test]
fn wrong_diff_lines_are_named() {
    let error = parse_diff("+\tF\t/a\n\n?\tx\n").err().unwrap();
    assert!(matches!(&error, ZfsError::UnknownMarker { line: 3, .. }));
    assert_eq!(error.message(), "unknown zfs diff marker \"?\" on line 3");
    let error = parse_diff("R\tF\t/a").err().unwrap();
    assert_eq!(error.message(), "zfs diff line 1 missing path");
}

#[test]
fn snapshot_commands_are_bounded() {
    assert_eq!(
        snapshot_command("tank/data", 42, true).unwrap(),
        vec!["snapshot", "-r", "tank/data@neutra-42"]
    );
    assert!(destroy_snapshot_command("tank/data@manual").is_err());
    assert_eq!(
        destroy_snapshot_command("tank/data@neutra-42").unwrap(),
        vec!["destroy", "tank/data@neutra-42"]
    );
}

#[test]
fn snapshots_are_named_and_recognized() {
    for bad in ["", "a@b", "a b"] {
        assert!(matches!(snapshot_name(bad, 1), Err(ZfsError::InvalidDataset)));
    }
    let name = snapshot_name("tank", 7).unwrap();
    assert!(is_neutrasearch_snapshot(&name));
    assert!(!is_neutrasearch_snapshot("tank@daily"));
    assert!(matches!(destroy_snapshot_command("tank"), Err(ZfsError::NotASnapshot)));
    let mount = neutrasearch::mounts::MountInfo {
        device: "tank".into(),
        mountpoint: "/tank".into(),
        fs: FsKind::Zfs,
        source: neutrasearch::mounts::MountSource::Local,
    };
    assert!(neutrasearch::zfs::scan(&mount).err().unwrap().message().contains("libzpool"));
}

#[test]
fn macos_mount_parser_keeps_user_visible_native_volumes() {
    let mounts = parse_macos_mount_output(
        "/dev/disk3s1s1 on / (apfs, sealed, local)\n\
         /dev/disk3s5 on /System/Volumes/Data (apfs, local)\n\
         /dev/disk7s1 on /Volumes/Archive Drive (hfs, local)\n\
         server:/share on /Volumes/Team (nfs, nodev)\n",
    );
    assert_eq!(mounts.len(), 2);
    assert_eq!(mounts[0].mountpoint, "/");
    assert_eq!(mounts[1].mountpoint, "/Volumes/Archive Drive");
    assert_eq!(mounts[1].fs, FsKind::Unsupported("hfs".into()));
}

#[test]
fn default_snapshot_directory_is_excluded_by_component() {
    assert!(default_path_excluded(Host::Linux, "/", "/.snapshots/42/file"));
    assert!(default_path_excluded(Host::Linux, "/home", "/home/.snapshots/42/file"));
    assert!(!default_path_excluded(Host::Linux, "/", "/.snapshots-old/file"));
    assert!(default_path_excluded(Host::Linux, "/", "/proc/self/status"));
    assert!(default_path_excluded(Host::Linux, "/", "/sys/kernel"));
    assert!(!default_path_excluded(Host::Linux, "/home", "/home/system/file"));
}

#[test]
fn lanes_follow_the_host() {
    assert!(matches!(dispatch_lane(Host::Linux, &FsKind::Btrfs), Ok(Lane::Btrfs)));
    assert!(matches!(
        dispatch_lane(Host::MacOs, &FsKind::Unsupported("apfs".into())),
        Ok(Lane::MacOs)
    ));
    assert!(dispatch_lane(Host::Linux, &FsKind::Network("nfs4".into())).is_err());
}

#[test]
fn searches_are_serial_where_they_are_told_to_be() {
    assert_eq!(search_ranges(false, Some("5"), Some("9")), shard_ranges());
    assert_eq!(search_ranges(true, None, None), vec![(0, u64::MAX)]);
    assert_eq!(search_ranges(true, Some("256"), Some("+999")), vec![(256, 999)]);
    assert_eq!(search_ranges(true, Some("-1"), Some("many")), vec![(0, u64::MAX)]);
}

#[test]
fn volumes_are_opened_as_devices_on_windows() {
    assert_eq!(volume_path(Host::Windows, r"C:\"), r"\\.\C:");
    assert_eq!(volume_path(Host::Windows, r"\\.\D:\\"), r"\\.\D:");
    assert_eq!(volume_path(Host::Linux, r"/dev/sda1\"), r"/dev/sda1\");
}

#[test]
fn spotlight_scans_count_what_they_found() {
    let found = vec![
        Looked { path: "/a".to_owned(), kind: FileKind::Dir, size: 0, mtime: 1, mode: 0o40755 },
        Looked { path: "/a/b".to_owned(), kind: FileKind::File, size: 3, mtime: 2, mode: 0o644 },
    ];
    let (records, stats) = neutrasearch::macos::scan(Host::MacOs, found, &Stopwatch::start()).unwrap();
    assert_eq!(records.len(), 2);
    assert_eq!((records[1].path.as_str(), records[1].size), ("/a/b", 3));
    assert_eq!((stats.records, stats.dirs, stats.files), (2, 1, 1));
    assert_eq!(
        stats.detail,
        "Spotlight index (mdfind namespace + one metadata lookup per hit)"
    );
    assert_eq!(
        neutrasearch::macos::scan(Host::Linux, Vec::new(), &Stopwatch::start()).err().unwrap(),
        "macOS Spotlight lane is only available on macOS"
    );
}

#[test]
fn snapshots_below_a_drive_are_left_out() {
    assert!(default_path_excluded(Host::Windows, r"C:\", "c:/.snapshots/42"));
    assert!(default_path_excluded(Host::Windows, "D:/data", r"d:\data\.snapshots"));
    assert!(!default_path_excluded(Host::Windows, r"C:\", r"D:\.snapshots\42"));
    assert!(!default_path_excluded(Host::Linux, r"C:\", r"C:\.snapshots"));
}
