//! Bytes: what the lanes read from filesystems, and what lies in the files of an index.

use neutrasearch::btrfs::{self, INODE_ITEM, INODE_REF, ROOT_INO};
use neutrasearch::clock::Stopwatch;
use neutrasearch::compact_index::CompactIndex;
use neutrasearch::dir_summary::DirectorySummary;
use neutrasearch::ext4::{self, DirBlock, DirEntry, Ext2Inode, OTHER_FILE, TOP_INODE};
use neutrasearch::host::Host;
use neutrasearch::lanes::{find_local_mount, scan_batches, split_drives, windows_mount, DRIVE_FIXED};
use neutrasearch::mounts::{FsKind, MountInfo, MountSource};
use neutrasearch::ntfs::{self, MftLane};
use neutrasearch::query::Query;
use neutrasearch::types::{FileKind, FileRecord, ScanStats};

fn record(path: &str, size: u64) -> FileRecord {
    FileRecord {
        path: path.to_owned(),
        size,
        mtime: 3,
        mode: 0o644,
        kind: FileKind::File,
        fs: FsKind::Ext4,
        native_id: 9,
        native_parent: 8,
        source: 7,
    }
}

#[test]
fn blocks_are_compressed_lists_of_records() {
    let (bytes, stats) = CompactIndex::build(&[record("/a/b.txt", 5)], 11).unwrap();
    assert_eq!((stats.records, stats.blocks), (1, 1));
    let offset = u64::from_le_bytes(bytes[64..72].try_into().unwrap()) as usize;
    let length = u32::from_le_bytes(bytes[72..76].try_into().unwrap()) as usize;
    let packed = &bytes[offset..offset + length];
    assert_eq!(&packed[..4], &[0x28, 0xb5, 0x2f, 0xfd]);
    let payload = zstd::stream::decode_all(packed).unwrap();
    // A record: its path, size, time, mode, kind, filesystem, numbers and source.
    let row = ("/a/b.txt", 5u64, 3i64, 0o644u32, 0u32, 1u32, 9u64, 8u64, 7u32);
    assert_eq!(payload, bincode::serialize(&vec![row]).unwrap());
    let end = bytes.len() - 4;
    assert_eq!(bytes[end..], crc32fast::hash(&bytes[..end]).to_le_bytes());
}

#[test]
fn summaries_are_compressed_lists_of_folders() {
    let (bytes, summary) = DirectorySummary::build(Host::Linux, &[record("/a/b.txt", 5)], 11).unwrap();
    let trailer = bytes.len() - 12;
    let size = u64::from_le_bytes(bytes[trailer..trailer + 8].try_into().unwrap()) as usize;
    let payload = zstd::bulk::decompress(&bytes[20..trailer], size).unwrap();
    assert_eq!(payload.len(), size);
    let length = u32::from_le_bytes(payload[..4].try_into().unwrap());
    assert!(length > 0);
    assert_eq!(summary.get(7, "/a").unwrap().logical_bytes, 5);
    assert_eq!(summary.get(7, "/").unwrap().file_count, 1);
}

// ---------------------------------------------------------------------------
// Btrfs

fn item(objectid: u64, kind: u32, offset: u64, data: &[u8]) -> Vec<u8> {
    let mut out = 1u64.to_le_bytes().to_vec();
    out.extend_from_slice(&objectid.to_le_bytes());
    out.extend_from_slice(&offset.to_le_bytes());
    out.extend_from_slice(&kind.to_le_bytes());
    out.extend_from_slice(&(data.len() as u32).to_le_bytes());
    out.extend_from_slice(data);
    out
}

fn inode(size: u64, mode: u32, mtime: u64) -> Vec<u8> {
    let mut data = vec![0u8; 160];
    data[16..24].copy_from_slice(&size.to_le_bytes());
    data[52..56].copy_from_slice(&mode.to_le_bytes());
    data[136..144].copy_from_slice(&mtime.to_le_bytes());
    data
}

fn link(name: &[u8]) -> Vec<u8> {
    let mut data = 1u64.to_le_bytes().to_vec();
    data.extend_from_slice(&(name.len() as u16).to_le_bytes());
    data.extend_from_slice(name);
    data
}

#[test]
fn btrfs_items_become_records() {
    let mut buffer = item(300, INODE_ITEM, 0, &inode(0, 0o040755, 1));
    buffer.extend(item(300, INODE_REF, ROOT_INO, &link(b"docs")));
    buffer.extend(item(301, INODE_ITEM, 0, &inode(12, 0o100644, 2)));
    buffer.extend(item(301, INODE_REF, 300, &link(b"a\xff.txt")));
    let mut lane = btrfs::Lane::new(0, 1000);
    assert_eq!(lane.request().key.min_objectid, 0);
    assert!(matches!(lane.take(4, &buffer).unwrap(), btrfs::LaneStep::More));
    let next = lane.request().key;
    assert_eq!((next.min_objectid, next.min_type, next.min_offset), (301, INODE_REF, 301));
    assert!(matches!(lane.take(0, &buffer).unwrap(), btrfs::LaneStep::Done));
    let (nodes, batches) = lane.finish();
    let nodes = btrfs::merge_nodes(nodes);
    let (records, stats) = btrfs::scan(&nodes, "/mnt", batches, &Stopwatch::start());
    assert_eq!((stats.records, stats.dirs, stats.files), (2, 1, 1));
    let found = records.iter().find(|r| r.path == "/mnt/docs/a\u{fffd}.txt").unwrap();
    assert_eq!((found.size, found.mtime, found.native_parent), (12, 2, 300));
}

#[test]
fn torn_btrfs_answers_are_refused() {
    let buffer = item(300, INODE_ITEM, 0, &inode(0, 0o040755, 1));
    let mut lane = btrfs::Lane::new(0, 1000);
    let error = lane.take(1, &buffer[..20]).err().unwrap();
    assert_eq!(error.message(), "kernel returned truncated Btrfs search header");
    let mut lane = btrfs::Lane::new(0, 1000);
    let error = lane.take(1, &buffer[..60]).err().unwrap();
    assert_eq!(error.message(), "kernel returned truncated Btrfs search item");
}

// ---------------------------------------------------------------------------
// Ext4

fn ext_inode(mode: u16, size: u32, size_high: u32) -> Ext2Inode {
    Ext2Inode {
        mode,
        uid: 0,
        size,
        atime: 0,
        ctime: 0,
        mtime: 4,
        dtime: 0,
        gid: 0,
        links: 1,
        blocks: 0,
        flags: 0,
        osd1: 0,
        block: [0; 15],
        generation: 0,
        file_acl: 0,
        size_high,
        faddr: 0,
        osd2: [0; 12],
    }
}

fn dir_entry(inode: u32, name: &[u8]) -> DirEntry {
    let mut bytes = [0u8; 255];
    bytes[..name.len()].copy_from_slice(name);
    DirEntry { inode, rec_len: 263, name_len: name.len() as u16, name: bytes }
}

#[test]
fn ext4_folders_become_records() {
    let metas = vec![
        (TOP_INODE, ext4::inode_meta(&ext_inode(0o040755, 0, 0)).unwrap()),
        (12, ext4::inode_meta(&ext_inode(0o040755, 0, 9)).unwrap()),
        (13, ext4::inode_meta(&ext_inode(0o100644, 5, 1)).unwrap()),
    ];
    let unlinked = Ext2Inode { links: 0, ..ext_inode(0o100644, 5, 1) };
    assert!(ext4::inode_meta(&unlinked).is_none());
    let links = |entries: &[DirEntry]| {
        entries.iter().filter_map(|e| ext4::entry_link(OTHER_FILE, e)).collect::<Vec<_>>()
    };
    let folders = vec![
        DirBlock {
            ino: TOP_INODE,
            links: links(&[dir_entry(TOP_INODE, b"."), dir_entry(12, b"nested"), dir_entry(99, b"lost")]),
        },
        DirBlock {
            ino: 12,
            links: links(&[dir_entry(TOP_INODE, b".."), dir_entry(13, b"code\xfe.rs"), dir_entry(0, b"gone")]),
        },
    ];
    let (records, stats) = ext4::scan_image(&metas, &folders, "/fixture", &Stopwatch::start());
    assert_eq!((stats.records, stats.dirs, stats.files), (2, 1, 1));
    assert!(records.iter().any(|r| r.path == "/fixture/nested" && r.kind == FileKind::Dir));
    let code = records.iter().find(|r| r.kind == FileKind::File).unwrap();
    assert_eq!(code.path, "/fixture/nested/code\u{fffd}.rs");
    assert_eq!(code.size, 0x1_0000_0005);
}

// ---------------------------------------------------------------------------
// NTFS

const RECORD: usize = 1024;
const SECTOR: usize = 512;

/// A record of the table with one name.
fn mft_record(sequence: u16, folder: bool, parent: u64, name: &str, size: u64) -> Vec<u8> {
    let units = name.encode_utf16().collect::<Vec<u16>>();
    let mut content = vec![0u8; 66];
    content[..8].copy_from_slice(&parent.to_le_bytes());
    content[48..56].copy_from_slice(&size.to_le_bytes());
    content[64] = units.len() as u8;
    content[65] = 1;
    for unit in units {
        content.extend_from_slice(&unit.to_le_bytes());
    }
    let attribute = (24 + content.len()).div_ceil(8) * 8;
    let mut record = vec![0u8; RECORD];
    record[..4].copy_from_slice(b"FILE");
    record[4..6].copy_from_slice(&48u16.to_le_bytes());
    record[6..8].copy_from_slice(&3u16.to_le_bytes());
    record[16..18].copy_from_slice(&sequence.to_le_bytes());
    record[20..22].copy_from_slice(&56u16.to_le_bytes());
    record[22..24].copy_from_slice(&(if folder { 3u16 } else { 1 }).to_le_bytes());
    record[56..60].copy_from_slice(&0x30u32.to_le_bytes());
    record[60..64].copy_from_slice(&(attribute as u32).to_le_bytes());
    record[72..76].copy_from_slice(&(content.len() as u32).to_le_bytes());
    record[76..78].copy_from_slice(&24u16.to_le_bytes());
    record[80..80 + content.len()].copy_from_slice(&content);
    let end = 56 + attribute;
    record[end..end + 4].copy_from_slice(&0xffff_ffffu32.to_le_bytes());
    // The last two bytes of each sector stand in the update sequence.
    let number = [0xaa, 0xbb];
    record[48..50].copy_from_slice(&number);
    for sector in 0..2 {
        let at = (sector + 1) * SECTOR - 2;
        let saved = [record[at], record[at + 1]];
        record[50 + sector * 2..52 + sector * 2].copy_from_slice(&saved);
        record[at..at + 2].copy_from_slice(&number);
    }
    record
}

#[test]
fn ntfs_records_become_paths() {
    let root = ntfs::ROOT_ID;
    let mut lane = MftLane::new();
    for number in 0..8u64 {
        let mut bytes = match number {
            5 => mft_record(5, true, root, ".", 0),
            6 => mft_record(1, true, root, "Äpfel", 0),
            7 => mft_record(1, false, 6 | 1 << 48, "birne.txt", 77),
            _ => vec![0u8; RECORD],
        };
        lane.take(&mut bytes, SECTOR);
    }
    let (records, _) = lane.scan("C:", 8, 1, &Stopwatch::start());
    let paths = records.iter().map(|r| r.path.as_str()).collect::<Vec<_>>();
    assert!(paths.contains(&"C:/Äpfel"), "{:?}", paths);
    let file = records.iter().find(|r| r.path == "C:/Äpfel/birne.txt").unwrap();
    assert_eq!((file.size, file.native_id, file.native_parent), (77, 7, 6));
    assert_eq!(file.kind, FileKind::File);
}

#[test]
fn runs_are_read_in_pieces() {
    let runs = vec![
        ntfs::Run { logical: 0, len: 1024, physical: 8192 },
        ntfs::Run { logical: 1024, len: 4096, physical: 65_536 },
    ];
    let pieces = ntfs::locate(&runs, 512, 1024).unwrap();
    assert_eq!(pieces.len(), 2);
    assert_eq!((pieces[0].physical, pieces[0].len), (8704, 512));
    assert_eq!((pieces[1].physical, pieces[1].len), (65_536, 512));
    assert!(ntfs::locate(&runs, 5000, 1024).is_err());
    assert_eq!(ntfs::record_count(&runs, 5120, 1024).unwrap(), 5);
    assert_eq!(ntfs::filetime_to_unix(116_444_736_000_000_000), 0);
}

// ---------------------------------------------------------------------------
// Drives, batches and texts

#[test]
fn drives_with_ntfs_are_mounts() {
    let units = "C:\\\0D:\\\0\0".encode_utf16().collect::<Vec<u16>>();
    let drives = split_drives(&units);
    assert_eq!(drives.len(), 2);
    let name = "NTFS".encode_utf16().collect::<Vec<u16>>();
    let mount = windows_mount(&drives[1], DRIVE_FIXED, &name).unwrap();
    assert_eq!((mount.device.as_str(), mount.mountpoint.as_str()), ("D:", "D:\\"));
    assert!(windows_mount(&drives[1], 4, &name).is_none());
    let other = "FAT32".encode_utf16().collect::<Vec<u16>>();
    assert!(windows_mount(&drives[1], DRIVE_FIXED, &other).is_none());
    let found = find_local_mount(Host::Windows, &vec![mount], "d:/").unwrap();
    assert_eq!(found.device, "D:");
}

#[test]
fn mounts_that_are_not_there_are_named() {
    let table = vec![MountInfo {
        device: "/dev/sda1".into(),
        mountpoint: "/".into(),
        fs: FsKind::Ext4,
        source: MountSource::Local,
    }];
    assert_eq!(
        find_local_mount(Host::Linux, &table, "/mnt").unwrap_err(),
        "no supported native filesystem is mounted at /mnt on linux"
    );
}

#[test]
fn scans_are_sent_in_batches_of_the_chosen_folders() {
    let mut records = (0..2000).map(|n| record(&format!("/home/{n}"), 1)).collect::<Vec<_>>();
    records.push(record("/proc/1", 1));
    records.push(record("/etc/hosts", 1));
    let stats = ScanStats { detail: "x".into(), ..ScanStats::default() };
    let (batches, stats) =
        scan_batches(Host::Linux, "/", &vec!["/home".to_owned(), "/proc".to_owned()], records, stats);
    assert_eq!(batches.iter().map(Vec::len).collect::<Vec<_>>(), vec![1024, 976]);
    assert_eq!((stats.records, stats.files, stats.dirs), (2000, 2000, 0));
    assert_eq!(stats.detail, "x");
}

#[test]
fn texts_are_folded_by_unicode() {
    assert_eq!(Query::parse("ÄRGER").terms, vec!["ärger"]);
    assert_eq!(record("/a/Ärger.ÖÄ", 1).extension(), "öä");
}
