//! The library's general promises, on concrete values.

use neutrasearch::bytes::{le_u64, u32_at, write_u32, write_u64};
use neutrasearch::clock::Stopwatch;
use neutrasearch::codec::{decode_records, encode_records};
use neutrasearch::compact_index::{intersect, CompactIndex, IndexError};
use neutrasearch::delta::{DeltaChange, DeltaError, DeltaIndex};
use neutrasearch::dirs::{ancestor_paths, parent_path, tidied};
use neutrasearch::ext4::{scan_image, DirBlock, DirLink, Meta, TOP_INODE};
use neutrasearch::index::Index;
use neutrasearch::mounts::FsKind;
use neutrasearch::order::key_order;
use neutrasearch::query::{Query, SortKey};
use neutrasearch::rank::{retain_best, sort_best, Ranking, SearchHit};
use neutrasearch::scope::{path_is_under, path_is_under_ci};
use neutrasearch::store::{DurableStore, StoreFiles};
use neutrasearch::trigram::collect_trigrams;
use neutrasearch::types::{FileKind, FileRecord};
use neutrasearch::varint::{decode_posting, encode_posting, get_varint, put_varint};

fn record(path: &str, size: u64) -> FileRecord {
    FileRecord {
        path: path.to_owned(),
        size,
        mtime: size as i64,
        mode: 0,
        kind: FileKind::File,
        fs: FsKind::Btrfs,
        native_id: size,
        native_parent: 1,
        source: 0,
    }
}

fn hit(path: &str, score: u32) -> SearchHit {
    SearchHit { score, record: record(path, 1) }
}

fn paths(hits: &[SearchHit]) -> Vec<String> {
    hits.iter().map(|hit| hit.record.path.clone()).collect()
}

#[test]
fn numbers_are_read_back() {
    let mut out = Vec::new();
    write_u64(&mut out, 0x0102_0304_0506_0708);
    assert_eq!(out[0], 8);
    assert_eq!(le_u64(&out), 0x0102_0304_0506_0708);
    write_u32(&mut out, 77);
    assert_eq!(u32_at(&out, 8).unwrap(), 77);
    assert!(u32_at(&out, 9).is_err());
    for n in [0u32, 127, 128, 300, u32::MAX] {
        let mut bytes = Vec::new();
        put_varint(n, &mut bytes);
        let mut at = 0usize;
        assert_eq!(get_varint(&bytes, &mut at).unwrap(), n);
        assert_eq!(at, bytes.len());
    }
    let mut at = 0usize;
    assert!(get_varint(&[0x80], &mut at).is_err());
}

#[test]
fn postings_are_read_back() {
    let ids = vec![3u32, 3, 4, 900, u32::MAX];
    assert_eq!(decode_posting(&encode_posting(&ids)).unwrap(), ids);
    assert_eq!(encode_posting(&[1, 2, 3]), vec![1, 1, 1]);
    assert_eq!(intersect(&[1, 3, 5, 9], &[2, 3, 9, 11]), vec![3, 9]);
}

#[test]
fn records_are_read_back() {
    let records = vec![record("/a", 1), record("/b\u{e4}", 2)];
    let bytes = encode_records(&records);
    let read = decode_records(&bytes).unwrap();
    assert_eq!(read.len(), 2);
    assert_eq!((read[1].path.as_str(), read[1].size), ("/b\u{e4}", 2));
    assert!(decode_records(&bytes[..bytes.len() - 1]).is_none());
    assert_ne!(bytes, encode_records(&[record("/a", 1), record("/c", 2)]));
}

#[test]
fn the_order_of_records_does_not_matter() {
    let mut forward = Index::new();
    let mut backward = Index::new();
    let records = ["/x/note", "/x/notes.txt", "/notebook/a", "/y/other"];
    for path in records {
        forward.push(record(path, 1));
    }
    for path in records.iter().rev() {
        backward.push(record(path, 1));
    }
    let mut query = Query::parse("note");
    query.sort = SortKey::PathAsc;
    let (first, _) = forward.search(&query);
    let (second, _) = backward.search(&query);
    assert_eq!(paths(&first), paths(&second));
    assert_eq!(first.len(), 3);
}

#[test]
fn pruning_keeps_the_best() {
    let ranking = Ranking { sort: SortKey::Relevance, paths_break_ties: true };
    let all = || vec![hit("/c", 5), hit("/a", 9), hit("/d", 1), hit("/b", 9)];
    let kept = retain_best(all(), 2, ranking);
    assert_eq!(paths(&sort_best(kept, ranking, 2)), vec!["/a", "/b"]);
    assert_eq!(paths(&sort_best(all(), ranking, 0)), vec!["/a", "/b", "/c", "/d"]);
}

#[test]
fn terms_leave_their_trigrams() {
    let grams = |text: &str| {
        let mut out = Vec::new();
        collect_trigrams(text, &mut out);
        out
    };
    let path = grams("/home/Report-2026.pdf");
    assert!(grams("report").iter().all(|gram| path.contains(gram)));
    assert!(grams("ab").is_empty());
}

fn files(base: Vec<u8>) -> StoreFiles {
    StoreFiles {
        base: Some(base),
        stale: false,
        log: None,
        marker: None,
        stage: None,
        stage_stale: false,
    }
}

#[test]
fn compaction_changes_no_answer_and_bounds_the_log() {
    let (base, _) = CompactIndex::build(&[record("/old.txt", 1), record("/kept.txt", 2)], 5).unwrap();
    // The smallest threshold: one frame makes the log due.
    let (mut store, _, _) = DurableStore::open(files(base), Some(0)).ok().unwrap();
    let changes = || {
        vec![
            DeltaChange::Remove("/old.txt".into()),
            DeltaChange::Upsert(record("/new.txt", 3)),
        ]
    };
    let update = store.apply_bounded(changes(), 6, 7);
    let behind = update.behind.unwrap();
    assert_eq!(update.outcome.ok().unwrap().wal_bytes, 16);
    assert_eq!(behind.records, 2);
    assert_eq!(store.generation(), 7);
    let mut query = Query::parse("txt");
    query.sort = SortKey::NameAsc;
    let (hits, _) = store.search(&query).unwrap();
    assert_eq!(paths(&hits), vec!["/kept.txt", "/new.txt"]);
    let image = CompactIndex::open(behind.image, false).unwrap();
    assert_eq!(image.generation(), 7);
    let (built, _) = image.search(&query).unwrap();
    assert_eq!(paths(&built), paths(&hits));
}

#[test]
fn logs_serve_their_own_generation_only() {
    let (mut log, _) = DeltaIndex::open(None, 7).unwrap();
    let change = DeltaChange::Upsert(record("/a", 1));
    let frame = log.frame_for(&change).unwrap();
    log.apply(change, frame.len());
    let mut bytes = neutrasearch::delta::header(7);
    bytes.extend_from_slice(&frame);
    assert_eq!(log.wal_bytes(), bytes.len() as u64);
    let (read, repair) = DeltaIndex::open(Some(&bytes), 7).unwrap();
    assert_eq!(read.upserts()[0].path, "/a");
    assert!(repair.truncate_to.is_none() && !repair.write_header);
    assert!(matches!(DeltaIndex::open(Some(&bytes), 8), Err(DeltaError::WrongGeneration)));
}

#[test]
fn scopes_nest_and_keep_siblings_out() {
    for under in [path_is_under, path_is_under_ci] {
        assert!(under("/a/b/c", "/a/b"));
        assert!(under("/a/b/c", "/a"));
        assert!(under("/a", "/a"));
        assert!(!under("/ab", "/a"));
    }
    assert!(path_is_under_ci(r"C:\A\b", "c:/a"));
    assert!(!path_is_under(r"C:\A\b", "c:/a"));
    let query = Query::parse("scope_roots:/x under:/x");
    assert!(query.scope_roots.is_empty());
}

#[test]
fn folders_that_hold_themselves_are_listed_once() {
    let folder = Meta { mode: 0o040755, size: 0, mtime: 0 };
    let metas = vec![(TOP_INODE, folder), (20, Meta { mode: 0o040755, size: 0, mtime: 0 })];
    let blocks = vec![
        DirBlock { ino: TOP_INODE, links: vec![DirLink { ino: 20, name: "loop".into() }] },
        DirBlock { ino: 20, links: vec![DirLink { ino: 20, name: "again".into() }] },
    ];
    let (records, stats) = scan_image(&metas, &blocks, "/", &Stopwatch::start());
    assert_eq!(stats.records, 2);
    assert_eq!(records[1].path, "/loop/again");
}

#[test]
fn tidy_paths_stay_and_ancestors_differ() {
    let text = |s: &str| s.chars().collect::<Vec<char>>();
    let once = tidied(&text(r"C:\Users\\alex\"));
    assert_eq!(tidied(&once), once);
    let above = ancestor_paths(&text("/a/b/c"));
    let mut distinct = above.clone();
    distinct.sort();
    distinct.dedup();
    assert_eq!(distinct.len(), above.len());
}

#[test]
fn keys_are_put_in_order() {
    let keys = vec![b"b".to_vec(), b"a".to_vec(), b"b".to_vec()];
    assert_eq!(key_order(&keys, false), vec![1, 0, 2]);
}

#[test]
fn built_records_come_back_sorted() {
    let given = [record("/c", 3), record("/a", 1), record("/b", 2), record("/a", 1)];
    let (bytes, stats) = CompactIndex::build(&given, 9).unwrap();
    let opened = CompactIndex::open(bytes, false).unwrap();
    let records = opened.records().unwrap();
    let listed: Vec<&str> = records.iter().map(|record| record.path.as_str()).collect();
    assert_eq!(listed, vec!["/a", "/a", "/b", "/c"]);
    assert_eq!((opened.len(), stats.records, opened.generation()), (4, 4, 9));
    let (bytes, stats) = CompactIndex::build(&given, 0).unwrap();
    assert_eq!(stats.generation, 1);
    assert_eq!(CompactIndex::open(bytes, false).unwrap().generation(), 1);
}

#[test]
fn stray_bytes_behind_a_log_are_cut_off() {
    let (writer, _) = DeltaIndex::open(None, 7).unwrap();
    let mut whole = neutrasearch::delta::header(7);
    let frame = writer.frame_for(&DeltaChange::Upsert(record("/a", 1))).unwrap();
    whole.extend_from_slice(&frame);
    for stray in [&[][..], &[0xff], &[0xff, 0xff], &[0xff; 3], &frame[..frame.len() - 1]] {
        let mut bytes = whole.clone();
        bytes.extend_from_slice(stray);
        let (read, repair) = DeltaIndex::open(Some(&bytes), 7).unwrap();
        assert_eq!(read.upserts()[0].path, "/a");
        assert_eq!(read.wal_bytes(), whole.len() as u64);
        let cut = if stray.is_empty() { None } else { Some(whole.len() as u64) };
        assert_eq!(repair.truncate_to, cut);
        assert!(matches!(DeltaIndex::open(Some(&bytes), 8), Err(DeltaError::WrongGeneration)));
    }
    let mut damaged = whole.clone();
    damaged[20] ^= 1;
    assert!(matches!(DeltaIndex::open(Some(&damaged), 7), Err(DeltaError::ChecksumMismatch)));
}

#[test]
fn ancestors_are_the_chain_of_parents() {
    let text = |s: &str| s.chars().collect::<Vec<char>>();
    for path in ["/a/b/c", "/", r"C:\Users\alex", r"\\nas\share\docs\x"] {
        let above = ancestor_paths(&text(path));
        assert_eq!(above[0], text("/"));
        assert_eq!(above.last().unwrap(), &tidied(&text(path)));
        for pair in above.windows(2) {
            assert_eq!(parent_path(&pair[1]), pair[0]);
        }
    }
    assert_eq!(parent_path(&text("/")), text("/"));
}

#[test]
fn compacted_stores_answer_the_same() {
    let base = CompactIndex::build(&[record("/gone.txt", 1), record("/kept.txt", 2)], 5).unwrap().0;
    let (mut store, _, _) = DurableStore::open(files(base), None).ok().unwrap();
    let changes = vec![
        DeltaChange::Remove("/gone.txt".into()),
        DeltaChange::Upsert(record("/new.txt", 3)),
    ];
    assert!(store.apply(changes).1.is_ok());
    let query = Query::parse("ext:txt");
    let (before, found) = store.search(&query).unwrap();
    let compaction = store.compact(6).ok().unwrap();
    let (after, again) = store.search(&query).unwrap();
    assert_eq!(paths(&after), paths(&before));
    // The newer file comes first.
    assert_eq!(paths(&after), vec!["/new.txt", "/kept.txt"]);
    assert_eq!(again.matched, found.matched);
    assert_eq!((compaction.records, again.scanned), (2, 2));
    assert_eq!(store.generation(), 6);
}

/// The CRC-32 of some bytes, bit by bit.
fn crc_of(bytes: &[u8]) -> u32 {
    let mut rest = u32::MAX;
    for byte in bytes {
        rest ^= u32::from(*byte);
        for _ in 0..8 {
            rest = if rest & 1 == 1 { (rest >> 1) ^ 0xedb8_8320 } else { rest >> 1 };
        }
    }
    !rest
}

#[test]
fn every_flipped_bit_of_an_index_is_refused() {
    assert_eq!(crc_of(b"123456789"), 0xcbf4_3926);
    let given = [record("/docs/one.txt", 1), record("/docs/two.txt", 2)];
    let (image, _) = CompactIndex::build(&given, 9).unwrap();
    let end = image.len() - 4;
    assert_eq!(image[end..], crc_of(&image[..end]).to_le_bytes());
    assert!(CompactIndex::open(image.clone(), false).is_ok());
    assert!(CompactIndex::open(image.clone(), true).is_err());
    for at in 0..image.len() {
        for bit in 0..8 {
            let mut bytes = image.clone();
            bytes[at] ^= 1 << bit;
            let error = CompactIndex::open(bytes, false).err().unwrap();
            assert_eq!(matches!(error, IndexError::NotAnIndex), at < 8);
            assert_eq!(matches!(error, IndexError::ChecksumMismatch), at >= 8);
        }
    }
}

#[test]
fn numbers_are_read_up_to_the_end_only() {
    for (bytes, from, to) in [(&[1u8][..], 2, 2), (&[0x80, 0x80], 0, 2), (&[0x80; 7], 1, 7)] {
        let mut at = from;
        assert!(get_varint(bytes, &mut at).is_err());
        assert_eq!(at, to);
    }
}

#[test]
fn compactions_take_a_new_generation() {
    let base = CompactIndex::build(&[record("/a.txt", 1)], 5).unwrap().0;
    let (mut store, _, _) = DurableStore::open(files(base), None).ok().unwrap();
    assert!(store.compact(5).is_ok());
    assert_eq!(store.generation(), 6);
    assert!(store.compact(9).is_ok());
    assert_eq!(store.generation(), 9);
    assert!(store.compact(0).is_ok());
    assert_eq!(store.generation(), 1);
    assert!(store.compact(0).is_ok());
    assert_eq!(store.generation(), 2);
}
