//! Indexes on disk, their logs, and recovery, over the bytes of the files.

use neutrasearch::compact::new_generation;
use neutrasearch::compact_index::{CompactIndex, IndexError};
use neutrasearch::delta::{header, DeltaChange, DeltaError, DeltaIndex};
use neutrasearch::mounts::FsKind;
use neutrasearch::query::Query;
use neutrasearch::store::{
    compaction_marker_bytes, read_compaction_marker, DurableStore, LogStep, SnapshotError,
    StoreError, StoreFiles,
};
use neutrasearch::types::{FileKind, FileRecord};

fn record(path: &str, id: u64) -> FileRecord {
    FileRecord {
        path: path.to_owned(),
        size: id,
        mtime: id as i64,
        mode: 0,
        kind: FileKind::File,
        fs: FsKind::Ext4,
        native_id: 100 + id,
        native_parent: 10 + id,
        source: 0,
    }
}

fn image(paths: &[(&str, u64)], generation: u64) -> Vec<u8> {
    let records: Vec<FileRecord> = paths.iter().map(|(p, id)| record(p, *id)).collect();
    CompactIndex::build(&records, generation).unwrap().0
}

/// The files of a store.
struct Disk {
    base: Vec<u8>,
    log: Option<Vec<u8>>,
    marker: Option<Vec<u8>>,
    stage: Option<Vec<u8>>,
}

impl Disk {
    fn new(base: Vec<u8>) -> Disk {
        Disk { base, log: None, marker: None, stage: None }
    }

    fn files(&self) -> StoreFiles {
        StoreFiles {
            base: Some(self.base.clone()),
            stale: false,
            log: self.log.clone(),
            marker: self.marker.clone(),
            stage: self.stage.clone(),
            stage_stale: false,
        }
    }

    /// Opens the store and does to the files what the opening asks for.
    fn open(&mut self, compact_at: Option<u64>) -> Result<DurableStore, StoreError> {
        let (store, log, publish) = DurableStore::open(self.files(), compact_at)?;
        match log {
            LogStep::Fresh => self.log = Some(header(store.generation())),
            LogStep::Keep(repair) => {
                let bytes = self.log.get_or_insert_with(Vec::new);
                if let Some(len) = repair.truncate_to {
                    bytes.truncate(len as usize);
                }
                if repair.write_header {
                    *bytes = header(store.generation());
                }
            }
        }
        if publish {
            self.base = self.stage.take().unwrap();
        }
        self.stage = None;
        self.marker = None;
        Ok(store)
    }

    fn append(&mut self, frames: &[Vec<u8>]) {
        for frame in frames {
            self.log.as_mut().unwrap().extend_from_slice(frame);
        }
    }
}

fn replacing() -> Vec<DeltaChange> {
    vec![
        DeltaChange::Remove("/old.txt".into()),
        DeltaChange::Upsert(record("/new.txt", 2)),
    ]
}

#[test]
fn durable_store_syncs_and_searches_delta() {
    let mut disk = Disk::new(image(&[("/old.txt", 1)], 5));
    let mut store = disk.open(None).unwrap();
    let (frames, applied) = store.apply(replacing());
    assert_eq!(applied.unwrap().changes, 2);
    disk.append(&frames);
    let (hits, stats) = store.search(&Query::parse("ext:txt")).unwrap();
    assert_eq!(stats.matched, 1);
    assert_eq!(hits[0].record.path, "/new.txt");

    let reopened = disk.open(None).unwrap();
    let (hits, _) = reopened.search(&Query::parse("new")).unwrap();
    assert_eq!(hits[0].record.path, "/new.txt");
}

#[test]
fn ignores_unpublished_partial_marker_and_staged_base() {
    let mut disk = Disk::new(image(&[("/old.txt", 1)], 5));
    disk.open(None).unwrap();
    disk.stage = Some(image(&[("/new.txt", 2)], 6));
    let store = disk.open(None).unwrap();
    let (hits, stats) = store.search(&Query::parse("ext:txt")).unwrap();
    assert_eq!(stats.matched, 1);
    assert_eq!(hits[0].record.path, "/old.txt");
}

#[test]
fn recovers_compaction_after_marker_before_wal_reset() {
    let mut disk = Disk::new(image(&[("/old.txt", 1)], 5));
    let mut store = disk.open(None).unwrap();
    let (frames, _) = store.apply(replacing());
    disk.append(&frames);
    disk.stage = Some(image(&[("/new.txt", 2)], 6));
    disk.marker = Some(compaction_marker_bytes(6));

    let recovered = disk.open(None).unwrap();
    let (hits, stats) = recovered.search(&Query::parse("ext:txt")).unwrap();
    assert_eq!(stats.matched, 1);
    assert_eq!(hits[0].record.path, "/new.txt");
    assert_eq!(recovered.generation(), 6);
    assert!(disk.marker.is_none());
}

#[test]
fn recovers_compaction_after_wal_reset_before_base_publish() {
    let mut disk = Disk::new(image(&[("/old.txt", 1)], 5));
    let mut store = disk.open(None).unwrap();
    let (frames, _) = store.apply(replacing());
    disk.append(&frames);
    disk.stage = Some(image(&[("/new.txt", 2)], 6));
    disk.marker = Some(compaction_marker_bytes(6));
    disk.log = Some(header(6));

    let recovered = disk.open(None).unwrap();
    let (hits, stats) = recovered.search(&Query::parse("ext:txt")).unwrap();
    assert_eq!(stats.matched, 1);
    assert_eq!(hits[0].record.path, "/new.txt");
    assert_eq!(recovered.generation(), 6);
    assert!(disk.marker.is_none());
}

#[test]
fn recovers_when_marker_is_lost_with_a_torn_reset_wal() {
    for length in [0, 1, 7, 15] {
        let mut disk = Disk::new(image(&[("/old.txt", 1)], 5));
        disk.stage = Some(image(&[("/new.txt", 2)], 6));
        disk.log = Some(header(6)[..length].to_vec());
        let recovered = disk.open(None).unwrap();
        let (hits, stats) = recovered.search(&Query::parse("ext:txt")).unwrap();
        assert_eq!(stats.matched, 1);
        assert_eq!(hits[0].record.path, "/new.txt");
        assert_eq!(recovered.generation(), 6);
    }
}

#[test]
fn recovers_torn_wal_header_when_staged_base_is_verified() {
    for length in [0, 1, 7, 15] {
        let mut disk = Disk::new(image(&[("/old.txt", 1)], 5));
        disk.stage = Some(image(&[("/new.txt", 2)], 6));
        disk.marker = Some(compaction_marker_bytes(6));
        disk.log = Some(header(6)[..length].to_vec());
        let recovered = disk.open(None).unwrap();
        let (hits, stats) = recovered.search(&Query::parse("ext:txt")).unwrap();
        assert_eq!(stats.matched, 1);
        assert_eq!(hits[0].record.path, "/new.txt");
        assert_eq!(recovered.generation(), 6);
    }
}

#[test]
fn corrupt_complete_wal_is_not_discarded_during_compaction_recovery() {
    let mut disk = Disk::new(image(&[("/old.txt", 1)], 5));
    disk.stage = Some(image(&[("/new.txt", 2)], 6));
    disk.marker = Some(compaction_marker_bytes(6));
    let (writer, _) = DeltaIndex::open(None, 6).unwrap();
    let frame = writer
        .frame_for(&DeltaChange::Upsert(record("/later.txt", 3)))
        .unwrap();
    let mut log = header(6);
    log.extend_from_slice(&frame);
    *log.last_mut().unwrap() ^= 0xff;
    disk.log = Some(log);
    let error = disk.open(None).err().unwrap();
    assert!(error.message().contains("checksum mismatch"));
    assert!(disk.marker.is_some());
}

#[test]
fn durable_store_compacts_base_and_resets_delta_generation() {
    let mut disk = Disk::new(image(&[("/old.txt", 1)], 5));
    let mut store = disk.open(Some(17)).unwrap();
    let update = store.apply_bounded(replacing(), 6, 7);
    let applied = update.outcome.unwrap();
    assert_eq!(applied.changes, 2);
    assert_eq!(applied.wal_bytes, 16);
    assert!(update.ahead.is_none());
    let compaction = update.behind.unwrap();
    assert_eq!(store.generation(), 7);
    assert_eq!(compaction.header, header(7));
    let (hits, stats) = store.search(&Query::parse("ext:txt")).unwrap();
    assert_eq!(stats.matched, 1);
    assert_eq!(hits[0].record.path, "/new.txt");

    disk.base = compaction.image;
    disk.log = Some(compaction.header);
    let reopened = disk.open(None).unwrap();
    let (hits, stats) = reopened.search(&Query::parse("ext:txt")).unwrap();
    assert_eq!(stats.matched, 1);
    assert_eq!(hits[0].record.path, "/new.txt");
}

#[test]
fn compactions_interrupted_at_any_moment_are_recovered() {
    let old = image(&[("/old.txt", 1)], 5);
    let mut disk = Disk::new(old.clone());
    let mut store = disk.open(None).unwrap();
    let (frames, _) = store.apply(replacing());
    disk.append(&frames);
    let log = disk.log.clone().unwrap();
    let made = store.compact(6).unwrap();
    // Staged; marked; log reset; base published.
    let moments = vec![
        (old.clone(), log.clone(), None, Some(made.image.clone())),
        (old.clone(), log, Some(made.marker.clone()), Some(made.image.clone())),
        (old, made.header.clone(), Some(made.marker), Some(made.image.clone())),
        (made.image, made.header, None, None),
    ];
    for (base, log, marker, stage) in moments {
        let mut disk = Disk { base, log: Some(log), marker, stage };
        let recovered = disk.open(None).unwrap();
        let (hits, stats) = recovered.search(&Query::parse("ext:txt")).unwrap();
        assert_eq!(stats.matched, 1);
        assert_eq!(hits[0].record.path, "/new.txt");
        // Opening once more changes nothing.
        let again = disk.open(None).unwrap();
        assert_eq!(again.generation(), recovered.generation());
    }
}

#[test]
fn markers_are_read_back() {
    assert_eq!(read_compaction_marker(&compaction_marker_bytes(77)).unwrap(), 77);
    assert!(matches!(read_compaction_marker(&[1, 2, 3]), Err(StoreError::MarkerLength)));
    assert!(matches!(
        read_compaction_marker(&compaction_marker_bytes(0)),
        Err(StoreError::ZeroMarker)
    ));
}

#[test]
fn stores_without_a_base_are_refused() {
    let files = StoreFiles {
        base: None,
        stale: false,
        log: None,
        marker: None,
        stage: None,
        stage_stale: false,
    };
    assert!(matches!(DurableStore::open(files, None), Err(StoreError::NoBase)));
    let mut disk = Disk::new(image(&[("/a", 1)], 5));
    disk.marker = Some(compaction_marker_bytes(6));
    assert!(matches!(disk.open(None), Err(StoreError::NoStage)));
    disk.stage = Some(image(&[("/a", 1)], 7));
    assert!(matches!(disk.open(None), Err(StoreError::GenerationsDiffer)));
}

#[test]
fn compact_roundtrip_and_substring_search() {
    let records = vec![
        record("/home/a/AlphaDocument.txt", 1),
        record("/home/a/beta.rs", 2),
        record("/opt/gamma/notes.txt", 3),
    ];
    let (bytes, stats) = CompactIndex::build(&records, new_generation(3, 9)).unwrap();
    assert_eq!(stats.records, 3);
    assert_eq!(stats.generation, 10);
    let index = CompactIndex::open(bytes, false).unwrap();
    assert_eq!(index.generation(), stats.generation);
    let (hits, s) = index.search(&Query::parse("document ext:txt")).unwrap();
    assert_eq!(s.matched, 1);
    assert_eq!(hits[0].record.path, "/home/a/AlphaDocument.txt");
    assert_eq!(hits[0].record.native_id, 101);
    assert_eq!(hits[0].record.native_parent, 11);
    let (hits, _) = index.search(&Query::parse("gamma")).unwrap();
    assert_eq!(hits[0].record.path, "/opt/gamma/notes.txt");
}

#[test]
fn indexes_of_many_blocks_find_what_a_scan_finds() {
    let mut records = Vec::new();
    for i in 0..5000u64 {
        records.push(record(&format!("/data/{:04}/file-{:04}.bin", i % 97, i), i));
    }
    let (bytes, _) = CompactIndex::build(&records, 3).unwrap();
    let index = CompactIndex::open(bytes, false).unwrap();
    assert_eq!(index.len(), 5000);
    assert_eq!(index.records().unwrap().len(), 5000);
    for text in ["file-0042", "0096/", "bin", "e-49"] {
        let expected = records.iter().filter(|r| r.path.contains(text)).count();
        let (_, stats) = index.search(&Query::parse(text)).unwrap();
        assert_eq!(stats.matched, expected as u64);
    }
}

#[test]
fn stale_marker_blocks_readers_until_full_rebuild() {
    let old = image(&[("/old.txt", 1)], 5);
    assert_eq!(CompactIndex::generation_on_disk(&old, false).unwrap(), 5);
    assert!(matches!(CompactIndex::open(old.clone(), true), Err(IndexError::Stale)));
    assert!(CompactIndex::generation_on_disk(&old, true).is_err());
    let replacement = image(&[("/new.txt", 2)], 6);
    assert_eq!(CompactIndex::generation_on_disk(&replacement, false).unwrap(), 6);
    assert!(CompactIndex::open(replacement, false).is_ok());
}

#[test]
fn checksum_rejects_corrupted_compact_data() {
    const HEADER: usize = 64;
    let good = image(&[("/safe.txt", 1)], 5);
    let mut bytes = good.clone();
    bytes[HEADER] ^= 0x40;
    assert!(CompactIndex::open(bytes.clone(), false).is_err());
    assert!(matches!(
        CompactIndex::open(bytes, false),
        Err(IndexError::ChecksumMismatch)
    ));
    let mut bytes = good.clone();
    let last = bytes.len() - 1;
    bytes[last] ^= 0x40;
    assert!(matches!(
        CompactIndex::open(bytes, false),
        Err(IndexError::ChecksumMismatch)
    ));
    let mut bytes = good;
    bytes[0] ^= 0x40;
    assert!(matches!(CompactIndex::open(bytes, false), Err(IndexError::NotAnIndex)));
    assert!(matches!(
        CompactIndex::open(vec![0; 200], false),
        Err(IndexError::NotAnIndex)
    ));
}

#[test]
fn build_rejects_non_normalized_paths() {
    assert!(CompactIndex::build(&[record("/allowed/../secret", 1)], 1).is_err());
    assert!(CompactIndex::build(&[record("relative", 1)], 1).is_err());
}

#[test]
fn publishing_replacement_keeps_existing_mmap_readable() {
    let old = CompactIndex::open(image(&[("/old.txt", 1)], 5), false).unwrap();
    let staged = image(&[("/new.txt", 2)], 6);
    let staged_reader = CompactIndex::open(staged.clone(), false).unwrap();
    let published = CompactIndex::publish(staged, false).unwrap();
    let new = CompactIndex::open(published, false).unwrap();
    assert_eq!(old.search(&Query::parse("old")).unwrap().0[0].record.path, "/old.txt");
    assert_eq!(new.search(&Query::parse("new")).unwrap().0[0].record.path, "/new.txt");
    assert_eq!(
        staged_reader.search(&Query::parse("new")).unwrap().0[0].record.path,
        "/new.txt"
    );
}

#[test]
fn snapshot_reader_selects_coherent_side_of_compaction_marker() {
    let base = image(&[("/old.txt", 1)], 5);
    let stage = image(&[("/new.txt", 2)], 6);
    let (current, delta) = CompactIndex::open_with_delta_snapshot(
        base.clone(),
        false,
        Some(header(5)),
        true,
        Some(stage.clone()),
        false,
    )
    .ok()
    .unwrap();
    assert_eq!(current.generation(), 5);
    assert_eq!(delta.unwrap().generation(), 5);

    let (replacement, delta) = CompactIndex::open_with_delta_snapshot(
        base.clone(),
        false,
        Some(header(6)),
        true,
        Some(stage),
        false,
    )
    .ok()
    .unwrap();
    assert_eq!(replacement.generation(), 6);
    assert_eq!(delta.unwrap().generation(), 6);

    let error: SnapshotError =
        CompactIndex::open_with_delta_snapshot(base, false, Some(header(9)), false, None, false)
            .err()
            .unwrap();
    assert!(!error.message().is_empty());
}

fn logged(changes: &[DeltaChange], generation: u64) -> Vec<u8> {
    let (mut delta, _) = DeltaIndex::open(None, generation).unwrap();
    let mut log = header(generation);
    for change in changes {
        let frame = delta.frame_for(change).unwrap();
        delta.apply(change.clone(), frame.len());
        log.extend_from_slice(&frame);
    }
    log
}

#[test]
fn delta_upserts_and_tombstones_shadow_the_base() {
    let base =
        CompactIndex::open(image(&[("/a/alpha.txt", 1), ("/b/beta.txt", 2)], 5), false).unwrap();
    let log = logged(
        &[
            DeltaChange::Remove("/a/alpha.txt".into()),
            DeltaChange::Upsert(record("/b/beta.txt", 20)),
            DeltaChange::Upsert(record("/c/gamma.txt", 3)),
        ],
        5,
    );
    let (delta, _) = DeltaIndex::open(Some(&log), 5).unwrap();
    let (hits, stats) = base
        .search_with_delta(&Query::parse("ext:txt"), &delta)
        .unwrap();
    assert_eq!(stats.matched, 2);
    assert_eq!(hits.len(), 2);
    assert!(!hits.iter().any(|hit| hit.record.path == "/a/alpha.txt"));
    assert!(hits
        .iter()
        .any(|hit| hit.record.path == "/b/beta.txt" && hit.record.size == 20));
    assert!(hits.iter().any(|hit| hit.record.path == "/c/gamma.txt"));
}

#[test]
fn wal_replays_upserts_and_tombstones() {
    let log = logged(
        &[
            DeltaChange::Upsert(record("/a", 1)),
            DeltaChange::Upsert(record("/b", 2)),
            DeltaChange::Remove("/a".into()),
        ],
        7,
    );
    let (delta, _) = DeltaIndex::open_with_threshold(Some(&log), 7, 1).unwrap();
    assert!(delta.needs_compaction());
    assert!(delta.is_removed("/a"));
    assert_eq!(delta.upserts()[0].path, "/b");
    assert!(matches!(
        DeltaIndex::open(Some(&log), 8),
        Err(DeltaError::WrongGeneration)
    ));
}

#[test]
fn complete_frame_with_bad_checksum_fails_closed() {
    let mut log = logged(&[DeltaChange::Upsert(record("/a", 1))], 11);
    *log.last_mut().unwrap() ^= 0x80;
    assert!(matches!(
        DeltaIndex::open(Some(&log), 11),
        Err(DeltaError::ChecksumMismatch)
    ));
}

#[test]
fn torn_tail_is_truncated_before_new_appends() {
    let mut log = logged(&[DeltaChange::Upsert(record("/a", 1))], 9);
    let verified = log.len() as u64;
    log.extend_from_slice(&[4, 0]);
    let (recovered, repair) = DeltaIndex::open(Some(&log), 9).unwrap();
    assert_eq!(recovered.wal_bytes(), verified);
    assert_eq!(repair.truncate_to, Some(verified));
    log.truncate(verified as usize);
    let frame = recovered
        .frame_for(&DeltaChange::Upsert(record("/b", 2)))
        .unwrap();
    log.extend_from_slice(&frame);
    let (reopened, _) = DeltaIndex::open(Some(&log), 9).unwrap();
    assert_eq!(reopened.upserts().len(), 2);
}

#[test]
fn snapshots_follow_the_log_and_notice_a_reset() {
    let mut log = logged(&[DeltaChange::Upsert(record("/first", 1))], 10);
    let (mut snapshot, _) = DeltaIndex::open_snapshot(Some(&log), 10).unwrap();
    assert_eq!(snapshot.upserts().len(), 1);
    let (writer, _) = DeltaIndex::open(Some(&log), 10).unwrap();
    log.extend_from_slice(
        &writer
            .frame_for(&DeltaChange::Upsert(record("/second", 2)))
            .unwrap(),
    );
    assert!(snapshot.refresh(&log).unwrap() > 0);
    assert_eq!(snapshot.upserts().len(), 2);
    assert!(snapshot.refresh(&header(11)).is_err());
    assert!(matches!(
        snapshot.frame_for(&DeltaChange::Remove("/x".into())),
        Err(DeltaError::ReadOnly)
    ));
}

#[test]
fn reset_rebinds_the_empty_wal_without_releasing_the_writer_lock() {
    let log = logged(&[DeltaChange::Upsert(record("/a", 1))], 7);
    let (mut delta, _) = DeltaIndex::open(Some(&log), 7).unwrap();
    let fresh = delta.reset(8).unwrap();
    assert_eq!(delta.generation(), 8);
    assert_eq!(delta.wal_bytes(), 16);
    assert_eq!(delta.change_count(), 0);
    assert_eq!(fresh.len(), 16);
    let (reopened, _) = DeltaIndex::open(Some(&fresh), 8).unwrap();
    assert_eq!(reopened.change_count(), 0);
    assert!(DeltaIndex::open(Some(&fresh), 7).is_err());
}

#[test]
fn logs_are_written_as_bincode_does() {
    let (delta, _) = DeltaIndex::open(None, 7).unwrap();
    let frame = delta
        .frame_for(&DeltaChange::Remove("/gone".into()))
        .unwrap();
    let payload = bincode::serialize(&(1u32, "/gone")).unwrap();
    let mut expected = (payload.len() as u32).to_le_bytes().to_vec();
    expected.extend_from_slice(&crc32fast::hash(&payload).to_le_bytes());
    expected.extend_from_slice(&payload);
    assert_eq!(frame, expected);
}
