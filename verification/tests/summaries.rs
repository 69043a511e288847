//! Directory totals, with and without live changes.

use neutrasearch::compact_index::CompactIndex;
use neutrasearch::delta::{header, DeltaChange, DeltaIndex};
use neutrasearch::dir_summary::{DirectorySummary, Publication};
use neutrasearch::host::Host;
use neutrasearch::mounts::FsKind;
use neutrasearch::overlay::{DirectorySummaryOverlay, OverlayError};
use neutrasearch::sidecar::SummaryError;
use neutrasearch::types::{FileKind, FileRecord};

fn record(path: &str, size: u64, kind: FileKind) -> FileRecord {
    FileRecord {
        path: path.to_owned(),
        size,
        mtime: 0,
        mode: 0,
        kind,
        fs: FsKind::Ext4,
        native_id: 1,
        native_parent: 1,
        source: 0,
    }
}

fn summary(records: &[FileRecord], generation: u64) -> DirectorySummary {
    DirectorySummary::build(Host::Linux, records, generation).ok().unwrap().1
}

/// The log of some changes, opened over an index of these records, with its summary.
fn overlay(
    records: &[FileRecord],
    changes: &[DeltaChange],
) -> Result<DirectorySummaryOverlay, OverlayError> {
    let (bytes, _) = CompactIndex::build(records, 4).unwrap();
    let compact = CompactIndex::open(bytes, false).unwrap();
    let mut log = header(4);
    let (writer, _) = DeltaIndex::open(None, 4).unwrap();
    for change in changes {
        log.extend_from_slice(&writer.frame_for(change).unwrap());
    }
    let (delta, _) = DeltaIndex::open(Some(&log), 4).unwrap();
    DirectorySummaryOverlay::from_delta(summary(records, 4), &compact, &delta)
}

#[test]
fn aggregates_nested_logical_sizes_and_children() {
    let records = vec![
        record("/home/a/one.txt", 10, FileKind::File),
        record("/home/a/two.txt", 20, FileKind::File),
        record("/home/a/nested", 0, FileKind::Dir),
        record("/home/a/nested/three.txt", 30, FileKind::File),
    ];
    let summary = summary(&records, 7);
    let home = summary.get(0, "/home").unwrap();
    assert_eq!((home.logical_bytes, home.file_count), (60, 3));
    let folder = summary.get(0, "/home/a").unwrap();
    assert_eq!((folder.logical_bytes, folder.file_count), (60, 3));
    assert_eq!(folder.directory_count, 1);
    let nested = summary
        .children(0, "/home/a")
        .unwrap()
        .into_iter()
        .find(|child| child.path == "/home/a/nested")
        .unwrap();
    assert_eq!((nested.logical_bytes, nested.file_count), (30, 1));
}

#[test]
fn duplicate_source_path_contributes_once() {
    let records = vec![
        record("/same.txt", 10, FileKind::File),
        record("/same.txt", 99, FileKind::File),
    ];
    assert_eq!(summary(&records, 1).get(0, "/").unwrap().logical_bytes, 10);
}

#[test]
fn sidecar_roundtrip_is_generation_bound() {
    let records = vec![record("/docs/readme.md", 42, FileKind::File)];
    let (bytes, _) = DirectorySummary::build(Host::Linux, &records, 42).ok().unwrap();
    let loaded = DirectorySummary::open_for_compact(Host::Linux, &bytes, 42).ok().unwrap();
    assert_eq!(loaded.get(0, "/docs").unwrap().logical_bytes, 42);
    assert!(DirectorySummary::open_for_compact(Host::Linux, &bytes, 41).is_err());
}

#[test]
fn broken_sidecars_are_refused() {
    let records = vec![record("/docs/readme.md", 42, FileKind::File)];
    let (mut bytes, _) = DirectorySummary::build(Host::Linux, &records, 42).ok().unwrap();
    assert!(matches!(
        DirectorySummary::open(Host::Linux, &[1, 2, 3]),
        Err(SummaryError::NotASummary) | Err(SummaryError::InvalidHeader)
    ));
    let last = bytes.len() - 13;
    bytes[last] ^= 1;
    assert!(DirectorySummary::open(Host::Linux, &bytes).is_err());
}

#[test]
fn normalizes_windows_and_unc_paths() {
    let records = vec![
        record(r"C:\Users\Alex\report.txt", 4, FileKind::File),
        record(r"\\server\share\team\plan.txt", 5, FileKind::File),
    ];
    let summary = summary(&records, 3);
    assert!(summary.get(0, "C:/Users/Alex").is_some());
    assert!(summary.get(0, "//server/share/team").is_some());
}

#[test]
fn publish_moves_the_generation_bound_sidecar_with_the_base() {
    let (bytes, _) =
        DirectorySummary::build(Host::Linux, &[record("/new.txt", 2, FileKind::File)], 6).ok().unwrap();
    assert_eq!(
        DirectorySummary::publish(Some(&bytes), 6).ok().unwrap(),
        Publication::Install
    );
    assert_eq!(DirectorySummary::publish(None, 6).ok().unwrap(), Publication::Remove);
    assert!(DirectorySummary::publish(Some(&bytes), 7).is_err());
    let opened = DirectorySummary::open_for_compact(Host::Linux, &bytes, 6).ok().unwrap();
    assert!(opened
        .get(0, "/")
        .unwrap()
        .children
        .iter()
        .any(|child| child.path == "/new.txt"));
}

#[test]
fn overlay_removes_all_sources_for_a_path_key() {
    let mut first = record("/shared.txt", 10, FileKind::File);
    first.source = 1;
    let mut second = record("/shared.txt", 20, FileKind::File);
    second.source = 2;
    let overlay = overlay(
        &[first, second],
        &[DeltaChange::Remove("/shared.txt".into())],
    )
    .ok()
    .unwrap();
    assert_eq!(overlay.get(1, "/").ok().unwrap().unwrap().logical_bytes, 0);
    assert_eq!(overlay.get(2, "/").ok().unwrap().unwrap().logical_bytes, 0);
}

#[test]
fn overlay_removal_normalizes_separator_variants() {
    let overlay = overlay(
        &[record(r"C:\Data\report.txt", 12, FileKind::File)],
        &[DeltaChange::Remove("C:/Data/report.txt".into())],
    )
    .ok()
    .unwrap();
    assert_eq!(overlay.get(0, "/").ok().unwrap().unwrap().logical_bytes, 0);
}

#[test]
fn overlay_updates_ancestor_totals_and_direct_children() {
    let overlay = overlay(
        &[
            record("/docs", 0, FileKind::Dir),
            record("/docs/a.txt", 10, FileKind::File),
            record("/docs/sub", 0, FileKind::Dir),
            record("/docs/sub/b.txt", 20, FileKind::File),
        ],
        &[
            DeltaChange::Upsert(record("/docs/a.txt", 30, FileKind::File)),
            DeltaChange::Remove("/docs/sub/b.txt".into()),
        ],
    )
    .ok()
    .unwrap();
    let docs = overlay.get(0, "/docs").ok().unwrap().unwrap();
    assert_eq!(docs.logical_bytes, 30);
    let children = overlay.children(0, "/docs").ok().unwrap();
    let file = children
        .iter()
        .find(|child| child.path == "/docs/a.txt")
        .unwrap();
    assert_eq!(file.logical_bytes, 30);
    let sub = children
        .iter()
        .find(|child| child.path == "/docs/sub")
        .unwrap();
    assert_eq!(sub.logical_bytes, 0);
}

#[test]
fn arrivals_and_removals_undo_each_other() {
    let mut overlay = DirectorySummaryOverlay::new(summary(&[], 1));
    let new = record("/a/b/new.txt", 9, FileKind::File);
    overlay
        .apply_change(&DeltaChange::Upsert(new.clone()), &[])
        .ok()
        .unwrap();
    assert_eq!(overlay.get(0, "/a").ok().unwrap().unwrap().file_count, 1);
    assert_eq!(overlay.children(0, "/a/b").ok().unwrap()[0].path, "/a/b/new.txt");
    overlay
        .apply_change(&DeltaChange::Remove("/a/b/new.txt".into()), &[new])
        .ok()
        .unwrap();
    assert!(overlay.get(0, "/a").ok().unwrap().is_none());
    assert!(overlay.children(0, "/a/b").ok().unwrap().is_empty());
}

#[test]
fn overlays_refuse_wrong_changes() {
    let mut overlay = DirectorySummaryOverlay::new(summary(&[], 1));
    assert!(matches!(
        overlay.apply_change(&DeltaChange::Remove("/a".into()), &[]),
        Err(SummaryError::RemovalWithoutRecord(p)) if p == "/a"
    ));
    assert!(matches!(
        overlay.apply_change(
            &DeltaChange::Remove("/a".into()),
            &[record("/b", 1, FileKind::File)]
        ),
        Err(SummaryError::RemovalMismatch)
    ));
    assert!(matches!(
        overlay.apply_change(
            &DeltaChange::Upsert(record("relative", 1, FileKind::File)),
            &[]
        ),
        Err(SummaryError::UnsafePath(_))
    ));
    assert!(overlay.get(0, "a/..").is_err());
    assert!(overlay.children(0, "relative").is_err());
}

#[test]
fn case_counts_only_where_the_host_says_so() {
    let records = [
        record("/Docs/A.txt", 4, FileKind::File),
        record("/Docs/a.TXT", 9, FileKind::File),
    ];
    let (_, linux) = DirectorySummary::build(Host::Linux, &records, 3).ok().unwrap();
    assert_eq!(linux.get(0, "/Docs").unwrap().file_count, 2);
    assert!(linux.get(0, "/docs").is_none());
    for host in [Host::Windows, Host::MacOs] {
        let (bytes, summary) = DirectorySummary::build(host, &records, 3).ok().unwrap();
        assert_eq!(summary.get(0, "/docs").unwrap().file_count, 1);
        assert_eq!(summary.get(0, "/DOCS").unwrap().logical_bytes, 4);
        let opened = DirectorySummary::open_for_compact(host, &bytes, 3).ok().unwrap();
        let mut overlay = DirectorySummaryOverlay::new(opened);
        overlay
            .apply_change(
                &DeltaChange::Remove("/docs/a.txt".into()),
                &[record("/Docs/A.txt", 4, FileKind::File)],
            )
            .ok()
            .unwrap();
        let folder = overlay.get(0, "/DOCS").ok().unwrap().unwrap();
        assert_eq!((folder.file_count, folder.children.len()), (0, 0));
    }
}

#[test]
fn removals_undo_arrivals() {
    let records = [record("/a/old.txt", 1, FileKind::File), record("/a/b", 0, FileKind::Dir)];
    let mut overlay = DirectorySummaryOverlay::new(summary(&records, 2));
    let names = |overlay: &DirectorySummaryOverlay| -> Vec<String> {
        let entry = overlay.get(0, "/a").ok().unwrap().unwrap();
        let listed = overlay.children(0, "/a").ok().unwrap();
        let entry_names: Vec<String> = entry.children.iter().map(|c| c.path.clone()).collect();
        let list_names: Vec<String> = listed.iter().map(|c| c.path.clone()).collect();
        assert_eq!(entry_names, list_names);
        list_names
    };
    let before = names(&overlay);
    let new = record("/a/b/new.txt", 9, FileKind::File);
    overlay.apply_change(&DeltaChange::Upsert(new.clone()), &[]).ok().unwrap();
    let listed = overlay.children(0, "/a").ok().unwrap();
    let folder = overlay.get(0, "/a/b").ok().unwrap().unwrap();
    assert_eq!(listed[0].logical_bytes, folder.logical_bytes);
    assert_eq!(listed[0].logical_bytes, 9);
    assert!(overlay.apply_change(&DeltaChange::Remove("/a/b/new.txt".into()), &[]).is_err());
    assert_eq!(overlay.get(0, "/a/b").ok().unwrap().unwrap().file_count, 1);
    overlay.apply_change(&DeltaChange::Remove("/a/b/new.txt".into()), &[new]).ok().unwrap();
    assert_eq!(names(&overlay), before);
    assert_eq!(overlay.get(0, "/a").ok().unwrap().unwrap().logical_bytes, 1);
}

#[test]
fn listed_folders_have_the_totals_of_their_entries() {
    let records = [record("/a/b/one.txt", 4, FileKind::File)];
    let mut overlay = DirectorySummaryOverlay::new(summary(&records, 2));
    let new = record(r"/a//c\two.txt", 9, FileKind::File);
    overlay.apply_change(&DeltaChange::Upsert(new), &[]).ok().unwrap();
    let folder = record(r"\a\c\", 0, FileKind::Dir);
    overlay.apply_change(&DeltaChange::Upsert(folder), &[]).ok().unwrap();
    let listed = overlay.children(0, "/a").ok().unwrap();
    let paths: Vec<&str> = listed.iter().map(|child| child.path.as_str()).collect();
    assert_eq!(paths, vec!["/a/b", "/a/c"]);
    for child in &listed {
        let entry = overlay.get(0, &child.path).ok().unwrap().unwrap();
        assert_eq!(
            (child.logical_bytes, child.file_count, child.directory_count),
            (entry.logical_bytes, entry.file_count, entry.directory_count)
        );
    }
}
