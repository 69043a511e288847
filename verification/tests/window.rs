//! The window: what it shows, and what becomes of its state.

use neutrasearch::calendar::civil_date;
use neutrasearch::compact_index::CompactIndex;
use neutrasearch::demo::reference_index;
use neutrasearch::desktop::{
    Desktop, Event, Found, FrameEnd, OnDisk, RuntimeState, ScanStart,
};
use neutrasearch::dirs::{ancestor_paths, parent_path, path_name, tidied};
use neutrasearch::display::{
    fmt_count, format_mtime, initial_view, keyboard_selection, shorten, tree_selection, type_badge,
    visible_indices, KindFilter, Matching, ResultView, SearchMode, SortMode,
};
use neutrasearch::files::delta_path;
use neutrasearch::host::{portable_path_in_root, Host};
use neutrasearch::index::Index;
use neutrasearch::launch::{
    ends_scan, file_action, helper_start_failure, remote_failure_is_offline,
    scan_has_reachable_lane, scan_outcome, select_helper, set_file_name, validate_elevated_helper,
    Around, Ownership, ServerWatch, SetUp,
};
use neutrasearch::mounts::{FsKind, MountInfo, MountSource};
use neutrasearch::paths::{
    compact_cache_path, configured_index_path, default_index_path, default_system_roots,
    gui_settings_path, last_index_path, legacy_cache_path, remember_index_path,
    resolve_index_path, resolve_index_path_from, Places, Remembering,
};
use neutrasearch::proto::HelperMsg;
use neutrasearch::query::Query;
use neutrasearch::rank::SearchHit;
use neutrasearch::roots::{record_in_roots, select_mounts_for_roots, settle_roots};
use neutrasearch::treemap::{cut_blocks, map_blocks, Hierarchy};
use neutrasearch::types::{FileKind, FileRecord, ScanStats};

fn record(path: &str, size: u64) -> FileRecord {
    FileRecord {
        path: path.to_owned(),
        size,
        mtime: 0,
        mode: 0,
        kind: FileKind::File,
        fs: FsKind::Ext4,
        native_id: 0,
        native_parent: 0,
        source: 0,
    }
}

fn texts(v: Vec<Vec<char>>) -> Vec<String> {
    v.into_iter().map(|c| c.into_iter().collect()).collect()
}

fn chars(s: &str) -> Vec<char> {
    s.chars().collect()
}

fn text(v: Vec<char>) -> String {
    v.into_iter().collect()
}

#[test]
fn elevated_helper_cannot_come_from_environment_override() {
    let error = select_helper(
        Host::Linux,
        Some("/tmp/untrusted-helper".into()),
        Some("/usr/bin/neutrasearch".into()),
        true,
        None,
    )
    .unwrap_err();
    assert!(error.contains("refusing to elevate"));
}

#[test]
fn normal_helper_override_remains_available_for_development() {
    let helper = select_helper(
        Host::Linux,
        Some("custom-helper".into()),
        Some("neutrasearch".into()),
        false,
        None,
    )
    .unwrap();
    assert_eq!(helper, "custom-helper");
}

#[test]
fn elevated_helper_rejects_paths_outside_system_allowlist() {
    let root = Ownership { expected_kind: true, uid: 0, mode: 0o755 };
    let open = Ownership { expected_kind: true, uid: 0, mode: 0o777 };
    assert!(validate_elevated_helper("/tmp/x/neutrasearch-helper", root, &Vec::new()).is_err());
    assert!(validate_elevated_helper("/usr/lib/neutrasearch/neutrasearch-helper", root, &Vec::new()).is_ok());
    assert!(validate_elevated_helper("/usr/lib/neutrasearch/neutrasearch-helper", open, &Vec::new()).is_err());
    let around = vec![Around { path: "/usr/lib/neutrasearch".into(), owner: open }];
    assert!(validate_elevated_helper("/usr/lib/neutrasearch/neutrasearch-helper", root, &around).is_err());
}

#[test]
fn missing_desktop_authorization_becomes_an_actionable_error() {
    let error = helper_start_failure(
        "handshake failed",
        "Error creating textual authentication agent: Error opening current controlling terminal",
    );
    assert!(error.contains("launch Neutrasearch from the desktop"));
    assert!(!error.contains("handshake"));
}

#[test]
fn selected_roots_include_descendants_but_not_prefix_siblings() {
    let roots = vec!["/home/alex/Documents".to_owned()];
    assert!(record_in_roots(Host::Linux, "/home/alex/Documents/report.pdf", &roots));
    assert!(record_in_roots(Host::Linux, "/home/alex/Documents", &roots));
    assert!(!record_in_roots(
        Host::Linux,
        "/home/alex/Documents-old/report.pdf",
        &roots
    ));
    assert!(!record_in_roots(
        Host::Linux,
        "/home/alex/Documents/report.pdf",
        &Vec::new()
    ));
    assert!(portable_path_in_root(Host::MacOs, "/Users/alex/report.pdf", "/"));
    assert!(portable_path_in_root(
        Host::Windows,
        r"C:\Users\alex\report.pdf",
        r"C:\"
    ));
    assert!(!portable_path_in_root(Host::Windows, r"D:\report.pdf", r"C:\"));
    assert!(record_in_roots(
        Host::Linux,
        "/home/alex/Documents/reports",
        &vec!["/home/alex/Documents".to_owned()]
    ));
    assert!(!record_in_roots(
        Host::Linux,
        "/home",
        &vec!["/home/alex/Documents".to_owned()]
    ));
}

fn mounts() -> Vec<MountInfo> {
    vec![
        MountInfo {
            device: "server:/share".into(),
            mountpoint: "/mnt/team".into(),
            fs: FsKind::Network("nfs4".into()),
            source: MountSource::Remote { host: "server".into() },
        },
        MountInfo {
            device: "/dev/root".into(),
            mountpoint: "/".into(),
            fs: FsKind::Ext4,
            source: MountSource::Local,
        },
    ]
}

#[test]
fn network_roots_do_not_fall_back_to_scanning_the_parent_local_volume() {
    let trusted = mounts();
    assert!(select_mounts_for_roots(Host::Linux, &vec!["/mnt/team/docs".to_owned()], &trusted).is_empty());
    let local = select_mounts_for_roots(Host::Linux, &vec!["/home/alex".to_owned()], &trusted);
    assert_eq!(local.len(), 1);
    assert_eq!(local[0].mountpoint, "/");
}

#[test]
fn successful_empty_scans_still_replace_stale_results() {
    assert!(scan_has_reachable_lane(1, 0));
    assert!(scan_has_reachable_lane(3, 1));
    assert!(!scan_has_reachable_lane(3, 3));
    assert!(!scan_has_reachable_lane(0, 0));
}

#[test]
fn offline_network_errors_are_retryable_but_integrity_failures_are_not() {
    assert!(remote_failure_is_offline(
        "ssh: connect to host studio: Connection timed out"
    ));
    assert!(!remote_failure_is_offline("helper checksum mismatch"));
    assert!(!remote_failure_is_offline("Permission denied (publickey)"));
}

#[test]
fn servers_are_set_up_once_and_tried_again_when_offline() {
    let mut watch = ServerWatch::new();
    assert!(watch.is_due("nas", None));
    let note = watch
        .record("nas", SetUp::Failed("ssh: No route to host".into()))
        .unwrap();
    assert!(!note.error);
    assert!(!watch.is_due("nas", Some(1)));
    watch.record(
        "nas",
        SetUp::Ready { os: "Linux".into(), arch: "x86_64".into() },
    );
    assert!(!watch.is_due("nas", Some(1_000_000)));
}

#[test]
fn civil_dates_cover_epoch_and_recent_values() {
    assert_eq!(civil_date(0), (1970, 1, 1));
    assert_eq!(civil_date(20_454), (2026, 1, 1));
}

#[test]
fn civil_dates_know_leap_days() {
    assert_eq!(civil_date(19_782), (2024, 2, 29));
    assert_eq!(civil_date(-1), (1969, 12, 31));
}

#[test]
fn path_helpers_preserve_unix_windows_and_unc_hierarchies() {
    assert_eq!(
        text(tidied(&chars(r"/home/alex//Documents/"))),
        "/home/alex/Documents"
    );
    assert_eq!(
        text(parent_path(&chars("/home/alex/Documents/file.txt"))),
        "/home/alex/Documents"
    );
    assert_eq!(
        texts(ancestor_paths(&chars("/home/alex"))),
        vec!["/", "/home", "/home/alex"]
    );

    assert_eq!(text(tidied(&chars(r"C:\Users\Alex\"))), "C:/Users/Alex");
    assert_eq!(text(parent_path(&chars(r"C:\Users\Alex"))), "C:/Users");
    assert_eq!(
        texts(ancestor_paths(&chars(r"C:\Users\Alex"))),
        vec!["/", "C:/", "C:/Users", "C:/Users/Alex"]
    );
    assert_eq!(path_name("C:/"), "C:");

    assert_eq!(
        text(tidied(&chars(r"\\server\share\Folder\file.txt"))),
        "//server/share/Folder/file.txt"
    );
    assert_eq!(text(parent_path(&chars("//server/share"))), "/");
    assert_eq!(
        texts(ancestor_paths(&chars("//server/share/Folder"))),
        vec!["/", "//server/share", "//server/share/Folder"]
    );
}

#[test]
fn hierarchy_connects_windows_drives_and_unc_shares_to_computer_root() {
    let hierarchy = Hierarchy::from_records(&[
        record(r"C:\\Users\\Alex\\report.txt", 1),
        record(r"\\\\server\\share\\team\\plan.txt", 1),
    ]);
    let root = hierarchy.children("/").unwrap();
    assert!(root.contains(&"C:/".to_owned()));
    assert!(root.contains(&"//server/share".to_owned()));
    assert_eq!(hierarchy.files("C:/Users/Alex").unwrap()[0].name, "report.txt");
    assert_eq!(
        hierarchy.files("//server/share/team").unwrap()[0].name,
        "plan.txt"
    );
}

#[test]
fn maps_show_the_largest_first() {
    let hierarchy = Hierarchy::from_records(&[
        record("/a/small.txt", 10),
        record("/big.bin", 500),
        record("/a/other.txt", 15),
    ]);
    assert_eq!(hierarchy.totals("/").unwrap(), (525, 3));
    assert_eq!(hierarchy.totals("/a").unwrap(), (25, 2));
    assert!(hierarchy.totals("/nowhere").is_none());
    let blocks = map_blocks(&hierarchy, "/");
    assert_eq!(blocks.len(), 2);
    assert_eq!(blocks[0].bytes, 500);
    assert_eq!(blocks[1].bytes, 25);
    assert_eq!(cut_blocks(&vec![500, 25]), (1, 500, 525));
}

#[test]
fn reference_index_exercises_dense_views_and_unicode_fallbacks() {
    let index = reference_index(1_700_000_000);
    assert!(index.len() >= 60);
    let mut query = Query::parse("");
    query.limit = 1_000;
    let (hits, _) = index.search(&query);
    assert!(hits.iter().any(|hit| hit.record.path.contains("发票")));
    assert!(hits.iter().any(|hit| hit.record.path.contains("فاتورة")));
    assert!(hits.iter().any(|hit| hit.record.path.contains("चालान")));
}

#[test]
fn the_example_is_written_out() {
    let index = reference_index(1_700_000_000);
    assert_eq!(index.len(), 65);
    let first = &index.records()[0];
    assert_eq!(first.path, "/home/alex/Documents/Accounts");
    assert_eq!(first.mtime, 1_700_000_000 - 3 * 3600);
    let invoice = &index.records()[17];
    assert_eq!(
        invoice.path,
        "/home/alex/Documents/Accounts/2026/invoice-2026-01-1042.pdf"
    );
    assert_eq!((invoice.size, invoice.native_id), (184_320, 100));
    let last = &index.records()[64];
    assert_eq!(last.path, "/mnt/studio/Clients/Invoices/invoice-2024-12-1089.png");
    assert_eq!(last.fs, FsKind::Network("smb3".into()));
}

#[test]
fn results_are_worded() {
    assert_eq!(initial_view("GRID"), ResultView::Grid);
    assert_eq!(SortMode::Modified.next(), SortMode::Name);
    assert_eq!(fmt_count(1_234_567), "1,234,567");
    assert_eq!(shorten("short", 10), "short");
    assert_eq!(shorten("abcdefghij", 4).chars().count(), 4);
    assert_eq!(type_badge(&record("/a/b.pdf", 1)), "PDF");
    assert_eq!(format_mtime(0, 1_767_225_600), "Unknown");
    assert_eq!(format_mtime(86_400, 1_767_225_600), "1970-01-02");
    assert_eq!(keyboard_selection(3, None, true), 1);
    assert_eq!(keyboard_selection(3, Some(2), true), 2);
    assert_eq!(keyboard_selection(3, Some(2), false), 1);
}

fn hits() -> Vec<SearchHit> {
    vec![
        SearchHit { score: 1, record: record("/a/Report-7.txt", 1) },
        SearchHit { score: 1, record: record("/report/other.txt", 1) },
    ]
}

#[test]
fn hits_are_filtered_by_mode_and_pattern() {
    let by_name = Matching { mode: SearchMode::Name, regex: false, case_sensitive: false };
    assert_eq!(visible_indices(by_name, "report", &hits()), vec![0]);
    let pattern = Matching { mode: SearchMode::Name, regex: true, case_sensitive: true };
    assert_eq!(visible_indices(pattern, "^Report-[0-9]+", &hits()), vec![0]);
    assert!(visible_indices(pattern, "^report-[0-9]+", &hits()).is_empty());
    let loose = Matching { mode: SearchMode::Name, regex: true, case_sensitive: false };
    assert_eq!(visible_indices(loose, "^report-[0-9]+", &hits()), vec![0]);
    let path = Matching { mode: SearchMode::Path, regex: false, case_sensitive: false };
    assert_eq!(visible_indices(path, "/report/", &hits()), vec![1]);
}

#[test]
fn clicks_in_the_tree_select_paths() {
    assert_eq!(tree_selection(&hits(), None, "file:1").unwrap(), "/report/other.txt");
    assert_eq!(tree_selection(&hits(), Some("/x".into()), "file:9").unwrap(), "/x");
    assert_eq!(tree_selection(&hits(), None, "/home").unwrap(), "/home");
}

#[test]
fn folders_sum_up_their_folders_and_files() {
    let mut folder = record("/a/empty", 0);
    folder.kind = FileKind::Dir;
    let hierarchy = Hierarchy::from_records(&[
        record("/a/b/c.txt", 7),
        record("/a/d.txt", 0),
        record("/a/b/e.txt", 5),
        record("/f.txt", 3),
        record("C:/g/h.txt", 20),
        folder,
    ]);
    for path in ["/", "/a", "/a/b", "/a/empty", "C:/", "C:/g"] {
        let (size, count) = hierarchy.totals(path).unwrap();
        let files = hierarchy.files(path).unwrap();
        let mut sum = (files.iter().map(|f| f.size.max(1)).sum::<u64>(), files.len() as u64);
        for child in hierarchy.children(path).unwrap() {
            let (child_size, child_count) = hierarchy.totals(child).unwrap();
            sum = (sum.0 + child_size, sum.1 + child_count);
        }
        assert_eq!((size, count), sum);
    }
    assert_eq!(hierarchy.totals("/").unwrap(), (36, 5));
    assert_eq!(hierarchy.totals("/a").unwrap(), (13, 3));
}

#[test]
fn files_are_opened_as_the_host_does() {
    assert_eq!(
        file_action(Host::Linux, true, "/home/a/b.txt"),
        ("xdg-open".to_owned(), vec!["/home/a".to_owned()])
    );
    for (path, folder) in [
        ("/a/b/.", "/a"),
        ("/a/./b/", "/a"),
        ("/a/..", "/a"),
        ("//a", "/"),
        ("/.", "/."),
        ("./a", "."),
        ("a", ""),
        (".", ""),
    ] {
        assert_eq!(file_action(Host::Linux, true, path).1, vec![folder.to_owned()]);
    }
    assert_eq!(
        file_action(Host::Windows, true, r"C:\a.txt").1,
        vec![r"/select,C:\a.txt".to_owned()]
    );
    assert_eq!(
        file_action(Host::MacOs, false, "/a.txt"),
        ("open".to_owned(), vec!["/a.txt".to_owned()])
    );
}

// ---------------------------------------------------------------------------
// Places

#[test]
fn explicit_configured_and_remembered_locations_have_stable_precedence() {
    let default = "/default/index.nsx".to_owned();
    let remembered = "/remembered/index.nsx".to_owned();
    let configured = "/configured/index.nsx".to_owned();
    let explicit = "/explicit/index.nsx".to_owned();
    assert_eq!(
        resolve_index_path_from(
            Some(explicit.clone()),
            Some(configured.clone()),
            Some(remembered.clone()),
            default.clone(),
        ),
        explicit
    );
    assert_eq!(
        resolve_index_path_from(
            None,
            Some(configured.clone()),
            Some(remembered.clone()),
            default.clone(),
        ),
        configured
    );
    assert_eq!(
        resolve_index_path_from(None, None, Some(remembered.clone()), default.clone()),
        remembered
    );
    assert_eq!(
        resolve_index_path_from(None, None, None, default.clone()),
        default
    );
}

#[test]
fn pointer_roundtrip_requires_an_absolute_path() {
    let bytes = match remember_index_path(Host::Linux, "/data/index.nsx", None) {
        Remembering::Write(bytes) => bytes,
        Remembering::Kept => panic!("a new place has to be written"),
    };
    assert_eq!(bytes, bincode::serialize("/data/index.nsx").unwrap());
    assert_eq!(
        last_index_path(Host::Linux, Some(bytes.clone())).unwrap(),
        "/data/index.nsx"
    );
    assert!(matches!(
        remember_index_path(Host::Linux, "/data/index.nsx", Some(bytes.clone())),
        Remembering::Kept
    ));
    assert!(last_index_path(Host::Linux, Some(bytes[..4].to_vec())).is_none());
    let relative = bincode::serialize("index.nsx").unwrap();
    assert!(last_index_path(Host::Linux, Some(relative)).is_none());
    assert!(last_index_path(Host::Linux, None).is_none());
}

fn places() -> Places {
    Places {
        preferred: None,
        home: Some("/home/alex".into()),
        temporary: "/tmp".into(),
    }
}

#[test]
fn files_lie_where_the_host_keeps_them() {
    let p = places();
    assert_eq!(
        default_index_path(Host::Linux, &p),
        "/home/alex/.local/share/neutrasearch/index.nsx"
    );
    assert_eq!(
        default_index_path(Host::MacOs, &p),
        "/home/alex/Library/Application Support/Neutrasearch/index.nsx"
    );
    assert_eq!(
        gui_settings_path(Host::Linux, &p),
        "/home/alex/.config/neutrasearch/gui-settings.json"
    );
    assert_eq!(
        legacy_cache_path(Host::MacOs, None, &p),
        "/home/alex/Library/Caches/Neutrasearch/index.bin"
    );
    assert_eq!(compact_cache_path(Host::Linux, Some("/x".into()), &p), "/x");
    let nowhere = Places { preferred: None, home: None, temporary: "/tmp".into() };
    assert_eq!(
        resolve_index_path(Host::Linux, None, None, None, None, &nowhere),
        "/tmp/neutrasearch/index.nsx"
    );
    assert_eq!(configured_index_path(Some("".into()), Some("/b".into())), None);
    assert_eq!(configured_index_path(None, Some("/b".into())).unwrap(), "/b");
    assert_eq!(default_system_roots(Host::Windows, Vec::new()), vec![r"C:\"]);
    assert_eq!(default_system_roots(Host::Linux, vec!["x".into()]), vec!["/"]);
}

#[test]
fn saved_folders_are_settled() {
    let roots = vec![
        "/home/b".to_owned(),
        "relative".to_owned(),
        "/home/a".to_owned(),
        "/home/b".to_owned(),
    ];
    assert_eq!(settle_roots(Host::Linux, &roots), vec!["/home/a", "/home/b"]);
}

// ---------------------------------------------------------------------------
// The state of the window

fn found(roots: &[&str]) -> Found {
    Found {
        reference_mode: false,
        compact: None,
        cache_error: None,
        restored: None,
        saved: Some((true, roots.iter().map(|r| (*r).to_owned()).collect())),
        default_roots: vec!["/".into()],
        query: None,
        regex_mode: false,
        autoscan: false,
        watch_servers: false,
    }
}

fn stats() -> ScanStats {
    ScanStats {
        records: 1,
        dirs: 0,
        files: 1,
        bytes_read: 0,
        wall_ms: 3,
        detail: "done".into(),
    }
}

fn root_mount() -> MountInfo {
    mounts().remove(1)
}

fn send(d: &mut Desktop, m: HelperMsg) -> bool {
    d.take_event(Event::Message(m), Host::Linux, "linux").requery
}

#[test]
fn scans_replace_the_index_once_a_lane_delivered() {
    let (mut d, opening) = Desktop::start(found(&["/home"]));
    assert!(!opening.first_scan && !opening.scan);
    assert_eq!(d.runtime_state(None), RuntimeState::FirstRun);
    let table = mounts();
    match d.begin_scan(Host::Linux, &table) {
        ScanStart::Launch { mounts, roots } => {
            assert_eq!(mounts.len(), 1);
            assert_eq!(roots, vec!["/home"]);
        }
        _ => panic!("a scan has to start"),
    }
    assert!(matches!(d.begin_scan(Host::Linux, &table), ScanStart::Busy));
    assert!(!send(&mut d, HelperMsg::ScanBegin { mount: root_mount() }));
    send(
        &mut d,
        HelperMsg::Records(vec![record("/home/a.txt", 1), record("/etc/b.txt", 1)]),
    );
    assert_eq!(d.scan_len(), 1);
    assert!(d.index_is_empty());
    assert_eq!(d.runtime_state(None), RuntimeState::IndexingInitial);
    send(&mut d, HelperMsg::ScanDone { mount: root_mount(), stats: stats() });
    assert!(send(&mut d, HelperMsg::ScanComplete { mounts: 1, errors: 0 }));
    assert_eq!(d.index_len(), 1);
    d.requery(OnDisk::Same, Host::Linux);
    assert_eq!(d.hits()[0].record.path, "/home/a.txt");
    assert_eq!(d.runtime_state(None), RuntimeState::Ready);

    match d.end_frame(false) {
        FrameEnd::Build { records, .. } => assert_eq!(records.len(), 1),
        FrameEnd::Nothing => panic!("the index has to be built"),
    }
    let (image, _) = CompactIndex::build(&[record("/home/a.txt", 1)], 9).unwrap();
    let compact = CompactIndex::open(image, false).unwrap();
    assert!(d.take_event(Event::CompactReady(compact), Host::Linux, "linux").requery);
    assert_eq!((d.index_len(), d.data_generation()), (1, 9));
    assert!(matches!(d.end_frame(true), FrameEnd::Nothing));
}

#[test]
fn failed_scans_keep_the_last_complete_index() {
    let mut old = Index::new();
    old.push(record("/home/old.txt", 1));
    let (mut d, _) = Desktop::start(Found { restored: Some(old), ..found(&["/home"]) });
    d.begin_scan(Host::Linux, &mounts());
    send(&mut d, HelperMsg::Records(vec![record("/home/new.txt", 1)]));
    send(&mut d, HelperMsg::ScanComplete { mounts: 2, errors: 2 });
    assert_eq!(d.index_len(), 1);
    d.requery(OnDisk::Same, Host::Linux);
    assert_eq!(d.hits()[0].record.path, "/home/old.txt");
    let lane = d.status_lanes().iter().find(|l| l.key == "scan").unwrap();
    assert_eq!(lane.label, "NO REACHABLE LOCATIONS");
    assert!(lane.error);
}

#[test]
fn broken_helpers_end_a_scan() {
    let (mut d, _) = Desktop::start(found(&["/home"]));
    d.begin_scan(Host::Linux, &mounts());
    d.take_event(Event::Fatal("gone".into()), Host::Linux, "linux");
    assert_eq!(d.scan_len(), 0);
    assert_eq!(d.runtime_state(None), RuntimeState::Permission);
    assert_eq!(d.status_lanes()[0].status, "gone");
}

#[test]
fn folders_are_added_and_removed() {
    let (mut d, _) = Desktop::start(found(&["/home"]));
    assert!(d.add_root(Host::Linux, "/data".into()));
    assert!(!d.add_root(Host::Linux, "/data".into()));
    assert!(!d.add_root(Host::Linux, "relative".into()));
    assert_eq!(d.roots(), ["/data", "/home"]);
    assert_eq!(d.remove_root(0), (true, true));
    assert_eq!(d.remove_root(5), (false, false));
    assert_eq!(d.roots(), ["/home"]);
    d.remove_root(0);
    assert!(matches!(d.begin_scan(Host::Linux, &mounts()), ScanStart::Cleared));
}

#[test]
fn searches_stay_in_the_chosen_folders() {
    let mut all = Index::new();
    all.extend(vec![record("/home/a.txt", 1), record("/etc/a.txt", 1)]);
    let (mut d, _) = Desktop::start(Found { restored: Some(all), ..found(&["/home"]) });
    d.ask("a".into(), SortMode::Name, KindFilter::All, false, Some("/etc".into()));
    d.requery(OnDisk::Same, Host::Linux);
    assert_eq!(d.hits().len(), 1);
    assert_eq!(d.hits()[0].record.path, "/home/a.txt");
}

#[test]
fn first_runs_scan_the_whole_machine() {
    let (d, opening) = Desktop::start(Found { saved: None, ..found(&[]) });
    assert!(opening.first_scan);
    assert_eq!(d.roots(), ["/"]);
    assert_eq!(d.status_lanes()[0].key, "welcome");
    assert_eq!(d.runtime_state(Some("Stale")), RuntimeState::Stale);
}

#[test]
fn rejected_replacements_are_not_searched() {
    let (image, _) = CompactIndex::build(&[record("/home/a.txt", 1)], 9).unwrap();
    let compact = CompactIndex::open(image, false).unwrap();
    let (mut d, _) = Desktop::start(Found { compact: Some(compact), ..found(&["/home"]) });
    d.requery(OnDisk::Same, Host::Linux);
    assert_eq!(d.hits().len(), 1);
    d.requery(OnDisk::Rejected("bad checksum".into()), Host::Linux);
    assert!(d.hits().is_empty());
    assert_eq!(d.runtime_state(None), RuntimeState::Stale);
    assert_eq!(d.request_tree_model(), Some(9));
    assert_eq!(d.request_tree_model(), None);
    let model = Hierarchy::from_records(&[record("/home/a.txt", 1)]);
    d.take_event(Event::TreeReady { generation: 8, model }, Host::Linux, "linux");
    assert_eq!(d.request_tree_model(), Some(9));
}

#[test]
fn labels_are_in_capitals() {
    let (mut d, _) = Desktop::start(found(&["/home"]));
    send(&mut d, HelperMsg::ScanError { mount: root_mount(), error: "denied".into() });
    let lane = d.status_lanes().iter().find(|l| l.key == "/").unwrap();
    assert_eq!(lane.label, "EXT4");
    let mut odd = root_mount();
    odd.fs = FsKind::Unsupported("straße".into());
    send(&mut d, HelperMsg::ScanBegin { mount: odd });
    let lane = d.status_lanes().iter().find(|l| l.key == "/").unwrap();
    assert_eq!(lane.label, "STRASSE");
    send(
        &mut d,
        HelperMsg::DeltaApplied { changes: 2, wal_bytes: 40, needs_compaction: true },
    );
    let lane = d.status_lanes().iter().find(|l| l.key == "delta").unwrap();
    assert_eq!(lane.status, "2 changes \u{b7} 40 bytes \u{b7} compaction due");
}

#[test]
fn civil_dates_reach_as_far_as_their_numbers() {
    for days in [i64::MIN, i64::MAX - 719_468] {
        let (_, month, day) = civil_date(days);
        assert!((1..=12).contains(&month) && (1..=31).contains(&day));
    }
    assert_eq!(civil_date(-1), (1969, 12, 31));
}

#[test]
fn files_beside_an_index_are_named_as_the_host_does() {
    let windows = [
        (r"C:\my.data\store", r"C:\my.data\store.delta"),
        (r"C:\data\index.nsx", r"C:\data\index.delta"),
        ("C:index.nsx", "C:index.delta"),
        (r"\\srv\share.x\index", r"\\srv\share.x\index.delta"),
        (r"\\srv\share.x", r"\\srv\share.x"),
        (r"\\?\C:\a\b.c\", r"\\?\C:\a\b.delta"),
        (r"\\?\C:\a\.", r"\\?\C:\a\."),
        (r"C:\a\.", r"C:\a.delta"),
    ];
    for (base, log) in windows {
        assert_eq!(delta_path(Host::Windows, base), log);
    }
    assert_eq!(delta_path(Host::Linux, "/my.data/store"), "/my.data/store.delta");
    assert_eq!(delta_path(Host::Linux, r"/a\b.c"), r"/a\b.delta");
    assert_eq!(
        set_file_name(Host::Windows, r"C:\Program Files\n\n.exe", "helper.exe"),
        r"C:\Program Files\n\helper.exe"
    );
    assert_eq!(set_file_name(Host::Windows, r"C:\n.exe", "helper.exe"), r"C:\helper.exe");
    assert_eq!(set_file_name(Host::Linux, "/usr/bin/n", "helper"), "/usr/bin/helper");
    let places = Places {
        preferred: Some(r"C:\Users\a\AppData\Local".to_owned()),
        home: None,
        temporary: r"C:\Temp".to_owned(),
    };
    assert_eq!(
        default_index_path(Host::Windows, &places),
        r"C:\Users\a\AppData\Local\Neutrasearch/index.nsx"
    );
    let verbatim = Places { preferred: Some(r"\\?\C:\Local".to_owned()), ..places };
    assert_eq!(
        default_index_path(Host::Windows, &verbatim),
        r"\\?\C:\Local\Neutrasearch\index.nsx"
    );
}

#[test]
fn places_are_remembered_by_their_components() {
    let bytes = bincode::serialize(r"c:\data\index.nsx").unwrap();
    assert!(matches!(
        remember_index_path(Host::Windows, "C:/data/index.nsx", Some(bytes.clone())),
        Remembering::Kept
    ));
    assert!(matches!(
        remember_index_path(Host::Windows, "C:/Data/index.nsx", Some(bytes)),
        Remembering::Write(_)
    ));
}

#[test]
fn failures_of_the_window_are_shown_as_lines() {
    let (mut d, _) = Desktop::start(found(&["/home"]));
    d.note_unsaved_settings("cannot write settings: full".into());
    d.note_refused_elevation("declined".into());
    let lane = d.status_lanes().iter().find(|l| l.key == "settings").unwrap();
    assert_eq!((lane.label.as_str(), lane.error), ("SETTINGS", true));
    assert_eq!(lane.status, "cannot write settings: full");
    let lane = d.status_lanes().iter().find(|l| l.key == "elevation").unwrap();
    assert_eq!((lane.label.as_str(), lane.status.as_str()), ("WINDOWS ELEVATION", "declined"));
    assert_eq!(d.runtime_state(None), RuntimeState::Permission);
}

#[test]
fn scans_end_with_their_last_message() {
    assert!(ends_scan(&HelperMsg::ScanComplete { mounts: 1, errors: 0 }));
    assert!(!ends_scan(&HelperMsg::Records(Vec::new())));
    assert!(scan_outcome(true, Some("exit status: 1")).is_ok());
    assert_eq!(
        scan_outcome(false, Some("exit status: 1")).err().unwrap(),
        "the native scanner stopped before completing (exit status: 1)"
    );
    assert_eq!(
        scan_outcome(false, None).err().unwrap(),
        "the native scanner stopped before completing"
    );
}
