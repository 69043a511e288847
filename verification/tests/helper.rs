//! The helper: its protocol, what it accepts, and what it watches.

use neutrasearch::compact_index::CompactIndex;
use neutrasearch::delta::DeltaChange;
use neutrasearch::host::{portable_path_in_root, Host};
use neutrasearch::mounts::{FsKind, MountInfo, MountSource};
use neutrasearch::proto::{
    frame_length, read_frame, write_frame, ClientMsg, FrameError, HelperMsg, HELPER_BUILD,
    MAX_FRAME_BYTES, PROTO_VERSION,
};
use neutrasearch::query::Query;
use neutrasearch::requests::{
    resolve_scan_mounts, validate_delta_changes, validate_query, validate_scan_roots,
    MAX_QUERY_RESULTS,
};
use neutrasearch::service::{greet, Service, Step, WatchStep};
use neutrasearch::store::{DurableStore, StoreFiles};
use neutrasearch::types::{FileKind, FileRecord};
use neutrasearch::watch::{
    collect_events, parse_events, rescan_reason, FileStat, LookedUp, ParsedEvent, Resolution, Role,
    WatchBatch, Watched,
};
use neutrasearch::windows::{
    pipe_step, reject_non_admin_write_acl, service_greeting, validate_client_path,
    validate_installed_files, windows_path_is_under, Ace, Installed, Nature, PipeStep,
};

fn record(path: &str, size: u64) -> FileRecord {
    FileRecord {
        path: path.to_owned(),
        size,
        mtime: 0,
        mode: 0,
        kind: FileKind::File,
        fs: FsKind::Ext4,
        native_id: 0,
        native_parent: 0,
        source: 0,
    }
}

fn mount(device: &str, mountpoint: &str, fs: FsKind) -> MountInfo {
    MountInfo {
        device: device.to_owned(),
        mountpoint: mountpoint.to_owned(),
        fs,
        source: MountSource::Local,
    }
}

#[test]
fn oversized_frame_is_rejected_before_payload_allocation() {
    let length = u32::try_from(MAX_FRAME_BYTES + 1).unwrap().to_le_bytes();
    let error = read_frame(&length[..]).unwrap_err();
    assert!(error.message().contains("exceeds cap"));
    assert!(matches!(frame_length(&length), Err(FrameError::TooLong(_))));
}

#[test]
fn scan_completion_roundtrip_preserves_atomic_publication_counts() {
    // The payload is that of a message with its number, its mounts and its errors.
    let payload = bincode::serialize(&(5u32, 3u32, 1u32)).unwrap();
    let mut bytes = Vec::new();
    write_frame(&mut bytes, &payload).unwrap();
    let read = read_frame(&bytes).unwrap().unwrap();
    let message: (u32, u32, u32) = bincode::deserialize(&read).unwrap();
    assert_eq!(message, (5, 3, 1));
}

#[test]
fn frame_roundtrip() {
    let mut buf = Vec::new();
    let hello = bincode::serialize(&(0u32, PROTO_VERSION)).unwrap();
    write_frame(&mut buf, &hello).unwrap();
    write_frame(&mut buf, b"main ext:rs").unwrap();
    let m1 = read_frame(&buf).unwrap().unwrap();
    assert_eq!(
        bincode::deserialize::<(u32, u32)>(&m1).unwrap(),
        (0, PROTO_VERSION)
    );
    let rest = &buf[4 + m1.len()..];
    let m2 = read_frame(rest).unwrap().unwrap();
    let query = Query::parse(std::str::from_utf8(&m2).unwrap());
    assert_eq!(query.terms, vec!["main"]);
    let eof = read_frame(&rest[4 + m2.len()..]).unwrap();
    assert!(eof.is_none());
}

#[test]
fn greetings_are_checked() {
    let (hello, go_on) = greet(
        &Some(ClientMsg::Hello { proto: PROTO_VERSION }),
        "linux",
        "x86_64",
    );
    assert!(go_on);
    assert!(matches!(
        hello,
        HelperMsg::Hello { proto: PROTO_VERSION, build: HELPER_BUILD, .. }
    ));
    let (refusal, go_on) = greet(&Some(ClientMsg::Hello { proto: 1 }), "linux", "x86_64");
    assert!(!go_on);
    assert!(matches!(refusal, HelperMsg::Error(_)));
}

#[test]
fn scan_requests_use_trusted_mount_metadata() {
    let trusted = mount("/dev/trusted", "/mnt/data", FsKind::Ext4);
    let spoofed = mount("/dev/evil", "/mnt/data", FsKind::Ntfs);
    assert!(resolve_scan_mounts(Host::Linux, &Vec::new(), &vec![trusted.clone()], true)
        .unwrap()
        .is_empty());
    let resolved = resolve_scan_mounts(Host::Linux, &vec![spoofed], &vec![trusted], true).unwrap();
    assert_eq!(resolved.len(), 1);
    assert_eq!(resolved[0].device, "/dev/trusted");
    assert!(matches!(resolved[0].fs, FsKind::Ext4));
    assert!(resolve_scan_mounts(
        Host::Linux,
        &vec![mount("/dev/evil", "/unknown", FsKind::Ntfs)],
        &Vec::new(),
        true,
    )
    .is_err());
}

#[test]
fn approved_scan_roots_are_bounded_to_requested_mounts() {
    let table = vec![mount("/dev/root", "/", FsKind::Btrfs)];
    let roots =
        validate_scan_roots(Host::Linux, &vec!["/home/alex/Documents".into()], &table).unwrap();
    assert!(portable_path_in_root(
        Host::Linux,
        "/home/alex/Documents/report.pdf",
        &roots[0]
    ));
    assert!(!portable_path_in_root(
        Host::Linux,
        "/home/alex/Documents-old/report.pdf",
        &roots[0]
    ));
    assert!(validate_scan_roots(Host::Linux, &Vec::new(), &table).is_err());
    assert!(validate_scan_roots(Host::Linux, &vec!["relative".into()], &table).is_err());

    let drives = vec![mount(r"C:", r"C:\", FsKind::Btrfs)];
    let roots = validate_scan_roots(
        Host::Windows,
        &vec![r"C:\Users\alex\Documents".into()],
        &drives,
    )
    .unwrap();
    assert!(portable_path_in_root(
        Host::Windows,
        r"C:\Users\alex\Documents\report.pdf",
        &roots[0]
    ));
    assert!(!portable_path_in_root(
        Host::Windows,
        r"C:\Users\alex\Documents-old\report.pdf",
        &roots[0]
    ));
}

#[test]
fn protocol_work_is_bounded_before_execution() {
    let mut query = Query::parse("needle");
    query.limit = 0;
    assert!(validate_query(Host::Linux, &query).is_err());
    query.limit = MAX_QUERY_RESULTS + 1;
    assert!(validate_query(Host::Linux, &query).is_err());
    query.limit = 1;
    query.scope_roots = vec!["relative/scope".into()];
    assert!(validate_query(Host::Linux, &query).is_err());
    assert!(validate_delta_changes(&vec![DeltaChange::Remove("relative/path".into())]).is_err());
    assert!(
        validate_delta_changes(&vec![DeltaChange::Remove("/allowed/../secret".into())]).is_err()
    );
    assert!(resolve_scan_mounts(Host::Linux, &Vec::new(), &Vec::new(), false).is_err());
}

fn service() -> Service {
    let (base, _) = CompactIndex::build(&[record("/old.txt", 1)], 5).unwrap();
    let files = StoreFiles {
        base: Some(base),
        stale: false,
        log: None,
        marker: None,
        stage: None,
        stage_stale: false,
    };
    let (store, _, _) = DurableStore::open(files, None).ok().unwrap();
    Service::new(Some(store))
}

fn step(s: &mut Service, msg: ClientMsg) -> Step {
    s.step(Some(msg), Host::Linux, &Vec::new(), true, false, 6, 7)
}

#[test]
fn services_answer_from_their_store() {
    let mut s = service();
    match step(&mut s, ClientMsg::Search { query: limited("old") }) {
        Step::Answer(HelperMsg::SearchResult { hits, .. }) => {
            assert_eq!(hits[0].path, "/old.txt")
        }
        _ => panic!("a search is answered"),
    }
    match step(
        &mut s,
        ClientMsg::ApplyDelta { changes: vec![DeltaChange::Upsert(record("/new.txt", 2))] },
    ) {
        Step::Write { update, answer } => {
            assert_eq!(update.frames.len(), 1);
            assert!(matches!(answer, HelperMsg::DeltaApplied { changes: 1, .. }));
        }
        _ => panic!("an update is written"),
    }
    match step(&mut s, ClientMsg::Search { query: limited("new") }) {
        Step::Answer(HelperMsg::SearchResult { hits, .. }) => assert_eq!(hits.len(), 1),
        _ => panic!("a search is answered"),
    }
    assert!(matches!(step(&mut s, ClientMsg::Shutdown), Step::Stop));
}

fn limited(text: &str) -> Query {
    let mut q = Query::parse(text);
    q.limit = 10;
    q
}

#[test]
fn stale_stores_are_never_served() {
    let mut s = service();
    s.mark_stale();
    assert!(s.is_stale());
    assert!(matches!(
        step(&mut s, ClientMsg::Search { query: limited("old") }),
        Step::Answer(HelperMsg::Error(_))
    ));
}

#[test]
fn an_ended_watch_leaves_the_store_stale() {
    let mut s = service();
    assert!(matches!(
        s.watch(Ok(WatchBatch::Changes(vec![DeltaChange::Remove("/old.txt".into())])), 6, 7),
        WatchStep::Write(_)
    ));
    assert!(!s.is_stale());
    match s.watch(Ok(WatchBatch::RescanRequired("overflow".into())), 6, 7) {
        WatchStep::Stop(reason) => assert!(reason.contains("overflow")),
        _ => panic!("the watch ends"),
    }
    assert!(s.is_stale());
}

// ---------------------------------------------------------------------------
// Watching

const META_LEN: usize = 24;
const INFO_HEADER_LEN: usize = 4;

#[test]
fn parses_name_and_handle_with_bounds() {
    let handle_payload = [0xaa, 0xbb];
    let mut info = Vec::new();
    info.extend_from_slice(&[libc::FAN_EVENT_INFO_TYPE_DFID_NAME, 0, 0, 0]);
    info.extend_from_slice(&[0; 8]);
    info.extend_from_slice(&(handle_payload.len() as u32).to_ne_bytes());
    info.extend_from_slice(&7i32.to_ne_bytes());
    info.extend_from_slice(&handle_payload);
    info.extend_from_slice(b"report.txt\0");
    let info_len = info.len() as u16;
    info[2..4].copy_from_slice(&info_len.to_ne_bytes());

    let event_len = META_LEN + info.len();
    let mut event = vec![0; META_LEN];
    event[0..4].copy_from_slice(&(event_len as u32).to_ne_bytes());
    event[4] = libc::FANOTIFY_METADATA_VERSION;
    event[6..8].copy_from_slice(&(META_LEN as u16).to_ne_bytes());
    event[8..16].copy_from_slice(&libc::FAN_CREATE.to_ne_bytes());
    event.extend_from_slice(&info);

    let parsed = parse_events(&event).unwrap();
    assert_eq!(parsed.len(), 1);
    assert_eq!(parsed[0].locations[0].role, Role::Current);
    assert_eq!(
        parsed[0].locations[0].name.as_deref(),
        Some(&b"report.txt"[..])
    );
    assert_eq!(parsed[0].locations[0].handle.len(), 10);
}

#[test]
fn directory_renames_require_native_reindex() {
    let events = vec![ParsedEvent {
        mask: libc::FAN_RENAME | libc::FAN_ONDIR,
        locations: Vec::new(),
    }];
    assert_eq!(
        rescan_reason(&events, true),
        Some("directory rename requires descendant path reconciliation")
    );
}

#[test]
fn legacy_unpaired_moves_require_native_reindex() {
    let events = vec![ParsedEvent {
        mask: libc::FAN_MOVED_FROM,
        locations: Vec::new(),
    }];
    assert_eq!(
        rescan_reason(&events, false),
        Some("kernel reported an unpaired move event")
    );
}

#[test]
fn rejects_info_record_past_event_boundary() {
    let mut event = vec![0; META_LEN + INFO_HEADER_LEN];
    let len = event.len() as u32;
    event[0..4].copy_from_slice(&len.to_ne_bytes());
    event[4] = libc::FANOTIFY_METADATA_VERSION;
    event[6..8].copy_from_slice(&(META_LEN as u16).to_ne_bytes());
    event[META_LEN + 2..META_LEN + 4].copy_from_slice(&99u16.to_ne_bytes());
    assert!(parse_events(&event).is_err());
}

fn watched() -> Watched {
    Watched {
        mount: mount("/dev/root", "/", FsKind::Ext4),
        source: 3,
        excluded: vec!["/var/index.nsx".into()],
    }
}

fn looked_up(mask: u64, path: &str, there: bool) -> LookedUp {
    LookedUp {
        mask,
        role: Role::Current,
        named: true,
        found: Resolution::Found {
            path: path.to_owned(),
            stat: if there {
                Some(FileStat { mode: 0o100644, size: 4, mtime: 5, ino: 6 })
            } else {
                None
            },
            parent: 2,
        },
    }
}

#[test]
fn watched_changes_are_what_stands_there_now() {
    let found = vec![
        looked_up(libc::FAN_CREATE, "/home/a.txt", true),
        looked_up(libc::FAN_DELETE, "/home/b.txt", false),
        looked_up(libc::FAN_CREATE, "/var/index.nsx", true),
    ];
    match collect_events(&watched(), found).unwrap() {
        WatchBatch::Changes(changes) => {
            assert_eq!(changes.len(), 2);
            assert!(changes.iter().any(|c| matches!(
                c,
                DeltaChange::Upsert(r) if r.path == "/home/a.txt" && r.size == 4 && r.source == 3
            )));
            assert!(changes
                .iter()
                .any(|c| matches!(c, DeltaChange::Remove(p) if p == "/home/b.txt")));
        }
        WatchBatch::RescanRequired(reason) => panic!("{}", reason),
    }
}

// ---------------------------------------------------------------------------
// Windows

#[test]
fn only_the_installed_gui_beside_the_helper_is_trusted() {
    let helper = r"C:\Program Files\Neutrasearch\neutrasearch-helper.exe";
    assert!(
        validate_client_path(helper, r"c:\program files\neutrasearch\Neutrasearch.exe").is_ok()
    );
    assert!(validate_client_path(helper, r"C:\Temp\neutrasearch.exe").is_err());
    assert!(validate_client_path(
        helper,
        r"C:\Program Files\Neutrasearch\neutrasearch-mcp.exe"
    )
    .is_err());
    assert!(windows_path_is_under(
        r"C:\Program Files\Neutrasearch",
        r"C:\Program Files"
    ));
    assert!(!windows_path_is_under(
        r"C:\Program Files-old\Neutrasearch",
        r"C:\Program Files"
    ));
}

#[test]
fn paths_without_a_folder_are_no_clients() {
    assert_eq!(
        validate_client_path(r"C:\", r"C:\x.exe").unwrap_err(),
        "installed helper has no parent directory"
    );
    assert_eq!(
        validate_client_path(r"C:\h.exe", "").unwrap_err(),
        "pipe client has no parent directory"
    );
    assert!(validate_client_path(r"\\?\C:\N\h.exe", r"C:/N/neutrasearch.exe").is_ok());
}

fn ace(kind: u8, mask: u32, sid: &str) -> Ace {
    Ace { kind, mask, sid: sid.to_owned() }
}

#[test]
fn only_administrators_may_write_to_the_service() {
    let good = vec![
        ace(0, 0x1f01ff, "S-1-5-18"),
        ace(0, 0x1f01ff, "S-1-5-32-544"),
        ace(0, 0x1200a9, "S-1-5-32-545"),
    ];
    assert!(reject_non_admin_write_acl("p", Some(&good)).is_ok());
    let writable = vec![ace(0, 0x2, "S-1-5-32-545")];
    assert!(reject_non_admin_write_acl("p", Some(&writable))
        .unwrap_err()
        .contains("non-administrator SID S-1-5-32-545"));
    assert!(reject_non_admin_write_acl("p", Some(&vec![ace(9, 0, "")]))
        .unwrap_err()
        .contains("unexpected ACL entry"));
    assert!(reject_non_admin_write_acl("p", None)
        .unwrap_err()
        .contains("null DACL"));
}

#[test]
fn services_run_from_program_files() {
    let installed = |nature| {
        vec![Installed { path: r"C:\Program Files\N\h.exe".to_owned(), nature }]
    };
    let dir = r"C:\Program Files\N";
    let top = r"C:\Program Files";
    let files = installed(Nature::File);
    let folders = installed(Nature::Folder);
    assert!(validate_installed_files(dir, top, &files, &folders).is_ok());
    assert!(validate_installed_files(r"D:\N", top, &files, &folders)
        .unwrap_err()
        .contains("outside Program Files"));
    assert!(validate_installed_files(dir, top, &folders, &folders)
        .unwrap_err()
        .contains("must be regular"));
    assert!(validate_installed_files(dir, top, &files, &installed(Nature::Other))
        .unwrap_err()
        .contains("reparse points"));
}

fn refusal(step: PipeStep) -> String {
    match step {
        PipeStep::Refused(reason) => reason,
        _ => panic!("the pipe was not refused"),
    }
}

#[test]
fn pipes_are_tried_until_the_time_is_over() {
    for code in [2, 231] {
        assert!(matches!(pipe_step(Some(code), "", false, true), PipeStep::Wait));
    }
    assert!(matches!(pipe_step(Some(2), "", true, false), PipeStep::NotInstalled));
    assert_eq!(
        refusal(pipe_step(Some(2), "", true, true)),
        "the installed scanner service is unavailable; repair or restart the \
         NeutrasearchHelper service"
    );
    assert_eq!(
        refusal(pipe_step(Some(231), "", true, false)),
        "the installed scanner service is busy with another scan; wait a moment and try again"
    );
    for code in [Some(5), None] {
        assert_eq!(
            refusal(pipe_step(code, "access denied", false, true)),
            "cannot connect to the installed scanner service: access denied; repair the \
             Neutrasearch installation"
        );
    }
}

#[test]
fn services_greet_in_the_protocol_of_the_window() {
    let hello = |proto: u32| HelperMsg::Hello {
        proto,
        build: 1,
        os: "windows".to_owned(),
        arch: "x86_64".to_owned(),
    };
    assert!(matches!(
        service_greeting(Some(hello(PROTO_VERSION)), ""),
        Ok(HelperMsg::Hello { build: 1, .. })
    ));
    assert_eq!(
        service_greeting(Some(hello(3)), "").err().unwrap(),
        format!(
            "scanner service protocol mismatch: GUI={PROTO_VERSION}, service=3; repair the \
             installation"
        )
    );
    assert_eq!(
        service_greeting(None, "").err().unwrap(),
        "the installed scanner service closed during handshake"
    );
    let other = HelperMsg::Error("no".to_owned());
    let shown = format!("{other:?}");
    assert_eq!(
        service_greeting(Some(other), &shown).err().unwrap(),
        "scanner service returned an invalid handshake: Error(\"no\")"
    );
}

#[test]
fn windows_mounts_are_found_by_their_components() {
    let table = vec![mount(r"\\.\C:", r"C:\", FsKind::Ntfs)];
    for spelled in ["C:/", "c:\\", "C:\\."] {
        let asked = vec![mount("", spelled, FsKind::Ntfs)];
        let resolved = resolve_scan_mounts(Host::Windows, &asked, &table, true).unwrap();
        assert_eq!(resolved[0].mountpoint, r"C:\");
    }
    for spelled in ["C:", "D:/", r"\\C:\x"] {
        let asked = vec![mount("", spelled, FsKind::Ntfs)];
        assert!(resolve_scan_mounts(Host::Windows, &asked, &table, true).is_err());
    }
}

#[test]
fn windows_scopes_name_a_drive_or_a_share() {
    let scoped = |root: &str| {
        let mut query = Query::parse("a");
        query.limit = 10;
        query.scope_roots = vec![root.to_owned()];
        validate_query(Host::Windows, &query).is_ok()
    };
    for root in [r"C:\data", "c:/", r"\\server\share", "//server/share/x", r"\\?\C:\x", r"\\.\COM1"] {
        assert!(scoped(root), "{root}");
    }
    for root in [r"\\server", r"\\server\", r"\\\share", "C:data", r"\data", "data"] {
        assert!(!scoped(root), "{root}");
    }
}
