//! The command line, the scriptable client, the tool server, and servers of network mounts.

use neutrasearch::client::{parse_arguments, run, Request, RunError};
use neutrasearch::compact_index::CompactIndex;
use neutrasearch::host::Host;
use neutrasearch::index::Index;
use neutrasearch::mcp::{
    allowed_roots_from, call_search, configured_index_from, looks_compact, message_request,
    method, path_is_allowed, portable_path_is_under, portable_path_text, read_request,
    safe_absolute_path, status_text, tool, unknown_method, unknown_tool, Method,
    Request as ToolRequest, Store, Tool, METHOD_NOT_FOUND,
};
use neutrasearch::mounts::{FsKind, MountInfo, MountSource};
use neutrasearch::pathmap::PathMap;
use neutrasearch::proto::HelperMsg;
use neutrasearch::remote::{
    artifact_name, build_check_command, connect_command, helper_is_current, new_network_mounts,
    normalize_arch, unix_install_command, validate_host, verify_local_artifact,
    windows_install_command, Provisioner, RemoteError, RemoteOs, RemotePlatform,
};
use neutrasearch::terminal::{
    action, beside, companion, executable_name, helper_arguments, index_override, missing_index,
    only_index, parse_index, parse_serve, take_scan_event, Action, BuildStep, Command, ScanEvent,
};
use neutrasearch::types::{FileKind, FileRecord};

fn words(v: &[&str]) -> Vec<String> {
    v.iter().map(|s| (*s).to_owned()).collect()
}

fn record(path: &str, size: u64) -> FileRecord {
    FileRecord {
        path: path.to_owned(),
        size,
        mtime: -1,
        mode: 0,
        kind: FileKind::File,
        fs: FsKind::Ext4,
        native_id: 0,
        native_parent: 0,
        source: 0,
    }
}

// ---------------------------------------------------------------------------
// The command line

#[test]
fn companion_uses_product_prefix() {
    assert_eq!(
        executable_name(Host::Windows, "neutrasearch-query"),
        "neutrasearch-query.exe"
    );
    assert_eq!(
        executable_name(Host::Linux, "neutrasearch-query"),
        "neutrasearch-query"
    );
}

#[test]
fn companions_are_configured_beside_or_found_by_name() {
    assert_eq!(
        beside(Host::Linux, "/opt/n/neutrasearch", "neutrasearch-mcp"),
        "/opt/n/neutrasearch-mcp"
    );
    assert_eq!(companion(Host::Linux, Some("/x".into()), Some("/y".into()), "b"), "/x");
    assert_eq!(companion(Host::Linux, None, Some("/y".into()), "b"), "/y");
    assert_eq!(companion(Host::Windows, None, None, "b"), "b.exe");
}

#[test]
fn index_command_defaults_to_the_machine_index_location() {
    assert_eq!(parse_index(&Vec::new()).unwrap(), None);
    assert_eq!(
        parse_index(&words(&["--output", "files.nsx"])).unwrap(),
        Some("files.nsx".to_owned())
    );
}

#[test]
fn index_command_has_no_root_or_depth_mode() {
    assert!(parse_index(&words(&["/mnt/data"]))
        .unwrap_err()
        .contains("full machine"));
    assert!(parse_index(&words(&["--depth", "2"]))
        .unwrap_err()
        .contains("full machine"));
    assert!(parse_index(&words(&["-o"])).is_err());
    assert!(parse_index(&words(&["-o", "a", "-o", "b"])).is_err());
}

#[test]
fn serve_watch_has_explicit_source() {
    let (index, watch, source) = parse_serve(
        &words(&["--index", "files.nsx", "--watch", "/home", "--source", "4"]),
        "unused".into(),
    )
    .unwrap();
    assert_eq!(index, "files.nsx");
    assert_eq!(watch, Some("/home".to_owned()));
    assert_eq!(source, 4);
    assert_eq!(
        helper_arguments(index, watch, source),
        vec!["--watch-index", "files.nsx", "/home", "4"]
    );
    assert_eq!(
        parse_serve(&words(&["--source", "4"]), "i".into()).unwrap_err(),
        "--source requires --watch MOUNT"
    );
    assert_eq!(
        parse_serve(&words(&["--source", "x"]), "i".into()).unwrap_err(),
        "--source requires an unsigned integer"
    );
    assert_eq!(parse_serve(&Vec::new(), "i".into()).unwrap().0, "i");
}

#[test]
fn commands_are_told_apart() {
    assert!(matches!(action(Vec::new(), "1.0"), Action::Gui));
    assert!(matches!(action(words(&["gui"]), "1.0"), Action::Gui));
    assert!(matches!(action(words(&["gui", "x"]), "1.0"), Action::Exit(2, _)));
    match action(words(&["search", "a b"]), "1.0") {
        Action::Run(Command::Search, rest) => assert_eq!(rest, vec!["a b"]),
        _ => panic!("a search is run"),
    }
    match action(words(&["--version"]), "1.0") {
        Action::Exit(0, said) => assert_eq!(said, "neutrasearch 1.0"),
        _ => panic!("the version is told"),
    }
    match action(words(&["help"]), "1.0") {
        Action::Exit(0, said) => assert!(said.contains("\n  neutrasearch mcp [--index")),
        _ => panic!("help is told"),
    }
    match action(words(&["walk"]), "1.0") {
        Action::Exit(2, said) => assert!(said.contains("unknown command 'walk'")),
        _ => panic!("unknown commands are refused"),
    }
}

#[test]
fn indexes_are_named_once() {
    assert_eq!(
        index_override(&words(&["q", "--index", "a.nsx"])).unwrap(),
        Some("a.nsx".to_owned())
    );
    assert!(index_override(&words(&["--index"])).is_err());
    assert!(index_override(&words(&["--index", "a", "--index", "b"])).is_err());
    assert_eq!(only_index(&Vec::new(), "mcp").unwrap(), None);
    assert_eq!(
        only_index(&words(&["--index", "a"]), "mcp").unwrap(),
        Some("a".to_owned())
    );
    assert_eq!(
        only_index(&words(&["a"]), "mcp").unwrap_err(),
        "mcp accepts only [--index INDEX.nsx]"
    );
    assert!(missing_index("/i", Some("bad")).contains("is not usable (bad)"));
}

#[test]
fn machine_scans_are_published_when_something_was_found() {
    let roots = words(&["/home"]);
    let mut found = Index::new();
    assert!(matches!(
        take_scan_event(
            Host::Linux,
            &roots,
            &mut found,
            ScanEvent::Message(HelperMsg::ScanComplete { mounts: 1, errors: 0 })
        ),
        BuildStep::Fail(e) if e.contains("the previous index was kept")
    ));
    take_scan_event(
        Host::Linux,
        &roots,
        &mut found,
        ScanEvent::Message(HelperMsg::Records(vec![record("/home/a", 1), record("/etc/b", 1)])),
    );
    assert_eq!(found.len(), 1);
    assert!(matches!(
        take_scan_event(
            Host::Linux,
            &roots,
            &mut found,
            ScanEvent::Message(HelperMsg::ScanComplete { mounts: 2, errors: 2 })
        ),
        BuildStep::Fail(e) if e.contains("(2 error(s))")
    ));
    assert!(matches!(
        take_scan_event(
            Host::Linux,
            &roots,
            &mut found,
            ScanEvent::Message(HelperMsg::ScanComplete { mounts: 2, errors: 1 })
        ),
        BuildStep::Publish
    ));
    assert!(matches!(
        take_scan_event(Host::Linux, &roots, &mut found, ScanEvent::Closed),
        BuildStep::Fail(_)
    ));
}

// ---------------------------------------------------------------------------
// The client

fn needles() -> CompactIndex {
    let records = [record("/src/needle.rs", 7), record("/private/needle-key.txt", 9)];
    let (bytes, _) = CompactIndex::build(&records, 3).unwrap();
    CompactIndex::open(bytes, false).unwrap()
}

fn request(root: &str) -> Request {
    Request {
        query: "needle".into(),
        limit: Some(5),
        metadata: Some(true),
        scope_roots: vec![root.to_owned()],
        scope_case_sensitive: Some(true),
    }
}

#[test]
fn ndjson_api() {
    let response = run(Host::Linux, &needles(), None, &request("/src")).ok().unwrap();
    assert_eq!(response.paths, vec!["/src/needle.rs"]);
    assert_eq!((response.matched, response.returned), (1, 1));
    let lines = response.records.unwrap();
    assert_eq!((lines[0].kind.as_str(), lines[0].fs.as_str()), ("file", "ext4"));

    let error = run(Host::Linux, &needles(), None, &request("relative/path"))
        .err()
        .unwrap();
    assert!(matches!(&error, RunError::RelativeScope));
    assert!(error.message().contains("absolute paths"));
}

#[test]
fn client_arguments() {
    let a = parse_arguments(
        Host::Linux,
        &words(&["my", "--limit", "9999", "--scope", "/src", "--json", "query"]),
    )
    .ok()
    .unwrap();
    assert_eq!(a.words, vec!["my", "query"]);
    assert_eq!((a.limit, a.json, a.json_paths, a.stdio), (1000, true, false, false));
    assert_eq!(a.scope_roots, vec!["/src"]);
    let said = |v: &[&str]| parse_arguments(Host::Linux, &words(v)).err().unwrap();
    assert_eq!(said(&["--limit", "x"]), "invalid --limit");
    assert_eq!(said(&["--limit"]), "--limit requires a number");
    assert_eq!(said(&["--scope", "src"]), "--scope requires an absolute path");
    assert_eq!(said(&["--what"]), "unknown option --what");
    assert!(parse_arguments(Host::Linux, &words(&["-h", "--what"])).ok().unwrap().help);
}

// ---------------------------------------------------------------------------
// The tool server

#[test]
fn mcp_methods_and_tools() {
    assert_eq!(method("tools/list"), Method::ListTools);
    assert_eq!(method("initialize"), Method::Initialize);
    assert_eq!(method("other"), Method::Unknown);
    assert_eq!(tool("neutra_search"), Tool::Search);
    assert_eq!(tool("neutra_status"), Tool::Status);
    assert_eq!(tool("rm"), Tool::Unknown);
    assert_eq!(
        status_text(3, &Store::Legacy(Index::new()).kind(), 9),
        "3 indexed entries; legacy-resident store; 9 bytes"
    );
    assert!(looks_compact(b"NEUTIDX1rest"));
    assert!(!looks_compact(b"NEUTIDX"));
}

#[test]
fn mcp_lists_tools() {
    let line = "{\"jsonrpc\":\"2.0\",\"id\":1,\"method\":\"tools/list\"}";
    match read_request(line) {
        ToolRequest::ListTools { id } => assert_eq!(id, "1"),
        other => panic!("{other:?}"),
    }
    assert_eq!(Tool::Search.name(), "neutra_search");
    assert_eq!(Tool::Status.name(), "neutra_status");
}

#[test]
fn mcp_lines_without_a_request() {
    for line in ["", "  \t", "\u{a0}\r"] {
        assert!(matches!(read_request(line), ToolRequest::Blank));
    }
    for line in ["{", "tools/list", "{} {}", "\u{feff}{}"] {
        assert!(matches!(read_request(line), ToolRequest::Broken));
    }
    for line in [
        "{\"method\":\"ping\"}",
        "[1]",
        "7",
        "\"id\"",
        " {\"params\":{\"id\":1},\"method\":\"tools/list\"}",
    ] {
        assert!(matches!(read_request(line), ToolRequest::Notice));
    }
}

#[test]
fn mcp_messages_keep_their_id() {
    match read_request("{\"id\":null,\"method\":\"ping\"}") {
        ToolRequest::Ping { id } => assert_eq!(id, "null"),
        other => panic!("{other:?}"),
    }
    match read_request("{\"id\":\"a\\\"b\",\"method\":\"initialize\"}") {
        ToolRequest::Initialize { id } => assert_eq!(id, "\"a\\\"b\""),
        other => panic!("{other:?}"),
    }
    match read_request("{\"id\": [1, 2]}") {
        ToolRequest::UnknownMethod { id, name } => {
            assert_eq!((id.as_str(), name.as_str()), ("[1,2]", ""));
            assert_eq!(unknown_method(&name), "unknown method ");
        }
        other => panic!("{other:?}"),
    }
    match read_request("{\"id\":1,\"method\":\"resources/list\"}") {
        ToolRequest::UnknownMethod { name, .. } => {
            assert_eq!(unknown_method(&name), "unknown method resources/list");
        }
        other => panic!("{other:?}"),
    }
    assert_eq!(METHOD_NOT_FOUND, -32601);
}

#[test]
fn mcp_calls_name_a_tool_and_its_arguments() {
    let call = |params: &str| {
        read_request(&format!("{{\"id\":3,\"method\":\"tools/call\",\"params\":{params}}}"))
    };
    let search = |arguments: &str| {
        match call(&format!("{{\"name\":\"neutra_search\",\"arguments\":{arguments}}}")) {
            ToolRequest::Search { id, query, limit, metadata } => {
                assert_eq!(id, "3");
                (query, limit, metadata)
            }
            other => panic!("{other:?}"),
        }
    };
    assert_eq!(
        search("{\"query\":\"ext:rs \\u0061\",\"limit\":7,\"metadata\":true}"),
        ("ext:rs a".to_owned(), Some(7), true)
    );
    assert_eq!(
        search("{\"query\":\"x\",\"limit\":0,\"metadata\":false}"),
        ("x".to_owned(), Some(0), false)
    );
    assert_eq!(search("{\"query\":5,\"limit\":-1,\"metadata\":1}"), (String::new(), None, false));
    assert_eq!(search("{\"limit\":2.0}"), (String::new(), None, false));
    assert_eq!(search("[]"), (String::new(), None, false));
    assert_eq!(search("null"), (String::new(), None, false));
    assert!(matches!(
        call("{\"name\":\"neutra_search\"}"),
        ToolRequest::Search { limit: None, metadata: false, .. }
    ));
    assert!(matches!(call("{\"name\":\"neutra_status\"}"), ToolRequest::Status { .. }));
    match call("{\"name\":\"rm\"}") {
        ToolRequest::UnknownTool { name, .. } => {
            assert_eq!(unknown_tool(&name), "unknown tool rm");
        }
        other => panic!("{other:?}"),
    }
    match call("{}") {
        ToolRequest::UnknownTool { name, .. } => assert_eq!(name, ""),
        other => panic!("{other:?}"),
    }
}

#[test]
fn mcp_messages_ask_what_was_found_in_them() {
    let some = |t: &str| Some(t.to_owned());
    assert!(matches!(
        message_request(None, some("ping"), None, None, None, None),
        ToolRequest::Notice
    ));
    assert!(matches!(
        message_request(some("1"), some("tools/call"), some("neutra_search"), None, Some(9), None),
        ToolRequest::Search { limit: Some(9), metadata: false, .. }
    ));
    assert!(matches!(
        message_request(some("1"), None, some("neutra_search"), None, None, None),
        ToolRequest::UnknownMethod { .. }
    ));
}

#[test]
fn mcp_paths_are_safe_by_their_components() {
    assert!(safe_absolute_path(Host::Linux, "/a/./b"));
    assert!(safe_absolute_path(Host::Linux, "/a/..b"));
    assert!(!safe_absolute_path(Host::Linux, "/a/.."));
    assert!(!safe_absolute_path(Host::Linux, "a/b"));
    assert!(!safe_absolute_path(Host::Linux, "/a\0b"));
    assert!(safe_absolute_path(Host::Windows, r"C:\a\.\b"));
    assert!(!safe_absolute_path(Host::Windows, r"C:\a/../b"));
    assert!(!safe_absolute_path(Host::Windows, r"\\?\C:\a\.\b"));
    assert!(!safe_absolute_path(Host::Windows, r"\\?\C:\a\..\b"));
    assert!(safe_absolute_path(Host::Windows, r"\\?\C:\x/../y"));
    assert!(safe_absolute_path(Host::Windows, r"\\server\share\a"));
}

#[test]
fn mcp_settings() {
    assert!(configured_index_from(None, None).is_err());
    assert!(configured_index_from(Some("".into()), None).is_err());
    assert_eq!(configured_index_from(None, Some("/i".into())).unwrap(), "/i");
    assert!(allowed_roots_from(Host::Linux, None).unwrap().is_empty());
    assert!(allowed_roots_from(Host::Linux, Some(words(&["/a", ""]))).is_err());
    assert!(allowed_roots_from(Host::Linux, Some(words(&["/a/../b"]))).is_err());
    assert_eq!(allowed_roots_from(Host::Linux, Some(words(&["/a"]))).unwrap(), vec!["/a"]);
}

#[test]
fn allowed_roots_apply_before_query_limit() {
    let mut index = Index::new();
    for path in ["/denied/needle.txt", "/allowed/path/has-needle-here.txt"] {
        index.push(record(path, 1));
    }
    let store = Store::Legacy(index);
    let reply = call_search(
        Host::Linux,
        &store,
        "needle",
        Some(1),
        false,
        &words(&["/allowed"]),
    )
    .unwrap();
    assert_eq!(reply.paths[0], "/allowed/path/has-needle-here.txt");
    assert_eq!(
        reply.text,
        format!(
            "# matched=1 returned=1 search_us={}\n/allowed/path/has-needle-here.txt",
            reply.search_us
        )
    );
    let told = call_search(Host::Linux, &store, "needle", None, true, &words(&["/denied"])).unwrap();
    assert!(told.text.ends_with("/denied/needle.txt\tFile\t1\t-1\text4"));
}

#[test]
fn windows_extended_roots_match_portable_ntfs_index_paths() {
    let root = portable_path_text(r"\\?\C:\Users\Alice");
    assert_eq!(root, "C:/Users/Alice");
    assert!(portable_path_is_under("C:/Users/Alice/report.txt", &root, false));
    assert!(portable_path_is_under("c:/users/alice/report.txt", &root, false));
    assert!(!portable_path_is_under("C:/Users/Alicia/report.txt", &root, false));
    assert_eq!(
        portable_path_text(r"\\?\UNC\server\share\team"),
        "//server/share/team"
    );
}

#[test]
fn allowed_roots_use_path_component_boundaries() {
    let roots = words(&["/home/a"]);
    assert!(path_is_allowed(Host::Linux, "/home/a/file.txt", &roots));
    assert!(path_is_allowed(Host::Linux, "/home/a", &roots));
    assert!(!path_is_allowed(Host::Linux, "/home/ab/file.txt", &roots));
    assert!(!path_is_allowed(Host::Linux, "/home/a/../secret", &roots));
    assert!(!path_is_allowed(Host::Linux, "relative/file.txt", &roots));
    let drives = words(&[r"C:\home\a"]);
    assert!(path_is_allowed(Host::Windows, r"C:\home\a\file.txt", &drives));
    assert!(!path_is_allowed(Host::Windows, r"C:\home\ab\file.txt", &drives));
    assert!(!path_is_allowed(Host::Windows, r"C:\home\a\..\secret", &drives));
}

// ---------------------------------------------------------------------------
// Servers

fn platform(os: RemoteOs, arch: &str) -> RemotePlatform {
    RemotePlatform { os, arch: arch.to_owned() }
}

#[test]
fn artifact_matrix() {
    assert_eq!(
        artifact_name(&platform(RemoteOs::Linux, "x86_64")),
        "neutrasearch-helper-linux-x86_64"
    );
    assert_eq!(
        artifact_name(&platform(RemoteOs::Windows, "x86_64")),
        "neutrasearch-helper-windows-x86_64.exe"
    );
    assert_eq!(
        artifact_name(&platform(RemoteOs::Macos, "aarch64")),
        "neutrasearch-helper-macos-aarch64"
    );
}

#[test]
fn platform_commands_expand_paths_in_the_remote_shell() {
    let linux = platform(RemoteOs::Linux, "x86_64");
    assert_eq!(
        build_check_command(&linux),
        "~/.local/lib/neutrasearch/neutrasearch-helper --build"
    );
    assert_eq!(
        connect_command(&linux),
        "~/.local/lib/neutrasearch/neutrasearch-helper"
    );

    let windows = platform(RemoteOs::Windows, "x86_64");
    assert_eq!(
        build_check_command(&windows),
        "powershell -NoProfile -NonInteractive -Command \"& (Join-Path $env:LOCALAPPDATA 'Neutrasearch\\neutrasearch-helper.exe') --build\""
    );
    assert_eq!(
        connect_command(&windows),
        "powershell -NoProfile -NonInteractive -Command \"& (Join-Path $env:LOCALAPPDATA 'Neutrasearch\\neutrasearch-helper.exe')\""
    );
    let digest = "a".repeat(64);
    assert!(windows_install_command(&digest).contains("Join-Path $HOME"));
    assert!(windows_install_command(&digest).contains("Move-Item"));
    assert!(windows_install_command(&digest).contains("$env:LOCALAPPDATA"));
    assert!(windows_install_command(&digest).contains(&digest));
    assert!(unix_install_command(&digest, RemoteOs::Linux).contains("sha256sum"));
    assert!(unix_install_command(&digest, RemoteOs::Macos).contains("shasum -a 256"));
}

#[test]
fn local_artifact_requires_matching_sha256_sidecar() {
    let bytes = b"helper bytes";
    assert!(matches!(
        verify_local_artifact("/h", None, bytes),
        Err(RemoteError::NoChecksum(p)) if p == "/h.sha256"
    ));
    let digest = format!("{:x}", <sha2::Sha256 as sha2::Digest>::digest(bytes));
    let file = format!("{}  helper\n", digest);
    assert_eq!(verify_local_artifact("/h", Some(&file), bytes).unwrap(), digest);
    let other = format!("{}  helper\n", "0".repeat(64));
    assert!(matches!(
        verify_local_artifact("/h", Some(&other), bytes),
        Err(RemoteError::ChecksumMismatch(_))
    ));
    assert!(matches!(
        verify_local_artifact("/h", Some(" \n"), bytes),
        Err(RemoteError::EmptyChecksum)
    ));
    assert!(matches!(
        verify_local_artifact("/h", Some("beef"), bytes),
        Err(RemoteError::InvalidChecksum(_))
    ));
}

#[test]
fn accepts_unambiguous_ssh_hosts() {
    for host in [
        "good-host",
        "server.example.test",
        "alice@good-host",
        "build_bot@10.0.0.4",
        "[2001:db8::1]",
        "alice@[2001:db8::1]",
    ] {
        assert!(validate_host(host).is_ok(), "should accept {}", host);
    }
}

#[test]
fn rejects_option_path_and_shell_ambiguous_hosts() {
    for host in [
        "",
        "-oProxyCommand=bad",
        "alice@-bad",
        "alice@@host",
        "host:path",
        "host/path",
        "host\\path",
        "bad;rm",
        "bad host",
        "[not-ipv6]",
        "[]",
        "[",
    ] {
        assert!(validate_host(host).is_err(), "should reject {}", host);
    }
}

fn provisioner() -> Provisioner {
    Provisioner { artifacts: "/helpers".into(), connect_timeout_secs: 5 }
}

#[test]
fn platforms_are_detected() {
    let p = provisioner();
    let linux = p.detect("nas", Some(b"Linux\namd64\n"), None).unwrap();
    assert_eq!((linux.os, linux.arch.as_str()), (RemoteOs::Linux, "x86_64"));
    let windows = p.detect("nas", None, Some(b"Arm64\r\n")).unwrap();
    assert_eq!((windows.os, windows.arch.as_str()), (RemoteOs::Windows, "aarch64"));
    assert!(matches!(
        p.detect("nas", Some(b"Plan9\n"), None),
        Err(RemoteError::UnsupportedOs(o)) if o == "Plan9"
    ));
    assert!(matches!(p.detect("nas", None, None), Err(RemoteError::NoShell(_))));
    assert!(matches!(p.detect("-x", None, None), Err(RemoteError::UnsafeHost)));
    assert_eq!(normalize_arch(" X64 "), "x86_64");
    assert_eq!(
        p.ssh_options(),
        vec!["-o", "BatchMode=yes", "-o", "ConnectTimeout=5"]
    );
    assert!(helper_is_current(Some(b"9\n")));
    assert!(!helper_is_current(Some(b"8\n")));
    assert!(!helper_is_current(None));
}

#[test]
fn helpers_are_put_in_place_once_their_digest_is_right() {
    let steps = provisioner().install_steps("nas", &platform(RemoteOs::Linux, "x86_64"), "d1");
    assert_eq!(steps.len(), 3);
    assert!(steps[1].upload);
    assert_eq!(
        steps[1].text,
        "nas:~/.local/lib/neutrasearch/neutrasearch-helper.new"
    );
    assert!(steps[2].text.contains("= 'd1' &&"));
    let steps = provisioner().install_steps("nas", &platform(RemoteOs::Windows, "x86_64"), "d1");
    assert_eq!(steps[1].text, "nas:neutrasearch-helper.exe.new");
}

#[test]
fn network_mounts_are_reported_once() {
    let mounts = vec![
        MountInfo {
            device: "nas:/a".into(),
            mountpoint: "/mnt/a".into(),
            fs: FsKind::Network("nfs".into()),
            source: MountSource::Remote { host: "nas".into() },
        },
        MountInfo {
            device: "/dev/sda1".into(),
            mountpoint: "/".into(),
            fs: FsKind::Ext4,
            source: MountSource::Local,
        },
    ];
    let mut seen: PathMap<String> = PathMap::new();
    assert_eq!(new_network_mounts(&mounts, &mut seen).len(), 1);
    assert!(new_network_mounts(&mounts, &mut seen).is_empty());
    assert_eq!(provisioner().provision_mount(&mounts[0]).unwrap(), "nas");
    assert!(matches!(
        provisioner().provision_mount(&mounts[1]),
        Err(RemoteError::NotRemote)
    ));
}
