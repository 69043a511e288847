//! Records, queries, and the index in memory.

use neutrasearch::index::Index;
use neutrasearch::mounts::{parse_mountinfo, FsKind, MountInfo, MountSource};
use neutrasearch::query::{Query, SortKey};
use neutrasearch::types::{FileKind, FileRecord};

fn rec(path: &str, size: u64, mtime: i64) -> FileRecord {
    FileRecord {
        path: path.to_owned(),
        size,
        mtime,
        mode: 0o644,
        kind: FileKind::File,
        fs: FsKind::Ext4,
        native_id: 0,
        native_parent: 0,
        source: 0,
    }
}

#[test]
fn parses_filters() {
    let q = Query::parse("main ext:rs,toml size:>1k kind:file under:/src");
    assert_eq!(q.terms, vec!["main"]);
    assert_eq!(q.exts, vec!["rs", "toml"]);
    assert_eq!(q.min_size, Some(1024));
    assert_eq!(q.kinds, vec![FileKind::File]);
    assert_eq!(q.under.as_deref(), Some("/src"));
}

#[test]
fn under_filter_respects_path_component_boundaries() {
    let q = Query::parse("under:/home/a");
    assert!(q.passes_filters(&rec("/home/a/file.txt", 1, 0)));
    assert!(q.passes_filters(&rec("/home/a", 1, 0)));
    assert!(!q.passes_filters(&rec("/home/ab/file.txt", 1, 0)));

    let windows = Query::parse(r"under:C:\Users\A");
    assert!(windows.passes_filters(&rec(r"c:\Users\A\file.txt", 1, 0)));
    assert!(!windows.passes_filters(&rec(r"c:\Users\AB\file.txt", 1, 0)));
}

#[test]
fn trusted_scope_roots_are_orred_with_component_boundaries() {
    let mut q = Query::parse("");
    q.scope_roots = vec!["/allowed/a".into(), "/allowed/b".into()];
    assert!(q.passes_filters(&rec("/allowed/a/file.txt", 1, 0)));
    assert!(q.passes_filters(&rec("/allowed/b/file.txt", 1, 0)));
    assert!(!q.passes_filters(&rec("/allowed/ab/file.txt", 1, 0)));
    assert!(!q.passes_filters(&rec("/denied/file.txt", 1, 0)));
    assert!(!q.passes_filters(&rec("/allowed/a/../secret.txt", 1, 0)));
}

#[test]
fn trusted_windows_scope_accepts_native_or_portable_separators() {
    let mut query = Query::parse("");
    query.scope_roots = vec![r"C:\Users\Alex".into()];
    assert!(query.passes_filters(&rec("C:/Users/Alex/report.txt", 1, 0)));
    assert!(query.passes_filters(&rec(r"c:\users\alex\report.txt", 1, 0)));
    assert!(!query.passes_filters(&rec("C:/Users/Alexander/report.txt", 1, 0)));
}

#[test]
fn trusted_scope_can_enforce_case_sensitive_host_semantics() {
    let mut query = Query::parse("");
    query.scope_roots = vec!["/Users/Alice".into()];
    assert!(query.passes_filters(&rec("/users/alice/file.txt", 1, 0)));
    query.scope_case_sensitive = true;
    assert!(query.passes_filters(&rec("/Users/Alice/file.txt", 1, 0)));
    assert!(!query.passes_filters(&rec("/users/alice/file.txt", 1, 0)));
}

#[test]
fn scores_name_over_path() {
    let q = Query::parse("config");
    let name_hit = rec("/home/u/projects/config.rs", 10, 0);
    let path_hit = rec("/home/u/config/main.rs", 10, 0);
    let s_name = q.score(&name_hit).unwrap();
    let s_path = q.score(&path_hit).unwrap();
    assert!(s_name > s_path);
    assert!(Query::parse("zzz").score(&name_hit).is_none());
}

#[test]
fn size_ranges() {
    let q = Query::parse("size:1M..2M");
    assert_eq!(q.min_size, Some(1 << 20));
    assert_eq!(q.max_size, Some(2 << 20));
    assert!(q.passes_filters(&rec("/a/b", 1_500_000, 0)));
    assert!(!q.passes_filters(&rec("/a/b", 3 << 20, 0)));
}

#[test]
fn quoted_terms() {
    let q = Query::parse("\"my doc\" ext:txt");
    assert_eq!(q.terms, vec!["my doc"]);
    assert_eq!(q.exts, vec!["txt"]);
}

#[test]
fn oversized_numbers_set_no_size() {
    let q = Query::parse("size:>99999999999999999999");
    assert_eq!(q.min_size, None);
    assert_eq!(q.max_size, None);
}

#[test]
fn queries_set_order_kind_and_family() {
    let mut q = Query::parse("kind:dir fs:ntfs report");
    assert_eq!(q.sort, SortKey::Relevance);
    q.sort = SortKey::SizeDesc;
    assert_eq!(q.sort, SortKey::SizeDesc);
    assert_eq!(q.kinds, vec![FileKind::Dir]);
    assert_eq!(q.fss, vec![FsKind::Ntfs]);
    assert_eq!(q.terms, vec!["report"]);
}

#[test]
fn search_ranks_and_limits() {
    let mut idx = Index::new();
    idx.extend(vec![
        rec("/home/u/code/main.rs", 100, 5),
        rec("/home/u/doc/main-notes.txt", 100, 9),
        rec("/opt/main/lib.rs", 100, 1),
    ]);
    let q = Query::parse("main");
    let (hits, stats) = idx.search(&q);
    assert_eq!(stats.scanned, 3);
    assert_eq!(stats.matched, 3);
    assert_eq!(hits[0].record.path, "/home/u/doc/main-notes.txt");
    assert_eq!(hits[1].record.path, "/home/u/code/main.rs");
}

#[test]
fn limits_keep_the_best_hits() {
    let mut idx = Index::new();
    idx.extend(vec![
        rec("/opt/main/lib.rs", 100, 1),
        rec("/home/u/code/main.rs", 100, 5),
        rec("/home/u/doc/main-notes.txt", 100, 9),
    ]);
    let mut q = Query::parse("main");
    q.limit = 1;
    let (hits, stats) = idx.search(&q);
    assert_eq!(stats.matched, 3);
    assert_eq!(hits.len(), 1);
    assert_eq!(hits[0].record.path, "/home/u/doc/main-notes.txt");
}

#[test]
fn source_removal() {
    let mut idx = Index::new();
    idx.extend(vec![rec("/a", 1, 1), rec("/b", 1, 1)]);
    let mut remote = rec("/mnt/nas/c", 1, 1);
    remote.source = 7;
    idx.extend(vec![remote]);
    assert_eq!(idx.remove_source(7), 1);
    assert_eq!(idx.len(), 2);
}

#[test]
fn snapshot_roundtrip() {
    let mut idx = Index::new();
    idx.extend(vec![rec("/a/b.rs", 42, 123)]);
    let bytes = idx.snapshot();
    let idx2 = Index::restore(&bytes).unwrap();
    assert_eq!(idx2.len(), 1);
    assert_eq!(idx2.records()[0].path, "/a/b.rs");
}

#[test]
fn snapshots_are_written_as_bincode_does() {
    let mut idx = Index::new();
    idx.push(rec("/a", 7, -3));
    // A list of records: length, path, size, time, mode, kind, family, two identities, source.
    let row = ("/a".to_owned(), 7u64, -3i64, 0o644u32, 0u32, 1u32, 0u64, 0u64, 0u32);
    let bytes = bincode::serialize(&vec![row]).unwrap();
    assert_eq!(idx.snapshot(), bytes);
    assert!(Index::restore(&bytes[..bytes.len() - 1]).is_none());
}

#[test]
fn names_and_extensions() {
    let r = rec("/home/u/Archive.TAR.GZ", 1, 1);
    assert_eq!(r.name(), "Archive.TAR.GZ");
    assert_eq!(r.extension(), "gz");
    assert_eq!(rec("/home/u/Makefile", 1, 1).extension(), "");
}

#[test]
fn non_ascii_terms_are_matched_without_case() {
    let q = Query::parse("ÜBUNG");
    assert!(q.score(&rec("/schule/übung.txt", 1, 0)).is_some());
    assert!(q.score(&rec("/schule/ubung.txt", 1, 0)).is_none());
}

#[test]
fn parses_mixed_mountinfo() {
    let raw = "\
22 1 8:2 / / rw,relatime - ext4 /dev/sda2 rw
30 22 0:25 / /proc rw - proc proc rw
31 22 259:3 / /home rw,relatime - btrfs /dev/nvme0n1p3 rw,space_cache=v2
40 31 0:40 / /mnt/win rw - cifs //192.168.1.50/share rw
41 31 0:41 / /mnt/data rw - nfs4 nas:/export/data rw
42 22 0:42 / /mnt/ntfs rw - ntfs3 /dev/sdb1 rw
43 22 0:43 / /tank rw - zfs tank/data rw
";
    let mounts = parse_mountinfo(raw);
    assert_eq!(mounts.len(), 6);
    let kinds: Vec<&FsKind> = mounts.iter().map(|m| &m.fs).collect();
    assert!(kinds.contains(&&FsKind::Ext4));
    assert!(kinds.contains(&&FsKind::Btrfs));
    assert!(kinds.contains(&&FsKind::Ntfs));
    assert!(kinds.contains(&&FsKind::Zfs));
    assert!(kinds.contains(&&FsKind::Network("cifs".into())));
    assert!(kinds.contains(&&FsKind::Network("nfs4".into())));
    let cifs = mounts
        .iter()
        .find(|m| m.fs == FsKind::Network("cifs".into()))
        .unwrap();
    assert_eq!(cifs.network_host().as_deref(), Some("192.168.1.50"));
    let nfs = mounts
        .iter()
        .find(|m| m.fs == FsKind::Network("nfs4".into()))
        .unwrap();
    assert_eq!(nfs.network_host().as_deref(), Some("nas"));
}

#[test]
fn inner_mounts_are_listed_first() {
    let raw = "\
22 1 8:2 / / rw - ext4 /dev/sda2 rw
31 22 259:3 / /home rw - btrfs /dev/sdb1 rw
32 31 259:4 / /home/a\\040b rw - ext4 /dev/sdc1 rw
";
    let mounts = parse_mountinfo(raw);
    let points: Vec<&str> = mounts.iter().map(|m| m.mountpoint.as_str()).collect();
    assert_eq!(points, vec!["/home/a b", "/home", "/"]);
}

#[test]
fn hosts_stand_in_front_of_the_export() {
    for (device, host) in [
        ("server:/export", "server"),
        ("//win/share", "win"),
        ("user@host:/path", "host"),
        ("nas:/export/a@b", "nas"),
        ("//user:word@server/share", "server"),
        ("//win/share@2:x", "win"),
        ("a:b@c@host:/path", "host"),
    ] {
        let mount = MountInfo {
            mountpoint: "/mnt".to_owned(),
            device: device.to_owned(),
            fs: FsKind::Network("nfs4".to_owned()),
            source: MountSource::Local,
        };
        assert_eq!(mount.network_host().as_deref(), Some(host));
    }
}

#[test]
fn every_mutation_bumps_the_generation() {
    let mut idx = Index::new();
    let first = idx.generation();
    idx.push(rec("/a", 1, 0));
    assert_eq!(idx.generation(), first + 1);
    idx.extend(vec![rec("/b", 1, 0)]);
    assert_eq!(idx.generation(), first + 2);
    assert_eq!(idx.len(), 2);
}
