//! The folders that a user searches, the mounts that they lie on, and the servers behind
//! network mounts.

use crate::host::Host;
use crate::mounts::{FsKind, FsView, MountInfo, MountSource, MountView};
use crate::text::Separator;
use vstd::prelude::*;

verus! {

/// A folder as it is kept: on Windows without the prefix of extended paths.
pub open spec fn kept_root(host: Host, root: Seq<char>) -> Seq<char> {
    if host == Host::Windows && "\\\\?\\UNC\\"@.is_prefix_of(root) {
        "\\\\"@ + root.skip("\\\\?\\UNC\\"@.len() as int)
    } else if host == Host::Windows && "\\\\?\\"@.is_prefix_of(root) {
        root.skip("\\\\?\\"@.len() as int)
    } else {
        root
    }
}

/// A folder as it is kept.
pub fn normalize_selected_root(host: Host, root: &str) -> (r: String)
    ensures
        r@ == kept_root(host, root@),
{
    match host {
        Host::Windows => {
            proof {
                reveal_strlit("\\\\?\\UNC\\");
                reveal_strlit("\\\\?\\");
            }
            let chars = crate::text::chars_of(root);
            let n: usize = chars.len();
            if crate::text::begins(chars.as_slice(), "\\\\?\\UNC\\") {
                let tail = crate::text::part(chars.as_slice(), 8, n);
                assert(tail@ =~= root@.skip(8));
                let text = crate::text::string_of(tail.as_slice());
                return crate::text::joined("\\\\", text.as_str());
            }
            if crate::text::begins(chars.as_slice(), "\\\\?\\") {
                let tail = crate::text::part(chars.as_slice(), 4, n);
                assert(tail@ =~= root@.skip(4));
                return crate::text::string_of(tail.as_slice());
            }
            root.to_owned()
        },
        _ => root.to_owned(),
    }
}

/// Two names of one folder.
pub open spec fn one_root(host: Host, a: Seq<char>, b: Seq<char>) -> bool {
    if host.cased() {
        crate::host::same_path(host, a, b)
    } else {
        crate::text::ascii_lower_all(crate::text::trim_end(a, Separator::Slash))
            == crate::text::ascii_lower_all(crate::text::trim_end(b, Separator::Slash))
    }
}

fn bare_lower(s: &str) -> (r: Vec<char>)
    ensures
        r@ == crate::text::ascii_lower_all(crate::text::trim_end(s@, Separator::Slash)),
{
    let chars = crate::text::chars_of(s);
    let n: usize = crate::text::end_run(chars.as_slice(), Separator::Slash);
    let cut = crate::text::part(chars.as_slice(), 0, n);
    assert(cut@ =~= chars@.take(n as int));
    crate::text::lowered(cut.as_slice())
}

/// Whether two names are of one folder.
pub fn same_root(host: Host, a: &str, b: &str) -> (r: bool)
    ensures
        r == one_root(host, a@, b@),
{
    if host.case_sensitive() {
        crate::host::same(host, a, b)
    } else {
        let x = bare_lower(a);
        let y = bare_lower(b);
        crate::text::same_chars(x.as_slice(), y.as_slice())
    }
}

/// A path lies in one of the folders.
pub open spec fn in_some_root(host: Host, path: Seq<char>, roots: Seq<Seq<char>>) -> bool {
    exists|i: int| 0 <= i < roots.len() && crate::host::in_root(host, path, #[trigger] roots[i])
}

/// Whether a path lies in one of the folders.
pub fn record_in_roots(host: Host, path: &str, roots: &Vec<String>) -> (r: bool)
    ensures
        r == in_some_root(host, path@, crate::text::strings(roots@)),
{
    let ghost views = crate::text::strings(roots@);
    let mut i: usize = 0;
    while i < roots.len()
        invariant
            i <= roots@.len(),
            views == crate::text::strings(roots@),
            forall|k: int|
                0 <= k < i ==> !crate::host::in_root(host, path@, #[trigger] views[k]),
        decreases roots@.len() - i,
    {
        assert(views[i as int] == roots@[i as int]@);
        if crate::host::portable_path_in_root(host, path, roots[i].as_str()) {
            return true;
        }
        i += 1;
    }
    false
}

/// One of the folders has this name.
pub open spec fn has_root(host: Host, roots: Seq<Seq<char>>, root: Seq<char>) -> bool {
    exists|i: int| 0 <= i < roots.len() && one_root(host, #[trigger] roots[i], root)
}

/// Whether one of the folders has this name.
pub fn root_listed(host: Host, roots: &Vec<String>, root: &str) -> (r: bool)
    ensures
        r == has_root(host, crate::text::strings(roots@), root@),
{
    let ghost views = crate::text::strings(roots@);
    let mut i: usize = 0;
    while i < roots.len()
        invariant
            i <= roots@.len(),
            views == crate::text::strings(roots@),
            forall|k: int| 0 <= k < i ==> !one_root(host, #[trigger] views[k], root@),
        decreases roots@.len() - i,
    {
        assert(views[i as int] == roots@[i as int]@);
        if same_root(host, roots[i].as_str(), root) {
            return true;
        }
        i += 1;
    }
    false
}

/// What folders are ordered by: their components.
pub open spec fn root_keys(host: Host, roots: Seq<Seq<char>>) -> Seq<Seq<u8>> {
    Seq::new(roots.len(), |i: int| crate::mounts::mount_key(host, roots[i]))
}

/// The folders in the order of their components.
pub open spec fn in_root_order(host: Host, roots: Seq<Seq<char>>, r: Seq<Seq<char>>) -> bool {
    exists|order: Seq<usize>|
        #[trigger] crate::order::is_key_order(root_keys(host, roots), false, order) && r
            == crate::rank::picked(roots, order)
}

/// Puts folders in the order of their components.
pub fn sort_roots(host: Host, roots: Vec<String>) -> (r: Vec<String>)
    ensures
        in_root_order(host, crate::text::strings(roots@), crate::text::strings(r@)),
{
    let ghost views = crate::text::strings(roots@);
    let mut keys: Vec<Vec<u8>> = Vec::new();
    let mut i: usize = 0;
    while i < roots.len()
        invariant
            i <= roots@.len(),
            keys@.len() == i,
            views == crate::text::strings(roots@),
            forall|k: int| 0 <= k < i ==> (#[trigger] keys@[k])@ == root_keys(host, views)[k],
        decreases roots@.len() - i,
    {
        keys.push(crate::mounts::key_of(host, roots[i].as_str()));
        i += 1;
    }
    assert(crate::order::key_views(keys@) =~= root_keys(host, views));
    let order = crate::order::key_order(&keys, false);
    let ghost given = roots@;
    let r = crate::order::arranged(roots, &order);
    proof {
        assert forall|k: int| 0 <= k < order@.len() implies (#[trigger] order@[k])
            < given.len() by {}
        assert(crate::text::strings(r@) =~= crate::rank::picked(views, order@));
    }
    r
}

/// The folders that are absolute on the host, as they are kept.
pub open spec fn usable_roots(host: Host, roots: Seq<Seq<char>>) -> Seq<Seq<char>>
    decreases roots.len(),
{
    if roots.len() == 0 {
        Seq::empty()
    } else {
        let k = kept_root(host, roots.last());
        if crate::host::host_absolute(host, k) {
            usable_roots(host, roots.drop_last()).push(k)
        } else {
            usable_roots(host, roots.drop_last())
        }
    }
}

/// The folders without those that have the same name as the kept one right in front.
pub open spec fn without_repeats(host: Host, roots: Seq<Seq<char>>) -> Seq<Seq<char>>
    decreases roots.len(),
{
    if roots.len() == 0 {
        Seq::empty()
    } else {
        let front = without_repeats(host, roots.drop_last());
        if front.len() > 0 && one_root(host, roots.last(), front.last()) {
            front
        } else {
            front.push(roots.last())
        }
    }
}

/// What is made of the folders of saved settings: usable ones, in order, without repeats.
pub open spec fn settles(host: Host, roots: Seq<Seq<char>>, r: Seq<Seq<char>>) -> bool {
    exists|sorted: Seq<Seq<char>>| #[trigger]
        in_root_order(host, usable_roots(host, roots), sorted) && r == without_repeats(host, sorted)
}

/// Makes the folders of saved settings usable.
pub fn settle_roots(host: Host, roots: &Vec<String>) -> (r: Vec<String>)
    ensures
        settles(host, crate::text::strings(roots@), crate::text::strings(r@)),
{
    let ghost all = crate::text::strings(roots@);
    let mut usable: Vec<String> = Vec::new();
    let mut i: usize = 0;
    proof {
        assert(all.take(0) =~= Seq::empty());
        assert(crate::text::strings(usable@) =~= Seq::empty());
    }
    while i < roots.len()
        invariant
            i <= roots@.len(),
            all == crate::text::strings(roots@),
            crate::text::strings(usable@) == usable_roots(host, all.take(i as int)),
        decreases roots@.len() - i,
    {
        let ghost had = crate::text::strings(usable@);
        proof {
            assert(all.take(i + 1).drop_last() =~= all.take(i as int));
            assert(all[i as int] == roots@[i as int]@);
        }
        let k = normalize_selected_root(host, roots[i].as_str());
        let chars = crate::text::chars_of(k.as_str());
        if crate::host::is_absolute(host, chars.as_slice()) {
            let ghost v = k@;
            usable.push(k);
            assert(crate::text::strings(usable@) =~= had.push(v));
        }
        i += 1;
    }
    assert(all.take(i as int) =~= all);
    let sorted = sort_roots(host, usable);
    let ghost s = crate::text::strings(sorted@);
    let mut out: Vec<String> = Vec::new();
    let mut j: usize = 0;
    proof {
        assert(s.take(0) =~= Seq::empty());
        assert(crate::text::strings(out@) =~= Seq::empty());
    }
    while j < sorted.len()
        invariant
            j <= sorted@.len(),
            s == crate::text::strings(sorted@),
            crate::text::strings(out@) == without_repeats(host, s.take(j as int)),
        decreases sorted@.len() - j,
    {
        let ghost had = crate::text::strings(out@);
        proof {
            assert(s.take(j + 1).drop_last() =~= s.take(j as int));
            assert(s[j as int] == sorted@[j as int]@);
        }
        let n: usize = out.len();
        let repeat: bool = n > 0 && same_root(host, sorted[j].as_str(), out[n - 1].as_str());
        if !repeat {
            out.push(sorted[j].clone());
            assert(crate::text::strings(out@) =~= had.push(s[j as int]));
        }
        j += 1;
    }
    assert(s.take(j as int) =~= s);
    out
}

// ---------------------------------------------------------------------------
// Mounts of the folders

/// The innermost mount of a table around a folder; of equally long ones the last.
pub open spec fn mount_around(host: Host, table: Seq<MountView>, root: Seq<char>) -> Option<MountView>
    decreases table.len(),
{
    if table.len() == 0 {
        None
    } else {
        let best = mount_around(host, table.drop_last(), root);
        let m = table.last();
        if !crate::host::path_starts_with(host, root, m.mountpoint) {
            best
        } else {
            match best {
                None => Some(m),
                Some(b) => if vstd::utf8::encode_utf8(m.mountpoint).len()
                    >= vstd::utf8::encode_utf8(b.mountpoint).len() {
                    Some(m)
                } else {
                    Some(b)
                },
            }
        }
    }
}

/// One of the mounts is at this place.
pub open spec fn has_mount(host: Host, ms: Seq<MountView>, point: Seq<char>) -> bool {
    exists|i: int| 0 <= i < ms.len() && crate::host::same_path(host, (#[trigger] ms[i]).mountpoint, point)
}

/// The local mounts that some folders lie on, each once. A folder on a network mount lies
/// on no local one, whatever is around it.
pub open spec fn mounts_of(host: Host, roots: Seq<Seq<char>>, table: Seq<MountView>) -> Seq<MountView>
    decreases roots.len(),
{
    if roots.len() == 0 {
        Seq::empty()
    } else {
        let front = mounts_of(host, roots.drop_last(), table);
        match mount_around(host, table, roots.last()) {
            Some(m) => if crate::mounts::indexable(m.fs) && !has_mount(host, front, m.mountpoint) {
                front.push(m)
            } else {
                front
            },
            None => front,
        }
    }
}

fn find_around(host: Host, table: &Vec<MountInfo>, root: &str) -> (r: Option<usize>)
    ensures
        match r {
            Some(i) => i < table@.len() && mount_around(
                host,
                crate::mounts::mount_views(table@),
                root@,
            ) == Some(table@[i as int]@),
            None => mount_around(host, crate::mounts::mount_views(table@), root@) is None,
        },
{
    let ghost views = crate::mounts::mount_views(table@);
    let chars = crate::text::chars_of(root);
    let mut best: Option<usize> = None;
    let mut i: usize = 0;
    assert(views.take(0) =~= Seq::empty());
    while i < table.len()
        invariant
            i <= table@.len(),
            views == crate::mounts::mount_views(table@),
            chars@ == root@,
            match best {
                Some(k) => k < i && mount_around(host, views.take(i as int), root@) == Some(
                    table@[k as int]@,
                ),
                None => mount_around(host, views.take(i as int), root@) is None,
            },
        decreases table@.len() - i,
    {
        proof {
            assert(views.take(i + 1).drop_last() =~= views.take(i as int));
            assert(views[i as int] == table@[i as int]@);
        }
        let point = crate::text::chars_of(table[i].mountpoint.as_str());
        if crate::host::begins_with(host, chars.as_slice(), point.as_slice()) {
            match best {
                None => {
                    best = Some(i);
                },
                Some(k) => {
                    let a = table[i].mountpoint.as_str().as_bytes();
                    let b = table[k].mountpoint.as_str().as_bytes();
                    if a.len() >= b.len() {
                        best = Some(i);
                    }
                },
            }
        }
        i += 1;
    }
    assert(views.take(i as int) =~= views);
    best
}

fn mount_listed(host: Host, ms: &Vec<MountInfo>, point: &str) -> (r: bool)
    ensures
        r == has_mount(host, crate::mounts::mount_views(ms@), point@),
{
    let ghost views = crate::mounts::mount_views(ms@);
    let mut i: usize = 0;
    while i < ms.len()
        invariant
            i <= ms@.len(),
            views == crate::mounts::mount_views(ms@),
            forall|k: int|
                0 <= k < i ==> !crate::host::same_path(host, (#[trigger] views[k]).mountpoint, point@),
        decreases ms@.len() - i,
    {
        assert(views[i as int] == ms@[i as int]@);
        if crate::host::same(host, ms[i].mountpoint.as_str(), point) {
            return true;
        }
        i += 1;
    }
    false
}

/// The local mounts that some folders lie on.
pub fn select_mounts_for_roots(host: Host, roots: &Vec<String>, trusted: &Vec<MountInfo>) -> (r:
    Vec<MountInfo>)
    ensures
        crate::mounts::mount_views(r@) == mounts_of(
            host,
            crate::text::strings(roots@),
            crate::mounts::mount_views(trusted@),
        ),
{
    let ghost all = crate::text::strings(roots@);
    let ghost table = crate::mounts::mount_views(trusted@);
    let mut out: Vec<MountInfo> = Vec::new();
    let mut i: usize = 0;
    proof {
        assert(all.take(0) =~= Seq::empty());
        assert(crate::mounts::mount_views(out@) =~= Seq::empty());
    }
    while i < roots.len()
        invariant
            i <= roots@.len(),
            all == crate::text::strings(roots@),
            table == crate::mounts::mount_views(trusted@),
            crate::mounts::mount_views(out@) == mounts_of(host, all.take(i as int), table),
        decreases roots@.len() - i,
    {
        let ghost had = crate::mounts::mount_views(out@);
        proof {
            assert(all.take(i + 1).drop_last() =~= all.take(i as int));
            assert(all[i as int] == roots@[i as int]@);
        }
        if let Some(k) = find_around(host, trusted, roots[i].as_str()) {
            if trusted[k].fs.is_indexable_local() && !mount_listed(
                host,
                &out,
                trusted[k].mountpoint.as_str(),
            ) {
                out.push(trusted[k].clone());
                assert(crate::mounts::mount_views(out@) =~= had.push(trusted@[k as int]@));
            }
        }
        i += 1;
    }
    assert(all.take(i as int) =~= all);
    out
}

/// Only mounts of the table are scanned, and none of a network filesystem.
pub proof fn law_only_local_mounts_are_selected(
    host: Host,
    roots: Seq<Seq<char>>,
    table: Seq<MountView>,
)
    ensures
        forall|i: int|
            0 <= i < mounts_of(host, roots, table).len() ==> table.contains(
                #[trigger] mounts_of(host, roots, table)[i],
            ) && crate::mounts::indexable(mounts_of(host, roots, table)[i].fs),
    decreases roots.len(),
{
    if roots.len() > 0 {
        law_only_local_mounts_are_selected(host, roots.drop_last(), table);
        lemma_around_is_listed(host, table, roots.last());
    }
}

proof fn lemma_around_is_listed(host: Host, table: Seq<MountView>, root: Seq<char>)
    ensures
        mount_around(host, table, root) matches Some(m) ==> table.contains(m),
    decreases table.len(),
{
    if table.len() > 0 {
        lemma_around_is_listed(host, table.drop_last(), root);
        if mount_around(host, table, root) is Some {
            let m = mount_around(host, table, root)->0;
            if m == table.last() {
                assert(table[table.len() - 1] == m);
            } else {
                let k = table.drop_last().index_of(m);
                assert(table[k] == m);
            }
        }
    }
}

/// The drive of a Windows folder, with a backslash.
pub open spec fn drive_of(root: Seq<char>) -> Option<Seq<char>> {
    let v = crate::text::replace_char(root, '/', '\\');
    if v.len() >= 3 && crate::text::is_letter(v[0]) && v[1] == ':' && v[2] == '\\' {
        Some(v.take(3))
    } else {
        None
    }
}

/// A mount that only its place is known of.
pub open spec fn bare_mount(point: Seq<char>, fs: FsView) -> MountView {
    MountView { device: Seq::empty(), mountpoint: point, fs, host: None }
}

/// One of the mounts has this very mount point.
pub open spec fn has_point(ms: Seq<MountView>, point: Seq<char>) -> bool {
    exists|i: int| 0 <= i < ms.len() && (#[trigger] ms[i]).mountpoint == point
}

/// The drives that some Windows folders lie on, each once.
pub open spec fn drives_of(roots: Seq<Seq<char>>) -> Seq<MountView>
    decreases roots.len(),
{
    if roots.len() == 0 {
        Seq::empty()
    } else {
        let front = drives_of(roots.drop_last());
        match drive_of(roots.last()) {
            Some(d) => if has_point(front, d) {
                front
            } else {
                front.push(bare_mount(d, FsView::Ext4))
            },
            None => front,
        }
    }
}

fn make_bare(point: &[char], fs: FsKind) -> (r: MountInfo)
    ensures
        r@ == bare_mount(point@, fs@),
{
    let device = String::new();
    assert(device@ =~= Seq::empty());
    MountInfo {
        device,
        mountpoint: crate::text::string_of(point),
        fs,
        source: MountSource::Local,
    }
}

fn point_listed(ms: &Vec<MountInfo>, point: &[char]) -> (r: bool)
    ensures
        r == has_point(crate::mounts::mount_views(ms@), point@),
{
    let ghost views = crate::mounts::mount_views(ms@);
    let mut i: usize = 0;
    while i < ms.len()
        invariant
            i <= ms@.len(),
            views == crate::mounts::mount_views(ms@),
            forall|k: int| 0 <= k < i ==> (#[trigger] views[k]).mountpoint != point@,
        decreases ms@.len() - i,
    {
        assert(views[i as int] == ms@[i as int]@);
        let p = crate::text::chars_of(ms[i].mountpoint.as_str());
        if crate::text::same_chars(p.as_slice(), point) {
            return true;
        }
        i += 1;
    }
    false
}

/// The drives that some Windows folders lie on.
pub fn select_drives(roots: &Vec<String>) -> (r: Vec<MountInfo>)
    ensures
        crate::mounts::mount_views(r@) == drives_of(crate::text::strings(roots@)),
{
    let ghost all = crate::text::strings(roots@);
    let mut out: Vec<MountInfo> = Vec::new();
    let mut i: usize = 0;
    proof {
        assert(all.take(0) =~= Seq::empty());
        assert(crate::mounts::mount_views(out@) =~= Seq::empty());
    }
    while i < roots.len()
        invariant
            i <= roots@.len(),
            all == crate::text::strings(roots@),
            crate::mounts::mount_views(out@) == drives_of(all.take(i as int)),
        decreases roots@.len() - i,
    {
        let ghost had = crate::mounts::mount_views(out@);
        proof {
            assert(all.take(i + 1).drop_last() =~= all.take(i as int));
            assert(all[i as int] == roots@[i as int]@);
        }
        let chars = crate::text::chars_of(roots[i].as_str());
        let v = crate::text::replaced(chars.as_slice(), '/', '\\');
        if v.len() >= 3 && crate::text::letter(v[0]) && v[1] == ':' && v[2] == '\\' {
            let drive = crate::text::part(v.as_slice(), 0, 3);
            assert(drive@ =~= v@.take(3));
            if !point_listed(&out, drive.as_slice()) {
                let m = make_bare(drive.as_slice(), FsKind::Ext4);
                let ghost mv = m@;
                out.push(m);
                assert(crate::mounts::mount_views(out@) =~= had.push(mv));
            }
        }
        i += 1;
    }
    assert(all.take(i as int) =~= all);
    out
}

/// The family that a macOS filesystem counts as in the window: native ones as local, those
/// of servers as network.
pub open spec fn macos_family(fs: Seq<char>) -> Option<FsView> {
    if fs == "apfs"@ || fs == "hfs"@ {
        Some(FsView::Ext4)
    } else if fs == "nfs"@ || fs == "smbfs"@ || fs == "webdav"@ {
        Some(FsView::Network(fs))
    } else {
        None
    }
}

/// The mount that a line of the macOS mount table names.
pub open spec fn macos_named(line: Seq<char>) -> Option<MountView> {
    match crate::text::first_occurrence(line, " on "@) {
        None => None,
        Some(at) => {
            let mounted = line.skip(at + 4);
            match crate::text::last_occurrence(mounted, " ("@) {
                None => None,
                Some(k) => {
                    let options = crate::text::trim_end(mounted.skip(k + 2), Separator::Char(')'));
                    let fs = crate::text::trim(
                        options.take(crate::text::first_index(options, Separator::Char(','))),
                    );
                    match macos_family(fs) {
                        Some(f) => Some(bare_mount(mounted.take(k), f)),
                        None => None,
                    }
                },
            }
        },
    }
}

/// The mounts that some lines name.
pub open spec fn macos_named_in(lines: Seq<Seq<char>>) -> Seq<MountView>
    decreases lines.len(),
{
    if lines.len() == 0 {
        Seq::empty()
    } else {
        match macos_named(lines.last()) {
            Some(m) => macos_named_in(lines.drop_last()).push(m),
            None => macos_named_in(lines.drop_last()),
        }
    }
}

fn macos_line(line: &[char]) -> (r: Option<MountInfo>)
    ensures
        match r {
            Some(m) => macos_named(line@) == Some(m@),
            None => macos_named(line@) is None,
        },
{
    proof {
        reveal_strlit(" on ");
        reveal_strlit(" (");
    }
    let on = crate::text::chars_of(" on ");
    let at: usize = match crate::text::find_chars(line, on.as_slice()) {
        None => {
            return None;
        },
        Some(i) => i,
    };
    let whole: usize = line.len();
    assert(at + 4 <= whole);
    let mounted = crate::text::part(line, at + 4, whole);
    assert(mounted@ =~= line@.skip(at + 4));
    let k: usize = match crate::text::find_last(mounted.as_slice(), " (") {
        None => {
            return None;
        },
        Some(i) => i,
    };
    let tail = crate::text::part(mounted.as_slice(), k + 2, mounted.len());
    assert(tail@ =~= mounted@.skip(k + 2));
    let n: usize = crate::text::end_run(tail.as_slice(), Separator::Char(')'));
    let options = crate::text::part(tail.as_slice(), 0, n);
    assert(options@ =~= tail@.take(n as int));
    let c: usize = crate::text::find_first(options.as_slice(), Separator::Char(','));
    let first = crate::text::part(options.as_slice(), 0, c);
    assert(first@ =~= options@.take(c as int));
    let fs = crate::text::trimmed(first.as_slice());
    let text = crate::text::string_of(fs.as_slice());
    let point = crate::text::part(mounted.as_slice(), 0, k);
    assert(point@ =~= mounted@.take(k as int));
    let name = text.as_str();
    if crate::text::same_text(name, "apfs") || crate::text::same_text(name, "hfs") {
        return Some(make_bare(point.as_slice(), FsKind::Ext4));
    }
    if crate::text::same_text(name, "nfs") || crate::text::same_text(name, "smbfs")
        || crate::text::same_text(name, "webdav") {
        return Some(make_bare(point.as_slice(), FsKind::Network(text)));
    }
    None
}

/// The mounts that the output of the macOS mount command names.
pub fn macos_table(output: &str) -> (r: Vec<MountInfo>)
    ensures
        crate::mounts::mount_views(r@) == macos_named_in(crate::text::lines(output@)),
{
    let chars = crate::text::chars_of(output);
    let lines = crate::text::split_lines(chars.as_slice());
    let ghost texts = crate::text::texts(lines@);
    let mut out: Vec<MountInfo> = Vec::new();
    let mut i: usize = 0;
    assert(crate::mounts::mount_views(out@) =~= macos_named_in(texts.take(0)));
    while i < lines.len()
        invariant
            i <= lines@.len(),
            texts == crate::text::texts(lines@),
            crate::mounts::mount_views(out@) == macos_named_in(texts.take(i as int)),
        decreases lines@.len() - i,
    {
        proof {
            assert(texts.take(i + 1).drop_last() =~= texts.take(i as int));
            assert(texts.take(i + 1).last() == lines@[i as int]@);
        }
        let ghost before = out@;
        if let Some(m) = macos_line(lines[i].as_slice()) {
            out.push(m);
            assert(crate::mounts::mount_views(out@) =~= crate::mounts::mount_views(before).push(m@));
        }
        i += 1;
    }
    assert(texts.take(i as int) =~= texts);
    out
}

/// The mounts to scan for some folders: on Windows their drives, elsewhere the mounts of
/// the host's table.
pub fn selected_scan_mounts(host: Host, roots: &Vec<String>, table: &Vec<MountInfo>) -> (r: Vec<
    MountInfo,
>)
    ensures
        crate::mounts::mount_views(r@) == (if host == Host::Windows {
            drives_of(crate::text::strings(roots@))
        } else {
            mounts_of(host, crate::text::strings(roots@), crate::mounts::mount_views(table@))
        }),
{
    match host {
        Host::Windows => select_drives(roots),
        _ => select_mounts_for_roots(host, roots, table),
    }
}

// ---------------------------------------------------------------------------
// Servers behind network mounts

/// A server, and the mount that it was found by.
#[verifier::ext_equal]
pub struct ServerView {
    pub host: Seq<char>,
    pub key: Seq<char>,
}

/// A server, and the mount that it was found by.
#[derive(Debug)]
pub struct Server {
    pub host: String,
    pub key: String,
}

impl View for Server {
    type V = ServerView;

    open spec fn view(&self) -> ServerView {
        ServerView { host: self.host@, key: self.key@ }
    }
}

/// The views of servers.
pub open spec fn server_views(s: Seq<Server>) -> Seq<ServerView> {
    Seq::new(s.len(), |i: int| s[i]@)
}

/// The servers of some mounts.
pub open spec fn servers_of(ms: Seq<MountView>) -> Seq<ServerView>
    decreases ms.len(),
{
    if ms.len() == 0 {
        Seq::empty()
    } else {
        let m = ms.last();
        match m.host {
            Some(h) => servers_of(ms.drop_last()).push(
                ServerView { host: h, key: m.device + ":"@ + m.mountpoint },
            ),
            None => servers_of(ms.drop_last()),
        }
    }
}

/// The servers of the mounts of Linux.
pub fn linux_servers(mounts: &Vec<MountInfo>) -> (r: Vec<Server>)
    ensures
        server_views(r@) == servers_of(crate::mounts::mount_views(mounts@)),
{
    let ghost ms = crate::mounts::mount_views(mounts@);
    let mut out: Vec<Server> = Vec::new();
    let mut i: usize = 0;
    proof {
        assert(ms.take(0) =~= Seq::empty());
        assert(server_views(out@) =~= Seq::empty());
    }
    while i < mounts.len()
        invariant
            i <= mounts@.len(),
            ms == crate::mounts::mount_views(mounts@),
            server_views(out@) == servers_of(ms.take(i as int)),
        decreases mounts@.len() - i,
    {
        let ghost had = server_views(out@);
        proof {
            assert(ms.take(i + 1).drop_last() =~= ms.take(i as int));
            assert(ms[i as int] == mounts@[i as int]@);
        }
        let m = &mounts[i];
        match &m.source {
            MountSource::Remote { host } => {
                let key = crate::text::joined3(m.device.as_str(), ":", m.mountpoint.as_str());
                let s = Server { host: host.clone(), key };
                let ghost v = s@;
                out.push(s);
                assert(server_views(out@) =~= had.push(v));
            },
            MountSource::Local => {},
        }
        i += 1;
    }
    assert(ms.take(i as int) =~= ms);
    out
}

/// The server in a line of the macOS mount table.
pub open spec fn macos_server(line: Seq<char>) -> Option<ServerView> {
    match crate::text::first_occurrence(line, " on "@) {
        None => None,
        Some(at) => {
            let rest = line.skip(at + 4);
            if crate::text::first_occurrence(rest, "nfs"@) is None && crate::text::first_occurrence(
                rest,
                "smbfs"@,
            ) is None && crate::text::first_occurrence(rest, "webdav"@) is None {
                None
            } else {
                let d = crate::mounts::without_slashes(line.take(at));
                let e = d.skip(crate::text::last_index(d, '@') + 1);
                Some(
                    ServerView {
                        host: e.take(crate::text::first_index(e, Separator::HostEnd)),
                        key: line,
                    },
                )
            }
        },
    }
}

/// The server in a line of the Windows list of connections: the first word that begins
/// with two backslashes, up to the next one.
pub open spec fn windows_server(line: Seq<char>) -> Option<ServerView> {
    match first_share(crate::text::words(line, Separator::Space)) {
        None => None,
        Some(w) => {
            let t = crate::text::trim_front(w, Separator::Char('\\'));
            Some(
                ServerView {
                    host: t.take(crate::text::first_index(t, Separator::Char('\\'))),
                    key: line,
                },
            )
        },
    }
}

/// The first word that begins with two backslashes.
pub open spec fn first_share(words: Seq<Seq<char>>) -> Option<Seq<char>>
    decreases words.len(),
{
    if words.len() == 0 {
        None
    } else if "\\\\"@.is_prefix_of(words[0]) {
        Some(words[0])
    } else {
        first_share(words.skip(1))
    }
}

/// The servers in some lines.
pub open spec fn servers_in(host: Host, lines: Seq<Seq<char>>) -> Seq<ServerView>
    decreases lines.len(),
{
    if lines.len() == 0 {
        Seq::empty()
    } else {
        let s = if host == Host::Windows {
            windows_server(lines.last())
        } else {
            macos_server(lines.last())
        };
        match s {
            Some(x) => servers_in(host, lines.drop_last()).push(x),
            None => servers_in(host, lines.drop_last()),
        }
    }
}

fn macos_server_line(line: &[char]) -> (r: Option<Server>)
    ensures
        match r {
            Some(s) => macos_server(line@) == Some(s@),
            None => macos_server(line@) is None,
        },
{
    proof {
        reveal_strlit(" on ");
    }
    let on = crate::text::chars_of(" on ");
    let at: usize = match crate::text::find_chars(line, on.as_slice()) {
        None => {
            return None;
        },
        Some(i) => i,
    };
    let whole: usize = line.len();
    assert(at + 4 <= whole);
    let rest = crate::text::part(line, at + 4, whole);
    assert(rest@ =~= line@.skip(at + 4));
    if !crate::text::contains_text(rest.as_slice(), "nfs") && !crate::text::contains_text(
        rest.as_slice(),
        "smbfs",
    ) && !crate::text::contains_text(rest.as_slice(), "webdav") {
        return None;
    }
    let spec_part = crate::text::part(line, 0, at);
    assert(spec_part@ =~= line@.take(at as int));
    let mut from: usize = 0;
    assert(spec_part@.skip(0) =~= spec_part@);
    while spec_part.len() - from >= 2 && spec_part[from] == '/' && spec_part[from + 1] == '/'
        invariant
            from <= spec_part@.len(),
            crate::mounts::without_slashes(spec_part@.skip(from as int))
                == crate::mounts::without_slashes(spec_part@),
        decreases spec_part@.len() - from,
    {
        proof {
            let t = spec_part@.skip(from as int);
            assert(t[0] == spec_part@[from as int] && t[1] == spec_part@[from + 1]);
            assert(t.skip(2) =~= spec_part@.skip(from + 2));
        }
        from += 2;
    }
    let d = crate::text::part(spec_part.as_slice(), from, spec_part.len());
    proof {
        let t = spec_part@.skip(from as int);
        assert(d@ =~= t);
        if t.len() >= 2 {
            assert(t[0] == spec_part@[from as int] && t[1] == spec_part@[from + 1]);
        }
        assert(crate::mounts::without_slashes(t) == t);
    }
    let start: usize = match crate::text::rfind(d.as_slice(), '@') {
        Some(i) => i + 1,
        None => 0,
    };
    let e = crate::text::part(d.as_slice(), start, d.len());
    assert(e@ =~= d@.skip(crate::text::last_index(d@, '@') + 1));
    let n: usize = crate::text::find_first(e.as_slice(), Separator::HostEnd);
    let h = crate::text::part(e.as_slice(), 0, n);
    assert(h@ =~= e@.take(n as int));
    Some(Server { host: crate::text::string_of(h.as_slice()), key: crate::text::string_of(line) })
}

fn windows_server_line(line: &[char]) -> (r: Option<Server>)
    ensures
        match r {
            Some(s) => windows_server(line@) == Some(s@),
            None => windows_server(line@) is None,
        },
{
    let words = crate::text::split_words(line, Separator::Space);
    let ghost ws = crate::text::texts(words@);
    let mut i: usize = 0;
    assert(ws.skip(0) =~= ws);
    while i < words.len()
        invariant
            i <= words@.len(),
            ws == crate::text::texts(words@),
            ws == crate::text::words(line@, Separator::Space),
            first_share(ws.skip(i as int)) == first_share(ws),
        decreases words@.len() - i,
    {
        proof {
            assert(ws.skip(i as int)[0] == words@[i as int]@);
            assert(ws.skip(i as int).skip(1) =~= ws.skip(i + 1));
        }
        let w = &words[i];
        if crate::text::begins(w.as_slice(), "\\\\") {
            let n: usize = crate::text::front_run(w.as_slice(), Separator::Char('\\'));
            let t = crate::text::part(w.as_slice(), n, w.len());
            assert(t@ =~= w@.skip(n as int));
            let e: usize = crate::text::find_first(t.as_slice(), Separator::Char('\\'));
            let h = crate::text::part(t.as_slice(), 0, e);
            assert(h@ =~= t@.take(e as int));
            return Some(
                Server {
                    host: crate::text::string_of(h.as_slice()),
                    key: crate::text::string_of(line),
                },
            );
        }
        i += 1;
    }
    None
}

/// The servers in the mount table of macOS or the list of connections of Windows.
pub fn listed_servers(host: Host, output: &str) -> (r: Vec<Server>)
    ensures
        server_views(r@) == servers_in(host, crate::text::lines(output@)),
{
    let chars = crate::text::chars_of(output);
    let lines = crate::text::split_lines(chars.as_slice());
    let ghost texts = crate::text::texts(lines@);
    let mut out: Vec<Server> = Vec::new();
    let mut i: usize = 0;
    assert(server_views(out@) =~= servers_in(host, texts.take(0)));
    while i < lines.len()
        invariant
            i <= lines@.len(),
            texts == crate::text::texts(lines@),
            server_views(out@) == servers_in(host, texts.take(i as int)),
        decreases lines@.len() - i,
    {
        proof {
            assert(texts.take(i + 1).drop_last() =~= texts.take(i as int));
            assert(texts.take(i + 1).last() == lines@[i as int]@);
        }
        let ghost had = server_views(out@);
        let found = match host {
            Host::Windows => windows_server_line(lines[i].as_slice()),
            _ => macos_server_line(lines[i].as_slice()),
        };
        if let Some(s) = found {
            let ghost v = s@;
            out.push(s);
            assert(server_views(out@) =~= had.push(v));
        }
        i += 1;
    }
    assert(texts.take(i as int) =~= texts);
    out
}

} // verus!
