//! What the helper accepts: requests are bounded and checked before any work is done.

use crate::delta::{ChangeView, DeltaChange};
use crate::host::Host;
use crate::mounts::{FsKind, FsView, MountInfo, MountSource, MountView};
use crate::proto::StatsView;
use crate::query::{Query, QueryView};
use crate::text::Separator;
use crate::types::{FileKind, FileRecord, RecordView, ScanStats};
use vstd::prelude::*;

verus! {

/// How many records travel in one message.
pub const RECORD_BATCH: usize = 1024;

/// How many mounts, roots or scopes one request may name.
pub const MAX_SCAN_MOUNTS: usize = 32;

/// How many results a query may ask for.
pub const MAX_QUERY_RESULTS: usize = 10_000;

/// How many terms a query may hold.
pub const MAX_QUERY_TERMS: usize = 32;

/// How many bytes of text a query may hold.
pub const MAX_QUERY_TEXT_BYTES: usize = 32_768;

/// How many changes one batch may hold.
pub const MAX_DELTA_CHANGES: usize = 65_536;

/// How long the path of a change may be.
pub const MAX_INDEX_PATH_BYTES: usize = 32_768;

/// Why a request is refused.
#[derive(Debug)]
pub enum RequestError {
    ScanRunning,
    TooManyMounts,
    UnknownMount(String),
    TooManyRoots,
    NoRoots,
    UnsafeRoot,
    RootOutsideMounts(String),
    QueryLimit,
    TooManyTerms,
    BadScopes,
    QueryTooLong,
    TooManyChanges,
    ChangePathLength,
    UnsafeChangePath,
}

/// Why a request is refused, as a mathematical value.
#[verifier::ext_equal]
pub enum Refusal {
    ScanRunning,
    TooManyMounts,
    UnknownMount(Seq<char>),
    TooManyRoots,
    NoRoots,
    UnsafeRoot,
    RootOutsideMounts(Seq<char>),
    QueryLimit,
    TooManyTerms,
    BadScopes,
    QueryTooLong,
    TooManyChanges,
    ChangePathLength,
    UnsafeChangePath,
}

impl View for RequestError {
    type V = Refusal;

    open spec fn view(&self) -> Refusal {
        match self {
            RequestError::ScanRunning => Refusal::ScanRunning,
            RequestError::TooManyMounts => Refusal::TooManyMounts,
            RequestError::UnknownMount(p) => Refusal::UnknownMount(p@),
            RequestError::TooManyRoots => Refusal::TooManyRoots,
            RequestError::NoRoots => Refusal::NoRoots,
            RequestError::UnsafeRoot => Refusal::UnsafeRoot,
            RequestError::RootOutsideMounts(p) => Refusal::RootOutsideMounts(p@),
            RequestError::QueryLimit => Refusal::QueryLimit,
            RequestError::TooManyTerms => Refusal::TooManyTerms,
            RequestError::BadScopes => Refusal::BadScopes,
            RequestError::QueryTooLong => Refusal::QueryTooLong,
            RequestError::TooManyChanges => Refusal::TooManyChanges,
            RequestError::ChangePathLength => Refusal::ChangePathLength,
            RequestError::UnsafeChangePath => Refusal::UnsafeChangePath,
        }
    }
}

/// How a refusal is reported.
pub open spec fn refusal_text(e: Refusal) -> Seq<char> {
    match e {
        Refusal::ScanRunning => "a native scan is already running"@,
        Refusal::TooManyMounts => "scan request exceeds the 32-mount limit"@,
        Refusal::UnknownMount(p) => "requested mount "@ + p
            + " is not present in the trusted OS mount table"@,
        Refusal::TooManyRoots => "scan roots exceed the 32-root limit"@,
        Refusal::NoRoots => "scan requests must include at least one approved root"@,
        Refusal::UnsafeRoot => "scan roots must be absolute and normalized"@,
        Refusal::RootOutsideMounts(p) => "approved root "@ + p
            + " is outside the requested native mounts"@,
        Refusal::QueryLimit => "query limit must be between 1 and 10000"@,
        Refusal::TooManyTerms => "query exceeds the 32-term limit"@,
        Refusal::BadScopes => "query scopes must be absolute and limited to 32 roots"@,
        Refusal::QueryTooLong => "query text exceeds the 32768-byte limit"@,
        Refusal::TooManyChanges => "delta batch exceeds the 65536-change limit"@,
        Refusal::ChangePathLength => "delta path length is outside the supported range"@,
        Refusal::UnsafeChangePath => "delta paths must be absolute and normalized"@,
    }
}

impl RequestError {
    /// How the refusal is reported.
    pub fn message(&self) -> (r: String)
        ensures
            r@ == refusal_text(self@),
    {
        match self {
            RequestError::ScanRunning => "a native scan is already running".to_owned(),
            RequestError::TooManyMounts => "scan request exceeds the 32-mount limit".to_owned(),
            RequestError::UnknownMount(p) => crate::text::joined3(
                "requested mount ",
                p.as_str(),
                " is not present in the trusted OS mount table",
            ),
            RequestError::TooManyRoots => "scan roots exceed the 32-root limit".to_owned(),
            RequestError::NoRoots =>
                "scan requests must include at least one approved root".to_owned(),
            RequestError::UnsafeRoot => "scan roots must be absolute and normalized".to_owned(),
            RequestError::RootOutsideMounts(p) => crate::text::joined3(
                "approved root ",
                p.as_str(),
                " is outside the requested native mounts",
            ),
            RequestError::QueryLimit => "query limit must be between 1 and 10000".to_owned(),
            RequestError::TooManyTerms => "query exceeds the 32-term limit".to_owned(),
            RequestError::BadScopes =>
                "query scopes must be absolute and limited to 32 roots".to_owned(),
            RequestError::QueryTooLong => "query text exceeds the 32768-byte limit".to_owned(),
            RequestError::TooManyChanges => "delta batch exceeds the 65536-change limit".to_owned(),
            RequestError::ChangePathLength =>
                "delta path length is outside the supported range".to_owned(),
            RequestError::UnsafeChangePath =>
                "delta paths must be absolute and normalized".to_owned(),
        }
    }
}

// ---------------------------------------------------------------------------
// Mounts and roots of a scan

/// The first mount of a table at a mount point.
pub open spec fn trusted_mount(host: Host, table: Seq<MountView>, point: Seq<char>) -> Option<MountView>
    decreases table.len(),
{
    if table.len() == 0 {
        None
    } else if crate::host::same_path(host, table[0].mountpoint, point) {
        Some(table[0])
    } else {
        trusted_mount(host, table.skip(1), point)
    }
}

/// One of the mounts is at a mount point.
pub open spec fn has_point(ms: Seq<MountView>, point: Seq<char>) -> bool {
    exists|i: int| 0 <= i < ms.len() && (#[trigger] ms[i]).mountpoint == point
}

/// The mounts of the table that some requests mean, each once, or the first mount point
/// that the table does not hold.
pub open spec fn resolved(host: Host, requested: Seq<MountView>, table: Seq<MountView>) -> Result<
    Seq<MountView>,
    Seq<char>,
>
    decreases requested.len(),
{
    if requested.len() == 0 {
        Ok(Seq::empty())
    } else {
        match resolved(host, requested.drop_last(), table) {
            Err(p) => Err(p),
            Ok(ms) => match trusted_mount(host, table, requested.last().mountpoint) {
                None => Err(requested.last().mountpoint),
                Some(m) => Ok(
                    if has_point(ms, m.mountpoint) {
                        ms
                    } else {
                        ms.push(m)
                    },
                ),
            },
        }
    }
}

/// The mounts to scan. Only their mount points are taken from the request.
pub open spec fn scan_mounts(
    host: Host,
    requested: Seq<MountView>,
    table: Seq<MountView>,
    idle: bool,
) -> Result<Seq<MountView>, Refusal> {
    if !idle {
        Err(Refusal::ScanRunning)
    } else if requested.len() > MAX_SCAN_MOUNTS {
        Err(Refusal::TooManyMounts)
    } else {
        match resolved(host, requested, table) {
            Ok(ms) => Ok(ms),
            Err(p) => Err(Refusal::UnknownMount(p)),
        }
    }
}

fn find_trusted(host: Host, table: &Vec<MountInfo>, point: &str) -> (r: Option<usize>)
    ensures
        match r {
            Some(i) => i < table@.len() && trusted_mount(
                host,
                crate::mounts::mount_views(table@),
                point@,
            ) == Some(table@[i as int]@),
            None => trusted_mount(host, crate::mounts::mount_views(table@), point@) is None,
        },
{
    let ghost views = crate::mounts::mount_views(table@);
    let mut i: usize = 0;
    assert(views.skip(0) =~= views);
    while i < table.len()
        invariant
            i <= table@.len(),
            views == crate::mounts::mount_views(table@),
            trusted_mount(host, views.skip(i as int), point@) == trusted_mount(host, views, point@),
        decreases table@.len() - i,
    {
        proof {
            assert(views.skip(i as int)[0] == table@[i as int]@);
            assert(views.skip(i as int).skip(1) =~= views.skip(i + 1));
        }
        if crate::host::same(host, table[i].mountpoint.as_str(), point) {
            return Some(i);
        }
        i += 1;
    }
    None
}

fn point_known(ms: &Vec<MountInfo>, point: &str) -> (r: bool)
    ensures
        r == has_point(crate::mounts::mount_views(ms@), point@),
{
    let ghost views = crate::mounts::mount_views(ms@);
    let mut i: usize = 0;
    while i < ms.len()
        invariant
            i <= ms@.len(),
            views == crate::mounts::mount_views(ms@),
            forall|k: int| 0 <= k < i ==> (#[trigger] views[k]).mountpoint != point@,
        decreases ms@.len() - i,
    {
        assert(views[i as int] == ms@[i as int]@);
        if crate::text::same_text(ms[i].mountpoint.as_str(), point) {
            return true;
        }
        i += 1;
    }
    false
}

proof fn lemma_resolved_error(host: Host, requested: Seq<MountView>, table: Seq<MountView>, i: int)
    requires
        0 <= i < requested.len(),
        resolved(host, requested.take(i), table) is Ok,
        trusted_mount(host, table, requested[i].mountpoint) is None,
    ensures
        resolved(host, requested, table) == Err::<Seq<MountView>, Seq<char>>(requested[i].mountpoint),
    decreases requested.len(),
{
    if i == requested.len() - 1 {
        assert(requested.drop_last() =~= requested.take(i));
    } else {
        assert(requested.drop_last().take(i) =~= requested.take(i));
        lemma_resolved_error(host, requested.drop_last(), table, i);
    }
}

/// Turns a request into mounts of the host's own table.
pub fn resolve_scan_mounts(
    host: Host,
    requested: &Vec<MountInfo>,
    trusted: &Vec<MountInfo>,
    idle: bool,
) -> (r: Result<
    Vec<MountInfo>,
    RequestError,
>)
    ensures
        ({
            let x = scan_mounts(
                host,
                crate::mounts::mount_views(requested@),
                crate::mounts::mount_views(trusted@),
                idle,
            );
            match r {
                Ok(ms) => x == Ok::<Seq<MountView>, Refusal>(crate::mounts::mount_views(ms@)),
                Err(e) => x == Err::<Seq<MountView>, Refusal>(e@),
            }
        }),
{
    let ghost rs = crate::mounts::mount_views(requested@);
    let ghost table = crate::mounts::mount_views(trusted@);
    if !idle {
        return Err(RequestError::ScanRunning);
    }
    if requested.len() > MAX_SCAN_MOUNTS {
        return Err(RequestError::TooManyMounts);
    }
    let mut out: Vec<MountInfo> = Vec::new();
    let mut i: usize = 0;
    proof {
        assert(rs.take(0) =~= Seq::empty());
        assert(crate::mounts::mount_views(out@) =~= Seq::empty());
    }
    while i < requested.len()
        invariant
            i <= requested@.len() <= MAX_SCAN_MOUNTS,
            idle,
            rs == crate::mounts::mount_views(requested@),
            table == crate::mounts::mount_views(trusted@),
            resolved(host, rs.take(i as int), table) == Ok::<Seq<MountView>, Seq<char>>(
                crate::mounts::mount_views(out@),
            ),
        decreases requested@.len() - i,
    {
        proof {
            assert(rs.take(i + 1).drop_last() =~= rs.take(i as int));
            assert(rs[i as int] == requested@[i as int]@);
        }
        match find_trusted(host, trusted, requested[i].mountpoint.as_str()) {
            None => {
                proof {
                    lemma_resolved_error(host, rs, table, i as int);
                }
                return Err(RequestError::UnknownMount(requested[i].mountpoint.clone()));
            },
            Some(k) => {
                if !point_known(&out, trusted[k].mountpoint.as_str()) {
                    let ghost had = crate::mounts::mount_views(out@);
                    out.push(trusted[k].clone());
                    assert(crate::mounts::mount_views(out@) =~= had.push(trusted@[k as int]@));
                }
            },
        }
        i += 1;
    }
    assert(rs.take(i as int) =~= rs);
    Ok(out)
}

/// What is scanned is what the host's own table says: whatever else a request claims of a
/// mount is not taken over.
pub proof fn law_scans_use_trusted_mounts(
    host: Host,
    requested: Seq<MountView>,
    table: Seq<MountView>,
)
    ensures
        resolved(host, requested, table) matches Ok(ms) ==> forall|i: int|
            0 <= i < ms.len() ==> table.contains(#[trigger] ms[i]),
    decreases requested.len(),
{
    if requested.len() > 0 {
        law_scans_use_trusted_mounts(host, requested.drop_last(), table);
        lemma_trusted_is_listed(host, table, requested.last().mountpoint);
    }
}

proof fn lemma_trusted_is_listed(host: Host, table: Seq<MountView>, point: Seq<char>)
    ensures
        trusted_mount(host, table, point) matches Some(m) ==> table.contains(m),
    decreases table.len(),
{
    if table.len() > 0 && !crate::host::same_path(host, table[0].mountpoint, point) {
        lemma_trusted_is_listed(host, table.skip(1), point);
        if trusted_mount(host, table, point) is Some {
            let m = trusted_mount(host, table, point)->0;
            let k = table.skip(1).index_of(m);
            assert(table[k + 1] == m);
        }
    }
}

/// The root lies in one of the mounts.
pub open spec fn in_mounts(host: Host, root: Seq<char>, ms: Seq<MountView>) -> bool {
    exists|i: int| 0 <= i < ms.len() && crate::host::in_root(host, root, (#[trigger] ms[i]).mountpoint)
}

/// One of the roots is the same for the host.
pub open spec fn has_root(host: Host, roots: Seq<Seq<char>>, root: Seq<char>) -> bool {
    exists|i: int| 0 <= i < roots.len() && crate::host::same_portable(host, #[trigger] roots[i], root)
}

/// A root that is absolute on the host and safe.
pub open spec fn sound_root(host: Host, root: Seq<char>) -> bool {
    crate::host::host_absolute(host, root) && crate::scope::safe_path(root)
}

/// The roots that are approved, each once, or the first refusal.
pub open spec fn approved(host: Host, roots: Seq<Seq<char>>, ms: Seq<MountView>) -> Result<
    Seq<Seq<char>>,
    Refusal,
>
    decreases roots.len(),
{
    if roots.len() == 0 {
        Ok(Seq::empty())
    } else {
        match approved(host, roots.drop_last(), ms) {
            Err(e) => Err(e),
            Ok(rs) => if !sound_root(host, roots.last()) {
                Err(Refusal::UnsafeRoot)
            } else if !in_mounts(host, roots.last(), ms) {
                Err(Refusal::RootOutsideMounts(roots.last()))
            } else if has_root(host, rs, roots.last()) {
                Ok(rs)
            } else {
                Ok(rs.push(roots.last()))
            },
        }
    }
}

/// The roots of a scan. A request for nothing is granted; mounts need a root.
pub open spec fn scan_roots(host: Host, roots: Seq<Seq<char>>, ms: Seq<MountView>) -> Result<
    Seq<Seq<char>>,
    Refusal,
> {
    if roots.len() > MAX_SCAN_MOUNTS {
        Err(Refusal::TooManyRoots)
    } else if ms.len() == 0 && roots.len() == 0 {
        Ok(Seq::empty())
    } else if roots.len() == 0 {
        Err(Refusal::NoRoots)
    } else {
        approved(host, roots, ms)
    }
}

fn root_in_mounts(host: Host, root: &str, ms: &Vec<MountInfo>) -> (r: bool)
    ensures
        r == in_mounts(host, root@, crate::mounts::mount_views(ms@)),
{
    let ghost views = crate::mounts::mount_views(ms@);
    let mut i: usize = 0;
    while i < ms.len()
        invariant
            i <= ms@.len(),
            views == crate::mounts::mount_views(ms@),
            forall|k: int|
                0 <= k < i ==> !crate::host::in_root(host, root@, (#[trigger] views[k]).mountpoint),
        decreases ms@.len() - i,
    {
        assert(views[i as int] == ms@[i as int]@);
        if crate::host::portable_path_in_root(host, root, ms[i].mountpoint.as_str()) {
            return true;
        }
        i += 1;
    }
    false
}

fn root_known(host: Host, roots: &Vec<String>, root: &str) -> (r: bool)
    ensures
        r == has_root(host, crate::text::strings(roots@), root@),
{
    let ghost views = crate::text::strings(roots@);
    let mut i: usize = 0;
    while i < roots.len()
        invariant
            i <= roots@.len(),
            views == crate::text::strings(roots@),
            forall|k: int|
                0 <= k < i ==> !crate::host::same_portable(host, #[trigger] views[k], root@),
        decreases roots@.len() - i,
    {
        assert(views[i as int] == roots@[i as int]@);
        if crate::host::same_portable_path(host, roots[i].as_str(), root) {
            return true;
        }
        i += 1;
    }
    false
}

proof fn lemma_approved_error(host: Host, roots: Seq<Seq<char>>, ms: Seq<MountView>, i: int)
    requires
        0 <= i < roots.len(),
        approved(host, roots.take(i + 1), ms) is Err,
    ensures
        approved(host, roots, ms) == approved(host, roots.take(i + 1), ms),
    decreases roots.len(),
{
    if i == roots.len() - 1 {
        assert(roots.take(i + 1) =~= roots);
    } else {
        assert(roots.drop_last().take(i + 1) =~= roots.take(i + 1));
        lemma_approved_error(host, roots.drop_last(), ms, i);
    }
}

/// Checks the roots of a scan against its mounts.
pub fn validate_scan_roots(host: Host, roots: &Vec<String>, mounts: &Vec<MountInfo>) -> (r: Result<
    Vec<String>,
    RequestError,
>)
    ensures
        ({
            let x = scan_roots(
                host,
                crate::text::strings(roots@),
                crate::mounts::mount_views(mounts@),
            );
            match r {
                Ok(rs) => x == Ok::<Seq<Seq<char>>, Refusal>(crate::text::strings(rs@)),
                Err(e) => x == Err::<Seq<Seq<char>>, Refusal>(e@),
            }
        }),
{
    let ghost all = crate::text::strings(roots@);
    let ghost ms = crate::mounts::mount_views(mounts@);
    let mut out: Vec<String> = Vec::new();
    if roots.len() > MAX_SCAN_MOUNTS {
        return Err(RequestError::TooManyRoots);
    }
    assert(crate::text::strings(out@) =~= Seq::empty());
    if mounts.len() == 0 && roots.len() == 0 {
        return Ok(out);
    }
    if roots.len() == 0 {
        return Err(RequestError::NoRoots);
    }
    let mut i: usize = 0;
    assert(all.take(0) =~= Seq::empty());
    while i < roots.len()
        invariant
            i <= roots@.len() <= MAX_SCAN_MOUNTS,
            roots@.len() > 0,
            all == crate::text::strings(roots@),
            ms == crate::mounts::mount_views(mounts@),
            approved(host, all.take(i as int), ms) == Ok::<Seq<Seq<char>>, Refusal>(
                crate::text::strings(out@),
            ),
        decreases roots@.len() - i,
    {
        proof {
            assert(all.take(i + 1).drop_last() =~= all.take(i as int));
            assert(all[i as int] == roots@[i as int]@);
        }
        let root = roots[i].as_str();
        let chars = crate::text::chars_of(root);
        if !crate::host::is_absolute(host, chars.as_slice()) || !crate::scope::safe_absolute_path(
            root,
        ) {
            proof {
                lemma_approved_error(host, all, ms, i as int);
            }
            return Err(RequestError::UnsafeRoot);
        }
        if !root_in_mounts(host, root, mounts) {
            proof {
                lemma_approved_error(host, all, ms, i as int);
            }
            return Err(RequestError::RootOutsideMounts(roots[i].clone()));
        }
        if !root_known(host, &out, root) {
            let ghost had = crate::text::strings(out@);
            out.push(roots[i].clone());
            assert(crate::text::strings(out@) =~= had.push(all[i as int]));
        }
        i += 1;
    }
    assert(all.take(i as int) =~= all);
    Ok(out)
}

/// An approved root is one that was asked for, is safe and lies in a requested mount, and no
/// two of them are the same for the host.
pub proof fn law_approved_roots_lie_in_the_mounts(
    host: Host,
    roots: Seq<Seq<char>>,
    ms: Seq<MountView>,
)
    ensures
        approved(host, roots, ms) matches Ok(rs) ==> {
            &&& forall|i: int|
                0 <= i < rs.len() ==> roots.contains(#[trigger] rs[i]) && sound_root(host, rs[i])
                    && in_mounts(host, rs[i], ms)
            &&& forall|i: int, j: int|
                0 <= i < j < rs.len() ==> !crate::host::same_portable(host, rs[i], rs[j])
        },
    decreases roots.len(),
{
    if roots.len() > 0 {
        let front = roots.drop_last();
        law_approved_roots_lie_in_the_mounts(host, front, ms);
        if approved(host, roots, ms) is Ok {
            let rs = approved(host, roots, ms)->Ok_0;
            let before = approved(host, front, ms)->Ok_0;
            assert forall|i: int| 0 <= i < rs.len() implies roots.contains(#[trigger] rs[i])
                && sound_root(host, rs[i]) && in_mounts(host, rs[i], ms) by {
                if i < before.len() {
                    assert(rs[i] == before[i]);
                    let k = front.index_of(before[i]);
                    assert(roots[k] == rs[i]);
                } else {
                    assert(roots[roots.len() - 1] == rs[i]);
                }
            }
            assert forall|i: int, j: int| 0 <= i < j < rs.len() implies !crate::host::same_portable(
                host,
                rs[i],
                rs[j],
            ) by {
                assert(rs[i] == before[i]);
                if j < before.len() {
                    assert(rs[j] == before[j]);
                }
            }
        }
    }
}

// ---------------------------------------------------------------------------
// Queries and changes

/// How many bytes some texts take together.
pub open spec fn text_size(texts: Seq<Seq<char>>) -> nat
    decreases texts.len(),
{
    if texts.len() == 0 {
        0
    } else {
        text_size(texts.drop_last()) + vstd::utf8::encode_utf8(texts.last()).len()
    }
}

/// How many bytes of text a query holds.
pub open spec fn query_size(q: QueryView) -> nat {
    text_size(q.terms) + text_size(q.exts) + text_size(q.scope_roots) + match q.under {
        Some(u) => vstd::utf8::encode_utf8(u).len(),
        None => 0,
    }
}

/// Why a query is refused.
pub open spec fn query_refusal(host: Host, q: QueryView) -> Option<Refusal> {
    if q.limit == 0 || q.limit > MAX_QUERY_RESULTS {
        Some(Refusal::QueryLimit)
    } else if q.terms.len() > MAX_QUERY_TERMS {
        Some(Refusal::TooManyTerms)
    } else if q.scope_roots.len() > MAX_SCAN_MOUNTS || exists|i: int|
        0 <= i < q.scope_roots.len() && !crate::host::host_absolute(
            host,
            #[trigger] q.scope_roots[i],
        ) {
        Some(Refusal::BadScopes)
    } else if query_size(q) > MAX_QUERY_TEXT_BYTES {
        Some(Refusal::QueryTooLong)
    } else {
        None
    }
}

/// The size of some texts, as far as a machine counts.
fn size_of_texts(texts: &Vec<String>) -> (n: u64)
    ensures
        n == text_size(crate::text::strings(texts@)) || (n == u64::MAX && text_size(
            crate::text::strings(texts@),
        ) > u64::MAX),
{
    let ghost all = crate::text::strings(texts@);
    let mut n: u64 = 0;
    let mut i: usize = 0;
    assert(all.take(0) =~= Seq::empty());
    while i < texts.len()
        invariant
            i <= texts@.len(),
            all == crate::text::strings(texts@),
            n == text_size(all.take(i as int)) || (n == u64::MAX && text_size(all.take(i as int))
                > u64::MAX),
        decreases texts@.len() - i,
    {
        proof {
            assert(all.take(i + 1).drop_last() =~= all.take(i as int));
            assert(all[i as int] == texts@[i as int]@);
        }
        let b = texts[i].as_str().as_bytes();
        let len: usize = b.len();
        n = n.saturating_add(len as u64);
        i += 1;
    }
    assert(all.take(i as int) =~= all);
    n
}

/// Checks that a query is bounded.
pub fn validate_query(host: Host, q: &Query) -> (r: Result<(), RequestError>)
    ensures
        match r {
            Ok(_) => query_refusal(host, q@) is None,
            Err(e) => query_refusal(host, q@) == Some(e@),
        },
{
    if q.limit == 0 || q.limit > MAX_QUERY_RESULTS {
        return Err(RequestError::QueryLimit);
    }
    if q.terms.len() > MAX_QUERY_TERMS {
        return Err(RequestError::TooManyTerms);
    }
    if q.scope_roots.len() > MAX_SCAN_MOUNTS {
        return Err(RequestError::BadScopes);
    }
    let ghost scopes = q@.scope_roots;
    let mut i: usize = 0;
    while i < q.scope_roots.len()
        invariant
            i <= q.scope_roots@.len() <= MAX_SCAN_MOUNTS,
            q.limit != 0 && q.limit <= MAX_QUERY_RESULTS,
            q.terms@.len() <= MAX_QUERY_TERMS,
            scopes == crate::text::strings(q.scope_roots@),
            scopes == q@.scope_roots,
            forall|k: int|
                0 <= k < i ==> crate::host::host_absolute(host, #[trigger] scopes[k]),
        decreases q.scope_roots@.len() - i,
    {
        assert(scopes[i as int] == q.scope_roots@[i as int]@);
        let chars = crate::text::chars_of(q.scope_roots[i].as_str());
        if !crate::host::is_absolute(host, chars.as_slice()) {
            return Err(RequestError::BadScopes);
        }
        i += 1;
    }
    let a: u64 = size_of_texts(&q.terms);
    let b: u64 = size_of_texts(&q.exts);
    let c: u64 = size_of_texts(&q.scope_roots);
    let d: u64 = match &q.under {
        Some(u) => {
            let bytes = u.as_str().as_bytes();
            let len: usize = bytes.len();
            len as u64
        },
        None => 0,
    };
    let total: u64 = a.saturating_add(b).saturating_add(c).saturating_add(d);
    if total > MAX_QUERY_TEXT_BYTES as u64 {
        return Err(RequestError::QueryTooLong);
    }
    Ok(())
}

/// What is wrong with the path of a change.
pub open spec fn path_refusal(path: Seq<char>) -> Option<Refusal> {
    if path.len() == 0 || vstd::utf8::encode_utf8(path).len() > MAX_INDEX_PATH_BYTES {
        Some(Refusal::ChangePathLength)
    } else if !crate::scope::safe_path(path) {
        Some(Refusal::UnsafeChangePath)
    } else {
        None
    }
}

/// The first thing that is wrong with the path of one of the changes.
pub open spec fn paths_refusal(cs: Seq<ChangeView>) -> Option<Refusal>
    decreases cs.len(),
{
    if cs.len() == 0 {
        None
    } else {
        match path_refusal(crate::delta::path_of(cs[0])) {
            Some(e) => Some(e),
            None => paths_refusal(cs.skip(1)),
        }
    }
}

/// Why a batch of changes is refused.
pub open spec fn changes_refusal(cs: Seq<ChangeView>) -> Option<Refusal> {
    if cs.len() > MAX_DELTA_CHANGES {
        Some(Refusal::TooManyChanges)
    } else {
        paths_refusal(cs)
    }
}

/// Checks a batch of changes.
pub fn validate_delta_changes(changes: &Vec<DeltaChange>) -> (r: Result<(), RequestError>)
    ensures
        match r {
            Ok(_) => changes_refusal(crate::store::change_views(changes@)) is None,
            Err(e) => changes_refusal(crate::store::change_views(changes@)) == Some(e@),
        },
{
    if changes.len() > MAX_DELTA_CHANGES {
        return Err(RequestError::TooManyChanges);
    }
    let ghost cs = crate::store::change_views(changes@);
    let mut i: usize = 0;
    assert(cs.skip(0) =~= cs);
    while i < changes.len()
        invariant
            i <= changes@.len() <= MAX_DELTA_CHANGES,
            cs == crate::store::change_views(changes@),
            paths_refusal(cs.skip(i as int)) == paths_refusal(cs),
        decreases changes@.len() - i,
    {
        proof {
            assert(cs.skip(i as int)[0] == changes@[i as int]@);
            assert(cs.skip(i as int).skip(1) =~= cs.skip(i + 1));
        }
        let path = match &changes[i] {
            DeltaChange::Upsert(r) => r.path.as_str(),
            DeltaChange::Remove(p) => p.as_str(),
        };
        assert(path@ == crate::delta::path_of(cs[i as int]));
        let b = path.as_bytes();
        let len: usize = b.len();
        proof {
            crate::requests::lemma_no_text_no_bytes(path@);
        }
        if len == 0 || len > MAX_INDEX_PATH_BYTES {
            return Err(RequestError::ChangePathLength);
        }
        if !crate::scope::safe_absolute_path(path) {
            return Err(RequestError::UnsafeChangePath);
        }
        i += 1;
    }
    assert(cs.skip(i as int) =~= Seq::empty());
    Ok(())
}

/// Only empty text takes no bytes.
pub proof fn lemma_no_text_no_bytes(s: Seq<char>)
    ensures
        vstd::utf8::encode_utf8(s).len() == 0 <==> s.len() == 0,
{
    reveal_with_fuel(vstd::utf8::encode_utf8, 2);
}

} // verus!
