//! What the helper accepts and does, and what the window shows and keeps.

use crate::delta::ChangeView;
use crate::desktop::{DesktopView, EventView};
use crate::display::{KindFilter, SortMode};
use crate::host::Host;
use crate::mounts::MountView;
use crate::proto::{AnswerView, ClientMsg};
use crate::query::{QueryView, SortKey};
use crate::rank::HitView;
use crate::requests::Refusal;
use crate::service::{ServiceView, Step};
use crate::types::{FileKind, RecordView};
use vstd::prelude::*;

verus! {

// ---------------------------------------------------------------------------
// Requests

/// A query is accepted where it asks for one to ten thousand hits, by at most 32 terms, in at
/// most 32 absolute folders, and with at most 32768 bytes of text.
pub proof fn law_queries_within_bounds_are_accepted(host: Host, q: QueryView)
    ensures
        crate::requests::query_refusal(host, q) is None <==> ({
            &&& 1 <= q.limit <= 10_000
            &&& q.terms.len() <= 32
            &&& q.scope_roots.len() <= 32
            &&& forall|i: int|
                0 <= i < q.scope_roots.len() ==> crate::host::host_absolute(
                    host,
                    #[trigger] q.scope_roots[i],
                )
            &&& crate::requests::query_size(q) <= 32_768
        }),
{
}

/// A batch of changes is accepted where it has at most 65536, each with a path that is not
/// empty, not longer than 32768 bytes, absolute and normalized.
pub proof fn law_changes_within_bounds_are_accepted(cs: Seq<ChangeView>)
    ensures
        crate::requests::changes_refusal(cs) is None <==> cs.len() <= 65_536 && forall|i: int|
            0 <= i < cs.len() ==> ({
                let p = crate::delta::path_of(#[trigger] cs[i]);
                p.len() > 0 && vstd::utf8::encode_utf8(p).len() <= 32_768
                    && crate::scope::safe_path(p)
            }),
{
    lemma_paths(cs);
}

proof fn lemma_paths(cs: Seq<ChangeView>)
    ensures
        crate::requests::paths_refusal(cs) is None <==> forall|i: int|
            0 <= i < cs.len() ==> ({
                let p = crate::delta::path_of(#[trigger] cs[i]);
                p.len() > 0 && vstd::utf8::encode_utf8(p).len() <= 32_768
                    && crate::scope::safe_path(p)
            }),
    decreases cs.len(),
{
    if cs.len() > 0 {
        let rest = cs.skip(1);
        lemma_paths(rest);
        assert forall|i: int| 0 < i < cs.len() implies rest[i - 1] == #[trigger] cs[i] by {}
        if crate::requests::paths_refusal(cs) is None {
            assert forall|i: int| 0 <= i < cs.len() implies ({
                let p = crate::delta::path_of(#[trigger] cs[i]);
                p.len() > 0 && vstd::utf8::encode_utf8(p).len() <= 32_768
                    && crate::scope::safe_path(p)
            }) by {
                if i > 0 {
                    assert(rest[i - 1] == cs[i]);
                }
            }
        }
        if forall|i: int|
            0 <= i < cs.len() ==> ({
                let p = crate::delta::path_of(#[trigger] cs[i]);
                p.len() > 0 && vstd::utf8::encode_utf8(p).len() <= 32_768
                    && crate::scope::safe_path(p)
            }) {
            assert(cs[0] == cs[0]);
            assert forall|i: int| 0 <= i < rest.len() implies ({
                let p = crate::delta::path_of(#[trigger] rest[i]);
                p.len() > 0 && vstd::utf8::encode_utf8(p).len() <= 32_768
                    && crate::scope::safe_path(p)
            }) by {
                assert(rest[i] == cs[i + 1]);
            }
        }
    }
}

/// Every mount that a granted scan asked for is scanned, as the table of the system has it.
pub proof fn law_requested_mounts_are_scanned(
    host: Host,
    requested: Seq<MountView>,
    table: Seq<MountView>,
    ms: Seq<MountView>,
    i: int,
)
    requires
        crate::requests::resolved(host, requested, table) == Ok::<Seq<MountView>, Seq<char>>(ms),
        0 <= i < requested.len(),
    ensures
        exists|k: int|
            0 <= k < ms.len() && crate::host::path_parts(host, (#[trigger] ms[k]).mountpoint)
                == crate::host::path_parts(host, requested[i].mountpoint),
    decreases requested.len(),
{
    let less = requested.drop_last();
    let front = crate::requests::resolved(host, less, table)->Ok_0;
    let m = crate::requests::trusted_mount(host, table, requested.last().mountpoint)->0;
    if i < less.len() {
        assert(less[i] == requested[i]);
        law_requested_mounts_are_scanned(host, less, table, front, i);
        let k = choose|k: int|
            0 <= k < front.len() && crate::host::path_parts(host, (#[trigger] front[k]).mountpoint)
                == crate::host::path_parts(host, requested[i].mountpoint);
        assert(ms[k] == front[k]);
    } else {
        lemma_trusted(host, table, requested.last().mountpoint);
        if crate::requests::has_point(front, m.mountpoint) {
            let k = choose|k: int|
                0 <= k < front.len() && (#[trigger] front[k]).mountpoint == m.mountpoint;
            assert(ms[k] == front[k]);
        } else {
            assert(ms[front.len() as int] == m);
        }
    }
}

proof fn lemma_trusted(host: Host, table: Seq<MountView>, point: Seq<char>)
    ensures
        match crate::requests::trusted_mount(host, table, point) {
            Some(m) => table.contains(m) && crate::host::path_parts(host, m.mountpoint)
                == crate::host::path_parts(host, point),
            None => forall|i: int|
                0 <= i < table.len() ==> crate::host::path_parts(
                    host,
                    (#[trigger] table[i]).mountpoint,
                ) != crate::host::path_parts(host, point),
        },
    decreases table.len(),
{
    if table.len() > 0 {
        let rest = table.skip(1);
        lemma_trusted(host, rest, point);
        assert(table[0] == table[0]);
        match crate::requests::trusted_mount(host, table, point) {
            Some(m) => {
                if m != table[0] {
                    let k = rest.index_of(m);
                    assert(table[k + 1] == m);
                }
            },
            None => {
                assert forall|i: int| 0 <= i < table.len() implies crate::host::path_parts(
                    host,
                    (#[trigger] table[i]).mountpoint,
                ) != crate::host::path_parts(host, point) by {
                    if i > 0 {
                        assert(rest[i - 1] == table[i]);
                    }
                }
            },
        }
    }
}

/// Every folder of a granted scan is approved: it is absolute and normalized, lies in one of
/// the mounts, and is scanned under its own or an equal name.
pub proof fn law_requested_folders_are_approved(
    host: Host,
    roots: Seq<Seq<char>>,
    ms: Seq<MountView>,
    rs: Seq<Seq<char>>,
    i: int,
)
    requires
        crate::requests::approved(host, roots, ms) == Ok::<Seq<Seq<char>>, Refusal>(rs),
        0 <= i < roots.len(),
    ensures
        crate::host::host_absolute(host, roots[i]),
        crate::scope::safe_path(roots[i]),
        exists|k: int|
            0 <= k < ms.len() && crate::host::in_root(
                host,
                roots[i],
                (#[trigger] ms[k]).mountpoint,
            ),
        rs.contains(roots[i]) || exists|k: int|
            0 <= k < rs.len() && crate::host::same_portable(host, #[trigger] rs[k], roots[i]),
    decreases roots.len(),
{
    let less = roots.drop_last();
    let front = crate::requests::approved(host, less, ms)->Ok_0;
    if i < less.len() {
        assert(less[i] == roots[i]);
        law_requested_folders_are_approved(host, less, ms, front, i);
        if front.contains(roots[i]) {
            let k = front.index_of(roots[i]);
            assert(rs[k] == roots[i]);
        } else {
            let k = choose|k: int|
                0 <= k < front.len() && crate::host::same_portable(
                    host,
                    #[trigger] front[k],
                    roots[i],
                );
            assert(rs[k] == front[k]);
        }
    } else {
        assert(roots.last() == roots[i]);
        if !crate::requests::has_root(host, front, roots.last()) {
            assert(rs[front.len() as int] == roots[i]);
        }
    }
}

/// Only a scan for the helper itself keeps its records there.
pub proof fn law_resident_scans_keep_their_records(
    s: ServiceView,
    msg: ClientMsg,
    host: Host,
    table: Seq<MountView>,
    idle: bool,
    became_stale: bool,
    first: u64,
    second: u64,
    r: Step,
    after: ServiceView,
)
    requires
        crate::service::stepped(
            s,
            Some(msg),
            host,
            table,
            idle,
            became_stale,
            first,
            second,
            r,
            after,
        ),
        r is Scan,
    ensures
        msg is ScanResident ==> r->resident,
        msg is Scan ==> !r->resident,
        msg is Scan || msg is ScanResident,
        idle,
        after == s,
{
}

/// The answer to a search tells of the records that were found, in their order.
pub proof fn law_found_records_are_told(hits: Seq<HitView>, i: int)
    requires
        0 <= i < hits.len(),
    ensures
        crate::service::hit_records(hits).len() == hits.len(),
        crate::service::hit_records(hits)[i] == hits[i].record,
{
}

/// A helper speaks with a client of its own protocol alone, and says which it is.
pub proof fn law_only_one_protocol_is_spoken(first: Option<ClientMsg>, os: Seq<char>, arch: Seq<char>)
    ensures
        crate::service::greets(first) <==> crate::service::greeting(first, os, arch) is Hello,
        crate::service::greets(first) ==> (first matches Some(ClientMsg::Hello { proto }) && proto
            == crate::proto::PROTO_VERSION),
        match crate::service::greeting(first, os, arch) {
            AnswerView::Hello { proto, build, os: o, arch: a } => proto
                == crate::proto::PROTO_VERSION && build == crate::proto::HELPER_BUILD && o == os
                && a == arch,
            _ => true,
        },
{
}

// ---------------------------------------------------------------------------
// Updates

/// What a log holds after some changes, from the first to the last: of every path what the last
/// change said, and what it held before of all others.
pub proof fn law_updates_are_logged_in_order(
    d: crate::delta::DeltaView,
    cs: Seq<ChangeView>,
    p: Seq<char>,
)
    ensures
        ({
            let after = crate::store::all_logged(d, cs).overlay;
            match crate::delta::last_about(cs, p) {
                Some(ChangeView::Upsert(r)) => after.upserts.contains_key(p) && after.upserts[p] == r
                    && !after.removed.contains(p),
                Some(ChangeView::Remove(_)) => !after.upserts.contains_key(p)
                    && after.removed.contains(p),
                None => after.upserts.contains_key(p) == d.overlay.upserts.contains_key(p) && (
                d.overlay.upserts.contains_key(p) ==> after.upserts[p] == d.overlay.upserts[p])
                    && after.removed.contains(p) == d.overlay.removed.contains(p),
            }
        }),
    decreases cs.len(),
{
    if cs.len() > 0 && crate::delta::path_of(cs.last()) != p {
        law_updates_are_logged_in_order(d, cs.drop_last(), p);
    }
}

/// The last change of a list about a path: no later one is about it.
pub proof fn law_the_last_change_about_a_path(cs: Seq<ChangeView>, p: Seq<char>)
    ensures
        match crate::delta::last_about(cs, p) {
            Some(c) => exists|i: int|
                0 <= i < cs.len() && #[trigger] cs[i] == c && crate::delta::path_of(cs[i]) == p
                    && forall|j: int|
                    i < j < cs.len() ==> crate::delta::path_of(#[trigger] cs[j]) != p,
            None => forall|j: int|
                0 <= j < cs.len() ==> crate::delta::path_of(#[trigger] cs[j]) != p,
        },
    decreases cs.len(),
{
    if cs.len() > 0 {
        let less = cs.drop_last();
        let last = cs.len() - 1;
        assert(cs[last] == cs.last());
        if crate::delta::path_of(cs.last()) != p {
            law_the_last_change_about_a_path(less, p);
            match crate::delta::last_about(less, p) {
                Some(c) => {
                    let i = choose|i: int|
                        0 <= i < less.len() && #[trigger] less[i] == c && crate::delta::path_of(
                            less[i],
                        ) == p && forall|j: int|
                            i < j < less.len() ==> crate::delta::path_of(#[trigger] less[j]) != p;
                    assert(cs[i] == c);
                    assert forall|j: int| i < j < cs.len() implies crate::delta::path_of(
                        #[trigger] cs[j],
                    ) != p by {
                        if j < last {
                            assert(less[j] == cs[j]);
                        }
                    }
                },
                None => {
                    assert forall|j: int| 0 <= j < cs.len() implies crate::delta::path_of(
                        #[trigger] cs[j],
                    ) != p by {
                        if j < last {
                            assert(less[j] == cs[j]);
                        }
                    }
                },
            }
        }
    }
}

// ---------------------------------------------------------------------------
// The window

/// The window asks for what its text asks, or for all where the text is an expression; sorted,
/// and kept to files or folders, as its controls say, and to its chosen folders.
pub proof fn law_the_window_asks_what_its_controls_say(s: DesktopView, host: Host)
    ensures
        ({
            let q = crate::desktop::window_query(s, host);
            let p = crate::query::parsed_query(
                if s.regex_mode {
                    Seq::empty()
                } else {
                    s.query
                },
            );
            &&& q.terms == p.terms && q.exts == p.exts && q.fss == p.fss && q.min_size == p.min_size
                && q.max_size == p.max_size && q.under == p.under
            &&& q.sort == SortKey::SizeDesc <==> s.sort_mode == SortMode::Size
            &&& q.sort == SortKey::MtimeDesc <==> s.sort_mode == SortMode::Modified
            &&& q.sort == SortKey::NameAsc <==> s.sort_mode == SortMode::Name
            &&& q.sort == SortKey::PathAsc <==> s.sort_mode == SortMode::Path
            &&& s.kind_filter == KindFilter::All ==> q.kinds.len() == 0
            &&& s.kind_filter == KindFilter::Files ==> q.kinds.contains(FileKind::File)
                && q.kinds.contains(FileKind::Symlink) && !q.kinds.contains(FileKind::Dir)
                && !q.kinds.contains(FileKind::Other)
            &&& s.kind_filter == KindFilter::Folders ==> q.kinds.contains(FileKind::Dir)
                && !q.kinds.contains(FileKind::File) && !q.kinds.contains(FileKind::Symlink)
                && !q.kinds.contains(FileKind::Other)
            &&& s.scope_root is None ==> q.scope_roots == s.selected_roots
            &&& q.scope_case_sensitive == (host == Host::Linux)
        }),
{
    reveal_strlit("");
    assert(""@ =~= Seq::empty());
    let q = crate::desktop::window_query(s, host);
    let p = crate::query::parsed_query(
        if s.regex_mode {
            ""@
        } else {
            s.query
        },
    );
    crate::query::law_no_text_sets_the_scope(
        if s.regex_mode {
            ""@
        } else {
            s.query
        },
    );
    assert(p.scope_roots =~= Seq::empty());
    if s.scope_root is None {
        assert(q.scope_roots =~= s.selected_roots);
    }
    match s.kind_filter {
        KindFilter::All => {},
        KindFilter::Files => {
            assert(q.kinds[0] == FileKind::File);
            assert(q.kinds[1] == FileKind::Symlink);
        },
        KindFilter::Folders => {
            assert(q.kinds[0] == FileKind::Dir);
        },
    }
}

/// Of a batch of a scan the window keeps what lies in the scanned folders, in its order.
pub proof fn law_scanned_records_in_the_folders_are_kept(
    host: Host,
    roots: Seq<Seq<char>>,
    rs: Seq<RecordView>,
    i: int,
)
    requires
        0 <= i < rs.len(),
    ensures
        crate::desktop::in_roots(host, roots, rs).contains(rs[i]) <==> exists|k: int|
            0 <= k < roots.len() && crate::host::in_root(host, rs[i].path, #[trigger] roots[k]),
    decreases rs.len(),
{
    lemma_in_roots(host, roots, rs);
    let all = crate::desktop::in_roots(host, roots, rs);
    if crate::roots::in_some_root(host, rs[i].path, roots) {
        lemma_kept(host, roots, rs, i);
    } else if all.contains(rs[i]) {
        let k = all.index_of(rs[i]);
        assert(crate::roots::in_some_root(host, all[k].path, roots));
    }
}

proof fn lemma_in_roots(host: Host, roots: Seq<Seq<char>>, rs: Seq<RecordView>)
    ensures
        forall|k: int|
            0 <= k < crate::desktop::in_roots(host, roots, rs).len() ==> crate::roots::in_some_root(
                host,
                (#[trigger] crate::desktop::in_roots(host, roots, rs)[k]).path,
                roots,
            ),
    decreases rs.len(),
{
    if rs.len() > 0 {
        lemma_in_roots(host, roots, rs.drop_last());
    }
}

proof fn lemma_kept(host: Host, roots: Seq<Seq<char>>, rs: Seq<RecordView>, i: int)
    requires
        0 <= i < rs.len(),
        crate::roots::in_some_root(host, rs[i].path, roots),
    ensures
        crate::desktop::in_roots(host, roots, rs).contains(rs[i]),
    decreases rs.len(),
{
    let less = rs.drop_last();
    let front = crate::desktop::in_roots(host, roots, less);
    let all = crate::desktop::in_roots(host, roots, rs);
    if i < less.len() {
        assert(less[i] == rs[i]);
        lemma_kept(host, roots, less, i);
        let k = front.index_of(rs[i]);
        assert(all[k] == rs[i]);
    } else {
        assert(all[front.len() as int] == rs[i]);
    }
}

/// A scan goes on in a list of its own: until it ends, what is searched stays as it was.
pub proof fn law_scans_do_not_disturb_searches(
    s: DesktopView,
    m: AnswerView,
    host: Host,
    os: Seq<char>,
)
    requires
        !(m is ScanComplete),
    ensures
        ({
            let after = crate::desktop::on_event(s, EventView::Message(m), host, os).0;
            &&& after.index == s.index
            &&& after.compact == s.compact
            &&& after.hits == s.hits
            &&& after.selected_roots == s.selected_roots
        }),
{
}

/// A durable index that is ready takes the place of the records in memory, and is searched
/// again; one that failed leaves them.
pub proof fn law_durable_indexes_replace_the_records(
    s: DesktopView,
    c: crate::compact_index::CompactView,
    e: Seq<char>,
    host: Host,
    os: Seq<char>,
)
    ensures
        ({
            let (ready, effects) = crate::desktop::on_event(s, EventView::CompactReady(c), host, os);
            &&& ready.compact == Some(c)
            &&& ready.index.records.len() == 0
            &&& !ready.building_cache && !ready.cache_dirty
            &&& effects.requery
            &&& ready.selected_roots == s.selected_roots
        }),
        ({
            let (failed, effects) = crate::desktop::on_event(
                s,
                EventView::CompactFailed(e),
                host,
                os,
            );
            &&& failed.compact == s.compact
            &&& failed.index == s.index
            &&& !failed.building_cache && !failed.cache_dirty
            &&& effects.requery
        }),
{
}

/// A hierarchy is shown only for the records that it was made of.
pub proof fn law_only_current_hierarchies_are_shown(
    s: DesktopView,
    generation: u64,
    model: crate::treemap::Tree,
    host: Host,
    os: Seq<char>,
)
    ensures
        ({
            let after = crate::desktop::on_event(
                s,
                EventView::TreeReady { generation, model },
                host,
                os,
            ).0;
            let current = match s.compact {
                Some(c) => c.generation,
                None => s.index.generation,
            };
            &&& generation == current ==> after.tree == Some(model)
            &&& generation != current ==> after.tree == s.tree
            &&& !after.tree_building
        }),
{
}

/// A durable index is built where records wait for one, nothing is being built or scanned, and
/// the last one has rested or settled.
pub proof fn law_builds_wait_for_scans(s: DesktopView, rested: bool)
    ensures
        crate::desktop::build_due(s, rested) ==> s.cache_dirty && !s.building_cache
            && s.active_scans == 0 && (s.cache_settled || rested),
        s.cache_dirty && !s.building_cache && s.active_scans == 0 && (s.cache_settled || rested)
            ==> crate::desktop::build_due(s, rested),
{
}

/// A scan counts where there was something to scan and not all of it failed.
pub proof fn law_scans_count_where_a_lane_was_reached(mounts: u32, errors: u32)
    ensures
        crate::launch::some_lane_reached(mounts, errors) <==> mounts - errors >= 1,
{
}

/// A log is merged once it is as large as was set, 64 MiB where nothing was; a log always takes
/// one change before that.
pub proof fn law_logs_are_merged_at_their_threshold(set: Option<u64>, t: u64)
    ensures
        set is Some ==> crate::store::threshold_of(set) == set->0,
        set is None ==> crate::store::threshold_of(set) == 64 * 1024 * 1024,
        t > 17 ==> crate::delta::effective_threshold(t) == t,
        t <= 17 ==> crate::delta::effective_threshold(t) == 17,
{
}

/// The window shows no hits where no folders are chosen, nor where its index was replaced by one
/// that cannot be used or cannot be looked at; nothing but the hits and a note changes then.
pub proof fn law_unusable_indexes_show_no_hits(
    s: DesktopView,
    disk: crate::desktop::OnDisk,
    host: Host,
    after: DesktopView,
)
    requires
        crate::desktop::requeried(s, disk, host, after),
    ensures
        s.selected_roots.len() == 0 && s.onboarding_complete ==> after.hits.len() == 0
            && after.stats.matched == 0,
        (s.selected_roots.len() > 0 || !s.onboarding_complete) && s.compact is Some && (
        disk is Rejected || disk is Unavailable) ==> after.hits.len() == 0 && after.compact
            == s.compact && after.index == s.index,
        after.selected_roots == s.selected_roots,
        after.query == s.query,
        after.index == s.index,
{
}

} // verus!
