//! The state behind the window: what every event, click and search makes of it.
//!
//! A scan is gathered beside the index that is searched and takes its place only once a
//! lane has delivered; until then the last complete index stays searchable.

use crate::compact_index::{CompactIndex, CompactView};
use crate::display::{KindFilter, SortMode};
use crate::host::Host;
use crate::index::{Index, IndexView};
use crate::mounts::{MountInfo, MountView};
use crate::pathmap::{HasPath, PathMap};
use crate::proto::{AnswerView, HelperMsg};
use crate::query::{Query, QueryView, SortKey};
use crate::rank::{HitView, SearchHit, SearchStats};
use crate::treemap::{Hierarchy, Tree};
use crate::types::{FileKind, FileRecord, RecordView, ScanStats};
use vstd::prelude::*;

verus! {

/// How many events are taken between two frames.
pub const MAX_EVENTS_PER_FRAME: usize = 64;

/// How many hits the window asks for.
pub const WINDOW_LIMIT: usize = 1_000;

/// A line of the status display.
#[derive(Debug)]
pub struct Lane {
    pub key: String,
    pub label: String,
    pub status: String,
    pub records: u64,
    pub ms: u64,
    pub error: bool,
}

/// A line as a mathematical value, apart from its key.
#[verifier::ext_equal]
pub struct LaneView {
    pub label: Seq<char>,
    pub status: Seq<char>,
    pub records: u64,
    pub ms: u64,
    pub error: bool,
}

impl View for Lane {
    type V = LaneView;

    open spec fn view(&self) -> LaneView {
        LaneView {
            label: self.label@,
            status: self.status@,
            records: self.records,
            ms: self.ms,
            error: self.error,
        }
    }
}

impl HasPath for Lane {
    open spec fn key(&self) -> Seq<char> {
        self.key@
    }

    fn key_text(&self) -> (r: &str) {
        self.key.as_str()
    }
}

/// The lines by their keys.
pub type Lanes = Map<Seq<char>, LaneView>;

/// What happens outside the window.
pub enum Event {
    Message(HelperMsg),
    Fatal(String),
    Remote { key: String, status: String, error: bool },
    CompactReady(CompactIndex),
    CompactFailed(String),
    TreeReady { generation: u64, model: Hierarchy },
    TreeFailed(String),
}

/// The same as a mathematical value.
#[verifier::ext_equal]
pub enum EventView {
    Message(AnswerView),
    Fatal(Seq<char>),
    Remote { key: Seq<char>, status: Seq<char>, error: bool },
    CompactReady(CompactView),
    CompactFailed(Seq<char>),
    TreeReady { generation: u64, model: Tree },
    TreeFailed(Seq<char>),
}

impl View for Event {
    type V = EventView;

    open spec fn view(&self) -> EventView {
        match self {
            Event::Message(m) => EventView::Message(m@),
            Event::Fatal(e) => EventView::Fatal(e@),
            Event::Remote { key, status, error } => EventView::Remote {
                key: key@,
                status: status@,
                error: *error,
            },
            Event::CompactReady(c) => EventView::CompactReady(c@),
            Event::CompactFailed(e) => EventView::CompactFailed(e@),
            Event::TreeReady { generation, model } => EventView::TreeReady {
                generation: *generation,
                model: model@,
            },
            Event::TreeFailed(e) => EventView::TreeFailed(e@),
        }
    }
}

/// What has to follow a change of the state.
#[derive(Debug, Clone, Copy, PartialEq, Eq, Structural)]
pub struct Effects {
    /// Search again.
    pub requery: bool,
    /// Save the settings.
    pub save: bool,
}

/// The state behind the window.
pub struct Desktop {
    index: Index,
    compact: Option<CompactIndex>,
    scan_index: Option<Index>,
    hits: Vec<SearchHit>,
    stats: SearchStats,
    lanes: PathMap<Lane>,
    scanning: bool,
    active_scans: usize,
    selected_roots: Vec<String>,
    scan_roots: Vec<String>,
    onboarding_complete: bool,
    onboarding_scan: bool,
    setup_focus: bool,
    cache_dirty: bool,
    building_cache: bool,
    cache_settled: bool,
    last_generation: u64,
    tree: Option<Hierarchy>,
    tree_building: bool,
    query: String,
    sort_mode: SortMode,
    kind_filter: KindFilter,
    regex_mode: bool,
    scope_root: Option<String>,
}

/// The state as a mathematical value.
#[verifier::ext_equal]
pub struct DesktopView {
    /// The resident records.
    pub index: IndexView,
    /// The durable index, which is searched in their place.
    pub compact: Option<CompactView>,
    /// The records of a running scan.
    pub scan_index: Option<IndexView>,
    pub hits: Seq<HitView>,
    pub stats: SearchStats,
    pub lanes: Lanes,
    pub scanning: bool,
    pub active_scans: usize,
    pub selected_roots: Seq<Seq<char>>,
    pub scan_roots: Seq<Seq<char>>,
    pub onboarding_complete: bool,
    pub onboarding_scan: bool,
    pub setup_focus: bool,
    /// The resident records are not yet in a durable index.
    pub cache_dirty: bool,
    pub building_cache: bool,
    /// The durable index need not wait for further changes.
    pub cache_settled: bool,
    pub last_generation: u64,
    pub tree: Option<Tree>,
    pub tree_building: bool,
    pub query: Seq<char>,
    pub sort_mode: SortMode,
    pub kind_filter: KindFilter,
    pub regex_mode: bool,
    pub scope_root: Option<Seq<char>>,
}

impl View for Desktop {
    type V = DesktopView;

    closed spec fn view(&self) -> DesktopView {
        DesktopView {
            index: self.index@,
            compact: match self.compact {
                Some(c) => Some(c@),
                None => None,
            },
            scan_index: match self.scan_index {
                Some(i) => Some(i@),
                None => None,
            },
            hits: crate::rank::hit_views(self.hits@),
            stats: self.stats,
            lanes: self.lanes.entries(),
            scanning: self.scanning,
            active_scans: self.active_scans,
            selected_roots: crate::text::strings(self.selected_roots@),
            scan_roots: crate::text::strings(self.scan_roots@),
            onboarding_complete: self.onboarding_complete,
            onboarding_scan: self.onboarding_scan,
            setup_focus: self.setup_focus,
            cache_dirty: self.cache_dirty,
            building_cache: self.building_cache,
            cache_settled: self.cache_settled,
            last_generation: self.last_generation,
            tree: match self.tree {
                Some(t) => Some(t@),
                None => None,
            },
            tree_building: self.tree_building,
            query: self.query@,
            sort_mode: self.sort_mode,
            kind_filter: self.kind_filter,
            regex_mode: self.regex_mode,
            scope_root: match self.scope_root {
                Some(s) => Some(s@),
                None => None,
            },
        }
    }
}

/// No records.
pub open spec fn no_records() -> IndexView {
    IndexView { records: Seq::empty(), generation: 0 }
}

/// A line that only says something.
pub open spec fn note(label: Seq<char>, status: Seq<char>, error: bool) -> LaneView {
    LaneView { label, status, records: 0, ms: 0, error }
}

/// The state with a line.
pub open spec fn with_lane(s: DesktopView, key: Seq<char>, lane: LaneView) -> DesktopView {
    DesktopView { lanes: s.lanes.insert(key, lane), ..s }
}

/// How many records are searched.
pub open spec fn searchable(s: DesktopView) -> nat {
    match s.compact {
        Some(c) => c.record_count as nat,
        None => s.index.records.len(),
    }
}

/// The generation of what is searched.
pub open spec fn data_generation_of(s: DesktopView) -> u64 {
    match s.compact {
        Some(c) => c.generation,
        None => s.index.generation,
    }
}

/// The state once a scan ended without a result.
pub open spec fn abandoned(s: DesktopView) -> DesktopView {
    DesktopView {
        scanning: false,
        active_scans: 0,
        scan_index: None,
        scan_roots: Seq::empty(),
        onboarding_scan: false,
        setup_focus: true,
        ..s
    }
}

/// The records of a batch that lie in the scanned folders.
pub open spec fn in_roots(host: Host, roots: Seq<Seq<char>>, rs: Seq<RecordView>) -> Seq<RecordView>
    decreases rs.len(),
{
    if rs.len() == 0 {
        Seq::empty()
    } else if crate::roots::in_some_root(host, rs.last().path, roots) {
        in_roots(host, roots, rs.drop_last()).push(rs.last())
    } else {
        in_roots(host, roots, rs.drop_last())
    }
}

/// One less, but not less than none.
pub open spec fn one_less(n: usize) -> usize {
    if n > 0 {
        (n - 1) as usize
    } else {
        0
    }
}

/// One more, as far as a machine counts.
pub open spec fn one_more(n: usize) -> usize {
    if n < usize::MAX {
        (n + 1) as usize
    } else {
        n
    }
}

/// Nothing has to follow.
pub open spec fn nothing() -> Effects {
    Effects { requery: false, save: false }
}

/// The state once a scan has ended. What it found takes the place of what was searched
/// where a lane was reached; otherwise the last complete index stays.
pub open spec fn scan_ended(s: DesktopView, mounts: u32, errors: u32, os: Seq<char>) -> (
    DesktopView,
    Effects,
) {
    let ended = DesktopView {
        scanning: false,
        active_scans: 0,
        scan_index: None,
        scan_roots: Seq::empty(),
        ..s
    };
    if mounts == 0 {
        (
            with_lane(
                DesktopView { onboarding_scan: false, setup_focus: true, ..ended },
                "scan"@,
                note(
                    "NATIVE SCAN"@,
                    "no supported native filesystems were discovered on "@ + os,
                    true,
                ),
            ),
            nothing(),
        )
    } else if crate::launch::some_lane_reached(mounts, errors) {
        let save = s.onboarding_scan || !s.onboarding_complete;
        let replaced = DesktopView {
            onboarding_complete: true,
            onboarding_scan: false,
            compact: None,
            index: match s.scan_index {
                Some(i) => i,
                None => no_records(),
            },
            tree: None,
            tree_building: false,
            cache_dirty: true,
            cache_settled: true,
            ..ended
        };
        (
            if errors > 0 {
                with_lane(
                    replaced,
                    "scan"@,
                    note(
                        "PARTIAL INDEX"@,
                        "indexed reachable locations; skipped "@ + crate::text::decimal(
                            errors as nat,
                        ) + " unavailable native lane(s)"@,
                        false,
                    ),
                )
            } else {
                replaced
            },
            Effects { requery: true, save },
        )
    } else {
        (
            with_lane(
                DesktopView { onboarding_scan: false, setup_focus: true, ..ended },
                "scan"@,
                note(
                    "NO REACHABLE LOCATIONS"@,
                    "all "@ + crate::text::decimal(errors as nat)
                        + " unavailable native lane(s) were skipped; keeping the last complete index"@,
                    true,
                ),
            ),
            nothing(),
        )
    }
}

/// The state once a lane began.
pub open spec fn lane_begun(s: DesktopView, mount: MountView) -> DesktopView {
    with_lane(
        DesktopView { active_scans: one_more(s.active_scans), ..s },
        mount.mountpoint,
        note(
            crate::text::uppercase(crate::mounts::label_of(mount.fs)),
            "indexing "@ + mount.mountpoint,
            false,
        ),
    )
}

/// The state once a lane ended.
pub open spec fn lane_ended(
    s: DesktopView,
    mount: MountView,
    status: Seq<char>,
    records: u64,
    ms: u64,
    error: bool,
) -> DesktopView {
    with_lane(
        DesktopView { active_scans: one_less(s.active_scans), ..s },
        mount.mountpoint,
        LaneView {
            label: crate::text::uppercase(crate::mounts::label_of(mount.fs)),
            status,
            records,
            ms,
            error,
        },
    )
}

/// What is said of a live update.
pub open spec fn delta_status(changes: u32, wal_bytes: u64, needs_compaction: bool) -> Seq<char> {
    crate::text::decimal(changes as nat) + " changes \u{b7} "@ + crate::text::decimal(
        wal_bytes as nat,
    ) + " bytes"@ + (if needs_compaction {
        " \u{b7} compaction due"@
    } else {
        ""@
    })
}

/// What a message of the helper makes of the state.
pub open spec fn on_message(s: DesktopView, m: AnswerView, host: Host, os: Seq<char>) -> (
    DesktopView,
    Effects,
) {
    match m {
        AnswerView::Hello { os: far_os, arch, .. } => (
            with_lane(
                s,
                "host"@,
                note(far_os + "/"@ + arch, "native helper online"@, false),
            ),
            nothing(),
        ),
        AnswerView::ScanBegin { mount } => (lane_begun(s, mount), nothing()),
        AnswerView::Records(rs) => (
            match s.scan_index {
                Some(i) => DesktopView {
                    scan_index: Some(
                        IndexView {
                            records: i.records + in_roots(host, s.scan_roots, rs),
                            generation: (i.generation + 1) as u64,
                        },
                    ),
                    ..s
                },
                None => s,
            },
            nothing(),
        ),
        AnswerView::ScanDone { mount, stats } => (
            lane_ended(s, mount, stats.detail, stats.records, stats.wall_ms, false),
            nothing(),
        ),
        AnswerView::ScanError { mount, error } => (
            lane_ended(s, mount, error, 0, 0, true),
            nothing(),
        ),
        AnswerView::ScanComplete { mounts, errors } => scan_ended(s, mounts, errors, os),
        AnswerView::Error(e) => (
            with_lane(abandoned(s), "protocol"@, note("PROTOCOL"@, e, true)),
            nothing(),
        ),
        AnswerView::SearchResult { .. } => (s, nothing()),
        AnswerView::DeltaApplied { changes, wal_bytes, needs_compaction } => (
            with_lane(
                s,
                "delta"@,
                note("LIVE DELTA"@, delta_status(changes, wal_bytes, needs_compaction), false),
            ),
            nothing(),
        ),
    }
}

/// What an event makes of the state, and what has to follow.
pub open spec fn on_event(s: DesktopView, e: EventView, host: Host, os: Seq<char>) -> (
    DesktopView,
    Effects,
) {
    match e {
        EventView::Fatal(e) => (
            with_lane(abandoned(s), "helper"@, note("HELPER"@, e, true)),
            nothing(),
        ),
        EventView::Remote { key, status, error } => (
            with_lane(s, "remote:"@ + key, note("REMOTE/"@ + key, status, error)),
            nothing(),
        ),
        EventView::CompactReady(c) => (
            with_lane(
                DesktopView {
                    last_generation: c.generation,
                    compact: Some(c),
                    index: no_records(),
                    building_cache: false,
                    cache_dirty: false,
                    cache_settled: false,
                    ..s
                },
                "cache"@,
                LaneView {
                    label: "COMPACT MMAP"@,
                    status: "published; idle pages are reclaimable"@,
                    records: c.record_count,
                    ms: 0,
                    error: false,
                },
            ),
            Effects { requery: true, save: false },
        ),
        EventView::CompactFailed(e) => (
            with_lane(
                DesktopView { building_cache: false, cache_dirty: false, ..s },
                "cache"@,
                note("INDEX BUILD"@, e, true),
            ),
            Effects { requery: true, save: false },
        ),
        EventView::TreeReady { generation, model } => (
            DesktopView {
                tree_building: false,
                tree: if generation == data_generation_of(s) {
                    Some(model)
                } else {
                    s.tree
                },
                ..s
            },
            nothing(),
        ),
        EventView::TreeFailed(e) => (
            with_lane(
                DesktopView { tree_building: false, ..s },
                "tree"@,
                note("DISK MAP"@, e, true),
            ),
            nothing(),
        ),
        EventView::Message(m) => on_message(s, m, host, os),
    }
}

fn plain_lane(key: String, label: String, status: String, error: bool) -> (r: Lane)
    ensures
        r.key() == key@,
        r@ == note(label@, status@, error),
{
    Lane { key, label, status, records: 0, ms: 0, error }
}

fn nothing_more() -> (r: Effects)
    ensures
        r == nothing(),
{
    Effects { requery: false, save: false }
}

impl Desktop {
    /// Its parts are sound.
    pub closed spec fn wf(&self) -> bool {
        &&& self.lanes.wf()
        &&& self.compact matches Some(c) ==> c.wf()
        &&& self.tree matches Some(t) ==> t.wf()
    }

    fn put(&mut self, lane: Lane)
        requires
            old(self).wf(),
        ensures
            final(self).wf(),
            final(self)@ == with_lane(old(self)@, lane.key(), lane@),
    {
        self.lanes.insert(lane);
    }

    fn abandon(&mut self)
        requires
            old(self).wf(),
        ensures
            final(self).wf(),
            final(self)@ == abandoned(old(self)@),
    {
        self.scanning = false;
        self.active_scans = 0;
        self.scan_index = None;
        self.scan_roots = Vec::new();
        self.onboarding_scan = false;
        self.setup_focus = true;
        assert(crate::text::strings(self.scan_roots@) =~= Seq::empty());
    }

    /// How many records are searched.
    pub fn index_len(&self) -> (r: u64)
        ensures
            r == searchable(self@),
    {
        match &self.compact {
            Some(c) => c.len(),
            None => self.index.len() as u64,
        }
    }

    /// Whether there is nothing to search.
    pub fn index_is_empty(&self) -> (r: bool)
        ensures
            r == (searchable(self@) == 0),
    {
        self.index_len() == 0
    }

    /// How many records a running scan has found.
    pub fn scan_len(&self) -> (r: u64)
        ensures
            r == match self@.scan_index {
                Some(i) => i.records.len(),
                None => 0,
            },
    {
        match &self.scan_index {
            Some(i) => i.len() as u64,
            None => 0,
        }
    }

    /// The generation of what is searched.
    pub fn data_generation(&self) -> (r: u64)
        ensures
            r == data_generation_of(self@),
    {
        match &self.compact {
            Some(c) => c.generation(),
            None => self.index.generation(),
        }
    }

    /// The hits of the last search.
    pub fn hits(&self) -> (r: &[SearchHit])
        ensures
            crate::rank::hit_views(r@) == self@.hits,
    {
        self.hits.as_slice()
    }

    /// The folders that are searched.
    pub fn roots(&self) -> (r: &[String])
        ensures
            crate::text::strings(r@) == self@.selected_roots,
    {
        self.selected_roots.as_slice()
    }

    /// The lines of the status display, by their keys.
    pub fn status_lanes(&self) -> (r: &[Lane])
        requires
            self.wf(),
        ensures
            crate::pathmap::ascending(crate::pathmap::keys_of(r@)),
            crate::pathmap::entries_of(r@) == self@.lanes,
    {
        self.lanes.as_slice()
    }

    /// What the last search found in all.
    pub fn stats(&self) -> (r: SearchStats)
        ensures
            r == self@.stats,
    {
        self.stats
    }

    /// The generation of the durable index, where one is searched.
    pub fn durable_generation(&self) -> (r: Option<u64>)
        ensures
            r == match self@.compact {
                Some(c) => Some(c.generation),
                None => None::<u64>,
            },
    {
        match &self.compact {
            Some(c) => Some(c.generation()),
            None => None,
        }
    }

    /// The resident records.
    pub fn resident_records(&self) -> (r: &[FileRecord])
        ensures
            crate::types::record_views(r@) == self@.index.records,
    {
        self.index.records()
    }

    /// The hierarchy of folders, where it was built.
    pub fn tree(&self) -> (r: Option<&Hierarchy>)
        requires
            self.wf(),
        ensures
            match r {
                Some(h) => h.wf() && self@.tree == Some(h@),
                None => self@.tree is None,
            },
    {
        self.tree.as_ref()
    }

    /// Whether the folders were chosen and a scan of them has reached something.
    pub fn onboarding_complete(&self) -> (r: bool)
        ensures
            r == self@.onboarding_complete,
    {
        self.onboarding_complete
    }

    /// Whether another batch of records can be counted in the running scan.
    pub fn takes_events(&self) -> (r: bool)
        ensures
            r == (self@.scan_index matches Some(i) ==> i.generation < u64::MAX),
    {
        match &self.scan_index {
            Some(i) => i.generation() < u64::MAX,
            None => true,
        }
    }

    fn take_records(&mut self, records: Vec<FileRecord>, host: Host)
        requires
            old(self).wf(),
            old(self)@.scan_index matches Some(i) ==> i.generation < u64::MAX,
        ensures
            final(self).wf(),
            final(self)@ == on_message(
                old(self)@,
                AnswerView::Records(crate::types::record_views(records@)),
                host,
                Seq::empty(),
            ).0,
    {
        let ghost before = self@;
        let mut taken: Option<Index> = None;
        std::mem::swap(&mut taken, &mut self.scan_index);
        if let Some(index) = taken {
            let mut index = index;
            let kept = keep_in_roots(host, &self.scan_roots, records);
            index.extend(kept);
            self.scan_index = Some(index);
        }
        assert(self@ =~= on_message(
            before,
            AnswerView::Records(crate::types::record_views(records@)),
            host,
            Seq::empty(),
        ).0);
    }

    fn end_scan(&mut self, mounts: u32, errors: u32, os: &str) -> (r: Effects)
        requires
            old(self).wf(),
        ensures
            final(self).wf(),
            (final(self)@, r) == scan_ended(old(self)@, mounts, errors, os@),
    {
        let ghost before = self@;
        self.scanning = false;
        self.active_scans = 0;
        let mut staging: Option<Index> = None;
        std::mem::swap(&mut staging, &mut self.scan_index);
        self.scan_roots = Vec::new();
        assert(crate::text::strings(self.scan_roots@) =~= Seq::empty());
        let count = crate::text::decimal_text(errors as u64);
        if mounts == 0 {
            self.onboarding_scan = false;
            self.setup_focus = true;
            let status = crate::text::joined(
                "no supported native filesystems were discovered on ",
                os,
            );
            self.put(plain_lane("scan".to_owned(), "NATIVE SCAN".to_owned(), status, true));
            assert(self@ =~= scan_ended(before, mounts, errors, os@).0);
            return nothing_more();
        }
        if crate::launch::scan_has_reachable_lane(mounts, errors) {
            let save: bool = self.onboarding_scan || !self.onboarding_complete;
            self.onboarding_complete = true;
            self.onboarding_scan = false;
            self.compact = None;
            self.index = match staging {
                Some(i) => i,
                None => Index::new(),
            };
            self.tree = None;
            self.tree_building = false;
            self.cache_dirty = true;
            self.cache_settled = true;
            if errors > 0 {
                let status = crate::text::joined3(
                    "indexed reachable locations; skipped ",
                    count.as_str(),
                    " unavailable native lane(s)",
                );
                self.put(plain_lane("scan".to_owned(), "PARTIAL INDEX".to_owned(), status, false));
            }
            assert(self@ =~= scan_ended(before, mounts, errors, os@).0);
            return Effects { requery: true, save };
        }
        self.onboarding_scan = false;
        self.setup_focus = true;
        let status = crate::text::joined3(
            "all ",
            count.as_str(),
            " unavailable native lane(s) were skipped; keeping the last complete index",
        );
        self.put(plain_lane("scan".to_owned(), "NO REACHABLE LOCATIONS".to_owned(), status, true));
        assert(self@ =~= scan_ended(before, mounts, errors, os@).0);
        nothing_more()
    }

    fn lane_began(&mut self, mount: MountInfo)
        requires
            old(self).wf(),
        ensures
            final(self).wf(),
            final(self)@ == lane_begun(old(self)@, mount@),
    {
        let ghost before = self@;
        self.active_scans = self.active_scans.saturating_add(1);
        let label = mount.fs.label();
        let status = crate::text::joined("indexing ", mount.mountpoint.as_str());
        let key = mount.mountpoint.clone();
        self.put(plain_lane(key, crate::text::to_uppercase(label.as_str()), status, false));
        assert(self@ =~= lane_begun(before, mount@));
    }

    fn lane_done(&mut self, mount: MountInfo, stats: ScanStats)
        requires
            old(self).wf(),
        ensures
            final(self).wf(),
            final(self)@ == lane_ended(
                old(self)@,
                mount@,
                crate::proto::stats_view(stats).detail,
                stats.records,
                stats.wall_ms,
                false,
            ),
    {
        self.active_scans = self.active_scans.saturating_sub(1);
        let label = mount.fs.label();
        let key = mount.mountpoint.clone();
        let lane = Lane {
            key,
            label: crate::text::to_uppercase(label.as_str()),
            status: stats.detail,
            records: stats.records,
            ms: stats.wall_ms,
            error: false,
        };
        self.put(lane);
    }

    fn lane_failed(&mut self, mount: MountInfo, error: String)
        requires
            old(self).wf(),
        ensures
            final(self).wf(),
            final(self)@ == lane_ended(old(self)@, mount@, error@, 0, 0, true),
    {
        self.active_scans = self.active_scans.saturating_sub(1);
        let label = mount.fs.label();
        let key = mount.mountpoint.clone();
        self.put(plain_lane(key, crate::text::to_uppercase(label.as_str()), error, true));
    }

    fn delta_applied(&mut self, changes: u32, wal_bytes: u64, needs_compaction: bool)
        requires
            old(self).wf(),
        ensures
            final(self).wf(),
            final(self)@ == with_lane(
                old(self)@,
                "delta"@,
                note("LIVE DELTA"@, delta_status(changes, wal_bytes, needs_compaction), false),
            ),
    {
        let a = crate::text::decimal_text(changes as u64);
        let b = crate::text::decimal_text(wal_bytes);
        let head = crate::text::joined3(a.as_str(), " changes \u{b7} ", b.as_str());
        let tail = if needs_compaction {
            " \u{b7} compaction due"
        } else {
            ""
        };
        let status = crate::text::joined3(head.as_str(), " bytes", tail);
        self.put(plain_lane("delta".to_owned(), "LIVE DELTA".to_owned(), status, false));
    }

    #[verifier::rlimit(60)]
    fn take_message(&mut self, m: HelperMsg, host: Host, os: &str) -> (r: Effects)
        requires
            old(self).wf(),
            old(self)@.scan_index matches Some(i) ==> i.generation < u64::MAX,
        ensures
            final(self).wf(),
            (final(self)@, r) == on_message(old(self)@, m@, host, os@),
    {
        match m {
            HelperMsg::Hello { os: far_os, arch, .. } => {
                let label = crate::text::joined3(far_os.as_str(), "/", arch.as_str());
                self.put(
                    plain_lane("host".to_owned(), label, "native helper online".to_owned(), false),
                );
                nothing_more()
            },
            HelperMsg::ScanBegin { mount } => {
                self.lane_began(mount);
                nothing_more()
            },
            HelperMsg::Records(records) => {
                self.take_records(records, host);
                nothing_more()
            },
            HelperMsg::ScanDone { mount, stats } => {
                self.lane_done(mount, stats);
                nothing_more()
            },
            HelperMsg::ScanError { mount, error } => {
                self.lane_failed(mount, error);
                nothing_more()
            },
            HelperMsg::ScanComplete { mounts, errors } => self.end_scan(mounts, errors, os),
            HelperMsg::Error(e) => {
                self.abandon();
                self.put(plain_lane("protocol".to_owned(), "PROTOCOL".to_owned(), e, true));
                nothing_more()
            },
            HelperMsg::SearchResult { .. } => nothing_more(),
            HelperMsg::DeltaApplied { changes, wal_bytes, needs_compaction } => {
                self.delta_applied(changes, wal_bytes, needs_compaction);
                nothing_more()
            },
        }
    }

    /// Takes one event.
    #[verifier::rlimit(60)]
    pub fn take_event(&mut self, e: Event, host: Host, os: &str) -> (r: Effects)
        requires
            old(self).wf(),
            old(self)@.scan_index matches Some(i) ==> i.generation < u64::MAX,
            e matches Event::CompactReady(c) ==> c.wf(),
            e matches Event::TreeReady { model, .. } ==> model.wf(),
        ensures
            final(self).wf(),
            (final(self)@, r) == on_event(old(self)@, e@, host, os@),
    {
        let ghost before = self@;
        match e {
            Event::Fatal(t) => {
                self.abandon();
                self.put(plain_lane("helper".to_owned(), "HELPER".to_owned(), t, true));
                nothing_more()
            },
            Event::Remote { key, status, error } => {
                let k = crate::text::joined("remote:", key.as_str());
                let label = crate::text::joined("REMOTE/", key.as_str());
                self.put(plain_lane(k, label, status, error));
                nothing_more()
            },
            Event::CompactReady(c) => {
                let count: u64 = c.len();
                self.last_generation = c.generation();
                self.compact = Some(c);
                self.index = Index::new();
                self.building_cache = false;
                self.cache_dirty = false;
                self.cache_settled = false;
                let lane = Lane {
                    key: "cache".to_owned(),
                    label: "COMPACT MMAP".to_owned(),
                    status: "published; idle pages are reclaimable".to_owned(),
                    records: count,
                    ms: 0,
                    error: false,
                };
                self.put(lane);
                assert(self@ =~= on_event(before, e@, host, os@).0);
                Effects { requery: true, save: false }
            },
            Event::CompactFailed(t) => {
                self.building_cache = false;
                self.cache_dirty = false;
                self.put(plain_lane("cache".to_owned(), "INDEX BUILD".to_owned(), t, true));
                assert(self@ =~= on_event(before, e@, host, os@).0);
                Effects { requery: true, save: false }
            },
            Event::TreeReady { generation, model } => {
                self.tree_building = false;
                if generation == self.data_generation() {
                    self.tree = Some(model);
                }
                assert(self@ =~= on_event(before, e@, host, os@).0);
                nothing_more()
            },
            Event::TreeFailed(t) => {
                self.tree_building = false;
                self.put(plain_lane("tree".to_owned(), "DISK MAP".to_owned(), t, true));
                nothing_more()
            },
            Event::Message(m) => self.take_message(m, host, os),
        }
    }
}

/// Keeps the records that lie in some folder.
pub fn keep_in_roots(host: Host, roots: &Vec<String>, records: Vec<FileRecord>) -> (r: Vec<FileRecord>)
    ensures
        crate::types::record_views(r@) == in_roots(
            host,
            crate::text::strings(roots@),
            crate::types::record_views(records@),
        ),
{
    let ghost views = crate::types::record_views(records@);
    let ghost rts = crate::text::strings(roots@);
    let mut out: Vec<FileRecord> = Vec::new();
    let total: usize = records.len();
    let mut i: usize = 0;
    proof {
        assert(views.take(0) =~= Seq::empty());
        assert(crate::types::record_views(out@) =~= Seq::empty());
    }
    for rec in it: records
        invariant
            it.seq() == records@,
            i == it.index(),
            i <= total == records@.len(),
            views == crate::types::record_views(records@),
            rts == crate::text::strings(roots@),
            crate::types::record_views(out@) == in_roots(host, rts, views.take(i as int)),
    {
        let ghost had = crate::types::record_views(out@);
        let ghost v = rec@;
        proof {
            assert(views[i as int] == v);
            assert(views.take(i + 1).drop_last() =~= views.take(i as int));
        }
        if crate::roots::record_in_roots(host, rec.path.as_str(), roots) {
            out.push(rec);
            assert(crate::types::record_views(out@) =~= had.push(v));
        }
        i = i + 1;
    }
    assert(views.take(i as int) =~= views);
    out
}

/// A failed or unreachable scan leaves what is searched as it was.
pub proof fn law_failed_scans_keep_the_last_index(
    s: DesktopView,
    e: EventView,
    host: Host,
    os: Seq<char>,
)
    requires
        ({
            ||| e is Fatal
            ||| e matches EventView::Message(AnswerView::Error(_))
            ||| e matches EventView::Message(AnswerView::ScanError { .. })
            ||| e matches EventView::Message(AnswerView::Records(_))
            ||| (e matches EventView::Message(AnswerView::ScanComplete { mounts, errors }) && (mounts
                == 0 || errors >= mounts))
        }),
    ensures
        on_event(s, e, host, os).0.index == s.index,
        on_event(s, e, host, os).0.compact == s.compact,
{
}

/// A scan that reached a lane replaces what is searched, even by nothing.
pub proof fn law_reached_scans_replace_the_index(
    s: DesktopView,
    staged: IndexView,
    mounts: u32,
    errors: u32,
    os: Seq<char>,
)
    requires
        s.scan_index == Some(staged),
        crate::launch::some_lane_reached(mounts, errors),
    ensures
        scan_ended(s, mounts, errors, os).0.index == staged,
        scan_ended(s, mounts, errors, os).0.compact is None,
        scan_ended(s, mounts, errors, os).0.onboarding_complete,
        scan_ended(s, mounts, errors, os).1.requery,
{
}

// ---------------------------------------------------------------------------
// Between frames

/// What follows the events of a frame.
pub enum FrameEnd {
    Nothing,
    /// Build a durable index and the hierarchy of these records, of this generation.
    Build { records: Vec<FileRecord>, generation: u64 },
}

/// The state after the events of a frame: a new generation drops the hierarchy.
pub open spec fn caught_up(s: DesktopView) -> DesktopView {
    if data_generation_of(s) != s.last_generation {
        DesktopView { last_generation: data_generation_of(s), tree: None, ..s }
    } else {
        s
    }
}

/// The resident records are due to become a durable index. `rested` says that the last one
/// was published more than two seconds ago.
pub open spec fn build_due(s: DesktopView, rested: bool) -> bool {
    s.cache_dirty && !s.building_cache && s.active_scans == 0 && (s.cache_settled || rested)
}

/// The state while a durable index is built.
pub open spec fn building(s: DesktopView) -> DesktopView {
    with_lane(
        DesktopView { building_cache: true, tree_building: true, ..s },
        "cache"@,
        LaneView {
            label: "COMPACT INDEX"@,
            status: "building compressed search blocks"@,
            records: s.index.records.len() as u64,
            ms: 0,
            error: false,
        },
    )
}

impl Desktop {
    /// Follows up on the events of a frame; says whether to search again.
    pub fn catch_up(&mut self) -> (requery: bool)
        requires
            old(self).wf(),
        ensures
            final(self).wf(),
            final(self)@ == caught_up(old(self)@),
            requery == (data_generation_of(old(self)@) != old(self)@.last_generation),
    {
        let generation: u64 = self.data_generation();
        if generation != self.last_generation {
            self.last_generation = generation;
            self.tree = None;
            return true;
        }
        false
    }

    /// Starts building a durable index where that is due.
    pub fn end_frame(&mut self, rested: bool) -> (r: FrameEnd)
        requires
            old(self).wf(),
        ensures
            final(self).wf(),
            match r {
                FrameEnd::Nothing => !build_due(old(self)@, rested) && final(self)@ == old(self)@,
                FrameEnd::Build { records, generation } => build_due(old(self)@, rested)
                    && final(self)@ == building(old(self)@) && crate::types::record_views(records@)
                    == old(self)@.index.records && generation == data_generation_of(old(self)@),
            },
    {
        if !(self.cache_dirty && !self.building_cache && self.active_scans == 0 && (
        self.cache_settled || rested)) {
            return FrameEnd::Nothing;
        }
        let records = copy_records(self.index.records());
        let generation: u64 = self.data_generation();
        self.building_cache = true;
        self.tree_building = true;
        let lane = Lane {
            key: "cache".to_owned(),
            label: "COMPACT INDEX".to_owned(),
            status: "building compressed search blocks".to_owned(),
            records: records.len() as u64,
            ms: 0,
            error: false,
        };
        self.put(lane);
        FrameEnd::Build { records, generation }
    }

    /// Asks for the hierarchy where it is wanted and not there: gives the generation that it
    /// is asked of.
    pub fn request_tree_model(&mut self) -> (r: Option<u64>)
        requires
            old(self).wf(),
        ensures
            final(self).wf(),
            ({
                let s = old(self)@;
                let wanted = !s.tree_building && s.tree is None && searchable(s) > 0;
                &&& r == if wanted {
                    Some(data_generation_of(s))
                } else {
                    None::<u64>
                }
                &&& final(self)@ == if wanted {
                    DesktopView { tree_building: true, ..s }
                } else {
                    s
                }
            }),
    {
        if self.tree_building || self.tree.is_some() || self.index_is_empty() {
            return None;
        }
        self.tree_building = true;
        Some(self.data_generation())
    }
}

fn copy_records(rs: &[FileRecord]) -> (r: Vec<FileRecord>)
    ensures
        crate::types::record_views(r@) == crate::types::record_views(rs@),
        r@.len() == rs@.len(),
{
    let mut out: Vec<FileRecord> = Vec::new();
    let mut i: usize = 0;
    while i < rs.len()
        invariant
            i <= rs@.len(),
            out@.len() == i,
            forall|k: int| 0 <= k < i ==> (#[trigger] out@[k])@ == rs@[k]@,
        decreases rs@.len() - i,
    {
        out.push(rs[i].clone());
        i += 1;
    }
    assert(crate::types::record_views(out@) =~= crate::types::record_views(rs@));
    out
}

// ---------------------------------------------------------------------------
// Scans and folders

/// What asking for a scan leads to.
pub enum ScanStart {
    /// A scan or a build runs: nothing.
    Busy,
    /// No folders are chosen: everything is dropped, and there is a search to repeat.
    Cleared,
    /// The folders lie on no mount that can be scanned.
    NoMounts,
    /// Start the helper with these mounts and folders.
    Launch { mounts: Vec<MountInfo>, roots: Vec<String> },
}

/// The mounts that the chosen folders lie on.
pub open spec fn chosen_mounts(host: Host, roots: Seq<Seq<char>>, table: Seq<MountView>) -> Seq<
    MountView,
> {
    if host == Host::Windows {
        crate::roots::drives_of(roots)
    } else {
        crate::roots::mounts_of(host, roots, table)
    }
}

/// What asking for a scan makes of the state.
pub open spec fn scan_begun(
    s: DesktopView,
    host: Host,
    table: Seq<MountView>,
    r: ScanStart,
    after: DesktopView,
) -> bool {
    let ms = chosen_mounts(host, s.selected_roots, table);
    if s.scanning || s.building_cache {
        r is Busy && after == s
    } else if s.selected_roots.len() == 0 {
        r is Cleared && after == (DesktopView {
            compact: None,
            index: no_records(),
            tree: None,
            tree_building: false,
            cache_dirty: true,
            cache_settled: true,
            lanes: Map::<Seq<char>, LaneView>::empty().insert(
                "locations"@,
                note("SEARCH LOCATIONS"@, "no folders selected"@, false),
            ),
            ..s
        })
    } else if ms.len() == 0 {
        r is NoMounts && after == (DesktopView {
            scan_index: None,
            scan_roots: Seq::empty(),
            scanning: false,
            active_scans: 0,
            cache_dirty: false,
            onboarding_scan: false,
            lanes: Map::<Seq<char>, LaneView>::empty().insert(
                "locations"@,
                note(
                    "SEARCH LOCATIONS"@,
                    "selected folders are not on a supported local native filesystem"@,
                    true,
                ),
            ),
            ..s
        })
    } else {
        &&& r matches ScanStart::Launch { mounts, roots }
        &&& crate::mounts::mount_views(mounts@) == ms
        &&& crate::text::strings(roots@) == s.selected_roots
        &&& after == (DesktopView {
            scan_index: Some(no_records()),
            scan_roots: s.selected_roots,
            scanning: true,
            active_scans: 0,
            cache_dirty: false,
            lanes: Map::empty(),
            ..s
        })
    }
}

fn copy_texts(v: &Vec<String>) -> (r: Vec<String>)
    ensures
        crate::text::strings(r@) == crate::text::strings(v@),
{
    let mut out: Vec<String> = Vec::new();
    let mut i: usize = 0;
    while i < v.len()
        invariant
            i <= v@.len(),
            out@.len() == i,
            forall|k: int| 0 <= k < i ==> (#[trigger] out@[k])@ == v@[k]@,
        decreases v@.len() - i,
    {
        out.push(v[i].clone());
        i += 1;
    }
    assert(crate::text::strings(out@) =~= crate::text::strings(v@));
    out
}

impl Desktop {
    /// Begins a scan of the chosen folders. What is searched stays until a lane delivers.
    pub fn begin_scan(&mut self, host: Host, table: &Vec<MountInfo>) -> (r: ScanStart)
        requires
            old(self).wf(),
        ensures
            final(self).wf(),
            scan_begun(
                old(self)@,
                host,
                crate::mounts::mount_views(table@),
                r,
                final(self)@,
            ),
    {
        if self.scanning || self.building_cache {
            return ScanStart::Busy;
        }
        if self.selected_roots.len() == 0 {
            self.compact = None;
            self.index = Index::new();
            self.tree = None;
            self.tree_building = false;
            self.cache_dirty = true;
            self.cache_settled = true;
            self.lanes = PathMap::new();
            self.put(
                plain_lane(
                    "locations".to_owned(),
                    "SEARCH LOCATIONS".to_owned(),
                    "no folders selected".to_owned(),
                    false,
                ),
            );
            return ScanStart::Cleared;
        }
        let roots = copy_texts(&self.selected_roots);
        self.active_scans = 0;
        self.cache_dirty = false;
        self.lanes = PathMap::new();
        let mounts = crate::roots::selected_scan_mounts(host, &roots, table);
        assert(crate::mounts::mount_views(mounts@).len() == mounts@.len());
        if mounts.len() == 0 {
            self.scanning = false;
            self.scan_index = None;
            self.scan_roots = Vec::new();
            self.onboarding_scan = false;
            assert(crate::text::strings(self.scan_roots@) =~= Seq::empty());
            self.put(
                plain_lane(
                    "locations".to_owned(),
                    "SEARCH LOCATIONS".to_owned(),
                    "selected folders are not on a supported local native filesystem".to_owned(),
                    true,
                ),
            );
            return ScanStart::NoMounts;
        }
        self.scan_index = Some(Index::new());
        self.scan_roots = copy_texts(&roots);
        self.scanning = true;
        ScanStart::Launch { mounts, roots }
    }

    /// Notes that the settings could not be saved, and why.
    pub fn note_unsaved_settings(&mut self, error: String)
        requires
            old(self).wf(),
        ensures
            final(self).wf(),
            final(self)@ == with_lane(
                old(self)@,
                "settings"@,
                note("SETTINGS"@, error@, true),
            ),
    {
        self.put(plain_lane("settings".to_owned(), "SETTINGS".to_owned(), error, true));
    }

    /// Notes that the program could not be started again as administrator, and why.
    pub fn note_refused_elevation(&mut self, error: String)
        requires
            old(self).wf(),
        ensures
            final(self).wf(),
            final(self)@ == with_lane(
                old(self)@,
                "elevation"@,
                note("WINDOWS ELEVATION"@, error@, true),
            ),
    {
        self.put(plain_lane("elevation".to_owned(), "WINDOWS ELEVATION".to_owned(), error, true));
    }

    /// Takes the choice of folders of the setup; says whether to save it and scan. The setup
    /// stays until a lane has delivered.
    pub fn complete_onboarding(&mut self) -> (go_on: bool)
        requires
            old(self).wf(),
        ensures
            final(self).wf(),
            go_on == (old(self)@.selected_roots.len() > 0),
            final(self)@ == if go_on {
                DesktopView { onboarding_complete: false, onboarding_scan: true, ..old(self)@ }
            } else {
                old(self)@
            },
    {
        if self.selected_roots.len() == 0 {
            return false;
        }
        self.onboarding_complete = false;
        self.onboarding_scan = true;
        true
    }

    /// Adds a folder, which is resolved already; says whether to save, search again and scan.
    /// One that is not absolute or is there already changes nothing.
    pub fn add_root(&mut self, host: Host, root: String) -> (rescan: bool)
        requires
            old(self).wf(),
        ensures
            final(self).wf(),
            ({
                let s = old(self)@;
                let k = crate::roots::kept_root(host, root@);
                if crate::host::host_absolute(host, k) && !crate::roots::has_root(
                    host,
                    s.selected_roots,
                    k,
                ) {
                    &&& rescan == s.onboarding_complete
                    &&& crate::roots::in_root_order(
                        host,
                        s.selected_roots.push(k),
                        final(self)@.selected_roots,
                    )
                    &&& final(self)@ == (DesktopView {
                        selected_roots: final(self)@.selected_roots,
                        scope_root: None,
                        setup_focus: true,
                        ..s
                    })
                } else {
                    !rescan && final(self)@ == s
                }
            }),
    {
        let ghost before = self@;
        let k = crate::roots::normalize_selected_root(host, root.as_str());
        let ghost kv = k@;
        let chars = crate::text::chars_of(k.as_str());
        if !crate::host::is_absolute(host, chars.as_slice()) || crate::roots::root_listed(
            host,
            &self.selected_roots,
            k.as_str(),
        ) {
            return false;
        }
        let mut taken: Vec<String> = Vec::new();
        std::mem::swap(&mut taken, &mut self.selected_roots);
        taken.push(k);
        assert(crate::text::strings(taken@) =~= before.selected_roots.push(kv));
        self.selected_roots = crate::roots::sort_roots(host, taken);
        self.scope_root = None;
        self.setup_focus = true;
        self.onboarding_complete
    }

    /// Removes a folder; says whether one was removed, so that the settings are saved and
    /// the search repeated, and whether to scan.
    pub fn remove_root(&mut self, position: usize) -> (r: (bool, bool))
        requires
            old(self).wf(),
        ensures
            final(self).wf(),
            ({
                let s = old(self)@;
                if position < s.selected_roots.len() {
                    r == (true, s.onboarding_complete) && final(self)@ == (DesktopView {
                        selected_roots: s.selected_roots.remove(position as int),
                        scope_root: None,
                        ..s
                    })
                } else {
                    r == (false, false) && final(self)@ == s
                }
            }),
    {
        let ghost before = self@;
        if position >= self.selected_roots.len() {
            return (false, false);
        }
        self.selected_roots.remove(position);
        assert(crate::text::strings(self.selected_roots@) =~= before.selected_roots.remove(
            position as int,
        ));
        self.scope_root = None;
        (true, self.onboarding_complete)
    }
}

// ---------------------------------------------------------------------------
// Searching

/// What lies on disk in the place of the durable index that is open.
pub enum OnDisk {
    /// The same one, or none is open.
    Same,
    /// Another one, which is sound.
    Replaced(CompactIndex),
    /// Another one, which cannot be used.
    Rejected(String),
    /// It cannot be looked at.
    Unavailable(String),
}

/// The query of the window.
pub open spec fn window_query(s: DesktopView, host: Host) -> QueryView {
    let q = crate::query::parsed_query(
        if s.regex_mode {
            ""@
        } else {
            s.query
        },
    );
    QueryView {
        limit: WINDOW_LIMIT,
        sort: match s.sort_mode {
            SortMode::Modified => SortKey::MtimeDesc,
            SortMode::Name => SortKey::NameAsc,
            SortMode::Size => SortKey::SizeDesc,
            SortMode::Path => SortKey::PathAsc,
        },
        kinds: match s.kind_filter {
            KindFilter::All => Seq::empty(),
            KindFilter::Files => seq![FileKind::File, FileKind::Symlink],
            KindFilter::Folders => seq![FileKind::Dir],
        },
        scope_roots: if s.scope_root is Some && crate::roots::in_some_root(
            host,
            s.scope_root->0,
            s.selected_roots,
        ) {
            q.scope_roots.push(s.scope_root->0)
        } else {
            q.scope_roots + s.selected_roots
        },
        scope_case_sensitive: host.cased(),
        ..q
    }
}

/// What searching makes of the state, once it is known which index is searched.
pub open spec fn searched_with(s: DesktopView, host: Host, after: DesktopView) -> bool {
    let q = window_query(s, host);
    &&& after == (DesktopView { hits: after.hits, stats: after.stats, ..s })
    &&& match s.compact {
        Some(c) => {
            ||| crate::compact_index::search_answer(
                c,
                crate::delta::no_changes(),
                q,
                after.hits,
                after.stats,
            )
            ||| crate::compact_index::search_error(c, crate::delta::no_changes(), q) is Some
                && after == s
        },
        None => {
            &&& crate::index::answers(
                crate::index::index_ranking(q),
                q.limit,
                crate::index::hits_among(q, s.index.records),
                after.hits,
            )
            &&& after.stats.scanned == s.index.records.len()
            &&& after.stats.matched == crate::index::hits_among(q, s.index.records).len()
        },
    }
}

/// What searching again makes of the state.
pub open spec fn requeried(s: DesktopView, disk: OnDisk, host: Host, after: DesktopView) -> bool {
    let unusable = |why: Seq<char>|
        with_lane(
            DesktopView { hits: Seq::empty(), ..s },
            "index"@,
            note("Durable index"@, why, true),
        );
    if s.selected_roots.len() == 0 && s.onboarding_complete {
        after == (DesktopView {
            hits: Seq::empty(),
            stats: SearchStats { scanned: 0, matched: 0, wall_us: 0 },
            ..s
        })
    } else if s.compact is None {
        searched_with(s, host, after)
    } else {
        match disk {
            OnDisk::Same => searched_with(s, host, after),
            OnDisk::Replaced(c) => searched_with(
                DesktopView { compact: Some(c@), ..s },
                host,
                after,
            ),
            OnDisk::Rejected(e) => after == unusable("replacement rejected: "@ + e@),
            OnDisk::Unavailable(e) => after == unusable("unavailable: "@ + e@),
        }
    }
}

impl Desktop {
    fn make_query(&self, host: Host) -> (q: Query)
        ensures
            q@ == window_query(self@, host),
    {
        let text = if self.regex_mode {
            ""
        } else {
            self.query.as_str()
        };
        let mut q = Query::parse(text);
        q.limit = WINDOW_LIMIT;
        q.sort = match self.sort_mode {
            SortMode::Modified => SortKey::MtimeDesc,
            SortMode::Name => SortKey::NameAsc,
            SortMode::Size => SortKey::SizeDesc,
            SortMode::Path => SortKey::PathAsc,
        };
        let mut kinds: Vec<FileKind> = Vec::new();
        match self.kind_filter {
            KindFilter::All => {},
            KindFilter::Files => {
                kinds.push(FileKind::File);
                kinds.push(FileKind::Symlink);
            },
            KindFilter::Folders => {
                kinds.push(FileKind::Dir);
            },
        }
        assert(kinds@ =~= window_query(self@, host).kinds);
        q.kinds = kinds;
        let mut scoped: bool = false;
        if let Some(scope) = &self.scope_root {
            if crate::roots::record_in_roots(host, scope.as_str(), &self.selected_roots) {
                scoped = true;
                let ghost had = crate::text::strings(q.scope_roots@);
                q.scope_roots.push(scope.clone());
                assert(crate::text::strings(q.scope_roots@) =~= had.push(scope@));
            }
        }
        if !scoped {
            let ghost start = crate::text::strings(q.scope_roots@);
            let ghost all = self@.selected_roots;
            let ghost rest = q@;
            let mut i: usize = 0;
            assert(start + all.take(0) =~= start);
            while i < self.selected_roots.len()
                invariant
                    i <= self.selected_roots@.len(),
                    all == crate::text::strings(self.selected_roots@),
                    crate::text::strings(q.scope_roots@) == start + all.take(i as int),
                    q@ == (QueryView { scope_roots: q@.scope_roots, ..rest }),
                decreases self.selected_roots@.len() - i,
            {
                let ghost had = crate::text::strings(q.scope_roots@);
                q.scope_roots.push(self.selected_roots[i].clone());
                proof {
                    assert(all[i as int] == self.selected_roots@[i as int]@);
                    assert(crate::text::strings(q.scope_roots@) =~= had.push(all[i as int]));
                    assert(start + all.take(i + 1) =~= (start + all.take(i as int)).push(
                        all[i as int],
                    ));
                }
                i += 1;
            }
            assert(all.take(i as int) =~= all);
        }
        q.scope_case_sensitive = host.case_sensitive();
        assert(q@ =~= window_query(self@, host));
        q
    }

    fn search_now(&mut self, host: Host)
        requires
            old(self).wf(),
        ensures
            final(self).wf(),
            searched_with(old(self)@, host, final(self)@),
    {
        let q = self.make_query(host);
        let ghost before = self@;
        let found: Option<(Vec<SearchHit>, SearchStats)> = match &self.compact {
            Some(c) => match c.search(&q) {
                Ok(r) => Some(r),
                Err(_) => None,
            },
            None => Some(self.index.search(&q)),
        };
        if let Some((hits, stats)) = found {
            self.hits = hits;
            self.stats = stats;
        }
        assert(self@ =~= DesktopView { hits: self@.hits, stats: self@.stats, ..before });
    }

    /// Searches again. `disk` says what lies in the place of the durable index.
    #[verifier::rlimit(60)]
    pub fn requery(&mut self, disk: OnDisk, host: Host)
        requires
            old(self).wf(),
            disk matches OnDisk::Replaced(c) ==> c.wf(),
        ensures
            final(self).wf(),
            requeried(old(self)@, disk, host, final(self)@),
    {
        if self.selected_roots.len() == 0 && self.onboarding_complete {
            self.hits = Vec::new();
            self.stats = SearchStats { scanned: 0, matched: 0, wall_us: 0 };
            assert(crate::rank::hit_views(self.hits@) =~= Seq::empty());
            return;
        }
        if self.compact.is_some() {
            match disk {
                OnDisk::Same => {},
                OnDisk::Replaced(c) => {
                    self.compact = Some(c);
                },
                OnDisk::Rejected(e) => {
                    self.hits = Vec::new();
                    assert(crate::rank::hit_views(self.hits@) =~= Seq::empty());
                    let status = crate::text::joined("replacement rejected: ", e.as_str());
                    self.put(
                        plain_lane("index".to_owned(), "Durable index".to_owned(), status, true),
                    );
                    return;
                },
                OnDisk::Unavailable(e) => {
                    self.hits = Vec::new();
                    assert(crate::rank::hit_views(self.hits@) =~= Seq::empty());
                    let status = crate::text::joined("unavailable: ", e.as_str());
                    self.put(
                        plain_lane("index".to_owned(), "Durable index".to_owned(), status, true),
                    );
                    return;
                },
            }
        }
        self.search_now(host);
    }
}

/// The state with another search in its fields.
pub open spec fn asking(
    s: DesktopView,
    query: Seq<char>,
    sort_mode: SortMode,
    kind_filter: KindFilter,
    regex_mode: bool,
    scope_root: Option<Seq<char>>,
) -> DesktopView {
    DesktopView { query, sort_mode, kind_filter, regex_mode, scope_root, ..s }
}

impl Desktop {
    /// Takes what was typed and chosen. A search has to follow.
    pub fn ask(
        &mut self,
        query: String,
        sort_mode: SortMode,
        kind_filter: KindFilter,
        regex_mode: bool,
        scope_root: Option<String>,
    )
        requires
            old(self).wf(),
        ensures
            final(self).wf(),
            final(self)@ == asking(
                old(self)@,
                query@,
                sort_mode,
                kind_filter,
                regex_mode,
                match scope_root {
                    Some(s) => Some(s@),
                    None => None,
                },
            ),
    {
        self.query = query;
        self.sort_mode = sort_mode;
        self.kind_filter = kind_filter;
        self.regex_mode = regex_mode;
        self.scope_root = scope_root;
    }
}

/// Whatever is typed, the window only searches the chosen folders.
pub proof fn law_window_queries_stay_in_the_chosen_folders(s: DesktopView, host: Host, i: int)
    requires
        0 <= i < window_query(s, host).scope_roots.len(),
    ensures
        s.selected_roots.contains(window_query(s, host).scope_roots[i])
            || crate::roots::in_some_root(
            host,
            window_query(s, host).scope_roots[i],
            s.selected_roots,
        ),
{
    crate::query::law_no_text_sets_the_scope(
        if s.regex_mode {
            ""@
        } else {
            s.query
        },
    );
    let q = window_query(s, host);
    if s.scope_root is Some && crate::roots::in_some_root(host, s.scope_root->0, s.selected_roots) {
    } else {
        assert(q.scope_roots =~= s.selected_roots);
    }
}

// ---------------------------------------------------------------------------
// What the window shows of its state

/// What the window has to say.
#[derive(Debug, Clone, Copy, PartialEq, Eq, Structural)]
pub enum RuntimeState {
    Ready,
    FirstRun,
    IndexingInitial,
    IndexingBackground,
    Permission,
    Stale,
}

/// Some line reports an error.
pub open spec fn any_error(l: Lanes) -> bool {
    exists|k: Seq<char>| #[trigger] l.contains_key(k) && l[k].error
}

/// A line about the index or the cache reports an error.
pub open spec fn index_error(l: Lanes) -> bool {
    exists|k: Seq<char>| #[trigger]
        l.contains_key(k) && l[k].error && (crate::text::first_occurrence(k, "index"@) is Some
            || crate::text::first_occurrence(k, "cache"@) is Some)
}

/// What the window has to say of its state.
pub open spec fn state_of(s: DesktopView) -> RuntimeState {
    if s.scanning || s.building_cache {
        if searchable(s) > 0 {
            RuntimeState::IndexingBackground
        } else {
            RuntimeState::IndexingInitial
        }
    } else if index_error(s.lanes) && searchable(s) > 0 {
        RuntimeState::Stale
    } else if any_error(s.lanes) {
        RuntimeState::Permission
    } else if searchable(s) == 0 {
        RuntimeState::FirstRun
    } else {
        RuntimeState::Ready
    }
}

/// The state that a setting asks to be shown.
pub open spec fn forced_state(s: DesktopView, setting: Option<Seq<char>>) -> Option<RuntimeState> {
    match setting {
        None => None,
        Some(t) => {
            let low = crate::text::ascii_lower_all(t);
            if low == "first-run"@ {
                Some(RuntimeState::FirstRun)
            } else if low == "indexing"@ {
                Some(
                    if searchable(s) == 0 {
                        RuntimeState::IndexingInitial
                    } else {
                        RuntimeState::IndexingBackground
                    },
                )
            } else if low == "permission"@ {
                Some(RuntimeState::Permission)
            } else if low == "stale"@ {
                Some(RuntimeState::Stale)
            } else {
                None
            }
        },
    }
}

impl Desktop {
    /// What the window has to say. `forced` is a setting that asks for one of the states.
    pub fn runtime_state(&self, forced: Option<&str>) -> (r: RuntimeState)
        requires
            self.wf(),
        ensures
            r == match forced_state(
                self@,
                match forced {
                    Some(t) => Some(t@),
                    None => None,
                },
            ) {
                Some(x) => x,
                None => state_of(self@),
            },
    {
        let empty: bool = self.index_is_empty();
        if let Some(t) = forced {
            let chars = crate::text::chars_of(t);
            let low = crate::text::lowered(chars.as_slice());
            let text = crate::text::string_of(low.as_slice());
            if crate::text::same_text(text.as_str(), "first-run") {
                return RuntimeState::FirstRun;
            }
            if crate::text::same_text(text.as_str(), "indexing") {
                return if empty {
                    RuntimeState::IndexingInitial
                } else {
                    RuntimeState::IndexingBackground
                };
            }
            if crate::text::same_text(text.as_str(), "permission") {
                return RuntimeState::Permission;
            }
            if crate::text::same_text(text.as_str(), "stale") {
                return RuntimeState::Stale;
            }
        }
        if self.scanning || self.building_cache {
            return if empty {
                RuntimeState::IndexingInitial
            } else {
                RuntimeState::IndexingBackground
            };
        }
        let (error, stale): (bool, bool) = lane_errors(&self.lanes);
        if stale && !empty {
            RuntimeState::Stale
        } else if error {
            RuntimeState::Permission
        } else if empty {
            RuntimeState::FirstRun
        } else {
            RuntimeState::Ready
        }
    }
}

fn lane_errors(lanes: &PathMap<Lane>) -> (r: (bool, bool))
    requires
        lanes.wf(),
    ensures
        r.0 == any_error(lanes.entries()),
        r.1 == index_error(lanes.entries()),
{
    let items = lanes.as_slice();
    let ghost m = lanes.entries();
    let ghost keys = crate::pathmap::keys_of(items@);
    let mut error: bool = false;
    let mut stale: bool = false;
    let mut i: usize = 0;
    while i < items.len()
        invariant
            i <= items@.len(),
            items@ == lanes.items(),
            lanes.wf(),
            m == lanes.entries(),
            keys == crate::pathmap::keys_of(items@),
            error ==> any_error(m),
            stale ==> index_error(m),
            !error ==> forall|k: int| 0 <= k < i ==> !(#[trigger] items@[k]).error,
            !stale ==> forall|k: int|
                0 <= k < i ==> !(#[trigger] items@[k]).error || (crate::text::first_occurrence(
                    items@[k].key@,
                    "index"@,
                ) is None && crate::text::first_occurrence(items@[k].key@, "cache"@) is None),
        decreases items@.len() - i,
    {
        let lane = &items[i];
        proof {
            crate::pathmap::lemma_key_position(items@, i as int);
            assert(m.contains_key(lane.key@));
            assert(m[lane.key@] == lane@);
        }
        if lane.error {
            error = true;
            let chars = crate::text::chars_of(lane.key.as_str());
            if crate::text::contains_text(chars.as_slice(), "index")
                || crate::text::contains_text(chars.as_slice(), "cache") {
                stale = true;
            }
        }
        i += 1;
    }
    proof {
        assert forall|k: Seq<char>| #[trigger] m.contains_key(k) implies exists|x: int|
            0 <= x < items@.len() && (#[trigger] items@[x]).key@ == k && items@[x]@ == m[k] by {
            let x = keys.index_of(k);
            assert(keys.contains(k));
            assert(items@[x].key@ == k);
            crate::pathmap::lemma_key_position(items@, x);
        }
    }
    (error, stale)
}

// ---------------------------------------------------------------------------
// The beginning

/// What is found when the window opens.
pub struct Found {
    /// Show the built-in example in place of the user's own files.
    pub reference_mode: bool,
    /// The durable index, where there is a sound one.
    pub compact: Option<CompactIndex>,
    /// What is wrong with the durable index.
    pub cache_error: Option<String>,
    /// Resident records: the example, or those of an older version.
    pub restored: Option<Index>,
    /// The saved folders, and whether the setup was completed.
    pub saved: Option<(bool, Vec<String>)>,
    /// The folders of the whole machine.
    pub default_roots: Vec<String>,
    pub query: Option<String>,
    pub regex_mode: bool,
    /// A setting asks for a scan at once.
    pub autoscan: bool,
    /// A setting asks for watching servers.
    pub watch_servers: bool,
}

/// What follows once the window is open.
#[derive(Debug, Clone, Copy, PartialEq, Eq, Structural)]
pub struct Opening {
    pub watch_servers: bool,
    /// Save the settings, then scan with administrator rights where the host has them.
    pub first_scan: bool,
    pub scan: bool,
}

/// There is something to search from the start.
pub open spec fn has_durable(f: Found) -> bool {
    f.compact is Some || f.restored is Some
}

/// The window was never opened before.
pub open spec fn is_first_run(f: Found) -> bool {
    !f.reference_mode && f.saved is None
}

/// The folders at the beginning.
pub open spec fn first_roots(f: Found) -> Seq<Seq<char>> {
    if f.reference_mode {
        seq!["/"@]
    } else {
        match f.saved {
            Some((_, roots)) => crate::text::strings(roots@),
            None => crate::text::strings(f.default_roots@),
        }
    }
}

/// The lines at the beginning.
pub open spec fn first_lanes(f: Found, len: nat) -> Lanes {
    let a = if has_durable(f) {
        Map::<Seq<char>, LaneView>::empty().insert(
            "cache"@,
            LaneView {
                label: "DURABLE INDEX"@,
                status: "restored "@ + crate::text::decimal(len) + " entries"@,
                records: len as u64,
                ms: 0,
                error: false,
            },
        )
    } else {
        Map::<Seq<char>, LaneView>::empty()
    };
    match f.cache_error {
        Some(e) => a.insert("cache-error"@, note("INDEX ERROR"@, e@, true)),
        None => if has_durable(f) {
            a
        } else {
            a.insert(
                "welcome"@,
                note(
                    "READY"@,
                    if is_first_run(f) {
                        "Scanning all local system drives automatically"@
                    } else {
                        "Choose Scan to build the local index"@
                    },
                    false,
                ),
            )
        },
    }
}

/// The state at the beginning.
pub open spec fn first_state(f: Found) -> DesktopView {
    let compact = match f.compact {
        Some(c) => Some(c@),
        None => None,
    };
    let index = match f.restored {
        Some(i) => i@,
        None => no_records(),
    };
    let len = match compact {
        Some(c) => c.record_count as nat,
        None => index.records.len(),
    };
    let first_scan = is_first_run(f) && first_roots(f).len() > 0;
    DesktopView {
        index,
        compact,
        scan_index: None,
        hits: Seq::empty(),
        stats: SearchStats { scanned: 0, matched: 0, wall_us: 0 },
        lanes: first_lanes(f, len),
        scanning: false,
        active_scans: 0,
        selected_roots: first_roots(f),
        scan_roots: Seq::empty(),
        onboarding_complete: f.reference_mode || (f.saved matches Some((done, _)) && done),
        onboarding_scan: first_scan,
        setup_focus: true,
        cache_dirty: false,
        building_cache: false,
        cache_settled: false,
        last_generation: 0,
        tree: None,
        tree_building: false,
        query: match f.query {
            Some(q) => q@,
            None => if f.reference_mode {
                "invoice"@
            } else {
                ""@
            },
        },
        sort_mode: SortMode::Modified,
        kind_filter: KindFilter::All,
        regex_mode: f.regex_mode,
        scope_root: None,
    }
}

/// What follows once the window is open: a fresh installation indexes the whole machine at
/// once.
pub open spec fn first_steps(f: Found) -> Opening {
    let first_scan = is_first_run(f) && first_roots(f).len() > 0;
    Opening {
        watch_servers: !f.reference_mode && f.watch_servers,
        first_scan,
        scan: !first_scan && !f.reference_mode && f.autoscan,
    }
}

impl Desktop {
    /// Opens the window on what was found. A search has to follow.
    pub fn start(found: Found) -> (r: (Desktop, Opening))
        requires
            found.compact matches Some(c) ==> c.wf(),
        ensures
            r.0.wf(),
            r.0@ == first_state(found),
            r.1 == first_steps(found),
    {
        let ghost f = found;
        let durable: bool = found.compact.is_some() || found.restored.is_some();
        let first_run: bool = !found.reference_mode && found.saved.is_none();
        let Found {
            reference_mode,
            compact,
            cache_error,
            restored,
            saved,
            default_roots,
            query,
            regex_mode,
            autoscan,
            watch_servers,
        } = found;
        let index = match restored {
            Some(i) => i,
            None => Index::new(),
        };
        let (complete, roots): (bool, Vec<String>) = if reference_mode {
            let mut top: Vec<String> = Vec::new();
            top.push("/".to_owned());
            assert(crate::text::strings(top@) =~= seq!["/"@]);
            (true, top)
        } else {
            match saved {
                Some((done, roots)) => (done, roots),
                None => (false, default_roots),
            }
        };
        let text = match query {
            Some(q) => q,
            None => if reference_mode {
                "invoice".to_owned()
            } else {
                "".to_owned()
            },
        };
        let first_scan: bool = first_run && roots.len() > 0;
        let mut d = Desktop {
            index,
            compact,
            scan_index: None,
            hits: Vec::new(),
            stats: SearchStats { scanned: 0, matched: 0, wall_us: 0 },
            lanes: PathMap::new(),
            scanning: false,
            active_scans: 0,
            selected_roots: roots,
            scan_roots: Vec::new(),
            onboarding_complete: complete,
            onboarding_scan: first_scan,
            setup_focus: true,
            cache_dirty: false,
            building_cache: false,
            cache_settled: false,
            last_generation: 0,
            tree: None,
            tree_building: false,
            query: text,
            sort_mode: SortMode::Modified,
            kind_filter: KindFilter::All,
            regex_mode,
            scope_root: None,
        };
        assert(crate::text::strings(d.scan_roots@) =~= Seq::empty());
        assert(crate::rank::hit_views(d.hits@) =~= Seq::empty());
        let len: u64 = d.index_len();
        if durable {
            let count = crate::text::decimal_text(len);
            let lane = Lane {
                key: "cache".to_owned(),
                label: "DURABLE INDEX".to_owned(),
                status: crate::text::joined3("restored ", count.as_str(), " entries"),
                records: len,
                ms: 0,
                error: false,
            };
            d.put(lane);
        }
        match cache_error {
            Some(e) => {
                d.put(plain_lane("cache-error".to_owned(), "INDEX ERROR".to_owned(), e, true));
            },
            None => {
                if !durable {
                    let status = if first_run {
                        "Scanning all local system drives automatically".to_owned()
                    } else {
                        "Choose Scan to build the local index".to_owned()
                    };
                    d.put(plain_lane("welcome".to_owned(), "READY".to_owned(), status, false));
                }
            },
        }
        let opening = Opening {
            watch_servers: !reference_mode && watch_servers,
            first_scan,
            scan: !first_scan && !reference_mode && autoscan,
        };
        assert(d@ =~= first_state(f));
        (d, opening)
    }
}

} // verus!
