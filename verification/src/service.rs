//! The conversation of the helper with one client, and what the native watch does to the
//! store: every decision, apart from the reading, writing and scanning around it.

use crate::compact_index::IndexError;
use crate::delta::{ChangeView, DeltaChange};
use crate::host::Host;
use crate::index::{Index, IndexView};
use crate::mounts::{MountInfo, MountView};
use crate::proto::{AnswerView, ClientMsg, HelperMsg, HELPER_BUILD, PROTO_VERSION};
use crate::query::{Query, QueryView};
use crate::rank::{HitView, SearchHit, SearchStats};
use crate::requests::{Refusal, RequestError};
use crate::store::{Bounded, DurableStore, StoreError, StoreView};
use crate::types::{FileRecord, RecordView};
use crate::watch::WatchBatch;
use vstd::prelude::*;

verus! {

/// The answer to the first message.
pub open spec fn greeting(first: Option<ClientMsg>, os: Seq<char>, arch: Seq<char>) -> AnswerView {
    match first {
        Some(ClientMsg::Hello { proto }) => if proto == PROTO_VERSION {
            AnswerView::Hello { proto: PROTO_VERSION, build: HELPER_BUILD, os, arch }
        } else {
            AnswerView::Error(
                "protocol mismatch: client="@ + crate::text::decimal(proto as nat) + " helper="@
                    + crate::text::decimal(PROTO_VERSION as nat),
            )
        },
        _ => AnswerView::Error("expected Hello"@),
    }
}

/// The conversation goes on after the first message.
pub open spec fn greets(first: Option<ClientMsg>) -> bool {
    first matches Some(ClientMsg::Hello { proto }) && proto == PROTO_VERSION
}

/// Answers the first message; the conversation goes on only where it is a greeting of the
/// same version.
pub fn greet(first: &Option<ClientMsg>, os: &str, arch: &str) -> (r: (HelperMsg, bool))
    ensures
        r.0@ == greeting(*first, os@, arch@),
        r.1 == greets(*first),
{
    match first {
        Some(ClientMsg::Hello { proto }) => {
            if *proto == PROTO_VERSION {
                return (
                    HelperMsg::Hello {
                        proto: PROTO_VERSION,
                        build: HELPER_BUILD,
                        os: os.to_owned(),
                        arch: arch.to_owned(),
                    },
                    true,
                );
            }
            let a = crate::text::decimal_text(*proto as u64);
            let b = crate::text::decimal_text(PROTO_VERSION as u64);
            let head = crate::text::joined3(
                "protocol mismatch: client=",
                a.as_str(),
                " helper=",
            );
            (HelperMsg::Error(crate::text::joined(head.as_str(), b.as_str())), false)
        },
        _ => (HelperMsg::Error("expected Hello".to_owned()), false),
    }
}

/// What the helper holds: records of scans, a store where it serves one, and whether the
/// store may no longer be used.
pub struct Service {
    index: Index,
    store: Option<DurableStore>,
    stale: bool,
}

/// The same as a mathematical value.
#[verifier::ext_equal]
pub struct ServiceView {
    pub index: IndexView,
    pub store: Option<StoreView>,
    pub stale: bool,
}

impl View for Service {
    type V = ServiceView;

    closed spec fn view(&self) -> ServiceView {
        ServiceView {
            index: self.index@,
            store: match self.store {
                Some(s) => Some(s@),
                None => None,
            },
            stale: self.stale,
        }
    }
}

/// What a message leads to.
pub enum Step {
    /// The conversation ends.
    Stop,
    /// An answer, and nothing else.
    Answer(HelperMsg),
    /// Scan these mounts, keep to these roots, and keep the records where it is resident.
    Scan { mounts: Vec<MountInfo>, roots: Vec<String>, resident: bool },
    /// The store could not be read: the helper fails.
    Fail(IndexError),
    /// Write what the update left; the answer follows once that is done.
    Write { update: Bounded, answer: HelperMsg },
}

/// The step is an answer, and nothing else.
pub open spec fn answered(r: Step, a: AnswerView) -> bool {
    match r {
        Step::Answer(x) => x@ == a,
        _ => false,
    }
}

/// The mounts and roots that a scan request leads to.
pub open spec fn prepared(
    host: Host,
    mounts: Seq<MountView>,
    roots: Seq<Seq<char>>,
    table: Seq<MountView>,
    idle: bool,
) -> Result<(Seq<MountView>, Seq<Seq<char>>), Refusal> {
    match crate::requests::scan_mounts(host, mounts, table, idle) {
        Err(e) => Err(e),
        Ok(ms) => match crate::requests::scan_roots(host, roots, ms) {
            Err(e) => Err(e),
            Ok(rs) => Ok((ms, rs)),
        },
    }
}

/// Checks a scan request against the host's own mount table.
pub fn prepare_scan(
    host: Host,
    mounts: &Vec<MountInfo>,
    roots: &Vec<String>,
    table: &Vec<MountInfo>,
    idle: bool,
) -> (r: Result<(Vec<MountInfo>, Vec<String>), RequestError>)
    ensures
        ({
            let x = prepared(
                host,
                crate::mounts::mount_views(mounts@),
                crate::text::strings(roots@),
                crate::mounts::mount_views(table@),
                idle,
            );
            match r {
                Ok((ms, rs)) => x == Ok::<(Seq<MountView>, Seq<Seq<char>>), Refusal>(
                    (crate::mounts::mount_views(ms@), crate::text::strings(rs@)),
                ),
                Err(e) => x == Err::<(Seq<MountView>, Seq<Seq<char>>), Refusal>(e@),
            }
        }),
{
    match crate::requests::resolve_scan_mounts(host, mounts, table, idle) {
        Err(e) => Err(e),
        Ok(ms) => match crate::requests::validate_scan_roots(host, roots, &ms) {
            Err(e) => Err(e),
            Ok(rs) => Ok((ms, rs)),
        },
    }
}

/// The step that a scan request leads to.
pub open spec fn scan_step(
    host: Host,
    mounts: Seq<MountView>,
    roots: Seq<Seq<char>>,
    table: Seq<MountView>,
    idle: bool,
    resident: bool,
    r: Step,
) -> bool {
    match prepared(host, mounts, roots, table, idle) {
        Ok((ms, rs)) => r matches Step::Scan { mounts, roots, resident: kept }
            && crate::mounts::mount_views(mounts@) == ms && crate::text::strings(roots@) == rs
            && kept == resident,
        Err(e) => answered(r, AnswerView::Error(
            crate::requests::refusal_text(e),
        )),
    }
}

/// The records of hits.
pub open spec fn hit_records(hits: Seq<HitView>) -> Seq<RecordView> {
    Seq::new(hits.len(), |i: int| hits[i].record)
}

/// The hits are an answer of what the helper holds.
pub open spec fn finds(s: ServiceView, q: QueryView, hits: Seq<HitView>) -> bool {
    match s.store {
        Some(st) => exists|stats: SearchStats| #[trigger]
            crate::compact_index::search_answer(st.base, st.delta.overlay, q, hits, stats),
        None => crate::index::answers(
            crate::index::index_ranking(q),
            q.limit,
            crate::index::hits_among(q, s.index.records),
            hits,
        ),
    }
}

/// The step that a query leads to. `became_stale` says whether the store was found unusable
/// once it was locked for reading.
pub open spec fn search_step(s: ServiceView, host: Host, q: QueryView, became_stale: bool, r: Step) -> bool {
    if s.stale {
        answered(r, AnswerView::Error(
            "index is stale; run a full native reindex before searching"@,
        ))
    } else if crate::requests::query_refusal(host, q) is Some {
        answered(r, AnswerView::Error(
            crate::requests::refusal_text(crate::requests::query_refusal(host, q)->0),
        ))
    } else if s.store is Some && became_stale {
        answered(r, AnswerView::Error(
            "index became stale during the query; rebuild and restart the service"@,
        ))
    } else {
        match r {
            Step::Answer(a) => a@ is SearchResult && exists|hits: Seq<HitView>| #[trigger]
                finds(s, q, hits) && a@->hits == hit_records(hits),
            Step::Fail(e) => s.store is Some && crate::compact_index::search_error(
                s.store->0.base,
                s.store->0.delta.overlay,
                q,
            ) == Some(e),
            _ => false,
        }
    }
}

/// The answer to an update that failed.
pub open spec fn failed_answer(error: Seq<char>) -> AnswerView {
    AnswerView::Error(
        "delta commit or compaction failed; index disabled until rebuild: "@ + error,
    )
}

/// The answer to an update of the store.
pub open spec fn update_answer(outcome: Result<crate::store::Applied, StoreError>) -> AnswerView {
    match outcome {
        Ok(a) => AnswerView::DeltaApplied {
            changes: a.changes,
            wal_bytes: a.wal_bytes,
            needs_compaction: false,
        },
        Err(e) => failed_answer(e.text()),
    }
}

/// The step that a batch of changes leads to, and what it makes of the helper.
pub open spec fn apply_step(
    s: ServiceView,
    cs: Seq<ChangeView>,
    became_stale: bool,
    first: u64,
    second: u64,
    r: Step,
    after: ServiceView,
) -> bool {
    if crate::requests::changes_refusal(cs) is Some {
        after == s && answered(r, AnswerView::Error(
            crate::requests::refusal_text(crate::requests::changes_refusal(cs)->0),
        ))
    } else if s.stale {
        after == s && answered(r, AnswerView::Error(
            "index is stale; run a full native reindex before applying changes"@,
        ))
    } else if s.store is None {
        after == s && answered(r, AnswerView::Error(
            "ApplyDelta requires 'neutrasearch serve --index INDEX.nsx'"@,
        ))
    } else if became_stale {
        after == s && answered(r, AnswerView::Error(
            "index became stale before the update; rebuild and restart the service"@,
        ))
    } else {
        r matches Step::Write { update, answer } && after.store is Some && after.index == s.index
            && crate::store::bounded(s.store->0, cs, first, second, update, after.store->0)
            && after.stale == (update.outcome is Err) && answer@ == update_answer(update.outcome)
    }
}

/// The step that a message leads to, and what it makes of the helper.
pub open spec fn stepped(
    s: ServiceView,
    msg: Option<ClientMsg>,
    host: Host,
    table: Seq<MountView>,
    idle: bool,
    became_stale: bool,
    first: u64,
    second: u64,
    r: Step,
    after: ServiceView,
) -> bool {
    match msg {
        None => r is Stop && after == s,
        Some(ClientMsg::Shutdown) => r is Stop && after == s,
        Some(ClientMsg::Hello { .. }) => after == s && answered(r, AnswerView::Error("duplicate Hello"@)),
        Some(ClientMsg::Scan { mounts, roots }) => after == s && scan_step(
            host,
            crate::mounts::mount_views(mounts@),
            crate::text::strings(roots@),
            table,
            idle,
            false,
            r,
        ),
        Some(ClientMsg::ScanResident { mounts, roots }) => after == s && scan_step(
            host,
            crate::mounts::mount_views(mounts@),
            crate::text::strings(roots@),
            table,
            idle,
            true,
            r,
        ),
        Some(ClientMsg::Search { query }) => after == s && search_step(
            s,
            host,
            query@,
            became_stale,
            r,
        ),
        Some(ClientMsg::ApplyDelta { changes }) => apply_step(
            s,
            crate::store::change_views(changes@),
            became_stale,
            first,
            second,
            r,
            after,
        ),
    }
}

fn records_of(hits: Vec<SearchHit>) -> (r: Vec<FileRecord>)
    ensures
        crate::types::record_views(r@) == hit_records(crate::rank::hit_views(hits@)),
{
    let mut out: Vec<FileRecord> = Vec::new();
    let total: usize = hits.len();
    let mut i: usize = 0;
    for hit in it: hits
        invariant
            it.seq() == hits@,
            i == it.index(),
            i <= total == hits@.len(),
            out@.len() == i,
            forall|k: int| 0 <= k < i ==> (#[trigger] out@[k])@ == hits@[k]@.record,
    {
        let SearchHit { record, .. } = hit;
        out.push(record);
        i = i + 1;
    }
    assert(crate::types::record_views(out@) =~= hit_records(crate::rank::hit_views(hits@)));
    out
}

fn scan_decision(
    host: Host,
    mounts: &Vec<MountInfo>,
    roots: &Vec<String>,
    table: &Vec<MountInfo>,
    idle: bool,
    resident: bool,
) -> (r: Step)
    ensures
        scan_step(
            host,
            crate::mounts::mount_views(mounts@),
            crate::text::strings(roots@),
            crate::mounts::mount_views(table@),
            idle,
            resident,
            r,
        ),
{
    match prepare_scan(host, mounts, roots, table, idle) {
        Ok((ms, rs)) => Step::Scan { mounts: ms, roots: rs, resident },
        Err(e) => Step::Answer(HelperMsg::Error(e.message())),
    }
}

impl Service {
    /// The store, where there is one, is sound.
    pub closed spec fn wf(&self) -> bool {
        self.store matches Some(s) ==> s.wf()
    }

    /// A helper that holds nothing yet, with a store where it serves one.
    pub fn new(store: Option<DurableStore>) -> (r: Service)
        requires
            store matches Some(s) ==> s.wf(),
        ensures
            r.wf(),
            r@ == (ServiceView {
                index: IndexView { records: Seq::empty(), generation: 0 },
                store: match store {
                    Some(s) => Some(s@),
                    None => None,
                },
                stale: false,
            }),
    {
        Service { index: Index::new(), store, stale: false }
    }

    /// Whether the store may no longer be used.
    pub fn is_stale(&self) -> (r: bool)
        ensures
            r == self@.stale,
    {
        self.stale
    }

    /// Forbids the use of the store.
    pub fn mark_stale(&mut self)
        requires
            old(self).wf(),
        ensures
            final(self).wf(),
            final(self)@ == (ServiceView { stale: true, ..old(self)@ }),
    {
        self.stale = true;
    }

    /// Whether another batch can be counted in the resident index.
    pub fn can_retain(&self) -> (r: bool)
        ensures
            r == (self@.index.generation < u64::MAX),
    {
        self.index.generation() < u64::MAX
    }

    /// Keeps the records of a resident scan.
    pub fn retain(&mut self, batch: Vec<FileRecord>)
        requires
            old(self).wf(),
            old(self)@.index.generation < u64::MAX,
        ensures
            final(self).wf(),
            final(self)@ == (ServiceView {
                index: IndexView {
                    records: old(self)@.index.records + crate::types::record_views(batch@),
                    generation: (old(self)@.index.generation + 1) as u64,
                },
                ..old(self)@
            }),
    {
        self.index.extend(batch);
    }

    fn search(&self, host: Host, query: &Query, became_stale: bool) -> (r: Step)
        requires
            self.wf(),
        ensures
            search_step(self@, host, query@, became_stale, r),
    {
        if self.stale {
            return Step::Answer(
                HelperMsg::Error(
                    "index is stale; run a full native reindex before searching".to_owned(),
                ),
            );
        }
        match crate::requests::validate_query(host, query) {
            Ok(_) => {},
            Err(e) => {
                return Step::Answer(HelperMsg::Error(e.message()));
            },
        }
        match &self.store {
            Some(store) => {
                if became_stale {
                    return Step::Answer(
                        HelperMsg::Error(
                            "index became stale during the query; rebuild and restart the service".to_owned(),
                        ),
                    );
                }
                match store.search(query) {
                    Err(e) => Step::Fail(e),
                    Ok((hits, stats)) => {
                        assert(crate::compact_index::search_answer(
                            store@.base,
                            store@.delta.overlay,
                            query@,
                            crate::rank::hit_views(hits@),
                            stats,
                        ));
                        assert(self@.store == Some(store@));
                        assert(self@.store->0 == store@);
                        assert(exists|x: SearchStats| #[trigger]
                            crate::compact_index::search_answer(
                                store@.base,
                                store@.delta.overlay,
                                query@,
                                crate::rank::hit_views(hits@),
                                x,
                            ));
                        assert(finds(self@, query@, crate::rank::hit_views(hits@)));
                        Step::Answer(
                            HelperMsg::SearchResult {
                                hits: records_of(hits),
                                wall_us: stats.wall_us,
                            },
                        )
                    },
                }
            },
            None => {
                let (hits, stats) = self.index.search(query);
                assert(finds(self@, query@, crate::rank::hit_views(hits@)));
                Step::Answer(
                    HelperMsg::SearchResult { hits: records_of(hits), wall_us: stats.wall_us },
                )
            },
        }
    }

    fn update(&mut self, changes: Vec<DeltaChange>, became_stale: bool, first: u64, second: u64) -> (r: Step)
        requires
            old(self).wf(),
        ensures
            final(self).wf(),
            apply_step(
                old(self)@,
                crate::store::change_views(changes@),
                became_stale,
                first,
                second,
                r,
                final(self)@,
            ),
    {
        match crate::requests::validate_delta_changes(&changes) {
            Ok(_) => {},
            Err(e) => {
                return Step::Answer(HelperMsg::Error(e.message()));
            },
        }
        if self.stale {
            return Step::Answer(
                HelperMsg::Error(
                    "index is stale; run a full native reindex before applying changes".to_owned(),
                ),
            );
        }
        let mut taken: Option<DurableStore> = None;
        std::mem::swap(&mut taken, &mut self.store);
        match taken {
            None => Step::Answer(
                HelperMsg::Error(
                    "ApplyDelta requires 'neutrasearch serve --index INDEX.nsx'".to_owned(),
                ),
            ),
            Some(store) => {
                let mut store = store;
                if became_stale {
                    self.store = Some(store);
                    return Step::Answer(
                        HelperMsg::Error(
                            "index became stale before the update; rebuild and restart the service".to_owned(),
                        ),
                    );
                }
                let update = store.apply_bounded(changes, first, second);
                self.store = Some(store);
                let answer = match &update.outcome {
                    Ok(a) => HelperMsg::DeltaApplied {
                        changes: a.changes,
                        wal_bytes: a.wal_bytes,
                        needs_compaction: false,
                    },
                    Err(e) => {
                        self.stale = true;
                        failure(e.message().as_str())
                    },
                };
                Step::Write { update, answer }
            },
        }
    }

    /// Takes the next message of the client. `table` is the host's own mount table, `idle`
    /// says that no scan runs, and `first` and `second` are unused generations.
    pub fn step(
        &mut self,
        msg: Option<ClientMsg>,
        host: Host,
        table: &Vec<MountInfo>,
        idle: bool,
        became_stale: bool,
        first: u64,
        second: u64,
    ) -> (r: Step)
        requires
            old(self).wf(),
        ensures
            final(self).wf(),
            stepped(
                old(self)@,
                msg,
                host,
                crate::mounts::mount_views(table@),
                idle,
                became_stale,
                first,
                second,
                r,
                final(self)@,
            ),
    {
        match msg {
            None => Step::Stop,
            Some(ClientMsg::Shutdown) => Step::Stop,
            Some(ClientMsg::Hello { .. }) => Step::Answer(
                HelperMsg::Error("duplicate Hello".to_owned()),
            ),
            Some(ClientMsg::Scan { mounts, roots }) => scan_decision(
                host,
                &mounts,
                &roots,
                table,
                idle,
                false,
            ),
            Some(ClientMsg::ScanResident { mounts, roots }) => scan_decision(
                host,
                &mounts,
                &roots,
                table,
                idle,
                true,
            ),
            Some(ClientMsg::Search { query }) => self.search(host, &query, became_stale),
            Some(ClientMsg::ApplyDelta { changes }) => self.update(
                changes,
                became_stale,
                first,
                second,
            ),
        }
    }
}

/// The answer to an update that failed, also where its files could not be written.
pub fn failure(error: &str) -> (r: HelperMsg)
    ensures
        r@ == failed_answer(error@),
{
    HelperMsg::Error(
        crate::text::joined(
            "delta commit or compaction failed; index disabled until rebuild: ",
            error,
        ),
    )
}

/// Once the store is stale, no message gets anything out of it or into it: searches and
/// changes are answered with an error, and it stays stale.
pub proof fn law_a_stale_store_is_never_served(
    s: ServiceView,
    msg: Option<ClientMsg>,
    host: Host,
    table: Seq<MountView>,
    idle: bool,
    became_stale: bool,
    first: u64,
    second: u64,
    r: Step,
    after: ServiceView,
)
    requires
        s.stale,
        stepped(s, msg, host, table, idle, became_stale, first, second, r, after),
    ensures
        after == s,
        (msg matches Some(ClientMsg::Search { .. }) || msg matches Some(
            ClientMsg::ApplyDelta { .. },
        )) ==> (r matches Step::Answer(a) && a@ is Error),
{
}

/// A failed update makes the store stale.
pub proof fn law_failed_updates_disable_the_store(
    s: ServiceView,
    cs: Seq<ChangeView>,
    became_stale: bool,
    first: u64,
    second: u64,
    r: Step,
    after: ServiceView,
)
    requires
        apply_step(s, cs, became_stale, first, second, r, after),
        r is Write,
        r->update.outcome is Err,
    ensures
        after.stale,
        r->answer@ is Error,
{
}

/// A scan never starts while another runs.
pub proof fn law_one_scan_at_a_time(
    s: ServiceView,
    msg: Option<ClientMsg>,
    host: Host,
    table: Seq<MountView>,
    became_stale: bool,
    first: u64,
    second: u64,
    r: Step,
    after: ServiceView,
)
    requires
        stepped(s, msg, host, table, false, became_stale, first, second, r, after),
    ensures
        !(r is Scan),
{
}

// ---------------------------------------------------------------------------
// The native watch

/// What a reading leads to.
pub enum WatchStep {
    /// Read on.
    Continue,
    /// Write what the update left, and read on once that is done.
    Write(Bounded),
    /// Write what the update left; the watch ends, and the reason goes in the stale marker.
    WriteAndStop(Bounded, String),
    /// The watch ends, and the reason goes in the stale marker.
    Stop(String),
}

/// The watch ends for a reason.
pub open spec fn stopped(r: WatchStep, why: Seq<char>) -> bool {
    match r {
        WatchStep::Stop(w) => w@ == why,
        _ => false,
    }
}

/// What a reading leads to, and what it makes of the helper.
pub open spec fn watched(
    s: ServiceView,
    batch: Result<WatchBatch, String>,
    first: u64,
    second: u64,
    r: WatchStep,
    after: ServiceView,
) -> bool {
    match batch {
        Err(e) => after == (ServiceView { stale: true, ..s }) && stopped(r, e@),
        Ok(WatchBatch::RescanRequired(why)) => after == (ServiceView { stale: true, ..s })
            && stopped(r, why@),
        Ok(WatchBatch::Changes(changes)) => if changes@.len() == 0 {
            r is Continue && after == s
        } else if s.store is None {
            after == (ServiceView { stale: true, ..s }) && stopped(r, "durable store lock poisoned"@)
        } else {
            let cs = crate::store::change_views(changes@);
            &&& after.store is Some
            &&& after.index == s.index
            &&& match r {
                WatchStep::Write(u) => u.outcome is Ok && after.stale == s.stale
                    && crate::store::bounded(s.store->0, cs, first, second, u, after.store->0),
                WatchStep::WriteAndStop(u, why) => u.outcome is Err && after.stale && why@
                    == u.outcome->Err_0.text() && crate::store::bounded(
                    s.store->0,
                    cs,
                    first,
                    second,
                    u,
                    after.store->0,
                ),
                _ => false,
            }
        },
    }
}

impl Service {
    /// Takes one reading of the native watch. A failure is published before the store is
    /// released, so that no search ever reads what is not durable.
    pub fn watch(&mut self, batch: Result<WatchBatch, String>, first: u64, second: u64) -> (r: WatchStep)
        requires
            old(self).wf(),
            batch matches Ok(WatchBatch::Changes(cs)) ==> cs@.len() <= u32::MAX,
        ensures
            final(self).wf(),
            watched(old(self)@, batch, first, second, r, final(self)@),
    {
        let changes = match batch {
            Err(e) => {
                self.stale = true;
                return WatchStep::Stop(e);
            },
            Ok(WatchBatch::RescanRequired(why)) => {
                self.stale = true;
                return WatchStep::Stop(why);
            },
            Ok(WatchBatch::Changes(cs)) => cs,
        };
        if changes.len() == 0 {
            return WatchStep::Continue;
        }
        let mut taken: Option<DurableStore> = None;
        std::mem::swap(&mut taken, &mut self.store);
        match taken {
            None => {
                self.stale = true;
                WatchStep::Stop("durable store lock poisoned".to_owned())
            },
            Some(store) => {
                let mut store = store;
                let update = store.apply_bounded(changes, first, second);
                self.store = Some(store);
                let bad: Option<String> = match &update.outcome {
                    Ok(_) => None,
                    Err(e) => Some(e.message()),
                };
                match bad {
                    None => WatchStep::Write(update),
                    Some(why) => {
                        self.stale = true;
                        WatchStep::WriteAndStop(update, why)
                    },
                }
            },
        }
    }
}

/// A watch that ends leaves the store stale: nothing is served that may have missed a
/// change.
pub proof fn law_an_ended_watch_leaves_the_store_stale(
    s: ServiceView,
    batch: Result<WatchBatch, String>,
    first: u64,
    second: u64,
    r: WatchStep,
    after: ServiceView,
)
    requires
        watched(s, batch, first, second, r, after),
        r is Stop || r is WriteAndStop,
    ensures
        after.stale,
{
}

} // verus!
