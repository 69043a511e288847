//! In-memory merged index.
//!
//! Records from all sources (local lanes and remote helpers) live in one list; a search
//! is a read-only scan over it.

use crate::clock::Stopwatch;
use crate::query::{Query, QueryView};
use crate::rank::{Collector, HitView, Ranking, SearchHit, SearchStats};
use crate::types::{FileRecord, RecordView};
use vstd::prelude::*;

verus! {

/// How many records are scanned between two clean-ups of the candidates.
pub const SCAN_CHUNK: usize = 16_384;

/// Records of all sources.
pub struct Index {
    records: Vec<FileRecord>,
    generation: u64,
}

/// An index as a mathematical value.
#[verifier::ext_equal]
pub struct IndexView {
    pub records: Seq<RecordView>,
    pub generation: u64,
}

impl View for Index {
    type V = IndexView;

    closed spec fn view(&self) -> IndexView {
        IndexView {
            records: crate::types::record_views(self.records@),
            generation: self.generation,
        }
    }
}

/// The hits of a query among records, in the order of the records.
pub open spec fn hits_among(q: QueryView, rs: Seq<RecordView>) -> Seq<HitView>
    decreases rs.len(),
{
    if rs.len() == 0 {
        Seq::empty()
    } else {
        let front = hits_among(q, rs.drop_last());
        let r = rs.last();
        if crate::query::matches_query(q, r) {
            front.push(HitView { score: crate::query::score_of(q, r)->0, record: r })
        } else {
            front
        }
    }
}

/// The records of other sources.
pub open spec fn without_source(rs: Seq<RecordView>, source: u32) -> Seq<RecordView>
    decreases rs.len(),
{
    if rs.len() == 0 {
        Seq::empty()
    } else {
        let front = without_source(rs.drop_last(), source);
        if rs.last().source == source {
            front
        } else {
            front.push(rs.last())
        }
    }
}

/// `hits` is the answer to a query over `found`: the best in order, all where the query
/// sets no limit.
pub open spec fn answers(
    ranking: Ranking,
    limit: usize,
    found: Seq<HitView>,
    hits: Seq<HitView>,
) -> bool {
    &&& crate::rank::in_rank_order(ranking, hits)
    &&& crate::rank::best_of(
        ranking,
        found.to_multiset(),
        hits.to_multiset(),
        if limit == 0 {
            found.len()
        } else {
            limit as nat
        },
    )
}

/// The order of an in-memory search: ties stay as they fall.
pub open spec fn index_ranking(q: QueryView) -> Ranking {
    Ranking { sort: q.sort, paths_break_ties: false }
}

/// There are no more hits than records.
pub proof fn lemma_hits_bounded(q: QueryView, rs: Seq<RecordView>)
    ensures
        hits_among(q, rs).len() <= rs.len(),
    decreases rs.len(),
{
    if rs.len() > 0 {
        lemma_hits_bounded(q, rs.drop_last());
    }
}

/// Every hit is a record of the index that matches the query.
pub proof fn lemma_hits_match(q: QueryView, rs: Seq<RecordView>, i: int)
    requires
        0 <= i < hits_among(q, rs).len(),
    ensures
        rs.contains(hits_among(q, rs)[i].record),
        crate::query::matches_query(q, hits_among(q, rs)[i].record),
        crate::query::score_of(q, hits_among(q, rs)[i].record) == Some(hits_among(q, rs)[i].score),
    decreases rs.len(),
{
    let front = rs.drop_last();
    if i < hits_among(q, front).len() {
        lemma_hits_match(q, front, i);
        let r = hits_among(q, front)[i].record;
        let k = choose|k: int| 0 <= k < front.len() && front[k] == r;
        assert(rs[k] == r);
    } else {
        assert(rs[rs.len() - 1] == rs.last());
    }
}

/// Every hit that a search returns is an indexed record that passes the query's filters,
/// its scope roots among them.
pub proof fn law_search_returns_only_matches(
    ranking: Ranking,
    q: QueryView,
    rs: Seq<RecordView>,
    hits: Seq<HitView>,
    i: int,
)
    requires
        answers(ranking, q.limit, hits_among(q, rs), hits),
        0 <= i < hits.len(),
    ensures
        rs.contains(hits[i].record),
        crate::query::admits(q, hits[i].record),
        crate::query::score_of(q, hits[i].record) == Some(hits[i].score),
{
    let found = hits_among(q, rs);
    hits.to_multiset_ensures();
    found.to_multiset_ensures();
    assert(hits.contains(hits[i]));
    assert(hits.to_multiset().count(hits[i]) > 0);
    assert(found.to_multiset().count(hits[i]) > 0);
    assert(found.contains(hits[i]));
    let k = choose|k: int| 0 <= k < found.len() && found[k] == hits[i];
    lemma_hits_match(q, rs, k);
}

/// A search with room for all matches returns each of them.
pub proof fn law_search_misses_nothing(
    ranking: Ranking,
    q: QueryView,
    rs: Seq<RecordView>,
    hits: Seq<HitView>,
)
    requires
        answers(ranking, q.limit, hits_among(q, rs), hits),
        q.limit == 0 || hits_among(q, rs).len() <= q.limit,
    ensures
        hits.to_multiset() == hits_among(q, rs).to_multiset(),
{
    let found = hits_among(q, rs);
    found.to_multiset_ensures();
    hits.to_multiset_ensures();
    crate::rank::lemma_same_size(hits.to_multiset(), found.to_multiset());
}

/// No record of another source is lost with a source, and none of it stays.
pub proof fn law_source_removal(rs: Seq<RecordView>, source: u32)
    ensures
        forall|r: RecordView| #[trigger]
            without_source(rs, source).contains(r) <==> rs.contains(r) && r.source != source,
    decreases rs.len(),
{
    if rs.len() > 0 {
        let front = rs.drop_last();
        law_source_removal(front, source);
        let kept = without_source(front, source);
        assert forall|r: RecordView| #[trigger]
            without_source(rs, source).contains(r) <==> rs.contains(r) && r.source != source by {
            assert(rs =~= front.push(rs.last()));
            broadcast use vstd::seq_lib::group_seq_properties;

            assert(rs.contains(r) <==> front.contains(r) || r == rs.last());
            assert(kept.push(rs.last()).contains(r) <==> kept.contains(r) || r == rs.last());
        }
    }
}

impl Index {
    /// An empty index.
    pub fn new() -> (r: Index)
        ensures
            r@ == (IndexView { records: Seq::empty(), generation: 0 }),
    {
        let r = Index { records: Vec::new(), generation: 0 };
        assert(r@ =~= IndexView { records: Seq::empty(), generation: 0 });
        r
    }

    /// How many records there are.
    pub fn len(&self) -> (r: usize)
        ensures
            r == self@.records.len(),
    {
        self.records.len()
    }

    /// Whether there are no records.
    pub fn is_empty(&self) -> (r: bool)
        ensures
            r == (self@.records.len() == 0),
    {
        self.records.len() == 0
    }

    /// Bumped on every mutation so that clients can detect staleness.
    pub fn generation(&self) -> (r: u64)
        ensures
            r == self@.generation,
    {
        self.generation
    }

    /// Adds one record.
    pub fn push(&mut self, rec: FileRecord)
        requires
            old(self)@.generation < u64::MAX,
        ensures
            final(self)@ == (IndexView {
                records: old(self)@.records.push(rec@),
                generation: (old(self)@.generation + 1) as u64,
            }),
    {
        let ghost before = self.records@;
        let ghost r = rec@;
        self.records.push(rec);
        self.generation = self.generation + 1;
        assert(crate::types::record_views(self.records@) =~= crate::types::record_views(
            before,
        ).push(r));
    }

    /// Bulk append from a finished scan; one generation bump for the batch.
    pub fn extend(&mut self, recs: Vec<FileRecord>)
        requires
            old(self)@.generation < u64::MAX,
        ensures
            final(self)@ == (IndexView {
                records: old(self)@.records + crate::types::record_views(recs@),
                generation: (old(self)@.generation + 1) as u64,
            }),
    {
        let ghost before = self.records@;
        let mut recs = recs;
        let ghost added = recs@;
        self.records.append(&mut recs);
        self.generation = self.generation + 1;
        assert(crate::types::record_views(self.records@) =~= crate::types::record_views(before)
            + crate::types::record_views(added));
    }

    /// Drops every record from a source (e.g. remote disconnected, or a mount about to be
    /// rescanned) and returns how many were removed.
    pub fn remove_source(&mut self, source: u32) -> (removed: usize)
        requires
            old(self)@.generation < u64::MAX,
        ensures
            final(self)@.records == without_source(old(self)@.records, source),
            removed == old(self)@.records.len() - final(self)@.records.len(),
            final(self)@.generation == old(self)@.generation + (if removed > 0 {
                1int
            } else {
                0
            }),
    {
        let mut kept: Vec<FileRecord> = Vec::new();
        let ghost views = self@.records;
        let n: usize = self.records.len();
        let mut i: usize = 0;
        proof {
            assert(views.take(0) =~= Seq::empty());
            assert(crate::types::record_views(kept@) =~= Seq::empty());
        }
        while i < n
            invariant
                i <= n == self.records@.len(),
                views == crate::types::record_views(self.records@),
                crate::types::record_views(kept@) == without_source(views.take(i as int), source),
                kept@.len() <= i,
            decreases n - i,
        {
            proof {
                assert(views.take(i + 1).drop_last() =~= views.take(i as int));
                assert(views.take(i + 1).last() == self.records@[i as int]@);
            }
            if self.records[i].source != source {
                let r = self.records[i].clone();
                let ghost before = kept@;
                kept.push(r);
                assert(crate::types::record_views(kept@) =~= crate::types::record_views(
                    before,
                ).push(r@));
            }
            i += 1;
        }
        assert(views.take(i as int) =~= views);
        let removed: usize = n - kept.len();
        self.records = kept;
        if removed > 0 {
            self.generation = self.generation + 1;
        }
        removed
    }

    /// All records.
    pub fn records(&self) -> (r: &[FileRecord])
        ensures
            crate::types::record_views(r@) == self@.records,
    {
        self.records.as_slice()
    }

    /// All records, without the index.
    pub fn into_records(self) -> (r: Vec<FileRecord>)
        ensures
            crate::types::record_views(r@) == self@.records,
    {
        self.records
    }

    /// Filter and score, then the best by the query's sort key. The matched count is
    /// exact, whatever the limit.
    pub fn search(&self, q: &Query) -> (r: (Vec<SearchHit>, SearchStats))
        ensures
            answers(
                index_ranking(q@),
                q@.limit,
                hits_among(q@, self@.records),
                crate::rank::hit_views(r.0@),
            ),
            r.1.scanned == self@.records.len(),
            r.1.matched == hits_among(q@, self@.records).len(),
    {
        let watch = Stopwatch::start();
        let ranking = Ranking { sort: q.sort, paths_break_ties: false };
        let mut found = Collector::new(ranking, q.limit);
        let ghost views = self@.records;
        let ghost qv = q@;
        let n: usize = self.records.len();
        let mut i: usize = 0;
        proof {
            assert(views.take(0) =~= Seq::empty());
            hits_among(qv, views.take(0)).to_multiset_ensures();
            assert(hits_among(qv, views.take(0)).to_multiset()
                =~= vstd::multiset::Multiset::empty());
        }
        while i < n
            invariant
                i <= n == self.records@.len(),
                views == crate::types::record_views(self.records@),
                qv == q@,
                found.wf(),
                found.by() == ranking,
                found.cap() == q.limit,
                found.offered() == hits_among(qv, views.take(i as int)).to_multiset(),
            decreases n - i,
        {
            proof {
                assert(views.take(i + 1).drop_last() =~= views.take(i as int));
                assert(views.take(i + 1).last() == self.records@[i as int]@);
                hits_among(qv, views.take(i as int)).to_multiset_ensures();
                hits_among(qv, views.take(i + 1)).to_multiset_ensures();
                lemma_hits_bounded(qv, views.take(i as int));
            }
            if q.passes_filters(&self.records[i]) {
                if let Some(score) = q.score(&self.records[i]) {
                    found.offer(SearchHit { score, record: self.records[i].clone() });
                }
            }
            i += 1;
            if i % SCAN_CHUNK == 0 {
                found.prune(0);
            }
        }
        proof {
            assert(views.take(i as int) =~= views);
            hits_among(qv, views).to_multiset_ensures();
            lemma_hits_bounded(qv, views);
        }
        let (hits, matched): (Vec<SearchHit>, u64) = found.finish();
        (hits, SearchStats { scanned: n as u64, matched, wall_us: watch.micros() })
    }

    /// Serializes the whole index (instant-restart cache on disk).
    pub fn snapshot(&self) -> (r: Vec<u8>)
        ensures
            r@ == crate::codec::records_bytes(self@.records),
    {
        crate::codec::encode_records(self.records.as_slice())
    }

    /// Reads a snapshot; none where the bytes do not begin with one.
    pub fn restore(bytes: &[u8]) -> (r: Option<Index>)
        ensures
            match r {
                Some(index) => index@.generation == 1 && crate::codec::records_bytes(
                    index@.records,
                ).is_prefix_of(bytes@),
                None => crate::codec::no_records(bytes@),
            },
    {
        match crate::codec::decode_records(bytes) {
            Some(records) => Some(Index { records, generation: 1 }),
            None => None,
        }
    }
}

impl Default for Index {
    fn default() -> (r: Index)
        ensures
            r@ == (IndexView { records: Seq::empty(), generation: 0 }),
    {
        Index::new()
    }
}

/// A snapshot is restored to the records that it was taken of.
pub proof fn law_restore_gives_back_the_snapshot(
    before: IndexView,
    bytes: Seq<u8>,
    restored: Seq<RecordView>,
)
    requires
        bytes == crate::codec::records_bytes(before.records),
        bytes.len() <= usize::MAX,
        crate::codec::records_bytes(restored).is_prefix_of(bytes),
    ensures
        restored == before.records,
        !crate::codec::no_records(bytes),
{
    assert(bytes.subrange(0, bytes.len() as int) =~= bytes);
    crate::codec::law_records_encoding_is_unique(before.records, restored, bytes);
}

} // verus!
