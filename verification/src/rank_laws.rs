//! What the order of hits means to whoever reads them, said of sizes, times, names and paths.

use crate::compact_index::CompactView;
use crate::delta::OverlayView;
use crate::query::{QueryView, SortKey};
use crate::rank::{HitView, Ranking, SearchStats};
use crate::types::RecordView;
use vstd::prelude::*;

verus! {

/// Dictionary order, ties allowed: where the two differ first `a` has the smaller byte, or it
/// ends there.
pub open spec fn not_behind(a: Seq<u8>, b: Seq<u8>) -> bool {
    exists|n: int|
        0 <= n <= a.len() && n <= b.len() && #[trigger] a.take(n) == b.take(n) && (n == a.len() || (
        n < b.len() && a[n] < b[n]))
}

proof fn lemma_not_behind(a: Seq<u8>, b: Seq<u8>)
    requires
        !crate::order::lex_lt(b, a),
    ensures
        not_behind(a, b),
    decreases a.len(),
{
    if a.len() == 0 {
        assert(a.take(0) =~= b.take(0));
    } else {
        assert(b.len() > 0);
        if a[0] != b[0] {
            assert(a.take(0) =~= b.take(0));
            assert(a[0] < b[0]);
        } else {
            let (x, y) = (a.drop_first(), b.drop_first());
            lemma_not_behind(x, y);
            let n = choose|n: int|
                0 <= n <= x.len() && n <= y.len() && #[trigger] x.take(n) == y.take(n) && (n
                    == x.len() || (n < y.len() && x[n] < y[n]));
            assert(a.take(n + 1) =~= seq![a[0]] + x.take(n));
            assert(b.take(n + 1) =~= seq![b[0]] + y.take(n));
            assert(a.take(n + 1) == b.take(n + 1));
        }
    }
}

/// One of the hits is the record.
pub open spec fn told_of(hits: Seq<HitView>, r: RecordView) -> bool {
    exists|i: int| 0 <= i < hits.len() && (#[trigger] hits[i]).record == r
}

/// A record that matches a query and is not among its hits.
pub open spec fn left_out(q: QueryView, rs: Seq<RecordView>, hits: Seq<HitView>, r: RecordView) -> bool {
    rs.contains(r) && crate::query::matches_query(q, r) && !told_of(hits, r)
}

pub proof fn lemma_found(q: QueryView, rs: Seq<RecordView>, r: RecordView)
    requires
        rs.contains(r),
        crate::query::matches_query(q, r),
    ensures
        crate::index::hits_among(q, rs).contains(
            HitView { score: crate::query::score_of(q, r)->0, record: r },
        ),
    decreases rs.len(),
{
    let h = HitView { score: crate::query::score_of(q, r)->0, record: r };
    let less = rs.drop_last();
    let front = crate::index::hits_among(q, less);
    if rs.last() == r {
        assert(crate::index::hits_among(q, rs) =~= front.push(h));
        assert(front.push(h)[front.len() as int] == h);
    } else {
        let k = rs.index_of(r);
        assert(less[k] == r);
        assert(less.contains(r));
        lemma_found(q, less, r);
        let i = front.index_of(h);
        assert(crate::index::hits_among(q, rs)[i] == h);
    }
}

/// Nothing that was left out comes before anything that was told.
proof fn lemma_left_out(
    ranking: Ranking,
    q: QueryView,
    rs: Seq<RecordView>,
    hits: Seq<HitView>,
    r: RecordView,
    i: int,
)
    requires
        crate::index::answers(ranking, q.limit, crate::index::hits_among(q, rs), hits),
        left_out(q, rs, hits, r),
        0 <= i < hits.len(),
    ensures
        !crate::rank::ranks_before(
            ranking,
            HitView { score: crate::query::score_of(q, r)->0, record: r },
            hits[i],
        ),
{
    let found = crate::index::hits_among(q, rs);
    let h = HitView { score: crate::query::score_of(q, r)->0, record: r };
    lemma_found(q, rs, r);
    found.to_multiset_ensures();
    hits.to_multiset_ensures();
    assert(found.to_multiset().count(h) > 0);
    assert(!hits.contains(h)) by {
        if hits.contains(h) {
            let k = hits.index_of(h);
            assert(hits[k].record == r);
        }
    }
    assert(hits.to_multiset().count(h) == 0);
    assert(hits.contains(hits[i]));
    assert(hits.to_multiset().count(hits[i]) > 0);
}

/// Sorted by size, sizes never grow from one hit to the next, and nothing that the limit left
/// out is larger than anything that was told.
pub proof fn law_the_largest_come_first(
    ranking: Ranking,
    q: QueryView,
    rs: Seq<RecordView>,
    hits: Seq<HitView>,
)
    requires
        q.sort == SortKey::SizeDesc,
        ranking == crate::index::index_ranking(q) || ranking
            == crate::compact_index::compact_ranking(q),
        crate::index::answers(ranking, q.limit, crate::index::hits_among(q, rs), hits),
    ensures
        forall|i: int, j: int|
            0 <= i < j < hits.len() ==> (#[trigger] hits[i]).record.size >= (
            #[trigger] hits[j]).record.size,
        forall|r: RecordView, i: int|
            0 <= i < hits.len() && #[trigger] left_out(q, rs, hits, r) ==> (
            #[trigger] hits[i]).record.size >= r.size,
{
    assert forall|r: RecordView, i: int|
        0 <= i < hits.len() && #[trigger] left_out(q, rs, hits, r) implies (
    #[trigger] hits[i]).record.size >= r.size by {
        lemma_left_out(ranking, q, rs, hits, r, i);
    }
}

/// Sorted by time, times never grow from one hit to the next, and nothing that the limit left
/// out is newer than anything that was told.
pub proof fn law_the_newest_come_first(
    ranking: Ranking,
    q: QueryView,
    rs: Seq<RecordView>,
    hits: Seq<HitView>,
)
    requires
        q.sort == SortKey::MtimeDesc,
        ranking == crate::index::index_ranking(q) || ranking
            == crate::compact_index::compact_ranking(q),
        crate::index::answers(ranking, q.limit, crate::index::hits_among(q, rs), hits),
    ensures
        forall|i: int, j: int|
            0 <= i < j < hits.len() ==> (#[trigger] hits[i]).record.mtime >= (
            #[trigger] hits[j]).record.mtime,
        forall|r: RecordView, i: int|
            0 <= i < hits.len() && #[trigger] left_out(q, rs, hits, r) ==> (
            #[trigger] hits[i]).record.mtime >= r.mtime,
{
    assert forall|r: RecordView, i: int|
        0 <= i < hits.len() && #[trigger] left_out(q, rs, hits, r) implies (
    #[trigger] hits[i]).record.mtime >= r.mtime by {
        lemma_left_out(ranking, q, rs, hits, r, i);
    }
}

/// By relevance, scores never grow from one hit to the next, and of two with one score the
/// newer comes first; nothing that the limit left out has a higher score, or the same and a
/// later time.
pub proof fn law_the_most_relevant_come_first(
    ranking: Ranking,
    q: QueryView,
    rs: Seq<RecordView>,
    hits: Seq<HitView>,
)
    requires
        q.sort == SortKey::Relevance,
        ranking == crate::index::index_ranking(q) || ranking
            == crate::compact_index::compact_ranking(q),
        crate::index::answers(ranking, q.limit, crate::index::hits_among(q, rs), hits),
    ensures
        forall|i: int, j: int|
            0 <= i < j < hits.len() ==> (#[trigger] hits[i]).score >= (#[trigger] hits[j]).score
                && (hits[i].score == hits[j].score ==> hits[i].record.mtime
                >= hits[j].record.mtime),
        forall|r: RecordView, i: int|
            0 <= i < hits.len() && #[trigger] left_out(q, rs, hits, r) ==> (
            #[trigger] hits[i]).score >= crate::query::score_of(q, r)->0 && (hits[i].score
                == crate::query::score_of(q, r)->0 ==> hits[i].record.mtime >= r.mtime),
{
    assert forall|r: RecordView, i: int|
        0 <= i < hits.len() && #[trigger] left_out(q, rs, hits, r) implies (
    #[trigger] hits[i]).score >= crate::query::score_of(q, r)->0 && (hits[i].score
        == crate::query::score_of(q, r)->0 ==> hits[i].record.mtime >= r.mtime) by {
        lemma_left_out(ranking, q, rs, hits, r, i);
    }
}

/// Sorted by path, the paths of the hits are in dictionary order, and nothing that the limit
/// left out comes before anything that was told.
pub proof fn law_paths_are_in_order(
    ranking: Ranking,
    q: QueryView,
    rs: Seq<RecordView>,
    hits: Seq<HitView>,
)
    requires
        q.sort == SortKey::PathAsc,
        ranking == crate::index::index_ranking(q) || ranking
            == crate::compact_index::compact_ranking(q),
        crate::index::answers(ranking, q.limit, crate::index::hits_among(q, rs), hits),
    ensures
        forall|i: int, j: int|
            0 <= i < j < hits.len() ==> not_behind(
                vstd::utf8::encode_utf8((#[trigger] hits[i]).record.path),
                vstd::utf8::encode_utf8((#[trigger] hits[j]).record.path),
            ),
        forall|r: RecordView, i: int|
            0 <= i < hits.len() && #[trigger] left_out(q, rs, hits, r) ==> not_behind(
                vstd::utf8::encode_utf8((#[trigger] hits[i]).record.path),
                vstd::utf8::encode_utf8(r.path),
            ),
{
    assert forall|i: int, j: int| 0 <= i < j < hits.len() implies not_behind(
        vstd::utf8::encode_utf8((#[trigger] hits[i]).record.path),
        vstd::utf8::encode_utf8((#[trigger] hits[j]).record.path),
    ) by {
        lemma_not_behind(
            vstd::utf8::encode_utf8(hits[i].record.path),
            vstd::utf8::encode_utf8(hits[j].record.path),
        );
    }
    assert forall|r: RecordView, i: int|
        0 <= i < hits.len() && #[trigger] left_out(q, rs, hits, r) implies not_behind(
        vstd::utf8::encode_utf8((#[trigger] hits[i]).record.path),
        vstd::utf8::encode_utf8(r.path),
    ) by {
        lemma_left_out(ranking, q, rs, hits, r, i);
        lemma_not_behind(
            vstd::utf8::encode_utf8(hits[i].record.path),
            vstd::utf8::encode_utf8(r.path),
        );
    }
}

/// The bytes of the file name of a path, in lower case.
pub open spec fn low_name(path: Seq<char>) -> Seq<u8> {
    vstd::utf8::encode_utf8(crate::text::lowercase(crate::types::name_of(path)))
}

/// The bytes of the file name of a path, with ASCII letters in lower case.
pub open spec fn plain_low_name(path: Seq<char>) -> Seq<u8> {
    vstd::utf8::encode_utf8(crate::text::ascii_lower_all(crate::types::name_of(path)))
}

/// Sorted by name in an index in memory, the file names of the hits are in dictionary order,
/// whatever their case, and nothing that the limit left out comes before anything that was
/// told.
pub proof fn law_names_are_in_order(q: QueryView, rs: Seq<RecordView>, hits: Seq<HitView>)
    requires
        q.sort == SortKey::NameAsc,
        crate::index::answers(
            crate::index::index_ranking(q),
            q.limit,
            crate::index::hits_among(q, rs),
            hits,
        ),
    ensures
        forall|i: int, j: int|
            0 <= i < j < hits.len() ==> not_behind(
                low_name((#[trigger] hits[i]).record.path),
                low_name((#[trigger] hits[j]).record.path),
            ),
        forall|r: RecordView, i: int|
            0 <= i < hits.len() && #[trigger] left_out(q, rs, hits, r) ==> not_behind(
                low_name((#[trigger] hits[i]).record.path),
                low_name(r.path),
            ),
{
    assert forall|i: int, j: int| 0 <= i < j < hits.len() implies not_behind(
        low_name((#[trigger] hits[i]).record.path),
        low_name((#[trigger] hits[j]).record.path),
    ) by {
        lemma_not_behind(low_name(hits[i].record.path), low_name(hits[j].record.path));
    }
    assert forall|r: RecordView, i: int|
        0 <= i < hits.len() && #[trigger] left_out(q, rs, hits, r) implies not_behind(
        low_name((#[trigger] hits[i]).record.path),
        low_name(r.path),
    ) by {
        lemma_left_out(crate::index::index_ranking(q), q, rs, hits, r, i);
        lemma_not_behind(low_name(hits[i].record.path), low_name(r.path));
    }
}

/// Sorted by name in a compact index, ASCII letters count in lower case.
pub proof fn law_compact_names_are_in_order(q: QueryView, rs: Seq<RecordView>, hits: Seq<HitView>)
    requires
        q.sort == SortKey::NameAsc,
        crate::index::answers(
            crate::compact_index::compact_ranking(q),
            q.limit,
            crate::index::hits_among(q, rs),
            hits,
        ),
    ensures
        forall|i: int, j: int|
            0 <= i < j < hits.len() ==> not_behind(
                plain_low_name((#[trigger] hits[i]).record.path),
                plain_low_name((#[trigger] hits[j]).record.path),
            ),
        forall|r: RecordView, i: int|
            0 <= i < hits.len() && #[trigger] left_out(q, rs, hits, r) ==> not_behind(
                plain_low_name((#[trigger] hits[i]).record.path),
                plain_low_name(r.path),
            ),
{
    assert forall|i: int, j: int| 0 <= i < j < hits.len() implies not_behind(
        plain_low_name((#[trigger] hits[i]).record.path),
        plain_low_name((#[trigger] hits[j]).record.path),
    ) by {
        lemma_not_behind(plain_low_name(hits[i].record.path), plain_low_name(hits[j].record.path));
    }
    assert forall|r: RecordView, i: int|
        0 <= i < hits.len() && #[trigger] left_out(q, rs, hits, r) implies not_behind(
        plain_low_name((#[trigger] hits[i]).record.path),
        plain_low_name(r.path),
    ) by {
        lemma_left_out(crate::compact_index::compact_ranking(q), q, rs, hits, r, i);
        lemma_not_behind(plain_low_name(hits[i].record.path), plain_low_name(r.path));
    }
}


/// The hits of a compact index and its log are sorted as the query says, and where that does
/// not tell two apart, by their paths.
pub proof fn law_compact_hits_are_in_order(
    v: CompactView,
    o: OverlayView,
    q: QueryView,
    hits: Seq<HitView>,
    stats: SearchStats,
    i: int,
    j: int,
)
    requires
        crate::compact_index::search_answer(v, o, q, hits, stats),
        0 <= i < j < hits.len(),
    ensures
        ({
            let (a, b) = (hits[i], hits[j]);
            let paths = not_behind(
                vstd::utf8::encode_utf8(a.record.path),
                vstd::utf8::encode_utf8(b.record.path),
            );
            match q.sort {
                SortKey::SizeDesc => a.record.size > b.record.size || (a.record.size
                    == b.record.size && paths),
                SortKey::MtimeDesc => a.record.mtime > b.record.mtime || (a.record.mtime
                    == b.record.mtime && paths),
                SortKey::Relevance => a.score > b.score || (a.score == b.score && a.record.mtime
                    > b.record.mtime) || (a.score == b.score && a.record.mtime == b.record.mtime
                    && paths),
                SortKey::PathAsc => paths,
                SortKey::NameAsc => {
                    let (x, y) = (plain_low_name(a.record.path), plain_low_name(b.record.path));
                    not_behind(x, y) && (x == y ==> paths)
                },
            }
        }),
{
    let (a, b) = (hits[i], hits[j]);
    assert(!crate::rank::ranks_before(crate::compact_index::compact_ranking(q), b, a));
    let (x, y) = (vstd::utf8::encode_utf8(a.record.path), vstd::utf8::encode_utf8(b.record.path));
    if !crate::order::lex_lt(y, x) {
        lemma_not_behind(x, y);
    }
    let (m, n) = (plain_low_name(a.record.path), plain_low_name(b.record.path));
    if !crate::order::lex_lt(n, m) {
        lemma_not_behind(m, n);
    }
}

/// A search tells of as many records as match, or as many as the limit allows where that is
/// less; zero allows all.
pub proof fn law_the_limit_is_used_up(
    ranking: Ranking,
    q: QueryView,
    rs: Seq<RecordView>,
    hits: Seq<HitView>,
)
    requires
        crate::index::answers(ranking, q.limit, crate::index::hits_among(q, rs), hits),
    ensures
        ({
            let all = rs.filter(|r: RecordView| crate::query::matches_query(q, r)).len();
            hits.len() == if q.limit == 0 || all <= q.limit {
                all
            } else {
                q.limit as nat
            }
        }),
{
    lemma_count(q, rs);
    crate::index::hits_among(q, rs).to_multiset_ensures();
    hits.to_multiset_ensures();
}

proof fn lemma_count(q: QueryView, rs: Seq<RecordView>)
    ensures
        crate::index::hits_among(q, rs).len() == rs.filter(
            |r: RecordView| crate::query::matches_query(q, r),
        ).len(),
    decreases rs.len(),
{
    reveal(Seq::filter);
    if rs.len() > 0 {
        lemma_count(q, rs.drop_last());
    }
}

} // verus!
