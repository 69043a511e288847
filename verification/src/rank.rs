//! Ranking of search hits: the orders, and keeping only the best.

use crate::order::{Precedence, Standing};
use crate::query::SortKey;
use crate::types::{FileRecord, RecordView};
use vstd::multiset::Multiset;
use vstd::prelude::*;

verus! {

/// What a search looked at, and how many microseconds it took.
#[derive(Debug, Clone, Copy)]
pub struct SearchStats {
    pub scanned: u64,
    pub matched: u64,
    pub wall_us: u64,
}

impl Default for SearchStats {
    fn default() -> (r: SearchStats)
        ensures
            r == (SearchStats { scanned: 0, matched: 0, wall_us: 0 }),
    {
        SearchStats { scanned: 0, matched: 0, wall_us: 0 }
    }
}

/// A record that matched, with its relevance.
#[derive(Debug)]
pub struct SearchHit {
    pub score: u32,
    pub record: FileRecord,
}

/// A hit as a mathematical value.
#[verifier::ext_equal]
pub struct HitView {
    pub score: u32,
    pub record: RecordView,
}

impl View for SearchHit {
    type V = HitView;

    open spec fn view(&self) -> HitView {
        HitView { score: self.score, record: self.record@ }
    }
}

impl Clone for SearchHit {
    fn clone(&self) -> (r: SearchHit)
        ensures
            r@ == self@,
    {
        SearchHit { score: self.score, record: self.record.clone() }
    }
}

/// The views of hits.
pub open spec fn hit_views(hits: Seq<SearchHit>) -> Seq<HitView> {
    Seq::new(hits.len(), |i: int| hits[i]@)
}

/// How hits are ordered: by a sort key, and whether the path breaks ties.
#[derive(Clone, Copy)]
pub struct Ranking {
    pub sort: SortKey,
    pub paths_break_ties: bool,
}

/// The bytes by which names are compared: in lower case, where ties are broken by the
/// path only ASCII letters are lowered.
pub open spec fn name_key(ranking: Ranking, r: RecordView) -> Seq<u8> {
    let name = crate::types::name_of(r.path);
    vstd::utf8::encode_utf8(
        if ranking.paths_break_ties {
            crate::text::ascii_lower_all(name)
        } else {
            crate::text::lowercase(name)
        },
    )
}

/// The bytes by which paths are compared.
pub open spec fn path_key(r: RecordView) -> Seq<u8> {
    vstd::utf8::encode_utf8(r.path)
}

/// The path decides, where the ranking lets it.
pub open spec fn path_first(ranking: Ranking, a: HitView, b: HitView) -> bool {
    ranking.paths_break_ties && crate::order::lex_lt(path_key(a.record), path_key(b.record))
}

/// `a` is returned before `b`.
pub open spec fn ranks_before(ranking: Ranking, a: HitView, b: HitView) -> bool {
    match ranking.sort {
        SortKey::Relevance => {
            ||| a.score > b.score
            ||| a.score == b.score && a.record.mtime > b.record.mtime
            ||| a.score == b.score && a.record.mtime == b.record.mtime && path_first(ranking, a, b)
        },
        SortKey::NameAsc => {
            ||| crate::order::lex_lt(name_key(ranking, a.record), name_key(ranking, b.record))
            ||| name_key(ranking, a.record) == name_key(ranking, b.record) && path_first(
                ranking,
                a,
                b,
            )
        },
        SortKey::PathAsc => crate::order::lex_lt(path_key(a.record), path_key(b.record)),
        SortKey::SizeDesc => {
            ||| a.record.size > b.record.size
            ||| a.record.size == b.record.size && path_first(ranking, a, b)
        },
        SortKey::MtimeDesc => {
            ||| a.record.mtime > b.record.mtime
            ||| a.record.mtime == b.record.mtime && path_first(ranking, a, b)
        },
    }
}

/// Of two hits at most one comes first.
pub proof fn lemma_ranks_one_way(ranking: Ranking, a: HitView, b: HitView)
    ensures
        !(ranks_before(ranking, a, b) && ranks_before(ranking, b, a)),
{
    crate::order::lemma_lex_total(path_key(a.record), path_key(b.record));
    crate::order::lemma_lex_total(name_key(ranking, a.record), name_key(ranking, b.record));
}

/// "Not after" is transitive.
pub proof fn lemma_ranks_not_after(ranking: Ranking, a: HitView, b: HitView, c: HitView)
    requires
        !ranks_before(ranking, b, a),
        !ranks_before(ranking, c, b),
    ensures
        !ranks_before(ranking, c, a),
{
    let (pa, pb, pc) = (path_key(a.record), path_key(b.record), path_key(c.record));
    let (na, nb, nc) = (
        name_key(ranking, a.record),
        name_key(ranking, b.record),
        name_key(ranking, c.record),
    );
    crate::order::lemma_lex_total(pa, pb);
    crate::order::lemma_lex_total(pb, pc);
    crate::order::lemma_lex_total(pa, pc);
    crate::order::lemma_lex_total(na, nb);
    crate::order::lemma_lex_total(nb, nc);
    crate::order::lemma_lex_total(na, nc);
    if !crate::order::lex_lt(pb, pa) && !crate::order::lex_lt(pc, pb) {
        crate::order::lemma_lex_not_after(pa, pb, pc);
    }
    if !crate::order::lex_lt(nb, na) && !crate::order::lex_lt(nc, nb) {
        crate::order::lemma_lex_not_after(na, nb, nc);
    }
}

/// `kept` holds the `limit` best of `all`, or all of them where they are fewer: nothing
/// that was left out comes before anything that was kept.
pub open spec fn best_of(
    ranking: Ranking,
    all: Multiset<HitView>,
    kept: Multiset<HitView>,
    limit: nat,
) -> bool {
    &&& kept.subset_of(all)
    &&& kept.len() == (if all.len() <= limit {
        all.len()
    } else {
        limit
    })
    &&& forall|x: HitView, y: HitView|
        #![trigger all.count(x), kept.count(y)]
        all.count(x) > kept.count(x) && kept.count(y) > 0 ==> !ranks_before(ranking, x, y)
}

/// Hits in the order of the ranking.
pub open spec fn in_rank_order(ranking: Ranking, hits: Seq<HitView>) -> bool {
    forall|i: int, j: int|
        0 <= i < j < hits.len() ==> !ranks_before(ranking, #[trigger] hits[j], #[trigger] hits[i])
}

/// A multiset that contains another of the same size is equal to it.
pub proof fn lemma_same_size<A>(small: Multiset<A>, big: Multiset<A>)
    requires
        small.subset_of(big),
        small.len() == big.len(),
    ensures
        small == big,
{
    broadcast use vstd::multiset::group_multiset_axioms;

    let rest = big.sub(small);
    assert(big =~= small.add(rest));
    assert(rest.len() == 0);
    assert(rest =~= Multiset::empty()) by {
        vstd::multiset::lemma_multiset_empty_len(rest);
    }
    assert(big =~= small);
}

/// Something of the larger multiset is missing from the smaller one.
proof fn lemma_something_left_out<A>(part: Multiset<A>, whole: Multiset<A>) -> (x: A)
    requires
        part.len() < whole.len(),
    ensures
        whole.count(x) > part.count(x),
{
    broadcast use vstd::multiset::group_multiset_axioms;

    if forall|x: A| whole.count(x) <= part.count(x) {
        assert(whole.subset_of(part));
        assert(part =~= whole.add(part.sub(whole)));
        assert(false);
    }
    choose|x: A| whole.count(x) > part.count(x)
}

/// Throwing away all but the best in between does not change what is best in the end.
pub proof fn law_pruning_keeps_the_best(
    ranking: Ranking,
    seen: Multiset<HitView>,
    kept: Multiset<HitView>,
    more: Multiset<HitView>,
    last: Multiset<HitView>,
    limit: nat,
)
    requires
        best_of(ranking, seen, kept, limit),
        best_of(ranking, kept.add(more), last, limit),
    ensures
        best_of(ranking, seen.add(more), last, limit),
{
    broadcast use vstd::multiset::group_multiset_axioms;

    let all = seen.add(more);
    let pool = kept.add(more);
    assert(last.subset_of(all)) by {
        assert forall|x: HitView| last.count(x) <= all.count(x) by {
            assert(last.count(x) <= pool.count(x));
            assert(kept.count(x) <= seen.count(x));
        }
    }
    if kept.len() == seen.len() {
        lemma_same_size(kept, seen);
    }
    assert forall|x: HitView, y: HitView|
        #![trigger all.count(x), last.count(y)]
        all.count(x) > last.count(x) && last.count(y) > 0 implies !ranks_before(ranking, x, y) by {
        assert(last.count(y) <= pool.count(y));
        if pool.count(x) > last.count(x) {
        } else {
            assert(seen.count(x) > kept.count(x));
            assert(kept != seen);
            assert(kept.len() == limit);
            assert(last.len() == limit);
            if kept.count(y) > 0 {
            } else {
                // Some kept hit had to make room for `y`.
                let room = kept.intersection_with(last);
                assert(room.subset_of(last.remove(y))) by {
                    assert forall|z: HitView| room.count(z) <= last.remove(y).count(z) by {
                        vstd::multiset::lemma_intersection_count(kept, last, z);
                    }
                }
                assert(last.remove(y).len() == limit - 1);
                assert(room.len() <= limit - 1) by {
                    assert(last.remove(y) =~= room.add(last.remove(y).sub(room)));
                }
                let k = lemma_something_left_out(room, kept);
                vstd::multiset::lemma_intersection_count(kept, last, k);
                assert(kept.count(k) > last.count(k));
                assert(pool.count(k) > last.count(k));
                assert(!ranks_before(ranking, k, y));
                assert(!ranks_before(ranking, x, k));
                lemma_ranks_not_after(ranking, y, k, x);
            }
        }
    }
}

/// Everything is the best of itself, where the limit allows it.
pub proof fn lemma_all_is_best(ranking: Ranking, all: Multiset<HitView>, limit: nat)
    requires
        all.len() <= limit,
    ensures
        best_of(ranking, all, all, limit),
{
}

fn name_bytes(ranking: Ranking, r: &FileRecord) -> (b: Vec<u8>)
    ensures
        b@ == name_key(ranking, r@),
{
    let name = r.name();
    if ranking.paths_break_ties {
        let low = crate::text::lowered(crate::text::chars_of(name).as_slice());
        let s = crate::text::string_of(low.as_slice());
        crate::bytes::to_vec(s.as_str().as_bytes())
    } else {
        let s = crate::text::to_lowercase(name);
        crate::bytes::to_vec(s.as_str().as_bytes())
    }
}

fn path_decides(ranking: Ranking, a: &SearchHit, b: &SearchHit) -> (r: bool)
    ensures
        r == path_first(ranking, a@, b@),
{
    proof {
        crate::order::lemma_lex_total(path_key(a@.record), path_key(b@.record));
        crate::order::lemma_lex_irreflexive(path_key(a@.record));
    }
    ranking.paths_break_ties && crate::order::text_standing(
        a.record.path.as_str(),
        b.record.path.as_str(),
    ) == Standing::Before
}

/// Whether `a` is returned before `b`.
pub fn hit_before(ranking: Ranking, a: &SearchHit, b: &SearchHit) -> (r: bool)
    ensures
        r == ranks_before(ranking, a@, b@),
{
    match ranking.sort {
        SortKey::Relevance => a.score > b.score || (a.score == b.score && (a.record.mtime
            > b.record.mtime || (a.record.mtime == b.record.mtime && path_decides(ranking, a, b)))),
        SortKey::NameAsc => {
            let x = name_bytes(ranking, &a.record);
            let y = name_bytes(ranking, &b.record);
            proof {
                crate::order::lemma_lex_total(x@, y@);
                crate::order::lemma_lex_irreflexive(x@);
            }
            match crate::order::lex_standing(x.as_slice(), y.as_slice()) {
                Standing::Before => true,
                Standing::Same => path_decides(ranking, a, b),
                Standing::After => false,
            }
        },
        SortKey::PathAsc => {
            proof {
                crate::order::lemma_lex_total(path_key(a@.record), path_key(b@.record));
                crate::order::lemma_lex_irreflexive(path_key(a@.record));
            }
            crate::order::text_standing(a.record.path.as_str(), b.record.path.as_str())
                == Standing::Before
        },
        SortKey::SizeDesc => a.record.size > b.record.size || (a.record.size == b.record.size
            && path_decides(ranking, a, b)),
        SortKey::MtimeDesc => a.record.mtime > b.record.mtime || (a.record.mtime == b.record.mtime
            && path_decides(ranking, a, b)),
    }
}

/// The order of some hits, by their positions.
struct HitOrder<'a> {
    hits: &'a Vec<SearchHit>,
    ranking: Ranking,
}

impl<'a> Precedence for HitOrder<'a> {
    closed spec fn known(&self, a: usize) -> bool {
        a < self.hits@.len()
    }

    closed spec fn le(&self, a: usize, b: usize) -> bool {
        !ranks_before(self.ranking, self.hits@[b as int]@, self.hits@[a as int]@)
    }

    proof fn total(&self, a: usize, b: usize) {
        lemma_ranks_one_way(self.ranking, self.hits@[a as int]@, self.hits@[b as int]@);
    }

    proof fn transitive(&self, a: usize, b: usize, c: usize) {
        lemma_ranks_not_after(
            self.ranking,
            self.hits@[a as int]@,
            self.hits@[b as int]@,
            self.hits@[c as int]@,
        );
    }

    fn may_precede(&self, a: usize, b: usize) -> (r: bool) {
        !hit_before(self.ranking, &self.hits[b], &self.hits[a])
    }
}

/// Elements picked by position.
pub open spec fn picked<A>(from: Seq<A>, positions: Seq<usize>) -> Seq<A> {
    Seq::new(positions.len(), |i: int| from[positions[i] as int])
}

/// Picking by positions depends on them only as a multiset, and all positions in turn
/// pick everything.
pub proof fn lemma_picked_multiset<A>(from: Seq<A>, p: Seq<usize>, q: Seq<usize>)
    requires
        p.to_multiset() == q.to_multiset(),
    ensures
        picked(from, p).to_multiset() == picked(from, q).to_multiset(),
    decreases p.len(),
{
    broadcast use vstd::multiset::group_multiset_axioms;

    p.to_multiset_ensures();
    q.to_multiset_ensures();
    if p.len() == 0 {
        assert(picked(from, p) =~= picked(from, q));
    } else {
        let x = p.last();
        assert(p.to_multiset().count(x) > 0) by {
            assert(p.contains(x));
        }
        assert(q.contains(x));
        let i = q.index_of(x);
        let rest = q.remove(i);
        assert(p =~= p.drop_last().push(x));
        p.drop_last().to_multiset_ensures();
        assert(p.drop_last().to_multiset() =~= p.to_multiset().remove(x));
        assert(rest.to_multiset() =~= q.to_multiset().remove(x));
        lemma_picked_multiset(from, p.drop_last(), rest);
        let pf = picked(from, p.drop_last());
        let qf = picked(from, q);
        pf.to_multiset_ensures();
        qf.to_multiset_ensures();
        assert(picked(from, p) =~= pf.push(from[x as int]));
        assert(picked(from, rest) =~= qf.remove(i));
        assert(qf[i] == from[x as int]);
        assert(qf.to_multiset().count(from[x as int]) > 0) by {
            assert(qf.contains(qf[i]));
        }
        assert(picked(from, p).to_multiset() =~= qf.to_multiset());
    }
}

/// Sorts hits and drops all but the best: all of them are kept where `limit` is zero.
pub fn sort_best(hits: Vec<SearchHit>, ranking: Ranking, limit: usize) -> (r: Vec<SearchHit>)
    ensures
        in_rank_order(ranking, hit_views(r@)),
        best_of(
            ranking,
            hit_views(hits@).to_multiset(),
            hit_views(r@).to_multiset(),
            if limit == 0 {
                hits@.len()
            } else {
                limit as nat
            },
        ),
{
    let n: usize = hits.len();
    let all = crate::order::first_indices(n);
    let by = HitOrder { hits: &hits, ranking };
    let order = crate::order::sorted(all.as_slice(), &by);
    let keep: usize = if limit == 0 || n <= limit {
        n
    } else {
        limit
    };
    let ghost views = hit_views(hits@);
    let ghost whole = picked(views, order@);
    proof {
        broadcast use vstd::seq_lib::group_to_multiset_ensures;

        assert forall|i: int| 0 <= i < order@.len() implies (#[trigger] order@[i]) < n by {
            assert(order@.contains(order@[i]));
            assert(all@.to_multiset().count(order@[i]) > 0);
            assert(all@.contains(order@[i]));
        }
        lemma_picked_multiset(views, order@, all@);
        assert(picked(views, all@) =~= views);
        assert forall|i: int, j: int| 0 <= i < j < whole.len() implies !ranks_before(
            ranking,
            #[trigger] whole[j],
            #[trigger] whole[i],
        ) by {
            assert(by.le(order@[i], order@[j]));
        }
    }
    let mut out: Vec<SearchHit> = Vec::new();
    let mut i: usize = 0;
    assert(hit_views(out@) =~= whole.take(0));
    while i < keep
        invariant
            i <= keep <= n,
            n == hits@.len(),
            order@.len() == n,
            views == hit_views(hits@),
            whole == picked(views, order@),
            forall|k: int| 0 <= k < order@.len() ==> (#[trigger] order@[k]) < n,
            hit_views(out@) == whole.take(i as int),
        decreases keep - i,
    {
        let h = hits[order[i]].clone();
        let ghost before = out@;
        out.push(h);
        assert(hit_views(out@) =~= hit_views(before).push(h@));
        i += 1;
        assert(whole.take(i as int) =~= whole.take(i - 1).push(whole[i - 1]));
    }
    proof {
        lemma_prefix_is_best(ranking, whole, keep as int);
    }
    out
}

/// The front of a ranked list holds its best.
proof fn lemma_prefix_is_best(ranking: Ranking, whole: Seq<HitView>, keep: int)
    requires
        in_rank_order(ranking, whole),
        0 <= keep <= whole.len(),
    ensures
        in_rank_order(ranking, whole.take(keep)),
        best_of(ranking, whole.to_multiset(), whole.take(keep).to_multiset(), keep as nat),
{
    broadcast use vstd::multiset::group_multiset_axioms;

    let a = whole.take(keep);
    let b = whole.skip(keep);
    assert(whole =~= a + b);
    vstd::seq_lib::lemma_multiset_commutative(a, b);
    a.to_multiset_ensures();
    b.to_multiset_ensures();
    whole.to_multiset_ensures();
    let (wm, am, bm) = (whole.to_multiset(), a.to_multiset(), b.to_multiset());
    assert forall|x: HitView, y: HitView|
        #![trigger wm.count(x), am.count(y)]
        wm.count(x) > am.count(x) && am.count(y) > 0 implies !ranks_before(ranking, x, y) by {
        assert(bm.count(x) > 0);
        assert(b.contains(x));
        assert(a.contains(y));
        let i = choose|i: int| 0 <= i < b.len() && b[i] == x;
        let j = choose|j: int| 0 <= j < a.len() && a[j] == y;
        assert(whole[keep + i] == x);
        assert(whole[j] == y);
    }
}

/// Drops all but the `limit` best hits.
pub fn retain_best(ranked: Vec<SearchHit>, limit: usize, ranking: Ranking) -> (r: Vec<SearchHit>)
    requires
        limit > 0,
    ensures
        best_of(
            ranking,
            hit_views(ranked@).to_multiset(),
            hit_views(r@).to_multiset(),
            limit as nat,
        ),
        r@.len() <= limit,
{
    let ghost all = hit_views(ranked@).to_multiset();
    proof {
        hit_views(ranked@).to_multiset_ensures();
    }
    if ranked.len() > limit {
        let r = sort_best(ranked, ranking, limit);
        proof {
            hit_views(r@).to_multiset_ensures();
        }
        r
    } else {
        proof {
            lemma_all_is_best(ranking, all, limit as nat);
        }
        ranked
    }
}

/// A count, as far as 64 bits hold it.
pub open spec fn capped(n: nat) -> u64 {
    if n <= u64::MAX {
        n as u64
    } else {
        u64::MAX
    }
}

/// Collects hits and keeps the best of them, so that a broad query never holds much
/// more than it returns. Every hit counts as matched, kept or not.
pub struct Collector {
    hits: Vec<SearchHit>,
    matched: u64,
    ranking: Ranking,
    limit: usize,
    seen: Ghost<Multiset<HitView>>,
    kept: Ghost<Multiset<HitView>>,
    more: Ghost<Multiset<HitView>>,
}

impl Collector {
    /// All hits so far.
    pub closed spec fn offered(&self) -> Multiset<HitView> {
        self.seen@.add(self.more@)
    }

    /// The hits that are still held.
    pub closed spec fn held(&self) -> Multiset<HitView> {
        hit_views(self.hits@).to_multiset()
    }

    /// How the hits are ranked.
    pub closed spec fn by(&self) -> Ranking {
        self.ranking
    }

    /// How many hits are wanted at most; zero for all.
    pub closed spec fn cap(&self) -> usize {
        self.limit
    }

    /// Nothing was lost that the final answer could need.
    pub closed spec fn wf(&self) -> bool {
        &&& hit_views(self.hits@).to_multiset() == self.kept@.add(self.more@)
        &&& self.matched == capped(self.offered().len())
        &&& if self.limit == 0 {
            self.seen@ == self.kept@
        } else {
            best_of(self.ranking, self.seen@, self.kept@, self.limit as nat)
        }
    }

    /// An empty collection.
    pub fn new(ranking: Ranking, limit: usize) -> (r: Collector)
        ensures
            r.wf(),
            r.offered() == Multiset::<HitView>::empty(),
            r.held() == Multiset::<HitView>::empty(),
            r.by() == ranking,
            r.cap() == limit,
    {
        let hits: Vec<SearchHit> = Vec::new();
        let r = Collector {
            hits,
            matched: 0,
            ranking,
            limit,
            seen: Ghost(Multiset::empty()),
            kept: Ghost(Multiset::empty()),
            more: Ghost(Multiset::empty()),
        };
        proof {
            broadcast use vstd::multiset::group_multiset_axioms;

            let none = Multiset::<HitView>::empty();
            assert(none.add(none) =~= none);
            hit_views(r.hits@).to_multiset_ensures();
            assert(hit_views(r.hits@) =~= Seq::empty());
            assert(hit_views(r.hits@).to_multiset() =~= none);
        }
        r
    }

    /// Adds a hit.
    pub fn offer(&mut self, hit: SearchHit)
        requires
            old(self).wf(),
        ensures
            final(self).wf(),
            final(self).offered() == old(self).offered().insert(hit@),
            final(self).held() == old(self).held().insert(hit@),
            final(self).by() == old(self).by(),
            final(self).cap() == old(self).cap(),
    {
        proof {
            broadcast use vstd::multiset::group_multiset_axioms;

            let before = hit_views(self.hits@);
            before.to_multiset_ensures();
            let now = before.push(hit@);
            assert(now.to_multiset() =~= self.kept@.add(self.more@.insert(hit@)));
            assert(self.seen@.add(self.more@.insert(hit@)) =~= self.offered().insert(hit@));
        }
        let ghost h = hit@;
        let ghost before = self.hits@;
        self.matched = self.matched.saturating_add(1);
        self.hits.push(hit);
        self.more = Ghost(self.more@.insert(h));
        assert(hit_views(self.hits@) =~= hit_views(before).push(h));
    }

    /// Drops hits that cannot be among the best any more, where a limit is set and at least
    /// `above` are held: as many as the limit allows stay, and they are the best of those
    /// that were held.
    pub fn prune(&mut self, above: usize)
        requires
            old(self).wf(),
        ensures
            final(self).wf(),
            final(self).offered() == old(self).offered(),
            if old(self).cap() > 0 && old(self).held().len() >= above {
                best_of(
                    old(self).by(),
                    old(self).held(),
                    final(self).held(),
                    old(self).cap() as nat,
                )
            } else {
                final(self).held() == old(self).held()
            },
            final(self).by() == old(self).by(),
            final(self).cap() == old(self).cap(),
    {
        proof {
            hit_views(self.hits@).to_multiset_ensures();
        }
        if self.limit > 0 && self.hits.len() >= above {
            let mut taken: Vec<SearchHit> = Vec::new();
            std::mem::swap(&mut taken, &mut self.hits);
            let best = retain_best(taken, self.limit, self.ranking);
            proof {
                broadcast use vstd::multiset::group_multiset_axioms;

                let last = hit_views(best@).to_multiset();
                law_pruning_keeps_the_best(
                    self.ranking,
                    self.seen@,
                    self.kept@,
                    self.more@,
                    last,
                    self.limit as nat,
                );
                assert(last.add(Multiset::empty()) =~= last);
                assert(self.offered().add(Multiset::empty()) =~= self.offered());
            }
            self.seen = Ghost(self.seen@.add(self.more@));
            self.kept = Ghost(hit_views(best@).to_multiset());
            self.more = Ghost(Multiset::empty());
            self.hits = best;
        }
    }

    /// The best hits in order, and how many matched.
    pub fn finish(self) -> (r: (Vec<SearchHit>, u64))
        requires
            self.wf(),
        ensures
            r.1 == capped(self.offered().len()),
            in_rank_order(self.by(), hit_views(r.0@)),
            best_of(
                self.by(),
                self.offered(),
                hit_views(r.0@).to_multiset(),
                if self.cap() == 0 {
                    self.offered().len()
                } else {
                    self.cap() as nat
                },
            ),
    {
        let ghost (seen, kept, more) = (self.seen@, self.kept@, self.more@);
        let ranking = self.ranking;
        let limit: usize = self.limit;
        let matched: u64 = self.matched;
        proof {
            hit_views(self.hits@).to_multiset_ensures();
        }
        let hits = sort_best(self.hits, ranking, limit);
        proof {
            if limit > 0 {
                law_pruning_keeps_the_best(
                    ranking,
                    seen,
                    kept,
                    more,
                    hit_views(hits@).to_multiset(),
                    limit as nat,
                );
            }
        }
        (hits, matched)
    }
}

} // verus!
