//! Lexicographic order of byte strings, and sorting by a total preorder.

use vstd::prelude::*;

verus! {

/// `a` comes strictly before `b` in byte order.
pub open spec fn lex_lt(a: Seq<u8>, b: Seq<u8>) -> bool
    decreases a.len(),
{
    if b.len() == 0 {
        false
    } else if a.len() == 0 {
        true
    } else if a[0] != b[0] {
        a[0] < b[0]
    } else {
        lex_lt(a.drop_first(), b.drop_first())
    }
}

/// Text is ordered by the bytes of its UTF-8 encoding.
pub open spec fn text_lt(a: Seq<char>, b: Seq<char>) -> bool {
    lex_lt(vstd::utf8::encode_utf8(a), vstd::utf8::encode_utf8(b))
}

/// A proper prefix comes first.
pub proof fn lemma_prefix_first(a: Seq<u8>, b: Seq<u8>)
    requires
        a.len() < b.len(),
        a.is_prefix_of(b),
    ensures
        lex_lt(a, b),
    decreases a.len(),
{
    if a.len() > 0 {
        let (da, db) = (a.drop_first(), b.drop_first());
        assert(a[0] == b.take(a.len() as int)[0]);
        assert(db.take(da.len() as int) =~= da) by {
            assert forall|i: int| 0 <= i < da.len() implies db[i] == da[i] by {
                assert(a[i + 1] == b.take(a.len() as int)[i + 1]);
            }
        }
        lemma_prefix_first(da, db);
    }
}

/// Byte order is strict.
pub proof fn lemma_lex_irreflexive(a: Seq<u8>)
    ensures
        !lex_lt(a, a),
    decreases a.len(),
{
    if a.len() > 0 {
        lemma_lex_irreflexive(a.drop_first());
    }
}

/// Of two byte strings neither, or one, comes first; neither only where they are equal.
pub proof fn lemma_lex_total(a: Seq<u8>, b: Seq<u8>)
    ensures
        !(lex_lt(a, b) && lex_lt(b, a)),
        !lex_lt(a, b) && !lex_lt(b, a) ==> a == b,
    decreases a.len(),
{
    if a.len() > 0 && b.len() > 0 && a[0] == b[0] {
        lemma_lex_total(a.drop_first(), b.drop_first());
        if a.drop_first() == b.drop_first() {
            assert(a =~= seq![a[0]] + a.drop_first());
            assert(b =~= seq![b[0]] + b.drop_first());
        }
    } else if a.len() == 0 && b.len() == 0 {
        assert(a =~= b);
    }
}

/// Byte order is transitive.
pub proof fn lemma_lex_transitive(a: Seq<u8>, b: Seq<u8>, c: Seq<u8>)
    requires
        lex_lt(a, b),
        lex_lt(b, c),
    ensures
        lex_lt(a, c),
    decreases a.len(),
{
    if a.len() > 0 && b.len() > 0 && c.len() > 0 && a[0] == b[0] && b[0] == c[0] {
        lemma_lex_transitive(a.drop_first(), b.drop_first(), c.drop_first());
    }
}

/// "Not after" is transitive as well.
pub proof fn lemma_lex_not_after(a: Seq<u8>, b: Seq<u8>, c: Seq<u8>)
    requires
        !lex_lt(b, a),
        !lex_lt(c, b),
    ensures
        !lex_lt(c, a),
{
    lemma_lex_total(a, b);
    lemma_lex_total(b, c);
    lemma_lex_total(a, c);
    if a != b && b != c {
        lemma_lex_transitive(a, b, c);
    }
}

/// How two values stand in an order.
#[derive(Debug, Clone, Copy, PartialEq, Eq, Structural)]
pub enum Standing {
    Before,
    Same,
    After,
}

/// How two byte strings stand in byte order.
pub fn lex_standing(a: &[u8], b: &[u8]) -> (r: Standing)
    ensures
        match r {
            Standing::Before => lex_lt(a@, b@),
            Standing::Same => a@ == b@,
            Standing::After => lex_lt(b@, a@),
        },
{
    let mut i: usize = 0;
    assert(a@.skip(0) =~= a@);
    assert(b@.skip(0) =~= b@);
    while i < a.len() && i < b.len()
        invariant
            i <= a@.len(),
            i <= b@.len(),
            forall|k: int| 0 <= k < i ==> a@[k] == b@[k],
            lex_lt(a@, b@) == lex_lt(a@.skip(i as int), b@.skip(i as int)),
            lex_lt(b@, a@) == lex_lt(b@.skip(i as int), a@.skip(i as int)),
        decreases a@.len() - i,
    {
        assert(a@.skip(i as int).drop_first() =~= a@.skip(i + 1));
        assert(b@.skip(i as int).drop_first() =~= b@.skip(i + 1));
        if a[i] < b[i] {
            return Standing::Before;
        }
        if a[i] > b[i] {
            return Standing::After;
        }
        i += 1;
    }
    if i < b.len() {
        Standing::Before
    } else if i < a.len() {
        Standing::After
    } else {
        assert(a@ =~= b@);
        Standing::Same
    }
}

/// How two texts stand in byte order.
pub fn text_standing(a: &str, b: &str) -> (r: Standing)
    ensures
        match r {
            Standing::Before => text_lt(a@, b@),
            Standing::Same => a@ == b@,
            Standing::After => text_lt(b@, a@),
        },
{
    proof {
        crate::text::lemma_encoding_is_faithful(a@, b@);
    }
    lex_standing(a.as_bytes(), b.as_bytes())
}

/// A total preorder on some indices.
pub trait Precedence {
    /// The indices that the preorder speaks of.
    spec fn known(&self, a: usize) -> bool;

    /// `a` may stand in front of `b`.
    spec fn le(&self, a: usize, b: usize) -> bool;

    /// Any two indices can be put in order.
    proof fn total(&self, a: usize, b: usize)
        requires
            self.known(a),
            self.known(b),
        ensures
            self.le(a, b) || self.le(b, a),
    ;

    /// The order is transitive.
    proof fn transitive(&self, a: usize, b: usize, c: usize)
        requires
            self.known(a),
            self.known(b),
            self.known(c),
            self.le(a, b),
            self.le(b, c),
        ensures
            self.le(a, c),
    ;

    /// Whether `a` may stand in front of `b`.
    fn may_precede(&self, a: usize, b: usize) -> (r: bool)
        requires
            self.known(a),
            self.known(b),
        ensures
            r == self.le(a, b),
    ;
}

/// All indices are known to the preorder.
pub open spec fn all_known<P: Precedence>(p: &P, s: Seq<usize>) -> bool {
    forall|i: int| 0 <= i < s.len() ==> p.known(#[trigger] s[i])
}

/// Every index may stand in front of the later ones.
pub open spec fn in_order<P: Precedence>(p: &P, s: Seq<usize>) -> bool {
    forall|i: int, j: int| 0 <= i < j < s.len() ==> p.le(#[trigger] s[i], #[trigger] s[j])
}

proof fn lemma_known_in_multiset<P: Precedence>(p: &P, s: Seq<usize>, t: Seq<usize>)
    requires
        all_known(p, s),
        s.to_multiset() == t.to_multiset(),
    ensures
        all_known(p, t),
{
    broadcast use vstd::seq_lib::group_to_multiset_ensures;

    assert forall|i: int| 0 <= i < t.len() implies p.known(#[trigger] t[i]) by {
        assert(t.contains(t[i]));
        assert(t.to_multiset().count(t[i]) > 0);
        assert(s.to_multiset().count(t[i]) > 0);
        assert(s.contains(t[i]));
    }
}

fn merge<P: Precedence>(left: &Vec<usize>, right: &Vec<usize>, p: &P) -> (out: Vec<usize>)
    requires
        all_known(p, left@),
        all_known(p, right@),
        in_order(p, left@),
        in_order(p, right@),
    ensures
        in_order(p, out@),
        out@.to_multiset() == left@.to_multiset().add(right@.to_multiset()),
{
    let mut out: Vec<usize> = Vec::new();
    let mut i: usize = 0;
    let mut j: usize = 0;
    proof {
        broadcast use vstd::seq_lib::group_to_multiset_ensures;

        assert(left@.take(0) =~= Seq::empty());
        assert(right@.take(0) =~= Seq::empty());
        assert(out@.to_multiset() =~= left@.take(0).to_multiset().add(right@.take(0).to_multiset()));
    }
    while i < left.len() || j < right.len()
        invariant
            i <= left@.len(),
            j <= right@.len(),
            all_known(p, left@),
            all_known(p, right@),
            all_known(p, out@),
            in_order(p, left@),
            in_order(p, right@),
            in_order(p, out@),
            forall|a: int, b: int|
                0 <= a < out@.len() && i <= b < left@.len() ==> p.le(
                    #[trigger] out@[a],
                    #[trigger] left@[b],
                ),
            forall|a: int, b: int|
                0 <= a < out@.len() && j <= b < right@.len() ==> p.le(
                    #[trigger] out@[a],
                    #[trigger] right@[b],
                ),
            out@.to_multiset() == left@.take(i as int).to_multiset().add(
                right@.take(j as int).to_multiset(),
            ),
        decreases left@.len() - i + right@.len() - j,
    {
        let from_left: bool = if i >= left.len() {
            false
        } else if j >= right.len() {
            true
        } else {
            p.may_precede(left[i], right[j])
        };
        let ghost before = out@;
        if from_left {
            let x: usize = left[i];
            proof {
                assert forall|b: int| j <= b < right@.len() implies p.le(x, #[trigger] right@[b]) by {
                    if b > j {
                        assert(p.le(right@[j as int], right@[b]));
                        p.transitive(x, right@[j as int], right@[b]);
                    }
                }
                assert(left@.take(i + 1) =~= left@.take(i as int).push(x));
                left@.take(i as int).to_multiset_ensures();
                before.to_multiset_ensures();
            }
            out.push(x);
            i += 1;
            assert(out@.to_multiset() =~= left@.take(i as int).to_multiset().add(
                right@.take(j as int).to_multiset(),
            ));
        } else {
            let x: usize = right[j];
            proof {
                assert forall|b: int| i <= b < left@.len() implies p.le(x, #[trigger] left@[b]) by {
                    p.total(left@[i as int], x);
                    if b > i {
                        assert(p.le(left@[i as int], left@[b]));
                        p.transitive(x, left@[i as int], left@[b]);
                    }
                }
                assert(right@.take(j + 1) =~= right@.take(j as int).push(x));
                right@.take(j as int).to_multiset_ensures();
                before.to_multiset_ensures();
            }
            out.push(x);
            j += 1;
            assert(out@.to_multiset() =~= left@.take(i as int).to_multiset().add(
                right@.take(j as int).to_multiset(),
            ));
        }
    }
    assert(left@.take(i as int) =~= left@);
    assert(right@.take(j as int) =~= right@);
    out
}

/// Puts indices in order.
pub fn sorted<P: Precedence>(items: &[usize], p: &P) -> (out: Vec<usize>)
    requires
        all_known(p, items@),
    ensures
        in_order(p, out@),
        out@.to_multiset() == items@.to_multiset(),
        out@.len() == items@.len(),
    decreases items@.len(),
{
    let n: usize = items.len();
    if n <= 1 {
        let out = vstd::slice::slice_to_vec(items);
        return out;
    }
    let mid: usize = n / 2;
    let ghost a = items@.subrange(0, mid as int);
    let ghost b = items@.subrange(mid as int, n as int);
    let left = sorted(vstd::slice::slice_subrange(items, 0, mid), p);
    let right = sorted(vstd::slice::slice_subrange(items, mid, n), p);
    proof {
        lemma_known_in_multiset(p, a, left@);
        lemma_known_in_multiset(p, b, right@);
    }
    let out = merge(&left, &right, p);
    proof {
        assert(items@ =~= a + b);
        vstd::seq_lib::lemma_multiset_commutative(a, b);
        out@.to_multiset_ensures();
        items@.to_multiset_ensures();
    }
    out
}

/// The first `n` indices.
pub fn first_indices(n: usize) -> (r: Vec<usize>)
    ensures
        r@ == Seq::new(n as nat, |i: int| i as usize),
{
    let mut out: Vec<usize> = Vec::new();
    let mut i: usize = 0;
    while i < n
        invariant
            i <= n,
            out@.len() == i,
            forall|k: int| 0 <= k < i ==> out@[k] == k,
        decreases n - i,
    {
        out.push(i);
        i += 1;
    }
    assert(out@ =~= Seq::new(n as nat, |i: int| i as usize));
    out
}

/// Numbers by their positions, smaller ones first.
struct ByValue<'a> {
    values: &'a Vec<u64>,
}

impl<'a> Precedence for ByValue<'a> {
    closed spec fn known(&self, a: usize) -> bool {
        a < self.values@.len()
    }

    closed spec fn le(&self, a: usize, b: usize) -> bool {
        self.values@[a as int] <= self.values@[b as int]
    }

    proof fn total(&self, a: usize, b: usize) {
    }

    proof fn transitive(&self, a: usize, b: usize, c: usize) {
    }

    fn may_precede(&self, a: usize, b: usize) -> (r: bool) {
        self.values[a] <= self.values[b]
    }
}

/// Each number is smaller than the later ones.
pub open spec fn strictly_ascending(s: Seq<u64>) -> bool {
    forall|i: int, j: int| 0 <= i < j < s.len() ==> s[i] < s[j]
}

/// The different numbers of a list, in ascending order.
pub fn ascending_set(values: &Vec<u64>) -> (out: Vec<u64>)
    ensures
        strictly_ascending(out@),
        forall|x: u64| #[trigger] out@.contains(x) <==> values@.contains(x),
{
    let all = first_indices(values.len());
    let by = ByValue { values };
    let order = sorted(all.as_slice(), &by);
    proof {
        broadcast use vstd::seq_lib::group_to_multiset_ensures;

        assert forall|i: int| 0 <= i < order@.len() implies (#[trigger] order@[i])
            < values@.len() by {
            assert(order@.contains(order@[i]));
            assert(all@.to_multiset().count(order@[i]) > 0);
            assert(all@.contains(order@[i]));
        }
    }
    let mut out: Vec<u64> = Vec::new();
    let mut i: usize = 0;
    while i < order.len()
        invariant
            i <= order@.len(),
            order@.len() == values@.len(),
            by.values == values,
            in_order(&by, order@),
            forall|k: int| 0 <= k < order@.len() ==> (#[trigger] order@[k]) < values@.len(),
            strictly_ascending(out@),
            i == 0 <==> out@.len() == 0,
            i > 0 ==> out@.last() == values@[order@[i - 1] as int],
            forall|x: u64| #[trigger]
                out@.contains(x) <==> exists|k: int|
                    0 <= k < i && values@[#[trigger] order@[k] as int] == x,
        decreases order@.len() - i,
    {
        let v: u64 = values[order[i]];
        let ghost before = out@;
        let fresh: bool = out.len() == 0 || out[out.len() - 1] != v;
        proof {
            if i > 0 {
                assert(by.le(order@[i - 1], order@[i as int]));
            }
        }
        if fresh {
            out.push(v);
            assert forall|a: int, b: int| 0 <= a < b < out@.len() implies out@[a] < out@[b] by {
                if b == out@.len() - 1 && a < before.len() - 1 {
                    assert(before[a] < before.last());
                }
            }
        }
        proof {
            assert forall|x: u64| #[trigger] out@.contains(x) <==> exists|k: int|
                0 <= k < i + 1 && values@[#[trigger] order@[k] as int] == x by {
                if fresh {
                    assert(out@.contains(x) <==> before.contains(x) || x == v) by {
                        if before.contains(x) {
                            let j = before.index_of(x);
                            assert(out@[j] == x);
                        }
                        assert(out@[out@.len() - 1] == v);
                        if out@.contains(x) {
                            let j = out@.index_of(x);
                            if j < before.len() {
                                assert(before[j] == x);
                            }
                        }
                    }
                } else {
                    assert(before.contains(v)) by {
                        assert(before[before.len() - 1] == v);
                    }
                }
                if exists|k: int| 0 <= k < i + 1 && values@[#[trigger] order@[k] as int] == x {
                    let k = choose|k: int|
                        0 <= k < i + 1 && values@[#[trigger] order@[k] as int] == x;
                    if k < i {
                        assert(before.contains(x));
                    }
                }
                if out@.contains(x) {
                    if before.contains(x) {
                        let k = choose|k: int|
                            0 <= k < i && values@[#[trigger] order@[k] as int] == x;
                        assert(0 <= k < i + 1 && values@[order@[k] as int] == x);
                    } else {
                        assert(values@[order@[i as int] as int] == x);
                    }
                }
            }
        }
        i += 1;
    }
    proof {
        assert forall|x: u64| #[trigger] out@.contains(x) <==> values@.contains(x) by {
            broadcast use vstd::seq_lib::group_to_multiset_ensures;

            if out@.contains(x) {
                let k = choose|k: int|
                    0 <= k < order@.len() && values@[#[trigger] order@[k] as int] == x;
                assert(values@[order@[k] as int] == x);
            }
            if values@.contains(x) {
                let j = values@.index_of(x);
                assert(all@[j] == j as usize);
                assert(all@.contains(j as usize));
                assert(order@.to_multiset().count(j as usize) > 0);
                assert(order@.contains(j as usize));
                let k = order@.index_of(j as usize);
                assert(values@[order@[k] as int] == x);
            }
        }
    }
    out
}

// ---------------------------------------------------------------------------
// Sorting by byte keys

/// The bytes of some keys.
pub open spec fn key_views(keys: Seq<Vec<u8>>) -> Seq<Seq<u8>> {
    Seq::new(keys.len(), |i: int| keys[i]@)
}

/// The item at `a` comes before the one at `b`: by its key, and by its position where the
/// keys are equal.
pub open spec fn comes_first(keys: Seq<Seq<u8>>, descending: bool, a: int, b: int) -> bool {
    ||| if descending {
        lex_lt(keys[b], keys[a])
    } else {
        lex_lt(keys[a], keys[b])
    }
    ||| keys[a] == keys[b] && a < b
}

/// `order` lists all positions by their keys; items of equal keys stay as they were.
pub open spec fn is_key_order(keys: Seq<Seq<u8>>, descending: bool, order: Seq<usize>) -> bool {
    &&& order.len() == keys.len()
    &&& forall|i: int| 0 <= i < order.len() ==> (#[trigger] order[i]) < keys.len()
    &&& forall|i: int, j: int|
        0 <= i < j < order.len() ==> comes_first(
            keys,
            descending,
            #[trigger] order[i] as int,
            #[trigger] order[j] as int,
        )
    &&& order.to_multiset() == Seq::new(keys.len(), |i: int| i as usize).to_multiset()
}

struct ByKey<'a> {
    keys: &'a Vec<Vec<u8>>,
    descending: bool,
}

impl<'a> ByKey<'a> {
    closed spec fn low(&self, a: usize) -> Seq<u8> {
        self.keys@[a as int]@
    }
}

impl<'a> Precedence for ByKey<'a> {
    closed spec fn known(&self, a: usize) -> bool {
        a < self.keys@.len()
    }

    closed spec fn le(&self, a: usize, b: usize) -> bool {
        a == b || comes_first(key_views(self.keys@), self.descending, a as int, b as int)
    }

    proof fn total(&self, a: usize, b: usize) {
        lemma_lex_total(self.low(a), self.low(b));
    }

    proof fn transitive(&self, a: usize, b: usize, c: usize) {
        let (x, y, z) = (self.low(a), self.low(b), self.low(c));
        if lex_lt(x, y) && lex_lt(y, z) {
            lemma_lex_transitive(x, y, z);
        }
        if lex_lt(y, x) && lex_lt(z, y) {
            lemma_lex_transitive(z, y, x);
        }
    }

    fn may_precede(&self, a: usize, b: usize) -> (r: bool) {
        proof {
            lemma_lex_irreflexive(self.low(a));
            lemma_lex_total(self.low(a), self.low(b));
            if lex_lt(self.low(a), self.low(b)) && lex_lt(self.low(b), self.low(a)) {
                lemma_lex_transitive(self.low(a), self.low(b), self.low(a));
            }
        }
        if a == b {
            return true;
        }
        match lex_standing(self.keys[a].as_slice(), self.keys[b].as_slice()) {
            Standing::Before => !self.descending,
            Standing::After => self.descending,
            Standing::Same => a < b,
        }
    }
}

/// The positions of items in the order of their keys.
pub fn key_order(keys: &Vec<Vec<u8>>, descending: bool) -> (order: Vec<usize>)
    ensures
        is_key_order(key_views(keys@), descending, order@),
{
    let all = first_indices(keys.len());
    let by = ByKey { keys, descending };
    let order = sorted(all.as_slice(), &by);
    proof {
        broadcast use vstd::seq_lib::group_to_multiset_ensures;

        let views = key_views(keys@);
        assert(all@ =~= Seq::new(views.len(), |i: int| i as usize));
        assert forall|i: int| 0 <= i < order@.len() implies (#[trigger] order@[i])
            < views.len() by {
            assert(order@.contains(order@[i]));
            assert(all@.to_multiset().count(order@[i]) > 0);
            assert(all@.contains(order@[i]));
        }
        lemma_distinct(all@, order@);
        assert forall|i: int, j: int| 0 <= i < j < order@.len() implies comes_first(
            views,
            descending,
            #[trigger] order@[i] as int,
            #[trigger] order@[j] as int,
        ) by {
            assert(by.le(order@[i], order@[j]));
            assert(order@[i] != order@[j]);
        }
    }
    order
}

/// A rearrangement of different numbers holds each once.
proof fn lemma_distinct(all: Seq<usize>, order: Seq<usize>)
    requires
        all.no_duplicates(),
        order.to_multiset() == all.to_multiset(),
    ensures
        order.no_duplicates(),
{
    all.lemma_multiset_has_no_duplicates();
    assert forall|x: usize| order.to_multiset().contains(x) implies order.to_multiset().count(x)
        == 1 by {
        assert(all.to_multiset().count(x) == 1);
    }
    order.lemma_multiset_has_no_duplicates_conv();
}

/// Moves items to the positions that an order gives them.
pub fn arranged<T>(items: Vec<T>, order: &Vec<usize>) -> (out: Vec<T>)
    requires
        order@.len() == items@.len(),
        order@.to_multiset() == Seq::new(items@.len(), |i: int| i as usize).to_multiset(),
    ensures
        out@ == crate::rank::picked(items@, order@),
{
    let ghost given = items@;
    let n: usize = items.len();
    proof {
        let all = Seq::new(given.len(), |i: int| i as usize);
        lemma_distinct(all, order@);
        broadcast use vstd::seq_lib::group_to_multiset_ensures;

        assert forall|i: int| 0 <= i < order@.len() implies (#[trigger] order@[i]) < n by {
            assert(order@.contains(order@[i]));
            assert(all.to_multiset().count(order@[i]) > 0);
            assert(all.contains(order@[i]));
        }
    }
    let mut slots: Vec<Option<T>> = Vec::new();
    let mut k: usize = 0;
    for item in it: items
        invariant
            it.seq() == given,
            slots@.len() == it.index(),
            forall|j: int| 0 <= j < slots@.len() ==> #[trigger] slots@[j] == Some(given[j]),
    {
        slots.push(Some(item));
    }
    let mut out: Vec<T> = Vec::new();
    while k < n
        invariant
            k <= n == given.len(),
            n == order@.len() == slots@.len(),
            out@.len() == k,
            order@.no_duplicates(),
            forall|i: int| 0 <= i < n ==> (#[trigger] order@[i]) < n,
            forall|i: int| 0 <= i < k ==> #[trigger] out@[i] == given[order@[i] as int],
            forall|i: int| #![trigger order@[i]]
                k <= i < n ==> slots@[order@[i] as int] == Some(given[order@[i] as int]),
        decreases n - k,
    {
        let at: usize = order[k];
        let mut taken: Option<T> = None;
        std::mem::swap(&mut taken, &mut slots[at]);
        if let Some(item) = taken {
            out.push(item);
        }
        k += 1;
    }
    assert(out@ =~= crate::rank::picked(given, order@));
    out
}

proof fn lemma_one_key_order(
    keys: Seq<Seq<u8>>,
    descending: bool,
    a: Seq<usize>,
    b: Seq<usize>,
)
    requires
        a.to_multiset() == b.to_multiset(),
        forall|i: int, j: int|
            0 <= i < j < a.len() ==> comes_first(
                keys,
                descending,
                #[trigger] a[i] as int,
                #[trigger] a[j] as int,
            ),
        forall|i: int, j: int|
            0 <= i < j < b.len() ==> comes_first(
                keys,
                descending,
                #[trigger] b[i] as int,
                #[trigger] b[j] as int,
            ),
    ensures
        a == b,
    decreases a.len(),
{
    a.to_multiset_ensures();
    b.to_multiset_ensures();
    if a.len() == 0 {
        assert(a =~= b);
    } else {
        let (x, y) = (a.last(), b.last());
        assert(a.contains(a[a.len() - 1]));
        assert(b.contains(b[b.len() - 1]));
        assert(a.to_multiset().count(x) > 0);
        assert(b.to_multiset().count(y) > 0);
        assert(b.contains(x));
        assert(a.contains(y));
        let i = a.index_of(y);
        let j = b.index_of(x);
        if x != y {
            assert(comes_first(keys, descending, a[i] as int, a[a.len() - 1] as int));
            assert(comes_first(keys, descending, b[j] as int, b[b.len() - 1] as int));
            lemma_first_one_way(keys, descending, x as int, y as int);
        }
        let (fa, fb) = (a.drop_last(), b.drop_last());
        assert(a =~= fa.push(x));
        assert(b =~= fb.push(x));
        fa.to_multiset_ensures();
        fb.to_multiset_ensures();
        assert(fa.to_multiset() =~= a.to_multiset().remove(x));
        assert(fb.to_multiset() =~= b.to_multiset().remove(x));
        lemma_one_key_order(keys, descending, fa, fb);
    }
}

/// Of two items only one comes first.
proof fn lemma_first_one_way(keys: Seq<Seq<u8>>, descending: bool, a: int, b: int)
    ensures
        !(comes_first(keys, descending, a, b) && comes_first(keys, descending, b, a)),
{
    lemma_lex_irreflexive(keys[a]);
    lemma_lex_irreflexive(keys[b]);
    if lex_lt(keys[a], keys[b]) && lex_lt(keys[b], keys[a]) {
        lemma_lex_transitive(keys[a], keys[b], keys[a]);
    }
}

/// Some keys have one order only.
pub proof fn law_key_order_is_unique(
    keys: Seq<Seq<u8>>,
    descending: bool,
    a: Seq<usize>,
    b: Seq<usize>,
)
    requires
        is_key_order(keys, descending, a),
        is_key_order(keys, descending, b),
    ensures
        a == b,
{
    lemma_one_key_order(keys, descending, a, b);
}

/// Items in the order of their keys.
pub open spec fn key_sorted<A>(items: Seq<A>, keys: Seq<Seq<u8>>) -> Seq<A> {
    crate::rank::picked(items, choose|order: Seq<usize>| is_key_order(keys, false, order))
}

/// What an order picks are the sorted items.
pub proof fn lemma_key_sorted<A>(items: Seq<A>, keys: Seq<Seq<u8>>, order: Seq<usize>)
    requires
        is_key_order(keys, false, order),
    ensures
        key_sorted(items, keys) == crate::rank::picked(items, order),
{
    let other = choose|order: Seq<usize>| is_key_order(keys, false, order);
    law_key_order_is_unique(keys, false, order, other);
}

/// What stands in order already stays.
pub proof fn lemma_sorted_stays<A>(items: Seq<A>, keys: Seq<Seq<u8>>)
    requires
        items.len() == keys.len() <= usize::MAX,
        forall|i: int, j: int|
            0 <= i < j < keys.len() ==> lex_lt(#[trigger] keys[i], #[trigger] keys[j]),
    ensures
        key_sorted(items, keys) == items,
{
    let order = Seq::new(keys.len(), |i: int| i as usize);
    assert(is_key_order(keys, false, order));
    lemma_key_sorted(items, keys, order);
    assert(crate::rank::picked(items, order) =~= items);
}

// ---------------------------------------------------------------------------
// Sorting by numbers

/// `order` lists all positions by their numbers; equal ones stay as they were.
pub open spec fn is_number_order(numbers: Seq<u64>, order: Seq<usize>) -> bool {
    &&& order.len() == numbers.len()
    &&& forall|i: int| 0 <= i < order.len() ==> (#[trigger] order[i]) < numbers.len()
    &&& forall|i: int, j: int|
        0 <= i < j < order.len() ==> number_first(
            numbers,
            #[trigger] order[i] as int,
            #[trigger] order[j] as int,
        )
    &&& order.to_multiset() == Seq::new(numbers.len(), |i: int| i as usize).to_multiset()
}

/// The item at `a` comes before the one at `b`.
pub open spec fn number_first(numbers: Seq<u64>, a: int, b: int) -> bool {
    numbers[a] < numbers[b] || (numbers[a] == numbers[b] && a < b)
}

struct ByNumber<'a> {
    numbers: &'a Vec<u64>,
}

impl<'a> Precedence for ByNumber<'a> {
    closed spec fn known(&self, a: usize) -> bool {
        a < self.numbers@.len()
    }

    closed spec fn le(&self, a: usize, b: usize) -> bool {
        a == b || number_first(self.numbers@, a as int, b as int)
    }

    proof fn total(&self, a: usize, b: usize) {
    }

    proof fn transitive(&self, a: usize, b: usize, c: usize) {
    }

    fn may_precede(&self, a: usize, b: usize) -> (r: bool) {
        a == b || self.numbers[a] < self.numbers[b] || (self.numbers[a] == self.numbers[b] && a
            < b)
    }
}

/// The positions of items in the order of their numbers.
pub fn number_order(numbers: &Vec<u64>) -> (order: Vec<usize>)
    ensures
        is_number_order(numbers@, order@),
{
    let all = first_indices(numbers.len());
    let by = ByNumber { numbers };
    let order = sorted(all.as_slice(), &by);
    proof {
        broadcast use vstd::seq_lib::group_to_multiset_ensures;

        let n = numbers@.len();
        assert(all@ =~= Seq::new(n, |i: int| i as usize));
        assert forall|i: int| 0 <= i < order@.len() implies (#[trigger] order@[i]) < n by {
            assert(order@.contains(order@[i]));
            assert(all@.to_multiset().count(order@[i]) > 0);
            assert(all@.contains(order@[i]));
        }
        lemma_distinct(all@, order@);
        assert forall|i: int, j: int| 0 <= i < j < order@.len() implies number_first(
            numbers@,
            #[trigger] order@[i] as int,
            #[trigger] order@[j] as int,
        ) by {
            assert(by.le(order@[i], order@[j]));
            assert(order@[i] != order@[j]);
        }
    }
    order
}

/// An order of all positions has each of them.
pub proof fn lemma_order_covers(order: Seq<usize>, n: nat, a: int)
    requires
        order.to_multiset() == Seq::new(n, |i: int| i as usize).to_multiset(),
        0 <= a < n <= usize::MAX,
    ensures
        order.contains(a as usize),
{
    broadcast use vstd::seq_lib::group_to_multiset_ensures;

    let all = Seq::new(n, |i: int| i as usize);
    assert(all[a] == a as usize);
    assert(all.contains(a as usize));
    assert(all.to_multiset().count(a as usize) > 0);
    assert(order.to_multiset().count(a as usize) > 0);
}

/// Items in another order are the same items.
pub proof fn lemma_arranged_keeps<T>(items: Seq<T>, order: Seq<usize>)
    requires
        items.len() <= usize::MAX,
        order.len() == items.len(),
        order.to_multiset() == Seq::new(items.len(), |i: int| i as usize).to_multiset(),
    ensures
        crate::rank::picked(items, order).to_multiset() == items.to_multiset(),
{
    let all = Seq::new(items.len(), |i: int| i as usize);
    assert(crate::rank::picked(items, all) =~= items);
    crate::rank::lemma_picked_multiset(items, order, all);
}

} // verus!
