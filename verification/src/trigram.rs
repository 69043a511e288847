//! Trigrams: every three successive bytes of a lowercased text.

use crate::types::{FileRecord, RecordView};
use vstd::prelude::*;

verus! {

/// The number of the three bytes at `i`.
pub open spec fn gram_at(b: Seq<u8>, i: int) -> u64 {
    (b[i] * 0x1_0000 + b[i + 1] * 0x100 + b[i + 2]) as u64
}

/// `g` stands somewhere in `b`.
pub open spec fn has_gram(b: Seq<u8>, g: u64) -> bool {
    exists|i: int| 0 <= i < b.len() - 2 && #[trigger] gram_at(b, i) == g
}

/// The bytes that are cut into trigrams.
pub open spec fn gram_bytes(text: Seq<char>) -> Seq<u8> {
    vstd::utf8::encode_utf8(crate::text::lowercase(text))
}

/// `g` is a trigram of the text.
pub open spec fn text_has(text: Seq<char>, g: u64) -> bool {
    has_gram(gram_bytes(text), g)
}

/// `g` is a trigram of one of the texts.
pub open spec fn texts_have(texts: Seq<Seq<char>>, g: u64) -> bool {
    exists|i: int| 0 <= i < texts.len() && text_has(#[trigger] texts[i], g)
}

/// The paths of some records.
pub open spec fn paths_of(rs: Seq<RecordView>) -> Seq<Seq<char>> {
    Seq::new(rs.len(), |i: int| rs[i].path)
}

/// `g` is a trigram of a path of the block.
pub open spec fn block_has(block: Seq<RecordView>, g: u64) -> bool {
    texts_have(paths_of(block), g)
}

/// Appends every trigram of a text.
pub fn collect_trigrams(text: &str, out: &mut Vec<u64>)
    ensures
        forall|g: u64| #[trigger]
            final(out)@.contains(g) <==> old(out)@.contains(g) || text_has(text@, g),
        forall|k: int| 0 <= k < old(out)@.len() ==> final(out)@[k] == old(out)@[k],
        final(out)@.len() >= old(out)@.len(),
        forall|k: int| old(out)@.len() <= k < final(out)@.len() ==> (#[trigger] final(out)@[k])
            < 0x100_0000,
{
    let folded = crate::text::to_lowercase(text);
    let b = folded.as_str().as_bytes();
    let n: usize = b.len();
    let ghost start = out@;
    let mut i: usize = 0;
    while n >= 3 && i < n - 2
        invariant
            n == b@.len(),
            b@ == gram_bytes(text@),
            n >= 3 ==> i <= n - 2,
            n < 3 ==> i == 0,
            out@.len() == start.len() + i,
            forall|k: int| 0 <= k < start.len() ==> out@[k] == start[k],
            forall|k: int| 0 <= k < i ==> #[trigger] out@[start.len() + k] == gram_at(b@, k),
        decreases n - i,
    {
        let g: u64 = b[i] as u64 * 0x1_0000 + b[i + 1] as u64 * 0x100 + b[i + 2] as u64;
        out.push(g);
        i += 1;
    }
    proof {
        assert forall|g: u64| #[trigger] out@.contains(g) <==> start.contains(g) || text_has(
            text@,
            g,
        ) by {
            if out@.contains(g) {
                let k = out@.index_of(g);
                if k < start.len() {
                    assert(start[k] == g);
                } else {
                    assert(out@[start.len() + (k - start.len())] == gram_at(
                        b@,
                        k - start.len(),
                    ));
                }
            }
            if start.contains(g) {
                let k = start.index_of(g);
                assert(out@[k] == g);
            }
            if text_has(text@, g) {
                let k = choose|k: int| 0 <= k < b@.len() - 2 && #[trigger] gram_at(b@, k) == g;
                assert(out@[start.len() + k] == g);
            }
        }
        assert forall|k: int| start.len() <= k < out@.len() implies (#[trigger] out@[k])
            < 0x100_0000 by {
            assert(out@[start.len() + (k - start.len())] == gram_at(b@, k - start.len()));
        }
    }
}

/// The trigrams of all paths of a block, ascending.
pub fn block_trigrams(records: &[FileRecord], order: &[usize], from: usize, to: usize) -> (r: Vec<
    u64,
>)
    requires
        from <= to <= order@.len(),
        forall|i: int| 0 <= i < order@.len() ==> (#[trigger] order@[i]) < records@.len(),
    ensures
        crate::order::strictly_ascending(r@),
        forall|k: int| 0 <= k < r@.len() ==> (#[trigger] r@[k]) < 0x100_0000,
        forall|g: u64| #[trigger]
            r@.contains(g) <==> block_has(
                crate::rank::picked(
                    crate::types::record_views(records@),
                    order@.subrange(from as int, to as int),
                ),
                g,
            ),
{
    let ghost views = crate::types::record_views(records@);
    let ghost block = crate::rank::picked(views, order@.subrange(from as int, to as int));
    let mut all: Vec<u64> = Vec::new();
    let mut i: usize = from;
    while i < to
        invariant
            from <= i <= to <= order@.len(),
            views == crate::types::record_views(records@),
            block == crate::rank::picked(views, order@.subrange(from as int, to as int)),
            forall|k: int| 0 <= k < order@.len() ==> (#[trigger] order@[k]) < records@.len(),
            forall|k: int| 0 <= k < all@.len() ==> (#[trigger] all@[k]) < 0x100_0000,
            forall|g: u64| #[trigger]
                all@.contains(g) <==> exists|k: int|
                    0 <= k < i - from && text_has(#[trigger] paths_of(block)[k], g),
        decreases to - i,
    {
        let ghost before = all@;
        let r = &records[order[i]];
        assert(paths_of(block)[i - from] == r@.path);
        collect_trigrams(r.path.as_str(), &mut all);
        proof {
            assert forall|g: u64| #[trigger] all@.contains(g) <==> exists|k: int|
                0 <= k < i + 1 - from && text_has(#[trigger] paths_of(block)[k], g) by {
                if before.contains(g) {
                    let k = choose|k: int|
                        0 <= k < i - from && text_has(#[trigger] paths_of(block)[k], g);
                    assert(0 <= k < i + 1 - from && text_has(paths_of(block)[k], g));
                }
                if text_has(r@.path, g) {
                    assert(text_has(paths_of(block)[i - from], g));
                }
                if exists|k: int|
                    0 <= k < i + 1 - from && text_has(#[trigger] paths_of(block)[k], g) {
                    let k = choose|k: int|
                        0 <= k < i + 1 - from && text_has(#[trigger] paths_of(block)[k], g);
                    if k < i - from {
                        assert(before.contains(g));
                    }
                }
            }
            assert forall|k: int| 0 <= k < all@.len() implies (#[trigger] all@[k])
                < 0x100_0000 by {
                if k < before.len() {
                    assert(all@[k] == before[k]);
                }
            }
        }
        i += 1;
    }
    let out = crate::order::ascending_set(&all);
    proof {
        assert forall|k: int| 0 <= k < out@.len() implies (#[trigger] out@[k]) < 0x100_0000 by {
            assert(out@.contains(out@[k]));
            let j = all@.index_of(out@[k]);
            assert(all@[j] == out@[k]);
        }
        assert forall|g: u64| #[trigger] out@.contains(g) <==> block_has(block, g) by {
            assert(all@.contains(g) <==> block_has(block, g));
        }
    }
    out
}

/// The trigrams of all terms, ascending.
pub fn term_trigrams(terms: &Vec<String>) -> (r: Vec<u64>)
    ensures
        crate::order::strictly_ascending(r@),
        forall|g: u64| #[trigger]
            r@.contains(g) <==> texts_have(crate::text::strings(terms@), g),
{
    let ghost texts = crate::text::strings(terms@);
    let mut all: Vec<u64> = Vec::new();
    let mut i: usize = 0;
    while i < terms.len()
        invariant
            i <= terms@.len(),
            texts == crate::text::strings(terms@),
            forall|g: u64| #[trigger]
                all@.contains(g) <==> exists|k: int| 0 <= k < i && text_has(#[trigger] texts[k], g),
        decreases terms@.len() - i,
    {
        let ghost before = all@;
        assert(texts[i as int] == terms@[i as int]@);
        collect_trigrams(terms[i].as_str(), &mut all);
        proof {
            assert forall|g: u64| #[trigger] all@.contains(g) <==> exists|k: int|
                0 <= k < i + 1 && text_has(#[trigger] texts[k], g) by {
                if before.contains(g) {
                    let k = choose|k: int| 0 <= k < i && text_has(#[trigger] texts[k], g);
                    assert(0 <= k < i + 1 && text_has(texts[k], g));
                }
                if text_has(texts[i as int], g) {
                    assert(0 <= i < i + 1 && text_has(texts[i as int], g));
                }
                if exists|k: int| 0 <= k < i + 1 && text_has(#[trigger] texts[k], g) {
                    let k = choose|k: int| 0 <= k < i + 1 && text_has(#[trigger] texts[k], g);
                    if k < i {
                        assert(before.contains(g));
                    }
                }
            }
        }
        i += 1;
    }
    let out = crate::order::ascending_set(&all);
    proof {
        assert forall|g: u64| #[trigger] out@.contains(g) <==> texts_have(texts, g) by {
            assert(all@.contains(g) <==> texts_have(texts, g));
        }
    }
    out
}

} // verus!
