//! A search in a compact index answers as a scan of all its records would.

use crate::compact::GramView;
use crate::compact_index::{CompactView, DictEntry, IndexError};
use crate::delta::OverlayView;
use crate::query::QueryView;
use crate::rank::{HitView, SearchStats};
use crate::store::{Compaction, StoreView};
use crate::types::RecordView;
use vstd::prelude::*;

verus! {

// ---------------------------------------------------------------------------
// A term that is found has its trigrams in the path

/// The lowercase form of the path ends with that of the file name.
pub open spec fn folds(path: Seq<char>) -> bool {
    let low = crate::text::lowercase(path);
    let name = crate::text::lowercase(crate::types::name_of(path));
    name.len() <= low.len() && low.skip(low.len() - name.len()) == name
}

/// The text is its own lowercase form, as parsed terms are.
pub open spec fn folded(term: Seq<char>) -> bool {
    crate::text::lowercase(term) == term
}

/// Every plain ASCII path ends in its file name when lowercased.
pub proof fn law_plain_paths_fold(path: Seq<char>)
    requires
        vstd::utf8::is_ascii_chars(path),
    ensures
        folds(path),
{
    let name = crate::types::name_of(path);
    crate::text::lemma_last_index(path, '/');
    assert(vstd::utf8::is_ascii_chars(name)) by {
        assert forall|i: int| 0 <= i < name.len() implies name[i] as u32 <= 127 by {
            assert(path[crate::text::last_index(path, '/') + 1 + i] as u32 <= 127);
        }
    }
    let low = crate::text::ascii_lower_all(path);
    assert(low.skip(low.len() - name.len()) =~= crate::text::ascii_lower_all(name));
}

proof fn lemma_plain_push(s: Seq<char>, c: char)
    requires
        vstd::utf8::is_ascii_chars(s),
        '\0' <= c <= '\u{7f}',
    ensures
        vstd::utf8::is_ascii_chars(s.push(c)),
{
}

/// What stands in a plain text is plain.
proof fn lemma_plain_tokens(s: Seq<char>)
    requires
        vstd::utf8::is_ascii_chars(s),
    ensures
        vstd::utf8::is_ascii_chars(crate::query::token_state(s).current),
        forall|i: int|
            0 <= i < crate::query::token_state(s).done.len() ==> vstd::utf8::is_ascii_chars(
                #[trigger] crate::query::token_state(s).done[i],
            ),
    decreases s.len(),
{
    if s.len() > 0 {
        let front = s.drop_last();
        assert forall|i: int| 0 <= i < front.len() implies '\0' <= #[trigger] front[i]
            <= '\u{7f}' by {
            assert(front[i] == s[i]);
        }
        lemma_plain_tokens(front);
        assert(s[s.len() - 1] == s.last());
        lemma_plain_push(crate::query::token_state(front).current, s.last());
    }
}

/// Lower case of a plain text is its own lower case.
proof fn lemma_plain_folded(t: Seq<char>)
    requires
        vstd::utf8::is_ascii_chars(t),
    ensures
        folded(crate::text::lowercase(t)),
{
    let low = crate::text::ascii_lower_all(t);
    assert forall|i: int| 0 <= i < low.len() implies '\0' <= #[trigger] low[i] <= '\u{7f}' by {
        assert('\0' <= t[i] <= '\u{7f}');
    }
    assert(crate::text::ascii_lower_all(low) =~= low);
}

proof fn lemma_plain_terms(toks: Seq<Seq<char>>)
    requires
        forall|i: int| 0 <= i < toks.len() ==> vstd::utf8::is_ascii_chars(#[trigger] toks[i]),
    ensures
        ({
            let q = crate::query::with_tokens(crate::query::default_query(), toks);
            forall|i: int| 0 <= i < q.terms.len() ==> folded(#[trigger] q.terms[i])
        }),
    decreases toks.len(),
{
    if toks.len() > 0 {
        let front = toks.drop_last();
        assert forall|i: int| 0 <= i < front.len() implies vstd::utf8::is_ascii_chars(
            #[trigger] front[i],
        ) by {
            assert(front[i] == toks[i]);
        }
        lemma_plain_terms(front);
        assert(vstd::utf8::is_ascii_chars(toks[toks.len() - 1]));
        lemma_plain_folded(toks.last());
    }
}

/// Every search for a plain ASCII text among plain ASCII paths folds: nothing more has to be
/// known for the trigram filter to lose nothing.
pub proof fn law_plain_searches_fold(records: Seq<RecordView>, input: Seq<char>)
    requires
        vstd::utf8::is_ascii_chars(input),
        forall|i: int|
            0 <= i < records.len() ==> vstd::utf8::is_ascii_chars((#[trigger] records[i]).path),
    ensures
        all_fold(records, crate::query::parsed_query(input).terms),
{
    assert forall|i: int| 0 <= i < records.len() implies folds((#[trigger] records[i]).path) by {
        law_plain_paths_fold(records[i].path);
    }
    lemma_plain_tokens(input);
    let toks = crate::query::tokens(input);
    assert forall|i: int| 0 <= i < toks.len() implies vstd::utf8::is_ascii_chars(
        #[trigger] toks[i],
    ) by {
        let end = crate::query::token_state(input);
        if i < end.done.len() {
            assert(toks[i] == end.done[i]);
        }
    }
    lemma_plain_terms(toks);
}

/// Something that has a first occurrence occurs.
proof fn lemma_occurs<T>(hay: Seq<T>, needle: Seq<T>) -> (i: int)
    requires
        crate::text::first_occurrence(hay, needle) is Some,
    ensures
        crate::text::occurs_at(hay, needle, i),
{
    reveal(crate::text::first_occurrence);
    choose|i: int| crate::text::occurs_at(hay, needle, i)
}

/// Plain text stands in plain text where its bytes do.
proof fn lemma_plain_bytes(h: Seq<char>, t: Seq<char>, i: int)
    requires
        vstd::utf8::is_ascii_chars(h),
        vstd::utf8::is_ascii_chars(t),
        crate::text::occurs_at(h, t, i),
    ensures
        crate::text::occurs_at(vstd::utf8::encode_utf8(h), vstd::utf8::encode_utf8(t), i),
{
    vstd::utf8::is_ascii_chars_encode_utf8(h);
    vstd::utf8::is_ascii_chars_encode_utf8(t);
    let hb = vstd::utf8::encode_utf8(h);
    let tb = vstd::utf8::encode_utf8(t);
    let cut = h.subrange(i, i + t.len());
    assert forall|k: int| 0 <= k < tb.len() implies #[trigger] hb[i + k] == tb[k] by {
        assert(cut[k] == h[i + k]);
        assert(h[i + k] as u8 == hb[i + k]);
        assert(t[k] as u8 == tb[k]);
    }
    assert(hb.subrange(i, i + tb.len()) =~= tb);
}

proof fn lemma_plain_lower(s: Seq<char>)
    requires
        vstd::utf8::is_ascii_chars(s),
    ensures
        vstd::utf8::is_ascii_chars(crate::text::ascii_lower_all(s)),
{
}

/// The bytes of the lowercase forms: where `found_at` looks.
proof fn lemma_where_found(hay: Seq<char>, term: Seq<char>)
    requires
        term.len() > 0,
        crate::query::found_at(hay, term) is Some,
    ensures
        vstd::utf8::is_ascii_chars(hay) && vstd::utf8::is_ascii_chars(term)
            ==> crate::text::first_occurrence(
            crate::text::ascii_lower_all(hay),
            crate::text::ascii_lower_all(term),
        ) is Some,
        !(vstd::utf8::is_ascii_chars(hay) && vstd::utf8::is_ascii_chars(term))
            ==> crate::text::first_occurrence(
            vstd::utf8::encode_utf8(crate::text::lowercase(hay)),
            vstd::utf8::encode_utf8(term),
        ) is Some,
{
}

/// A folded term that is found somewhere stands there byte for byte once lowercased.
proof fn lemma_found_bytes(hay: Seq<char>, term: Seq<char>) -> (i: int)
    requires
        folded(term),
        term.len() > 0,
        crate::query::found_at(hay, term) is Some,
    ensures
        crate::text::occurs_at(
            crate::trigram::gram_bytes(hay), crate::trigram::gram_bytes(term),
            i,
        ),
{
    lemma_where_found(hay, term);
    if vstd::utf8::is_ascii_chars(hay) && vstd::utf8::is_ascii_chars(term) {
        let h = crate::text::ascii_lower_all(hay);
        let t = crate::text::ascii_lower_all(term);
        let i = lemma_occurs(h, t);
        lemma_plain_lower(hay);
        lemma_plain_lower(term);
        lemma_plain_bytes(h, t, i);
        i
    } else {
        lemma_occurs(
            vstd::utf8::encode_utf8(crate::text::lowercase(hay)),
            vstd::utf8::encode_utf8(term),
        )
    }
}

/// What stands in the back stands in the whole.
proof fn lemma_occurs_behind<T>(front: Seq<T>, back: Seq<T>, part: Seq<T>, i: int)
    requires
        crate::text::occurs_at(back, part, i),
    ensures
        crate::text::occurs_at(front + back, part, front.len() + i),
{
    assert((front + back).subrange(front.len() + i, front.len() + i + part.len())
        =~= back.subrange(i, i + part.len()));
}

/// What is a trigram of a part is a trigram of the whole.
proof fn lemma_gram_inside(whole: Seq<u8>, part: Seq<u8>, at: int, g: u64)
    requires
        crate::text::occurs_at(whole, part, at),
        crate::trigram::has_gram(part, g),
    ensures
        crate::trigram::has_gram(whole, g),
{
    let k = choose|k: int|
        0 <= k < part.len() - 2 && #[trigger] crate::trigram::gram_at(part, k) == g;
    let cut = whole.subrange(at, at + part.len());
    assert(cut[k] == whole[at + k]);
    assert(cut[k + 1] == whole[at + k + 1]);
    assert(cut[k + 2] == whole[at + k + 2]);
    assert(crate::trigram::gram_at(whole, at + k) == g);
}

/// A term with points was found in the name or in the path.
proof fn lemma_points(path: Seq<char>, term: Seq<char>)
    requires
        crate::query::points(path, term) is Some,
    ensures
        crate::query::found_at(crate::types::name_of(path), term) is Some
            || crate::query::found_at(path, term) is Some,
{
}

/// What stands in the file name stands in the path.
proof fn lemma_name_in_path(path: Seq<char>, part: Seq<u8>, i: int) -> (j: int)
    requires
        folds(path),
        crate::text::occurs_at(
            crate::trigram::gram_bytes(crate::types::name_of(path)),
            part,
            i,
        ),
    ensures
        crate::text::occurs_at(crate::trigram::gram_bytes(path), part, j),
{
    let low = crate::text::lowercase(path);
    let n = crate::text::lowercase(crate::types::name_of(path));
    let front = low.take(low.len() - n.len());
    assert(low =~= front + n);
    crate::text::lemma_encoded_in_a_row(front, n);
    lemma_occurs_behind(vstd::utf8::encode_utf8(front), vstd::utf8::encode_utf8(n), part, i);
    vstd::utf8::encode_utf8(front).len() + i
}

/// Every trigram of a folded term that matches a path is a trigram of the path.
pub proof fn law_matching_terms_leave_their_trigrams(path: Seq<char>, term: Seq<char>, g: u64)
    requires
        folds(path),
        folded(term),
        crate::query::points(path, term) is Some,
        crate::trigram::text_has(term, g),
    ensures
        crate::trigram::text_has(path, g),
{
    let tb = crate::trigram::gram_bytes(term);
    lemma_points(path, term);
    if term.len() == 0 {
        assert(tb.len() == 0);
    } else {
        let i = if crate::query::found_at(crate::types::name_of(path), term) is Some {
            let k = lemma_found_bytes(crate::types::name_of(path), term);
            lemma_name_in_path(path, tb, k)
        } else {
            lemma_found_bytes(path, term)
        };
        lemma_gram_inside(crate::trigram::gram_bytes(path), tb, i, g);
    }
}

// ---------------------------------------------------------------------------
// No block with a match is passed over

/// The ascending list of the trigrams below a bound.
proof fn lemma_grams_below(terms: Seq<Seq<char>>, bound: nat) -> (s: Seq<u64>)
    requires
        bound <= 0x100_0000,
    ensures
        crate::order::strictly_ascending(s),
        forall|g: u64| #[trigger]
            s.contains(g) <==> g < bound && crate::trigram::texts_have(terms, g),
    decreases bound,
{
    if bound == 0 {
        Seq::empty()
    } else {
        let front = lemma_grams_below(terms, (bound - 1) as nat);
        let last = (bound - 1) as u64;
        if crate::trigram::texts_have(terms, last) {
            let s = front.push(last);
            assert forall|i: int, j: int| 0 <= i < j < s.len() implies s[i] < s[j] by {
                assert(front.contains(front[i]));
            }
            assert forall|g: u64| #[trigger]
                s.contains(g) <==> g < bound && crate::trigram::texts_have(terms, g) by {
                if s.contains(g) {
                    let k = s.index_of(g);
                    if k < front.len() {
                        assert(front[k] == g);
                        assert(front.contains(g));
                    }
                }
                if g < bound && crate::trigram::texts_have(terms, g) {
                    if g == last {
                        assert(s[front.len() as int] == g);
                    } else {
                        assert(front.contains(g));
                        let k = front.index_of(g);
                        assert(s[k] == g);
                    }
                }
            }
            s
        } else {
            assert forall|g: u64| #[trigger]
                front.contains(g) <==> g < bound && crate::trigram::texts_have(terms, g) by {
                assert(g < bound && g != last ==> g < bound - 1);
            }
            front
        }
    }
}

proof fn lemma_grams_listed(terms: Seq<Seq<char>>)
    ensures
        crate::compact_index::lists_grams(crate::compact_index::gram_list(terms), terms),
{
    let s = lemma_grams_below(terms, 0x100_0000);
    assert forall|g: u64| #[trigger] s.contains(g) <==> crate::trigram::texts_have(terms, g) by {
        if crate::trigram::texts_have(terms, g) {
            let i = choose|i: int|
                0 <= i < terms.len() && crate::trigram::text_has(#[trigger] terms[i], g);
            let b = crate::trigram::gram_bytes(terms[i]);
            let k = choose|k: int|
                0 <= k < b.len() - 2 && #[trigger] crate::trigram::gram_at(b, k) == g;
            assert(g < 0x100_0000);
        }
    }
    crate::compact_index::lemma_gram_list(s, terms);
}

/// Every entry of a list names exactly the blocks with its trigram.
spec fn all_hold(v: CompactView, blocks: Seq<Seq<RecordView>>, es: Seq<DictEntry>) -> bool {
    forall|i: int|
        0 <= i < es.len() ==> #[trigger] crate::compact_laws::entry_holds(v, blocks, es[i])
}

/// The block has the trigram of every entry of a list.
spec fn has_all(block: Seq<RecordView>, es: Seq<DictEntry>) -> bool {
    forall|i: int|
        0 <= i < es.len() ==> crate::trigram::block_has(block, (#[trigger] es[i]).gram as u64)
}

proof fn lemma_narrowed(
    v: CompactView,
    blocks: Seq<Seq<RecordView>>,
    c: Seq<u32>,
    es: Seq<DictEntry>,
    left: nat,
)
    requires
        all_hold(v, blocks, es),
        crate::compact::ascending_ids(c),
        forall|b: u32| c.contains(b) ==> b < blocks.len(),
    ensures
        ({
            let r = crate::compact_index::narrowed(v, c, es, left);
            &&& r is Ok
            &&& crate::compact::ascending_ids(r->Ok_0)
            &&& forall|b: u32| r->Ok_0.contains(b) ==> b < blocks.len()
            &&& forall|b: u32|
                c.contains(b) && #[trigger] has_all(blocks[b as int], es) ==> r->Ok_0.contains(b)
        }),
    decreases left,
{
    if left != 0 && es.len() != 0 {
        crate::compact_index::lemma_rarest_bound(es);
        let k = crate::compact_index::rarest(es);
        assert(crate::compact_laws::entry_holds(v, blocks, es[k]));
        let right = crate::compact_index::posting_of(v, es[k])->Ok_0;
        let d = crate::compact_index::meet(c, right);
        crate::compact_index::law_meet_is_intersection(c, right);
        let rest = es.remove(k);
        assert(all_hold(v, blocks, rest)) by {
            assert forall|i: int| 0 <= i < rest.len() implies #[trigger]
                crate::compact_laws::entry_holds(v, blocks, rest[i]) by {
                let j = if i < k {
                    i
                } else {
                    i + 1
                };
                assert(rest[i] == es[j]);
                assert(crate::compact_laws::entry_holds(v, blocks, es[j]));
            }
        }
        if d.len() != 0 {
            lemma_narrowed(v, blocks, d, rest, (left - 1) as nat);
        }
        let r = crate::compact_index::narrowed(v, c, es, left);
        assert forall|b: u32| c.contains(b) && #[trigger] has_all(
            blocks[b as int],
            es,
        ) implies r->Ok_0.contains(b) by {
            assert(crate::trigram::block_has(blocks[b as int], es[k].gram as u64));
            assert(right.contains(b));
            assert(d.contains(b));
            assert(has_all(blocks[b as int], rest)) by {
                assert forall|i: int| 0 <= i < rest.len() implies crate::trigram::block_has(
                    blocks[b as int],
                    (#[trigger] rest[i]).gram as u64,
                ) by {
                    let j = if i < k {
                        i
                    } else {
                        i + 1
                    };
                    assert(rest[i] == es[j]);
                }
            }
        }
    }
}

/// The entries of a list of trigrams, or a trigram without one.
proof fn lemma_entries_for(dict: Seq<DictEntry>, grams: Seq<u64>)
    ensures
        match crate::compact_index::entries_for(dict, grams) {
            Some(es) => es.len() == grams.len() && forall|i: int|
                0 <= i < es.len() ==> dict.contains(#[trigger] es[i]) && es[i].gram == grams[i],
            None => exists|i: int|
                0 <= i < grams.len() && !crate::compact_laws::has_entry(dict, #[trigger] grams[i]),
        },
    decreases grams.len(),
{
    if grams.len() > 0 {
        let front = grams.drop_last();
        lemma_entries_for(dict, front);
        match crate::compact_index::entries_for(dict, front) {
            None => {
                let i = choose|i: int|
                    0 <= i < front.len() && !crate::compact_laws::has_entry(
                        dict,
                        #[trigger] front[i],
                    );
                assert(grams[i] == front[i]);
            },
            Some(fs) => {
                if crate::compact_index::entry_for(dict, grams.last()) is None {
                    assert(!crate::compact_laws::has_entry(dict, grams[grams.len() - 1]));
                } else {
                    let es = crate::compact_index::entries_for(dict, grams)->0;
                    assert forall|i: int| 0 <= i < es.len() implies dict.contains(#[trigger] es[i])
                        && es[i].gram == grams[i] by {
                        if i < fs.len() {
                            assert(es[i] == fs[i]);
                            assert(front[i] == grams[i]);
                        }
                    }
                }
            },
        }
    }
}

/// The block can hold a match: it has every trigram of the terms.
pub open spec fn can_match(block: Seq<RecordView>, terms: Seq<Seq<char>>) -> bool {
    forall|g: u64| #[trigger]
        crate::trigram::texts_have(terms, g) ==> crate::trigram::block_has(block, g)
}

/// The candidates of some terms ascend, are blocks of the index, and no block that has all
/// trigrams of the terms is missing from them.
pub proof fn law_candidates_are_complete(
    v: CompactView,
    blocks: Seq<Seq<RecordView>>,
    terms: Seq<Seq<char>>,
)
    requires
        crate::compact_laws::holds(v, blocks),
    ensures
        crate::compact_index::candidates(v, terms) is Ok,
        crate::compact::ascending_ids(crate::compact_index::candidates(v, terms)->Ok_0),
        forall|b: u32| #[trigger]
            crate::compact_index::candidates(v, terms)->Ok_0.contains(b) ==> b < blocks.len(),
        forall|b: u32|
            b < blocks.len() && #[trigger] can_match(blocks[b as int], terms)
                ==> crate::compact_index::candidates(v, terms)->Ok_0.contains(b),
{
    lemma_grams_listed(terms);
    let grams = crate::compact_index::gram_list(terms);
    let ids = crate::compact_index::candidates(v, terms)->Ok_0;
    if grams.len() == 0 {
        assert forall|b: u32| b < blocks.len() && #[trigger] can_match(
            blocks[b as int],
            terms,
        ) implies ids.contains(b) by {
            assert(ids[b as int] == b);
        }
    } else {
        lemma_entries_for(v.dict, grams);
        match crate::compact_index::entries_for(v.dict, grams) {
            None => {
                let i = choose|i: int|
                    0 <= i < grams.len() && !crate::compact_laws::has_entry(
                        v.dict,
                        #[trigger] grams[i],
                    );
                assert forall|b: u32| b < blocks.len() && #[trigger] can_match(
                    blocks[b as int],
                    terms,
                ) implies ids.contains(b) by {
                    assert(grams.contains(grams[i]));
                    assert(crate::trigram::texts_have(terms, grams[i]));
                    assert(crate::trigram::block_has(blocks[b as int], grams[i]));
                }
            },
            Some(es) => {
                assert(all_hold(v, blocks, es)) by {
                    assert forall|i: int| 0 <= i < es.len() implies #[trigger]
                        crate::compact_laws::entry_holds(v, blocks, es[i]) by {
                        assert(v.dict.contains(es[i]));
                        let k = v.dict.index_of(es[i]);
                        assert(crate::compact_laws::entry_holds(v, blocks, v.dict[k]));
                    }
                }
                crate::compact_index::lemma_rarest_bound(es);
                let k = crate::compact_index::rarest(es);
                assert(crate::compact_laws::entry_holds(v, blocks, es[k]));
                let first = crate::compact_index::posting_of(v, es[k])->Ok_0;
                let rest = es.remove(k);
                assert(all_hold(v, blocks, rest)) by {
                    assert forall|i: int| 0 <= i < rest.len() implies #[trigger]
                        crate::compact_laws::entry_holds(v, blocks, rest[i]) by {
                        let j = if i < k {
                            i
                        } else {
                            i + 1
                        };
                        assert(rest[i] == es[j]);
                        assert(crate::compact_laws::entry_holds(v, blocks, es[j]));
                    }
                }
                lemma_narrowed(v, blocks, first, rest, 2);
                assert forall|b: u32| b < blocks.len() && #[trigger] can_match(
                    blocks[b as int],
                    terms,
                ) implies ids.contains(b) by {
                    assert forall|i: int| 0 <= i < es.len() implies crate::trigram::block_has(
                        blocks[b as int],
                        (#[trigger] es[i]).gram as u64,
                    ) by {
                        assert(grams.contains(grams[i]));
                        assert(crate::trigram::texts_have(terms, grams[i]));
                    }
                    assert(crate::trigram::block_has(blocks[b as int], es[k].gram as u64));
                    assert(first.contains(b));
                    assert(has_all(blocks[b as int], rest)) by {
                        assert forall|i: int| 0 <= i < rest.len() implies crate::trigram::block_has(
                            blocks[b as int],
                            (#[trigger] rest[i]).gram as u64,
                        ) by {
                            let j = if i < k {
                                i
                            } else {
                                i + 1
                            };
                            assert(rest[i] == es[j]);
                        }
                    }
                }
            },
        }
    }
}

// ---------------------------------------------------------------------------
// A search answers as a scan would

/// What an overlay leaves standing of two lists.
proof fn lemma_visible_split(o: OverlayView, a: Seq<RecordView>, b: Seq<RecordView>)
    ensures
        crate::compact_index::visible(o, a + b) == crate::compact_index::visible(o, a)
            + crate::compact_index::visible(o, b),
    decreases b.len(),
{
    if b.len() == 0 {
        assert(a + b =~= a);
        assert(crate::compact_index::visible(o, a) + crate::compact_index::visible(o, b)
            =~= crate::compact_index::visible(o, a));
    } else {
        lemma_visible_split(o, a, b.drop_last());
        assert((a + b).drop_last() =~= a + b.drop_last());
        assert(crate::compact_index::visible(o, a + b) =~= crate::compact_index::visible(o, a)
            + crate::compact_index::visible(o, b));
    }
}

/// What stands was there before.
proof fn lemma_visible_from(o: OverlayView, rs: Seq<RecordView>, i: int)
    requires
        0 <= i < crate::compact_index::visible(o, rs).len(),
    ensures
        rs.contains(crate::compact_index::visible(o, rs)[i]),
    decreases rs.len(),
{
    let front = rs.drop_last();
    let left = crate::compact_index::visible(o, front);
    if i < left.len() {
        lemma_visible_from(o, front, i);
        let k = front.index_of(left[i]);
        assert(rs[k] == left[i]);
    } else {
        assert(rs[rs.len() - 1] == rs.last());
    }
}

/// Every path and every term of a search folds.
pub open spec fn all_fold(rs: Seq<RecordView>, terms: Seq<Seq<char>>) -> bool {
    &&& forall|i: int| 0 <= i < rs.len() ==> folds((#[trigger] rs[i]).path)
    &&& forall|i: int| 0 <= i < terms.len() ==> folded(#[trigger] terms[i])
}

/// Each of several terms has points where all together have.
proof fn lemma_each_points(path: Seq<char>, terms: Seq<Seq<char>>, i: int)
    requires
        crate::query::total_points(path, terms) is Some,
        0 <= i < terms.len(),
    ensures
        crate::query::points(path, terms[i]) is Some,
{
    if crate::query::points(path, terms[i]) is None {
        crate::query::lemma_failed_term(path, terms, i);
    }
}

/// A block with a match has every trigram of the terms.
proof fn lemma_match_in_block(q: QueryView, block: Seq<RecordView>, i: int)
    requires
        all_fold(block, q.terms),
        0 <= i < block.len(),
        crate::query::matches_query(q, block[i]),
    ensures
        can_match(block, q.terms),
{
    assert forall|g: u64| #[trigger]
        crate::trigram::texts_have(q.terms, g) implies crate::trigram::block_has(block, g) by {
        let t = choose|t: int|
            0 <= t < q.terms.len() && crate::trigram::text_has(#[trigger] q.terms[t], g);
        lemma_each_points(block[i].path, q.terms, t);
        law_matching_terms_leave_their_trigrams(block[i].path, q.terms[t], g);
        assert(crate::trigram::paths_of(block)[i] == block[i].path);
    }
}

/// No record matches.
#[verifier::opaque]
spec fn quiet(q: QueryView, rs: Seq<RecordView>) -> bool {
    forall|i: int| 0 <= i < rs.len() ==> !crate::query::matches_query(q, #[trigger] rs[i])
}

/// Where no record matches there are no hits.
proof fn lemma_hitless(q: QueryView, rs: Seq<RecordView>)
    requires
        quiet(q, rs),
    ensures
        crate::index::hits_among(q, rs) == Seq::<HitView>::empty(),
    decreases rs.len(),
{
    reveal(quiet);
    if rs.len() > 0 {
        let front = rs.drop_last();
        assert forall|i: int| 0 <= i < front.len() implies !crate::query::matches_query(
            q,
            #[trigger] front[i],
        ) by {
            assert(front[i] == rs[i]);
        }
        lemma_hitless(q, front);
        assert(!crate::query::matches_query(q, rs[rs.len() - 1]));
    }
}

/// Nothing that is left of a quiet block matches.
proof fn lemma_still_quiet(q: QueryView, o: OverlayView, rs: Seq<RecordView>)
    requires
        quiet(q, rs),
    ensures
        quiet(q, crate::compact_index::visible(o, rs)),
{
    reveal(quiet);
    let vis = crate::compact_index::visible(o, rs);
    assert forall|i: int| 0 <= i < vis.len() implies !crate::query::matches_query(
        q,
        #[trigger] vis[i],
    ) by {
        lemma_visible_from(o, rs, i);
        let k = rs.index_of(vis[i]);
        assert(rs[k] == vis[i]);
    }
}

/// How many records the first blocks hold.
spec fn first_records(rs: Seq<RecordView>, n: nat) -> int {
    if 32 * n <= rs.len() {
        32 * n as int
    } else {
        rs.len() as int
    }
}

#[verifier::rlimit(50)]
proof fn lemma_scan_of_blocks(
    v: CompactView,
    o: OverlayView,
    q: QueryView,
    sorted: Seq<RecordView>,
    ids: Seq<u32>,
    n: nat,
)
    requires
        crate::compact_laws::holds(v, crate::compact::blocks_of(sorted)),
        n <= crate::compact::blocks_of(sorted).len(),
        crate::compact::ascending_ids(ids),
        forall|i: int| 0 <= i < ids.len() ==> #[trigger] ids[i] < n,
        forall|b: u32| #![trigger crate::compact::blocks_of(sorted)[b as int]]
            b < n && !ids.contains(b) ==> quiet(q, crate::compact::blocks_of(sorted)[b as int]),
    ensures
        crate::compact_index::standing_in(v, o, ids) is Ok,
        crate::index::hits_among(q, crate::compact_index::standing_in(v, o, ids)->Ok_0)
            == crate::index::hits_among(
            q,
            crate::compact_index::visible(o, sorted.take(first_records(sorted, n))),
        ),
    decreases n,
{
    let blocks = crate::compact::blocks_of(sorted);
    let done = sorted.take(first_records(sorted, n));
    if n == 0 {
        if ids.len() > 0 {
            assert(ids[0] < n);
        }
        assert(done =~= Seq::empty());
        assert(ids.len() == 0);
    } else {
        let b = (n - 1) as u32;
        let block = blocks[n - 1];
        let before = sorted.take(first_records(sorted, (n - 1) as nat));
        assert(block == crate::compact::block_of(sorted, n - 1));
        assert(done =~= before + block);
        lemma_visible_split(o, before, block);
        let vis = crate::compact_index::visible(o, block);
        crate::compact_index::lemma_hits_split(
            q,
            crate::compact_index::visible(o, before),
            vis,
        );
        if ids.len() > 0 && ids.last() == b {
            let front = ids.drop_last();
            assert forall|i: int| 0 <= i < front.len() implies #[trigger] front[i] < n - 1 by {
                assert(ids[i] < ids[ids.len() - 1]);
            }
            assert forall|c: u32| #![trigger blocks[c as int]]
                c < n - 1 && !front.contains(c) implies quiet(q, blocks[c as int]) by {
                if ids.contains(c) {
                    let k = ids.index_of(c);
                    assert(front[k] == c);
                }
            }
            lemma_scan_of_blocks(v, o, q, sorted, front, (n - 1) as nat);
            assert(crate::compact_index::block_read(v, b) == Ok::<Seq<RecordView>, IndexError>(
                blocks[b as int],
            ));
            let left = crate::compact_index::standing_in(v, o, front)->Ok_0;
            crate::compact_index::lemma_hits_split(q, left, vis);
        } else {
            assert forall|i: int| 0 <= i < ids.len() implies #[trigger] ids[i] < n - 1 by {
                if ids[i] == b {
                    if i < ids.len() - 1 {
                        assert(ids[i] < ids[ids.len() - 1]);
                    }
                }
            }
            assert(!ids.contains(b)) by {
                if ids.contains(b) {
                    let k = ids.index_of(b);
                    assert(ids[k] < n - 1);
                }
            }
            lemma_scan_of_blocks(v, o, q, sorted, ids, (n - 1) as nat);
            assert(blocks[b as int] == block);
            lemma_still_quiet(q, o, block);
            lemma_hitless(q, vis);
            assert(crate::index::hits_among(q, crate::compact_index::visible(o, before))
                + Seq::<HitView>::empty() =~= crate::index::hits_among(
                q,
                crate::compact_index::visible(o, before),
            ));
        }
    }
}

/// The trigram filter loses nothing: a search of the candidate blocks succeeds and finds
/// what a scan of all standing records finds, in the same order.
pub proof fn law_filter_loses_nothing(
    v: CompactView,
    o: OverlayView,
    q: QueryView,
    sorted: Seq<RecordView>,
)
    requires
        crate::compact_laws::holds(v, crate::compact::blocks_of(sorted)),
        all_fold(sorted, q.terms),
    ensures
        crate::compact_index::search_error(v, o, q) is None,
        crate::index::hits_among(
            q,
            crate::compact_index::standing_in(
                v,
                o,
                crate::compact_index::candidates(v, q.terms)->Ok_0,
            )->Ok_0,
        ) == crate::index::hits_among(q, crate::compact_index::visible(o, sorted)),
{
    let blocks = crate::compact::blocks_of(sorted);
    law_candidates_are_complete(v, blocks, q.terms);
    let ids = crate::compact_index::candidates(v, q.terms)->Ok_0;
    assert forall|i: int| 0 <= i < ids.len() implies #[trigger] ids[i] < blocks.len() by {
        assert(ids.contains(ids[i]));
    }
    assert forall|b: u32| #![trigger blocks[b as int]]
        b < blocks.len() && !ids.contains(b) implies quiet(q, blocks[b as int]) by {
        reveal(quiet);
        let block = blocks[b as int];
        assert(block == crate::compact::block_of(sorted, b as int));
        assert(all_fold(block, q.terms)) by {
            assert forall|i: int| 0 <= i < block.len() implies folds((#[trigger] block[i]).path) by {
                assert(block[i] == sorted[32 * b + i]);
            }
        }
        assert forall|i: int| 0 <= i < block.len() implies !crate::query::matches_query(
            q,
            #[trigger] block[i],
        ) by {
            if crate::query::matches_query(q, block[i]) {
                lemma_match_in_block(q, block, i);
                assert(can_match(blocks[b as int], q.terms));
            }
        }
    }
    lemma_scan_of_blocks(v, o, q, sorted, ids, blocks.len());
    assert(sorted.take(first_records(sorted, blocks.len())) =~= sorted);
}

/// How often a hit is found: as often as its record is there, where it matches.
proof fn lemma_hit_count(q: QueryView, rs: Seq<RecordView>, h: HitView)
    ensures
        crate::index::hits_among(q, rs).to_multiset().count(h) == if crate::query::matches_query(
            q,
            h.record,
        ) && crate::query::score_of(q, h.record) == Some(h.score) {
            rs.to_multiset().count(h.record)
        } else {
            0
        },
    decreases rs.len(),
{
    broadcast use vstd::seq_lib::group_to_multiset_ensures;

    let hits = crate::index::hits_among(q, rs);
    if rs.len() > 0 {
        let front = rs.drop_last();
        lemma_hit_count(q, front, h);
        assert(rs =~= front.push(rs.last()));
        assert(rs.to_multiset() =~= front.to_multiset().insert(rs.last()));
        if crate::query::matches_query(q, rs.last()) {
            let top = HitView { score: crate::query::score_of(q, rs.last())->0, record: rs.last() };
            assert(hits =~= crate::index::hits_among(q, front).push(top));
            assert(hits.to_multiset() =~= crate::index::hits_among(q, front).to_multiset().insert(
                top,
            ));
            if h.record == rs.last() && crate::query::score_of(q, h.record) == Some(h.score) {
                assert(h == top);
            }
        }
    } else {
        assert(rs.to_multiset() =~= vstd::multiset::Multiset::empty());
        assert(hits.to_multiset() =~= vstd::multiset::Multiset::empty());
    }
}

/// What is found does not depend on the order of the records.
pub proof fn law_order_of_records_is_free(q: QueryView, a: Seq<RecordView>, b: Seq<RecordView>)
    requires
        a.to_multiset() == b.to_multiset(),
    ensures
        crate::index::hits_among(q, a).to_multiset() == crate::index::hits_among(
            q,
            b,
        ).to_multiset(),
        crate::index::hits_among(q, a).len() == crate::index::hits_among(q, b).len(),
{
    broadcast use vstd::seq_lib::group_to_multiset_ensures;

    let ha = crate::index::hits_among(q, a).to_multiset();
    let hb = crate::index::hits_among(q, b).to_multiset();
    assert forall|h: HitView| ha.count(h) == hb.count(h) by {
        lemma_hit_count(q, a, h);
        lemma_hit_count(q, b, h);
    }
    assert(ha =~= hb);
    crate::index::hits_among(q, a).to_multiset_ensures();
    crate::index::hits_among(q, b).to_multiset_ensures();
}

/// A search of an opened build answers as a scan of the records that were indexed.
pub proof fn law_search_of_a_build_is_a_scan(
    image: Seq<u8>,
    generation: u64,
    records: Seq<RecordView>,
    q: QueryView,
    hits: Seq<HitView>,
    stats: SearchStats,
)
    requires
        crate::compact::is_image(image, generation, records),
        records.len() <= u32::MAX,
        image.len() <= usize::MAX,
        all_fold(records, q.terms),
        crate::compact_index::opened_index(image, false) is Ok,
        crate::compact_index::search_answer(
            crate::compact_index::opened_index(image, false)->Ok_0,
            crate::delta::no_changes(),
            q,
            hits,
            stats,
        ),
    ensures
        crate::index::answers(
            crate::compact_index::compact_ranking(q),
            q.limit,
            crate::index::hits_among(q, records),
            hits,
        ),
        stats.scanned == records.len(),
        stats.matched == crate::index::hits_among(q, records).len(),
{
    let (sorted, packed, dict) = choose|
        sorted: Seq<RecordView>,
        packed: Seq<Seq<u8>>,
        dict: Seq<GramView>,
    |
        crate::compact::image_parts(image, generation, records, sorted, packed, dict);
    let v = crate::compact_laws::law_open_gives_back_the_build(
        image,
        generation,
        records,
        sorted,
        packed,
        dict,
    );
    let o = crate::delta::no_changes();
    assert(all_fold(sorted, q.terms)) by {
        broadcast use vstd::seq_lib::group_to_multiset_ensures;

        assert forall|i: int| 0 <= i < sorted.len() implies folds((#[trigger] sorted[i]).path) by {
            assert(sorted.contains(sorted[i]));
            assert(sorted.to_multiset().contains(sorted[i]));
            assert(records.to_multiset().contains(sorted[i]));
            assert(records.contains(sorted[i]));
            let k = records.index_of(sorted[i]);
            assert(records[k] == sorted[i]);
        }
    }
    law_filter_loses_nothing(v, o, q, sorted);
    crate::compact_index::lemma_nothing_hidden(sorted);
    let (base, us) = choose|base: Seq<RecordView>, us: Seq<RecordView>|
        #[trigger] crate::compact_index::searched(v, o, q, base, us) && ({
            let found = crate::index::hits_among(q, base + us);
            &&& crate::index::answers(
                crate::compact_index::compact_ranking(q),
                q.limit,
                found,
                hits,
            )
            &&& stats.scanned == crate::rank::capped(
                v.record_count as nat + crate::delta::overlay_size(o) as nat,
            )
            &&& stats.matched == crate::rank::capped(found.len())
        });
    assert(us.len() == 0) by {
        if us.len() > 0 {
            assert(o.upserts.contains_key(us[0].path));
        }
    }
    assert(base + us =~= base);
    law_order_of_records_is_free(q, sorted, records);
    crate::index::lemma_hits_bounded(q, records);
}

/// What an overlay leaves standing in the first blocks.
proof fn lemma_standing_in_first(v: CompactView, o: OverlayView, sorted: Seq<RecordView>, n: nat)
    requires
        crate::compact_laws::holds(v, crate::compact::blocks_of(sorted)),
        n <= crate::compact::blocks_of(sorted).len(),
    ensures
        crate::compact_index::standing_in(v, o, Seq::new(n, |i: int| i as u32)) == Ok::<
            Seq<RecordView>,
            IndexError,
        >(crate::compact_index::visible(o, sorted.take(first_records(sorted, n)))),
    decreases n,
{
    let ids = Seq::new(n, |i: int| i as u32);
    if n == 0 {
        assert(sorted.take(first_records(sorted, n)) =~= Seq::empty());
    } else {
        let m = (n - 1) as nat;
        let blocks = crate::compact::blocks_of(sorted);
        let before = sorted.take(first_records(sorted, m));
        lemma_standing_in_first(v, o, sorted, m);
        assert(ids.drop_last() =~= Seq::new(m, |i: int| i as u32));
        assert(blocks[m as int] == crate::compact::block_of(sorted, m as int));
        assert(sorted.take(first_records(sorted, n)) =~= before + blocks[m as int]);
        lemma_visible_split(o, before, blocks[m as int]);
        assert(ids.last() == m as u32);
        assert(crate::compact_index::block_read(v, m as u32) == Ok::<Seq<RecordView>, IndexError>(
            blocks[m as int],
        ));
    }
}

/// What an overlay leaves standing in all blocks.
pub proof fn lemma_standing_in_all(v: CompactView, o: OverlayView, sorted: Seq<RecordView>)
    requires
        crate::compact_laws::holds(v, crate::compact::blocks_of(sorted)),
    ensures
        crate::compact_index::standing_in(
            v,
            o,
            Seq::new(v.blocks.len(), |i: int| i as u32),
        ) == Ok::<Seq<RecordView>, IndexError>(crate::compact_index::visible(o, sorted)),
{
    let blocks = crate::compact::blocks_of(sorted);
    lemma_standing_in_first(v, o, sorted, blocks.len());
    assert(sorted.take(first_records(sorted, blocks.len())) =~= sorted);
}

/// A file that was built is opened under the generation that building it told, which is never
/// zero, and gives back the records that it was built of: all of them, as often as they were
/// there, in path order.
pub proof fn law_records_of_a_build_are_the_input(
    image: Seq<u8>,
    stats: crate::compact::BuildStats,
    drawn: u64,
    records: Seq<RecordView>,
)
    requires
        crate::compact::built(image, stats, crate::compact::numbered(drawn), records),
        records.len() <= u32::MAX,
        image.len() <= usize::MAX,
    ensures
        ({
            let opened = crate::compact_index::opened_index(image, false);
            let v = opened->Ok_0;
            let all = crate::compact_index::standing_in(
                v,
                crate::delta::no_changes(),
                Seq::new(v.blocks.len(), |i: int| i as u32),
            );
            &&& opened is Ok
            &&& v.generation == stats.generation == crate::compact::numbered(drawn)
            &&& v.generation != 0
            &&& v.record_count == stats.records == records.len()
            &&& all is Ok
            &&& all->Ok_0.len() == records.len()
            &&& all->Ok_0.to_multiset() == records.to_multiset()
            &&& crate::compact::by_path(all->Ok_0)
        }),
{
    let generation = crate::compact::numbered(drawn);
    let (sorted, packed, dict) = choose|
        sorted: Seq<RecordView>,
        packed: Seq<Seq<u8>>,
        dict: Seq<GramView>,
    |
        #[trigger] crate::compact::image_parts(image, generation, records, sorted, packed, dict)
            && crate::compact::counts(stats, image, generation, records, packed, dict);
    let v = crate::compact_laws::law_open_gives_back_the_build(
        image,
        generation,
        records,
        sorted,
        packed,
        dict,
    );
    lemma_standing_in_all(v, crate::delta::no_changes(), sorted);
    crate::compact_index::lemma_nothing_hidden(sorted);
    sorted.to_multiset_ensures();
    records.to_multiset_ensures();
}

/// Folding an overlay into its base changes no answer: over a base and an overlay the same
/// hits are found as in any list of the records that stand and those that were written.
pub proof fn law_compaction_changes_no_answer(
    v: CompactView,
    o: OverlayView,
    q: QueryView,
    sorted: Seq<RecordView>,
    us: Seq<RecordView>,
    merged: Seq<RecordView>,
    hits: Seq<HitView>,
)
    requires
        crate::compact_laws::holds(v, crate::compact::blocks_of(sorted)),
        all_fold(sorted, q.terms),
        crate::compact_index::lists_records(us, o.upserts),
        merged.to_multiset() == (crate::compact_index::visible(o, sorted) + us).to_multiset(),
    ensures
        ({
            let base = crate::compact_index::standing_in(
                v,
                o,
                crate::compact_index::candidates(v, q.terms)->Ok_0,
            )->Ok_0;
            let ranking = crate::compact_index::compact_ranking(q);
            &&& crate::compact_index::searched(v, o, q, base, us)
            &&& crate::index::answers(
                ranking,
                q.limit,
                crate::index::hits_among(q, base + us),
                hits,
            ) <==> crate::index::answers(
                ranking,
                q.limit,
                crate::index::hits_among(q, merged),
                hits,
            )
        }),
{
    law_filter_loses_nothing(v, o, q, sorted);
    let stand = crate::compact_index::visible(o, sorted);
    let base = crate::compact_index::standing_in(
        v,
        o,
        crate::compact_index::candidates(v, q.terms)->Ok_0,
    )->Ok_0;
    crate::compact_index::lemma_hits_split(q, stand, us);
    crate::compact_index::lemma_hits_split(q, base, us);
    law_order_of_records_is_free(q, merged, stand + us);
}

/// Two lists of the same records hold them equally often.
proof fn lemma_lists_agree(
    a: Seq<RecordView>,
    b: Seq<RecordView>,
    m: Map<Seq<char>, RecordView>,
)
    requires
        crate::compact_index::lists_records(a, m),
        crate::compact_index::lists_records(b, m),
    ensures
        a.to_multiset() == b.to_multiset(),
{
    broadcast use vstd::seq_lib::group_to_multiset_ensures;

    assert(a.no_duplicates());
    assert(b.no_duplicates());
    a.lemma_multiset_has_no_duplicates();
    b.lemma_multiset_has_no_duplicates();
    assert forall|r: RecordView| a.contains(r) implies b.contains(r) by {
        let k = a.index_of(r);
        assert(m.contains_key(a[k].path));
        let j = choose|i: int| 0 <= i < b.len() && (#[trigger] b[i]).path == a[k].path;
        assert(b[j] == r);
    }
    assert forall|r: RecordView| b.contains(r) implies a.contains(r) by {
        let k = b.index_of(r);
        assert(m.contains_key(b[k].path));
        let j = choose|i: int| 0 <= i < a.len() && (#[trigger] a[i]).path == b[k].path;
        assert(a[j] == r);
    }
    assert forall|r: RecordView| a.to_multiset().count(r) == b.to_multiset().count(r) by {
        assert(a.contains(r) <==> a.to_multiset().count(r) > 0);
        assert(b.contains(r) <==> b.to_multiset().count(r) > 0);
    }
    assert(a.to_multiset() =~= b.to_multiset());
}

/// Hits and statistics are those of a scan of some records.
#[verifier::opaque]
spec fn of_a_scan(
    q: QueryView,
    records: Seq<RecordView>,
    hits: Seq<HitView>,
    matched: u64,
) -> bool {
    let found = crate::index::hits_among(q, records);
    &&& crate::index::answers(crate::compact_index::compact_ranking(q), q.limit, found, hits)
    &&& matched == crate::rank::capped(found.len())
}

/// The answers over a base and an overlay are those of a scan of the records of both.
proof fn lemma_answers_of_both(
    v: CompactView,
    o: OverlayView,
    q: QueryView,
    sorted: Seq<RecordView>,
    us: Seq<RecordView>,
    hits: Seq<HitView>,
    stats: SearchStats,
)
    requires
        crate::compact_laws::holds(v, crate::compact::blocks_of(sorted)),
        all_fold(sorted, q.terms),
        crate::compact_index::lists_records(us, o.upserts),
    ensures
        crate::compact_index::search_error(v, o, q) is None,
        crate::compact_index::search_answer(v, o, q, hits, stats) <==> of_a_scan(
            q,
            crate::compact_index::visible(o, sorted) + us,
            hits,
            stats.matched,
        ) && stats.scanned == crate::rank::capped(
            v.record_count as nat + crate::delta::overlay_size(o) as nat,
        ),
{
    reveal(of_a_scan);
    law_filter_loses_nothing(v, o, q, sorted);
    let stand = crate::compact_index::visible(o, sorted);
    let base = crate::compact_index::standing_in(
        v,
        o,
        crate::compact_index::candidates(v, q.terms)->Ok_0,
    )->Ok_0;
    crate::compact_index::lemma_hits_split(q, stand, us);
    crate::compact_index::lemma_hits_split(q, base, us);
    assert(crate::compact_index::searched(v, o, q, base, us));
    if crate::compact_index::search_answer(v, o, q, hits, stats) {
        let (b, w) = choose|b: Seq<RecordView>, w: Seq<RecordView>|
            #[trigger] crate::compact_index::searched(v, o, q, b, w) && ({
                let found = crate::index::hits_among(q, b + w);
                &&& crate::index::answers(
                    crate::compact_index::compact_ranking(q),
                    q.limit,
                    found,
                    hits,
                )
                &&& stats.scanned == crate::rank::capped(
                    v.record_count as nat + crate::delta::overlay_size(o) as nat,
                )
                &&& stats.matched == crate::rank::capped(found.len())
            });
        assert(b == base);
        lemma_lists_agree(w, us, o.upserts);
        assert((b + w).to_multiset() =~= (base + us).to_multiset()) by {
            vstd::seq_lib::lemma_multiset_commutative(b, w);
            vstd::seq_lib::lemma_multiset_commutative(base, us);
        }
        law_order_of_records_is_free(q, b + w, base + us);
    }
}

/// `v` is an opened build of `records`.
pub open spec fn of_a_build(v: CompactView, records: Seq<RecordView>) -> bool {
    exists|image: Seq<u8>, generation: u64| #[trigger]
        crate::compact::is_image(image, generation, records) && records.len() <= u32::MAX
            && image.len() <= usize::MAX && crate::compact_index::opened_index(image, false) == Ok::<
            CompactView,
            IndexError,
        >(v)
}

/// What is held by an opened build.
proof fn lemma_build_holds(v: CompactView, records: Seq<RecordView>) -> (sorted: Seq<RecordView>)
    requires
        of_a_build(v, records),
    ensures
        sorted.to_multiset() == records.to_multiset(),
        sorted.len() == records.len(),
        v.record_count == records.len(),
        crate::compact_laws::holds(v, crate::compact::blocks_of(sorted)),
{
    let (image, generation) = choose|image: Seq<u8>, generation: u64| #[trigger]
        crate::compact::is_image(image, generation, records) && records.len() <= u32::MAX
            && image.len() <= usize::MAX && crate::compact_index::opened_index(image, false) == Ok::<
            CompactView,
            IndexError,
        >(v);
    let (sorted, packed, dict) = choose|
        sorted: Seq<RecordView>,
        packed: Seq<Seq<u8>>,
        dict: Seq<GramView>,
    |
        crate::compact::image_parts(image, generation, records, sorted, packed, dict);
    crate::compact_laws::law_open_gives_back_the_build(
        image,
        generation,
        records,
        sorted,
        packed,
        dict,
    );
    sorted.to_multiset_ensures();
    records.to_multiset_ensures();
    sorted
}

proof fn lemma_same_fold(a: Seq<RecordView>, b: Seq<RecordView>, terms: Seq<Seq<char>>)
    requires
        a.to_multiset() == b.to_multiset(),
        all_fold(b, terms),
    ensures
        all_fold(a, terms),
{
    broadcast use vstd::seq_lib::group_to_multiset_ensures;

    assert forall|i: int| 0 <= i < a.len() implies folds((#[trigger] a[i]).path) by {
        assert(a.contains(a[i]));
        assert(a.to_multiset().contains(a[i]));
        assert(b.to_multiset().contains(a[i]));
        assert(b.contains(a[i]));
        let k = b.index_of(a[i]);
        assert(b[k] == a[i]);
    }
}

/// What a compaction makes of a store whose base is a build: the records that stood in its
/// base, those that were written, and both together.
proof fn lemma_compaction_parts(
    before: StoreView,
    sorted: Seq<RecordView>,
    drawn: u64,
    c: Compaction,
    after: StoreView,
) -> (us: Seq<RecordView>)
    requires
        crate::compact_laws::holds(before.base, crate::compact::blocks_of(sorted)),
        crate::store::compacted(before, drawn, c, after),
    ensures
        crate::compact_index::lists_records(us, before.delta.overlay.upserts),
        crate::store::merges(
            before,
            crate::compact_index::visible(before.delta.overlay, sorted) + us,
        ),
        of_a_build(
            after.base,
            crate::compact_index::visible(before.delta.overlay, sorted) + us,
        ),
        c.records == (crate::compact_index::visible(before.delta.overlay, sorted) + us).len(),
        after.base.generation == crate::store::unused(before.base.generation, drawn),
        after.delta.generation == after.base.generation,
        after.delta.overlay == crate::delta::no_changes(),
{
    let generation = crate::store::unused(before.base.generation, drawn);
    reveal(crate::store::compacted);
    reveal(crate::store::rebuilt);
    let o = before.delta.overlay;
    let stats = choose|stats: crate::compact::BuildStats| #[trigger]
        crate::store::compacts(before, generation, stats, c, after);
    let merged = choose|rs: Seq<RecordView>| #[trigger]
        crate::store::merges(before, rs) && rs.len() <= u32::MAX && crate::compact::built(
            c.image@,
            stats,
            generation,
            rs,
        );
    let us = choose|us: Seq<RecordView>| #[trigger]
        crate::compact_index::lists_records(us, o.upserts) && crate::store::base_records(
            before.base,
        ) is Ok && merged == crate::compact_index::visible(
            o,
            crate::store::base_records(before.base)->Ok_0,
        ) + us;
    lemma_standing_in_all(before.base, crate::delta::no_changes(), sorted);
    crate::compact_index::lemma_nothing_hidden(sorted);
    assert(crate::store::every_block(before.base) =~= Seq::new(
        before.base.blocks.len(),
        |i: int| i as u32,
    ));
    assert(merged == crate::compact_index::visible(o, sorted) + us);
    assert(crate::compact::is_image(c.image@, generation, merged));
    assert(c.image.len() == c.image@.len());
    us
}

/// What stands and what was written folds where both do.
proof fn lemma_both_fold(
    o: OverlayView,
    sorted: Seq<RecordView>,
    us: Seq<RecordView>,
    terms: Seq<Seq<char>>,
)
    requires
        all_fold(sorted, terms),
        crate::compact_index::lists_records(us, o.upserts),
        forall|p: Seq<char>| #[trigger] o.upserts.contains_key(p) ==> folds(p),
    ensures
        all_fold(crate::compact_index::visible(o, sorted) + us, terms),
{
    let stand = crate::compact_index::visible(o, sorted);
    let merged = stand + us;
    assert forall|i: int| 0 <= i < merged.len() implies folds((#[trigger] merged[i]).path) by {
        if i < stand.len() {
            lemma_visible_from(o, sorted, i);
            let k = sorted.index_of(stand[i]);
            assert(sorted[k] == merged[i]);
        } else {
            assert(us[i - stand.len()] == merged[i]);
            assert(o.upserts.contains_key(merged[i].path));
        }
    }
}

/// A build answers as a scan of its records.
proof fn lemma_answers_of_a_build(
    v: CompactView,
    records: Seq<RecordView>,
    q: QueryView,
    hits: Seq<HitView>,
    stats: SearchStats,
)
    requires
        of_a_build(v, records),
        all_fold(records, q.terms),
    ensures
        crate::compact_index::search_error(v, crate::delta::no_changes(), q) is None,
        crate::compact_index::search_answer(
            v,
            crate::delta::no_changes(),
            q,
            hits,
            stats,
        ) <==> of_a_scan(q, records, hits, stats.matched) && stats.scanned == crate::rank::capped(
            records.len(),
        ),
{
    let fresh = lemma_build_holds(v, records);
    lemma_same_fold(fresh, records, q.terms);
    crate::compact_index::lemma_nothing_hidden(fresh);
    let none = Seq::<RecordView>::empty();
    assert(crate::compact_index::lists_records(none, crate::delta::no_changes().upserts));
    assert(fresh + none =~= fresh);
    assert(crate::delta::overlay_size(crate::delta::no_changes()) == 0);
    lemma_answers_of_both(v, crate::delta::no_changes(), q, fresh, none, hits, stats);
    reveal(of_a_scan);
    law_order_of_records_is_free(q, fresh, records);
}

/// A store answers the same before and after a compaction: the same hits to every search, and
/// as many, however long either takes. The new base is a build of the records of the pair,
/// both its parts are of a new generation, and no change is left in the log. The base of the store is a build of
/// `records`.
pub proof fn law_a_compacted_store_answers_the_same(
    before: StoreView,
    records: Seq<RecordView>,
    drawn: u64,
    c: Compaction,
    after: StoreView,
    q: QueryView,
    hits: Seq<HitView>,
    matched: u64,
    before_us: u64,
    after_us: u64,
) -> (merged: Seq<RecordView>)
    requires
        of_a_build(before.base, records),
        all_fold(records, q.terms),
        forall|p: Seq<char>| #[trigger] before.delta.overlay.upserts.contains_key(p) ==> folds(p),
        crate::store::compacted(before, drawn, c, after),
    ensures
        crate::store::merges(before, merged),
        of_a_build(after.base, merged),
        c.records == merged.len(),
        after.base.generation == crate::store::unused(before.base.generation, drawn),
        after.base.generation != before.base.generation,
        after.delta.generation == after.base.generation,
        crate::delta::overlay_size(after.delta.overlay) == 0,
        crate::compact_index::search_error(before.base, before.delta.overlay, q) is None,
        crate::compact_index::search_error(after.base, after.delta.overlay, q) is None,
        crate::compact_index::search_answer(
            before.base,
            before.delta.overlay,
            q,
            hits,
            (SearchStats {
                scanned: crate::rank::capped(
                    before.base.record_count as nat + crate::delta::overlay_size(
                        before.delta.overlay,
                    ) as nat,
                ),
                matched,
                wall_us: before_us,
            }),
        ) <==> crate::compact_index::search_answer(
            after.base,
            after.delta.overlay,
            q,
            hits,
            (SearchStats { scanned: crate::rank::capped(c.records as nat), matched, wall_us: after_us }),
        ),
{
    let o = before.delta.overlay;
    let sorted = lemma_build_holds(before.base, records);
    let us = lemma_compaction_parts(before, sorted, drawn, c, after);
    let merged = crate::compact_index::visible(o, sorted) + us;
    lemma_same_fold(sorted, records, q.terms);
    lemma_both_fold(o, sorted, us, q.terms);
    assert(crate::delta::overlay_size(crate::delta::no_changes()) == 0);
    lemma_answers_of_both(
        before.base,
        o,
        q,
        sorted,
        us,
        hits,
        SearchStats {
            scanned: crate::rank::capped(
                before.base.record_count as nat + crate::delta::overlay_size(o) as nat,
            ),
            matched,
            wall_us: before_us,
        },
    );
    lemma_answers_of_a_build(
        after.base,
        merged,
        q,
        hits,
        SearchStats { scanned: crate::rank::capped(c.records as nat), matched, wall_us: after_us },
    );
    merged
}

} // verus!
