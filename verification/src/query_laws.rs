//! What the query language means: which records the text of a query lets through.

use crate::mounts::FsView;
use crate::query::{QueryView, SortKey};
use crate::text::Separator;
use crate::types::{FileKind, RecordView};
use vstd::prelude::*;

verus! {

// ---------------------------------------------------------------------------
// Words

/// A text without white space and quotes.
pub open spec fn solid(s: Seq<char>) -> bool {
    forall|i: int| 0 <= i < s.len() ==> !crate::text::is_space(#[trigger] s[i]) && s[i] != '"'
}

proof fn lemma_solid_state(s: Seq<char>)
    requires
        solid(s),
    ensures
        crate::query::token_state(s).done == Seq::<Seq<char>>::empty(),
        crate::query::token_state(s).current == s,
        !crate::query::token_state(s).quoted,
    decreases s.len(),
{
    if s.len() == 0 {
        assert(s =~= Seq::empty());
    } else {
        let less = s.drop_last();
        assert(solid(less)) by {
            assert forall|i: int| 0 <= i < less.len() implies !crate::text::is_space(
                #[trigger] less[i],
            ) && less[i] != '"' by {
                assert(less[i] == s[i]);
            }
        }
        lemma_solid_state(less);
        assert(s[s.len() - 1] == s.last());
        assert(less.push(s.last()) =~= s);
    }
}

/// A text without white space and quotes is one word.
pub proof fn law_a_solid_text_is_one_word(s: Seq<char>)
    requires
        solid(s),
        s.len() > 0,
    ensures
        crate::query::tokens(s) == seq![s],
{
    lemma_solid_state(s);
    assert(crate::query::tokens(s) =~= seq![s]);
}

proof fn lemma_apart_state(a: Seq<char>, b: Seq<char>)
    requires
        !crate::query::token_state(a).quoted,
    ensures
        ({
            let x = crate::query::token_state(a.push(' ') + b);
            let y = crate::query::token_state(b);
            &&& x.done == crate::query::tokens(a) + y.done
            &&& x.current == y.current
            &&& x.quoted == y.quoted
        }),
    decreases b.len(),
{
    let whole = a.push(' ') + b;
    if b.len() == 0 {
        assert(whole =~= a.push(' '));
        assert(whole.drop_last() =~= a);
        assert(crate::text::is_space(' '));
        let y = crate::query::token_state(b);
        assert(crate::query::tokens(a) + y.done =~= crate::query::tokens(a));
        assert(crate::query::token_state(a).current.len() == 0 ==> crate::query::token_state(
            a,
        ).current =~= y.current);
    } else {
        let less = b.drop_last();
        lemma_apart_state(a, less);
        assert(whole.drop_last() =~= a.push(' ') + less);
        assert(whole.last() == b.last());
        let y = crate::query::token_state(less);
        assert((crate::query::tokens(a) + y.done).push(y.current) =~= crate::query::tokens(a)
            + y.done.push(y.current));
    }
}

/// The words of two texts with a space between them are the words of the one and then those of
/// the other, unless a quotation of the first is still open.
pub proof fn law_words_stand_apart(a: Seq<char>, b: Seq<char>)
    requires
        !crate::query::token_state(a).quoted,
    ensures
        crate::query::tokens(a.push(' ') + b) == crate::query::tokens(a) + crate::query::tokens(b),
{
    lemma_apart_state(a, b);
    let y = crate::query::token_state(b);
    assert((crate::query::tokens(a) + y.done).push(y.current) =~= crate::query::tokens(a)
        + y.done.push(y.current));
}

proof fn lemma_quoted_state(s: Seq<char>)
    requires
        !s.contains('"'),
    ensures
        ({
            let x = crate::query::token_state(seq!['"'] + s);
            &&& x.done == Seq::<Seq<char>>::empty()
            &&& x.current == s
            &&& x.quoted
        }),
    decreases s.len(),
{
    let whole = seq!['"'] + s;
    if s.len() == 0 {
        assert(whole.drop_last() =~= Seq::empty());
        assert(crate::query::token_state(Seq::empty()).current =~= s);
    } else {
        let less = s.drop_last();
        assert(!less.contains('"')) by {
            if less.contains('"') {
                let i = less.index_of('"');
                assert(s[i] == '"');
            }
        }
        lemma_quoted_state(less);
        assert(whole.drop_last() =~= seq!['"'] + less);
        assert(s.contains(s[s.len() - 1]));
        assert(less.push(s.last()) =~= s);
    }
}

/// What stands in quotes is one word, with its spaces.
pub proof fn law_quotes_keep_a_phrase_together(s: Seq<char>)
    requires
        !s.contains('"'),
        s.len() > 0,
    ensures
        crate::query::tokens((seq!['"'] + s).push('"')) == seq![s],
{
    lemma_quoted_state(s);
    let whole = (seq!['"'] + s).push('"');
    assert(whole.drop_last() =~= seq!['"'] + s);
    assert(crate::query::tokens(whole) =~= seq![s]);
}

/// The query of one word.
proof fn lemma_one_token(tok: Seq<char>)
    requires
        solid(tok),
        tok.len() > 0,
    ensures
        crate::query::parsed_query(tok) == crate::query::with_token(
            crate::query::default_query(),
            tok,
        ),
{
    law_a_solid_text_is_one_word(tok);
    reveal_with_fuel(crate::query::with_tokens, 2);
    assert(seq![tok].drop_last() =~= Seq::empty());
}

/// An empty query text asks for everything: every record with an absolute, normalized path
/// passes. It is ranked by relevance and told a thousand hits of.
pub proof fn law_an_empty_text_asks_for_everything(r: RecordView)
    ensures
        crate::query::matches_query(crate::query::parsed_query(Seq::empty()), r)
            == crate::scope::safe_path(r.path),
        crate::query::parsed_query(Seq::empty()).sort == SortKey::Relevance,
        crate::query::parsed_query(Seq::empty()).limit == 1000,
{
    assert(crate::query::tokens(Seq::empty()) =~= Seq::empty());
}

// ---------------------------------------------------------------------------
// Sizes

/// A letter behind a number, and how many bytes each of the units is.
pub open spec fn unit_letter(suffix: Seq<char>, times: nat) -> bool {
    ||| suffix.len() == 0 && times == 1
    ||| (suffix == seq!['k'] || suffix == seq!['K']) && times == 1024
    ||| (suffix == seq!['m'] || suffix == seq!['M']) && times == 1024 * 1024
    ||| (suffix == seq!['g'] || suffix == seq!['G']) && times == 1024 * 1024 * 1024
    ||| (suffix == seq!['t'] || suffix == seq!['T']) && times == 1024 * 1024 * 1024 * 1024
}

/// Digits, perhaps with the letter of a unit behind them, that stand for a number of bytes.
pub open spec fn spells_size(n: Seq<char>, bytes: u64) -> bool {
    exists|v: nat, suffix: Seq<char>, times: nat|
        n == crate::text::decimal(v) + suffix && #[trigger] unit_letter(suffix, times) && bytes
            == #[trigger] (v * times)
}

/// A number that is written in decimal is read as the same number.
pub proof fn law_decimals_are_read_back(v: nat)
    ensures
        crate::text::decimal_value(crate::text::decimal(v)) == v,
        crate::text::all_digits(crate::text::decimal(v)),
        crate::text::decimal(v).len() > 0,
    decreases v,
{
    crate::text::lemma_decimal_digits(v);
    if v >= 10 {
        law_decimals_are_read_back(v / 10);
        assert(crate::text::decimal(v).drop_last() =~= crate::text::decimal(v / 10));
    } else {
        assert(crate::text::decimal(v).drop_last() =~= Seq::empty());
        reveal_with_fuel(crate::text::decimal_value, 2);
    }
}

#[verifier::rlimit(40)]
proof fn lemma_size_value(n: Seq<char>, bytes: u64)
    requires
        spells_size(n, bytes),
    ensures
        crate::query::size_value(n) == Some(bytes),
        n.len() > 0,
        '0' <= n[0] <= '9',
        solid(n),
        forall|i: int| 0 <= i < n.len() ==> n[i] != '.',
{
    let (v, suffix, times) = choose|v: nat, suffix: Seq<char>, times: nat|
        n == crate::text::decimal(v) + suffix && #[trigger] unit_letter(suffix, times) && bytes
            == #[trigger] (v * times);
    let d = crate::text::decimal(v);
    law_decimals_are_read_back(v);
    assert(forall|i: int| 0 <= i < d.len() ==> '0' <= #[trigger] d[i] <= '9');
    assert forall|i: int| 0 <= i < n.len() implies ('0' <= #[trigger] n[i] <= '9' || 'A' <= n[i]
        <= 'z') by {
        if i < d.len() {
            assert(n[i] == d[i]);
        } else {
            assert(n[i] == suffix[i - d.len()]);
        }
    }
    assert(n[0] == d[0]);
    assert(!crate::text::is_space(n[0]));
    assert(!crate::text::is_space(n.last())) by {
        assert(n.last() == n[n.len() - 1]);
    }
    assert(crate::text::trim(n) == n);
    if suffix.len() == 0 {
        assert(n =~= d);
        assert(n.last() == d[d.len() - 1]);
        assert(crate::query::size_parts(n) == (n, 1nat));
    } else {
        assert(suffix.len() == 1);
        assert(n.last() == suffix[0]);
        assert(n.drop_last() =~= d);
        assert(crate::query::size_parts(n) == (d, times));
    }
    assert(d[0] != '+');
    assert(v <= u64::MAX) by (nonlinear_arith)
        requires
            v * times <= u64::MAX,
            times >= 1,
    ;
}

/// No two dots stand in a row.
proof fn lemma_no_range(s: Seq<char>)
    requires
        forall|i: int| 0 <= i < s.len() ==> s[i] != '.',
    ensures
        crate::text::first_occurrence(s, seq!['.', '.']) is None,
{
    let dots = seq!['.', '.'];
    assert forall|j: int| !crate::text::occurs_at(s, dots, j) by {
        if crate::text::occurs_at(s, dots, j) {
            assert(s.subrange(j, j + 2)[0] == dots[0]);
        }
    }
    crate::text::lemma_no_occurrence(s, dots);
}

proof fn lemma_size_token(rest: Seq<char>)
    requires
        solid(rest),
    ensures
        crate::query::parsed_query("size:"@ + rest) == crate::query::size_bounds(
            rest,
            crate::query::default_query(),
        ),
{
    reveal_strlit("ext:");
    reveal_strlit("kind:");
    reveal_strlit("fs:");
    reveal_strlit("size:");
    let tok = "size:"@ + rest;
    assert(tok[0] == 's');
    assert(solid(tok)) by {
        assert forall|i: int| 0 <= i < tok.len() implies !crate::text::is_space(#[trigger] tok[i])
            && tok[i] != '"' by {
            if i >= 5 {
                assert(tok[i] == rest[i - 5]);
            }
        }
    }
    lemma_one_token(tok);
    assert("ext:"@[0] == 'e' && "kind:"@[0] == 'k' && "fs:"@[0] == 'f');
    assert(!"ext:"@.is_prefix_of(tok)) by {
        if "ext:"@.is_prefix_of(tok) {
            assert(tok.subrange(0, 4)[0] == tok[0]);
        }
    }
    assert(!"kind:"@.is_prefix_of(tok)) by {
        if "kind:"@.is_prefix_of(tok) {
            assert(tok.subrange(0, 5)[0] == tok[0]);
        }
    }
    assert(!"fs:"@.is_prefix_of(tok)) by {
        if "fs:"@.is_prefix_of(tok) {
            assert(tok.subrange(0, 3)[0] == tok[0]);
        }
    }
    assert("size:"@.is_prefix_of(tok)) by {
        assert(tok.subrange(0, 5) =~= "size:"@);
    }
    assert(crate::query::behind(tok, "size:"@) =~= rest);
}

/// `size:<4k` lets through what is at most that large, however small, and `size:>4k` what is
/// at least that large, however large; so does a size without a sign.
pub proof fn law_sizes_bound_the_records(n: Seq<char>, bytes: u64, r: RecordView)
    requires
        spells_size(n, bytes),
    ensures
        crate::query::matches_query(crate::query::parsed_query("size:<"@ + n), r) <==> (
        crate::scope::safe_path(r.path) && r.size <= bytes),
        crate::query::matches_query(crate::query::parsed_query("size:>"@ + n), r) <==> (
        crate::scope::safe_path(r.path) && r.size >= bytes),
        crate::query::matches_query(crate::query::parsed_query("size:"@ + n), r) <==> (
        crate::scope::safe_path(r.path) && r.size >= bytes),
{
    reveal_strlit("size:<");
    reveal_strlit("size:>");
    reveal_strlit("size:");
    assert("size:<"@ + n =~= "size:"@ + (seq!['<'] + n));
    assert("size:>"@ + n =~= "size:"@ + (seq!['>'] + n));
    lemma_size_value(n, bytes);
    lemma_sign('<', n);
    lemma_sign('>', n);
    lemma_size_token(n);
    lemma_no_range(n);
    lemma_bounds(None, Some(bytes), r);
    lemma_bounds(Some(bytes), None, r);
}

proof fn lemma_sign(sign: char, n: Seq<char>)
    requires
        sign == '<' || sign == '>',
        solid(n),
        forall|i: int| 0 <= i < n.len() ==> n[i] != '.',
    ensures
        crate::query::parsed_query("size:"@ + (seq![sign] + n)) == (if sign == '<' {
            QueryView {
                max_size: crate::query::size_value(n),
                ..crate::query::default_query()
            }
        } else {
            QueryView {
                min_size: crate::query::size_value(n),
                ..crate::query::default_query()
            }
        }),
{
    let s = seq![sign] + n;
    assert(solid(s)) by {
        assert forall|i: int| 0 <= i < s.len() implies !crate::text::is_space(#[trigger] s[i])
            && s[i] != '"' by {
            if i >= 1 {
                assert(s[i] == n[i - 1]);
            }
        }
    }
    lemma_size_token(s);
    lemma_no_range(s);
    assert(s.skip(1) =~= n);
}

proof fn lemma_bounds(least: Option<u64>, most: Option<u64>, r: RecordView)
    ensures
        crate::query::matches_query(
            QueryView { min_size: least, max_size: most, ..crate::query::default_query() },
            r,
        ) <==> (crate::scope::safe_path(r.path) && (least is Some ==> r.size >= least->0) && (
        most is Some ==> r.size <= most->0)),
{
}

/// `size:1M..2M` lets through what lies between the two, both included.
#[verifier::rlimit(40)]
pub proof fn law_size_ranges_bound_the_records(
    low: Seq<char>,
    least: u64,
    high: Seq<char>,
    most: u64,
    r: RecordView,
)
    requires
        spells_size(low, least),
        spells_size(high, most),
    ensures
        crate::query::matches_query(
            crate::query::parsed_query("size:"@ + low + ".."@ + high),
            r,
        ) <==> (crate::scope::safe_path(r.path) && least <= r.size <= most),
{
    lemma_size_value(low, least);
    lemma_size_value(high, most);
    reveal_strlit("..");
    let dots = seq!['.', '.'];
    let s = low + dots + high;
    assert(".."@ =~= dots);
    assert("size:"@ + low + ".."@ + high =~= "size:"@ + s);
    assert(solid(s)) by {
        assert forall|i: int| 0 <= i < s.len() implies !crate::text::is_space(#[trigger] s[i])
            && s[i] != '"' by {
            if i < low.len() {
                assert(s[i] == low[i]);
            } else if i >= low.len() + 2 {
                assert(s[i] == high[i - low.len() - 2]);
            }
        }
    }
    lemma_size_token(s);
    let at = low.len() as int;
    assert(s.subrange(at, at + 2) =~= dots);
    assert forall|j: int| 0 <= j < at implies !crate::text::occurs_at(s, dots, j) by {
        if crate::text::occurs_at(s, dots, j) {
            assert(s.subrange(j, j + 2)[0] == dots[0]);
            assert(s[j] == low[j]);
        }
    }
    crate::text::lemma_first_occurrence(s, dots, at);
    assert(s.take(at) =~= low);
    assert(s.skip(at + 2) =~= high);
    lemma_bounds(Some(least), Some(most), r);
}

// ---------------------------------------------------------------------------
// Other filters

proof fn lemma_other_prefix(p: Seq<char>, q: Seq<char>, rest: Seq<char>)
    requires
        p.len() > 0,
        q.len() > 0,
        p[0] != q[0],
    ensures
        !p.is_prefix_of(q + rest),
{
    let tok = q + rest;
    if p.is_prefix_of(tok) {
        assert(tok.subrange(0, p.len() as int)[0] == tok[0]);
        assert(tok[0] == q[0]);
    }
}

proof fn lemma_solid_behind(p: Seq<char>, rest: Seq<char>)
    requires
        solid(p),
        solid(rest),
    ensures
        solid(p + rest),
{
    let s = p + rest;
    assert forall|i: int| 0 <= i < s.len() implies !crate::text::is_space(#[trigger] s[i]) && s[i]
        != '"' by {
        if i < p.len() {
            assert(s[i] == p[i]);
        } else {
            assert(s[i] == rest[i - p.len()]);
        }
    }
}

proof fn lemma_filters(rest: Seq<char>)
    requires
        solid(rest),
    ensures
        crate::query::parsed_query("ext:"@ + rest) == (QueryView {
            exts: crate::query::exts_named(rest),
            ..crate::query::default_query()
        }),
        crate::query::parsed_query("kind:"@ + rest) == (QueryView {
            kinds: crate::query::kinds_named(crate::text::split(rest, Separator::Char(','))),
            ..crate::query::default_query()
        }),
        crate::query::parsed_query("fs:"@ + rest) == (QueryView {
            fss: crate::query::fss_named(rest),
            ..crate::query::default_query()
        }),
        crate::query::parsed_query("under:"@ + rest) == (QueryView {
            under: Some(crate::text::lowercase(rest)),
            ..crate::query::default_query()
        }),
{
    lemma_ext_filter(rest);
    lemma_kind_filter(rest);
    lemma_fs_filter(rest);
    lemma_under_filter(rest);
}

proof fn lemma_ext_filter(rest: Seq<char>)
    requires
        solid(rest),
    ensures
        crate::query::parsed_query("ext:"@ + rest) == (QueryView {
            exts: crate::query::exts_named(rest),
            ..crate::query::default_query()
        }),
{
    reveal_strlit("ext:");
    let p = "ext:"@;
    assert("ext:"@[0] == 'e');
    assert(solid(p));
    lemma_solid_behind(p, rest);
    lemma_one_token(p + rest);
    assert((p + rest).subrange(0, 4) =~= p);
    assert(crate::query::behind(p + rest, p) =~= rest);
    let all = crate::query::exts_named(rest);
    assert(crate::query::default_query().exts + all =~= all);
}

proof fn lemma_kind_filter(rest: Seq<char>)
    requires
        solid(rest),
    ensures
        crate::query::parsed_query("kind:"@ + rest) == (QueryView {
            kinds: crate::query::kinds_named(crate::text::split(rest, Separator::Char(','))),
            ..crate::query::default_query()
        }),
{
    reveal_strlit("ext:");
    reveal_strlit("kind:");
    let p = "kind:"@;
    assert("ext:"@[0] == 'e' && "kind:"@[0] == 'k');
    assert(solid(p));
    lemma_solid_behind(p, rest);
    lemma_one_token(p + rest);
    lemma_other_prefix("ext:"@, p, rest);
    assert((p + rest).subrange(0, 5) =~= p);
    assert(crate::query::behind(p + rest, p) =~= rest);
    let all = crate::query::kinds_named(crate::text::split(rest, Separator::Char(',')));
    assert(crate::query::default_query().kinds + all =~= all);
}

proof fn lemma_fs_filter(rest: Seq<char>)
    requires
        solid(rest),
    ensures
        crate::query::parsed_query("fs:"@ + rest) == (QueryView {
            fss: crate::query::fss_named(rest),
            ..crate::query::default_query()
        }),
{
    reveal_strlit("ext:");
    reveal_strlit("kind:");
    reveal_strlit("fs:");
    let p = "fs:"@;
    assert("ext:"@[0] == 'e' && "kind:"@[0] == 'k' && "fs:"@[0] == 'f');
    assert(solid(p));
    lemma_solid_behind(p, rest);
    lemma_one_token(p + rest);
    lemma_other_prefix("ext:"@, p, rest);
    lemma_other_prefix("kind:"@, p, rest);
    assert((p + rest).subrange(0, 3) =~= p);
    assert(crate::query::behind(p + rest, p) =~= rest);
    let all = crate::query::fss_named(rest);
    assert(crate::query::default_query().fss + all =~= all);
}

proof fn lemma_under_filter(rest: Seq<char>)
    requires
        solid(rest),
    ensures
        crate::query::parsed_query("under:"@ + rest) == (QueryView {
            under: Some(crate::text::lowercase(rest)),
            ..crate::query::default_query()
        }),
{
    reveal_strlit("ext:");
    reveal_strlit("kind:");
    reveal_strlit("fs:");
    reveal_strlit("size:");
    reveal_strlit("under:");
    let p = "under:"@;
    assert("ext:"@[0] == 'e' && "kind:"@[0] == 'k' && "fs:"@[0] == 'f' && "size:"@[0] == 's' && "under:"@[0] == 'u');
    assert(solid(p));
    lemma_solid_behind(p, rest);
    lemma_one_token(p + rest);
    lemma_other_prefix("ext:"@, p, rest);
    lemma_other_prefix("kind:"@, p, rest);
    lemma_other_prefix("fs:"@, p, rest);
    lemma_other_prefix("size:"@, p, rest);
    assert((p + rest).subrange(0, 6) =~= p);
    assert(crate::query::behind(p + rest, p) =~= rest);
}

/// A text without a comma is one part.
proof fn lemma_uncut(s: Seq<char>)
    requires
        !s.contains(','),
    ensures
        crate::text::split(s, Separator::Char(',')) == seq![s],
    decreases s.len(),
{
    if s.len() == 0 {
        assert(s =~= Seq::empty());
    } else {
        let less = s.drop_last();
        assert(!less.contains(',')) by {
            if less.contains(',') {
                let i = less.index_of(',');
                assert(s[i] == ',');
            }
        }
        lemma_uncut(less);
        assert(s.contains(s[s.len() - 1]));
        assert(less.push(s.last()) =~= s);
        assert(crate::text::split(s, Separator::Char(',')) =~= seq![s]);
    }
}

/// Two texts with a comma between them are cut there.
proof fn lemma_cut(a: Seq<char>, b: Seq<char>)
    requires
        !a.contains(','),
        !b.contains(','),
    ensures
        crate::text::split(a.push(',') + b, Separator::Char(',')) == seq![a, b],
    decreases b.len(),
{
    let sep = Separator::Char(',');
    let whole = a.push(',') + b;
    if b.len() == 0 {
        lemma_uncut(a);
        assert(b =~= Seq::empty());
        assert(whole.drop_last() =~= a);
        assert(crate::text::split(whole, sep) =~= seq![a, b]);
    } else {
        let less = b.drop_last();
        assert(!less.contains(',')) by {
            if less.contains(',') {
                let i = less.index_of(',');
                assert(b[i] == ',');
            }
        }
        lemma_cut(a, less);
        assert(whole.drop_last() =~= a.push(',') + less);
        assert(b.contains(b[b.len() - 1]));
        assert(whole.last() == b.last());
        assert(less.push(b.last()) =~= b);
        assert(crate::text::split(whole, sep) =~= seq![a, b]);
    }
}

proof fn lemma_words_of_one(a: Seq<char>)
    requires
        a.len() > 0,
        !a.contains(','),
    ensures
        crate::text::words(a, Separator::Char(',')) == seq![a],
{
    lemma_uncut(a);
    reveal_with_fuel(Seq::filter, 2);
    assert(seq![a].drop_last() =~= Seq::empty());
    assert(crate::text::words(a, Separator::Char(',')) =~= seq![a]);
}

proof fn lemma_words_of_two(a: Seq<char>, b: Seq<char>)
    requires
        a.len() > 0,
        b.len() > 0,
        !a.contains(','),
        !b.contains(','),
    ensures
        crate::text::words(a.push(',') + b, Separator::Char(',')) == seq![a, b],
{
    lemma_cut(a, b);
    reveal_with_fuel(Seq::filter, 3);
    assert(seq![a, b].drop_last() =~= seq![a]);
    assert(seq![a].drop_last() =~= Seq::empty());
    assert(crate::text::words(a.push(',') + b, Separator::Char(',')) =~= seq![a, b]);
}

/// A file name that has something in front of a dot, and `e` behind it, whatever the case.
pub open spec fn ends_in(name: Seq<char>, e: Seq<char>) -> bool {
    let at = name.len() - e.len();
    at >= 2 && name[at - 1] == '.' && forall|i: int|
        0 <= i < e.len() ==> crate::text::ascii_lower(#[trigger] name[at + i])
            == crate::text::ascii_lower(e[i])
}

/// An extension as it is written in a query: plain, without commas and dots.
pub open spec fn plain_extension(e: Seq<char>) -> bool {
    e.len() > 0 && solid(e) && !e.contains(',') && !e.contains('.') && vstd::utf8::is_ascii_chars(e)
}

proof fn lemma_low_twice(c: char)
    ensures
        crate::text::ascii_lower(crate::text::ascii_lower(c)) == crate::text::ascii_lower(c),
{
}

proof fn lemma_extension(name: Seq<char>, e: Seq<char>)
    requires
        plain_extension(e),
    ensures
        crate::query::same_but_case(
            crate::types::raw_extension_of(name),
            crate::text::ascii_lower_all(e),
        ) == ends_in(name, e),
{
    let low = crate::text::ascii_lower_all(e);
    let ext = crate::types::raw_extension_of(name);
    let dot = crate::text::last_index(name, '.');
    crate::text::lemma_last_index(name, '.');
    assert forall|i: int| 0 <= i < e.len() implies e[i] != '.' && crate::text::ascii_lower(
        #[trigger] low[i],
    ) == crate::text::ascii_lower(e[i]) by {
        assert(e.contains(e[i]));
        lemma_low_twice(e[i]);
    }
    let (x, y) = (crate::text::ascii_lower_all(ext), crate::text::ascii_lower_all(low));
    if x == y {
        assert(x.len() == y.len());
        assert(ext.len() == e.len());
        assert(dot > 0);
        let at = name.len() - e.len();
        assert(at == dot + 1);
        assert forall|i: int| 0 <= i < e.len() implies crate::text::ascii_lower(
            #[trigger] name[at + i],
        ) == crate::text::ascii_lower(e[i]) by {
            assert(x[i] == y[i]);
            assert(ext[i] == name[at + i]);
            assert(crate::text::ascii_lower(low[i]) == crate::text::ascii_lower(e[i]));
        }
    }
    if ends_in(name, e) {
        let at = name.len() - e.len();
        assert forall|k: int| at <= k < name.len() implies name[k] != '.' by {
            let i = k - at;
            assert(crate::text::ascii_lower(name[at + i]) == crate::text::ascii_lower(e[i]));
            if name[k] == '.' {
                assert(crate::text::ascii_lower(low[i]) == crate::text::ascii_lower(e[i]));
            }
        }
        assert(dot == at - 1);
        assert forall|i: int| 0 <= i < e.len() implies x[i] == y[i] by {
            assert(ext[i] == name[at + i]);
            assert(crate::text::ascii_lower(low[i]) == crate::text::ascii_lower(e[i]));
        }
        assert(x =~= y);
    }
}

/// The extensions that a filter names, as they are compared.
proof fn lemma_named_extension(e: Seq<char>)
    requires
        plain_extension(e),
    ensures
        crate::text::lowercase(crate::text::trim_front(e, Separator::Char('.')))
            == crate::text::ascii_lower_all(e),
{
    assert(e.contains(e[0]));
    assert(crate::text::trim_front(e, Separator::Char('.')) == e);
}

/// `ext:rs` lets through what is called something, a dot and `rs`, whatever the case.
pub proof fn law_extensions_filter(e: Seq<char>, r: RecordView)
    requires
        plain_extension(e),
    ensures
        crate::query::matches_query(crate::query::parsed_query("ext:"@ + e), r) <==> (
        crate::scope::safe_path(r.path) && ends_in(crate::types::name_of(r.path), e)),
{
    lemma_filters(e);
    lemma_words_of_one(e);
    lemma_named_extension(e);
    lemma_extension(crate::types::name_of(r.path), e);
    let q = crate::query::parsed_query("ext:"@ + e);
    assert(q.exts =~= seq![crate::text::ascii_lower_all(e)]);
    assert(q.exts[0] == crate::text::ascii_lower_all(e));
}

/// `ext:rs,toml` lets through what has either extension.
pub proof fn law_either_extension_will_do(e: Seq<char>, f: Seq<char>, r: RecordView)
    requires
        plain_extension(e),
        plain_extension(f),
    ensures
        crate::query::matches_query(crate::query::parsed_query("ext:"@ + (e.push(',') + f)), r) <==> (
        crate::scope::safe_path(r.path) && (ends_in(crate::types::name_of(r.path), e) || ends_in(
            crate::types::name_of(r.path),
            f,
        ))),
{
    let both = e.push(',') + f;
    lemma_solid_behind(e.push(','), f);
    lemma_filters(both);
    lemma_words_of_two(e, f);
    lemma_named_extension(e);
    lemma_named_extension(f);
    lemma_extension(crate::types::name_of(r.path), e);
    lemma_extension(crate::types::name_of(r.path), f);
    let q = crate::query::parsed_query("ext:"@ + both);
    assert(q.exts =~= seq![crate::text::ascii_lower_all(e), crate::text::ascii_lower_all(f)]);
    assert(q.exts[0] == crate::text::ascii_lower_all(e));
    assert(q.exts[1] == crate::text::ascii_lower_all(f));
}

/// `kind:` lets through files, folders or links, by each of the words for them.
#[verifier::rlimit(40)]
pub proof fn law_kinds_filter(word: Seq<char>, r: RecordView)
    requires
        word == "file"@ || word == "f"@ || word == "dir"@ || word == "d"@ || word == "folder"@
            || word == "link"@ || word == "symlink"@ || word == "l"@,
    ensures
        crate::query::matches_query(crate::query::parsed_query("kind:"@ + word), r) <==> (
        crate::scope::safe_path(r.path) && match r.kind {
            FileKind::File => word == "file"@ || word == "f"@,
            FileKind::Dir => word == "dir"@ || word == "d"@ || word == "folder"@,
            FileKind::Symlink => word == "link"@ || word == "symlink"@ || word == "l"@,
            FileKind::Other => false,
        }),
{
    reveal_strlit("file");
    reveal_strlit("f");
    reveal_strlit("dir");
    reveal_strlit("d");
    reveal_strlit("folder");
    reveal_strlit("link");
    reveal_strlit("symlink");
    reveal_strlit("l");
    assert(solid(word));
    assert("file"@[1] == 'i' && "f"@.len() == 1 && "folder"@[1] == 'o' && "link"@[0] == 'l'
        && "dir"@[0] == 'd' && "symlink"@[0] == 's' && "l"@[0] == 'l' && "d"@[0] == 'd' && "f"@[0]
        == 'f' && "file"@[0] == 'f' && "folder"@[0] == 'f');
    assert(!word.contains(','));
    lemma_filters(word);
    lemma_uncut(word);
    reveal_with_fuel(crate::query::kinds_named, 2);
    assert(seq![word].drop_last() =~= Seq::empty());
    let q = crate::query::parsed_query("kind:"@ + word);
    let kind = crate::query::kind_named(word);
    assert(kind is Some);
    assert(q.kinds =~= seq![kind->0]);
    assert(q.kinds[0] == kind->0);
}

/// `fs:` lets through what a lane of that family found. The older formats of ext4 and the
/// drivers of NTFS count with their families.
#[verifier::rlimit(40)]
pub proof fn law_families_filter(word: Seq<char>, fs: FsView, r: RecordView)
    requires
        ({
            ||| word == "btrfs"@ && fs is Btrfs
            ||| (word == "ext4"@ || word == "ext3"@ || word == "ext2"@) && fs is Ext4
            ||| (word == "ntfs"@ || word == "ntfs3"@ || word == "ntfs-3g"@ || word == "fuseblk"@)
                && fs is Ntfs
            ||| word == "zfs"@ && fs is Zfs
        }),
    ensures
        crate::query::matches_query(crate::query::parsed_query("fs:"@ + word), r) <==> (
        crate::scope::safe_path(r.path) && r.fs == fs),
{
    reveal_strlit("btrfs");
    reveal_strlit("ext4");
    reveal_strlit("ext3");
    reveal_strlit("ext2");
    reveal_strlit("ntfs");
    reveal_strlit("ntfs3");
    reveal_strlit("ntfs-3g");
    reveal_strlit("fuseblk");
    reveal_strlit("zfs");
    assert("btrfs"@[0] == 'b' && "ext4"@[0] == 'e' && "ext3"@[0] == 'e' && "ext2"@[0] == 'e'
        && "ntfs"@[0] == 'n' && "ntfs3"@[0] == 'n' && "ntfs-3g"@[0] == 'n' && "fuseblk"@[0] == 'f'
        && "zfs"@[0] == 'z');
    assert(solid(word));
    assert(!word.contains(','));
    assert(crate::mounts::fs_of(word) == fs);
    lemma_filters(word);
    lemma_words_of_one(word);
    let q = crate::query::parsed_query("fs:"@ + word);
    assert(q.fss =~= seq![fs]);
    assert(q.fss[0] == fs);
}

// ---------------------------------------------------------------------------
// Folders

/// Either separator of paths.
pub open spec fn separates(c: char) -> bool {
    c == '/' || c == '\\'
}

/// The path is a folder or lies below it, whatever the case and the separators.
pub open spec fn at_or_below(path: Seq<char>, folder: Seq<char>) -> bool {
    &&& folder.len() <= path.len()
    &&& forall|i: int|
        0 <= i < folder.len() ==> crate::text::ascii_lower(#[trigger] path[i])
            == crate::text::ascii_lower(folder[i]) || (separates(path[i]) && separates(folder[i]))
    &&& path.len() == folder.len() || (folder.len() > 0 && separates(folder.last()))
        || separates(path[folder.len() as int])
}

proof fn lemma_alike(a: char, b: char)
    requires
        '\0' <= a <= '\u{7f}',
        '\0' <= b <= '\u{7f}',
    ensures
        crate::scope::alike(a as u8, b as u8) == (crate::text::ascii_lower(a)
            == crate::text::ascii_lower(b) || (separates(a) && separates(b))),
        crate::scope::slash_byte(a as u8) == separates(a),
        separates(crate::text::ascii_lower(a)) == separates(a),
        '\0' <= crate::text::ascii_lower(a) <= '\u{7f}',
{
}

/// Plain paths are compared character by character.
pub proof fn law_folders_hold_what_lies_below(path: Seq<char>, folder: Seq<char>)
    requires
        vstd::utf8::is_ascii_chars(path),
        vstd::utf8::is_ascii_chars(folder),
    ensures
        crate::scope::under_ci(path, folder) == at_or_below(path, folder),
{
    vstd::utf8::is_ascii_chars_encode_utf8(path);
    vstd::utf8::is_ascii_chars_encode_utf8(folder);
    let p = vstd::utf8::encode_utf8(path);
    let f = vstd::utf8::encode_utf8(folder);
    assert forall|i: int| 0 <= i < folder.len() && i < path.len() implies crate::scope::alike(
        p[i],
        f[i],
    ) == (crate::text::ascii_lower(#[trigger] path[i]) == crate::text::ascii_lower(folder[i]) || (
    separates(path[i]) && separates(folder[i]))) by {
        assert(p[i] == path[i] as u8);
        assert(f[i] == folder[i] as u8);
        lemma_alike(path[i], folder[i]);
    }
    if folder.len() > 0 {
        assert(f.last() == folder.last() as u8) by {
            assert(folder[folder.len() - 1] as u8 == f[f.len() - 1]);
        }
        lemma_alike(folder[folder.len() - 1], folder[folder.len() - 1]);
    }
    if folder.len() < path.len() {
        assert(p[folder.len() as int] == path[folder.len() as int] as u8);
        lemma_alike(path[folder.len() as int], path[folder.len() as int]);
    }
    if crate::scope::under_ci(path, folder) {
        assert forall|i: int| 0 <= i < folder.len() implies crate::text::ascii_lower(
            #[trigger] path[i],
        ) == crate::text::ascii_lower(folder[i]) || (separates(path[i]) && separates(
            folder[i],
        )) by {
            assert(crate::scope::alike(p[i], f[i]));
        }
    }
    if at_or_below(path, folder) {
        assert forall|i: int| 0 <= i < f.len() implies crate::scope::alike(#[trigger] p[i], f[i]) by {
            assert(crate::text::ascii_lower(path[i]) == crate::text::ascii_lower(folder[i]) || (
            separates(path[i]) && separates(folder[i])));
        }
    }
}

/// `under:` lets through a folder and what lies below it, and nothing beside it.
#[verifier::rlimit(40)]
pub proof fn law_folders_filter(folder: Seq<char>, r: RecordView)
    requires
        solid(folder),
        vstd::utf8::is_ascii_chars(folder),
        vstd::utf8::is_ascii_chars(r.path),
    ensures
        crate::query::matches_query(crate::query::parsed_query("under:"@ + folder), r) <==> (
        crate::scope::safe_path(r.path) && at_or_below(r.path, folder)),
{
    lemma_filters(folder);
    let low = crate::text::ascii_lower_all(folder);
    assert forall|i: int| 0 <= i < folder.len() implies '\0' <= #[trigger] low[i] <= '\u{7f}'
        && crate::text::ascii_lower(low[i]) == crate::text::ascii_lower(folder[i]) && separates(
        low[i],
    ) == separates(folder[i]) by {
        lemma_alike(folder[i], folder[i]);
        lemma_low_twice(folder[i]);
    }
    assert(vstd::utf8::is_ascii_chars(low));
    law_folders_hold_what_lies_below(r.path, low);
    if folder.len() > 0 {
        assert(low.last() == low[folder.len() - 1]);
        assert(folder.last() == folder[folder.len() - 1]);
    }
    assert(at_or_below(r.path, low) == at_or_below(r.path, folder)) by {
        if at_or_below(r.path, low) {
            assert forall|i: int| 0 <= i < folder.len() implies crate::text::ascii_lower(
                #[trigger] r.path[i],
            ) == crate::text::ascii_lower(folder[i]) || (separates(r.path[i]) && separates(
                folder[i],
            )) by {
                assert(separates(low[i]) == separates(folder[i]));
            }
        }
        if at_or_below(r.path, folder) {
            assert forall|i: int| 0 <= i < low.len() implies crate::text::ascii_lower(
                #[trigger] r.path[i],
            ) == crate::text::ascii_lower(low[i]) || (separates(r.path[i]) && separates(
                low[i],
            )) by {
                assert(separates(low[i]) == separates(folder[i]));
            }
        }
    }
}

/// A query that is kept to some folders lets nothing through that lies in none of them, and
/// loses nothing that lies in one: to the letter where the host tells case apart.
pub proof fn law_scopes_hold_what_lies_below(q: QueryView, path: Seq<char>, folder: Seq<char>)
    ensures
        q.scope_case_sensitive ==> crate::query::in_scope(q, path, folder) == (folder.len()
            <= path.len() && (forall|i: int|
            0 <= i < folder.len() ==> #[trigger] path[i] == folder[i]) && (path.len()
            == folder.len() || (folder.len() > 0 && separates(folder.last())) || separates(
            path[folder.len() as int],
        ))),
        !q.scope_case_sensitive && vstd::utf8::is_ascii_chars(path) && vstd::utf8::is_ascii_chars(
            folder,
        ) ==> crate::query::in_scope(q, path, folder) == at_or_below(path, folder),
{
    if q.scope_case_sensitive {
        if folder.len() <= path.len() && forall|i: int|
            0 <= i < folder.len() ==> #[trigger] path[i] == folder[i] {
            assert(path.subrange(0, folder.len() as int) =~= folder);
        }
        if folder.is_prefix_of(path) {
            assert forall|i: int| 0 <= i < folder.len() implies #[trigger] path[i] == folder[i] by {
                assert(path.subrange(0, folder.len() as int)[i] == path[i]);
            }
        }
    } else if vstd::utf8::is_ascii_chars(path) && vstd::utf8::is_ascii_chars(folder) {
        law_folders_hold_what_lies_below(path, folder);
    }
}

// ---------------------------------------------------------------------------
// Words to be found

/// The word stands in the text, whatever the case.
pub open spec fn stands_in(text: Seq<char>, word: Seq<char>) -> bool {
    exists|i: int| #[trigger] stands_at(text, word, i)
}

/// The word stands in the text at a position, whatever the case.
pub open spec fn stands_at(text: Seq<char>, word: Seq<char>, i: int) -> bool {
    &&& 0 <= i
    &&& i + word.len() <= text.len()
    &&& forall|k: int|
        0 <= k < word.len() ==> crate::text::ascii_lower(text[i + k]) == crate::text::ascii_lower(
            #[trigger] word[k],
        )
}

/// A plain word that is no filter.
pub open spec fn plain_word(word: Seq<char>) -> bool {
    word.len() > 0 && solid(word) && !word.contains(':') && vstd::utf8::is_ascii_chars(word)
}

proof fn lemma_no_filter(prefix: Seq<char>, word: Seq<char>)
    requires
        prefix.contains(':'),
        !word.contains(':'),
    ensures
        !prefix.is_prefix_of(word),
{
    if prefix.is_prefix_of(word) {
        let i = prefix.index_of(':');
        assert(word.subrange(0, prefix.len() as int)[i] == word[i]);
    }
}

proof fn lemma_word_query(word: Seq<char>)
    requires
        plain_word(word),
    ensures
        crate::query::parsed_query(word) == (QueryView {
            terms: seq![crate::text::ascii_lower_all(word)],
            ..crate::query::default_query()
        }),
{
    reveal_strlit("ext:");
    reveal_strlit("kind:");
    reveal_strlit("fs:");
    reveal_strlit("size:");
    reveal_strlit("under:");
    assert("ext:"@[3] == ':' && "kind:"@[4] == ':' && "fs:"@[2] == ':' && "size:"@[4] == ':'
        && "under:"@[5] == ':');
    lemma_no_filter("ext:"@, word);
    lemma_no_filter("kind:"@, word);
    lemma_no_filter("fs:"@, word);
    lemma_no_filter("size:"@, word);
    lemma_no_filter("under:"@, word);
    lemma_one_token(word);
    let none = Seq::<Seq<char>>::empty();
    assert(none.push(crate::text::ascii_lower_all(word)) =~= seq![
        crate::text::ascii_lower_all(word),
    ]);
}

#[verifier::rlimit(40)]
proof fn lemma_found(text: Seq<char>, word: Seq<char>)
    requires
        plain_word(word),
        vstd::utf8::is_ascii_chars(text),
    ensures
        ({
            let at = crate::query::found_at(text, crate::text::ascii_lower_all(word));
            &&& at is Some <==> stands_in(text, word)
            &&& at is Some ==> stands_at(text, word, at->0) && forall|j: int|
                0 <= j < at->0 ==> !stands_at(text, word, j)
        }),
{
    let term = crate::text::ascii_lower_all(word);
    let low = crate::text::ascii_lower_all(text);
    let needle = crate::text::ascii_lower_all(term);
    assert forall|i: int| 0 <= i < word.len() implies '\0' <= #[trigger] term[i] <= '\u{7f}'
        && needle[i] == crate::text::ascii_lower(word[i]) by {
        lemma_alike(word[i], word[i]);
        lemma_low_twice(word[i]);
    }
    assert(vstd::utf8::is_ascii_chars(term));
    assert forall|i: int|
        #![trigger crate::text::occurs_at(low, needle, i)]
        #![trigger stands_at(text, word, i)]
        crate::text::occurs_at(low, needle, i) == stands_at(text, word, i) by {
        if crate::text::occurs_at(low, needle, i) {
            assert forall|k: int| 0 <= k < word.len() implies crate::text::ascii_lower(text[i + k])
                == crate::text::ascii_lower(#[trigger] word[k]) by {
                assert(low.subrange(i, i + needle.len())[k] == low[i + k]);
                assert(needle[k] == crate::text::ascii_lower(word[k]));
            }
        }
        if stands_at(text, word, i) {
            assert forall|k: int| 0 <= k < needle.len() implies low.subrange(i, i + needle.len())[k]
                == needle[k] by {
                assert(crate::text::ascii_lower(text[i + k]) == crate::text::ascii_lower(word[k]));
                assert('\0' <= term[k]);
            }
            assert(low.subrange(i, i + needle.len()) =~= needle);
        }
    }
    lemma_first_found(low, needle);
    let at = crate::text::first_occurrence(low, needle);
    if stands_in(text, word) {
        let i = choose|i: int| #[trigger] stands_at(text, word, i);
        assert(crate::text::occurs_at(low, needle, i));
    }
    if at is Some {
        assert(stands_at(text, word, at->0));
        assert forall|j: int| 0 <= j < at->0 implies !stands_at(text, word, j) by {
            assert(!crate::text::occurs_at(low, needle, j));
        }
    }
}

proof fn lemma_first_found(hay: Seq<char>, needle: Seq<char>)
    ensures
        ({
            let at = crate::text::first_occurrence(hay, needle);
            &&& at is Some <==> exists|i: int| crate::text::occurs_at(hay, needle, i)
            &&& at is Some ==> crate::text::occurs_at(hay, needle, at->0) && forall|j: int|
                0 <= j < at->0 ==> !crate::text::occurs_at(hay, needle, j)
        }),
{
    if exists|i: int| crate::text::occurs_at(hay, needle, i) {
        let i = choose|i: int| crate::text::occurs_at(hay, needle, i);
        lemma_earliest(hay, needle, i);
    } else {
        crate::text::lemma_no_occurrence(hay, needle);
    }
}

proof fn lemma_earliest(hay: Seq<char>, needle: Seq<char>, i: int)
    requires
        crate::text::occurs_at(hay, needle, i),
    ensures
        ({
            let at = crate::text::first_occurrence(hay, needle);
            &&& at is Some
            &&& crate::text::occurs_at(hay, needle, at->0)
            &&& forall|j: int| 0 <= j < at->0 ==> !crate::text::occurs_at(hay, needle, j)
        }),
    decreases i,
{
    if exists|j: int| 0 <= j < i && crate::text::occurs_at(hay, needle, j) {
        let j = choose|j: int| 0 <= j < i && crate::text::occurs_at(hay, needle, j);
        lemma_earliest(hay, needle, j);
    } else {
        crate::text::lemma_first_occurrence(hay, needle, i);
    }
}

proof fn lemma_plain_name(path: Seq<char>)
    requires
        vstd::utf8::is_ascii_chars(path),
    ensures
        vstd::utf8::is_ascii_chars(crate::types::name_of(path)),
{
    let name = crate::types::name_of(path);
    crate::text::lemma_last_index(path, '/');
    assert forall|i: int| 0 <= i < name.len() implies '\0' <= #[trigger] name[i] <= '\u{7f}' by {
        assert(name[i] == path[crate::text::last_index(path, '/') + 1 + i]);
    }
}

/// A word finds what has it anywhere in its path, whatever the case.
pub proof fn law_words_find_what_holds_them(word: Seq<char>, r: RecordView)
    requires
        plain_word(word),
        vstd::utf8::is_ascii_chars(r.path),
    ensures
        crate::query::matches_query(crate::query::parsed_query(word), r) <==> (
        crate::scope::safe_path(r.path) && stands_in(r.path, word)),
{
    let name = crate::types::name_of(r.path);
    let term = crate::text::ascii_lower_all(word);
    let from = crate::text::last_index(r.path, '/') + 1;
    crate::text::lemma_last_index(r.path, '/');
    lemma_word_query(word);
    lemma_plain_name(r.path);
    lemma_found(r.path, word);
    lemma_found(name, word);
    reveal_with_fuel(crate::query::total_points, 2);
    assert(seq![term].drop_last() =~= Seq::empty());
    if stands_in(name, word) {
        let i = choose|i: int| #[trigger] stands_at(name, word, i);
        assert(stands_at(r.path, word, from + i)) by {
            assert forall|k: int| 0 <= k < word.len() implies crate::text::ascii_lower(
                r.path[from + i + k],
            ) == crate::text::ascii_lower(#[trigger] word[k]) by {
                assert(name[i + k] == r.path[from + i + k]);
            }
        }
    }
}

/// Where a word stands decides how much a record counts: in front of the file name most, then
/// further on in the file name, then in the folders alone. A file that is called just so
/// counts more than any.
#[verifier::rlimit(40)]
pub proof fn law_places_of_a_word_are_ranked(word: Seq<char>, a: RecordView, b: RecordView)
    requires
        plain_word(word),
        vstd::utf8::is_ascii_chars(a.path),
        vstd::utf8::is_ascii_chars(b.path),
        stands_in(a.path, word),
        stands_in(b.path, word),
    ensures
        ({
            let q = crate::query::parsed_query(word);
            let (x, y) = (crate::query::score_of(q, a)->0, crate::query::score_of(q, b)->0);
            let (m, n) = (crate::types::name_of(a.path), crate::types::name_of(b.path));
            &&& crate::query::score_of(q, a) is Some
            &&& crate::query::score_of(q, b) is Some
            &&& stands_in(m, word) && !stands_in(n, word) ==> x > y
            &&& stands_at(m, word, 0) && !stands_at(n, word, 0) ==> x > y
            &&& stands_at(m, word, 0) && m.len() == word.len() && n.len() != word.len() ==> x > y
        }),
{
    let q = crate::query::parsed_query(word);
    let term = crate::text::ascii_lower_all(word);
    let (m, n) = (crate::types::name_of(a.path), crate::types::name_of(b.path));
    lemma_word_query(word);
    lemma_plain_name(a.path);
    lemma_plain_name(b.path);
    lemma_found(a.path, word);
    lemma_found(b.path, word);
    lemma_found(m, word);
    lemma_found(n, word);
    assert(vstd::utf8::is_ascii_chars(term)) by {
        assert forall|i: int| 0 <= i < term.len() implies '\0' <= #[trigger] term[i]
            <= '\u{7f}' by {
            lemma_alike(word[i], word[i]);
        }
    }
    vstd::utf8::is_ascii_chars_encode_utf8(m);
    vstd::utf8::is_ascii_chars_encode_utf8(n);
    vstd::utf8::is_ascii_chars_encode_utf8(term);
    reveal_with_fuel(crate::query::total_points, 2);
    assert(seq![term].drop_last() =~= Seq::empty());
    if stands_at(m, word, 0) {
        assert(stands_in(m, word));
    }
    if stands_at(n, word, 0) {
        assert(stands_in(n, word));
    }
    let i = crate::query::found_at(n, term);
    if n.len() == word.len() && i is Some {
        assert(stands_at(n, word, i->0));
        assert(i->0 == 0);
    }
}

proof fn lemma_tokens_in_turn(q: QueryView, a: Seq<Seq<char>>, b: Seq<Seq<char>>)
    ensures
        crate::query::with_tokens(q, a + b) == crate::query::with_tokens(
            crate::query::with_tokens(q, a),
            b,
        ),
    decreases b.len(),
{
    if b.len() == 0 {
        assert(a + b =~= a);
    } else {
        lemma_tokens_in_turn(q, a, b.drop_last());
        assert((a + b).drop_last() =~= a + b.drop_last());
    }
}

/// Another word behind a query narrows it: what has to be found besides is that word, and
/// every filter stays.
#[verifier::rlimit(40)]
pub proof fn law_every_word_must_be_found(text: Seq<char>, word: Seq<char>, r: RecordView)
    requires
        !crate::query::token_state(text).quoted,
        plain_word(word),
        vstd::utf8::is_ascii_chars(r.path),
    ensures
        crate::query::matches_query(crate::query::parsed_query(text.push(' ') + word), r) <==> (
        crate::query::matches_query(crate::query::parsed_query(text), r) && stands_in(
            r.path,
            word,
        )),
{
    let before = crate::query::parsed_query(text);
    let after = crate::query::parsed_query(text.push(' ') + word);
    let term = crate::text::ascii_lower_all(word);
    law_words_stand_apart(text, word);
    law_a_solid_text_is_one_word(word);
    lemma_tokens_in_turn(crate::query::default_query(), crate::query::tokens(text), seq![word]);
    lemma_word_query(word);
    lemma_one_token(word);
    reveal_with_fuel(crate::query::with_tokens, 2);
    assert(seq![word].drop_last() =~= Seq::empty());
    lemma_adds_a_term(before, word);
    assert(after == QueryView { terms: before.terms.push(term), ..before });
    assert(after.terms.drop_last() =~= before.terms);
    law_words_find_what_holds_them(word, r);
    let only = crate::query::parsed_query(word);
    reveal_with_fuel(crate::query::total_points, 2);
    assert(only.terms.drop_last() =~= Seq::empty());
    assert(crate::query::points(r.path, term) is Some <==> stands_in(r.path, word)) by {
        let name = crate::types::name_of(r.path);
        lemma_plain_name(r.path);
        lemma_found(r.path, word);
        lemma_found(name, word);
        crate::text::lemma_last_index(r.path, '/');
        let from = crate::text::last_index(r.path, '/') + 1;
        if stands_in(name, word) {
            let i = choose|i: int| #[trigger] stands_at(name, word, i);
            assert(stands_at(r.path, word, from + i)) by {
                assert forall|k: int| 0 <= k < word.len() implies crate::text::ascii_lower(
                    r.path[from + i + k],
                ) == crate::text::ascii_lower(#[trigger] word[k]) by {
                    assert(name[i + k] == r.path[from + i + k]);
                }
            }
        }
    }
    assert(crate::query::admits(after, r) == crate::query::admits(before, r));
}

proof fn lemma_adds_a_term(q: QueryView, word: Seq<char>)
    requires
        plain_word(word),
    ensures
        crate::query::with_token(q, word) == (QueryView {
            terms: q.terms.push(crate::text::ascii_lower_all(word)),
            ..q
        }),
{
    reveal_strlit("ext:");
    reveal_strlit("kind:");
    reveal_strlit("fs:");
    reveal_strlit("size:");
    reveal_strlit("under:");
    assert("ext:"@[3] == ':' && "kind:"@[4] == ':' && "fs:"@[2] == ':' && "size:"@[4] == ':'
        && "under:"@[5] == ':');
    lemma_no_filter("ext:"@, word);
    lemma_no_filter("kind:"@, word);
    lemma_no_filter("fs:"@, word);
    lemma_no_filter("size:"@, word);
    lemma_no_filter("under:"@, word);
}

// ---------------------------------------------------------------------------
// Filters together

proof fn lemma_one_more_token(text: Seq<char>, tok: Seq<char>)
    requires
        !crate::query::token_state(text).quoted,
        solid(tok),
        tok.len() > 0,
    ensures
        crate::query::parsed_query(text.push(' ') + tok) == crate::query::with_token(
            crate::query::parsed_query(text),
            tok,
        ),
{
    law_words_stand_apart(text, tok);
    law_a_solid_text_is_one_word(tok);
    lemma_tokens_in_turn(crate::query::default_query(), crate::query::tokens(text), seq![tok]);
    reveal_with_fuel(crate::query::with_tokens, 2);
    assert(seq![tok].drop_last() =~= Seq::empty());
}

proof fn lemma_ext_on(q: QueryView, rest: Seq<char>)
    ensures
        crate::query::with_token(q, "ext:"@ + rest) == (QueryView {
            exts: q.exts + crate::query::exts_named(rest),
            ..q
        }),
{
    reveal_strlit("ext:");
    let p = "ext:"@;
    assert("ext:"@[0] == 'e');
    assert((p + rest).subrange(0, 4) =~= p);
    assert(crate::query::behind(p + rest, p) =~= rest);
}

proof fn lemma_kind_on(q: QueryView, rest: Seq<char>)
    ensures
        crate::query::with_token(q, "kind:"@ + rest) == (QueryView {
            kinds: q.kinds + crate::query::kinds_named(
                crate::text::split(rest, Separator::Char(',')),
            ),
            ..q
        }),
{
    reveal_strlit("ext:");
    reveal_strlit("kind:");
    let p = "kind:"@;
    assert("ext:"@[0] == 'e' && "kind:"@[0] == 'k');
    lemma_other_prefix("ext:"@, p, rest);
    assert((p + rest).subrange(0, 5) =~= p);
    assert(crate::query::behind(p + rest, p) =~= rest);
}

proof fn lemma_fs_on(q: QueryView, rest: Seq<char>)
    ensures
        crate::query::with_token(q, "fs:"@ + rest) == (QueryView {
            fss: q.fss + crate::query::fss_named(rest),
            ..q
        }),
{
    reveal_strlit("ext:");
    reveal_strlit("kind:");
    reveal_strlit("fs:");
    let p = "fs:"@;
    assert("ext:"@[0] == 'e' && "kind:"@[0] == 'k' && "fs:"@[0] == 'f');
    lemma_other_prefix("ext:"@, p, rest);
    lemma_other_prefix("kind:"@, p, rest);
    assert((p + rest).subrange(0, 3) =~= p);
    assert(crate::query::behind(p + rest, p) =~= rest);
}

proof fn lemma_size_on(q: QueryView, rest: Seq<char>)
    ensures
        crate::query::with_token(q, "size:"@ + rest) == crate::query::size_bounds(rest, q),
{
    reveal_strlit("ext:");
    reveal_strlit("kind:");
    reveal_strlit("fs:");
    reveal_strlit("size:");
    let p = "size:"@;
    assert("ext:"@[0] == 'e' && "kind:"@[0] == 'k' && "fs:"@[0] == 'f' && "size:"@[0] == 's');
    lemma_other_prefix("ext:"@, p, rest);
    lemma_other_prefix("kind:"@, p, rest);
    lemma_other_prefix("fs:"@, p, rest);
    assert((p + rest).subrange(0, 5) =~= p);
    assert(crate::query::behind(p + rest, p) =~= rest);
}

proof fn lemma_under_on(q: QueryView, rest: Seq<char>)
    ensures
        crate::query::with_token(q, "under:"@ + rest) == (QueryView {
            under: Some(crate::text::lowercase(rest)),
            ..q
        }),
{
    reveal_strlit("ext:");
    reveal_strlit("kind:");
    reveal_strlit("fs:");
    reveal_strlit("size:");
    reveal_strlit("under:");
    let p = "under:"@;
    assert("ext:"@[0] == 'e' && "kind:"@[0] == 'k' && "fs:"@[0] == 'f' && "size:"@[0] == 's' && "under:"@[0] == 'u');
    lemma_other_prefix("ext:"@, p, rest);
    lemma_other_prefix("kind:"@, p, rest);
    lemma_other_prefix("fs:"@, p, rest);
    lemma_other_prefix("size:"@, p, rest);
    assert((p + rest).subrange(0, 6) =~= p);
    assert(crate::query::behind(p + rest, p) =~= rest);
}

proof fn lemma_same_score(a: QueryView, b: QueryView, r: RecordView)
    requires
        a.terms == b.terms,
    ensures
        crate::query::score_of(a, r) == crate::query::score_of(b, r),
{
}

/// An `ext:` behind a query that has none narrows it to that extension; behind one that has
/// some it lets through that extension too.
#[verifier::rlimit(40)]
pub proof fn law_another_extension(text: Seq<char>, e: Seq<char>, r: RecordView)
    requires
        !crate::query::token_state(text).quoted,
        plain_extension(e),
    ensures
        ({
            let before = crate::query::parsed_query(text);
            let after = crate::query::parsed_query(text.push(' ') + ("ext:"@ + e));
            let there = ends_in(crate::types::name_of(r.path), e);
            &&& before.exts.len() == 0 ==> (crate::query::matches_query(after, r) <==> (
            crate::query::matches_query(before, r) && there))
            &&& before.exts.len() > 0 ==> (crate::query::matches_query(after, r) <==> (
            crate::query::matches_query(before, r) || (there && crate::query::matches_query(
                QueryView { exts: Seq::empty(), ..before },
                r,
            ))))
        }),
{
    let tok = "ext:"@ + e;
    reveal_strlit("ext:");
    assert(solid("ext:"@));
    lemma_solid_behind("ext:"@, e);
    lemma_one_more_token(text, tok);
    let before = crate::query::parsed_query(text);
    let after = crate::query::parsed_query(text.push(' ') + tok);
    let none = QueryView { exts: Seq::empty(), ..before };
    lemma_ext_on(before, e);
    lemma_words_of_one(e);
    lemma_named_extension(e);
    lemma_extension(crate::types::name_of(r.path), e);
    lemma_same_score(before, after, r);
    lemma_same_score(before, none, r);
    let low = crate::text::ascii_lower_all(e);
    assert(crate::query::exts_named(e) =~= seq![low]);
    assert(after.exts =~= before.exts.push(low));
    let n = before.exts.len() as int;
    assert(after.exts[n] == low);
    let ext = crate::types::raw_extension_of(crate::types::name_of(r.path));
    if exists|i: int|
        0 <= i < before.exts.len() && crate::query::same_but_case(ext, #[trigger] before.exts[i]) {
        let i = choose|i: int|
            0 <= i < before.exts.len() && crate::query::same_but_case(
                ext,
                #[trigger] before.exts[i],
            );
        assert(after.exts[i] == before.exts[i]);
    }
    if exists|i: int|
        0 <= i < after.exts.len() && crate::query::same_but_case(ext, #[trigger] after.exts[i]) {
        let i = choose|i: int|
            0 <= i < after.exts.len() && crate::query::same_but_case(ext, #[trigger] after.exts[i]);
        if i < n {
            assert(crate::query::same_but_case(ext, before.exts[i]));
        }
    }
}

/// A size behind a query that does not bound sizes so narrows it, and leaves every other filter.
pub proof fn law_another_size(text: Seq<char>, n: Seq<char>, bytes: u64, r: RecordView)
    requires
        !crate::query::token_state(text).quoted,
        spells_size(n, bytes),
    ensures
        ({
            let before = crate::query::parsed_query(text);
            let most = crate::query::parsed_query(text.push(' ') + ("size:"@ + (seq!['<'] + n)));
            let least = crate::query::parsed_query(text.push(' ') + ("size:"@ + (seq!['>'] + n)));
            &&& before.max_size is None ==> (crate::query::matches_query(most, r) <==> (
            crate::query::matches_query(before, r) && r.size <= bytes))
            &&& before.min_size is None ==> (crate::query::matches_query(least, r) <==> (
            crate::query::matches_query(before, r) && r.size >= bytes))
        }),
{
    lemma_size_value(n, bytes);
    let before = crate::query::parsed_query(text);
    lemma_signed_on(text, '<', n);
    lemma_signed_on(text, '>', n);
    lemma_same_score(before, QueryView { max_size: Some(bytes), ..before }, r);
    lemma_same_score(before, QueryView { min_size: Some(bytes), ..before }, r);
}

proof fn lemma_signed_on(text: Seq<char>, sign: char, n: Seq<char>)
    requires
        !crate::query::token_state(text).quoted,
        sign == '<' || sign == '>',
        solid(n),
        forall|i: int| 0 <= i < n.len() ==> n[i] != '.',
    ensures
        ({
            let before = crate::query::parsed_query(text);
            crate::query::parsed_query(text.push(' ') + ("size:"@ + (seq![sign] + n))) == (if sign
                == '<' {
                QueryView { max_size: crate::query::size_value(n), ..before }
            } else {
                QueryView { min_size: crate::query::size_value(n), ..before }
            })
        }),
{
    let s = seq![sign] + n;
    reveal_strlit("size:");
    assert(solid("size:"@));
    assert(solid(seq![sign]));
    lemma_solid_behind(seq![sign], n);
    lemma_solid_behind("size:"@, s);
    lemma_one_more_token(text, "size:"@ + s);
    lemma_size_on(crate::query::parsed_query(text), s);
    assert forall|i: int| 0 <= i < s.len() implies s[i] != '.' by {
        if i > 0 {
            assert(s[i] == n[i - 1]);
        }
    }
    lemma_no_range(s);
    assert(s.skip(1) =~= n);
}

/// A family behind a query that names none narrows it to that family.
pub proof fn law_another_family(text: Seq<char>, word: Seq<char>, r: RecordView)
    requires
        !crate::query::token_state(text).quoted,
        solid(word) && word.len() > 0 && !word.contains(','),
        crate::query::parsed_query(text).fss.len() == 0,
    ensures
        crate::query::matches_query(
            crate::query::parsed_query(text.push(' ') + ("fs:"@ + word)),
            r,
        ) <==> (crate::query::matches_query(crate::query::parsed_query(text), r) && r.fs
            == crate::mounts::fs_of(word)),
{
    let before = crate::query::parsed_query(text);
    let after = crate::query::parsed_query(text.push(' ') + ("fs:"@ + word));
    reveal_strlit("fs:");
    assert(solid("fs:"@));
    lemma_solid_behind("fs:"@, word);
    lemma_one_more_token(text, "fs:"@ + word);
    lemma_fs_on(before, word);
    lemma_words_of_one(word);
    lemma_same_score(before, after, r);
    assert(after.fss =~= seq![crate::mounts::fs_of(word)]);
    assert(after.fss[0] == crate::mounts::fs_of(word));
}

/// A folder behind a query that names none narrows it to that folder.
pub proof fn law_another_folder(text: Seq<char>, folder: Seq<char>, r: RecordView)
    requires
        !crate::query::token_state(text).quoted,
        solid(folder),
        crate::query::parsed_query(text).under is None,
    ensures
        crate::query::matches_query(
            crate::query::parsed_query(text.push(' ') + ("under:"@ + folder)),
            r,
        ) <==> (crate::query::matches_query(crate::query::parsed_query(text), r)
            && crate::scope::under_ci(r.path, crate::text::lowercase(folder))),
{
    let before = crate::query::parsed_query(text);
    let after = crate::query::parsed_query(text.push(' ') + ("under:"@ + folder));
    reveal_strlit("under:");
    assert(solid("under:"@));
    lemma_solid_behind("under:"@, folder);
    lemma_one_more_token(text, "under:"@ + folder);
    lemma_under_on(before, folder);
    lemma_same_score(before, after, r);
}

/// Kinds add up: `kind:` behind a query lets through each kind that one of its words names.
#[verifier::rlimit(40)]
pub proof fn law_another_kind(text: Seq<char>, word: Seq<char>, kind: FileKind, r: RecordView)
    requires
        !crate::query::token_state(text).quoted,
        word == "file"@ && kind == FileKind::File || word == "dir"@ && kind == FileKind::Dir
            || word == "link"@ && kind == FileKind::Symlink,
    ensures
        ({
            let before = crate::query::parsed_query(text);
            let after = crate::query::parsed_query(text.push(' ') + ("kind:"@ + word));
            &&& before.kinds.len() == 0 ==> (crate::query::matches_query(after, r) <==> (
            crate::query::matches_query(before, r) && r.kind == kind))
            &&& before.kinds.len() > 0 ==> (crate::query::matches_query(after, r) <==> (
            crate::query::matches_query(before, r) || (r.kind == kind && crate::query::matches_query(
                QueryView { kinds: Seq::empty(), ..before },
                r,
            ))))
        }),
{
    reveal_strlit("file");
    reveal_strlit("f");
    reveal_strlit("dir");
    reveal_strlit("d");
    reveal_strlit("folder");
    reveal_strlit("link");
    reveal_strlit("symlink");
    reveal_strlit("l");
    reveal_strlit("kind:");
    assert("file"@[0] == 'f' && "dir"@[0] == 'd' && "link"@[0] == 'l' && "f"@.len() == 1
        && "d"@.len() == 1 && "l"@.len() == 1 && "folder"@.len() == 6 && "symlink"@.len() == 7);
    assert(solid(word));
    assert(!word.contains(','));
    assert(solid("kind:"@));
    lemma_solid_behind("kind:"@, word);
    lemma_one_more_token(text, "kind:"@ + word);
    let before = crate::query::parsed_query(text);
    let after = crate::query::parsed_query(text.push(' ') + ("kind:"@ + word));
    lemma_kind_on(before, word);
    lemma_uncut(word);
    reveal_with_fuel(crate::query::kinds_named, 2);
    assert(seq![word].drop_last() =~= Seq::empty());
    assert(crate::query::kind_named(word) == Some(kind));
    assert(after.kinds =~= before.kinds.push(kind));
    lemma_same_score(before, after, r);
    lemma_same_score(before, QueryView { kinds: Seq::empty(), ..before }, r);
    let n = before.kinds.len() as int;
    assert(after.kinds[n] == kind);
    if before.kinds.contains(r.kind) {
        let i = before.kinds.index_of(r.kind);
        assert(after.kinds[i] == r.kind);
    }
    if after.kinds.contains(r.kind) {
        let i = after.kinds.index_of(r.kind);
        if i < n {
            assert(before.kinds[i] == r.kind);
        }
    }
}

// ---------------------------------------------------------------------------
// Letters and white space

/// Lower case is that of the 26 letters; every other character stays.
pub proof fn law_letters_have_a_lower_case(c: char)
    ensures
        'A' <= c <= 'Z' ==> crate::text::ascii_lower(c) as u32 == c as u32 + ('a' as u32 - 'A' as u32),
        'A' <= c <= 'Z' ==> 'a' <= crate::text::ascii_lower(c) <= 'z',
        !('A' <= c <= 'Z') ==> crate::text::ascii_lower(c) == c,
        'a' <= c <= 'z' ==> crate::text::ascii_upper(c) as u32 == c as u32 - ('a' as u32 - 'A' as u32),
        !('a' <= c <= 'z') ==> crate::text::ascii_upper(c) == c,
{
}

/// Trimming takes white space from both ends of a text, all of it, and nothing else.
pub proof fn law_trimming_takes_white_space_alone(front: Seq<char>, s: Seq<char>, back: Seq<char>)
    requires
        forall|i: int| 0 <= i < front.len() ==> crate::text::is_space(#[trigger] front[i]),
        forall|i: int| 0 <= i < back.len() ==> crate::text::is_space(#[trigger] back[i]),
        s.len() > 0,
        !crate::text::is_space(s[0]),
        !crate::text::is_space(s.last()),
    ensures
        crate::text::trim(front + s + back) == s,
        crate::text::trim(front) == Seq::<char>::empty(),
{
    lemma_trim_front(front, s + back);
    assert(front + s + back =~= front + (s + back));
    assert((s + back)[0] == s[0]);
    lemma_trim_end(s, back);
    let none = Seq::<char>::empty();
    lemma_trim_front(front, none);
    assert(front + none =~= front);
}

proof fn lemma_trim_front(front: Seq<char>, s: Seq<char>)
    requires
        forall|i: int| 0 <= i < front.len() ==> crate::text::is_space(#[trigger] front[i]),
        s.len() == 0 || !crate::text::is_space(s[0]),
    ensures
        crate::text::trim_front(front + s, Separator::Space) == s,
    decreases front.len(),
{
    if front.len() == 0 {
        assert(front + s =~= s);
    } else {
        let less = front.drop_first();
        assert forall|i: int| 0 <= i < less.len() implies crate::text::is_space(
            #[trigger] less[i],
        ) by {
            assert(less[i] == front[i + 1]);
        }
        assert((front + s)[0] == front[0]);
        assert((front + s).drop_first() =~= less + s);
        lemma_trim_front(less, s);
    }
}

proof fn lemma_trim_end(s: Seq<char>, back: Seq<char>)
    requires
        forall|i: int| 0 <= i < back.len() ==> crate::text::is_space(#[trigger] back[i]),
        s.len() == 0 || !crate::text::is_space(s.last()),
    ensures
        crate::text::trim_end(s + back, Separator::Space) == s,
    decreases back.len(),
{
    if back.len() == 0 {
        assert(s + back =~= s);
    } else {
        let less = back.drop_last();
        assert forall|i: int| 0 <= i < less.len() implies crate::text::is_space(
            #[trigger] less[i],
        ) by {
            assert(less[i] == back[i]);
        }
        assert((s + back).last() == back[back.len() - 1]);
        assert((s + back).drop_last() =~= s + less);
        lemma_trim_end(s, less);
    }
}

} // verus!
