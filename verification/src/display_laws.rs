//! What is shown of hits, counts and times means to whoever reads it.

use crate::display::{FileFamily, Matching, SearchMode};
use crate::rank::HitView;
use crate::types::{FileKind, RecordView};
use vstd::prelude::*;

verus! {

// ---------------------------------------------------------------------------
// Hits

/// The query stands in the text: to the letter, or whatever the case.
pub open spec fn found_in(text: Seq<char>, query: Seq<char>, case_sensitive: bool) -> bool {
    if case_sensitive {
        exists|k: int|
            0 <= k && k + query.len() <= text.len() && #[trigger] text.subrange(
                k,
                k + query.len(),
            ) == query
    } else {
        crate::query_laws::stands_in(text, query)
    }
}

/// The query is looked for in the file name, in the path, or in either.
pub open spec fn found_by(m: Matching, query: Seq<char>, path: Seq<char>) -> bool {
    match m.mode {
        SearchMode::Name => found_in(crate::types::name_of(path), query, m.case_sensitive),
        SearchMode::Path => found_in(path, query, m.case_sensitive),
        SearchMode::NameAndPath => found_in(
            crate::types::name_of(path) + seq![' '] + path,
            query,
            m.case_sensitive,
        ),
    }
}

proof fn lemma_shown(m: Matching, query: Seq<char>, hits: Seq<HitView>, i: int)
    requires
        0 <= i < hits.len(),
    ensures
        crate::display::shown(m, query, hits).contains(i) <==> crate::display::is_shown(
            m,
            query,
            hits[i],
        ),
        forall|k: int|
            0 <= k < crate::display::shown(m, query, hits).len() ==> 0
                <= #[trigger] crate::display::shown(m, query, hits)[k] < hits.len(),
        forall|j: int, k: int|
            0 <= j < k < crate::display::shown(m, query, hits).len()
                ==> #[trigger] crate::display::shown(m, query, hits)[j]
                < #[trigger] crate::display::shown(m, query, hits)[k],
    decreases hits.len(),
{
    let less = hits.drop_last();
    let front = crate::display::shown(m, query, less);
    let all = crate::display::shown(m, query, hits);
    let last = hits.len() - 1;
    if less.len() > 0 {
        lemma_shown(
            m,
            query,
            less,
            if i < last {
                i
            } else {
                0
            },
        );
    }
    if i < last {
        assert(less[i] == hits[i]);
        if front.contains(i) {
            let k = front.index_of(i);
            assert(all[k] == i);
        }
        if all.contains(i) {
            let k = all.index_of(i);
            assert(k < front.len());
            assert(front[k] == i);
        }
    } else if crate::display::is_shown(m, query, hits.last()) {
        assert(all[front.len() as int] == i);
    } else if all.contains(i) {
        let k = all.index_of(i);
        assert(front[k] < less.len());
    }
}

proof fn lemma_found(text: Seq<char>, query: Seq<char>)
    ensures
        crate::text::first_occurrence(text, query) is Some <==> exists|k: int|
            crate::text::occurs_at(text, query, k),
{
    if exists|k: int| crate::text::occurs_at(text, query, k) {
        let k = choose|k: int| crate::text::occurs_at(text, query, k);
        lemma_earliest(text, query, k);
    } else {
        crate::text::lemma_no_occurrence(text, query);
    }
}

proof fn lemma_earliest(text: Seq<char>, query: Seq<char>, k: int)
    requires
        crate::text::occurs_at(text, query, k),
    ensures
        crate::text::first_occurrence(text, query) is Some,
    decreases k,
{
    if exists|j: int| 0 <= j < k && crate::text::occurs_at(text, query, j) {
        let j = choose|j: int| 0 <= j < k && crate::text::occurs_at(text, query, j);
        lemma_earliest(text, query, j);
    } else {
        crate::text::lemma_first_occurrence(text, query, k);
    }
}

#[verifier::rlimit(40)]
proof fn lemma_text_matches(m: Matching, query: Seq<char>, text: Seq<char>, by_regex: Option<bool>)
    requires
        !m.regex,
        query.len() > 0,
        m.case_sensitive || (vstd::utf8::is_ascii_chars(text) && vstd::utf8::is_ascii_chars(query)),
    ensures
        crate::display::text_matches(m, query, text, by_regex) == found_in(
            text,
            query,
            m.case_sensitive,
        ),
{
    if m.case_sensitive {
        lemma_found(text, query);
        if exists|k: int| crate::text::occurs_at(text, query, k) {
            let k = choose|k: int| crate::text::occurs_at(text, query, k);
            assert(text.subrange(k, k + query.len()) == query);
        }
        if found_in(text, query, true) {
            let k = choose|k: int|
                0 <= k && k + query.len() <= text.len() && #[trigger] text.subrange(
                    k,
                    k + query.len(),
                ) == query;
            assert(crate::text::occurs_at(text, query, k));
        }
    } else {
        let (low, needle) = (
            crate::text::ascii_lower_all(text),
            crate::text::ascii_lower_all(query),
        );
        lemma_found(low, needle);
        assert forall|k: int|
            #![trigger crate::text::occurs_at(low, needle, k)]
            #![trigger crate::query_laws::stands_at(text, query, k)]
            crate::text::occurs_at(low, needle, k) == crate::query_laws::stands_at(
                text,
                query,
                k,
            ) by {
            if crate::text::occurs_at(low, needle, k) {
                assert forall|j: int| 0 <= j < query.len() implies crate::text::ascii_lower(
                    text[k + j],
                ) == crate::text::ascii_lower(#[trigger] query[j]) by {
                    assert(low.subrange(k, k + needle.len())[j] == low[k + j]);
                    assert(needle[j] == crate::text::ascii_lower(query[j]));
                }
            }
            if crate::query_laws::stands_at(text, query, k) {
                assert forall|j: int| 0 <= j < needle.len() implies low.subrange(
                    k,
                    k + needle.len(),
                )[j] == needle[j] by {
                    assert(crate::text::ascii_lower(text[k + j]) == crate::text::ascii_lower(
                        query[j],
                    ));
                }
                assert(low.subrange(k, k + needle.len()) =~= needle);
            }
        }
        if exists|k: int| crate::text::occurs_at(low, needle, k) {
            let k = choose|k: int| crate::text::occurs_at(low, needle, k);
            assert(crate::query_laws::stands_at(text, query, k));
        }
        if crate::query_laws::stands_in(text, query) {
            let k = choose|k: int| #[trigger] crate::query_laws::stands_at(text, query, k);
            assert(crate::text::occurs_at(low, needle, k));
        }
    }
}

/// A hit is shown where the query, without the white space around it, stands in what is
/// searched: the file name, the path, or both. An empty query shows all.
#[verifier::rlimit(40)]
pub proof fn law_shown_hits_hold_the_query(m: Matching, query: Seq<char>, hits: Seq<HitView>, i: int)
    requires
        0 <= i < hits.len(),
        !m.regex,
        m.case_sensitive || (vstd::utf8::is_ascii_chars(hits[i].record.path)
            && vstd::utf8::is_ascii_chars(crate::text::trim(query))),
    ensures
        crate::display::shown(m, query, hits).contains(i) <==> (crate::text::trim(query).len() == 0
            || found_by(m, crate::text::trim(query), hits[i].record.path)),
{
    let q = crate::text::trim(query);
    let path = hits[i].record.path;
    let name = crate::types::name_of(path);
    let t = crate::display::searched_text(m.mode, path);
    lemma_shown(m, query, hits, i);
    reveal_strlit(" ");
    assert(" "@ =~= seq![' ']);
    if q.len() > 0 {
        if !m.case_sensitive {
            crate::text::lemma_last_index(path, '/');
            assert forall|k: int| 0 <= k < name.len() implies '\0' <= #[trigger] name[k]
                <= '\u{7f}' by {
                assert(name[k] == path[crate::text::last_index(path, '/') + 1 + k]);
            }
            assert forall|k: int| 0 <= k < t.len() implies '\0' <= #[trigger] t[k] <= '\u{7f}' by {
                match m.mode {
                    SearchMode::NameAndPath => {
                        if k < name.len() {
                            assert(t[k] == name[k]);
                        } else if k == name.len() {
                            assert(t[k] == ' ');
                        } else {
                            assert(t[k] == path[k - name.len() - 1]);
                        }
                    },
                    _ => {},
                }
            }
        }
        lemma_text_matches(
            m,
            q,
            t,
            crate::display::regex_result(q, !m.case_sensitive, t),
        );
    }
}

/// A regular expression shows what it matches, and nothing where it does not compile.
pub proof fn law_expressions_show_what_they_match(
    m: Matching,
    query: Seq<char>,
    hits: Seq<HitView>,
    i: int,
)
    requires
        0 <= i < hits.len(),
        m.regex,
        m.mode is Path,
        crate::text::trim(query).len() > 0,
    ensures
        crate::display::shown(m, query, hits).contains(i) <==> crate::display::regex_result(
            crate::text::trim(query),
            !m.case_sensitive,
            hits[i].record.path,
        ) == Some(true),
{
    lemma_shown(m, query, hits, i);
}

/// What is shown keeps the order of the hits.
pub proof fn law_shown_hits_keep_their_order(m: Matching, query: Seq<char>, hits: Seq<HitView>)
    ensures
        forall|j: int, k: int|
            0 <= j < k < crate::display::shown(m, query, hits).len()
                ==> #[trigger] crate::display::shown(m, query, hits)[j]
                < #[trigger] crate::display::shown(m, query, hits)[k],
{
    if hits.len() > 0 {
        lemma_shown(m, query, hits, 0);
    }
}

/// An arrow key goes one hit further in its direction, and stays where there is none.
pub proof fn law_arrows_go_one_hit_further(count: nat, at: int)
    requires
        0 <= at < count,
    ensures
        at + 1 < count ==> crate::display::arrow_position(count, Some(at), true) == at + 1,
        at + 1 == count ==> crate::display::arrow_position(count, Some(at), true) == at,
        at > 0 ==> crate::display::arrow_position(count, Some(at), false) == at - 1,
        at == 0 ==> crate::display::arrow_position(count, Some(at), false) == at,
{
}

/// A badge is that of a folder, or the first letters of the extension in capitals.
pub proof fn law_badges_name_the_extension(r: RecordView)
    ensures
        ({
            let ext = crate::types::raw_extension_of(crate::types::name_of(r.path));
            let badge = crate::display::badge_of(r);
            &&& r.kind is Dir ==> badge == "DIR"@
            &&& !(r.kind is Dir) && crate::text::lowercase(ext).len() == 0 ==> badge == "FILE"@
            &&& !(r.kind is Dir) && ext.len() > 0 && vstd::utf8::is_ascii_chars(ext) ==> badge.len()
                == (if ext.len() < 4 {
                ext.len()
            } else {
                4
            }) && forall|i: int|
                0 <= i < badge.len() ==> #[trigger] badge[i] == crate::text::ascii_upper(
                    crate::text::ascii_lower(ext[i]),
                )
        }),
{
}

/// The families of files by their extensions, whatever the case.
pub proof fn law_extensions_have_families(e: Seq<char>)
    ensures
        ({
            let low = crate::text::ascii_lower_all(e);
            let f = crate::display::family_of(e);
            &&& low == "pdf"@ ==> f == FileFamily::Pdf
            &&& low == "xls"@ || low == "xlsx"@ || low == "ods"@ || low == "csv"@ ==> f
                == FileFamily::Spreadsheet || low == "pdf"@
            &&& f == FileFamily::Document ==> low == "doc"@ || low == "docx"@ || low == "txt"@
                || low == "md"@ || low == "rtf"@
            &&& f == FileFamily::Archive ==> low == "zip"@ || low == "7z"@ || low == "rar"@ || low
                == "tar"@ || low == "gz"@ || low == "pak"@ || low == "iso"@
            &&& f == FileFamily::Media ==> low == "png"@ || low == "jpg"@ || low == "jpeg"@ || low
                == "gif"@ || low == "webp"@ || low == "svg"@ || low == "mp4"@ || low == "mkv"@
            &&& f == FileFamily::Other ==> low != "pdf"@ && low != "xls"@ && low != "xlsx"@
                && low != "ods"@ && low != "csv"@ && low != "doc"@ && low != "docx"@
                && low != "txt"@ && low != "md"@ && low != "rtf"@ && low != "zip"@
                && low != "7z"@ && low != "rar"@ && low != "tar"@ && low != "gz"@
                && low != "pak"@ && low != "iso"@ && low != "png"@ && low != "jpg"@
                && low != "jpeg"@ && low != "gif"@ && low != "webp"@ && low != "svg"@
                && low != "mp4"@ && low != "mkv"@
            &&& f != FileFamily::Folder
        }),
{
}

// ---------------------------------------------------------------------------
// Counts and times

/// Commas in a count leave its digits as they are.
pub proof fn law_commas_leave_the_digits(d: Seq<char>)
    requires
        !d.contains(','),
    ensures
        crate::display::grouped(d).filter(|c: char| c != ',') == d,
    decreases d.len(),
{
    let digit = |c: char| c != ',';
    lemma_all_digits(d);
    if d.len() > 3 {
        let front = d.take(d.len() - 3);
        let back = d.skip(d.len() - 3);
        assert(!front.contains(',')) by {
            if front.contains(',') {
                let i = front.index_of(',');
                assert(d[i] == ',');
            }
        }
        assert(!back.contains(',')) by {
            if back.contains(',') {
                let i = back.index_of(',');
                assert(d[d.len() - 3 + i] == ',');
            }
        }
        law_commas_leave_the_digits(front);
        lemma_all_digits(back);
        let g = crate::display::grouped(front);
        Seq::filter_distributes_over_add(g.push(','), back, digit);
        assert(g.push(',').filter(digit) =~= g.filter(digit)) by {
            reveal(Seq::filter);
            assert(g.push(',').drop_last() =~= g);
        }
        assert(front + back =~= d);
    }
}

proof fn lemma_all_digits(d: Seq<char>)
    requires
        !d.contains(','),
    ensures
        d.filter(|c: char| c != ',') == d,
    decreases d.len(),
{
    reveal(Seq::filter);
    if d.len() > 0 {
        let less = d.drop_last();
        assert(!less.contains(',')) by {
            if less.contains(',') {
                let i = less.index_of(',');
                assert(d[i] == ',');
            }
        }
        lemma_all_digits(less);
        assert(d.contains(d[d.len() - 1]));
        assert(less.push(d.last()) =~= d);
    } else {
        assert(d.filter(|c: char| c != ',') =~= d);
    }
}

/// A comma stands in front of every group of three digits, counted from the end, but for the
/// first.
pub proof fn law_commas_set_thousands_apart(d: Seq<char>, k: int)
    requires
        !d.contains(','),
        0 <= k < crate::display::grouped(d).len(),
    ensures
        crate::display::grouped(d)[crate::display::grouped(d).len() - 1 - k] == ',' <==> k % 4 == 3,
    decreases d.len(),
{
    let g = crate::display::grouped(d);
    if d.len() <= 3 {
        assert(d.contains(d[d.len() - 1 - k]));
    } else {
        let front = d.take(d.len() - 3);
        let back = d.skip(d.len() - 3);
        let h = crate::display::grouped(front);
        assert(!front.contains(',')) by {
            if front.contains(',') {
                let i = front.index_of(',');
                assert(d[i] == ',');
            }
        }
        assert(g =~= h.push(',') + back);
        if k < 3 {
            assert(g[g.len() - 1 - k] == back[2 - k]);
            assert(d.contains(d[d.len() - 1 - k]));
        } else if k > 3 {
            law_commas_set_thousands_apart(front, k - 4);
            assert(g[g.len() - 1 - k] == h[h.len() - 1 - (k - 4)]);
        }
    }
}

/// A long text keeps its end, and is no longer than it may be.
pub proof fn law_long_texts_keep_their_end(s: Seq<char>, max: nat)
    requires
        max > 0,
    ensures
        ({
            let t = crate::display::shortened(s, max);
            &&& s.len() <= max ==> t == s
            &&& s.len() > max ==> t.len() == max && t[0] == '\u{2026}' && t.skip(1) == s.skip(
                s.len() - (max - 1),
            )
        }),
{
    if s.len() > max {
        let t = crate::display::shortened(s, max);
        assert(t.skip(1) =~= s.skip(s.len() - (max - 1)));
    }
}

/// The age of a file is told in the largest unit that it fills, rounded down.
pub proof fn law_ages_are_rounded_down(timestamp: int, now: int, r: Seq<char>, n: nat)
    requires
        crate::display::is_age_text(timestamp, now, r),
        timestamp > 0,
    ensures
        ({
            let age = now - timestamp;
            &&& age < 60 ==> r == "Just now"@
            &&& 60 <= age < 60 * 60 && 60 * n <= age < 60 * (n + 1) ==> r == crate::text::decimal(n)
                + " min ago"@
            &&& 60 * 60 <= age < 24 * 60 * 60 && 60 * 60 * n <= age < 60 * 60 * (n + 1) ==> r
                == crate::text::decimal(n) + " hr ago"@
            &&& 24 * 60 * 60 <= age < 7 * 24 * 60 * 60 && 24 * 60 * 60 * n <= age < 24 * 60 * 60 * (n
                + 1) ==> r == crate::text::decimal(n) + " days ago"@
        }),
{
    let age = now - timestamp;
    if 60 <= age < 3600 && 60 * n <= age < 60 * (n + 1) {
        assert(age / 60 == n);
    }
    if 3600 <= age < 86_400 && 3600 * n <= age < 3600 * (n + 1) {
        assert(age / 3600 == n);
    }
    if 86_400 <= age < 604_800 && 86_400 * n <= age < 86_400 * (n + 1) {
        assert(age / 86_400 == n);
    }
}

/// Days are counted one by one from the first of January 1970: through each month, which has
/// as many days as the calendar says, and through each year.
#[verifier::rlimit(40)]
pub proof fn law_days_follow_each_other(year: int, month: int, day: int)
    requires
        crate::calendar::is_date(year, month, day),
    ensures
        crate::calendar::day_number(1970, 1, 1) == 0,
        crate::calendar::is_date(year, month, day + 1) ==> crate::calendar::day_number(
            year,
            month,
            day + 1,
        ) == crate::calendar::day_number(year, month, day) + 1,
        !crate::calendar::is_date(year, month, day + 1) && month < 12
            ==> crate::calendar::day_number(year, month + 1, 1) == crate::calendar::day_number(
            year,
            month,
            day,
        ) + 1,
        !crate::calendar::is_date(year, month, day + 1) && month == 12
            ==> crate::calendar::day_number(year + 1, 1, 1) == crate::calendar::day_number(
            year,
            month,
            day,
        ) + 1,
        crate::calendar::month_days(year, 2) == (if year % 4 == 0 && (year % 100 != 0 || year % 400
            == 0) {
            29int
        } else {
            28
        }),
        crate::calendar::month_days(year, 1) == 31 && crate::calendar::month_days(year, 12) == 31
            && crate::calendar::month_days(year, 4) == 30,
{
    lemma_years(year);
}

proof fn lemma_quarters(y: int)
    ensures
        y / 4 - (y - 1) / 4 == (if y % 4 == 0 {
            1int
        } else {
            0
        }),
{
}

proof fn lemma_centuries(y: int)
    ensures
        y / 100 - (y - 1) / 100 == (if y % 100 == 0 {
            1int
        } else {
            0
        }),
        y % 100 == 0 ==> y % 4 == 0,
{
}

proof fn lemma_eras(y: int)
    ensures
        y / 400 - (y - 1) / 400 == (if y % 400 == 0 {
            1int
        } else {
            0
        }),
        y % 400 == 0 ==> y % 100 == 0,
{
}

proof fn lemma_years(y: int)
    ensures
        crate::calendar::days_before_year(y + 1) - crate::calendar::days_before_year(y) == (
        if crate::calendar::is_leap(y) {
            366int
        } else {
            365
        }),
{
    lemma_quarters(y);
    lemma_centuries(y);
    lemma_eras(y);
}

} // verus!
