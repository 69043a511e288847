//! What answers tell: of changes that are not merged yet, to the client, and to the tools.

use crate::client::{ArgumentsView, Request};
use crate::compact_index::{CompactView, IndexError};
use crate::delta::OverlayView;
use crate::host::Host;
use crate::launch::{Around, Ownership};
use crate::query::{QueryView, SortKey};
use crate::rank::{HitView, SearchStats};
use crate::types::{FileKind, RecordView};
use vstd::prelude::*;

verus! {

// ---------------------------------------------------------------------------
// Changes that are not merged yet

proof fn lemma_standing(v: CompactView, o: OverlayView, ids: Seq<u32>, base: Seq<RecordView>, i: int)
    requires
        crate::compact_index::standing_in(v, o, ids) == Ok::<Seq<RecordView>, IndexError>(base),
        0 <= i < base.len(),
    ensures
        !o.removed.contains(base[i].path),
        !o.upserts.contains_key(base[i].path),
    decreases ids.len(),
{
    let less = ids.drop_last();
    let front = crate::compact_index::standing_in(v, o, less)->Ok_0;
    if i < front.len() {
        lemma_standing(v, o, less, front, i);
        assert(base[i] == front[i]);
    } else {
        let rs = crate::compact_index::block_read(v, ids.last())->Ok_0;
        let seen = crate::compact_index::visible(o, rs);
        assert(base[i] == seen[i - front.len()]);
        lemma_visible(o, rs, i - front.len());
    }
}

proof fn lemma_visible(o: OverlayView, rs: Seq<RecordView>, i: int)
    requires
        0 <= i < crate::compact_index::visible(o, rs).len(),
    ensures
        !o.removed.contains(crate::compact_index::visible(o, rs)[i].path),
        !o.upserts.contains_key(crate::compact_index::visible(o, rs)[i].path),
    decreases rs.len(),
{
    let less = rs.drop_last();
    if i < crate::compact_index::visible(o, less).len() {
        lemma_visible(o, less, i);
    }
}

/// What a search over an index and its log tells of a path is what was last written there. A
/// path that was removed is not told of, and neither is what a path held before.
#[verifier::rlimit(40)]
pub proof fn law_the_log_has_the_last_say(
    v: CompactView,
    o: OverlayView,
    q: QueryView,
    hits: Seq<HitView>,
    stats: SearchStats,
    i: int,
)
    requires
        crate::compact_index::search_answer(v, o, q, hits, stats),
        crate::delta::coherent(o),
        0 <= i < hits.len(),
    ensures
        !o.removed.contains(hits[i].record.path),
        o.upserts.contains_key(hits[i].record.path) ==> hits[i].record
            == o.upserts[hits[i].record.path],
{
    let (base, us) = choose|base: Seq<RecordView>, us: Seq<RecordView>|
        #[trigger] crate::compact_index::searched(v, o, q, base, us) && ({
            let found = crate::index::hits_among(q, base + us);
            &&& crate::index::answers(
                crate::compact_index::compact_ranking(q),
                q.limit,
                found,
                hits,
            )
            &&& stats.scanned == crate::rank::capped(
                v.record_count as nat + crate::delta::overlay_size(o) as nat,
            )
            &&& stats.matched == crate::rank::capped(found.len())
        });
    crate::index::law_search_returns_only_matches(
        crate::compact_index::compact_ranking(q),
        q,
        base + us,
        hits,
        i,
    );
    let r = hits[i].record;
    let k = (base + us).index_of(r);
    if k < base.len() {
        assert(base[k] == r);
        lemma_standing(
            v,
            o,
            crate::compact_index::candidates(v, q.terms)->Ok_0,
            base,
            k,
        );
    } else {
        assert(us[k - base.len()] == r);
    }
}

/// A record that was written is found before it is merged: a search without a limit tells of it
/// where it matches.
pub proof fn law_written_records_are_found_at_once(
    v: CompactView,
    o: OverlayView,
    q: QueryView,
    hits: Seq<HitView>,
    stats: SearchStats,
    p: Seq<char>,
)
    requires
        crate::compact_index::search_answer(v, o, q, hits, stats),
        o.upserts.contains_key(p),
        crate::query::matches_query(q, o.upserts[p]),
        q.limit == 0,
    ensures
        exists|i: int| 0 <= i < hits.len() && (#[trigger] hits[i]).record == o.upserts[p],
{
    let (base, us) = choose|base: Seq<RecordView>, us: Seq<RecordView>|
        #[trigger] crate::compact_index::searched(v, o, q, base, us) && ({
            let found = crate::index::hits_among(q, base + us);
            &&& crate::index::answers(
                crate::compact_index::compact_ranking(q),
                q.limit,
                found,
                hits,
            )
            &&& stats.scanned == crate::rank::capped(
                v.record_count as nat + crate::delta::overlay_size(o) as nat,
            )
            &&& stats.matched == crate::rank::capped(found.len())
        });
    let r = o.upserts[p];
    let k = choose|k: int| 0 <= k < us.len() && (#[trigger] us[k]).path == p;
    assert((base + us)[base.len() + k] == r);
    let ranking = crate::compact_index::compact_ranking(q);
    let found = crate::index::hits_among(q, base + us);
    crate::rank_laws::lemma_found(q, base + us, r);
    crate::index::law_search_misses_nothing(ranking, q, base + us, hits);
    let h = HitView { score: crate::query::score_of(q, r)->0, record: r };
    found.to_multiset_ensures();
    hits.to_multiset_ensures();
    assert(found.to_multiset().count(h) > 0);
    assert(hits.contains(h));
    let i = hits.index_of(h);
    assert(hits[i].record == r);
}

// ---------------------------------------------------------------------------
// The client

/// A request asks what its text asks, for as many hits as it says but at least one and at most
/// a thousand, fifty where it does not say, and only for what lies in its folders.
pub proof fn law_requests_ask_what_they_say(host: Host, r: Request)
    ensures
        ({
            let q = crate::client::request_query(host, r);
            let p = crate::query::parsed_query(r.query@);
            &&& q.terms == p.terms && q.exts == p.exts && q.kinds == p.kinds && q.fss == p.fss
                && q.min_size == p.min_size && q.max_size == p.max_size && q.under == p.under
            &&& q.sort == SortKey::Relevance
            &&& 1 <= q.limit <= 1000
            &&& r.limit is None ==> q.limit == 50
            &&& r.limit is Some && 1 <= r.limit->0 <= 1000 ==> q.limit == r.limit->0
            &&& r.limit == Some(0usize) ==> q.limit == 1
            &&& q.scope_roots == crate::text::strings(r.scope_roots@)
            &&& r.scope_case_sensitive is Some ==> q.scope_case_sensitive
                == r.scope_case_sensitive->0
            &&& r.scope_case_sensitive is None ==> q.scope_case_sensitive == (host == Host::Linux)
        }),
{
    crate::query::law_no_text_sets_the_scope(r.query@);
}

/// An answer lists the hits in their order, and, where asked for, what is known of each.
pub proof fn law_answers_list_the_hits(
    hits: Seq<HitView>,
    stats: SearchStats,
    metadata: bool,
    i: int,
)
    requires
        0 <= i < hits.len(),
    ensures
        ({
            let a = crate::client::response_of(hits, stats, metadata);
            let r = hits[i].record;
            &&& a.paths.len() == hits.len() && a.returned == hits.len()
            &&& a.paths[i] == r.path
            &&& a.matched == stats.matched
            &&& a.search_us == stats.wall_us
            &&& a.records is Some <==> metadata
            &&& metadata ==> a.records->0.len() == hits.len() && {
                let l = a.records->0[i];
                &&& l.path == r.path
                &&& l.size == r.size
                &&& l.mtime == r.mtime
                &&& l.kind == (match r.kind {
                    FileKind::File => "file"@,
                    FileKind::Dir => "dir"@,
                    FileKind::Symlink => "symlink"@,
                    FileKind::Other => "other"@,
                })
            }
        }),
{
}

/// The argument is no option.
pub open spec fn is_plain(a: Seq<char>) -> bool {
    a.len() == 0 || a[0] != '-'
}

proof fn lemma_plain(a: Seq<char>)
    requires
        is_plain(a),
    ensures
        !crate::client::takes_value(a),
        a != "--help"@ && a != "-h"@,
        forall|seen: ArgumentsView| #[trigger]
            crate::client::with_word(a, seen) == Ok::<ArgumentsView, Seq<char>>(
                ArgumentsView { words: seen.words.push(a), ..seen },
            ),
{
    reveal_strlit("--index");
    reveal_strlit("--limit");
    reveal_strlit("--scope");
    reveal_strlit("--help");
    reveal_strlit("-h");
    reveal_strlit("--json");
    reveal_strlit("--json-paths");
    reveal_strlit("--stdio");
    assert("--index"@[0] == '-' && "--limit"@[0] == '-' && "--scope"@[0] == '-' && "--help"@[0]
        == '-' && "-h"@[0] == '-' && "--json"@[0] == '-' && "--json-paths"@[0] == '-'
        && "--stdio"@[0] == '-');
}

/// Arguments that are no options are the words of the query, in their order.
pub proof fn law_plain_arguments_are_the_query(
    host: Host,
    args: Seq<Seq<char>>,
    at: int,
    seen: ArgumentsView,
)
    requires
        0 <= at <= args.len(),
        forall|i: int| at <= i < args.len() ==> is_plain(#[trigger] args[i]),
    ensures
        crate::client::asked(host, args, at, seen) == Ok::<ArgumentsView, Seq<char>>(
            ArgumentsView { words: seen.words + args.skip(at), ..seen },
        ),
    decreases args.len() - at,
{
    if at == args.len() {
        assert(seen.words + args.skip(at) =~= seen.words);
    } else {
        lemma_plain(args[at]);
        let next = ArgumentsView { words: seen.words.push(args[at]), ..seen };
        law_plain_arguments_are_the_query(host, args, at + 1, next);
        assert(next.words + args.skip(at + 1) =~= seen.words + args.skip(at));
    }
}

/// Options with a value in front of the words of a query: the index that is searched, how many
/// hits are told at most, and a folder that they lie in.
#[verifier::rlimit(40)]
pub proof fn law_options_take_their_values(
    host: Host,
    value: Seq<char>,
    n: nat,
    words: Seq<Seq<char>>,
    seen: ArgumentsView,
)
    requires
        forall|i: int| 0 <= i < words.len() ==> is_plain(#[trigger] words[i]),
        n <= usize::MAX,
    ensures
        crate::client::asked(host, seq!["--index"@, value] + words, 0, seen) == Ok::<
            ArgumentsView,
            Seq<char>,
        >(ArgumentsView { index: Some(value), words: seen.words + words, ..seen }),
        crate::client::asked(
            host,
            seq!["--limit"@, crate::text::decimal(n)] + words,
            0,
            seen,
        ) == Ok::<ArgumentsView, Seq<char>>(
            ArgumentsView {
                limit: (if n < 1 {
                    1
                } else if n > 1000 {
                    1000
                } else {
                    n as usize
                }),
                words: seen.words + words,
                ..seen
            },
        ),
        crate::host::host_absolute(host, value) ==> crate::client::asked(
            host,
            seq!["--scope"@, value] + words,
            0,
            seen,
        ) == Ok::<ArgumentsView, Seq<char>>(
            ArgumentsView {
                scope_roots: seen.scope_roots.push(value),
                words: seen.words + words,
                ..seen
            },
        ),
        !crate::host::host_absolute(host, value) ==> crate::client::asked(
            host,
            seq!["--scope"@, value] + words,
            0,
            seen,
        ) is Err,
{
    reveal_strlit("--index");
    reveal_strlit("--limit");
    reveal_strlit("--scope");
    assert("--index"@[2] == 'i' && "--limit"@[2] == 'l' && "--scope"@[2] == 's');
    let index = seq!["--index"@, value] + words;
    let limit = seq!["--limit"@, crate::text::decimal(n)] + words;
    let scope = seq!["--scope"@, value] + words;
    assert(index.skip(2) =~= words);
    assert(limit.skip(2) =~= words);
    assert(scope.skip(2) =~= words);
    assert forall|i: int| 2 <= i < index.len() implies is_plain(#[trigger] index[i]) by {
        assert(index[i] == words[i - 2]);
    }
    assert forall|i: int| 2 <= i < limit.len() implies is_plain(#[trigger] limit[i]) by {
        assert(limit[i] == words[i - 2]);
    }
    assert forall|i: int| 2 <= i < scope.len() implies is_plain(#[trigger] scope[i]) by {
        assert(scope[i] == words[i - 2]);
    }
    let d = crate::text::decimal(n);
    crate::query_laws::law_decimals_are_read_back(n);
    assert(d[0] != '+');
    law_plain_arguments_are_the_query(
        host,
        index,
        2,
        ArgumentsView { index: Some(value), ..seen },
    );
    law_plain_arguments_are_the_query(
        host,
        limit,
        2,
        ArgumentsView { limit: crate::client::bounded_limit(n), ..seen },
    );
    law_plain_arguments_are_the_query(
        host,
        scope,
        2,
        ArgumentsView { scope_roots: seen.scope_roots.push(value), ..seen },
    );
    assert(index[0] == "--index"@ && index[1] == value);
    assert(limit[0] == "--limit"@ && limit[1] == d);
    assert(scope[0] == "--scope"@ && scope[1] == value);
}

// ---------------------------------------------------------------------------
// The tools

/// The search tool asks what its text asks, for fifty hits where it does not say, at most a
/// thousand, and only for what lies in the allowed folders.
pub proof fn law_tools_ask_what_they_say(
    host: Host,
    raw: Seq<char>,
    limit: Option<u64>,
    roots: Seq<Seq<char>>,
)
    ensures
        ({
            let q = crate::mcp::tool_query(host, raw, limit, roots);
            let p = crate::query::parsed_query(raw);
            &&& q.terms == p.terms && q.exts == p.exts && q.kinds == p.kinds && q.fss == p.fss
                && q.min_size == p.min_size && q.max_size == p.max_size && q.under == p.under
            &&& q.sort == SortKey::Relevance
            &&& 1 <= q.limit <= 1000
            &&& limit is None ==> q.limit == 50
            &&& limit is Some && 1 <= limit->0 <= 1000 ==> q.limit == limit->0
            &&& q.scope_roots == roots
            &&& q.scope_case_sensitive == (host == Host::Linux)
        }),
{
    crate::query::law_no_text_sets_the_scope(raw);
}

/// Every hit that is allowed is told, in its order, and counted; with its kind, size, time and
/// filesystem where asked for.
pub proof fn law_allowed_hits_are_told(
    host: Host,
    hits: Seq<HitView>,
    stats: SearchStats,
    metadata: bool,
    roots: Seq<Seq<char>>,
)
    requires
        forall|i: int|
            0 <= i < hits.len() ==> crate::mcp::allowed(host, (#[trigger] hits[i]).record.path, roots),
    ensures
        ({
            let r = crate::mcp::reply_of(host, hits, stats, metadata, roots);
            &&& r.paths.len() == hits.len()
            &&& forall|i: int| 0 <= i < hits.len() ==> #[trigger] r.paths[i] == hits[i].record.path
            &&& r.returned == hits.len()
            &&& r.matched == stats.matched
        }),
{
    lemma_all_told(host, hits, roots);
}

proof fn lemma_all_told(host: Host, hits: Seq<HitView>, roots: Seq<Seq<char>>)
    requires
        forall|i: int|
            0 <= i < hits.len() ==> crate::mcp::allowed(host, (#[trigger] hits[i]).record.path, roots),
    ensures
        crate::mcp::told(host, hits, roots) == hits,
    decreases hits.len(),
{
    if hits.len() > 0 {
        let less = hits.drop_last();
        assert forall|i: int| 0 <= i < less.len() implies crate::mcp::allowed(
            host,
            (#[trigger] less[i]).record.path,
            roots,
        ) by {
            assert(less[i] == hits[i]);
        }
        assert(hits[hits.len() - 1] == hits.last());
        lemma_all_told(host, less, roots);
        assert(less.push(hits.last()) =~= hits);
    } else {
        assert(crate::mcp::told(host, hits, roots) =~= hits);
    }
}

/// A line about a hit has its path, its kind, its size, its time and its filesystem, with tabs
/// between them; or its path alone.
pub proof fn law_lines_hold_what_is_known(r: RecordView)
    ensures
        crate::mcp::answer_line(r, false) == r.path,
        crate::mcp::answer_line(r, true) == r.path + "\t"@ + (match r.kind {
            FileKind::File => "File"@,
            FileKind::Dir => "Dir"@,
            FileKind::Symlink => "Symlink"@,
            FileKind::Other => "Other"@,
        }) + "\t"@ + crate::text::decimal(r.size as nat) + "\t"@ + (if r.mtime < 0 {
            "-"@ + crate::text::decimal((0 - r.mtime) as nat)
        } else {
            crate::text::decimal(r.mtime as nat)
        }) + "\t"@ + crate::mounts::label_of(r.fs),
{
}

/// A path below an allowed folder is under it, and one beside it, whose name only begins alike,
/// is not; where the host does not tell case apart, neither does this.
pub proof fn law_allowed_folders_hold_what_lies_below(
    folder: Seq<char>,
    c: char,
    rest: Seq<char>,
)
    requires
        folder.len() > 0,
        folder.last() != '/',
        c != '/',
    ensures
        crate::mcp::is_under(folder, folder, true),
        crate::mcp::is_under(folder.push('/') + rest, folder, true),
        !crate::mcp::is_under(folder.push(c) + rest, folder, true),
{
    let below = folder.push('/') + rest;
    let beside = folder.push(c) + rest;
    assert(below.subrange(0, folder.len() as int) =~= folder);
    assert(folder.subrange(0, folder.len() as int) =~= folder);
    assert(below[folder.len() as int] == '/');
    assert(beside[folder.len() as int] == c);
}

// ---------------------------------------------------------------------------
// The helper with administrator rights

/// A helper is trusted with administrator rights only in a folder of installed programs, owned
/// by the administrator like every folder around it, and where nobody else may write.
pub proof fn law_trusted_helpers_are_the_administrators(
    path: Seq<char>,
    owner: Ownership,
    around: Seq<Around>,
)
    requires
        crate::launch::distrust(path, owner, around) is None,
    ensures
        owner.expected_kind,
        owner.uid == 0,
        owner.mode / 16 % 2 == 0 && owner.mode / 2 % 2 == 0,
        forall|i: int|
            0 <= i < around.len() ==> (#[trigger] around[i]).owner.uid == 0
                && around[i].owner.expected_kind && around[i].owner.mode / 16 % 2 == 0
                && around[i].owner.mode / 2 % 2 == 0,
        ({
            let p = crate::host::path_parts(Host::Linux, path);
            ||| crate::host::path_parts(
                Host::Linux,
                "/usr/local/lib/neutrasearch"@,
            ).is_prefix_of(p)
            ||| crate::host::path_parts(Host::Linux, "/usr/lib/neutrasearch"@).is_prefix_of(p)
            ||| crate::host::path_parts(Host::Linux, "/usr/local/bin"@).is_prefix_of(p)
        }),
{
    lemma_write_bits(owner.mode);
    lemma_all_protected(around);
    assert forall|i: int| 0 <= i < around.len() implies (#[trigger] around[i]).owner.uid == 0
        && around[i].owner.expected_kind && around[i].owner.mode / 16 % 2 == 0
        && around[i].owner.mode / 2 % 2 == 0 by {
        lemma_write_bits(around[i].owner.mode);
    }
}

proof fn lemma_write_bits(mode: u32)
    ensures
        mode & 0o022 == 0 <==> (mode / 16 % 2 == 0 && mode / 2 % 2 == 0),
{
    assert((mode & 0o022 == 0) == (mode / 16 % 2 == 0 && mode / 2 % 2 == 0)) by (bit_vector);
}

proof fn lemma_all_protected(around: Seq<Around>)
    requires
        crate::launch::first_open(around) is None,
    ensures
        forall|i: int|
            0 <= i < around.len() ==> crate::launch::is_protected((#[trigger] around[i]).owner),
    decreases around.len(),
{
    if around.len() > 0 {
        let rest = around.skip(1);
        lemma_all_protected(rest);
        assert forall|i: int| 0 <= i < around.len() implies crate::launch::is_protected(
            (#[trigger] around[i]).owner,
        ) by {
            if i > 0 {
                assert(rest[i - 1] == around[i]);
            }
        }
    }
}

} // verus!
