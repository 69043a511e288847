//! What the totals of folders count, and that they are those of their folders and files.

use crate::host::Host;
use crate::summary::EntryView;
use crate::types::{FileKind, RecordView};
use vstd::prelude::*;

verus! {

/// What a record counts in every folder above it, in files or in bytes: files and links count.
pub open spec fn counted(r: RecordView, bytes: bool) -> nat {
    if r.kind == FileKind::Dir || r.kind == FileKind::Other {
        0
    } else if bytes {
        r.size as nat
    } else {
        1
    }
}

/// What the records below a folder count.
pub open spec fn below(ks: Seq<RecordView>, d: Seq<char>, bytes: bool) -> nat {
    if bytes {
        crate::summary::bytes_below(ks, d)
    } else {
        crate::summary::files_below(ks, d)
    }
}

/// One more record counts in the folders that it lies in, and in no other: its size and one
/// file where it is a file or a link, and one folder where it is one.
pub proof fn law_totals_grow_by_what_arrives(ks: Seq<RecordView>, r: RecordView, d: Seq<char>)
    ensures
        ({
            let more = ks.push(r);
            let above = crate::dirs::ancestors_of(r.path).drop_last().contains(d);
            let file = r.kind == FileKind::File || r.kind == FileKind::Symlink;
            &&& crate::summary::bytes_below(more, d) == crate::summary::bytes_below(ks, d) + (
            if above && file {
                r.size as nat
            } else {
                0
            })
            &&& crate::summary::files_below(more, d) == crate::summary::files_below(ks, d) + (
            if above && file {
                1nat
            } else {
                0
            })
            &&& crate::summary::dirs_below(more, d) == crate::summary::dirs_below(ks, d) + (
            if above && r.kind == FileKind::Dir {
                1nat
            } else {
                0
            })
        }),
{
    assert(ks.push(r).drop_last() =~= ks);
}

/// Without records every total is zero.
pub proof fn law_nothing_counts_nothing(d: Seq<char>)
    ensures
        crate::summary::bytes_below(Seq::empty(), d) == 0,
        crate::summary::files_below(Seq::empty(), d) == 0,
        crate::summary::dirs_below(Seq::empty(), d) == 0,
{
}

/// The path is absolute, names a share with its server, and does not begin with a folder
/// called `:`.
pub open spec fn well_placed(r: RecordView) -> bool {
    let n = crate::dirs::tidy(r.path);
    &&& crate::dirs::rooted(n)
    &&& crate::dirs::on_share(n) ==> crate::dirs::components(n.skip(2)).len() >= 2
    &&& crate::dirs::components(n).len() == 0 || crate::dirs::components(n)[0] != seq![':']
}

/// What the records right in a folder count.
pub open spec fn right_in(ks: Seq<RecordView>, d: Seq<char>, bytes: bool) -> nat
    decreases ks.len(),
{
    if ks.len() == 0 {
        0
    } else {
        let way = crate::dirs::ancestors_of(ks.last().path).drop_last();
        right_in(ks.drop_last(), d, bytes) + if way.len() > 0 && way.last() == d {
            counted(ks.last(), bytes)
        } else {
            0
        }
    }
}

/// What the records below some folders count together.
pub open spec fn below_all(ks: Seq<RecordView>, c: Seq<Seq<char>>, bytes: bool) -> nat
    decreases c.len(),
{
    if c.len() == 0 {
        0
    } else {
        below_all(ks, c.drop_last(), bytes) + below(ks, c.last(), bytes)
    }
}

/// A list names folders right in `d` alone, each once, and every one that records lie in.
pub open spec fn lists_folders(ks: Seq<RecordView>, d: Seq<char>, c: Seq<Seq<char>>) -> bool {
    &&& c.no_duplicates()
    &&& forall|j: int|
        0 <= j < c.len() ==> crate::dirs::parent_of(#[trigger] c[j]) == d && c[j]
            != crate::dirs::top()
    &&& forall|k: int, i: int|
        0 <= k < ks.len() && 0 <= i < crate::dirs::ancestors_of(ks[k].path).len() - 2 && (
        #[trigger] crate::dirs::ancestors_of(ks[k].path)[i]) == d ==> c.contains(
            crate::dirs::ancestors_of(ks[k].path)[i + 1],
        )
}

proof fn lemma_with(ks: Seq<RecordView>, c: Seq<Seq<char>>, bytes: bool)
    requires
        ks.len() > 0,
    ensures
        below_all(ks, c, bytes) == below_all(ks.drop_last(), c, bytes) + crate::treemap::met(
            c,
            crate::dirs::ancestors_of(ks.last().path).drop_last(),
            counted(ks.last(), bytes),
        ),
    decreases c.len(),
{
    if c.len() > 0 {
        lemma_with(ks, c.drop_last(), bytes);
        law_totals_grow_by_what_arrives(ks.drop_last(), ks.last(), c.last());
        assert(ks.drop_last().push(ks.last()) =~= ks);
    }
}

proof fn lemma_none(c: Seq<Seq<char>>, bytes: bool)
    ensures
        below_all(Seq::empty(), c, bytes) == 0,
    decreases c.len(),
{
    if c.len() > 0 {
        lemma_none(c.drop_last(), bytes);
    }
}

#[verifier::rlimit(40)]
proof fn lemma_step(r: RecordView, d: Seq<char>, c: Seq<Seq<char>>, u: nat)
    requires
        well_placed(r),
        lists_folders(seq![r], d, c),
    ensures
        ({
            let way = crate::dirs::ancestors_of(r.path).drop_last();
            (if way.contains(d) {
                u
            } else {
                0
            }) == (if way.len() > 0 && way.last() == d {
                u
            } else {
                0
            }) + crate::treemap::met(c, way, u)
        }),
{
    let all = crate::dirs::ancestors_of(r.path);
    let way = all.drop_last();
    let last = way.len() - 1;
    crate::dirs::law_ancestors_are_the_chain_of_parents(r.path);
    crate::dirs::law_ancestors_differ(r.path);
    assert(seq![r][0] == r);
    assert(forall|i: int| 0 <= i < way.len() ==> #[trigger] way[i] == all[i]);
    assert forall|j: int| 0 <= j < c.len() && way.contains(#[trigger] c[j]) implies exists|m: int|
        0 < m < way.len() && #[trigger] way[m] == c[j] && way[m - 1] == d by {
        let m = way.index_of(c[j]);
        assert(way[m] == all[m]);
        assert(m != 0);
        assert(crate::dirs::parent_of(all[m]) == all[m - 1]);
        assert(way[m - 1] == all[m - 1]);
    }
    if way.contains(d) {
        let i = way.index_of(d);
        assert(way[i] == all[i]);
        if i == last {
            assert forall|j: int| 0 <= j < c.len() implies !way.contains(#[trigger] c[j]) by {
                if way.contains(c[j]) {
                    let m = choose|m: int|
                        0 < m < way.len() && #[trigger] way[m] == c[j] && way[m - 1] == d;
                    assert(all[m - 1] == all[i]);
                }
            }
            crate::treemap::lemma_none_met(c, way, u);
        } else {
            assert(crate::dirs::ancestors_of(seq![r][0].path)[i] == d);
            assert(c.contains(all[i + 1]));
            let at = c.index_of(all[i + 1]);
            assert(way[i + 1] == c[at]);
            assert forall|j: int| 0 <= j < c.len() && j != at implies !way.contains(
                #[trigger] c[j],
            ) by {
                if way.contains(c[j]) {
                    let m = choose|m: int|
                        0 < m < way.len() && #[trigger] way[m] == c[j] && way[m - 1] == d;
                    assert(all[m - 1] == all[i]);
                    assert(m - 1 == i);
                    assert(c[j] == c[at]);
                }
            }
            crate::treemap::lemma_one_met(c, way, u, at);
            assert(all[last] != all[i]);
        }
    } else {
        crate::treemap::lemma_none_met(c, way, u);
    }
}

/// The files below a folder, and their bytes, are those right in it and those below the folders
/// right in it: nothing is counted twice or left out. `c` lists the folders right in it.
#[verifier::rlimit(40)]
pub proof fn law_totals_are_those_of_the_children(
    ks: Seq<RecordView>,
    d: Seq<char>,
    c: Seq<Seq<char>>,
    bytes: bool,
)
    requires
        forall|k: int| 0 <= k < ks.len() ==> well_placed(#[trigger] ks[k]),
        lists_folders(ks, d, c),
    ensures
        below(ks, d, bytes) == right_in(ks, d, bytes) + below_all(ks, c, bytes),
    decreases ks.len(),
{
    if ks.len() == 0 {
        assert(ks =~= Seq::empty());
        lemma_none(c, bytes);
    } else {
        let less = ks.drop_last();
        let r = ks.last();
        assert(r == ks[ks.len() - 1]);
        assert forall|k: int| 0 <= k < less.len() implies well_placed(#[trigger] less[k]) by {
            assert(less[k] == ks[k]);
        }
        assert(lists_folders(less, d, c)) by {
            assert forall|k: int, i: int|
                0 <= k < less.len() && 0 <= i < crate::dirs::ancestors_of(less[k].path).len() - 2 && (
                #[trigger] crate::dirs::ancestors_of(less[k].path)[i]) == d implies c.contains(
                crate::dirs::ancestors_of(less[k].path)[i + 1],
            ) by {
                assert(less[k] == ks[k]);
                assert(crate::dirs::ancestors_of(ks[k].path)[i] == d);
            }
        }
        assert(lists_folders(seq![r], d, c)) by {
            let one = seq![r];
            assert forall|k: int, i: int|
                0 <= k < one.len() && 0 <= i < crate::dirs::ancestors_of(one[k].path).len() - 2 && (
                #[trigger] crate::dirs::ancestors_of(one[k].path)[i]) == d implies c.contains(
                crate::dirs::ancestors_of(one[k].path)[i + 1],
            ) by {
                assert(one[k] == ks[ks.len() - 1]);
                assert(crate::dirs::ancestors_of(ks[ks.len() - 1].path)[i] == d);
            }
        }
        law_totals_are_those_of_the_children(less, d, c, bytes);
        lemma_with(ks, c, bytes);
        lemma_step(r, d, c, counted(r, bytes));
        law_totals_grow_by_what_arrives(less, r, d);
        assert(less.push(r) =~= ks);
    }
}

/// A file shows its own size in its folder, and a folder the totals of all that lies below it.
pub proof fn law_children_show_what_they_hold(ks: Seq<RecordView>, r: RecordView, p: Seq<char>)
    requires
        crate::summary::bytes_below(ks, p) <= u64::MAX,
        crate::summary::files_below(ks, p) <= u64::MAX,
        crate::summary::dirs_below(ks, p) <= u64::MAX,
    ensures
        ({
            let c = crate::summary::file_child(r);
            &&& c.path == crate::dirs::tidy(r.path)
            &&& c.kind == r.kind
            &&& c.logical_bytes == r.size
            &&& c.file_count == counted(r, false) || r.kind == FileKind::Dir
            &&& c.directory_count == 0
        }),
        ({
            let c = crate::summary::folder_child(ks, p);
            &&& c.path == p
            &&& c.kind == FileKind::Dir
            &&& c.logical_bytes as nat == crate::summary::bytes_below(ks, p)
            &&& c.file_count as nat == crate::summary::files_below(ks, p)
            &&& c.directory_count as nat == crate::summary::dirs_below(ks, p)
        }),
{
}

/// The entry of a folder in a summary has its totals, of the records of its source, and every
/// file right in it among its children.
pub proof fn law_entries_have_the_totals_of_their_folders(
    host: Host,
    es: Seq<EntryView>,
    rs: Seq<RecordView>,
    i: int,
)
    requires
        crate::summary::summarizes(host, es, rs),
        0 <= i < es.len(),
    ensures
        ({
            let e = es[i];
            let ks = crate::summary::kept(host, rs, e.source);
            &&& crate::summary::bytes_below(ks, e.path) <= u64::MAX ==> e.logical_bytes as nat
                == crate::summary::bytes_below(ks, e.path)
            &&& crate::summary::files_below(ks, e.path) <= u64::MAX ==> e.file_count as nat
                == crate::summary::files_below(ks, e.path)
            &&& crate::summary::dirs_below(ks, e.path) <= u64::MAX ==> e.directory_count as nat
                == crate::summary::dirs_below(ks, e.path)
        }),
{
}

/// Of the records of a source every place is kept once, the first that has it, and no record of
/// another source.
pub proof fn law_every_place_is_kept_once(host: Host, rs: Seq<RecordView>, source: u32)
    ensures
        forall|k: int|
            0 <= k < crate::summary::kept(host, rs, source).len() ==> (
            #[trigger] crate::summary::kept(host, rs, source)[k]).source == source && rs.contains(
                crate::summary::kept(host, rs, source)[k],
            ),
        forall|i: int|
            0 <= i < rs.len() && (#[trigger] rs[i]).source == source ==> crate::summary::has_form(
                host,
                crate::summary::kept(host, rs, source),
                crate::dirs::order_form(host, crate::dirs::tidy(rs[i].path)),
            ),
    decreases rs.len(),
{
    if rs.len() > 0 {
        let less = rs.drop_last();
        let r = rs.last();
        let front = crate::summary::kept(host, less, source);
        let all = crate::summary::kept(host, rs, source);
        law_every_place_is_kept_once(host, less, source);
        assert(rs[rs.len() - 1] == r);
        assert forall|k: int| 0 <= k < all.len() implies (#[trigger] all[k]).source == source
            && rs.contains(all[k]) by {
            if k < front.len() {
                assert(all[k] == front[k]);
                let j = less.index_of(front[k]);
                assert(rs[j] == all[k]);
            }
        }
        assert forall|i: int|
            0 <= i < rs.len() && (#[trigger] rs[i]).source
                == source implies crate::summary::has_form(
            host,
            all,
            crate::dirs::order_form(host, crate::dirs::tidy(rs[i].path)),
        ) by {
            if i < less.len() {
                assert(less[i] == rs[i]);
            }
            if all != front {
                assert(all.drop_last() =~= front);
            }
        }
    }
}

// ---------------------------------------------------------------------------
// Changes since

/// An arrival adds to the totals of a folder, and a departure takes from them: the size and one
/// file for a file or a link, one folder for a folder, and nothing for anything else. The
/// counters have to have room.
pub proof fn law_changes_shift_the_totals(
    f: crate::overlay::FolderChangeView,
    r: RecordView,
    sign: int,
)
    requires
        sign == 1 || sign == -1,
        -0x1_0000_0000_0000_0000_0000 <= f.bytes <= 0x1_0000_0000_0000_0000_0000,
        -0x1_0000_0000_0000_0000_0000 <= f.files <= 0x1_0000_0000_0000_0000_0000,
        -0x1_0000_0000_0000_0000_0000 <= f.dirs <= 0x1_0000_0000_0000_0000_0000,
    ensures
        ({
            let g = crate::overlay::shifted(f, r, sign);
            let file = r.kind == FileKind::File || r.kind == FileKind::Symlink;
            let folder = r.kind == FileKind::Dir;
            &&& sign == 1 ==> g.bytes == f.bytes + (if file {
                r.size as int
            } else {
                0
            })
            &&& sign == -1 ==> g.bytes == f.bytes - (if file {
                r.size as int
            } else {
                0
            })
            &&& g.files == f.files + (if file {
                sign
            } else {
                0
            })
            &&& g.dirs == f.dirs + (if folder {
                sign
            } else {
                0
            })
            &&& g.children == f.children
        }),
{
    assert(sign * r.size == (if sign == 1 {
        r.size as int
    } else {
        -(r.size as int)
    })) by (nonlinear_arith)
        requires
            sign == 1 || sign == -1,
    ;
}

/// A total with a change is the sum of both, and not less than nothing.
pub proof fn law_totals_take_their_changes(total: u64, change: int)
    ensures
        0 <= total + change <= u64::MAX ==> crate::overlay::clamped(total, change) == total + change,
        total + change < 0 ==> crate::overlay::clamped(total, change) == 0,
        total + change > u64::MAX ==> crate::overlay::clamped(total, change) == u64::MAX,
{
}

/// A record that arrives is a child of its folder with its size, and shows as what it is.
pub proof fn law_arrivals_show_what_they_are(r: RecordView)
    ensures
        ({
            let c = crate::overlay::record_child(r);
            &&& c.path == crate::dirs::tidy(r.path)
            &&& c.kind == r.kind
            &&& r.kind != FileKind::Dir ==> c.logical_bytes == r.size
            &&& r.kind == FileKind::Dir ==> c.logical_bytes == 0
            &&& c.file_count == (if r.kind == FileKind::File || r.kind == FileKind::Symlink {
                1u64
            } else {
                0
            })
            &&& c.directory_count == 0
        }),
{
}

/// What is told of a folder under the changes is what the summary says of it, or nothing where
/// it says nothing, and each total with its own change.
pub proof fn law_folders_are_told_with_their_changes(
    o: crate::overlay::SummaryOverlayView,
    source: u32,
    path: Seq<char>,
    e: EntryView,
)
    requires
        crate::overlay::aggregated(o, source, path) == Some(e),
    ensures
        ({
            let base = crate::dir_summary::looked_up(o.base.host, o.base.entries, source, path);
            let f = crate::overlay::change_at(
                o.folders,
                crate::overlay::slot_key(o.base.host, source, path),
            );
            let (bytes, files, dirs) = match base {
                Some(b) => (b.logical_bytes, b.file_count, b.directory_count),
                None => (0u64, 0u64, 0u64),
            };
            &&& 0 <= bytes + f.bytes <= u64::MAX ==> e.logical_bytes == bytes + f.bytes
            &&& 0 <= files + f.files <= u64::MAX ==> e.file_count == files + f.files
            &&& 0 <= dirs + f.dirs <= u64::MAX ==> e.directory_count == dirs + f.dirs
        }),
{
}

/// What is looked up of a folder is an entry of its source for its place, however its path is
/// spelled; nothing is found only where there is none.
pub proof fn law_folders_are_found_by_source_and_place(
    host: Host,
    es: Seq<EntryView>,
    source: u32,
    path: Seq<char>,
)
    requires
        crate::dirs::normal_form(path) is Some,
    ensures
        match crate::dir_summary::looked_up(host, es, source, path) {
            Some(e) => es.contains(e) && e.source == source && crate::dirs::order_form(host, e.path)
                == crate::dirs::order_form(host, crate::dirs::tidy(path)),
            None => forall|i: int|
                0 <= i < es.len() ==> (#[trigger] es[i]).source != source
                    || crate::dirs::order_form(host, es[i].path) != crate::dirs::order_form(
                    host,
                    crate::dirs::tidy(path),
                ),
        },
{
    let n = crate::dirs::tidy(path);
    lemma_looked_up(host, es, source, n);
    if crate::dir_summary::looked_up(host, es, source, path) is None {
        assert forall|i: int| 0 <= i < es.len() implies (#[trigger] es[i]).source != source
            || crate::dirs::order_form(host, es[i].path) != crate::dirs::order_form(host, n) by {
            assert(!crate::dir_summary::is_at(host, es[i], source, n));
        }
    }
}

proof fn lemma_looked_up(host: Host, es: Seq<EntryView>, source: u32, path: Seq<char>)
    ensures
        match crate::dir_summary::entry_at(host, es, source, path) {
            Some(e) => es.contains(e) && crate::dir_summary::is_at(host, e, source, path),
            None => forall|i: int|
                0 <= i < es.len() ==> !crate::dir_summary::is_at(
                    host,
                    #[trigger] es[i],
                    source,
                    path,
                ),
        },
    decreases es.len(),
{
    if es.len() > 0 {
        let less = es.drop_last();
        lemma_looked_up(host, less, source, path);
        assert(es[es.len() - 1] == es.last());
        match crate::dir_summary::entry_at(host, es, source, path) {
            Some(e) => {
                if crate::dir_summary::entry_at(host, less, source, path) is Some {
                    let i = less.index_of(e);
                    assert(es[i] == e);
                }
            },
            None => {
                assert forall|i: int| 0 <= i < es.len() implies !crate::dir_summary::is_at(
                    host,
                    #[trigger] es[i],
                    source,
                    path,
                ) by {
                    if i < less.len() {
                        assert(less[i] == es[i]);
                    }
                }
            },
        }
    }
}

} // verus!
