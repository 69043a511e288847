//! What is told of servers, snapshots, access lists and maps of folders.

use crate::launch::{ServerWatchView, SetUp};
use crate::mounts::MountView;
use crate::remote::{PlatformView, RemoteFault, RemoteOs};
use crate::terminal::{Action, Command};
use crate::treemap::{BlockView, Tree};
use crate::windows::Ace;
use crate::zfs::{DiffView, ZfsFault};
use vstd::prelude::*;

verus! {

// ---------------------------------------------------------------------------
// Servers

/// A server that runs a Unix shell says its system in the first line of its answer and its
/// processor in the second.
pub proof fn law_platforms_are_told_in_two_lines(
    host: Seq<char>,
    out: Seq<u8>,
    windows: Option<Seq<u8>>,
    p: PlatformView,
)
    requires
        crate::remote::platform_of(host, Some(out), windows) == Ok::<PlatformView, RemoteFault>(p),
        crate::text::lines(crate::text::lossy_text(out)).len() >= 2,
    ensures
        ({
            let lines = crate::text::lines(crate::text::lossy_text(out));
            let cpu = crate::text::ascii_lower_all(crate::text::trim(lines[1]));
            &&& p.os == RemoteOs::Linux ==> crate::text::trim(lines[0]) == "Linux"@
            &&& p.os == RemoteOs::Macos ==> crate::text::trim(lines[0]) == "Darwin"@
            &&& p.os != RemoteOs::Windows
            &&& cpu == "amd64"@ || cpu == "x64"@ || cpu == "x86_64"@ ==> p.arch == "x86_64"@
            &&& cpu == "arm64"@ || cpu == "aarch64"@ ==> p.arch == "aarch64"@ || p.arch == "x86_64"@
            &&& cpu != "amd64"@ && cpu != "x64"@ && cpu != "x86_64"@ && cpu != "arm64"@ && cpu
                != "aarch64"@ ==> p.arch == cpu
            &&& crate::remote::is_safe_host(host)
        }),
{
}

/// A network mount is reported the first time that it is seen, and not again.
pub proof fn law_network_mounts_are_reported_once(
    ms: Seq<MountView>,
    seen: Set<Seq<char>>,
    i: int,
)
    requires
        0 <= i < ms.len(),
    ensures
        ({
            let (found, known) = crate::remote::new_among(ms, seen);
            let id = ms[i].device + seq![':'] + ms[i].mountpoint;
            &&& ms[i].host is Some ==> known.contains(id)
            &&& seen.subset_of(known)
            &&& forall|k: int|
                0 <= k < found.len() ==> (#[trigger] found[k]).host is Some && !seen.contains(
                    crate::remote::identity(found[k]),
                ) && ms.contains(found[k])
            &&& ms[i].host is Some && !seen.contains(id) ==> exists|k: int|
                0 <= k < found.len() && crate::remote::identity(#[trigger] found[k]) == id
            &&& forall|j: int, k: int|
                0 <= j < k < found.len() ==> crate::remote::identity(#[trigger] found[j])
                    != crate::remote::identity(#[trigger] found[k])
        }),
{
    lemma_new(ms, seen);
    let (found, known) = crate::remote::new_among(ms, seen);
    reveal_strlit(":");
    assert(":"@ =~= seq![':']);
    assert(crate::remote::identity(ms[i]) == ms[i].device + seq![':'] + ms[i].mountpoint);
}

#[verifier::rlimit(40)]
proof fn lemma_new(ms: Seq<MountView>, seen: Set<Seq<char>>)
    ensures
        ({
            let (found, known) = crate::remote::new_among(ms, seen);
            &&& seen.subset_of(known)
            &&& forall|i: int|
                0 <= i < ms.len() && (#[trigger] ms[i]).host is Some ==> known.contains(
                    crate::remote::identity(ms[i]),
                )
            &&& forall|k: int|
                0 <= k < found.len() ==> (#[trigger] found[k]).host is Some && !seen.contains(
                    crate::remote::identity(found[k]),
                ) && ms.contains(found[k]) && known.contains(crate::remote::identity(found[k]))
            &&& forall|id: Seq<char>|
                known.contains(id) && !seen.contains(id) ==> exists|k: int|
                    0 <= k < found.len() && crate::remote::identity(#[trigger] found[k]) == id
            &&& forall|j: int, k: int|
                0 <= j < k < found.len() ==> crate::remote::identity(#[trigger] found[j])
                    != crate::remote::identity(#[trigger] found[k])
        }),
    decreases ms.len(),
{
    if ms.len() > 0 {
        let less = ms.drop_last();
        let m = ms.last();
        lemma_new(less, seen);
        let (front, before) = crate::remote::new_among(less, seen);
        let (found, known) = crate::remote::new_among(ms, seen);
        assert(ms[ms.len() - 1] == m);
        assert forall|i: int| 0 <= i < ms.len() && (#[trigger] ms[i]).host is Some implies known.contains(
        crate::remote::identity(ms[i])) by {
            if i < less.len() {
                assert(less[i] == ms[i]);
            }
        }
        assert forall|k: int| 0 <= k < front.len() implies ms.contains(#[trigger] front[k]) by {
            let j = less.index_of(front[k]);
            assert(ms[j] == front[k]);
        }
        assert forall|id: Seq<char>| known.contains(id) && !seen.contains(id) implies exists|k: int|
            0 <= k < found.len() && crate::remote::identity(#[trigger] found[k]) == id by {
            if before.contains(id) {
                let k = choose|k: int|
                    0 <= k < front.len() && crate::remote::identity(#[trigger] front[k]) == id;
                assert(found[k] == front[k]);
            } else {
                assert(found[front.len() as int] == m);
            }
        }
    }
}

/// A server that was set up is not tried again, nor is one that needs attention; one that is
/// away is, and is told of once.
pub proof fn law_absent_servers_are_tried_again(w: ServerWatchView, key: Seq<char>, r: SetUp)
    ensures
        ({
            let (after, told) = crate::launch::tried(w, key, r);
            match r {
                SetUp::Ready { .. } => after.ready.contains(key) && !after.waiting.contains(key)
                    && told is Some,
                SetUp::Failed(e) => if crate::launch::sounds_offline(e@) {
                    after.waiting.contains(key) && after.ready == w.ready && (told is None
                        <==> w.waiting.contains(key))
                } else {
                    after.ready.contains(key) && told is Some
                },
            }
        }),
        forall|other: Seq<char>|
            other != key ==> (#[trigger] crate::launch::tried(w, key, r).0.ready.contains(other)
                <==> w.ready.contains(other)),
{
}

// ---------------------------------------------------------------------------
// Snapshots

/// A line of a difference has a mark, perhaps a type, and a path, with tabs between them; a
/// rename has the old path and the new one.
pub proof fn law_differences_are_read_by_their_columns(
    mark: Seq<char>,
    typ: Seq<char>,
    path: Seq<char>,
    other: Seq<char>,
    line: usize,
)
    requires
        crate::text::trim(mark) == mark,
    ensures
        ({
            let three = crate::zfs::diff_in(seq![mark, typ, path], line);
            let two = crate::zfs::diff_in(seq![mark, path], line);
            let four = crate::zfs::diff_in(seq![mark, typ, path, other], line);
            &&& mark == seq!['+'] ==> three == Ok::<DiffView, ZfsFault>(DiffView::Created(path))
                && two == three
            &&& mark == seq!['-'] ==> three == Ok::<DiffView, ZfsFault>(DiffView::Removed(path))
                && two == three
            &&& mark == seq!['M'] ==> three == Ok::<DiffView, ZfsFault>(DiffView::Modified(path))
                && two == three
            &&& mark == seq!['R'] ==> four == Ok::<DiffView, ZfsFault>(
                DiffView::Renamed { from: path, to: other },
            ) && three is Err && two is Err
        }),
{
    reveal_strlit("+");
    reveal_strlit("-");
    reveal_strlit("M");
    reveal_strlit("R");
    assert("+"@ =~= seq!['+']);
    assert("-"@ =~= seq!['-']);
    assert("M"@ =~= seq!['M']);
    assert("R"@ =~= seq!['R']);
    assert(seq!['+'][0] == '+' && seq!['-'][0] == '-' && seq!['M'][0] == 'M' && seq!['R'][0]
        == 'R');
    let three = seq![mark, typ, path];
    let two = seq![mark, path];
    let four = seq![mark, typ, path, other];
    assert(three[0] == mark && three[2] == path && two[0] == mark && two[1] == path && four[0]
        == mark && four[2] == path && four[3] == other);
}

// ---------------------------------------------------------------------------
// Access lists

/// Where an access list is accepted, nobody but the system and its administrators may write,
/// append, write attributes, delete, take it over or change its rights.
pub proof fn law_others_may_not_write(path: Seq<char>, list: Seq<Ace>, i: int)
    requires
        crate::windows::acl_fault(path, Some(list)) is None,
        0 <= i < list.len(),
        list[i].sid@ != "S-1-5-18"@,
        list[i].sid@ != "S-1-5-32-544"@,
    ensures
        ({
            let m = list[i].mask;
            &&& m & 0x2 == 0 && m & 0x4 == 0
            &&& m & 0x40 == 0 && m & 0x100 == 0
            &&& m & 0x1_0000 == 0 && m & 0x4_0000 == 0 && m & 0x8_0000 == 0
            &&& m & 0x1000_0000 == 0 && m & 0x4000_0000 == 0
        }),
{
    let m = list[i].mask;
    if m & crate::windows::WRITE_MASK != 0 {
        crate::windows::law_only_administrators_can_change(path, list, i);
    }
    assert(m & 0x500d_0156 == 0 ==> m & 0x2 == 0 && m & 0x4 == 0 && m & 0x40 == 0 && m & 0x100 == 0
        && m & 0x1_0000 == 0 && m & 0x4_0000 == 0 && m & 0x8_0000 == 0 && m & 0x1000_0000 == 0 && m
        & 0x4000_0000 == 0) by (bit_vector);
}

// ---------------------------------------------------------------------------
// Maps of folders

/// The blocks of a map never grow from one to the next, and each is a folder or a file right in
/// the folder that the map is of, with its size; an empty one still takes room.
#[verifier::rlimit(40)]
pub proof fn law_the_largest_blocks_come_first(t: Tree, p: Seq<char>, r: Seq<BlockView>)
    requires
        crate::treemap::is_map(t, p, r),
        t.contains_key(p),
    ensures
        forall|i: int, j: int|
            0 <= i < j < r.len() ==> (#[trigger] r[i]).bytes >= (#[trigger] r[j]).bytes,
        forall|i: int|
            0 <= i < r.len() ==> (#[trigger] r[i]).folder ==> t[p].children.contains(r[i].path)
                && t.contains_key(r[i].path) && r[i].count == t[r[i].path].count && (r[i].bytes
                == t[r[i].path].size || (t[r[i].path].size == 0 && r[i].bytes == 1)),
        forall|i: int|
            0 <= i < r.len() ==> !(#[trigger] r[i]).folder ==> exists|k: int|
                0 <= k < t[p].files.len() && (#[trigger] t[p].files[k]).path == r[i].path && (
                r[i].bytes == t[p].files[k].size || (t[p].files[k].size == 0 && r[i].bytes == 1)),
{
    let (c, order) = choose|c: Seq<Seq<char>>, order: Seq<usize>|
        #![trigger crate::treemap::lists_children(c, t[p].children), crate::treemap::is_size_order(
                crate::treemap::block_sizes(
                    crate::treemap::folder_blocks(t, c) + crate::treemap::file_blocks(t[p].files),
                ),
                order,
            )]
        {
            let all = crate::treemap::folder_blocks(t, c) + crate::treemap::file_blocks(
                t[p].files,
            );
            &&& crate::treemap::lists_children(c, t[p].children)
            &&& crate::treemap::is_size_order(crate::treemap::block_sizes(all), order)
            &&& r == crate::rank::picked(all, order).take(
                if all.len() < crate::treemap::MAX_BLOCKS {
                    all.len() as int
                } else {
                    crate::treemap::MAX_BLOCKS as int
                },
            )
        };
    let folders = crate::treemap::folder_blocks(t, c);
    let files = crate::treemap::file_blocks(t[p].files);
    let all = folders + files;
    let sizes = crate::treemap::block_sizes(all);
    assert forall|i: int| 0 <= i < order.len() implies (#[trigger] order[i]) < all.len() by {
        let numbers = Seq::new(sizes.len(), |i: int| i as usize);
        order.to_multiset_ensures();
        numbers.to_multiset_ensures();
        assert(order.contains(order[i]));
        assert(numbers.to_multiset().count(order[i]) > 0);
        assert(numbers.contains(order[i]));
        let k = numbers.index_of(order[i]);
    }
    assert(order.len() == all.len()) by {
        let numbers = Seq::new(sizes.len(), |i: int| i as usize);
        order.to_multiset_ensures();
        numbers.to_multiset_ensures();
    }
    assert forall|i: int, j: int| 0 <= i < j < r.len() implies (#[trigger] r[i]).bytes >= (
    #[trigger] r[j]).bytes by {
        assert(r[i] == all[order[i] as int]);
        assert(r[j] == all[order[j] as int]);
        assert(sizes[order[i] as int] == r[i].bytes);
        assert(sizes[order[j] as int] == r[j].bytes);
    }
    lemma_folder_blocks(t, c);
    assert forall|i: int| 0 <= i < r.len() && (#[trigger] r[i]).folder implies t[p].children.contains(
    r[i].path) && t.contains_key(r[i].path) && r[i].count == t[r[i].path].count && (r[i].bytes
        == t[r[i].path].size || (t[r[i].path].size == 0 && r[i].bytes == 1)) by {
        let k = order[i] as int;
        assert(r[i] == all[k]);
        if k < folders.len() {
            assert(all[k] == folders[k]);
            assert(c.contains(folders[k].path));
        } else {
            assert(all[k] == files[k - folders.len()]);
        }
    }
    assert forall|i: int| 0 <= i < r.len() && !(#[trigger] r[i]).folder implies exists|k: int|
        0 <= k < t[p].files.len() && (#[trigger] t[p].files[k]).path == r[i].path && (r[i].bytes
            == t[p].files[k].size || (t[p].files[k].size == 0 && r[i].bytes == 1)) by {
        let k = order[i] as int;
        assert(r[i] == all[k]);
        if k < folders.len() {
            assert(all[k] == folders[k]);
        } else {
            assert(all[k] == files[k - folders.len()]);
            assert(t[p].files[k - folders.len()].path == r[i].path);
        }
    }
}

proof fn lemma_folder_blocks(t: Tree, c: Seq<Seq<char>>)
    ensures
        forall|k: int|
            0 <= k < crate::treemap::folder_blocks(t, c).len() ==> ({
                let b = #[trigger] crate::treemap::folder_blocks(t, c)[k];
                &&& b.folder
                &&& c.contains(b.path)
                &&& t.contains_key(b.path)
                &&& b.count == t[b.path].count
                &&& b.bytes == crate::treemap::weight(t[b.path].size)
            }),
    decreases c.len(),
{
    if c.len() > 0 {
        let less = c.drop_last();
        lemma_folder_blocks(t, less);
        let front = crate::treemap::folder_blocks(t, less);
        let all = crate::treemap::folder_blocks(t, c);
        assert(c[c.len() - 1] == c.last());
        assert forall|k: int| 0 <= k < all.len() implies ({
            let b = #[trigger] all[k];
            &&& b.folder
            &&& c.contains(b.path)
            &&& t.contains_key(b.path)
            &&& b.count == t[b.path].count
            &&& b.bytes == crate::treemap::weight(t[b.path].size)
        }) by {
            if k < front.len() {
                assert(all[k] == front[k]);
                let j = less.index_of(front[k].path);
                assert(c[j] == front[k].path);
            }
        }
    }
}

/// In a map a file takes as much room as it has bytes, and an empty one as much as one byte;
/// sums stop at the largest number there is.
pub proof fn law_empty_files_take_room(size: u64, other: u64)
    ensures
        size > 0 ==> crate::treemap::weight(size) == size,
        size == 0 ==> crate::treemap::weight(size) == 1,
        size + other <= u64::MAX ==> crate::treemap::capped_sum(size, other) == size + other,
        size + other > u64::MAX ==> crate::treemap::capped_sum(size, other) == u64::MAX,
{
}

/// How large some blocks are together.
pub open spec fn together(sizes: Seq<u64>) -> nat
    decreases sizes.len(),
{
    if sizes.len() == 0 {
        0
    } else {
        together(sizes.drop_last()) + sizes.last() as nat
    }
}

proof fn lemma_together(sizes: Seq<u64>, k: int)
    requires
        together(sizes) <= u64::MAX,
        0 <= k <= sizes.len(),
    ensures
        crate::treemap::sizes_sum(sizes.take(k)) == together(sizes.take(k)),
        together(sizes.take(k)) <= together(sizes),
    decreases sizes.len(),
{
    if k == sizes.len() {
        assert(sizes.take(k) =~= sizes);
        if k > 0 {
            let less = sizes.drop_last();
            lemma_together(less, k - 1);
            assert(less.take(k - 1) =~= less);
        }
    } else {
        let less = sizes.drop_last();
        lemma_together(less, k);
        assert(less.take(k) =~= sizes.take(k));
    }
}

/// A row of blocks is cut where the blocks in front hold half of it, and would not with one
/// block less; at least one block stands on either side.
pub proof fn law_rows_are_cut_in_half(sizes: Seq<u64>, split: int)
    requires
        crate::treemap::is_cut(sizes, split),
        together(sizes) <= u64::MAX,
    ensures
        1 <= split < sizes.len(),
        split < sizes.len() - 1 ==> 2 * together(sizes.take(split)) + 1 >= together(sizes),
        split > 1 ==> 2 * together(sizes.take(split - 1)) < together(sizes),
{
    lemma_together(sizes, split);
    lemma_together(sizes, sizes.len() as int);
    assert(sizes.take(sizes.len() as int) =~= sizes);
    if split > 1 {
        lemma_together(sizes, split - 1);
        assert(crate::treemap::sizes_sum(sizes.take(split - 1)) == together(
            sizes.take(split - 1),
        ));
    }
}

// ---------------------------------------------------------------------------
// Commands

/// A command line without words opens the window; a command gets the words behind it; asking
/// for help or the version is no error, and a word that is no command is.
pub proof fn law_commands_get_their_words(args: Seq<Seq<char>>, version: Seq<char>, r: Action)
    requires
        crate::terminal::acts(args, version, r),
    ensures
        args.len() == 0 ==> r is Gui,
        r matches Action::Run(c, rest) ==> args.len() > 0 && crate::text::strings(rest@)
            == args.skip(1) && args[0] == (match c {
            Command::Search => "search"@,
            Command::Index => "index"@,
            Command::Serve => "serve"@,
            Command::Mcp => "mcp"@,
        }),
        r is Gui ==> args.len() == 0 || (args.len() == 1 && args[0] == "gui"@),
        r matches Action::Exit(code, _) ==> code == 0 || code == 2,
{
}

} // verus!
