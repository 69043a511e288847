//! What a batch of watch events comes to, said of the last thing that each path was told of.

use crate::delta::ChangeView;
use crate::host::Host;
use crate::types::{FileKind, RecordView};
use crate::watch::{
    EventView, FileStat, Gathered, LocationView, LookedUpView, ResolutionView, Role, WatchBatch,
    WatchedView,
};
use vstd::prelude::*;

verus! {

/// The path lies in the watched mount and is none of the files that are left out.
pub open spec fn cared_for(w: WatchedView, p: Seq<char>) -> bool {
    &&& crate::host::path_parts(Host::Linux, w.mount.mountpoint).is_prefix_of(
        crate::host::path_parts(Host::Linux, p),
    )
    &&& forall|i: int|
        0 <= i < w.excluded.len() ==> crate::host::path_parts(Host::Linux, p)
            != crate::host::path_parts(Host::Linux, #[trigger] w.excluded[i])
}

/// The mask says that a name was deleted or moved away.
pub open spec fn says_gone(mask: u64) -> bool {
    mask & 0x200 != 0 || mask & 0x40 != 0
}

/// The mask says that a name was created or moved to, that its attributes changed, that a
/// writer closed it, or that it was renamed.
pub open spec fn says_there(mask: u64) -> bool {
    mask & 0x100 != 0 || mask & 0x80 != 0 || mask & 0x4 != 0 || mask & 0x8 != 0 || mask
        & 0x1000_0000 != 0
}

/// The location is at a path, and tells something of it.
pub open spec fn speaks_of(w: WatchedView, l: LookedUpView, p: Seq<char>) -> bool {
    match l.found {
        ResolutionView::Found { path, stat, parent } => {
            &&& path == p
            &&& cared_for(w, p)
            &&& if l.named {
                l.role == Role::Old || l.role == Role::New || (l.role == Role::Current
                    && says_gone(l.mask)) || says_there(l.mask)
            } else {
                stat is Some
            }
        },
        _ => false,
    }
}

/// The location says that nothing is at its path any more: it is the old name of a rename, a
/// deletion or a move away, or nothing was found there.
pub open spec fn takes_away(l: LookedUpView) -> bool {
    l.named && (l.role == Role::Old || (l.role == Role::Current && says_gone(l.mask)) || (
    l.found->Found_stat is None))
}

/// The last location that tells something of a path.
pub open spec fn last_word(w: WatchedView, ls: Seq<LookedUpView>, p: Seq<char>, i: int) -> bool {
    &&& 0 <= i < ls.len()
    &&& speaks_of(w, ls[i], p)
    &&& forall|j: int| i < j < ls.len() ==> !speaks_of(w, #[trigger] ls[j], p)
}

/// The record says of a path what was found there.
pub open spec fn describes(w: WatchedView, r: RecordView, p: Seq<char>, s: FileStat, parent: u64) -> bool {
    &&& r.path == p
    &&& r.size as int == (if s.size >= 0 {
        s.size as int
    } else {
        0
    })
    &&& r.mtime == s.mtime
    &&& r.mode == s.mode
    &&& r.native_id == s.ino
    &&& r.native_parent == parent
    &&& r.fs == w.mount.fs
    &&& r.source == w.source
    &&& r.kind == (if s.mode / 0x1000 % 16 == 4 {
        FileKind::Dir
    } else if s.mode / 0x1000 % 16 == 8 {
        FileKind::File
    } else if s.mode / 0x1000 % 16 == 10 {
        FileKind::Symlink
    } else {
        FileKind::Other
    })
}

/// The change says of a path what the last location said that tells of it.
pub open spec fn last_word_stands(w: WatchedView, l: LookedUpView, p: Seq<char>, c: ChangeView) -> bool {
    if takes_away(l) {
        c == ChangeView::Remove(p)
    } else {
        c is Upsert && describes(w, c->Upsert_0, p, l.found->Found_stat->0, l.found->Found_parent)
    }
}

/// Changes that say of every path, once, what the last location said that tells of it, and of
/// no other path.
pub open spec fn tells_the_last_word(
    w: WatchedView,
    ls: Seq<LookedUpView>,
    cs: Seq<ChangeView>,
) -> bool {
    &&& forall|p: Seq<char>, i: int| #[trigger]
        last_word(w, ls, p, i) ==> exists|k: int|
            0 <= k < cs.len() && #[trigger] last_word_stands(w, ls[i], p, cs[k])
    &&& forall|k: int|
        0 <= k < cs.len() ==> exists|i: int|
            last_word(w, ls, crate::delta::path_of(#[trigger] cs[k]), i) && last_word_stands(
                w,
                #[trigger] ls[i],
                crate::delta::path_of(cs[k]),
                cs[k],
            )
    &&& forall|k: int, m: int|
        0 <= k < m < cs.len() ==> crate::delta::path_of(#[trigger] cs[k]) != crate::delta::path_of(
            #[trigger] cs[m],
        )
}

proof fn lemma_bits(mask: u64)
    ensures
        (mask & crate::watch::TAKES_AWAY != 0) == says_gone(mask),
        (mask & crate::watch::BRINGS != 0) == says_there(mask),
{
    assert((mask & 0x240 != 0) == (mask & 0x200 != 0 || mask & 0x40 != 0)) by (bit_vector);
    assert((mask & 0x1000_018c != 0) == (mask & 0x100 != 0 || mask & 0x80 != 0 || mask & 0x4 != 0
        || mask & 0x8 != 0 || mask & 0x1000_0000 != 0)) by (bit_vector);
}

proof fn lemma_kind(mode: u32)
    ensures
        crate::watch::kind_of_mode(mode) == (if mode / 0x1000 % 16 == 4 {
            FileKind::Dir
        } else if mode / 0x1000 % 16 == 8 {
            FileKind::File
        } else if mode / 0x1000 % 16 == 10 {
            FileKind::Symlink
        } else {
            FileKind::Other
        }),
{
    assert(((mode & 0o170000) == 0o040000) == (mode / 0x1000 % 16 == 4)) by (bit_vector);
    assert(((mode & 0o170000) == 0o120000) == (mode / 0x1000 % 16 == 10)) by (bit_vector);
    assert(((mode & 0o170000) == 0o100000) == (mode / 0x1000 % 16 == 8)) by (bit_vector);
}

proof fn lemma_cared_for(w: WatchedView, p: Seq<char>)
    ensures
        cared_for(w, p) == !crate::watch::leaves_out(w, p),
{
    if cared_for(w, p) {
        assert forall|i: int| 0 <= i < w.excluded.len() implies !crate::host::same_path(
            Host::Linux,
            p,
            #[trigger] w.excluded[i],
        ) by {}
    }
    if !crate::watch::leaves_out(w, p) {
        assert forall|i: int| 0 <= i < w.excluded.len() implies crate::host::path_parts(
            Host::Linux,
            p,
        ) != crate::host::path_parts(Host::Linux, #[trigger] w.excluded[i]) by {
            assert(!crate::host::same_path(Host::Linux, p, w.excluded[i]));
        }
    }
}

#[verifier::rlimit(40)]
proof fn lemma_one_more(
    w: WatchedView,
    m: Map<Seq<char>, ChangeView>,
    l: LookedUpView,
    p: Seq<char>,
) -> (n: Map<Seq<char>, ChangeView>)
    requires
        l.found is Found,
    ensures
        (if l.named {
            crate::watch::named_change(w, m, l.mask, l.role, l.found)
        } else {
            crate::watch::object_change(w, m, l.found)
        }) == Gathered::Changes(n),
        speaks_of(w, l, p) ==> n.contains_key(p) && last_word_stands(w, l, p, n[p]),
        !speaks_of(w, l, p) ==> n.contains_key(p) == m.contains_key(p) && (m.contains_key(p)
            ==> n[p] == m[p]),
{
    lemma_bits(l.mask);
    lemma_cared_for(w, l.found->Found_path);
    if l.found->Found_stat is Some {
        lemma_kind(l.found->Found_stat->0.mode);
    }
    let g = if l.named {
        crate::watch::named_change(w, m, l.mask, l.role, l.found)
    } else {
        crate::watch::object_change(w, m, l.found)
    };
    g->Changes_0
}

#[verifier::rlimit(40)]
proof fn lemma_gathered(w: WatchedView, ls: Seq<LookedUpView>, p: Seq<char>)
    requires
        crate::watch::gathered(w, ls) is Changes,
    ensures
        ({
            let m = crate::watch::gathered(w, ls)->Changes_0;
            &&& forall|i: int| #[trigger]
                last_word(w, ls, p, i) ==> m.contains_key(p) && last_word_stands(w, ls[i], p, m[p])
            &&& m.contains_key(p) ==> exists|i: int| #[trigger] last_word(w, ls, p, i)
            &&& m.contains_key(p) ==> crate::delta::path_of(m[p]) == p
        }),
    decreases ls.len(),
{
    if ls.len() > 0 {
        let less = ls.drop_last();
        let l = ls.last();
        let end = ls.len() - 1;
        assert(crate::watch::gathered(w, less) is Changes);
        assert(l.found is Found);
        lemma_gathered(w, less, p);
        let before = crate::watch::gathered(w, less)->Changes_0;
        let m = lemma_one_more(w, before, l, p);
        assert(m == crate::watch::gathered(w, ls)->Changes_0);
        if speaks_of(w, l, p) {
            assert(ls[end] == l);
            assert(last_word(w, ls, p, end));
            assert forall|i: int| #[trigger] last_word(w, ls, p, i) implies last_word_stands(
                w,
                ls[i],
                p,
                m[p],
            ) by {
                assert(i == end);
            }
        } else {
            assert forall|i: int| #[trigger] last_word(w, ls, p, i) implies m.contains_key(p)
                && last_word_stands(w, ls[i], p, m[p]) by {
                assert(i < end);
                assert(last_word(w, less, p, i)) by {
                    assert forall|j: int| i < j < less.len() implies !speaks_of(
                        w,
                        #[trigger] less[j],
                        p,
                    ) by {
                        assert(less[j] == ls[j]);
                    }
                }
            }
            if m.contains_key(p) {
                let i = choose|i: int| #[trigger] last_word(w, less, p, i);
                assert(last_word(w, ls, p, i)) by {
                    assert forall|j: int| i < j < ls.len() implies !speaks_of(
                        w,
                        #[trigger] ls[j],
                        p,
                    ) by {
                        if j < end {
                            assert(less[j] == ls[j]);
                        }
                    }
                }
            }
        }
    }
}

/// A batch of events comes to one change for every path that it tells of: the last that was
/// said of it. A new name is written with what was found there, an old name is removed, and so
/// a renamed file is found under its new name and no longer under its old one.
pub proof fn law_the_last_word_on_a_path_stands(
    w: WatchedView,
    ls: Seq<LookedUpView>,
    r: Result<WatchBatch, String>,
)
    requires
        crate::watch::batch_of(crate::watch::gathered(w, ls), r),
    ensures
        match r {
            Ok(WatchBatch::Changes(cs)) => tells_the_last_word(
                w,
                ls,
                crate::store::change_views(cs@),
            ),
            _ => true,
        },
{
    if let Ok(WatchBatch::Changes(list)) = r {
        let cs = crate::store::change_views(list@);
        let m = crate::watch::gathered(w, ls)->Changes_0;
        assert forall|p: Seq<char>, i: int| #[trigger] last_word(w, ls, p, i) implies exists|k: int|
            0 <= k < cs.len() && #[trigger] last_word_stands(w, ls[i], p, cs[k]) by {
            lemma_gathered(w, ls, p);
            let k = choose|k: int|
                0 <= k < cs.len() && crate::delta::path_of(#[trigger] cs[k]) == p;
            assert(last_word_stands(w, ls[i], p, cs[k]));
        }
        assert forall|k: int| 0 <= k < cs.len() implies exists|i: int|
            last_word(w, ls, crate::delta::path_of(#[trigger] cs[k]), i) && last_word_stands(
                w,
                #[trigger] ls[i],
                crate::delta::path_of(cs[k]),
                cs[k],
            ) by {
            let p = crate::delta::path_of(cs[k]);
            lemma_gathered(w, ls, p);
            let i = choose|i: int| #[trigger] last_word(w, ls, p, i);
            assert(last_word_stands(w, ls[i], p, cs[k]));
        }
        assert forall|k: int, n: int| 0 <= k < n < cs.len() implies crate::delta::path_of(
            #[trigger] cs[k],
        ) != crate::delta::path_of(#[trigger] cs[n]) by {
            assert(crate::order::text_lt(
                crate::delta::path_of(cs[k]),
                crate::delta::path_of(cs[n]),
            ));
            crate::order::lemma_lex_irreflexive(
                vstd::utf8::encode_utf8(crate::delta::path_of(cs[k])),
            );
        }
    }
}

/// A batch gives changes where every location was found. Where one is gone the store has to be
/// scanned again, and where one could not be looked up the batch fails for that reason; the
/// first such location decides.
pub proof fn law_lost_locations_end_a_batch(
    w: WatchedView,
    ls: Seq<LookedUpView>,
    r: Result<WatchBatch, String>,
    i: int,
)
    requires
        crate::watch::batch_of(crate::watch::gathered(w, ls), r),
        0 <= i <= ls.len(),
        forall|j: int| 0 <= j < i ==> (#[trigger] ls[j]).found is Found,
        i < ls.len() ==> !(ls[i].found is Found),
    ensures
        i == ls.len() ==> r matches Ok(WatchBatch::Changes(_)),
        i < ls.len() && ls[i].found is Gone ==> r matches Ok(WatchBatch::RescanRequired(_)),
        i < ls.len() && ls[i].found is Failed ==> r is Err && r->Err_0@ == ls[i].found->Failed_0,
{
    lemma_found_so_far(w, ls, i);
    assert(ls.take(ls.len() as int) =~= ls);
    if i < ls.len() {
        assert(ls.take(i + 1).drop_last() =~= ls.take(i));
        assert(ls.take(i + 1).last() == ls[i]);
        lemma_ended(w, ls, i + 1);
    }
}

proof fn lemma_found_so_far(w: WatchedView, ls: Seq<LookedUpView>, i: int)
    requires
        0 <= i <= ls.len(),
        forall|j: int| 0 <= j < i ==> (#[trigger] ls[j]).found is Found,
    ensures
        crate::watch::gathered(w, ls.take(i)) is Changes,
    decreases i,
{
    if i > 0 {
        lemma_found_so_far(w, ls, i - 1);
        assert(ls.take(i).drop_last() =~= ls.take(i - 1));
        assert(ls.take(i).last() == ls[i - 1]);
    }
}

proof fn lemma_ended(w: WatchedView, ls: Seq<LookedUpView>, n: int)
    requires
        0 < n <= ls.len(),
        !(crate::watch::gathered(w, ls.take(n)) is Changes),
    ensures
        crate::watch::gathered(w, ls) == crate::watch::gathered(w, ls.take(n)),
    decreases ls.len(),
{
    if n == ls.len() {
        assert(ls.take(n) =~= ls);
    } else {
        assert(ls.drop_last().take(n) =~= ls.take(n));
        lemma_ended(w, ls.drop_last(), n);
    }
}

/// A rename: one location with the old name and one with the new come to a removal of the one
/// and a record of the other.
#[verifier::rlimit(40)]
pub proof fn law_renamed_files_are_found_under_their_new_name(
    w: WatchedView,
    ls: Seq<LookedUpView>,
    r: Result<WatchBatch, String>,
    i: int,
    j: int,
    old_path: Seq<char>,
    new_path: Seq<char>,
    s: FileStat,
    parent: u64,
)
    requires
        crate::watch::batch_of(crate::watch::gathered(w, ls), r),
        r matches Ok(WatchBatch::Changes(_)),
        0 <= i < ls.len(),
        0 <= j < ls.len(),
        ls[i].named && ls[i].role == Role::Old,
        ls[j].named && ls[j].role == Role::New,
        ls[i].found is Found && ls[i].found->Found_path == old_path,
        ls[j].found == (ResolutionView::Found { path: new_path, stat: Some(s), parent }),
        cared_for(w, old_path),
        cared_for(w, new_path),
        forall|k: int|
            i < k < ls.len() ==> !((#[trigger] ls[k]).found is Found && ls[k].found->Found_path
                == old_path),
        forall|k: int|
            j < k < ls.len() ==> !((#[trigger] ls[k]).found is Found && ls[k].found->Found_path
                == new_path),
    ensures
        ({
            let cs = crate::store::change_views(r->Ok_0->Changes_0@);
            &&& cs.contains(ChangeView::Remove(old_path))
            &&& exists|k: int|
                0 <= k < cs.len() && (#[trigger] cs[k]) is Upsert && describes(
                    w,
                    cs[k]->Upsert_0,
                    new_path,
                    s,
                    parent,
                )
            &&& !cs.contains(ChangeView::Remove(new_path))
        }),
{
    let cs = crate::store::change_views(r->Ok_0->Changes_0@);
    law_the_last_word_on_a_path_stands(w, ls, r);
    assert(last_word(w, ls, old_path, i));
    assert(last_word(w, ls, new_path, j));
    let a = choose|k: int| 0 <= k < cs.len() && #[trigger] last_word_stands(w, ls[i], old_path, cs[k]);
    assert(cs[a] == ChangeView::Remove(old_path));
    let b = choose|k: int| 0 <= k < cs.len() && #[trigger] last_word_stands(w, ls[j], new_path, cs[k]);
    assert(cs[b] is Upsert);
    if cs.contains(ChangeView::Remove(new_path)) {
        let c = cs.index_of(ChangeView::Remove(new_path));
        if b < c {
            assert(crate::delta::path_of(cs[b]) != crate::delta::path_of(cs[c]));
        } else if c < b {
            assert(crate::delta::path_of(cs[c]) != crate::delta::path_of(cs[b]));
        }
    }
}

// ---------------------------------------------------------------------------
// Events

/// An event buffer cannot be followed by changes alone where events were lost, where a folder
/// was moved, or where a kernel that does not pair the sides of a move tells of one; and can in
/// every other case.
pub proof fn law_lost_and_unpaired_events_ask_for_a_scan(es: Seq<EventView>, atomic_rename: bool)
    ensures
        crate::watch::rescan_of(es, atomic_rename) is Some <==> exists|i: int|
            0 <= i < es.len() && ({
                let m = (#[trigger] es[i]).mask;
                let moved = m & 0x40 != 0 || m & 0x80 != 0;
                ||| m & 0x4000 != 0
                ||| m & 0x4000_0000 != 0 && (moved || m & 0x1000_0000 != 0)
                ||| !atomic_rename && moved
            }),
{
    assert(crate::watch::FAN_MOVE | crate::watch::FAN_RENAME == 0x1000_00c0) by (bit_vector);
    assert forall|i: int| 0 <= i < es.len() implies ((#[trigger] es[i]).mask & 0xc0 != 0) == (
    es[i].mask & 0x40 != 0 || es[i].mask & 0x80 != 0) && (es[i].mask & 0x1000_00c0 != 0) == (
    es[i].mask & 0x40 != 0 || es[i].mask & 0x80 != 0 || es[i].mask & 0x1000_0000 != 0) by {
        lemma_moves(es[i].mask);
    }
}

proof fn lemma_moves(m: u64)
    ensures
        (m & 0xc0 != 0) == (m & 0x40 != 0 || m & 0x80 != 0),
        (m & 0x1000_00c0 != 0) == (m & 0x40 != 0 || m & 0x80 != 0 || m & 0x1000_0000 != 0),
{
    assert((m & 0xc0 != 0) == (m & 0x40 != 0 || m & 0x80 != 0)) by (bit_vector);
    assert((m & 0x1000_00c0 != 0) == (m & 0x40 != 0 || m & 0x80 != 0 || m & 0x1000_0000 != 0))
        by (bit_vector);
}

// ---------------------------------------------------------------------------
// The buffer of the kernel

/// An information record at the front of some bytes tells of a name: its type, its length, the
/// filesystem, a handle with its length and type, and the name up to a zero byte.
pub open spec fn names_a_location(s: Seq<u8>, role: Role, handle: Seq<u8>, name: Seq<u8>, end: int) -> bool {
    let n = name.len() as int;
    let h = handle.len() as int;
    &&& end <= s.len()
    &&& 12 + h + n + 1 <= end
    &&& h >= 8
    &&& (s[0] == 2 && role == Role::Current) || (s[0] == 10 && role == Role::Old) || (s[0] == 12
        && role == Role::New)
    &&& crate::layout::two(s, 2) == end
    &&& crate::layout::four(s, 12) == h - 8
    &&& s.subrange(12, 12 + h) == handle
    &&& s.subrange(12 + h, 12 + h + n) == name
    &&& !name.contains(0u8)
    &&& s[12 + h + n] == 0
}

proof fn lemma_nul(name: Seq<u8>, rest: Seq<u8>)
    requires
        !name.contains(0u8),
        rest.len() > 0,
        rest[0] == 0,
    ensures
        crate::watch::nul_at(name + rest) == name.len(),
    decreases name.len(),
{
    if name.len() == 0 {
        assert(name + rest =~= rest);
    } else {
        let less = name.skip(1);
        assert(!less.contains(0u8)) by {
            if less.contains(0u8) {
                let i = less.index_of(0u8);
                assert(name[i + 1] == 0u8);
            }
        }
        assert(name.contains(name[0]));
        lemma_nul(less, rest);
        assert((name + rest).skip(1) =~= less + rest);
    }
}

/// A record that tells of a name is read as that name in the folder of its handle, and what
/// follows it is read on its own.
pub proof fn law_locations_are_read_as_laid_out(
    s: Seq<u8>,
    role: Role,
    handle: Seq<u8>,
    name: Seq<u8>,
    end: int,
)
    requires
        names_a_location(s, role, handle, name, end),
    ensures
        match crate::watch::locations_in(s.skip(end)) {
            Ok(rest) => crate::watch::locations_in(s) == Ok::<
                Seq<LocationView>,
                crate::watch::WatchError,
            >(seq![LocationView { role, handle, name: Some(name) }] + rest),
            Err(e) => crate::watch::locations_in(s) == Err::<
                Seq<LocationView>,
                crate::watch::WatchError,
            >(e),
        },
{
    let info = s.take(end);
    let h = handle.len() as int;
    let n = name.len() as int;
    crate::layout::law_numbers_are_read_as_laid_out(s, 2);
    crate::layout::law_numbers_are_read_as_laid_out(info, 12);
    assert(crate::layout::four(info, 12) == crate::layout::four(s, 12)) by {
        reveal(crate::layout::four);
    }
    assert(info.subrange(12, 12 + h) =~= handle);
    let rest = info.skip(12 + h);
    let tail = rest.skip(n);
    assert(rest =~= name + tail) by {
        assert forall|i: int| 0 <= i < n implies rest[i] == name[i] by {
            assert(s.subrange(12 + h, 12 + h + n)[i] == s[12 + h + i]);
        }
    }
    assert(tail[0] == s[12 + h + n]);
    lemma_nul(name, tail);
    assert(rest.take(n) =~= name);
}

/// An event at the front of a buffer: its length, the version of the format, the length of its
/// fixed part and its mask, and its information records up to its end.
pub open spec fn event_in_front(s: Seq<u8>, mask: u64, fixed: int, end: int) -> bool {
    &&& 24 <= fixed <= end <= s.len()
    &&& crate::layout::four(s, 0) == end
    &&& s[4] == 3
    &&& crate::layout::two(s, 6) == fixed
    &&& crate::layout::eight(s, 8) == mask
}

/// An event is read with its mask and its locations, and what follows it is read on its own.
pub proof fn law_events_are_read_as_laid_out(
    s: Seq<u8>,
    mask: u64,
    fixed: int,
    end: int,
    locations: Seq<LocationView>,
    others: Seq<EventView>,
)
    requires
        event_in_front(s, mask, fixed, end),
        crate::watch::locations_in(s.subrange(fixed, end)) == Ok::<
            Seq<LocationView>,
            crate::watch::WatchError,
        >(locations),
        crate::watch::events_in(s.skip(end)) == Ok::<Seq<EventView>, crate::watch::WatchError>(
            others,
        ),
    ensures
        crate::watch::events_in(s) == Ok::<Seq<EventView>, crate::watch::WatchError>(
            seq![EventView { mask, locations }] + others,
        ),
{
    crate::layout::law_numbers_are_read_as_laid_out(s, 0);
    crate::layout::law_numbers_are_read_as_laid_out(s, 6);
    crate::layout::law_numbers_are_read_as_laid_out(s, 8);
}

/// Of an event every location with a name is looked up, in order; where there is none, and the
/// attributes of the object changed or a writer closed it, the first location that is the
/// object; and nothing else.
#[verifier::rlimit(40)]
pub proof fn law_named_locations_are_looked_up(e: EventView, i: int)
    requires
        0 <= i < e.locations.len(),
    ensures
        (exists|k: int| 0 <= k < e.locations.len() && (#[trigger] e.locations[k]).name is Some) ==> (
        crate::watch::to_look_up(e).contains(i) <==> e.locations[i].name is Some),
        !(exists|k: int| 0 <= k < e.locations.len() && (#[trigger] e.locations[k]).name is Some)
            ==> (crate::watch::to_look_up(e).contains(i) <==> (e.mask & 0x4 != 0 || e.mask & 0x8
            != 0) && e.locations[i].role == Role::Object && forall|k: int|
            0 <= k < i ==> (#[trigger] e.locations[k]).role != Role::Object),
{
    let m = e.mask;
    assert((m & 0xc != 0) == (m & 0x4 != 0 || m & 0x8 != 0)) by (bit_vector);
    lemma_named(e.locations, i);
    lemma_object(e.locations);
    let names = crate::watch::named_positions(e.locations);
    if exists|k: int| 0 <= k < e.locations.len() && (#[trigger] e.locations[k]).name is Some {
        let k = choose|k: int| 0 <= k < e.locations.len() && (#[trigger] e.locations[k]).name is Some;
        lemma_named(e.locations, k);
        assert(names.contains(k));
        assert(names.len() > 0);
    } else {
        if names.len() > 0 {
            lemma_positions_within(e.locations, 0);
            lemma_named(e.locations, names[0]);
            assert(names.contains(names[0]));
        }
        let found = crate::watch::object_position(e.locations);
        if found is Some {
            assert(seq![found->0].contains(i) <==> i == found->0) by {
                assert(seq![found->0][0] == found->0);
            }
        }
    }
}

proof fn lemma_positions_within(ls: Seq<LocationView>, j: int)
    requires
        0 <= j < crate::watch::named_positions(ls).len(),
    ensures
        0 <= crate::watch::named_positions(ls)[j] < ls.len(),
    decreases ls.len(),
{
    let less = ls.drop_last();
    if j < crate::watch::named_positions(less).len() {
        lemma_positions_within(less, j);
    }
}

proof fn lemma_named(ls: Seq<LocationView>, i: int)
    requires
        0 <= i < ls.len(),
    ensures
        crate::watch::named_positions(ls).contains(i) <==> ls[i].name is Some,
    decreases ls.len(),
{
    let less = ls.drop_last();
    let front = crate::watch::named_positions(less);
    let all = crate::watch::named_positions(ls);
    let last = ls.len() - 1;
    if i < last {
        lemma_named(less, i);
        if front.contains(i) {
            let k = front.index_of(i);
            assert(all[k] == i);
        }
        if all.contains(i) {
            let k = all.index_of(i);
            assert(k < front.len());
            assert(front[k] == i);
        }
    } else {
        if ls.last().name is Some {
            assert(all[front.len() as int] == i);
        } else if all.contains(i) {
            let k = all.index_of(i);
            lemma_positions_within(less, k);
        }
    }
}

proof fn lemma_object(ls: Seq<LocationView>)
    ensures
        match crate::watch::object_position(ls) {
            Some(i) => 0 <= i < ls.len() && ls[i].role == Role::Object && forall|k: int|
                0 <= k < i ==> (#[trigger] ls[k]).role != Role::Object,
            None => forall|k: int| 0 <= k < ls.len() ==> (#[trigger] ls[k]).role != Role::Object,
        },
    decreases ls.len(),
{
    if ls.len() > 0 {
        let less = ls.drop_last();
        lemma_object(less);
        match crate::watch::object_position(less) {
            Some(i) => {
                assert(less[i] == ls[i]);
                assert forall|k: int| 0 <= k < i implies (#[trigger] ls[k]).role != Role::Object by {
                    assert(less[k] == ls[k]);
                }
            },
            None => {
                assert forall|k: int| 0 <= k < ls.len() - 1 implies (#[trigger] ls[k]).role
                    != Role::Object by {
                    assert(less[k] == ls[k]);
                }
            },
        }
    }
}

} // verus!
