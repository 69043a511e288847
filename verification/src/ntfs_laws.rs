//! What the records of a master file table say, byte by byte, and which files come of them.

use crate::layout::{eight, four, two};
use crate::ntfs::{
    AliasView, EntryTable, EntryView, Extent, FactsView, Geometry, MftView, NtfsError, ParsedView, Run,
};
use crate::types::{FileKind, RecordView};
use vstd::prelude::*;

verus! {

// ---------------------------------------------------------------------------
// Attributes

/// The attributes of a record stand one behind the other: the first where the record says, each
/// as long as it says, up to the end mark or the end of the record. The last position is where
/// they end.
pub open spec fn attributes_stand_at(rec: Seq<u8>, ps: Seq<int>) -> bool {
    let n = ps.len() - 1;
    &&& rec.len() >= 22
    &&& n >= 0
    &&& ps[0] == two(rec, 20)
    &&& forall|i: int|
        0 <= i < n ==> {
            let p = #[trigger] ps[i];
            &&& 0 <= p
            &&& p + 16 <= rec.len()
            &&& four(rec, p) != 0xffff_ffff
            &&& four(rec, p + 4) >= 16
            &&& p + four(rec, p + 4) <= rec.len()
            &&& ps[i + 1] == p + four(rec, p + 4)
        }
    &&& ps[n] + 16 > rec.len() || four(rec, ps[n]) == 0xffff_ffff
}

/// An attribute of a type that holds its content itself: `n` bytes at `c`.
pub open spec fn content_at(rec: Seq<u8>, p: int, typ: nat, c: int, n: int) -> bool {
    &&& four(rec, p) == typ
    &&& rec[p + 8] == 0
    &&& p + 22 <= rec.len()
    &&& n == four(rec, p + 16)
    &&& c == p + two(rec, p + 20)
    &&& c + n <= p + four(rec, p + 4)
}

/// What the first `i` attributes say.
spec fn facts_of(rec: Seq<u8>, ps: Seq<int>, i: nat, header_dir: bool) -> FactsView
    decreases i,
{
    if i == 0 {
        crate::ntfs::no_facts()
    } else {
        crate::ntfs::with_attribute(
            facts_of(rec, ps, (i - 1) as nat, header_dir),
            rec,
            ps[i - 1],
            four(rec, ps[i - 1] + 4) as int,
            two(rec, 16) as u16,
            header_dir,
        )
    }
}

proof fn lemma_facts_from(rec: Seq<u8>, ps: Seq<int>, i: nat, header_dir: bool)
    requires
        attributes_stand_at(rec, ps),
        i < ps.len(),
    ensures
        crate::ntfs::facts_from(
            facts_of(rec, ps, i, header_dir),
            rec,
            ps[i as int],
            two(rec, 16) as u16,
            header_dir,
        ) == facts_of(rec, ps, (ps.len() - 1) as nat, header_dir),
    decreases ps.len() - i,
{
    let p = ps[i as int];
    let n = ps.len() - 1;
    if i < n {
        crate::layout::law_numbers_are_read_as_laid_out(rec, p);
        crate::layout::law_numbers_are_read_as_laid_out(rec, p + 4);
        lemma_facts_from(rec, ps, i + 1, header_dir);
    } else {
        if n > 0 {
            assert(ps[n - 1] >= 0);
        }
        if p + 16 <= rec.len() {
            crate::layout::law_numbers_are_read_as_laid_out(rec, p);
        }
    }
}

proof fn lemma_parsed(rec: Seq<u8>, ps: Seq<int>, header_dir: bool)
    requires
        attributes_stand_at(rec, ps),
    ensures
        crate::ntfs::parsed_record(rec, header_dir) == Ok::<Option<ParsedView>, NtfsError>(
            crate::ntfs::concluded(facts_of(rec, ps, (ps.len() - 1) as nat, header_dir)),
        ),
{
    crate::layout::law_numbers_are_read_as_laid_out(rec, 20);
    crate::layout::law_numbers_are_read_as_laid_out(rec, 16);
    lemma_facts_from(rec, ps, 0, header_dir);
}

/// What one attribute does to the facts that were known.
#[verifier::rlimit(40)]
proof fn lemma_attribute(rec: Seq<u8>, ps: Seq<int>, i: int, f: FactsView, sequence: u16, header_dir: bool)
    requires
        attributes_stand_at(rec, ps),
        0 <= i < ps.len() - 1,
    ensures
        ({
            let p = ps[i];
            let g = crate::ntfs::with_attribute(
                f,
                rec,
                p,
                four(rec, p + 4) as int,
                sequence,
                header_dir,
            );
            &&& four(rec, p) != 0x10 ==> g.mtime == f.mtime
            &&& four(rec, p) != 0x80 || rec[p + 9] != 0 ==> g.data_size == f.data_size
            &&& four(rec, p) != 0x30 ==> g.best == f.best && g.names == f.names
            &&& g.listed == (f.listed || four(rec, p) == 0x20)
        }),
{
    crate::layout::law_numbers_are_read_as_laid_out(rec, ps[i]);
}

proof fn lemma_time_stays(rec: Seq<u8>, ps: Seq<int>, k: nat, m: nat, header_dir: bool)
    requires
        attributes_stand_at(rec, ps),
        k <= m < ps.len(),
        forall|j: int| k <= j < m ==> four(rec, #[trigger] ps[j]) != 0x10,
    ensures
        facts_of(rec, ps, m, header_dir).mtime == facts_of(rec, ps, k, header_dir).mtime,
    decreases m,
{
    if k < m {
        lemma_time_stays(rec, ps, k, (m - 1) as nat, header_dir);
        lemma_attribute(
            rec,
            ps,
            m - 1,
            facts_of(rec, ps, (m - 1) as nat, header_dir),
            two(rec, 16) as u16,
            header_dir,
        );
    }
}

#[verifier::rlimit(40)]
proof fn lemma_time_set(rec: Seq<u8>, p: int, c: int, n: int, len: int, f: FactsView, header_dir: bool)
    requires
        0 <= p,
        len == four(rec, p + 4),
        p + len <= rec.len(),
        content_at(rec, p, 0x10, c, n),
        n >= 16,
    ensures
        crate::ntfs::with_attribute(f, rec, p, len, two(rec, 16) as u16, header_dir).mtime as int
            == eight(rec, c + 8) / 10_000_000 - 11_644_473_600,
{
    crate::layout::law_numbers_are_read_as_laid_out(rec, p);
    crate::layout::law_numbers_are_read_as_laid_out(rec, p + 16);
    crate::layout::law_numbers_are_read_as_laid_out(rec, p + 20);
    crate::layout::law_numbers_are_read_as_laid_out(rec, c + 8);
    let v = rec.subrange(c, c + n);
    assert(v.subrange(8, 16) =~= rec.subrange(c + 8, c + 16));
    let t = eight(rec, c + 8);
    assert(t / 10_000_000 <= 0x1_0000_0000_0000_0000nat / 10_000_000);
}

/// The time of a file is the second of the times in its standard information, the one of the
/// last modification: a count of tenths of microseconds since 1601, as seconds since 1970. No
/// other byte of the record has a say in it.
pub proof fn law_the_time_of_modification_is_read(
    rec: Seq<u8>,
    ps: Seq<int>,
    k: int,
    c: int,
    n: int,
    header_dir: bool,
    v: ParsedView,
)
    requires
        attributes_stand_at(rec, ps),
        0 <= k < ps.len() - 1,
        content_at(rec, ps[k], 0x10, c, n),
        n >= 16,
        forall|j: int| k < j < ps.len() - 1 ==> four(rec, #[trigger] ps[j]) != 0x10,
        crate::ntfs::parsed_record(rec, header_dir) == Ok::<Option<ParsedView>, NtfsError>(Some(v)),
    ensures
        v.entry.mtime as int == eight(rec, c + 8) / 10_000_000 - 11_644_473_600,
{
    let p = ps[k];
    let last = (ps.len() - 1) as nat;
    lemma_parsed(rec, ps, header_dir);
    lemma_time_set(
        rec,
        p,
        c,
        n,
        four(rec, p + 4) as int,
        facts_of(rec, ps, k as nat, header_dir),
        header_dir,
    );
    lemma_time_stays(rec, ps, (k + 1) as nat, last, header_dir);
}

/// A record without standard information has no time.
pub proof fn law_without_information_there_is_no_time(
    rec: Seq<u8>,
    ps: Seq<int>,
    header_dir: bool,
    v: ParsedView,
)
    requires
        attributes_stand_at(rec, ps),
        forall|j: int| 0 <= j < ps.len() - 1 ==> four(rec, #[trigger] ps[j]) != 0x10,
        crate::ntfs::parsed_record(rec, header_dir) == Ok::<Option<ParsedView>, NtfsError>(Some(v)),
    ensures
        v.entry.mtime == 0,
{
    lemma_parsed(rec, ps, header_dir);
    lemma_time_stays(rec, ps, 0, (ps.len() - 1) as nat, header_dir);
}

proof fn lemma_data_stays(rec: Seq<u8>, ps: Seq<int>, k: nat, m: nat, header_dir: bool)
    requires
        attributes_stand_at(rec, ps),
        k <= m < ps.len(),
        forall|j: int| k <= j < m ==> four(rec, #[trigger] ps[j]) != 0x80 || rec[ps[j] + 9] != 0,
    ensures
        facts_of(rec, ps, m, header_dir).data_size == facts_of(rec, ps, k, header_dir).data_size,
    decreases m,
{
    if k < m {
        lemma_data_stays(rec, ps, k, (m - 1) as nat, header_dir);
        lemma_attribute(
            rec,
            ps,
            m - 1,
            facts_of(rec, ps, (m - 1) as nat, header_dir),
            two(rec, 16) as u16,
            header_dir,
        );
    }
}

#[verifier::rlimit(40)]
proof fn lemma_size_set(rec: Seq<u8>, p: int, c: int, n: int, len: int, f: FactsView, header_dir: bool)
    requires
        0 <= p,
        len == four(rec, p + 4),
        16 <= len,
        p + len <= rec.len(),
        four(rec, p) == 0x80,
        rec[p + 9] == 0,
        content_at(rec, p, 0x80, c, n) || (rec[p + 8] != 0 && len >= 64),
    ensures
        ({
            let size = crate::ntfs::with_attribute(
                f,
                rec,
                p,
                len,
                two(rec, 16) as u16,
                header_dir,
            ).data_size;
            &&& size is Some
            &&& rec[p + 8] == 0 ==> size->0 as int == n
            &&& rec[p + 8] != 0 ==> size->0 as int == eight(rec, p + 48)
        }),
{
    crate::layout::law_numbers_are_read_as_laid_out(rec, p);
    crate::layout::law_numbers_are_read_as_laid_out(rec, p + 16);
    crate::layout::law_numbers_are_read_as_laid_out(rec, p + 20);
    crate::layout::law_numbers_are_read_as_laid_out(rec, p + 48);
}

/// The size of a file is that of its data without a name: as many bytes as the attribute holds
/// itself, or, where the data lie elsewhere, the size that the attribute states. Data with a
/// name do not count.
pub proof fn law_the_size_is_that_of_the_data(
    rec: Seq<u8>,
    ps: Seq<int>,
    k: int,
    c: int,
    n: int,
    header_dir: bool,
    v: ParsedView,
)
    requires
        attributes_stand_at(rec, ps),
        0 <= k < ps.len() - 1,
        four(rec, ps[k]) == 0x80,
        rec[ps[k] + 9] == 0,
        content_at(rec, ps[k], 0x80, c, n) || (rec[ps[k] + 8] != 0 && four(rec, ps[k] + 4) >= 64),
        forall|j: int|
            k < j < ps.len() - 1 ==> four(rec, #[trigger] ps[j]) != 0x80 || rec[ps[j] + 9] != 0,
        crate::ntfs::parsed_record(rec, header_dir) == Ok::<Option<ParsedView>, NtfsError>(Some(v)),
    ensures
        rec[ps[k] + 8] == 0 ==> v.entry.size as int == n,
        rec[ps[k] + 8] != 0 ==> v.entry.size as int == eight(rec, ps[k] + 48),
{
    let p = ps[k];
    lemma_parsed(rec, ps, header_dir);
    lemma_size_set(
        rec,
        p,
        c,
        n,
        four(rec, p + 4) as int,
        facts_of(rec, ps, k as nat, header_dir),
        header_dir,
    );
    lemma_data_stays(rec, ps, (k + 1) as nat, (ps.len() - 1) as nat, header_dir);
}

/// A record is marked as listing attributes elsewhere where it has an attribute that does.
pub proof fn law_attribute_lists_are_noticed(
    rec: Seq<u8>,
    ps: Seq<int>,
    header_dir: bool,
    v: ParsedView,
)
    requires
        attributes_stand_at(rec, ps),
        crate::ntfs::parsed_record(rec, header_dir) == Ok::<Option<ParsedView>, NtfsError>(Some(v)),
    ensures
        v.listed <==> exists|j: int| 0 <= j < ps.len() - 1 && four(rec, #[trigger] ps[j]) == 0x20,
{
    lemma_parsed(rec, ps, header_dir);
    lemma_listed(rec, ps, (ps.len() - 1) as nat, header_dir);
}

proof fn lemma_listed(rec: Seq<u8>, ps: Seq<int>, m: nat, header_dir: bool)
    requires
        attributes_stand_at(rec, ps),
        m < ps.len(),
    ensures
        facts_of(rec, ps, m, header_dir).listed <==> exists|j: int|
            0 <= j < m && four(rec, #[trigger] ps[j]) == 0x20,
    decreases m,
{
    if m > 0 {
        lemma_listed(rec, ps, (m - 1) as nat, header_dir);
        lemma_attribute(
            rec,
            ps,
            m - 1,
            facts_of(rec, ps, (m - 1) as nat, header_dir),
            two(rec, 16) as u16,
            header_dir,
        );
        if facts_of(rec, ps, m, header_dir).listed && four(rec, ps[m - 1]) != 0x20 {
            let j = choose|j: int| 0 <= j < m - 1 && four(rec, #[trigger] ps[j]) == 0x20;
            assert(0 <= j < m);
        }
    }
}

// ---------------------------------------------------------------------------
// Names

/// Where the content of an attribute begins.
pub open spec fn content_of(rec: Seq<u8>, p: int) -> int {
    p + two(rec, p + 20)
}

/// The file name in an attribute, in the units that it is written in.
pub open spec fn name_in(rec: Seq<u8>, p: int) -> Seq<char> {
    let c = content_of(rec, p);
    crate::text::utf16_text(
        Seq::new(rec[c + 64] as nat, |i: int| two(rec, c + 66 + 2 * i) as u16),
    )
}

/// The attribute names the file: it is a file name, all of it is there, and it is not `.` or
/// `..`.
pub open spec fn names_the_file(rec: Seq<u8>, p: int) -> bool {
    let c = content_of(rec, p);
    &&& content_at(rec, p, 0x30, c, four(rec, p + 16) as int)
    &&& four(rec, p + 16) >= 66
    &&& 66 + 2 * rec[c + 64] <= four(rec, p + 16)
    &&& name_in(rec, p) != "."@
    &&& name_in(rec, p) != ".."@
}

/// How good a name is: a long name is the best, one of another system comes next, and a short
/// one after that.
pub open spec fn how_good(rec: Seq<u8>, p: int) -> int {
    let space = rec[content_of(rec, p) + 65];
    if space == 1 || space == 3 {
        3
    } else if space == 0 {
        2
    } else if space == 2 {
        1
    } else {
        0
    }
}

/// The entry has the name of an attribute, and the folder that stands beside it.
pub open spec fn is_named_by(e: EntryView, rec: Seq<u8>, p: int, header_dir: bool) -> bool {
    let c = content_of(rec, p);
    &&& e.name == name_in(rec, p)
    &&& e.parent as int == eight(rec, c) % 0x1_0000_0000_0000
    &&& e.parent_sequence as int == eight(rec, c) / 0x1_0000_0000_0000
    &&& e.sequence as int == two(rec, 16)
    &&& e.dir == (header_dir || four(rec, c + 56) / 0x1000_0000 % 2 == 1)
}

/// The alias is the name of an attribute in the folder that stands beside it.
#[verifier::opaque]
pub open spec fn is_alias_of(a: AliasView, rec: Seq<u8>, p: int) -> bool {
    let c = content_of(rec, p);
    &&& a.name == name_in(rec, p)
    &&& a.parent as int == eight(rec, c) % 0x1_0000_0000_0000
}

spec fn goodness(best: Option<(u8, EntryView)>) -> int {
    match best {
        Some((good, _)) => good as int,
        None => -1,
    }
}

spec fn chosen(best: Option<(u8, EntryView)>) -> EntryView {
    match best {
        Some((_, e)) => e,
        None => arbitrary(),
    }
}

/// The content of an attribute is a whole file name.
spec fn whole_name(rec: Seq<u8>, p: int) -> bool {
    let n = four(rec, p + 16);
    &&& content_at(rec, p, 0x30, content_of(rec, p), n as int)
    &&& n >= 66
}

#[verifier::rlimit(40)]
proof fn lemma_taken_up(
    f: FactsView,
    rec: Seq<u8>,
    p: int,
    len: int,
    sequence: u16,
    header_dir: bool,
)
    requires
        0 <= p,
        16 <= len,
        p + len <= rec.len(),
        len == four(rec, p + 4),
        four(rec, p) == 0x30,
    ensures
        ({
            let g = crate::ntfs::with_attribute(f, rec, p, len, sequence, header_dir);
            let c = content_of(rec, p);
            if whole_name(rec, p) {
                g == crate::ntfs::with_name(
                    f,
                    rec.subrange(c, c + four(rec, p + 16)),
                    sequence,
                    header_dir,
                )
            } else {
                g == f
            }
        }),
{
    crate::layout::law_numbers_are_read_as_laid_out(rec, p);
    crate::layout::law_numbers_are_read_as_laid_out(rec, p + 16);
    crate::layout::law_numbers_are_read_as_laid_out(rec, p + 20);
}

#[verifier::rlimit(40)]
proof fn lemma_name_read(rec: Seq<u8>, p: int)
    requires
        0 <= p,
        p + four(rec, p + 4) <= rec.len(),
        whole_name(rec, p),
    ensures
        ({
            let c = content_of(rec, p);
            let v = rec.subrange(c, c + four(rec, p + 16));
            &&& crate::bytes::le_value(v.subrange(0, 8)) == eight(rec, c)
            &&& crate::bytes::le_value(v.subrange(48, 56)) == eight(rec, c + 48)
            &&& crate::bytes::le_value(v.subrange(56, 60)) == four(rec, c + 56)
            &&& eight(rec, c) < 0x1_0000_0000_0000_0000
            &&& eight(rec, c + 48) < 0x1_0000_0000_0000_0000
            &&& v[64] == rec[c + 64]
            &&& v[65] == rec[c + 65]
            &&& 66 + 2 * rec[c + 64] <= v.len() ==> crate::text::utf16_text(
                crate::ntfs::units_of(v.subrange(66, 66 + 2 * (v[64] as int))),
            ) == name_in(rec, p)
        }),
{
    let c = content_of(rec, p);
    let v = rec.subrange(c, c + four(rec, p + 16));
    crate::layout::law_numbers_are_read_as_laid_out(rec, p + 20);
    crate::layout::law_numbers_are_read_as_laid_out(rec, c);
    crate::layout::law_numbers_are_read_as_laid_out(rec, c + 48);
    crate::layout::law_numbers_are_read_as_laid_out(rec, c + 56);
    assert(v.subrange(0, 8) =~= rec.subrange(c, c + 8));
    assert(v.subrange(48, 56) =~= rec.subrange(c + 48, c + 56));
    assert(v.subrange(56, 60) =~= rec.subrange(c + 56, c + 60));
    if 66 + 2 * rec[c + 64] <= v.len() {
        let part = v.subrange(66, 66 + 2 * (v[64] as int));
        let units = crate::ntfs::units_of(part);
        let told = Seq::new(rec[c + 64] as nat, |j: int| two(rec, c + 66 + 2 * j) as u16);
        assert(units.len() == told.len());
        assert forall|j: int| 0 <= j < units.len() implies units[j] == told[j] by {
            reveal(two);
            assert(part[2 * j] == rec[c + 66 + 2 * j]);
            assert(part[2 * j + 1] == rec[c + 66 + 2 * j + 1]);
        }
        assert(units =~= told);
    }
}

#[verifier::rlimit(40)]
proof fn lemma_name_attribute(rec: Seq<u8>, ps: Seq<int>, i: int, f: FactsView, header_dir: bool)
    requires
        attributes_stand_at(rec, ps),
        0 <= i < ps.len() - 1,
    ensures
        ({
            let p = ps[i];
            let g = crate::ntfs::with_attribute(
                f,
                rec,
                p,
                four(rec, p + 4) as int,
                two(rec, 16) as u16,
                header_dir,
            );
            let better = f.best is None || how_good(rec, p) > goodness(f.best);
            &&& !names_the_file(rec, p) ==> g.best == f.best && g.names == f.names
            &&& names_the_file(rec, p) && !better ==> g.best == f.best
            &&& names_the_file(rec, p) && better ==> g.best is Some && goodness(g.best) == how_good(
                rec,
                p,
            ) && is_named_by(chosen(g.best), rec, p, header_dir) && chosen(g.best).size as int
                == eight(rec, content_of(rec, p) + 48)
        }),
{
    let p = ps[i];
    let c = content_of(rec, p);
    let len = four(rec, p + 4) as int;
    crate::layout::law_numbers_are_read_as_laid_out(rec, 16);
    if four(rec, p) == 0x30 {
        lemma_taken_up(f, rec, p, len, two(rec, 16) as u16, header_dir);
        if whole_name(rec, p) {
            lemma_name_read(rec, p);
            let reference = eight(rec, c);
            assert(reference / 0x1_0000_0000_0000 < 0x1_0000);
        }
    } else {
        lemma_attribute(rec, ps, i, f, two(rec, 16) as u16, header_dir);
    }
}

/// `k` names the file best so far.
spec fn best_so_far(rec: Seq<u8>, ps: Seq<int>, m: nat, k: int) -> bool {
    &&& 0 <= k < m
    &&& names_the_file(rec, ps[k])
    &&& forall|j: int|
        0 <= j < m && names_the_file(rec, #[trigger] ps[j]) ==> if j < k {
            how_good(rec, ps[j]) < how_good(rec, ps[k])
        } else {
            how_good(rec, ps[j]) <= how_good(rec, ps[k])
        }
}

/// The best name so far is that of the attribute `k`.
spec fn best_is(rec: Seq<u8>, ps: Seq<int>, m: nat, best: Option<(u8, EntryView)>, k: int, header_dir: bool) -> bool {
    &&& best_so_far(rec, ps, m, k)
    &&& goodness(best) == how_good(rec, ps[k])
    &&& is_named_by(chosen(best), rec, ps[k], header_dir)
    &&& chosen(best).size as int == eight(rec, content_of(rec, ps[k]) + 48)
}

#[verifier::rlimit(40)]
proof fn lemma_best(rec: Seq<u8>, ps: Seq<int>, m: nat, header_dir: bool)
    requires
        attributes_stand_at(rec, ps),
        m < ps.len(),
    ensures
        ({
            let best = facts_of(rec, ps, m, header_dir).best;
            &&& best is None ==> forall|j: int| 0 <= j < m ==> !names_the_file(rec, #[trigger] ps[j])
            &&& best is Some ==> exists|k: int| #[trigger]
                best_is(rec, ps, m, best, k, header_dir)
        }),
    decreases m,
{
    if m > 0 {
        let before = (m - 1) as nat;
        let f = facts_of(rec, ps, before, header_dir);
        let g = facts_of(rec, ps, m, header_dir);
        lemma_best(rec, ps, before, header_dir);
        lemma_name_attribute(rec, ps, m - 1, f, header_dir);
        let better = names_the_file(rec, ps[m - 1]) && (f.best is None || how_good(rec, ps[m - 1])
            > goodness(f.best));
        if f.best is Some {
            let k = choose|k: int| #[trigger] best_is(rec, ps, before, f.best, k, header_dir);
            lemma_still_best(rec, ps, before, k);
            if better {
                assert(best_is(rec, ps, m, g.best, m - 1, header_dir));
            } else {
                assert(best_is(rec, ps, m, g.best, k, header_dir));
            }
        } else if better {
            assert(best_so_far(rec, ps, m, m - 1));
            assert(best_is(rec, ps, m, g.best, m - 1, header_dir));
        }
    }
}

proof fn lemma_still_best(rec: Seq<u8>, ps: Seq<int>, m: nat, k: int)
    requires
        best_so_far(rec, ps, m, k),
    ensures
        !names_the_file(rec, ps[m as int]) || how_good(rec, ps[m as int]) <= how_good(rec, ps[k])
            ==> best_so_far(rec, ps, m + 1, k),
        names_the_file(rec, ps[m as int]) && how_good(rec, ps[m as int]) > how_good(rec, ps[k])
            ==> best_so_far(rec, ps, m + 1, m as int),
{
    if names_the_file(rec, ps[m as int]) && how_good(rec, ps[m as int]) > how_good(rec, ps[k]) {
        assert forall|j: int| 0 <= j < m + 1 && names_the_file(rec, #[trigger] ps[j]) implies if j
            < m {
            how_good(rec, ps[j]) < how_good(rec, ps[m as int])
        } else {
            how_good(rec, ps[j]) <= how_good(rec, ps[m as int])
        } by {
            if j < m {
                assert(how_good(rec, ps[j]) <= how_good(rec, ps[k]));
            }
        }
    }
}

/// A record that names its file is read with the best of its names, the first of those that
/// are equally good, and with the folder that stands beside that name. Where it has no data,
/// the size beside the name counts.
#[verifier::rlimit(40)]
pub proof fn law_the_best_name_is_read(rec: Seq<u8>, ps: Seq<int>, k: int, header_dir: bool)
    requires
        attributes_stand_at(rec, ps),
        0 <= k < ps.len() - 1,
        names_the_file(rec, ps[k]),
        forall|j: int|
            0 <= j < k && names_the_file(rec, #[trigger] ps[j]) ==> how_good(rec, ps[j]) < how_good(
                rec,
                ps[k],
            ),
        forall|j: int|
            k < j < ps.len() - 1 && names_the_file(rec, #[trigger] ps[j]) ==> how_good(rec, ps[j])
                <= how_good(rec, ps[k]),
    ensures
        ({
            let r = crate::ntfs::parsed_record(rec, header_dir);
            &&& r is Ok && r->Ok_0 is Some
            &&& is_named_by(r->Ok_0->0.entry, rec, ps[k], header_dir)
            &&& (forall|j: int| 0 <= j < ps.len() - 1 ==> four(rec, #[trigger] ps[j]) != 0x80)
                ==> r->Ok_0->0.entry.size as int == eight(rec, content_of(rec, ps[k]) + 48)
        }),
{
    let last = (ps.len() - 1) as nat;
    lemma_parsed(rec, ps, header_dir);
    lemma_best(rec, ps, last, header_dir);
    let best = facts_of(rec, ps, last, header_dir).best;
    assert(best is Some);
    let i = choose|i: int| #[trigger] best_is(rec, ps, last, best, i, header_dir);
    if i < k {
        assert(how_good(rec, ps[i]) < how_good(rec, ps[k]));
        assert(how_good(rec, ps[k]) <= how_good(rec, ps[i]));
    } else if k < i {
        assert(how_good(rec, ps[k]) < how_good(rec, ps[i]));
        assert(how_good(rec, ps[i]) <= how_good(rec, ps[k]));
    }
    if forall|j: int| 0 <= j < ps.len() - 1 ==> four(rec, #[trigger] ps[j]) != 0x80 {
        lemma_data_stays(rec, ps, 0, last, header_dir);
    }
}

/// A record without a name is no file.
pub proof fn law_without_a_name_there_is_no_file(rec: Seq<u8>, ps: Seq<int>, header_dir: bool)
    requires
        attributes_stand_at(rec, ps),
        forall|j: int| 0 <= j < ps.len() - 1 ==> !names_the_file(rec, #[trigger] ps[j]),
    ensures
        crate::ntfs::parsed_record(rec, header_dir) == Ok::<Option<ParsedView>, NtfsError>(None),
{
    let last = (ps.len() - 1) as nat;
    lemma_parsed(rec, ps, header_dir);
    lemma_best(rec, ps, last, header_dir);
    if facts_of(rec, ps, last, header_dir).best is Some {
        let best = facts_of(rec, ps, last, header_dir).best;
        let i = choose|i: int| #[trigger] best_is(rec, ps, last, best, i, header_dir);
        assert(names_the_file(rec, ps[i]));
    }
}

// ---------------------------------------------------------------------------
// Other names

/// The attribute names the file with more than a short name.
#[verifier::opaque]
pub open spec fn links_the_file(rec: Seq<u8>, p: int) -> bool {
    names_the_file(rec, p) && rec[content_of(rec, p) + 65] != 2
}

#[verifier::rlimit(40)]
proof fn lemma_link_attribute(rec: Seq<u8>, ps: Seq<int>, i: int, f: FactsView, header_dir: bool)
    requires
        attributes_stand_at(rec, ps),
        0 <= i < ps.len() - 1,
    ensures
        ({
            let p = ps[i];
            let g = crate::ntfs::with_attribute(
                f,
                rec,
                p,
                four(rec, p + 4) as int,
                two(rec, 16) as u16,
                header_dir,
            );
            &&& !links_the_file(rec, p) ==> g.names == f.names
            &&& links_the_file(rec, p) ==> {
                ||| g.names == f.names && exists|k: int|
                    0 <= k < f.names.len() && is_alias_of(#[trigger] f.names[k], rec, p)
                ||| g.names.len() == f.names.len() + 1 && g.names.drop_last() == f.names
                    && is_alias_of(g.names.last(), rec, p) && forall|k: int|
                    0 <= k < f.names.len() ==> !is_alias_of(#[trigger] f.names[k], rec, p)
            }
        }),
{
    reveal(links_the_file);
    reveal(is_alias_of);
    let p = ps[i];
    let c = content_of(rec, p);
    let len = four(rec, p + 4) as int;
    if four(rec, p) == 0x30 {
        lemma_taken_up(f, rec, p, len, two(rec, 16) as u16, header_dir);
        if whole_name(rec, p) {
            lemma_name_read(rec, p);
            if links_the_file(rec, p) {
                let parent = (eight(rec, c) % 0x1_0000_0000_0000) as u64;
                let name = name_in(rec, p);
                let g = crate::ntfs::with_attribute(
                    f,
                    rec,
                    p,
                    len,
                    two(rec, 16) as u16,
                    header_dir,
                );
                if crate::ntfs::names_it(f.names, parent, name) {
                    let k = choose|k: int|
                        0 <= k < f.names.len() && (#[trigger] f.names[k]).parent == parent
                            && f.names[k].name == name;
                    assert(is_alias_of(f.names[k], rec, p));
                } else {
                    assert(g.names.drop_last() =~= f.names);
                    assert forall|k: int| 0 <= k < f.names.len() implies !is_alias_of(
                        #[trigger] f.names[k],
                        rec,
                        p,
                    ) by {
                        assert(!(f.names[k].parent == parent && f.names[k].name == name));
                    }
                }
            }
        }
    } else {
        lemma_attribute(rec, ps, i, f, two(rec, 16) as u16, header_dir);
    }
}

/// The alias is a name of one of the first `m` attributes, and more than a short one.
pub open spec fn is_a_link(a: AliasView, rec: Seq<u8>, ps: Seq<int>, m: int) -> bool {
    exists|k: int|
        0 <= k < m && links_the_file(rec, #[trigger] ps[k]) && is_alias_of(a, rec, ps[k])
}

/// Every name of the first `m` attributes that is more than a short one is among the names,
/// and each of the names is one of theirs, once.
spec fn names_are_those(rec: Seq<u8>, ps: Seq<int>, m: nat, names: Seq<AliasView>) -> bool {
    &&& forall|k: int|
        0 <= k < m && links_the_file(rec, #[trigger] ps[k]) ==> exists|a: int|
            0 <= a < names.len() && is_alias_of(#[trigger] names[a], rec, ps[k])
    &&& forall|a: int|
        0 <= a < names.len() ==> is_a_link(#[trigger] names[a], rec, ps, m as int)
    &&& forall|a: int, b: int|
        0 <= a < b < names.len() ==> (#[trigger] names[a]).parent != (#[trigger] names[b]).parent
            || names[a].name != names[b].name
}

/// One more attribute leaves the names as they are, or adds the one that it has.
spec fn one_more(rec: Seq<u8>, p: int, f: Seq<AliasView>, g: Seq<AliasView>) -> bool {
    ||| g == f && (links_the_file(rec, p) ==> exists|k: int|
        0 <= k < f.len() && is_alias_of(#[trigger] f[k], rec, p))
    ||| links_the_file(rec, p) && g.len() == f.len() + 1 && g.drop_last() == f && is_alias_of(
        g.last(),
        rec,
        p,
    ) && forall|k: int| 0 <= k < f.len() ==> !is_alias_of(#[trigger] f[k], rec, p)
}

proof fn lemma_links_stay(
    rec: Seq<u8>,
    ps: Seq<int>,
    m: nat,
    f: Seq<AliasView>,
    g: Seq<AliasView>,
    k: int,
)
    requires
        m > 0,
        names_are_those(rec, ps, (m - 1) as nat, f),
        one_more(rec, ps[m - 1], f, g),
        0 <= k < m,
        links_the_file(rec, ps[k]),
    ensures
        exists|a: int| 0 <= a < g.len() && is_alias_of(#[trigger] g[a], rec, ps[k]),
{
    if k < m - 1 {
        let a = choose|a: int| 0 <= a < f.len() && is_alias_of(#[trigger] f[a], rec, ps[k]);
        if g != f {
            assert(g.drop_last()[a] == g[a]);
        }
        assert(is_alias_of(g[a], rec, ps[k]));
    } else if g != f {
        assert(is_alias_of(g[g.len() - 1], rec, ps[k]));
    }
}

proof fn lemma_aliases_stay(
    rec: Seq<u8>,
    ps: Seq<int>,
    m: nat,
    f: Seq<AliasView>,
    g: Seq<AliasView>,
    a: int,
)
    requires
        m > 0,
        names_are_those(rec, ps, (m - 1) as nat, f),
        one_more(rec, ps[m - 1], f, g),
        0 <= a < g.len(),
    ensures
        is_a_link(g[a], rec, ps, m as int),
{
    if a < f.len() {
        if g != f {
            assert(g.drop_last()[a] == g[a]);
        }
        assert(is_a_link(f[a], rec, ps, m - 1));
        let k = choose|k: int|
            0 <= k < m - 1 && links_the_file(rec, #[trigger] ps[k]) && is_alias_of(f[a], rec, ps[k]);
        assert(0 <= k < m && links_the_file(rec, ps[k]) && is_alias_of(g[a], rec, ps[k]));
    } else {
        assert(g[a] == g.last());
        assert(is_alias_of(g[a], rec, ps[m - 1]));
    }
}

proof fn lemma_aliases_differ(
    rec: Seq<u8>,
    ps: Seq<int>,
    m: nat,
    f: Seq<AliasView>,
    g: Seq<AliasView>,
    a: int,
    b: int,
)
    requires
        m > 0,
        names_are_those(rec, ps, (m - 1) as nat, f),
        one_more(rec, ps[m - 1], f, g),
        0 <= a < b < g.len(),
    ensures
        g[a].parent != g[b].parent || g[a].name != g[b].name,
{
    if g != f {
        assert(g.drop_last()[a] == g[a]);
        if b < f.len() {
            assert(g.drop_last()[b] == g[b]);
        } else {
            assert(!is_alias_of(f[a], rec, ps[m - 1]));
            assert(is_alias_of(g[b], rec, ps[m - 1]));
            reveal(is_alias_of);
        }
    }
}

#[verifier::rlimit(40)]
proof fn lemma_names_step(
    rec: Seq<u8>,
    ps: Seq<int>,
    m: nat,
    f: Seq<AliasView>,
    g: Seq<AliasView>,
)
    requires
        m > 0,
        names_are_those(rec, ps, (m - 1) as nat, f),
        one_more(rec, ps[m - 1], f, g),
    ensures
        names_are_those(rec, ps, m, g),
{
    assert forall|k: int| 0 <= k < m && links_the_file(rec, #[trigger] ps[k]) implies exists|
        a: int,
    |
        0 <= a < g.len() && is_alias_of(#[trigger] g[a], rec, ps[k]) by {
        lemma_links_stay(rec, ps, m, f, g, k);
    }
    assert forall|a: int| 0 <= a < g.len() implies is_a_link(
        #[trigger] g[a],
        rec,
        ps,
        m as int,
    ) by {
        lemma_aliases_stay(rec, ps, m, f, g, a);
    }
    assert forall|a: int, b: int| 0 <= a < b < g.len() implies (#[trigger] g[a]).parent != (
    #[trigger] g[b]).parent || g[a].name != g[b].name by {
        lemma_aliases_differ(rec, ps, m, f, g, a, b);
    }
}

proof fn lemma_names(rec: Seq<u8>, ps: Seq<int>, m: nat, header_dir: bool)
    requires
        attributes_stand_at(rec, ps),
        m < ps.len(),
    ensures
        names_are_those(rec, ps, m, facts_of(rec, ps, m, header_dir).names),
    decreases m,
{
    if m > 0 {
        let before = (m - 1) as nat;
        let f = facts_of(rec, ps, before, header_dir).names;
        let g = facts_of(rec, ps, m, header_dir).names;
        lemma_names(rec, ps, before, header_dir);
        lemma_link_attribute(
            rec,
            ps,
            m - 1,
            facts_of(rec, ps, before, header_dir),
            header_dir,
        );
        lemma_names_step(rec, ps, m, f, g);
    }
}

/// Every name of a file, but for short ones, is the name that its record is read with or one of
/// its other names; and its other names are names that it has.
#[verifier::rlimit(40)]
pub proof fn law_every_link_is_kept(
    rec: Seq<u8>,
    ps: Seq<int>,
    header_dir: bool,
    v: ParsedView,
)
    requires
        attributes_stand_at(rec, ps),
        crate::ntfs::parsed_record(rec, header_dir) == Ok::<Option<ParsedView>, NtfsError>(Some(v)),
    ensures
        forall|k: int|
            0 <= k < ps.len() - 1 && links_the_file(rec, #[trigger] ps[k]) ==> is_alias_of(
                AliasView {
                    parent: v.entry.parent,
                    parent_sequence: v.entry.parent_sequence,
                    name: v.entry.name,
                },
                rec,
                ps[k],
            ) || exists|a: int|
                0 <= a < v.names.len() && is_alias_of(#[trigger] v.names[a], rec, ps[k]),
        forall|a: int|
            0 <= a < v.names.len() ==> is_a_link(#[trigger] v.names[a], rec, ps, ps.len() - 1),
        forall|a: int|
            0 <= a < v.names.len() ==> (#[trigger] v.names[a]).parent != v.entry.parent
                || v.names[a].name != v.entry.name,
{
    reveal(is_alias_of);
    let last = (ps.len() - 1) as nat;
    lemma_parsed(rec, ps, header_dir);
    lemma_names(rec, ps, last, header_dir);
    let f = facts_of(rec, ps, last, header_dir);
    let e = chosen(f.best);
    let keep = |a: AliasView| a.parent != e.parent || a.name != e.name;
    let own = AliasView {
        parent: v.entry.parent,
        parent_sequence: v.entry.parent_sequence,
        name: v.entry.name,
    };
    assert(v.names == f.names.filter(keep));
    assert forall|k: int|
        0 <= k < ps.len() - 1 && links_the_file(rec, #[trigger] ps[k]) implies is_alias_of(
        own,
        rec,
        ps[k],
    ) || exists|a: int| 0 <= a < v.names.len() && is_alias_of(#[trigger] v.names[a], rec, ps[k]) by {
        let a = choose|a: int|
            0 <= a < f.names.len() && is_alias_of(#[trigger] f.names[a], rec, ps[k]);
        if keep(f.names[a]) {
            assert(f.names.contains(f.names[a]));
            f.names.lemma_filter_contains(keep, a);
            let b = v.names.index_of(f.names[a]);
            assert(is_alias_of(v.names[b], rec, ps[k]));
        }
    }
    assert forall|a: int| 0 <= a < v.names.len() implies is_a_link(
        #[trigger] v.names[a],
        rec,
        ps,
        ps.len() - 1,
    ) by {
        assert(v.names.contains(v.names[a]));
        f.names.lemma_filter_contains_rev(keep, v.names[a]);
        let b = f.names.index_of(v.names[a]);
        assert(f.names[b] == v.names[a]);
        assert(is_a_link(f.names[b], rec, ps, last as int));
    }
    assert forall|a: int| 0 <= a < v.names.len() implies (#[trigger] v.names[a]).parent
        != v.entry.parent || v.names[a].name != v.entry.name by {
        f.names.lemma_filter_pred(keep, a);
    }
}

// ---------------------------------------------------------------------------
// Files

/// A chain of folders from the top of a volume down: each is a folder in the one before it, and
/// the reference to that one is not stale.
pub open spec fn folders_in_a_row(entries: Map<u64, EntryView>, row: Seq<u64>) -> bool {
    &&& row.len() > 0
    &&& row[0] == 5
    &&& forall|i: int|
        0 <= i < row.len() - 1 ==> {
            let e = entries[#[trigger] row[i + 1]];
            &&& row[i + 1] != 5
            &&& entries.contains_key(row[i + 1])
            &&& e.dir
            &&& e.parent == row[i]
            &&& e.parent_sequence == 0 || (entries.contains_key(row[i]) && entries[row[i]].sequence
                == e.parent_sequence)
        }
}

/// The names of folders in a row, but for the top.
pub open spec fn row_names(entries: Map<u64, EntryView>, row: Seq<u64>) -> Seq<Seq<char>> {
    Seq::new((row.len() - 1) as nat, |i: int| entries[row[i + 1]].name)
}

proof fn lemma_climb(t: &EntryTable, row: Seq<u64>)
    requires
        folders_in_a_row(crate::ntfs::entry_map(t.entries@), row),
        forall|i: int|
            0 <= i < row.len() - 1 ==> crate::ntfs::entry_map(t.entries@)[#[trigger] row[i
                + 1]].name.len() > 0,
    ensures
        crate::dirtree::climb(t, 5, row.last(), (row.len() - 1) as nat) == Some(
            crate::text::join(row_names(crate::ntfs::entry_map(t.entries@), row), '/'),
        ),
        row.len() > 1 ==> crate::text::join(
            row_names(crate::ntfs::entry_map(t.entries@), row),
            '/',
        ).len() > 0,
    decreases row.len(),
{
    let entries = crate::ntfs::entry_map(t.entries@);
    let names = row_names(entries, row);
    if row.len() == 1 {
        assert(names =~= Seq::empty());
    } else {
        let less = row.drop_last();
        assert(folders_in_a_row(entries, less)) by {
            assert forall|i: int| 0 <= i < less.len() - 1 implies {
                let e = entries[#[trigger] less[i + 1]];
                &&& less[i + 1] != 5
                &&& entries.contains_key(less[i + 1])
                &&& e.dir
                &&& e.parent == less[i]
                &&& e.parent_sequence == 0 || (entries.contains_key(less[i])
                    && entries[less[i]].sequence == e.parent_sequence)
            } by {
                assert(less[i + 1] == row[i + 1] && less[i] == row[i]);
            }
        }
        assert forall|i: int| 0 <= i < less.len() - 1 implies entries[#[trigger] less[i
            + 1]].name.len() > 0 by {
            assert(less[i + 1] == row[i + 1]);
        }
        lemma_climb(t, less);
        let i = row.len() - 2;
        assert(row[i + 1] == row.last());
        assert(row[i] == less.last());
        assert(names.drop_last() =~= row_names(entries, less));
        assert(names.last() == entries[row.last()].name);
        let id = row.last();
        assert(crate::dirtree::DirTable::step(t, id) == Some((row[i], entries[id].name)));
        if less.len() == 1 {
            assert(row_names(entries, less) =~= Seq::empty());
        }
    }
}

/// A file in a chain of folders is told of at the path that their names spell, below the
/// prefix, with the size and the time that its record says.
pub proof fn law_files_are_told_of_at_their_paths(
    t: &EntryTable,
    prefix: Seq<char>,
    ids: Seq<u64>,
    id: u64,
    row: Seq<u64>,
)
    requires
        ({
            let entries = crate::ntfs::entry_map(t.entries@);
            let e = entries[id];
            &&& ids.contains(id)
            &&& id != 5
            &&& folders_in_a_row(entries, row)
            &&& forall|i: int| 0 <= i < row.len() - 1 ==> entries[#[trigger] row[i + 1]].name.len() > 0
            &&& e.parent == row.last()
            &&& e.parent_sequence == 0 || (entries.contains_key(row.last())
                && entries[row.last()].sequence == e.parent_sequence)
        }),
    ensures
        ({
            let entries = crate::ntfs::entry_map(t.entries@);
            let e = entries[id];
            let path = prefix.push('/') + crate::text::join(row_names(entries, row).push(e.name), '/');
            exists|k: int|
                0 <= k < crate::ntfs::own_records(t, prefix, ids).len() && tells_of(
                    #[trigger] crate::ntfs::own_records(t, prefix, ids)[k],
                    id,
                    e,
                    path,
                )
        }),
{
    let entries = crate::ntfs::entry_map(t.entries@);
    let e = entries[id];
    let names = row_names(entries, row);
    let folder = crate::text::join(names, '/');
    let path = prefix.push('/') + crate::text::join(names.push(e.name), '/');
    lemma_climb(t, row);
    assert(crate::dirtree::leads_to(t, 5, row.last(), folder));
    assert(crate::dirtree::reaches(t, 5, row.last()));
    let below = crate::dirtree::path_below(t, 5, row.last());
    assert(crate::dirtree::leads_to(t, 5, row.last(), below));
    crate::dirtree::law_paths_are_unique(t, 5, row.last(), folder, below);
    assert(names.push(e.name).drop_last() =~= names);
    if names.len() == 0 {
        assert(folder =~= Seq::empty());
    }
    assert(crate::dirtree::appended(folder, e.name) == crate::text::join(names.push(e.name), '/'));
    lemma_told(t, prefix, ids, id, path);
}

/// The record tells of a file at a path what its entry says.
pub open spec fn tells_of(r: RecordView, id: u64, e: EntryView, path: Seq<char>) -> bool {
    &&& r.path == path
    &&& r.size == e.size
    &&& r.mtime == e.mtime
    &&& r.kind == (if e.dir {
        FileKind::Dir
    } else {
        FileKind::File
    })
    &&& r.fs is Ntfs
    &&& r.mode == 0
    &&& r.native_id == id
    &&& r.native_parent == e.parent
    &&& r.source == 0
}

proof fn lemma_told(t: &EntryTable, prefix: Seq<char>, ids: Seq<u64>, id: u64, path: Seq<char>)
    requires
        ids.contains(id),
        id != 5,
        ({
            let e = crate::ntfs::entry_map(t.entries@)[id];
            crate::ntfs::name_path(t, prefix, e.parent, e.parent_sequence, e.name) == Some(path)
        }),
    ensures
        exists|k: int|
            0 <= k < crate::ntfs::own_records(t, prefix, ids).len() && tells_of(
                #[trigger] crate::ntfs::own_records(t, prefix, ids)[k],
                id,
                crate::ntfs::entry_map(t.entries@)[id],
                path,
            ),
    decreases ids.len(),
{
    let less = ids.drop_last();
    let front = crate::ntfs::own_records(t, prefix, less);
    let all = crate::ntfs::own_records(t, prefix, ids);
    let e = crate::ntfs::entry_map(t.entries@)[id];
    if ids.last() == id {
        assert(tells_of(all[front.len() as int], id, e, path));
    } else {
        let i = ids.index_of(id);
        assert(less[i] == id);
        assert(less.contains(id));
        lemma_told(t, prefix, less, id, path);
        let k = choose|k: int| 0 <= k < front.len() && tells_of(#[trigger] front[k], id, e, path);
        assert(all[k] == front[k]);
    }
}

// ---------------------------------------------------------------------------
// The volume

/// The boot sector says how many bytes a sector has, how many sectors a cluster has, in which
/// cluster the table begins, and how large a record is: a number of clusters, or a power of two.
#[verifier::rlimit(40)]
pub proof fn law_the_boot_sector_lays_out_the_volume(b: Seq<u8>, g: Geometry)
    requires
        crate::ntfs::geometry_in(b) == Ok::<Geometry, NtfsError>(g),
    ensures
        b[3] == 'N' as u8 && b[4] == 'T' as u8 && b[5] == 'F' as u8 && b[6] == 'S' as u8,
        g.sector as int == two(b, 11),
        g.cluster as int == two(b, 11) * b[13],
        g.mft_offset as int == eight(b, 48) * (two(b, 11) * b[13]),
        b[64] < 128 ==> g.record as int == two(b, 11) * b[13] * b[64],
        b[64] >= 128 ==> g.record as int == vstd::arithmetic::power2::pow2(
            (256 - b[64]) as nat,
        ),
        g.sector <= g.record <= 0x10_0000,
{
    crate::layout::law_numbers_are_read_as_laid_out(b, 11);
    crate::layout::law_numbers_are_read_as_laid_out(b, 48);
    let mark = b.subrange(3, 7);
    assert(mark[0] == b[3] && mark[1] == b[4] && mark[2] == b[5] && mark[3] == b[6]);
    let sector = two(b, 11);
    assert(sector * b[13] <= 0xffff * 255) by (nonlinear_arith)
        requires
            sector < 0x1_0000,
            b[13] <= 255,
    ;
    if b[64] >= 128 {
        lemma_two_to((256 - b[64]) as nat);
    }
}

proof fn lemma_two_to(n: nat)
    ensures
        crate::ntfs::two_to(n) == vstd::arithmetic::power2::pow2(n),
    decreases n,
{
    if n == 0 {
        vstd::arithmetic::power2::lemma2_to64();
    } else {
        lemma_two_to((n - 1) as nat);
        vstd::arithmetic::power2::lemma_pow2_unfold(n);
    }
}

/// The runs of a list stand one behind the other in the table, from a position on.
pub open spec fn in_a_row(runs: Seq<Run>, from: int) -> bool {
    &&& runs.len() > 0 ==> runs[0].logical == from
    &&& forall|i: int|
        0 <= i < runs.len() - 1 ==> (#[trigger] runs[i + 1]).logical == runs[i].logical + runs[i].len
}

/// A number of some bytes in two's complement.
pub open spec fn in_complement(b: Seq<u8>, d: int) -> bool {
    let span = crate::bytes::byte_span(b.len());
    &&& -(span as int) <= 2 * d < span
    &&& d == crate::bytes::le_value(b) || d == crate::bytes::le_value(b) - span
}

proof fn lemma_sign(b: Seq<u8>)
    requires
        b.len() > 0,
    ensures
        b.last() >= 128 <==> 2 * crate::bytes::le_value(b) >= crate::bytes::byte_span(b.len()),
        crate::bytes::le_value(b) < crate::bytes::byte_span(b.len()),
    decreases b.len(),
{
    let rest = b.drop_first();
    let span = crate::bytes::byte_span(rest.len());
    assert(crate::bytes::byte_span(b.len()) == 256 * span);
    if rest.len() == 0 {
        assert(crate::bytes::le_value(rest) == 0);
        assert(crate::bytes::byte_span(0) == 1);
    } else {
        lemma_sign(rest);
        assert(rest.last() == b.last());
        lemma_even(rest.len());
    }
}

proof fn lemma_even(n: nat)
    requires
        n > 0,
    ensures
        crate::bytes::byte_span(n) % 2 == 0,
        crate::bytes::byte_span(n) > 0,
    decreases n,
{
    assert(crate::bytes::byte_span(0) == 1);
    if n > 1 {
        lemma_even((n - 1) as nat);
    }
}

/// A signed number is read in two's complement.
pub proof fn law_signed_numbers_are_in_complement(b: Seq<u8>)
    ensures
        in_complement(b, crate::ntfs::signed_value(b)),
{
    if b.len() > 0 {
        lemma_sign(b);
    } else {
        assert(crate::bytes::byte_span(0) == 1);
        assert(crate::bytes::le_value(b) == 0);
    }
}

/// Every run in a list says how many clusters it has, in as many bytes as the low half of its
/// first byte says, and behind them how far its first cluster lies from that of the run before,
/// in as many bytes as the high half says. The runs stand in a row in the table.
pub proof fn law_runs_are_read_as_laid_out(
    data: Seq<u8>,
    p: int,
    cluster: u64,
    lcn: int,
    logical: int,
    runs: Seq<Run>,
)
    requires
        0 <= p < data.len(),
        data[p] != 0,
        0 <= logical,
        crate::ntfs::runs_from(data, p, cluster, lcn, logical) == Ok::<Seq<Run>, NtfsError>(runs),
    ensures
        ({
            let ls = data[p] % 16;
            let os = data[p] / 16;
            &&& runs.len() > 0
            &&& in_a_row(runs, logical)
            &&& runs[0].len == crate::bytes::le_value(data.subrange(p + 1, p + 1 + ls)) * cluster
            &&& exists|step: int| #[trigger]
                in_complement(data.subrange(p + 1 + ls, p + 1 + ls + os), step)
                    && runs[0].physical == (lcn + step) * cluster && crate::ntfs::runs_from(
                    data,
                    p + 1 + ls + os,
                    cluster,
                    lcn + step,
                    logical + runs[0].len,
                ) == Ok::<Seq<Run>, NtfsError>(runs.drop_first())
        }),
    decreases data.len() - p,
{
    let ls = (data[p] % 16) as int;
    let os = (data[p] / 16) as int;
    let q = p + 1 + ls + os;
    let step = crate::ntfs::signed_value(data.subrange(p + 1 + ls, q));
    law_signed_numbers_are_in_complement(data.subrange(p + 1 + ls, q));
    let rest = crate::ntfs::runs_from(data, q, cluster, lcn + step, logical + runs[0].len)->Ok_0;
    assert(runs.drop_first() =~= rest);
    if q < data.len() && data[q] != 0 {
        law_runs_are_read_as_laid_out(data, q, cluster, lcn + step, logical + runs[0].len, rest);
    }
    assert forall|i: int| 0 <= i < runs.len() - 1 implies (#[trigger] runs[i + 1]).logical
        == runs[i].logical + runs[i].len by {
        assert(runs[i + 1] == rest[i]);
        if i > 0 {
            assert(runs[i] == rest[i - 1]);
            assert(rest[i - 1 + 1].logical == rest[i - 1].logical + rest[i - 1].len);
        }
    }
}

/// The place on the volume of a byte of some stretches, taken one behind the other.
pub open spec fn place_of(es: Seq<Extent>, t: int) -> int
    decreases es.len(),
{
    if es.len() == 0 {
        -1
    } else if t < es[0].len {
        es[0].physical + t
    } else {
        place_of(es.drop_first(), t - es[0].len)
    }
}

/// How many bytes some stretches have.
pub open spec fn length_of(es: Seq<Extent>) -> int
    decreases es.len(),
{
    if es.len() == 0 {
        0
    } else {
        es[0].len + length_of(es.drop_first())
    }
}

/// A run has a byte of the table, at this place of the volume.
pub open spec fn holds_byte(run: Run, at: int, place: int) -> bool {
    run.logical <= at < run.logical + run.len && place == run.physical + (at - run.logical)
}

proof fn lemma_stretches(
    runs: Seq<Run>,
    i: int,
    logical: int,
    left: int,
    es: Seq<Extent>,
    t: int,
)
    requires
        0 <= i,
        0 <= left <= u64::MAX,
        crate::ntfs::stretches(runs, i, logical, left) == Ok::<Seq<Extent>, NtfsError>(es),
        0 <= t < left,
    ensures
        exists|k: int|
            0 <= k < runs.len() && holds_byte(#[trigger] runs[k], logical + t, place_of(es, t)),
    decreases runs.len() - i,
{
    let run = runs[i];
    let within = logical - run.logical;
    if within >= run.len {
        lemma_stretches(runs, i + 1, logical, left, es, t);
    } else {
        let n = if run.len - within < left {
            run.len - within
        } else {
            left
        };
        let rest = crate::ntfs::stretches(runs, i + 1, logical + n, left - n)->Ok_0;
        assert(es.drop_first() =~= rest);
        if t < n {
            assert(holds_byte(runs[i], logical + t, place_of(es, t)));
        } else {
            lemma_stretches(runs, i + 1, logical + n, left - n, rest, t - n);
        }
    }
}

proof fn lemma_stretched(runs: Seq<Run>, i: int, logical: int, left: int, es: Seq<Extent>)
    requires
        0 <= i,
        0 <= left <= u64::MAX,
        crate::ntfs::stretches(runs, i, logical, left) == Ok::<Seq<Extent>, NtfsError>(es),
    ensures
        length_of(es) == left,
    decreases runs.len() - i,
{
    if left > 0 {
        let run = runs[i];
        let within = logical - run.logical;
        if within >= run.len {
            lemma_stretched(runs, i + 1, logical, left, es);
        } else {
            let n = if run.len - within < left {
                run.len - within
            } else {
                left
            };
            let rest = crate::ntfs::stretches(runs, i + 1, logical + n, left - n)->Ok_0;
            assert(es.drop_first() =~= rest);
            lemma_stretched(runs, i + 1, logical + n, left - n, rest);
        }
    }
}

/// A part of the table is looked for where its runs have it, byte by byte.
pub proof fn law_the_table_is_read_where_it_lies(
    runs: Seq<Run>,
    logical: u64,
    len: u64,
    es: Seq<Extent>,
)
    requires
        crate::ntfs::located(runs, logical, len) == Ok::<Seq<Extent>, NtfsError>(es),
    ensures
        length_of(es) == len,
        forall|t: int|
            0 <= t < len ==> exists|k: int|
                0 <= k < runs.len() && holds_byte(
                    #[trigger] runs[k],
                    logical + t,
                    #[trigger] place_of(es, t),
                ),
{
    let i = crate::ntfs::holding_run(runs, logical);
    lemma_holding(runs, logical);
    lemma_stretched(runs, i, logical as int, len as int, es);
    assert forall|t: int| 0 <= t < len implies exists|k: int|
        0 <= k < runs.len() && holds_byte(
            #[trigger] runs[k],
            logical + t,
            #[trigger] place_of(es, t),
        ) by {
        lemma_stretches(runs, i, logical as int, len as int, es, t);
    }
}

proof fn lemma_holding(runs: Seq<Run>, logical: u64)
    ensures
        0 <= crate::ntfs::holding_run(runs, logical) <= runs.len(),
    decreases runs.len(),
{
    if runs.len() > 0 {
        lemma_holding(runs.drop_last(), logical);
    }
}

/// A repaired record has at the end of every sector the two bytes that its update sequence
/// keeps for it, and had there the check value that stands in front of them.
pub proof fn law_sectors_get_their_ends_back(rec: Seq<u8>, sector: usize, r: Seq<u8>, k: int)
    requires
        crate::ntfs::fixed_up(rec, sector) == Ok::<Seq<u8>, NtfsError>(r),
        1 <= k <= rec.len() / sector as nat,
        two(rec, 4) + 2 * two(rec, 6) <= sector - 2,
    ensures
        ({
            let usa = two(rec, 4) as int;
            &&& rec[k * sector - 2] == rec[usa] && rec[k * sector - 1] == rec[usa + 1]
            &&& r[k * sector - 2] == rec[usa + 2 * k]
            &&& r[k * sector - 1] == rec[usa + 2 * k + 1]
        }),
{
    crate::layout::law_numbers_are_read_as_laid_out(rec, 4);
    crate::layout::law_numbers_are_read_as_laid_out(rec, 6);
    let n = (two(rec, 6) - 1) as nat;
    assert(n * sector <= rec.len()) by (nonlinear_arith)
        requires
            n == rec.len() / sector as nat,
            sector >= 2,
    ;
    lemma_ends(rec, two(rec, 4) as int, sector as int, n, n, k);
}

#[verifier::rlimit(40)]
proof fn lemma_ends(rec: Seq<u8>, usa: int, sector: int, all: nat, n: nat, k: int)
    requires
        sector >= 2,
        0 <= usa,
        usa + 2 * (all + 1) <= sector - 2,
        n <= all,
        all * sector <= rec.len(),
        crate::ntfs::repaired(rec, usa, sector, n) is Some,
    ensures
        ({
            let r = crate::ntfs::repaired(rec, usa, sector, n)->0;
            &&& r.len() == rec.len()
            &&& forall|j: int| usa <= j < usa + 2 * (all + 1) ==> #[trigger] r[j] == rec[j]
            &&& forall|j: int| n * sector <= j < rec.len() ==> #[trigger] r[j] == rec[j]
            &&& 1 <= k <= n ==> rec[k * sector - 2] == rec[usa] && rec[k * sector - 1] == rec[usa
                + 1] && r[k * sector - 2] == rec[usa + 2 * k] && r[k * sector - 1] == rec[usa + 2
                * k + 1]
        }),
    decreases n,
{
    if n > 0 {
        let before = (n - 1) as nat;
        lemma_ends(rec, usa, sector, all, before, k);
        assert(n * sector == before * sector + sector) by (nonlinear_arith)
            requires
                n == before + 1,
        ;
        assert(before * sector >= 0) by (nonlinear_arith)
            requires
                sector >= 2,
        ;
        assert(n * sector <= all * sector) by (nonlinear_arith)
            requires
                n <= all,
                sector >= 2,
        ;
        if 1 <= k <= before {
            assert(k * sector <= before * sector) by (nonlinear_arith)
                requires
                    k <= before,
                    sector >= 2,
            ;
            assert(k * sector >= sector) by (nonlinear_arith)
                requires
                    k >= 1,
                    sector >= 2,
            ;
        }
    }
}

// ---------------------------------------------------------------------------
// Records together

/// A record counts where it is marked and in use; whether it is a folder stands beside that,
/// and which record it extends, if any, further on.
pub proof fn law_only_records_in_use_count(buf: Seq<u8>, sector: usize, base: nat, v: ParsedView)
    requires
        crate::ntfs::usable(buf, sector) == Some((base, v)),
    ensures
        ({
            let rec = crate::ntfs::fixed_up(buf, sector)->Ok_0;
            &&& buf.len() >= 24
            &&& buf[0] == 'F' as u8 && buf[1] == 'I' as u8 && buf[2] == 'L' as u8 && buf[3]
                == 'E' as u8
            &&& two(buf, 22) % 2 == 1
            &&& crate::ntfs::fixed_up(buf, sector) is Ok
            &&& crate::ntfs::parsed_record(rec, two(buf, 22) / 2 % 2 == 1) == Ok::<
                Option<ParsedView>,
                NtfsError,
            >(Some(v))
            &&& rec.len() >= 40 ==> base == eight(rec, 32)
        }),
{
    crate::layout::law_numbers_are_read_as_laid_out(buf, 22);
    let mark = buf.take(4);
    assert(mark[0] == buf[0] && mark[1] == buf[1] && mark[2] == buf[2] && mark[3] == buf[3]);
    crate::layout::law_numbers_are_read_as_laid_out(crate::ntfs::fixed_up(buf, sector)->Ok_0, 32);
}

/// A record on its own is gathered under the number of its place in the table, with what it
/// says; every other entry stays as it was.
pub proof fn law_records_are_gathered_by_their_place(
    g: MftView,
    buf: Seq<u8>,
    sector: usize,
    v: ParsedView,
)
    requires
        crate::ntfs::usable(buf, sector) == Some((0nat, v)),
    ensures
        ({
            let after = crate::ntfs::after_record(g, buf, sector);
            &&& after.entries.contains_key(g.next) && after.entries[g.next] == v.entry
            &&& after.ids == g.ids.push(g.next)
            &&& v.names.len() > 0 ==> after.aliases.contains_key(g.next)
                && after.aliases[g.next] == v.names
            &&& forall|id: u64|
                id != g.next ==> #[trigger] after.entries.contains_key(id)
                    == g.entries.contains_key(id) && (g.entries.contains_key(id)
                    ==> after.entries[id] == g.entries[id])
        }),
{
}

/// A record that extends another adds names to it, and its size where that is larger. Nothing
/// else of the other changes, nothing changes where the other was since put to another use, and
/// no other entry changes.
#[verifier::rlimit(40)]
pub proof fn law_extensions_add_to_their_base(
    g: MftView,
    buf: Seq<u8>,
    sector: usize,
    base: nat,
    v: ParsedView,
    id: u64,
)
    requires
        crate::ntfs::usable(buf, sector) == Some((base, v)),
        base != 0,
        g.entries.contains_key(id),
    ensures
        ({
            let after = crate::ntfs::after_record(g, buf, sector);
            let (was, now) = (g.entries[id], after.entries[id]);
            let extended = id == base % 0x1_0000_0000_0000 && (base / 0x1_0000_0000_0000 == 0
                || base / 0x1_0000_0000_0000 == was.sequence);
            &&& after.ids == g.ids
            &&& after.entries.contains_key(id)
            &&& now.name == was.name && now.parent == was.parent && now.mtime == was.mtime
                && now.dir == was.dir && now.sequence == was.sequence
            &&& now.size == (if extended && v.entry.size > was.size {
                v.entry.size
            } else {
                was.size
            })
            &&& extended && (v.entry.parent != was.parent || v.entry.name != was.name)
                ==> after.aliases.contains_key(id) && crate::ntfs::names_it(
                after.aliases[id],
                v.entry.parent,
                v.entry.name,
            )
        }),
{
    let after = crate::ntfs::after_record(g, buf, sector);
    let was = g.entries[id];
    let extended = id == base % 0x1_0000_0000_0000 && (base / 0x1_0000_0000_0000 == 0 || base
        / 0x1_0000_0000_0000 == was.sequence);
    if extended && (v.entry.parent != was.parent || v.entry.name != was.name) {
        let had = if g.aliases.contains_key(id) {
            g.aliases[id]
        } else {
            Seq::empty()
        };
        let own = AliasView {
            parent: v.entry.parent,
            parent_sequence: v.entry.parent_sequence,
            name: v.entry.name,
        };
        let new = v.names.push(own);
        assert(new.drop_last() =~= v.names);
        let front = crate::ntfs::more_names(had, v.names, was);
        let all = crate::ntfs::more_names(had, new, was);
        assert(after.aliases[id] == all);
        if front.contains(own) {
            let k = front.index_of(own);
            assert(all[k].parent == own.parent && all[k].name == own.name);
        } else {
            assert(all[front.len() as int] == own);
        }
    }
}

// ---------------------------------------------------------------------------
// Links, and the table itself

/// The record tells of a file under another of its names what its entry says.
pub open spec fn links_to(r: RecordView, id: u64, e: EntryView, a: AliasView, path: Seq<char>) -> bool {
    &&& r.path == path
    &&& r.size == e.size
    &&& r.mtime == e.mtime
    &&& r.kind == FileKind::File
    &&& r.fs is Ntfs
    &&& r.native_id == id
    &&& r.native_parent == a.parent
}

/// A file is told of under each of its other names, in the folder that the name stands in, with
/// the size and the time that its record says.
pub proof fn law_files_are_told_of_under_every_name(
    t: &EntryTable,
    prefix: Seq<char>,
    ids: Seq<u64>,
    aliases: Map<u64, Seq<AliasView>>,
    id: u64,
    i: int,
    row: Seq<u64>,
)
    requires
        ({
            let entries = crate::ntfs::entry_map(t.entries@);
            &&& ids.contains(id)
            &&& aliases.contains_key(id)
            &&& 0 <= i < aliases[id].len()
            &&& !entries[id].dir
            &&& folders_in_a_row(entries, row)
            &&& forall|k: int| 0 <= k < row.len() - 1 ==> entries[#[trigger] row[k + 1]].name.len() > 0
            &&& aliases[id][i].parent == row.last()
            &&& aliases[id][i].parent_sequence == 0 || (entries.contains_key(row.last())
                && entries[row.last()].sequence == aliases[id][i].parent_sequence)
        }),
    ensures
        ({
            let entries = crate::ntfs::entry_map(t.entries@);
            let a = aliases[id][i];
            let path = prefix.push('/') + crate::text::join(
                row_names(entries, row).push(a.name),
                '/',
            );
            let rs = crate::ntfs::other_records(t, prefix, ids, aliases);
            exists|k: int|
                0 <= k < rs.len() && links_to(#[trigger] rs[k], id, entries[id], a, path)
        }),
{
    let entries = crate::ntfs::entry_map(t.entries@);
    let a = aliases[id][i];
    let names = row_names(entries, row);
    let folder = crate::text::join(names, '/');
    let path = prefix.push('/') + crate::text::join(names.push(a.name), '/');
    lemma_climb(t, row);
    assert(crate::dirtree::leads_to(t, 5, row.last(), folder));
    assert(crate::dirtree::reaches(t, 5, row.last()));
    let below = crate::dirtree::path_below(t, 5, row.last());
    assert(crate::dirtree::leads_to(t, 5, row.last(), below));
    crate::dirtree::law_paths_are_unique(t, 5, row.last(), folder, below);
    assert(names.push(a.name).drop_last() =~= names);
    if names.len() == 0 {
        assert(folder =~= Seq::empty());
    }
    assert(crate::dirtree::appended(folder, a.name) == crate::text::join(names.push(a.name), '/'));
    lemma_named_record(t, prefix, id, aliases[id], i, path);
    lemma_linked(t, prefix, ids, aliases, id, i, path);
}

proof fn lemma_named_record(
    t: &EntryTable,
    prefix: Seq<char>,
    id: u64,
    names: Seq<AliasView>,
    i: int,
    path: Seq<char>,
)
    requires
        0 <= i < names.len(),
        crate::ntfs::name_path(
            t,
            prefix,
            names[i].parent,
            names[i].parent_sequence,
            names[i].name,
        ) == Some(path),
    ensures
        exists|k: int|
            0 <= k < crate::ntfs::names_records(t, prefix, id, names).len() && links_to(
                #[trigger] crate::ntfs::names_records(t, prefix, id, names)[k],
                id,
                crate::ntfs::entry_map(t.entries@)[id],
                names[i],
                path,
            ),
    decreases names.len(),
{
    let less = names.drop_last();
    let front = crate::ntfs::names_records(t, prefix, id, less);
    let all = crate::ntfs::names_records(t, prefix, id, names);
    let e = crate::ntfs::entry_map(t.entries@)[id];
    if i < less.len() {
        assert(less[i] == names[i]);
        lemma_named_record(t, prefix, id, less, i, path);
        let k = choose|k: int|
            0 <= k < front.len() && links_to(#[trigger] front[k], id, e, less[i], path);
        assert(all[k] == front[k]);
    } else {
        assert(links_to(all[front.len() as int], id, e, names[i], path));
    }
}

proof fn lemma_linked(
    t: &EntryTable,
    prefix: Seq<char>,
    ids: Seq<u64>,
    aliases: Map<u64, Seq<AliasView>>,
    id: u64,
    i: int,
    path: Seq<char>,
)
    requires
        ids.contains(id),
        aliases.contains_key(id),
        !crate::ntfs::entry_map(t.entries@)[id].dir,
        exists|k: int|
            0 <= k < crate::ntfs::names_records(t, prefix, id, aliases[id]).len() && links_to(
                #[trigger] crate::ntfs::names_records(t, prefix, id, aliases[id])[k],
                id,
                crate::ntfs::entry_map(t.entries@)[id],
                aliases[id][i],
                path,
            ),
    ensures
        exists|k: int|
            0 <= k < crate::ntfs::other_records(t, prefix, ids, aliases).len() && links_to(
                #[trigger] crate::ntfs::other_records(t, prefix, ids, aliases)[k],
                id,
                crate::ntfs::entry_map(t.entries@)[id],
                aliases[id][i],
                path,
            ),
    decreases ids.len(),
{
    let less = ids.drop_last();
    let front = crate::ntfs::other_records(t, prefix, less, aliases);
    let all = crate::ntfs::other_records(t, prefix, ids, aliases);
    let e = crate::ntfs::entry_map(t.entries@)[id];
    if ids.last() == id {
        let own = crate::ntfs::names_records(t, prefix, id, aliases[id]);
        let k = choose|k: int|
            0 <= k < own.len() && links_to(#[trigger] own[k], id, e, aliases[id][i], path);
        assert(all[front.len() + k] == own[k]);
    } else {
        let j = ids.index_of(id);
        assert(less[j] == id);
        assert(less.contains(id));
        lemma_linked(t, prefix, less, aliases, id, i, path);
        let k = choose|k: int|
            0 <= k < front.len() && links_to(#[trigger] front[k], id, e, aliases[id][i], path);
        assert(all[k] == front[k]);
    }
}

/// The table has as many records as fit in its size.
pub proof fn law_the_table_has_what_fits(runs: Seq<Run>, size: u64, record: u64, n: u64)
    requires
        record > 0,
        crate::ntfs::records_in(runs, size, record) == Ok::<u64, NtfsError>(n),
    ensures
        n * record <= size < (n + 1) * record,
        runs.len() > 0,
{
    assert(n * record <= size < (n + 1) * record) by (nonlinear_arith)
        requires
            record > 0,
            n == size / record,
    ;
}

/// The runs of the table are those of the data of its own record, which lie elsewhere and have
/// no name; its size is what the attribute states.
pub proof fn law_the_table_is_found_by_its_own_record(
    rec: Seq<u8>,
    ps: Seq<int>,
    k: int,
    cluster: u64,
    runs: Seq<Run>,
    size: u64,
)
    requires
        attributes_stand_at(rec, ps),
        0 <= k < ps.len() - 1,
        four(rec, ps[k]) == 0x80 && rec[ps[k] + 8] != 0 && rec[ps[k] + 9] == 0,
        forall|j: int|
            0 <= j < k ==> four(rec, #[trigger] ps[j]) != 0x80 || rec[ps[j] + 8] == 0 || rec[ps[j]
                + 9] != 0,
        crate::ntfs::mft_table(rec, cluster) == Ok::<(Seq<Run>, u64), NtfsError>((runs, size)),
    ensures
        ({
            let p = ps[k];
            &&& size as int == eight(rec, p + 48)
            &&& crate::ntfs::runs_from(
                rec.subrange(p + two(rec, p + 32), p + four(rec, p + 4)),
                0,
                cluster,
                0,
                0,
            ) == Ok::<Seq<Run>, NtfsError>(runs)
        }),
{
    crate::layout::law_numbers_are_read_as_laid_out(rec, 20);
    lemma_table(rec, ps, k, 0, cluster);
    let p = ps[k];
    crate::layout::law_numbers_are_read_as_laid_out(rec, p);
    crate::layout::law_numbers_are_read_as_laid_out(rec, p + 4);
    crate::layout::law_numbers_are_read_as_laid_out(rec, p + 32);
    crate::layout::law_numbers_are_read_as_laid_out(rec, p + 48);
}

proof fn lemma_table(rec: Seq<u8>, ps: Seq<int>, k: int, i: int, cluster: u64)
    requires
        attributes_stand_at(rec, ps),
        0 <= i <= k < ps.len() - 1,
        forall|j: int|
            0 <= j < k ==> four(rec, #[trigger] ps[j]) != 0x80 || rec[ps[j] + 8] == 0 || rec[ps[j]
                + 9] != 0,
    ensures
        crate::ntfs::table_in(rec, ps[i], cluster) == crate::ntfs::table_in(rec, ps[k], cluster),
    decreases k - i,
{
    if i < k {
        crate::layout::law_numbers_are_read_as_laid_out(rec, ps[i]);
        crate::layout::law_numbers_are_read_as_laid_out(rec, ps[i] + 4);
        assert(ps[i + 1] == ps[i] + four(rec, ps[i] + 4));
        lemma_table(rec, ps, k, i + 1, cluster);
    }
}

/// Only gathered records are told of, each with the size and the time that it says, and only
/// where the reference to its folder is not stale. The top is not told of.
pub proof fn law_only_gathered_files_are_told(
    t: &EntryTable,
    prefix: Seq<char>,
    ids: Seq<u64>,
    k: int,
)
    requires
        0 <= k < crate::ntfs::own_records(t, prefix, ids).len(),
    ensures
        ({
            let entries = crate::ntfs::entry_map(t.entries@);
            let r = crate::ntfs::own_records(t, prefix, ids)[k];
            let e = entries[r.native_id];
            &&& ids.contains(r.native_id)
            &&& r.native_id != 5
            &&& r.size == e.size && r.mtime == e.mtime && r.native_parent == e.parent
            &&& r.kind == (if e.dir {
                FileKind::Dir
            } else {
                FileKind::File
            })
            &&& e.parent_sequence == 0 || (entries.contains_key(e.parent)
                && entries[e.parent].sequence == e.parent_sequence)
            &&& prefix.push('/').is_prefix_of(r.path)
        }),
    decreases ids.len(),
{
    let less = ids.drop_last();
    let front = crate::ntfs::own_records(t, prefix, less);
    let all = crate::ntfs::own_records(t, prefix, ids);
    if k < front.len() {
        law_only_gathered_files_are_told(t, prefix, less, k);
        assert(all[k] == front[k]);
        let j = less.index_of(front[k].native_id);
        assert(ids[j] == front[k].native_id);
    } else {
        assert(ids[ids.len() - 1] == ids.last());
        let r = all[k];
        assert(r.path.subrange(0, (prefix.len() + 1) as int) =~= prefix.push('/'));
    }
}

} // verus!
