//! Reading and searching a compact index.

use crate::bytes::SectionError;
use crate::clock::Stopwatch;
use crate::compact::{BuildError, BuildStats};
use crate::delta::{DeltaIndex, OverlayView};
use crate::query::{Query, QueryView};
use crate::rank::{Collector, HitView, Ranking, SearchHit, SearchStats};
use crate::types::{FileRecord, RecordView};
use crate::varint::VarintError;
use vstd::prelude::*;

verus! {

/// Why a compact index could not be read.
#[derive(Debug, Clone, Copy, PartialEq, Eq, Structural)]
pub enum IndexError {
    /// A marker beside the file says that it needs a full rebuild.
    Stale,
    /// The file is too short or does not begin with the magic bytes.
    NotAnIndex,
    /// The checksum does not match.
    ChecksumMismatch,
    /// The format is of another version.
    UnsupportedVersion,
    /// The blocks are of another size.
    UnsupportedBlockSize,
    /// A section does not lie in the file.
    Section(SectionError),
    /// The trigrams do not ascend.
    UnsortedDictionary,
    /// A posting list names a block that there is not.
    BlockOutOfRange,
    /// A block could not be decompressed.
    Decompression,
    /// A block holds no records.
    Codec,
    /// A block holds another number of records than its descriptor says.
    CountMismatch,
    /// A posting list could not be read.
    Posting(VarintError),
    /// The header alone is not that of an index.
    InvalidHeader,
    /// The file ends inside its header.
    ShortHeader,
}

impl IndexError {
    /// How the error is reported.
    pub open spec fn text(self) -> Seq<char> {
        match self {
            IndexError::Stale => "compact index is marked stale and requires a full rebuild"@,
            IndexError::NotAnIndex => "not a Neutrasearch compact index"@,
            IndexError::ChecksumMismatch => "compact index checksum mismatch"@,
            IndexError::UnsupportedVersion => "unsupported compact index version"@,
            IndexError::UnsupportedBlockSize => "unsupported path block size"@,
            IndexError::Section(e) => e.text(),
            IndexError::UnsortedDictionary => "trigram dictionary is not sorted"@,
            IndexError::BlockOutOfRange => "path block ID out of range"@,
            IndexError::Decompression => "path block could not be decompressed"@,
            IndexError::Codec => "path block codec: invalid records"@,
            IndexError::CountMismatch => "path block record count mismatch"@,
            IndexError::Posting(e) => e.text(),
            IndexError::InvalidHeader => "invalid compact index header"@,
            IndexError::ShortHeader => "failed to fill whole buffer"@,
        }
    }

    /// How the error is reported.
    pub fn message(self) -> (r: String)
        ensures
            r@ == self.text(),
    {
        match self {
            IndexError::Stale => "compact index is marked stale and requires a full rebuild".to_owned(),
            IndexError::NotAnIndex => "not a Neutrasearch compact index".to_owned(),
            IndexError::ChecksumMismatch => "compact index checksum mismatch".to_owned(),
            IndexError::UnsupportedVersion => "unsupported compact index version".to_owned(),
            IndexError::UnsupportedBlockSize => "unsupported path block size".to_owned(),
            IndexError::Section(e) => e.message(),
            IndexError::UnsortedDictionary => "trigram dictionary is not sorted".to_owned(),
            IndexError::BlockOutOfRange => "path block ID out of range".to_owned(),
            IndexError::Decompression => "path block could not be decompressed".to_owned(),
            IndexError::Codec => "path block codec: invalid records".to_owned(),
            IndexError::CountMismatch => "path block record count mismatch".to_owned(),
            IndexError::Posting(e) => e.message(),
            IndexError::InvalidHeader => "invalid compact index header".to_owned(),
            IndexError::ShortHeader => "failed to fill whole buffer".to_owned(),
        }
    }
}

/// Where a block is, how long it is, and how many records it holds.
#[derive(Debug, Clone, Copy, PartialEq, Eq, Structural)]
pub struct BlockDesc {
    pub offset: u64,
    pub len: u32,
    pub count: u16,
}

/// A trigram, and where its posting list is.
#[derive(Debug, Clone, Copy, PartialEq, Eq, Structural)]
pub struct DictEntry {
    pub gram: u32,
    pub len: u32,
    pub offset: u64,
}

/// An immutable index.
pub struct CompactIndex {
    map: Vec<u8>,
    generation: u64,
    record_count: u64,
    blocks: Vec<BlockDesc>,
    dict: Vec<DictEntry>,
}

/// An index as a mathematical value.
#[verifier::ext_equal]
pub struct CompactView {
    /// The whole file.
    pub map: Seq<u8>,
    pub generation: u64,
    pub record_count: u64,
    pub blocks: Seq<BlockDesc>,
    pub dict: Seq<DictEntry>,
}

impl View for CompactIndex {
    type V = CompactView;

    closed spec fn view(&self) -> CompactView {
        CompactView {
            map: self.map@,
            generation: self.generation,
            record_count: self.record_count,
            blocks: self.blocks@,
            dict: self.dict@,
        }
    }
}

// ---------------------------------------------------------------------------
// Opening

/// A section of the file, by a 64-bit offset.
pub open spec fn wide_section(data: Seq<u8>, offset: u64, len: u32) -> Result<
    Seq<u8>,
    SectionError,
> {
    if offset > usize::MAX {
        Err(SectionError::OffsetOverflow)
    } else {
        crate::bytes::section_of(data, offset as usize, len as usize)
    }
}

/// Where entry `i` of a table of 16-byte entries stands.
pub open spec fn entry_position(base: u64, i: int) -> Option<usize> {
    if base + 16 * i <= usize::MAX {
        Some((base + 16 * i) as usize)
    } else {
        None
    }
}

/// The descriptor of block `i`.
pub open spec fn desc_read(data: Seq<u8>, base: u64, i: int) -> Result<BlockDesc, SectionError> {
    match entry_position(base, i) {
        None => Err(SectionError::OffsetOverflow),
        Some(p) => match crate::bytes::number_at(data, p, 8) {
            Err(e) => Err(e),
            Ok(offset) => match crate::bytes::number_at(data, (p + 8) as usize, 4) {
                Err(e) => Err(e),
                Ok(len) => match crate::bytes::number_at(data, (p + 12) as usize, 2) {
                    Err(e) => Err(e),
                    Ok(count) => match wide_section(data, offset as u64, len as u32) {
                        Err(e) => Err(e),
                        Ok(_) => Ok(
                            BlockDesc {
                                offset: offset as u64,
                                len: len as u32,
                                count: count as u16,
                            },
                        ),
                    },
                },
            },
        },
    }
}

/// The first `n` descriptors, or the first error.
pub open spec fn descs_read(data: Seq<u8>, base: u64, n: nat) -> Result<
    Seq<BlockDesc>,
    SectionError,
>
    decreases n,
{
    if n == 0 {
        Ok(Seq::empty())
    } else {
        match descs_read(data, base, (n - 1) as nat) {
            Err(e) => Err(e),
            Ok(s) => match desc_read(data, base, n - 1) {
                Err(e) => Err(e),
                Ok(d) => Ok(s.push(d)),
            },
        }
    }
}

/// The dictionary entry `i`.
pub open spec fn entry_read(data: Seq<u8>, base: u64, i: int) -> Result<DictEntry, SectionError> {
    match entry_position(base, i) {
        None => Err(SectionError::OffsetOverflow),
        Some(p) => match crate::bytes::number_at(data, p, 4) {
            Err(e) => Err(e),
            Ok(gram) => match crate::bytes::number_at(data, (p + 4) as usize, 4) {
                Err(e) => Err(e),
                Ok(len) => match crate::bytes::number_at(data, (p + 8) as usize, 8) {
                    Err(e) => Err(e),
                    Ok(offset) => match wide_section(data, offset as u64, len as u32) {
                        Err(e) => Err(e),
                        Ok(_) => Ok(
                            DictEntry { gram: gram as u32, len: len as u32, offset: offset as u64 },
                        ),
                    },
                },
            },
        },
    }
}

/// The first `n` dictionary entries, or the first error.
pub open spec fn entries_read(data: Seq<u8>, base: u64, n: nat) -> Result<
    Seq<DictEntry>,
    SectionError,
>
    decreases n,
{
    if n == 0 {
        Ok(Seq::empty())
    } else {
        match entries_read(data, base, (n - 1) as nat) {
            Err(e) => Err(e),
            Ok(s) => match entry_read(data, base, n - 1) {
                Err(e) => Err(e),
                Ok(d) => Ok(s.push(d)),
            },
        }
    }
}

/// The trigrams ascend.
pub open spec fn grams_ascend(dict: Seq<DictEntry>) -> bool {
    forall|i: int, j: int| 0 <= i < j < dict.len() ==> dict[i].gram < dict[j].gram
}

/// The number spelled by some bytes of the header.
pub open spec fn header_number(data: Seq<u8>, from: int, to: int) -> nat {
    crate::bytes::le_value(data.subrange(from, to))
}

/// What opening a file gives. `stale` says whether a marker beside it forbids its use.
pub open spec fn opened_index(map: Seq<u8>, stale: bool) -> Result<CompactView, IndexError> {
    let n = map.len() - 4;
    let data = map.take(n);
    if stale {
        Err(IndexError::Stale)
    } else if map.len() < 68 || map.take(8) != crate::compact::index_magic() {
        Err(IndexError::NotAnIndex)
    } else if crate::checksum::crc32_of(data) != crate::bytes::le_value(map.skip(n)) {
        Err(IndexError::ChecksumMismatch)
    } else if header_number(data, 8, 12) != crate::compact::VERSION {
        Err(IndexError::UnsupportedVersion)
    } else if header_number(data, 12, 16) != crate::compact::BLOCK_RECORDS {
        Err(IndexError::UnsupportedBlockSize)
    } else {
        match descs_read(data, header_number(data, 32, 40) as u64, header_number(data, 24, 28)) {
            Err(e) => Err(IndexError::Section(e)),
            Ok(blocks) => match entries_read(
                data,
                header_number(data, 48, 56) as u64,
                header_number(data, 28, 32),
            ) {
                Err(e) => Err(IndexError::Section(e)),
                Ok(dict) => if grams_ascend(dict) {
                    Ok(
                        CompactView {
                            map,
                            generation: header_number(data, 56, 64) as u64,
                            record_count: header_number(data, 16, 24) as u64,
                            blocks,
                            dict,
                        },
                    )
                } else {
                    Err(IndexError::UnsortedDictionary)
                },
            },
        }
    }
}

/// An early error is the error of the whole table.
proof fn lemma_desc_error(data: Seq<u8>, base: u64, i: int, n: nat)
    requires
        0 <= i < n,
        descs_read(data, base, i as nat) is Ok,
        desc_read(data, base, i) is Err,
    ensures
        descs_read(data, base, n) == Err::<Seq<BlockDesc>, SectionError>(
            desc_read(data, base, i)->Err_0,
        ),
    decreases n,
{
    if i < n - 1 {
        lemma_desc_error(data, base, i, (n - 1) as nat);
    }
}

/// An early error is the error of the whole table.
proof fn lemma_entry_error(data: Seq<u8>, base: u64, i: int, n: nat)
    requires
        0 <= i < n,
        entries_read(data, base, i as nat) is Ok,
        entry_read(data, base, i) is Err,
    ensures
        entries_read(data, base, n) == Err::<Seq<DictEntry>, SectionError>(
            entry_read(data, base, i)->Err_0,
        ),
    decreases n,
{
    if i < n - 1 {
        lemma_entry_error(data, base, i, (n - 1) as nat);
    }
}

fn section(data: &[u8], offset: u64, len: u32) -> (r: Result<&[u8], SectionError>)
    ensures
        match r {
            Ok(s) => wide_section(data@, offset, len) == Ok::<Seq<u8>, SectionError>(s@),
            Err(e) => wide_section(data@, offset, len) == Err::<Seq<u8>, SectionError>(e),
        },
{
    if offset > usize::MAX as u64 {
        return Err(SectionError::OffsetOverflow);
    }
    crate::bytes::checked(data, offset as usize, len as usize)
}

fn position(base: u64, i: u32) -> (r: Option<usize>)
    ensures
        r == entry_position(base, i as int),
{
    match base.checked_add(16 * (i as u64)) {
        Some(p) => {
            if p <= usize::MAX as u64 {
                Some(p as usize)
            } else {
                None
            }
        },
        None => None,
    }
}

fn read_desc(data: &[u8], base: u64, i: u32) -> (r: Result<BlockDesc, SectionError>)
    ensures
        r == desc_read(data@, base, i as int),
{
    let p: usize = match position(base, i) {
        Some(p) => p,
        None => {
            return Err(SectionError::OffsetOverflow);
        },
    };
    let offset: u64 = match crate::bytes::u64_at(data, p) {
        Ok(n) => n,
        Err(e) => {
            return Err(e);
        },
    };
    let total: usize = data.len();
    assert(p + 8 <= total);
    let len: u32 = match crate::bytes::u32_at(data, p + 8) {
        Ok(n) => n,
        Err(e) => {
            return Err(e);
        },
    };
    let count: u16 = match crate::bytes::u16_at(data, p + 12) {
        Ok(n) => n,
        Err(e) => {
            return Err(e);
        },
    };
    match section(data, offset, len) {
        Ok(_) => Ok(BlockDesc { offset, len, count }),
        Err(e) => Err(e),
    }
}

fn read_descs(data: &[u8], base: u64, n: u32) -> (r: Result<Vec<BlockDesc>, SectionError>)
    ensures
        match r {
            Ok(v) => descs_read(data@, base, n as nat) == Ok::<Seq<BlockDesc>, SectionError>(v@)
                && v@.len() == n,
            Err(e) => descs_read(data@, base, n as nat) == Err::<Seq<BlockDesc>, SectionError>(e),
        },
{
    let mut out: Vec<BlockDesc> = Vec::new();
    let mut i: u32 = 0;
    assert(out@ =~= Seq::empty());
    while i < n
        invariant
            i <= n,
            out@.len() == i,
            descs_read(data@, base, i as nat) == Ok::<Seq<BlockDesc>, SectionError>(out@),
        decreases n - i,
    {
        match read_desc(data, base, i) {
            Ok(d) => {
                out.push(d);
            },
            Err(e) => {
                proof {
                    lemma_desc_error(data@, base, i as int, n as nat);
                }
                return Err(e);
            },
        }
        i += 1;
    }
    Ok(out)
}

fn read_entry(data: &[u8], base: u64, i: u32) -> (r: Result<DictEntry, SectionError>)
    ensures
        r == entry_read(data@, base, i as int),
{
    let p: usize = match position(base, i) {
        Some(p) => p,
        None => {
            return Err(SectionError::OffsetOverflow);
        },
    };
    let gram: u32 = match crate::bytes::u32_at(data, p) {
        Ok(n) => n,
        Err(e) => {
            return Err(e);
        },
    };
    let total: usize = data.len();
    assert(p + 4 <= total);
    let len: u32 = match crate::bytes::u32_at(data, p + 4) {
        Ok(n) => n,
        Err(e) => {
            return Err(e);
        },
    };
    let offset: u64 = match crate::bytes::u64_at(data, p + 8) {
        Ok(n) => n,
        Err(e) => {
            return Err(e);
        },
    };
    match section(data, offset, len) {
        Ok(_) => Ok(DictEntry { gram, len, offset }),
        Err(e) => Err(e),
    }
}

fn read_entries(data: &[u8], base: u64, n: u32) -> (r: Result<Vec<DictEntry>, SectionError>)
    ensures
        match r {
            Ok(v) => entries_read(data@, base, n as nat) == Ok::<Seq<DictEntry>, SectionError>(v@),
            Err(e) => entries_read(data@, base, n as nat) == Err::<Seq<DictEntry>, SectionError>(e),
        },
{
    let mut out: Vec<DictEntry> = Vec::new();
    let mut i: u32 = 0;
    assert(out@ =~= Seq::empty());
    while i < n
        invariant
            i <= n,
            entries_read(data@, base, i as nat) == Ok::<Seq<DictEntry>, SectionError>(out@),
        decreases n - i,
    {
        match read_entry(data, base, i) {
            Ok(d) => {
                out.push(d);
            },
            Err(e) => {
                proof {
                    lemma_entry_error(data@, base, i as int, n as nat);
                }
                return Err(e);
            },
        }
        i += 1;
    }
    Ok(out)
}

fn ascending(dict: &Vec<DictEntry>) -> (r: bool)
    ensures
        r == grams_ascend(dict@),
{
    let mut i: usize = 1;
    while i < dict.len()
        invariant
            1 <= i,
            i <= dict@.len() || dict@.len() == 0,
            forall|a: int, b: int|
                0 <= a < b < i && b < dict@.len() ==> dict@[a].gram < dict@[b].gram,
        decreases dict@.len() - i,
    {
        if dict[i - 1].gram >= dict[i].gram {
            assert(!(dict@[i - 1].gram < dict@[i as int].gram));
            return false;
        }
        proof {
            assert forall|a: int, b: int|
                0 <= a < b < i + 1 && b < dict@.len() implies dict@[a].gram < dict@[b].gram by {
                if b == i && a < i - 1 {
                    assert(dict@[a].gram < dict@[i - 1].gram);
                }
            }
        }
        i += 1;
    }
    true
}

// ---------------------------------------------------------------------------
// Blocks and postings

/// The records whose encoding stands at the start of some bytes.
pub open spec fn decoded_records(raw: Seq<u8>) -> Option<Seq<RecordView>> {
    if exists|rs: Seq<RecordView>| (#[trigger] crate::codec::records_bytes(rs)).is_prefix_of(raw) {
        Some(
            choose|rs: Seq<RecordView>|
                (#[trigger] crate::codec::records_bytes(rs)).is_prefix_of(raw),
        )
    } else {
        None
    }
}

/// The records of a block.
pub open spec fn block_read(v: CompactView, id: u32) -> Result<Seq<RecordView>, IndexError> {
    if id >= v.blocks.len() {
        Err(IndexError::BlockOutOfRange)
    } else {
        let d = v.blocks[id as int];
        match wide_section(v.map, d.offset, d.len) {
            Err(e) => Err(IndexError::Section(e)),
            Ok(packed) => match crate::pack::zstd_unpacked(packed) {
                None => Err(IndexError::Decompression),
                Some(raw) => match decoded_records(raw) {
                    None => Err(IndexError::Codec),
                    Some(rs) => if rs.len() == d.count {
                        Ok(rs)
                    } else {
                        Err(IndexError::CountMismatch)
                    },
                },
            },
        }
    }
}

/// The blocks that a dictionary entry lists.
pub open spec fn posting_of(v: CompactView, d: DictEntry) -> Result<Seq<u32>, IndexError> {
    match wide_section(v.map, d.offset, d.len) {
        Err(e) => Err(IndexError::Section(e)),
        Ok(bytes) => match crate::varint::posting_read(bytes, 0) {
            Err(e) => Err(IndexError::Posting(e)),
            Ok(ids) => Ok(ids),
        },
    }
}

/// What two ascending lists have in common.
pub open spec fn meet(a: Seq<u32>, b: Seq<u32>) -> Seq<u32>
    decreases a.len() + b.len(),
{
    if a.len() == 0 || b.len() == 0 {
        Seq::empty()
    } else if a[0] < b[0] {
        meet(a.drop_first(), b)
    } else if a[0] > b[0] {
        meet(a, b.drop_first())
    } else {
        seq![a[0]] + meet(a.drop_first(), b.drop_first())
    }
}

/// Of ascending lists `meet` is the intersection, and ascends.
pub proof fn law_meet_is_intersection(a: Seq<u32>, b: Seq<u32>)
    requires
        crate::compact::ascending_ids(a),
        crate::compact::ascending_ids(b),
    ensures
        crate::compact::ascending_ids(meet(a, b)),
        forall|x: u32| #[trigger] meet(a, b).contains(x) <==> a.contains(x) && b.contains(x),
    decreases a.len() + b.len(),
{
    if a.len() == 0 || b.len() == 0 {
    } else {
        let (da, db) = (a.drop_first(), b.drop_first());
        assert forall|i: int, j: int| 0 <= i < j < da.len() implies da[i] < da[j] by {
            assert(a[i + 1] < a[j + 1]);
        }
        assert forall|i: int, j: int| 0 <= i < j < db.len() implies db[i] < db[j] by {
            assert(b[i + 1] < b[j + 1]);
        }
        lemma_first_or_rest(a);
        lemma_first_or_rest(b);
        if a[0] < b[0] {
            law_meet_is_intersection(da, b);
        } else if a[0] > b[0] {
            law_meet_is_intersection(a, db);
        } else {
            law_meet_is_intersection(da, db);
            let m = meet(da, db);
            let r = meet(a, b);
            assert forall|x: u32| #[trigger] r.contains(x) <==> a.contains(x) && b.contains(x) by {
                if r.contains(x) {
                    let k = r.index_of(x);
                    if k > 0 {
                        assert(m[k - 1] == x);
                        assert(m.contains(x));
                    }
                }
                if x == a[0] {
                    assert(r[0] == x);
                } else if m.contains(x) {
                    let k = m.index_of(x);
                    assert(r[k + 1] == x);
                }
            }
            assert forall|i: int, j: int| 0 <= i < j < r.len() implies r[i] < r[j] by {
                if i == 0 {
                    assert(r[j] == m[j - 1]);
                    assert(m.contains(m[j - 1]));
                    assert(da.contains(m[j - 1]));
                } else {
                    assert(r[i] == m[i - 1] && r[j] == m[j - 1]);
                }
            }
        }
    }
}

/// What stands in an ascending list is its first number or a larger one behind it.
proof fn lemma_first_or_rest(a: Seq<u32>)
    requires
        a.len() > 0,
        crate::compact::ascending_ids(a),
    ensures
        forall|x: u32| #[trigger] a.contains(x) <==> x == a[0] || a.drop_first().contains(x),
        forall|x: u32| #[trigger] a.drop_first().contains(x) ==> x > a[0],
{
    let d = a.drop_first();
    assert forall|x: u32| #[trigger] a.contains(x) <==> x == a[0] || d.contains(x) by {
        if a.contains(x) {
            let k = a.index_of(x);
            if k > 0 {
                assert(d[k - 1] == x);
            }
        }
        if d.contains(x) {
            let k = d.index_of(x);
            assert(a[k + 1] == x);
        }
    }
    assert forall|x: u32| #[trigger] d.contains(x) implies x > a[0] by {
        let k = d.index_of(x);
        assert(a[k + 1] == x);
    }
}

/// What two lists have in common.
pub fn intersect(a: &[u32], b: &[u32]) -> (out: Vec<u32>)
    ensures
        out@ == meet(a@, b@),
{
    let mut i: usize = 0;
    let mut j: usize = 0;
    let mut out: Vec<u32> = Vec::new();
    proof {
        assert(a@.skip(0) =~= a@);
        assert(b@.skip(0) =~= b@);
        assert(out@ + meet(a@, b@) =~= meet(a@, b@));
    }
    while i < a.len() && j < b.len()
        invariant
            i <= a@.len(),
            j <= b@.len(),
            out@ + meet(a@.skip(i as int), b@.skip(j as int)) == meet(a@, b@),
        decreases a@.len() - i + b@.len() - j,
    {
        let ghost (x, y) = (a@.skip(i as int), b@.skip(j as int));
        proof {
            assert(x.drop_first() =~= a@.skip(i + 1));
            assert(y.drop_first() =~= b@.skip(j + 1));
        }
        if a[i] < b[j] {
            i += 1;
        } else if a[i] > b[j] {
            j += 1;
        } else {
            let ghost before = out@;
            out.push(a[i]);
            assert(before + (seq![x[0]] + meet(x.drop_first(), y.drop_first())) =~= out@ + meet(
                x.drop_first(),
                y.drop_first(),
            ));
            i += 1;
            j += 1;
        }
    }
    proof {
        assert(meet(a@.skip(i as int), b@.skip(j as int)) =~= Seq::empty());
        assert(out@ + Seq::<u32>::empty() =~= out@);
    }
    out
}

// ---------------------------------------------------------------------------
// Candidates

/// The trigrams of the terms, ascending.
pub open spec fn gram_list(terms: Seq<Seq<char>>) -> Seq<u64> {
    choose|s: Seq<u64>| #[trigger] lists_grams(s, terms)
}

/// `s` lists the trigrams of the terms in ascending order.
pub open spec fn lists_grams(s: Seq<u64>, terms: Seq<Seq<char>>) -> bool {
    crate::order::strictly_ascending(s) && forall|g: u64| #[trigger]
        s.contains(g) <==> crate::trigram::texts_have(terms, g)
}

/// Two ascending lists of the same numbers are equal.
pub proof fn lemma_ascending_unique(a: Seq<u64>, b: Seq<u64>)
    requires
        crate::order::strictly_ascending(a),
        crate::order::strictly_ascending(b),
        forall|x: u64| a.contains(x) <==> b.contains(x),
    ensures
        a == b,
    decreases a.len(),
{
    if a.len() == 0 {
        if b.len() > 0 {
            assert(b.contains(b[0]));
            assert(a.contains(b[0]));
        }
        assert(a =~= b);
    } else {
        assert(a.contains(a.last()));
        assert(b.contains(a.last()));
        assert(b.len() > 0);
        assert(b.contains(b.last()));
        assert(a.contains(b.last()));
        let i = a.index_of(b.last());
        let j = b.index_of(a.last());
        assert(a[i] == b.last() && b[j] == a.last());
        assert(a.last() == b.last());
        let (fa, fb) = (a.drop_last(), b.drop_last());
        assert forall|x: u64| fa.contains(x) <==> fb.contains(x) by {
            if fa.contains(x) {
                let k = fa.index_of(x);
                assert(a[k] == x);
                assert(a.contains(x));
                let m = b.index_of(x);
                assert(b[m] == x);
                assert(m < b.len() - 1);
                assert(fb[m] == x);
            }
            if fb.contains(x) {
                let k = fb.index_of(x);
                assert(b[k] == x);
                assert(b.contains(x));
                let m = a.index_of(x);
                assert(a[m] == x);
                assert(m < a.len() - 1);
                assert(fa[m] == x);
            }
        }
        lemma_ascending_unique(fa, fb);
        assert(a =~= fa.push(a.last()));
        assert(b =~= fb.push(b.last()));
    }
}

/// A list of the trigrams is the list.
pub proof fn lemma_gram_list(s: Seq<u64>, terms: Seq<Seq<char>>)
    requires
        lists_grams(s, terms),
    ensures
        gram_list(terms) == s,
{
    let t = gram_list(terms);
    assert(lists_grams(t, terms));
    assert forall|x: u64| s.contains(x) <==> t.contains(x) by {
        assert(s.contains(x) <==> crate::trigram::texts_have(terms, x));
        assert(t.contains(x) <==> crate::trigram::texts_have(terms, x));
    }
    lemma_ascending_unique(s, t);
}

/// The entry of a trigram.
pub open spec fn entry_for(dict: Seq<DictEntry>, g: u64) -> Option<DictEntry> {
    if exists|i: int| 0 <= i < dict.len() && (#[trigger] dict[i]).gram == g {
        Some(dict[choose|i: int| 0 <= i < dict.len() && (#[trigger] dict[i]).gram == g])
    } else {
        None
    }
}

/// The entries of all trigrams of a list; none where one has no entry.
pub open spec fn entries_for(dict: Seq<DictEntry>, grams: Seq<u64>) -> Option<Seq<DictEntry>>
    decreases grams.len(),
{
    if grams.len() == 0 {
        Some(Seq::empty())
    } else {
        match (entries_for(dict, grams.drop_last()), entry_for(dict, grams.last())) {
            (Some(s), Some(d)) => Some(s.push(d)),
            _ => None,
        }
    }
}

/// The position of the first of the shortest posting lists.
pub open spec fn rarest(es: Seq<DictEntry>) -> int
    decreases es.len(),
{
    if es.len() <= 1 {
        0
    } else {
        let r = rarest(es.drop_last());
        if es.last().len < es[r].len {
            es.len() - 1
        } else {
            r
        }
    }
}

/// Some blocks narrowed down by the shortest posting lists, at most `left` of them.
/// Nothing more is read once no block is left.
pub open spec fn narrowed(v: CompactView, c: Seq<u32>, es: Seq<DictEntry>, left: nat) -> Result<
    Seq<u32>,
    IndexError,
>
    decreases left,
{
    if left == 0 || es.len() == 0 {
        Ok(c)
    } else {
        match posting_of(v, es[rarest(es)]) {
            Err(e) => Err(e),
            Ok(right) => {
                let d = meet(c, right);
                if d.len() == 0 {
                    Ok(d)
                } else {
                    narrowed(v, d, es.remove(rarest(es)), (left - 1) as nat)
                }
            },
        }
    }
}

/// The blocks in which the terms can occur. Three rare lists normally narrow them down
/// enough; exact verification follows in any case.
pub open spec fn candidates(v: CompactView, terms: Seq<Seq<char>>) -> Result<
    Seq<u32>,
    IndexError,
> {
    let grams = gram_list(terms);
    if grams.len() == 0 {
        Ok(Seq::new(v.blocks.len(), |i: int| i as u32))
    } else {
        match entries_for(v.dict, grams) {
            None => Ok(Seq::empty()),
            Some(es) => {
                let i = rarest(es);
                match posting_of(v, es[i]) {
                    Err(e) => Err(e),
                    Ok(first) => narrowed(v, first, es.remove(i), 2),
                }
            },
        }
    }
}

/// The entry of a trigram is the one entry with its number.
proof fn lemma_entry_for(dict: Seq<DictEntry>, i: int)
    requires
        grams_ascend(dict),
        0 <= i < dict.len(),
    ensures
        entry_for(dict, dict[i].gram as u64) == Some(dict[i]),
{
    let g = dict[i].gram as u64;
    let k = choose|k: int| 0 <= k < dict.len() && (#[trigger] dict[k]).gram == g;
    assert(0 <= k < dict.len() && dict[k].gram == g);
    if k != i {
        if k < i {
            assert(dict[k].gram < dict[i].gram);
        } else {
            assert(dict[i].gram < dict[k].gram);
        }
    }
}

/// A trigram without an entry leaves the whole list without.
proof fn lemma_no_entry(dict: Seq<DictEntry>, grams: Seq<u64>, i: int)
    requires
        0 <= i < grams.len(),
        entry_for(dict, grams[i]) is None,
    ensures
        entries_for(dict, grams) is None,
    decreases grams.len(),
{
    if i < grams.len() - 1 {
        assert(grams.drop_last()[i] == grams[i]);
        lemma_no_entry(dict, grams.drop_last(), i);
    }
}

fn find_entry(dict: &Vec<DictEntry>, g: u64) -> (r: Option<DictEntry>)
    requires
        grams_ascend(dict@),
    ensures
        r == entry_for(dict@, g),
{
    let mut low: usize = 0;
    let mut high: usize = dict.len();
    while low < high
        invariant
            low <= high <= dict@.len(),
            grams_ascend(dict@),
            forall|i: int| 0 <= i < low ==> (#[trigger] dict@[i]).gram < g,
            forall|i: int| high <= i < dict@.len() ==> (#[trigger] dict@[i]).gram > g,
        decreases high - low,
    {
        let mid: usize = low + (high - low) / 2;
        let m: u64 = dict[mid].gram as u64;
        if m < g {
            assert forall|i: int| 0 <= i < mid + 1 implies (#[trigger] dict@[i]).gram < g by {
                if i < mid {
                    assert(dict@[i].gram < dict@[mid as int].gram);
                }
            }
            low = mid + 1;
        } else if m > g {
            assert forall|i: int| mid <= i < dict@.len() implies (#[trigger] dict@[i]).gram > g by {
                if i > mid {
                    assert(dict@[mid as int].gram < dict@[i].gram);
                }
            }
            high = mid;
        } else {
            proof {
                lemma_entry_for(dict@, mid as int);
            }
            return Some(dict[mid]);
        }
    }
    None
}

pub proof fn lemma_rarest_bound(es: Seq<DictEntry>)
    requires
        es.len() > 0,
    ensures
        0 <= rarest(es) < es.len(),
    decreases es.len(),
{
    if es.len() > 1 {
        lemma_rarest_bound(es.drop_last());
    }
}

fn take_rarest(es: &mut Vec<DictEntry>) -> (d: DictEntry)
    requires
        old(es)@.len() > 0,
    ensures
        d == old(es)@[rarest(old(es)@)],
        final(es)@ == old(es)@.remove(rarest(old(es)@)),
{
    let mut best: usize = 0;
    let mut i: usize = 1;
    assert(es@.take(1).len() == 1);
    while i < es.len()
        invariant
            1 <= i <= es@.len(),
            best < i,
            best == rarest(es@.take(i as int)),
            es@ == old(es)@,
        decreases es@.len() - i,
    {
        assert(es@.take(i + 1).drop_last() =~= es@.take(i as int));
        assert(es@.take(i + 1).last() == es@[i as int]);
        if es[i].len < es[best].len {
            best = i;
        }
        i += 1;
    }
    assert(es@.take(i as int) =~= es@);
    es.remove(best)
}

// ---------------------------------------------------------------------------
// Searching

/// The records that an overlay leaves standing.
pub open spec fn visible(o: OverlayView, rs: Seq<RecordView>) -> Seq<RecordView>
    decreases rs.len(),
{
    if rs.len() == 0 {
        Seq::empty()
    } else {
        let front = visible(o, rs.drop_last());
        if crate::delta::hides(o, rs.last().path) {
            front
        } else {
            front.push(rs.last())
        }
    }
}

/// The records of some blocks that an overlay leaves standing, or the first error.
pub open spec fn standing_in(v: CompactView, o: OverlayView, ids: Seq<u32>) -> Result<
    Seq<RecordView>,
    IndexError,
>
    decreases ids.len(),
{
    if ids.len() == 0 {
        Ok(Seq::empty())
    } else {
        match standing_in(v, o, ids.drop_last()) {
            Err(e) => Err(e),
            Ok(front) => match block_read(v, ids.last()) {
                Err(e) => Err(e),
                Ok(rs) => Ok(front + visible(o, rs)),
            },
        }
    }
}

/// `us` lists the records of a map, each once.
pub open spec fn lists_records(us: Seq<RecordView>, m: Map<Seq<char>, RecordView>) -> bool {
    &&& forall|i: int, j: int| 0 <= i < j < us.len() ==> us[i].path != us[j].path
    &&& forall|i: int|
        0 <= i < us.len() ==> m.contains_key((#[trigger] us[i]).path) && m[us[i].path] == us[i]
    &&& forall|p: Seq<char>| #[trigger]
        m.contains_key(p) ==> exists|i: int| 0 <= i < us.len() && (#[trigger] us[i]).path == p
}

/// The order of a search in a compact index: the path breaks ties.
pub open spec fn compact_ranking(q: QueryView) -> Ranking {
    Ranking { sort: q.sort, paths_break_ties: true }
}

/// What a search looks at: the candidate blocks as far as the overlay leaves them
/// standing, and the records of the overlay.
pub open spec fn searched(
    v: CompactView,
    o: OverlayView,
    q: QueryView,
    base: Seq<RecordView>,
    us: Seq<RecordView>,
) -> bool {
    &&& candidates(v, q.terms) is Ok
    &&& standing_in(v, o, candidates(v, q.terms)->Ok_0) == Ok::<Seq<RecordView>, IndexError>(base)
    &&& lists_records(us, o.upserts)
}

/// The answer of a search over a base and an overlay.
pub open spec fn search_answer(
    v: CompactView,
    o: OverlayView,
    q: QueryView,
    hits: Seq<HitView>,
    stats: SearchStats,
) -> bool {
    exists|base: Seq<RecordView>, us: Seq<RecordView>|
        #[trigger] searched(v, o, q, base, us) && ({
            let found = crate::index::hits_among(q, base + us);
            &&& crate::index::answers(compact_ranking(q), q.limit, found, hits)
            &&& stats.scanned == crate::rank::capped(
                v.record_count as nat + crate::delta::overlay_size(o) as nat,
            )
            &&& stats.matched == crate::rank::capped(found.len())
        })
}

/// The first error of a search.
pub open spec fn search_error(
    v: CompactView,
    o: OverlayView,
    q: QueryView,
) -> Option<IndexError> {
    match candidates(v, q.terms) {
        Err(e) => Some(e),
        Ok(ids) => match standing_in(v, o, ids) {
            Err(e) => Some(e),
            Ok(_) => None,
        },
    }
}

/// Hits of two lists of records.
pub proof fn lemma_hits_split(q: QueryView, a: Seq<RecordView>, b: Seq<RecordView>)
    ensures
        crate::index::hits_among(q, a + b) == crate::index::hits_among(q, a)
            + crate::index::hits_among(q, b),
    decreases b.len(),
{
    if b.len() == 0 {
        assert(a + b =~= a);
        assert(crate::index::hits_among(q, a) + crate::index::hits_among(q, b)
            =~= crate::index::hits_among(q, a));
    } else {
        lemma_hits_split(q, a, b.drop_last());
        assert((a + b).drop_last() =~= a + b.drop_last());
        assert(crate::index::hits_among(q, a + b) =~= crate::index::hits_among(q, a)
            + crate::index::hits_among(q, b));
    }
}

/// Offers the hits among records, shadowed ones left out.
fn offer_records(
    q: &Query,
    rs: &[FileRecord],
    overlay: Option<&DeltaIndex>,
    found: &mut Collector,
)
    requires
        old(found).wf(),
        overlay matches Some(d) ==> d.wf(),
    ensures
        final(found).wf(),
        final(found).by() == old(found).by(),
        final(found).cap() == old(found).cap(),
        final(found).offered() == old(found).offered().add(
            crate::index::hits_among(
                q@,
                visible(overlay_of(overlay), crate::types::record_views(rs@)),
            ).to_multiset(),
        ),
{
    let ghost o = overlay_of(overlay);
    let ghost views = crate::types::record_views(rs@);
    let ghost qv = q@;
    let mut i: usize = 0;
    proof {
        assert(views.take(0) =~= Seq::empty());
        let none = crate::index::hits_among(qv, visible(o, views.take(0)));
        none.to_multiset_ensures();
        assert(none.to_multiset() =~= vstd::multiset::Multiset::empty());
        assert(found.offered() =~= old(found).offered().add(none.to_multiset()));
    }
    while i < rs.len()
        invariant
            i <= rs@.len(),
            o == overlay_of(overlay),
            overlay matches Some(d) ==> d.wf(),
            views == crate::types::record_views(rs@),
            qv == q@,
            found.wf(),
            found.by() == old(found).by(),
            found.cap() == old(found).cap(),
            found.offered() == old(found).offered().add(
                crate::index::hits_among(qv, visible(o, views.take(i as int))).to_multiset(),
            ),
        decreases rs@.len() - i,
    {
        let r = &rs[i];
        let ghost before = visible(o, views.take(i as int));
        let ghost after = visible(o, views.take(i + 1));
        proof {
            assert(views.take(i + 1).drop_last() =~= views.take(i as int));
            assert(views.take(i + 1).last() == r@);
            crate::index::hits_among(qv, before).to_multiset_ensures();
            if !crate::delta::hides(o, r@.path) {
                assert(after.drop_last() =~= before);
            }
        }
        let hidden: bool = match overlay {
            Some(d) => d.shadows(r.path.as_str()),
            None => false,
        };
        if !hidden && q.passes_filters(r) {
            if let Some(score) = q.score(r) {
                found.offer(SearchHit { score, record: r.clone() });
                proof {
                    let h = HitView { score, record: r@ };
                    let hs = crate::index::hits_among(qv, before);
                    assert(crate::index::hits_among(qv, after) =~= hs.push(h));
                    broadcast use vstd::multiset::group_multiset_axioms;

                    assert(found.offered() =~= old(found).offered().add(
                        hs.push(h).to_multiset(),
                    ));
                }
            }
        }
        i += 1;
    }
    assert(views.take(i as int) =~= views);
}

/// The overlay of a delta, or an empty one.
pub open spec fn overlay_of(d: Option<&DeltaIndex>) -> OverlayView {
    match d {
        Some(x) => x@.overlay,
        None => crate::delta::no_changes(),
    }
}

impl CompactIndex {
    /// The tables fit the file, and the trigrams ascend.
    pub closed spec fn wf(&self) -> bool {
        grams_ascend(self.dict@) && self.blocks@.len() <= u32::MAX
    }

    /// Builds the file of some records, bound to a generation of its own: the one that was
    /// drawn, and never zero.
    pub fn build(records: &[FileRecord], drawn: u64) -> (r: Result<
        (Vec<u8>, BuildStats),
        BuildError,
    >)
        ensures
            ({
                let views = crate::types::record_views(records@);
                let safe = forall|i: int|
                    0 <= i < records@.len() ==> crate::scope::safe_path(
                        (#[trigger] records@[i])@.path,
                    );
                match r {
                    Ok((image, stats)) => {
                        &&& records@.len() <= u32::MAX && safe
                        &&& crate::compact::built(
                            image@,
                            stats,
                            crate::compact::numbered(drawn),
                            views,
                        )
                        &&& stats.generation == crate::compact::numbered(drawn)
                        &&& stats.generation != 0
                    },
                    Err(BuildError::TooManyRecords) => records@.len() > u32::MAX,
                    Err(BuildError::UnsafePath) => records@.len() <= u32::MAX && !safe,
                    Err(BuildError::PostingTooLarge) => records@.len() <= u32::MAX && safe
                        && crate::compact::posting_too_large(views),
                    Err(e) => records@.len() <= u32::MAX && safe && crate::compact::cannot_pack(
                        views,
                        e,
                    ),
                }
            }),
    {
        let generation: u64 = crate::compact::numbered_generation(drawn);
        crate::compact::build_image(records, generation)
    }

    /// Opens a file from its content. `stale` says whether a marker beside it forbids its
    /// use.
    pub fn open(map: Vec<u8>, stale: bool) -> (r: Result<CompactIndex, IndexError>)
        ensures
            match r {
                Ok(index) => index.wf() && opened_index(map@, stale) == Ok::<
                    CompactView,
                    IndexError,
                >(index@),
                Err(e) => opened_index(map@, stale) == Err::<CompactView, IndexError>(e),
            },
    {
        if stale {
            return Err(IndexError::Stale);
        }
        let total: usize = map.len();
        if total < 68 {
            return Err(IndexError::NotAnIndex);
        }
        let magic: Vec<u8> = vec![0x4e, 0x45, 0x55, 0x54, 0x49, 0x44, 0x58, 0x31];
        assert(magic@ =~= crate::compact::index_magic());
        assert(map@.subrange(0, 8) =~= map@.take(8));
        if !crate::bytes::same_bytes(
            vstd::slice::slice_subrange(map.as_slice(), 0, 8),
            magic.as_slice(),
        ) {
            return Err(IndexError::NotAnIndex);
        }
        let data = vstd::slice::slice_subrange(map.as_slice(), 0, total - 4);
        let stored: u32 = crate::bytes::le_u32(
            vstd::slice::slice_subrange(map.as_slice(), total - 4, total),
        );
        proof {
            assert(data@ =~= map@.take(total - 4));
            assert(map@.subrange(total - 4, total as int) =~= map@.skip(total - 4));
        }
        if crate::checksum::crc32(data) != stored {
            return Err(IndexError::ChecksumMismatch);
        }
        if crate::bytes::le_u32(vstd::slice::slice_subrange(data, 8, 12))
            != crate::compact::VERSION {
            return Err(IndexError::UnsupportedVersion);
        }
        if crate::bytes::le_u32(vstd::slice::slice_subrange(data, 12, 16))
            != crate::compact::BLOCK_RECORDS as u32 {
            return Err(IndexError::UnsupportedBlockSize);
        }
        let record_count: u64 = crate::bytes::le_u64(vstd::slice::slice_subrange(data, 16, 24));
        let generation: u64 = crate::bytes::le_u64(vstd::slice::slice_subrange(data, 56, 64));
        let block_count: u32 = crate::bytes::le_u32(vstd::slice::slice_subrange(data, 24, 28));
        let dict_count: u32 = crate::bytes::le_u32(vstd::slice::slice_subrange(data, 28, 32));
        let desc_offset: u64 = crate::bytes::le_u64(vstd::slice::slice_subrange(data, 32, 40));
        let dict_offset: u64 = crate::bytes::le_u64(vstd::slice::slice_subrange(data, 48, 56));
        let blocks = match read_descs(data, desc_offset, block_count) {
            Ok(b) => b,
            Err(e) => {
                return Err(IndexError::Section(e));
            },
        };
        let dict = match read_entries(data, dict_offset, dict_count) {
            Ok(d) => d,
            Err(e) => {
                return Err(IndexError::Section(e));
            },
        };
        if !ascending(&dict) {
            return Err(IndexError::UnsortedDictionary);
        }
        Ok(CompactIndex { map, generation, record_count, blocks, dict })
    }

    /// Verifies a staged file and hands back the bytes that take the place of the published
    /// one.
    pub fn publish(staged: Vec<u8>, stale: bool) -> (r: Result<Vec<u8>, IndexError>)
        ensures
            match r {
                Ok(b) => b@ == staged@ && opened_index(staged@, stale) is Ok,
                Err(e) => opened_index(staged@, stale) == Err::<CompactView, IndexError>(e),
            },
    {
        match Self::open(staged, stale) {
            Ok(index) => {
                let CompactIndex { map, .. } = index;
                Ok(map)
            },
            Err(e) => Err(e),
        }
    }

    /// How many records the index holds.
    pub fn len(&self) -> (r: u64)
        ensures
            r == self@.record_count,
    {
        self.record_count
    }

    /// Whether the index holds no records.
    pub fn is_empty(&self) -> (r: bool)
        ensures
            r == (self@.record_count == 0),
    {
        self.record_count == 0
    }

    /// The generation of the index.
    pub fn generation(&self) -> (r: u64)
        ensures
            r == self@.generation,
    {
        self.generation
    }

    /// How many bytes the file takes.
    pub fn mapped_bytes(&self) -> (r: usize)
        ensures
            r == self@.map.len(),
    {
        self.map.len()
    }

    /// The generation in a header: just enough to detect that a file was replaced. A caller
    /// that observes a change must open the file, which checks all of it.
    pub fn generation_on_disk(header: &[u8], stale: bool) -> (r: Result<u64, IndexError>)
        ensures
            r == if stale {
                Err::<u64, IndexError>(IndexError::Stale)
            } else if header@.len() < 64 {
                Err(IndexError::ShortHeader)
            } else if header@.take(8) != crate::compact::index_magic() || header_number(
                header@,
                8,
                12,
            ) != crate::compact::VERSION {
                Err(IndexError::InvalidHeader)
            } else {
                Ok(header_number(header@, 56, 64) as u64)
            },
    {
        if stale {
            return Err(IndexError::Stale);
        }
        if header.len() < 64 {
            return Err(IndexError::ShortHeader);
        }
        let magic: Vec<u8> = vec![0x4e, 0x45, 0x55, 0x54, 0x49, 0x44, 0x58, 0x31];
        assert(magic@ =~= crate::compact::index_magic());
        assert(header@.subrange(0, 8) =~= header@.take(8));
        if !crate::bytes::same_bytes(
            vstd::slice::slice_subrange(header, 0, 8),
            magic.as_slice(),
        ) || crate::bytes::le_u32(vstd::slice::slice_subrange(header, 8, 12))
            != crate::compact::VERSION {
            return Err(IndexError::InvalidHeader);
        }
        Ok(crate::bytes::le_u64(vstd::slice::slice_subrange(header, 56, 64)))
    }

    fn decode_posting(&self, d: DictEntry) -> (r: Result<Vec<u32>, IndexError>)
        ensures
            match r {
                Ok(ids) => posting_of(self@, d) == Ok::<Seq<u32>, IndexError>(ids@),
                Err(e) => posting_of(self@, d) == Err::<Seq<u32>, IndexError>(e),
            },
    {
        match section(self.map.as_slice(), d.offset, d.len) {
            Err(e) => Err(IndexError::Section(e)),
            Ok(bytes) => match crate::varint::decode_posting(bytes) {
                Ok(ids) => Ok(ids),
                Err(e) => Err(IndexError::Posting(e)),
            },
        }
    }

    /// The records of a block.
    pub fn read_block(&self, id: u32) -> (r: Result<Vec<FileRecord>, IndexError>)
        ensures
            match r {
                Ok(rs) => block_read(self@, id) == Ok::<Seq<RecordView>, IndexError>(
                    crate::types::record_views(rs@),
                ),
                Err(e) => block_read(self@, id) == Err::<Seq<RecordView>, IndexError>(e),
            },
    {
        if id as usize >= self.blocks.len() {
            return Err(IndexError::BlockOutOfRange);
        }
        let d = self.blocks[id as usize];
        let packed = match section(self.map.as_slice(), d.offset, d.len) {
            Ok(s) => s,
            Err(e) => {
                return Err(IndexError::Section(e));
            },
        };
        let raw = match crate::pack::zstd_unpack(packed) {
            Some(b) => b,
            None => {
                return Err(IndexError::Decompression);
            },
        };
        let size: usize = raw.len();
        match crate::codec::decode_records(raw.as_slice()) {
            None => Err(IndexError::Codec),
            Some(rs) => {
                proof {
                    let views = crate::types::record_views(rs@);
                    let chosen = decoded_records(raw@)->0;
                    assert(raw@.len() == size);
                    assert(crate::codec::records_bytes(views).is_prefix_of(raw@));
                    assert(crate::codec::records_bytes(chosen).is_prefix_of(raw@));
                    crate::codec::law_records_encoding_is_unique(views, chosen, raw@);
                }
                if rs.len() == d.count as usize {
                    Ok(rs)
                } else {
                    Err(IndexError::CountMismatch)
                }
            },
        }
    }

    /// The blocks in which the terms of a query can occur.
    pub fn candidate_blocks(&self, q: &Query) -> (r: Result<Vec<u32>, IndexError>)
        requires
            self.wf(),
        ensures
            match r {
                Ok(ids) => candidates(self@, q@.terms) == Ok::<Seq<u32>, IndexError>(ids@),
                Err(e) => candidates(self@, q@.terms) == Err::<Seq<u32>, IndexError>(e),
            },
    {
        let grams = crate::trigram::term_trigrams(&q.terms);
        proof {
            assert(lists_grams(grams@, q@.terms));
            lemma_gram_list(grams@, q@.terms);
        }
        if grams.len() == 0 {
            return Ok(self.all_blocks());
        }
        let mut entries: Vec<DictEntry> = Vec::new();
        let mut i: usize = 0;
        proof {
            assert(grams@.take(0) =~= Seq::empty());
            assert(entries@ =~= Seq::empty());
        }
        while i < grams.len()
            invariant
                i <= grams@.len(),
                self.wf(),
                gram_list(q@.terms) == grams@,
                grams@.len() > 0,
                entries@.len() == i,
                entries_for(self.dict@, grams@.take(i as int)) == Some(entries@),
            decreases grams@.len() - i,
        {
            proof {
                assert(grams@.take(i + 1).drop_last() =~= grams@.take(i as int));
                assert(grams@.take(i + 1).last() == grams@[i as int]);
            }
            match find_entry(&self.dict, grams[i]) {
                None => {
                    proof {
                        lemma_no_entry(self.dict@, grams@, i as int);
                    }
                    let none: Vec<u32> = Vec::new();
                    assert(none@ =~= Seq::empty());
                    return Ok(none);
                },
                Some(d) => {
                    entries.push(d);
                },
            }
            i += 1;
        }
        assert(grams@.take(i as int) =~= grams@);
        let first = take_rarest(&mut entries);
        let mut found = match self.decode_posting(first) {
            Ok(ids) => ids,
            Err(e) => {
                return Err(e);
            },
        };
        let ghost answer = candidates(self@, q@.terms);
        let mut left: usize = 2;
        while left > 0 && entries.len() > 0
            invariant
                left <= 2,
                answer == candidates(self@, q@.terms),
                answer == narrowed(self@, found@, entries@, left as nat),
            decreases left,
        {
            let d = take_rarest(&mut entries);
            let right = match self.decode_posting(d) {
                Ok(ids) => ids,
                Err(e) => {
                    return Err(e);
                },
            };
            found = intersect(found.as_slice(), right.as_slice());
            if found.len() == 0 {
                return Ok(found);
            }
            left -= 1;
        }
        Ok(found)
    }

    fn all_blocks(&self) -> (r: Vec<u32>)
        requires
            self.wf(),
        ensures
            r@ == Seq::new(self@.blocks.len(), |i: int| i as u32),
    {
        let n: u32 = self.blocks.len() as u32;
        let mut out: Vec<u32> = Vec::new();
        let mut i: u32 = 0;
        while i < n
            invariant
                i <= n == self.blocks@.len(),
                out@ == Seq::new(i as nat, |k: int| k as u32),
            decreases n - i,
        {
            out.push(i);
            i += 1;
            assert(out@ =~= Seq::new(i as nat, |k: int| k as u32));
        }
        out
    }

    /// Every base record in path order. Used by compaction to rewrite the base from current
    /// logical content rather than a log snapshot.
    pub fn records(&self) -> (r: Result<Vec<FileRecord>, IndexError>)
        requires
            self.wf(),
        ensures
            ({
                let all = standing_in(
                    self@,
                    crate::delta::no_changes(),
                    Seq::new(self@.blocks.len(), |i: int| i as u32),
                );
                match r {
                    Ok(rs) => all == Ok::<Seq<RecordView>, IndexError>(
                        crate::types::record_views(rs@),
                    ),
                    Err(e) => all == Err::<Seq<RecordView>, IndexError>(e),
                }
            }),
    {
        let ghost o = crate::delta::no_changes();
        let ids = self.all_blocks();
        let mut out: Vec<FileRecord> = Vec::new();
        let mut i: usize = 0;
        proof {
            assert(ids@.take(0) =~= Seq::empty());
            assert(crate::types::record_views(out@) =~= Seq::empty());
        }
        while i < ids.len()
            invariant
                i <= ids@.len(),
                o == crate::delta::no_changes(),
                ids@ == Seq::new(self@.blocks.len(), |i: int| i as u32),
                standing_in(self@, o, ids@.take(i as int)) == Ok::<Seq<RecordView>, IndexError>(
                    crate::types::record_views(out@),
                ),
            decreases ids@.len() - i,
        {
            proof {
                assert(ids@.take(i + 1).drop_last() =~= ids@.take(i as int));
                assert(ids@.take(i + 1).last() == ids@[i as int]);
            }
            match self.read_block(ids[i]) {
                Err(e) => {
                    proof {
                        lemma_standing_error(self@, o, ids@, i as int);
                    }
                    return Err(e);
                },
                Ok(rs) => {
                    let mut rs = rs;
                    let ghost before = out@;
                    let ghost added = rs@;
                    out.append(&mut rs);
                    proof {
                        let views = crate::types::record_views(added);
                        lemma_nothing_hidden(views);
                        assert(crate::types::record_views(out@) =~= crate::types::record_views(
                            before,
                        ) + views);
                    }
                },
            }
            i += 1;
        }
        assert(ids@.take(i as int) =~= ids@);
        Ok(out)
    }

    /// Searches the index.
    pub fn search(&self, q: &Query) -> (r: Result<(Vec<SearchHit>, SearchStats), IndexError>)
        requires
            self.wf(),
        ensures
            match r {
                Ok((hits, stats)) => search_answer(
                    self@,
                    crate::delta::no_changes(),
                    q@,
                    crate::rank::hit_views(hits@),
                    stats,
                ),
                Err(e) => search_error(self@, crate::delta::no_changes(), q@) == Some(e),
            },
    {
        self.search_overlay(q, None)
    }

    /// Searches the immutable base and the overlay as one logical index. Shadowed base paths
    /// are suppressed before ranking, so matched counts and result limits remain exact.
    pub fn search_with_delta(&self, q: &Query, delta: &DeltaIndex) -> (r: Result<
        (Vec<SearchHit>, SearchStats),
        IndexError,
    >)
        requires
            self.wf(),
            delta.wf(),
        ensures
            match r {
                Ok((hits, stats)) => search_answer(
                    self@,
                    delta@.overlay,
                    q@,
                    crate::rank::hit_views(hits@),
                    stats,
                ),
                Err(e) => search_error(self@, delta@.overlay, q@) == Some(e),
            },
    {
        self.search_overlay(q, Some(delta))
    }

    #[verifier::rlimit(30)]
    fn search_overlay(&self, q: &Query, delta: Option<&DeltaIndex>) -> (r: Result<
        (Vec<SearchHit>, SearchStats),
        IndexError,
    >)
        requires
            self.wf(),
            delta matches Some(d) ==> d.wf(),
        ensures
            match r {
                Ok((hits, stats)) => search_answer(
                    self@,
                    overlay_of(delta),
                    q@,
                    crate::rank::hit_views(hits@),
                    stats,
                ),
                Err(e) => search_error(self@, overlay_of(delta), q@) == Some(e),
            },
    {
        let watch = Stopwatch::start();
        let ghost o = overlay_of(delta);
        let ghost qv = q@;
        let ids = match self.candidate_blocks(q) {
            Ok(ids) => ids,
            Err(e) => {
                return Err(e);
            },
        };
        let ranking = Ranking { sort: q.sort, paths_break_ties: true };
        let mut found = Collector::new(ranking, q.limit);
        let twice: usize = q.limit.saturating_add(q.limit);
        let more: usize = q.limit.saturating_add(32);
        let prune_at: usize = if twice >= more {
            twice
        } else {
            more
        };
        let mut i: usize = 0;
        let ghost mut base: Seq<RecordView> = Seq::empty();
        proof {
            assert(ids@.take(0) =~= Seq::empty());
            lemma_no_hits(qv);
        }
        while i < ids.len()
            invariant
                i <= ids@.len(),
                o == overlay_of(delta),
                delta matches Some(d) ==> d.wf(),
                qv == q@,
                candidates(self@, qv.terms) == Ok::<Seq<u32>, IndexError>(ids@),
                standing_in(self@, o, ids@.take(i as int)) == Ok::<Seq<RecordView>, IndexError>(
                    base,
                ),
                found.wf(),
                found.by() == ranking,
                found.cap() == q.limit,
                found.offered() == crate::index::hits_among(qv, base).to_multiset(),
            decreases ids@.len() - i,
        {
            proof {
                assert(ids@.take(i + 1).drop_last() =~= ids@.take(i as int));
                assert(ids@.take(i + 1).last() == ids@[i as int]);
            }
            match self.read_block(ids[i]) {
                Err(e) => {
                    proof {
                        lemma_standing_error(self@, o, ids@, i as int);
                    }
                    return Err(e);
                },
                Ok(rs) => {
                    offer_records(q, rs.as_slice(), delta, &mut found);
                    proof {
                        let news = visible(o, crate::types::record_views(rs@));
                        lemma_hits_split(qv, base, news);
                        vstd::seq_lib::lemma_multiset_commutative(
                            crate::index::hits_among(qv, base),
                            crate::index::hits_among(qv, news),
                        );
                        base = base + news;
                    }
                },
            }
            found.prune(prune_at);
            i += 1;
        }
        assert(ids@.take(i as int) =~= ids@);
        let ghost mut us: Seq<RecordView> = Seq::empty();
        let mut changes: u64 = 0;
        match delta {
            Some(d) => {
                let ups = d.upserts();
                changes = d.change_count() as u64;
                offer_records(q, ups, None, &mut found);
                proof {
                    us = crate::types::record_views(ups@);
                    lemma_nothing_hidden(us);
                    lemma_lists_upserts(ups@, o.upserts);
                }
            },
            None => {
                proof {
                    assert(us =~= Seq::empty());
                    assert(found.offered() =~= found.offered().add(
                        crate::index::hits_among(qv, us).to_multiset(),
                    )) by {
                        lemma_no_hits(qv);
                        broadcast use vstd::multiset::group_multiset_axioms;

                    }
                    assert(lists_records(us, o.upserts));
                    assert(crate::delta::overlay_size(o) == 0) by {
                        assert(o.upserts.dom() =~= Set::empty());
                    }
                }
            },
        }
        proof {
            lemma_hits_split(qv, base, us);
            vstd::seq_lib::lemma_multiset_commutative(
                crate::index::hits_among(qv, base),
                crate::index::hits_among(qv, us),
            );
            crate::index::hits_among(qv, base + us).to_multiset_ensures();
        }
        let (hits, matched): (Vec<SearchHit>, u64) = found.finish();
        let stats = SearchStats {
            scanned: self.record_count.saturating_add(changes),
            matched,
            wall_us: watch.micros(),
        };
        assert(searched(self@, o, qv, base, us));
        Ok((hits, stats))
    }
}

/// An early error is the error of all blocks.
proof fn lemma_standing_error(v: CompactView, o: OverlayView, ids: Seq<u32>, i: int)
    requires
        0 <= i < ids.len(),
        standing_in(v, o, ids.take(i)) is Ok,
        block_read(v, ids[i]) is Err,
    ensures
        standing_in(v, o, ids) == Err::<Seq<RecordView>, IndexError>(block_read(v, ids[i])->Err_0),
    decreases ids.len(),
{
    if i == ids.len() - 1 {
        assert(ids.drop_last() =~= ids.take(i));
    } else {
        assert(ids.drop_last().take(i) =~= ids.take(i));
        lemma_standing_error(v, o, ids.drop_last(), i);
    }
}

/// An empty overlay hides nothing.
pub proof fn lemma_nothing_hidden(rs: Seq<RecordView>)
    ensures
        visible(crate::delta::no_changes(), rs) == rs,
    decreases rs.len(),
{
    if rs.len() > 0 {
        lemma_nothing_hidden(rs.drop_last());
        assert(rs.drop_last().push(rs.last()) =~= rs);
    } else {
        assert(visible(crate::delta::no_changes(), rs) =~= rs);
    }
}

/// Nothing is found in nothing.
proof fn lemma_no_hits(q: QueryView)
    ensures
        crate::index::hits_among(q, Seq::empty()).to_multiset()
            == vstd::multiset::Multiset::<HitView>::empty(),
{
    let none = crate::index::hits_among(q, Seq::empty());
    none.to_multiset_ensures();
    assert(none.to_multiset() =~= vstd::multiset::Multiset::<HitView>::empty());
}

/// The written records of an overlay list its map.
pub proof fn lemma_lists_upserts(ups: Seq<FileRecord>, m: Map<Seq<char>, RecordView>)
    requires
        crate::pathmap::ascending(crate::pathmap::keys_of(ups)),
        crate::pathmap::entries_of(ups) == m,
    ensures
        lists_records(crate::types::record_views(ups), m),
{
    let us = crate::types::record_views(ups);
    let keys = crate::pathmap::keys_of(ups);
    assert forall|i: int| 0 <= i < us.len() implies m.contains_key((#[trigger] us[i]).path)
        && m[us[i].path] == us[i] by {
        crate::pathmap::lemma_key_position(ups, i);
        assert(keys[i] == us[i].path);
    }
    assert forall|i: int, j: int| 0 <= i < j < us.len() implies us[i].path != us[j].path by {
        crate::pathmap::lemma_key_position(ups, i);
        crate::pathmap::lemma_key_position(ups, j);
        assert(keys[i] == us[i].path && keys[j] == us[j].path);
    }
    assert forall|p: Seq<char>| #[trigger] m.contains_key(p) implies exists|i: int|
        0 <= i < us.len() && (#[trigger] us[i]).path == p by {
        assert(keys.contains(p));
        let i = keys.index_of(p);
        assert(us[i].path == p);
    }
}

} // verus!
