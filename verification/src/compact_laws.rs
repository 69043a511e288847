//! What holds of a compact index as a whole: opening gives back what was built, trigram
//! filtering loses no match, and a search answers as a scan of all records would.

use crate::bytes::SectionError;
use crate::compact::GramView;
use crate::compact_index::{BlockDesc, CompactView, DictEntry, IndexError};
use crate::delta::OverlayView;
use crate::query::QueryView;
use crate::rank::{HitView, SearchStats};
use crate::types::RecordView;
use vstd::prelude::*;

verus! {

// ---------------------------------------------------------------------------
// Where the parts of a file are

proof fn lemma_joined_slice(parts: Seq<Seq<u8>>, i: int)
    requires
        0 <= i < parts.len(),
    ensures
        crate::compact::joined(parts.take(i)).len() + parts[i].len() <= crate::compact::joined(
            parts,
        ).len(),
        crate::compact::joined(parts).subrange(
            crate::compact::joined(parts.take(i)).len() as int,
            (crate::compact::joined(parts.take(i)).len() + parts[i].len()) as int,
        ) == parts[i],
    decreases parts.len(),
{
    let front = parts.drop_last();
    let before = crate::compact::joined(parts.take(i));
    let all = crate::compact::joined(parts);
    if i == parts.len() - 1 {
        assert(parts.take(i) =~= front);
        assert(all.subrange(before.len() as int, (before.len() + parts[i].len()) as int) =~= parts[i]);
    } else {
        lemma_joined_slice(front, i);
        assert(front.take(i) =~= parts.take(i));
        assert(all.subrange(before.len() as int, (before.len() + parts[i].len()) as int)
            =~= crate::compact::joined(front).subrange(
            before.len() as int,
            (before.len() + parts[i].len()) as int,
        ));
    }
}

proof fn lemma_desc_len(packed: Seq<Seq<u8>>, counts: Seq<nat>, i: int)
    ensures
        crate::compact::desc_bytes(packed, counts, i).len() == 16,
{
    crate::bytes::lemma_le_bytes_len(
        64 + 16 * packed.len() + crate::compact::joined(packed.take(i)).len(),
        8,
    );
    crate::bytes::lemma_le_bytes_len(packed[i].len(), 4);
    crate::bytes::lemma_le_bytes_len(counts[i], 2);
    crate::bytes::lemma_le_bytes_len(0, 2);
}

proof fn lemma_descs_slice(packed: Seq<Seq<u8>>, counts: Seq<nat>, n: nat, i: int)
    requires
        0 <= i < n,
    ensures
        crate::compact::descs_bytes(packed, counts, n).len() == 16 * n,
        crate::compact::descs_bytes(packed, counts, n).subrange(16 * i, 16 * i + 16)
            == crate::compact::desc_bytes(packed, counts, i),
    decreases n,
{
    lemma_descs_len(packed, counts, (n - 1) as nat);
    lemma_desc_len(packed, counts, n - 1);
    let front = crate::compact::descs_bytes(packed, counts, (n - 1) as nat);
    let all = crate::compact::descs_bytes(packed, counts, n);
    if i == n - 1 {
        assert(all.subrange(16 * i, 16 * i + 16) =~= crate::compact::desc_bytes(packed, counts, i));
    } else {
        lemma_descs_slice(packed, counts, (n - 1) as nat, i);
        assert(all.subrange(16 * i, 16 * i + 16) =~= front.subrange(16 * i, 16 * i + 16));
    }
}

proof fn lemma_descs_len(packed: Seq<Seq<u8>>, counts: Seq<nat>, n: nat)
    ensures
        crate::compact::descs_bytes(packed, counts, n).len() == 16 * n,
    decreases n,
{
    if n > 0 {
        lemma_descs_len(packed, counts, (n - 1) as nat);
        lemma_desc_len(packed, counts, n - 1);
    }
}

proof fn lemma_entry_len(dict: Seq<GramView>, at: nat, i: int)
    ensures
        crate::compact::entry_bytes(dict, at, i).len() == 16,
{
    crate::bytes::lemma_le_bytes_len(dict[i].gram as nat, 4);
    crate::bytes::lemma_le_bytes_len(crate::compact::posting_parts(dict)[i].len(), 4);
    crate::bytes::lemma_le_bytes_len(
        at + crate::compact::joined(crate::compact::posting_parts(dict).take(i)).len(),
        8,
    );
}

proof fn lemma_entries_len(dict: Seq<GramView>, at: nat, n: nat)
    ensures
        crate::compact::entries_bytes(dict, at, n).len() == 16 * n,
    decreases n,
{
    if n > 0 {
        lemma_entries_len(dict, at, (n - 1) as nat);
        lemma_entry_len(dict, at, n - 1);
    }
}

proof fn lemma_entries_slice(dict: Seq<GramView>, at: nat, n: nat, i: int)
    requires
        0 <= i < n,
    ensures
        crate::compact::entries_bytes(dict, at, n).subrange(16 * i, 16 * i + 16)
            == crate::compact::entry_bytes(dict, at, i),
    decreases n,
{
    lemma_entries_len(dict, at, n);
    lemma_entries_len(dict, at, (n - 1) as nat);
    lemma_entry_len(dict, at, n - 1);
    let front = crate::compact::entries_bytes(dict, at, (n - 1) as nat);
    let all = crate::compact::entries_bytes(dict, at, n);
    if i == n - 1 {
        assert(all.subrange(16 * i, 16 * i + 16) =~= crate::compact::entry_bytes(dict, at, i));
    } else {
        lemma_entries_slice(dict, at, (n - 1) as nat, i);
        assert(all.subrange(16 * i, 16 * i + 16) =~= front.subrange(16 * i, 16 * i + 16));
    }
}

/// The parts of a file and their places.
spec fn laid_out(
    map: Seq<u8>,
    data: Seq<u8>,
    generation: u64,
    records: nat,
    packed: Seq<Seq<u8>>,
    counts: Seq<nat>,
    dict: Seq<GramView>,
) -> bool {
    let n = packed.len();
    let m = dict.len();
    let blocks_at = 64 + 16 * n as int;
    let postings_at = crate::compact::postings_offset(packed) as int;
    let dict_at = crate::compact::dict_offset(packed, dict) as int;
    &&& data == crate::compact::body_bytes(generation, records, packed, counts, dict)
    &&& map.len() <= usize::MAX
    &&& map.len() == data.len() + 4
    &&& map.take(data.len() as int) == data
    &&& data.len() == dict_at + 16 * m
    &&& n <= 0x800_0000
    &&& m <= 0x100_0000
    &&& records <= u32::MAX
    &&& forall|i: int| 0 <= i < n ==> (#[trigger] packed[i]).len() <= u32::MAX
    &&& forall|i: int| 0 <= i < n ==> (#[trigger] counts[i]) <= 32
    &&& forall|i: int|
        0 <= i < m ==> (#[trigger] crate::compact::posting_parts(dict)[i]).len() <= u32::MAX
    &&& forall|i: int| 0 <= i < m ==> (#[trigger] dict[i]).gram < 0x100_0000
    &&& counts.len() == n
    &&& data.take(64) == crate::compact::header_bytes(
        generation,
        records,
        n,
        m,
        postings_at as nat,
        dict_at as nat,
    )
    &&& data.subrange(64, blocks_at) == crate::compact::descs_bytes(packed, counts, n)
    &&& data.subrange(blocks_at, postings_at) == crate::compact::joined(packed)
    &&& data.subrange(postings_at, dict_at) == crate::compact::joined(
        crate::compact::posting_parts(dict),
    )
    &&& data.subrange(dict_at, dict_at + 16 * m) == crate::compact::entries_bytes(
        dict,
        postings_at as nat,
        m,
    )
}

proof fn lemma_header_len(generation: u64, records: nat, n: nat, m: nat, p: nat, d: nat)
    ensures
        crate::compact::header_bytes(generation, records, n, m, p, d).len() == 64,
{
    crate::bytes::lemma_le_bytes_len(3, 4);
    crate::bytes::lemma_le_bytes_len(32, 4);
    crate::bytes::lemma_le_bytes_len(records, 8);
    crate::bytes::lemma_le_bytes_len(n, 4);
    crate::bytes::lemma_le_bytes_len(m, 4);
    crate::bytes::lemma_le_bytes_len(64, 8);
    crate::bytes::lemma_le_bytes_len(p, 8);
    crate::bytes::lemma_le_bytes_len(d, 8);
    crate::bytes::lemma_le_bytes_len(generation as nat, 8);
}

/// What the header says.
proof fn lemma_header_numbers(
    data: Seq<u8>,
    generation: u64,
    records: nat,
    n: nat,
    m: nat,
    p: nat,
    d: nat,
)
    requires
        data.len() >= 64,
        data.take(64) == crate::compact::header_bytes(generation, records, n, m, p, d),
        records < 0x1_0000_0000_0000_0000,
        n < 0x1_0000_0000,
        m < 0x1_0000_0000,
        p < 0x1_0000_0000_0000_0000,
        d < 0x1_0000_0000_0000_0000,
    ensures
        data.take(8) == crate::compact::index_magic(),
        crate::compact_index::header_number(data, 8, 12) == 3,
        crate::compact_index::header_number(data, 12, 16) == 32,
        crate::compact_index::header_number(data, 16, 24) == records,
        crate::compact_index::header_number(data, 24, 28) == n,
        crate::compact_index::header_number(data, 28, 32) == m,
        crate::compact_index::header_number(data, 32, 40) == 64,
        crate::compact_index::header_number(data, 40, 48) == p,
        crate::compact_index::header_number(data, 48, 56) == d,
        crate::compact_index::header_number(data, 56, 64) == generation,
{
    crate::bytes::lemma_byte_spans();
    crate::bytes::lemma_le_bytes_len(3, 4);
    crate::bytes::lemma_le_bytes_len(32, 4);
    crate::bytes::lemma_le_bytes_len(records, 8);
    crate::bytes::lemma_le_bytes_len(n, 4);
    crate::bytes::lemma_le_bytes_len(m, 4);
    crate::bytes::lemma_le_bytes_len(64, 8);
    crate::bytes::lemma_le_bytes_len(p, 8);
    crate::bytes::lemma_le_bytes_len(d, 8);
    crate::bytes::lemma_le_bytes_len(generation as nat, 8);
    crate::bytes::law_le_read_back(3, 4);
    crate::bytes::law_le_read_back(32, 4);
    crate::bytes::law_le_read_back(records, 8);
    crate::bytes::law_le_read_back(n, 4);
    crate::bytes::law_le_read_back(m, 4);
    crate::bytes::law_le_read_back(64, 8);
    crate::bytes::law_le_read_back(p, 8);
    crate::bytes::law_le_read_back(d, 8);
    crate::bytes::law_le_read_back(generation as nat, 8);
    let h = data.take(64);
    assert(data.take(8) =~= h.subrange(0, 8));
    assert(h.subrange(0, 8) =~= crate::compact::index_magic());
    assert(data.subrange(8, 12) =~= h.subrange(8, 12));
    assert(h.subrange(8, 12) =~= crate::bytes::le_bytes(3, 4));
    assert(data.subrange(12, 16) =~= h.subrange(12, 16));
    assert(h.subrange(12, 16) =~= crate::bytes::le_bytes(32, 4));
    assert(data.subrange(16, 24) =~= h.subrange(16, 24));
    assert(h.subrange(16, 24) =~= crate::bytes::le_bytes(records, 8));
    assert(data.subrange(24, 28) =~= h.subrange(24, 28));
    assert(h.subrange(24, 28) =~= crate::bytes::le_bytes(n, 4));
    assert(data.subrange(28, 32) =~= h.subrange(28, 32));
    assert(h.subrange(28, 32) =~= crate::bytes::le_bytes(m, 4));
    assert(data.subrange(32, 40) =~= h.subrange(32, 40));
    assert(h.subrange(32, 40) =~= crate::bytes::le_bytes(64, 8));
    assert(data.subrange(40, 48) =~= h.subrange(40, 48));
    assert(h.subrange(40, 48) =~= crate::bytes::le_bytes(p, 8));
    assert(data.subrange(48, 56) =~= h.subrange(48, 56));
    assert(h.subrange(48, 56) =~= crate::bytes::le_bytes(d, 8));
    assert(data.subrange(56, 64) =~= h.subrange(56, 64));
    assert(h.subrange(56, 64) =~= crate::bytes::le_bytes(generation as nat, 8));
}

/// The descriptor that block `i` has.
spec fn desc_of(packed: Seq<Seq<u8>>, counts: Seq<nat>, i: int) -> BlockDesc {
    BlockDesc {
        offset: (64 + 16 * packed.len() + crate::compact::joined(packed.take(i)).len()) as u64,
        len: packed[i].len() as u32,
        count: counts[i] as u16,
    }
}

/// The dictionary entry that trigram `i` has.
spec fn dict_entry_of(packed: Seq<Seq<u8>>, dict: Seq<GramView>, i: int) -> DictEntry {
    DictEntry {
        gram: dict[i].gram as u32,
        len: crate::compact::posting_parts(dict)[i].len() as u32,
        offset: (crate::compact::postings_offset(packed) + crate::compact::joined(
            crate::compact::posting_parts(dict).take(i),
        ).len()) as u64,
    }
}

#[verifier::rlimit(40)]
proof fn lemma_read_desc(
    map: Seq<u8>,
    data: Seq<u8>,
    generation: u64,
    records: nat,
    packed: Seq<Seq<u8>>,
    counts: Seq<nat>,
    dict: Seq<GramView>,
    i: int,
)
    requires
        laid_out(map, data, generation, records, packed, counts, dict),
        0 <= i < packed.len(),
    ensures
        crate::compact_index::desc_read(data, 64, i) == Ok::<BlockDesc, SectionError>(
            desc_of(packed, counts, i),
        ),
        crate::compact_index::wide_section(
            map,
            desc_of(packed, counts, i).offset,
            desc_of(packed, counts, i).len,
        ) == Ok::<Seq<u8>, SectionError>(packed[i]),
{
    let n = packed.len();
    let p = 64 + 16 * i;
    let d = crate::compact::desc_bytes(packed, counts, i);
    let off = 64 + 16 * n + crate::compact::joined(packed.take(i)).len();
    crate::bytes::lemma_byte_spans();
    lemma_descs_slice(packed, counts, n, i);
    lemma_joined_slice(packed, i);
    let all = data.subrange(64, 64 + 16 * n as int);
    assert(all.subrange(16 * i, 16 * i + 16) =~= data.subrange(p, p + 16));
    assert(data.subrange(p, p + 16) == d);
    crate::bytes::lemma_le_bytes_len(off, 8);
    crate::bytes::lemma_le_bytes_len(packed[i].len(), 4);
    crate::bytes::lemma_le_bytes_len(counts[i], 2);
    crate::bytes::lemma_le_bytes_len(0, 2);
    assert(off + packed[i].len() <= crate::compact::postings_offset(packed));
    crate::bytes::law_le_read_back(off, 8);
    crate::bytes::law_le_read_back(packed[i].len(), 4);
    crate::bytes::law_le_read_back(counts[i], 2);
    assert(data.subrange(p, p + 8) =~= d.subrange(0, 8));
    assert(d.subrange(0, 8) =~= crate::bytes::le_bytes(off, 8));
    assert(data.subrange(p + 8, p + 12) =~= d.subrange(8, 12));
    assert(d.subrange(8, 12) =~= crate::bytes::le_bytes(packed[i].len(), 4));
    assert(data.subrange(p + 12, p + 14) =~= d.subrange(12, 14));
    assert(d.subrange(12, 14) =~= crate::bytes::le_bytes(counts[i], 2));
    let region = data.subrange(64 + 16 * n as int, crate::compact::postings_offset(packed) as int);
    let j = crate::compact::joined(packed.take(i)).len() as int;
    assert(region.subrange(j, j + packed[i].len()) == packed[i]);
    assert(map.subrange(off as int, (off + packed[i].len()) as int) =~= region.subrange(
        j,
        j + packed[i].len(),
    )) by {
        assert forall|k: int| 0 <= k < packed[i].len() implies #[trigger] map[off + k]
            == region[j + k] by {
            assert(map.take(data.len() as int)[off + k] == data[off + k]);
        }
    }
}

proof fn lemma_read_descs(
    map: Seq<u8>,
    data: Seq<u8>,
    generation: u64,
    records: nat,
    packed: Seq<Seq<u8>>,
    counts: Seq<nat>,
    dict: Seq<GramView>,
    k: nat,
)
    requires
        laid_out(map, data, generation, records, packed, counts, dict),
        k <= packed.len(),
    ensures
        crate::compact_index::descs_read(data, 64, k) == Ok::<Seq<BlockDesc>, SectionError>(
            Seq::new(k, |i: int| desc_of(packed, counts, i)),
        ),
    decreases k,
{
    let want = Seq::new(k, |i: int| desc_of(packed, counts, i));
    if k == 0 {
        assert(want =~= Seq::empty());
    } else {
        let front = Seq::new((k - 1) as nat, |i: int| desc_of(packed, counts, i));
        lemma_read_descs(map, data, generation, records, packed, counts, dict, (k - 1) as nat);
        lemma_read_desc(map, data, generation, records, packed, counts, dict, k - 1);
        assert(front.push(desc_of(packed, counts, k - 1)) =~= want);
    }
}

proof fn lemma_read_entry(
    map: Seq<u8>,
    data: Seq<u8>,
    generation: u64,
    records: nat,
    packed: Seq<Seq<u8>>,
    counts: Seq<nat>,
    dict: Seq<GramView>,
    i: int,
)
    requires
        laid_out(map, data, generation, records, packed, counts, dict),
        0 <= i < dict.len(),
    ensures
        crate::compact_index::entry_read(
            data,
            crate::compact::dict_offset(packed, dict) as u64,
            i,
        ) == Ok::<DictEntry, SectionError>(dict_entry_of(packed, dict, i)),
        crate::compact_index::wide_section(
            map,
            dict_entry_of(packed, dict, i).offset,
            dict_entry_of(packed, dict, i).len,
        ) == Ok::<Seq<u8>, SectionError>(crate::compact::posting_parts(dict)[i]),
{
    let m = dict.len();
    let parts = crate::compact::posting_parts(dict);
    let at = crate::compact::postings_offset(packed);
    let base = crate::compact::dict_offset(packed, dict);
    let p = base + 16 * i;
    let e = crate::compact::entry_bytes(dict, at, i);
    let off = at + crate::compact::joined(parts.take(i)).len();
    crate::bytes::lemma_byte_spans();
    lemma_entries_slice(dict, at, m, i);
    lemma_joined_slice(parts, i);
    let all = data.subrange(base as int, base + 16 * m as int);
    assert(all.subrange(16 * i, 16 * i + 16) =~= data.subrange(p, p + 16));
    assert(data.subrange(p, p + 16) == e);
    crate::bytes::lemma_le_bytes_len(dict[i].gram as nat, 4);
    crate::bytes::lemma_le_bytes_len(parts[i].len(), 4);
    crate::bytes::lemma_le_bytes_len(off, 8);
    assert(off + parts[i].len() <= base);
    crate::bytes::law_le_read_back(dict[i].gram as nat, 4);
    crate::bytes::law_le_read_back(parts[i].len(), 4);
    crate::bytes::law_le_read_back(off, 8);
    assert(data.subrange(p, p + 4) =~= e.subrange(0, 4));
    assert(e.subrange(0, 4) =~= crate::bytes::le_bytes(dict[i].gram as nat, 4));
    assert(data.subrange(p + 4, p + 8) =~= e.subrange(4, 8));
    assert(e.subrange(4, 8) =~= crate::bytes::le_bytes(parts[i].len(), 4));
    assert(data.subrange(p + 8, p + 16) =~= e.subrange(8, 16));
    assert(e.subrange(8, 16) =~= crate::bytes::le_bytes(off, 8));
    let region = data.subrange(at as int, base as int);
    let j = crate::compact::joined(parts.take(i)).len() as int;
    assert(region.subrange(j, j + parts[i].len()) == parts[i]);
    assert(map.subrange(off as int, (off + parts[i].len()) as int) =~= region.subrange(
        j,
        j + parts[i].len(),
    )) by {
        assert forall|k: int| 0 <= k < parts[i].len() implies #[trigger] map[off + k]
            == region[j + k] by {
            assert(map.take(data.len() as int)[off + k] == data[off + k]);
        }
    }
}

proof fn lemma_read_entries(
    map: Seq<u8>,
    data: Seq<u8>,
    generation: u64,
    records: nat,
    packed: Seq<Seq<u8>>,
    counts: Seq<nat>,
    dict: Seq<GramView>,
    k: nat,
)
    requires
        laid_out(map, data, generation, records, packed, counts, dict),
        k <= dict.len(),
    ensures
        crate::compact_index::entries_read(
            data,
            crate::compact::dict_offset(packed, dict) as u64,
            k,
        ) == Ok::<Seq<DictEntry>, SectionError>(
            Seq::new(k, |i: int| dict_entry_of(packed, dict, i)),
        ),
    decreases k,
{
    let want = Seq::new(k, |i: int| dict_entry_of(packed, dict, i));
    if k == 0 {
        assert(want =~= Seq::empty());
    } else {
        let front = Seq::new((k - 1) as nat, |i: int| dict_entry_of(packed, dict, i));
        lemma_read_entries(map, data, generation, records, packed, counts, dict, (k - 1) as nat);
        lemma_read_entry(map, data, generation, records, packed, counts, dict, k - 1);
        assert(front.push(dict_entry_of(packed, dict, k - 1)) =~= want);
    }
}

// ---------------------------------------------------------------------------
// Opening gives back what was built

/// The index holds these blocks, and its dictionary lists their trigrams.
pub open spec fn holds(v: CompactView, blocks: Seq<Seq<RecordView>>) -> bool {
    &&& v.blocks.len() == blocks.len()
    &&& blocks.len() <= u32::MAX
    &&& forall|b: u32|
        b < blocks.len() ==> #[trigger] crate::compact_index::block_read(v, b) == Ok::<
            Seq<RecordView>,
            IndexError,
        >(blocks[b as int])
    &&& crate::compact_index::grams_ascend(v.dict)
    &&& forall|i: int| 0 <= i < v.dict.len() ==> #[trigger] entry_holds(v, blocks, v.dict[i])
    &&& forall|b: int, g: u64| #![trigger crate::trigram::block_has(blocks[b], g)]
        0 <= b < blocks.len() && crate::trigram::block_has(blocks[b], g) ==> has_entry(v.dict, g)
}

/// The trigram has a dictionary entry.
pub open spec fn has_entry(dict: Seq<DictEntry>, g: u64) -> bool {
    exists|i: int| 0 <= i < dict.len() && (#[trigger] dict[i]).gram == g
}

/// The posting list of an entry names exactly the blocks with its trigram.
pub open spec fn entry_holds(v: CompactView, blocks: Seq<Seq<RecordView>>, d: DictEntry) -> bool {
    let ids = crate::compact_index::posting_of(v, d);
    &&& ids is Ok
    &&& crate::compact::ascending_ids(ids->Ok_0)
    &&& forall|b: u32| #[trigger]
        ids->Ok_0.contains(b) <==> b < blocks.len() && crate::trigram::block_has(
            blocks[b as int],
            d.gram as u64,
        )
}

proof fn lemma_laid_out(
    image: Seq<u8>,
    generation: u64,
    records: Seq<RecordView>,
    sorted: Seq<RecordView>,
    packed: Seq<Seq<u8>>,
    dict: Seq<GramView>,
)
    requires
        crate::compact::image_parts(image, generation, records, sorted, packed, dict),
        records.len() <= u32::MAX,
        image.len() <= usize::MAX,
    ensures
        sorted.len() == records.len(),
        laid_out(
            image,
            body_of(generation, sorted, packed, dict),
            generation,
            sorted.len(),
            packed,
            crate::compact::counts_of(crate::compact::blocks_of(sorted)),
            dict,
        ),
        image.take(image.len() - 4) == body_of(generation, sorted, packed, dict),
        crate::bytes::le_value(image.skip(image.len() - 4)) == crate::checksum::crc32_of(
            body_of(generation, sorted, packed, dict),
        ),
{
    let blocks = crate::compact::blocks_of(sorted);
    let counts = crate::compact::counts_of(blocks);
    let data = body_of(generation, sorted, packed, dict);
    let n = packed.len();
    let m = dict.len();
    let at = crate::compact::postings_offset(packed);
    let base = crate::compact::dict_offset(packed, dict);
    let parts = crate::compact::posting_parts(dict);
    sorted.to_multiset_ensures();
    records.to_multiset_ensures();
    assert(sorted.len() == records.len());
    crate::bytes::lemma_byte_spans();
    crate::bytes::lemma_le_bytes_len(crate::checksum::crc32_of(data) as nat, 4);
    crate::bytes::law_le_read_back(crate::checksum::crc32_of(data) as nat, 4);
    lemma_header_len(generation, sorted.len(), n, m, at, base);
    lemma_descs_len(packed, counts, n);
    lemma_entries_len(dict, at, m);
    assert(data.len() == base + 16 * m);
    assert(image.take(data.len() as int) =~= data);
    assert(image.skip(data.len() as int) =~= crate::bytes::le_bytes(
        crate::checksum::crc32_of(data) as nat,
        4,
    ));
    assert(data.take(64) =~= crate::compact::header_bytes(
        generation,
        sorted.len(),
        n,
        m,
        at,
        base,
    ));
    assert(data.subrange(64, 64 + 16 * n as int) =~= crate::compact::descs_bytes(
        packed,
        counts,
        n,
    ));
    assert(data.subrange(64 + 16 * n as int, at as int) =~= crate::compact::joined(packed));
    assert(data.subrange(at as int, base as int) =~= crate::compact::joined(parts));
    assert(data.subrange(base as int, base + 16 * m as int) =~= crate::compact::entries_bytes(
        dict,
        at,
        m,
    ));
    assert forall|i: int| 0 <= i < n implies (#[trigger] counts[i]) <= 32 by {
        assert(blocks[i] == crate::compact::block_of(sorted, i));
    }
}

/// The bytes that the checksum covers.
spec fn body_of(
    generation: u64,
    sorted: Seq<RecordView>,
    packed: Seq<Seq<u8>>,
    dict: Seq<GramView>,
) -> Seq<u8> {
    crate::compact::body_bytes(
        generation,
        sorted.len(),
        packed,
        crate::compact::counts_of(crate::compact::blocks_of(sorted)),
        dict,
    )
}

/// The index that a built file opens as.
spec fn view_of(
    image: Seq<u8>,
    generation: u64,
    records: nat,
    packed: Seq<Seq<u8>>,
    counts: Seq<nat>,
    dict: Seq<GramView>,
) -> CompactView {
    CompactView {
        map: image,
        generation,
        record_count: records as u64,
        blocks: Seq::new(packed.len(), |i: int| desc_of(packed, counts, i)),
        dict: Seq::new(dict.len(), |i: int| dict_entry_of(packed, dict, i)),
    }
}

proof fn lemma_blocks_held(
    map: Seq<u8>,
    data: Seq<u8>,
    generation: u64,
    records: nat,
    packed: Seq<Seq<u8>>,
    blocks: Seq<Seq<RecordView>>,
    dict: Seq<GramView>,
    b: u32,
)
    requires
        laid_out(
            map,
            data,
            generation,
            records,
            packed,
            crate::compact::counts_of(blocks),
            dict,
        ),
        crate::compact::packs(blocks, packed),
        b < blocks.len(),
    ensures
        crate::compact_index::block_read(
            view_of(
                map,
                generation,
                records,
                packed,
                crate::compact::counts_of(blocks),
                dict,
            ),
            b,
        ) == Ok::<Seq<RecordView>, IndexError>(blocks[b as int]),
{
    let i = b as int;
    let counts = crate::compact::counts_of(blocks);
    lemma_read_desc(map, data, generation, records, packed, counts, dict, i);
    let raw = crate::codec::records_bytes(blocks[i]);
    assert(packed[i].len() <= u32::MAX);
    assert(crate::codec::records_bytes(blocks[i]).is_prefix_of(raw));
    let got = crate::compact_index::decoded_records(raw)->0;
    assert(crate::codec::records_bytes(got).is_prefix_of(raw));
    crate::codec::law_records_encoding_is_unique(blocks[i], got, raw);
    assert(counts[i] == blocks[i].len());
}

proof fn lemma_entries_held(
    map: Seq<u8>,
    data: Seq<u8>,
    generation: u64,
    records: nat,
    packed: Seq<Seq<u8>>,
    blocks: Seq<Seq<RecordView>>,
    dict: Seq<GramView>,
    i: int,
)
    requires
        laid_out(
            map,
            data,
            generation,
            records,
            packed,
            crate::compact::counts_of(blocks),
            dict,
        ),
        crate::compact::is_dictionary(blocks, dict),
        0 <= i < dict.len(),
    ensures
        entry_holds(
            view_of(
                map,
                generation,
                records,
                packed,
                crate::compact::counts_of(blocks),
                dict,
            ),
            blocks,
            dict_entry_of(packed, dict, i),
        ),
{
    let counts = crate::compact::counts_of(blocks);
    lemma_read_entry(map, data, generation, records, packed, counts, dict, i);
    assert(crate::compact::ascending_ids(dict[i].ids));
    crate::varint::law_posting_read_back(dict[i].ids);
    assert(crate::compact::posting_parts(dict)[i] == crate::varint::posting_bytes(dict[i].ids));
    assert(dict[i].gram < 0x100_0000);
}

proof fn lemma_opens(
    map: Seq<u8>,
    data: Seq<u8>,
    generation: u64,
    records: nat,
    packed: Seq<Seq<u8>>,
    blocks: Seq<Seq<RecordView>>,
    dict: Seq<GramView>,
)
    requires
        laid_out(
            map,
            data,
            generation,
            records,
            packed,
            crate::compact::counts_of(blocks),
            dict,
        ),
        crate::compact::is_dictionary(blocks, dict),
        map.take(map.len() - 4) == data,
        crate::bytes::le_value(map.skip(map.len() - 4)) == crate::checksum::crc32_of(data),
    ensures
        crate::compact_index::opened_index(map, false) == Ok::<CompactView, IndexError>(
            view_of(
                map,
                generation,
                records,
                packed,
                crate::compact::counts_of(blocks),
                dict,
            ),
        ),
        crate::compact_index::grams_ascend(
            Seq::new(dict.len(), |i: int| dict_entry_of(packed, dict, i)),
        ),
{
    let counts = crate::compact::counts_of(blocks);
    let n = packed.len();
    let m = dict.len();
    let at = crate::compact::postings_offset(packed);
    let base = crate::compact::dict_offset(packed, dict);
    lemma_header_numbers(data, generation, records, n, m, at, base);
    lemma_read_descs(map, data, generation, records, packed, counts, dict, n);
    lemma_read_entries(map, data, generation, records, packed, counts, dict, m);
    assert(map.take(8) =~= data.take(8));
    let de = Seq::new(m, |i: int| dict_entry_of(packed, dict, i));
    assert forall|i: int, j: int| 0 <= i < j < de.len() implies de[i].gram < de[j].gram by {
        assert(dict[i].gram < dict[j].gram);
        assert(dict[i].gram < 0x100_0000 && dict[j].gram < 0x100_0000);
    }
}

/// A file that was built is opened, and holds the blocks of its records with their trigrams.
pub proof fn law_open_gives_back_the_build(
    image: Seq<u8>,
    generation: u64,
    records: Seq<RecordView>,
    sorted: Seq<RecordView>,
    packed: Seq<Seq<u8>>,
    dict: Seq<GramView>,
) -> (v: CompactView)
    requires
        crate::compact::image_parts(image, generation, records, sorted, packed, dict),
        records.len() <= u32::MAX,
        image.len() <= usize::MAX,
    ensures
        crate::compact_index::opened_index(image, false) == Ok::<CompactView, IndexError>(v),
        v.generation == generation,
        v.record_count == records.len(),
        holds(v, crate::compact::blocks_of(sorted)),
{
    let blocks = crate::compact::blocks_of(sorted);
    let counts = crate::compact::counts_of(blocks);
    let data = body_of(generation, sorted, packed, dict);
    lemma_laid_out(image, generation, records, sorted, packed, dict);
    let v = view_of(image, generation, sorted.len(), packed, counts, dict);
    lemma_opens(image, data, generation, sorted.len(), packed, blocks, dict);
    assert forall|b: u32| b < blocks.len() implies #[trigger] crate::compact_index::block_read(
        v,
        b,
    ) == Ok::<Seq<RecordView>, IndexError>(blocks[b as int]) by {
        lemma_blocks_held(image, data, generation, sorted.len(), packed, blocks, dict, b);
    }
    assert forall|i: int| 0 <= i < v.dict.len() implies #[trigger] entry_holds(
        v,
        blocks,
        v.dict[i],
    ) by {
        lemma_entries_held(image, data, generation, sorted.len(), packed, blocks, dict, i);
    }
    assert forall|b: int, g: u64| #![trigger crate::trigram::block_has(blocks[b], g)]
        0 <= b < blocks.len() && crate::trigram::block_has(blocks[b], g) implies has_entry(
        v.dict,
        g,
    ) by {
        assert(crate::compact::gram_listed(dict, g));
        let i = choose|i: int| 0 <= i < dict.len() && (#[trigger] dict[i]).gram == g;
        assert(dict[i].gram < 0x100_0000);
        assert(v.dict[i].gram == g);
    }
    v
}

/// A file that was changed behind its writer is refused: one with another checksum at its end,
/// and one with other data under the same checksum unless CRC-32 takes both for the same.
pub proof fn law_changed_files_are_refused(image: Seq<u8>, map: Seq<u8>)
    requires
        crate::compact_index::opened_index(image, false) is Ok,
        map.len() == image.len(),
        map != image,
        map.take(map.len() - 4) == image.take(image.len() - 4) || (map.skip(map.len() - 4)
            == image.skip(image.len() - 4) && crate::checksum::crc32_of(map.take(map.len() - 4))
            != crate::checksum::crc32_of(image.take(image.len() - 4))),
    ensures
        crate::compact_index::opened_index(map, false) == Err::<CompactView, IndexError>(
            if map.take(8) != crate::compact::index_magic() {
                IndexError::NotAnIndex
            } else {
                IndexError::ChecksumMismatch
            },
        ),
{
    let n = map.len() - 4;
    if map.take(n) == image.take(n) {
        crate::bytes::law_le_spell_back(map.skip(n));
        crate::bytes::law_le_spell_back(image.skip(n));
        assert(map =~= map.take(n) + map.skip(n));
        assert(image =~= image.take(n) + image.skip(n));
    }
}

proof fn lemma_changed_byte(image: Seq<u8>, i: int, x: u8)
    requires
        crate::compact_index::opened_index(image, false) is Ok,
        0 <= i < image.len(),
        image[i] != x,
    ensures
        crate::compact_index::opened_index(image.update(i, x), false) == Err::<
            CompactView,
            IndexError,
        >(
            if i < 8 {
                IndexError::NotAnIndex
            } else {
                IndexError::ChecksumMismatch
            },
        ),
{
    let map = image.update(i, x);
    let n = image.len() - 4;
    let (a, b) = (map.take(n), image.take(n));
    assert(map[i] != image[i]);
    if i < n {
        assert forall|k: int| 0 <= k < a.len() && k != i implies a[k] == b[k] by {}
        crate::checksum::law_one_changed_byte_changes_the_crc(a, b, i);
        assert(map.skip(n) =~= image.skip(n));
    } else {
        assert(a =~= b);
    }
    law_changed_files_are_refused(image, map);
    if i < 8 {
        assert(map.take(8)[i] != image.take(8)[i]);
    } else {
        assert(map.take(8) =~= image.take(8));
    }
}

/// A built file is opened unless a marker forbids it, and is refused once a byte of it, or a
/// single bit, was changed: anywhere in its header, its blocks, its posting lists, its
/// dictionary or its checksum.
pub proof fn law_one_changed_byte_is_refused(
    image: Seq<u8>,
    generation: u64,
    records: Seq<RecordView>,
    i: int,
    x: u8,
)
    requires
        crate::compact::is_image(image, generation, records),
        records.len() <= u32::MAX,
        image.len() <= usize::MAX,
        0 <= i < image.len(),
        image[i] != x,
    ensures
        crate::compact_index::opened_index(image, false) is Ok,
        crate::compact_index::opened_index(image, true) is Err,
        crate::compact_index::opened_index(image.update(i, x), false) == Err::<
            CompactView,
            IndexError,
        >(
            if i < 8 {
                IndexError::NotAnIndex
            } else {
                IndexError::ChecksumMismatch
            },
        ),
{
    let (sorted, packed, dict) = choose|
        sorted: Seq<RecordView>,
        packed: Seq<Seq<u8>>,
        dict: Seq<GramView>,
    |
        crate::compact::image_parts(image, generation, records, sorted, packed, dict);
    law_open_gives_back_the_build(image, generation, records, sorted, packed, dict);
    lemma_changed_byte(image, i, x);
}

} // verus!
