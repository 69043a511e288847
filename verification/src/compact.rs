//! The file of a compact read-optimized index: compressed path blocks, trigram postings
//! and a checksum over all of it.
//!
//! A file holds, in this order: a header of 64 bytes, one descriptor of 16 bytes per
//! block, the blocks, the posting lists, one dictionary entry of 16 bytes per trigram,
//! and the CRC-32 of everything in front of it.

use crate::clock::Stopwatch;
use crate::order::{Precedence, Standing};
use crate::types::{FileRecord, RecordView};
use vstd::prelude::*;

verus! {

/// The version of the format.
pub const VERSION: u32 = 3;

/// How many bytes the header takes.
pub const HEADER: usize = 64;

/// How many records a block holds.
pub const BLOCK_RECORDS: usize = 32;

/// The level at which blocks are compressed.
pub const BLOCK_LEVEL: i32 = 1;

/// The first eight bytes of a file: `NEUTIDX1`.
pub open spec fn index_magic() -> Seq<u8> {
    seq![0x4e, 0x45, 0x55, 0x54, 0x49, 0x44, 0x58, 0x31]
}

/// What a build made, and how many milliseconds it took.
#[derive(Debug, Clone, Copy)]
pub struct BuildStats {
    pub generation: u64,
    pub records: u64,
    pub blocks: u32,
    pub trigrams: u32,
    pub bytes: u64,
    pub wall_ms: u64,
}

/// Why an index could not be built.
#[derive(Debug, Clone, Copy, PartialEq, Eq, Structural)]
pub enum BuildError {
    /// More records than a 32-bit number counts.
    TooManyRecords,
    /// A path is not absolute and normalized.
    UnsafePath,
    /// A block could not be compressed.
    Compression,
    /// A compressed block takes more bytes than a 32-bit number counts.
    BlockTooLarge,
    /// A posting list takes more bytes than a 32-bit number counts.
    PostingTooLarge,
}

impl BuildError {
    /// How the error is reported.
    pub open spec fn text(self) -> Seq<char> {
        match self {
            BuildError::TooManyRecords => "compact index supports at most u32::MAX records"@,
            BuildError::UnsafePath => "compact index records must use absolute normalized paths"@,
            BuildError::Compression => "compact index block could not be compressed"@,
            BuildError::BlockTooLarge => "compressed block too large"@,
            BuildError::PostingTooLarge => "posting list too large"@,
        }
    }

    /// How the error is reported.
    pub fn message(self) -> (r: String)
        ensures
            r@ == self.text(),
    {
        match self {
            BuildError::TooManyRecords =>
                "compact index supports at most u32::MAX records".to_owned(),
            BuildError::UnsafePath =>
                "compact index records must use absolute normalized paths".to_owned(),
            BuildError::Compression => "compact index block could not be compressed".to_owned(),
            BuildError::BlockTooLarge => "compressed block too large".to_owned(),
            BuildError::PostingTooLarge => "posting list too large".to_owned(),
        }
    }
}

/// The generation of a file: the one that was drawn for it, and never zero.
pub open spec fn numbered(drawn: u64) -> u64 {
    if drawn == 0 {
        1
    } else {
        drawn
    }
}

/// Makes a drawn number a generation.
pub fn numbered_generation(drawn: u64) -> (r: u64)
    ensures
        r == numbered(drawn),
        r != 0,
{
    if drawn == 0 {
        1
    } else {
        drawn
    }
}

/// The next generation: behind the current one and the seed, and never zero.
pub fn new_generation(current: u64, seed: u64) -> (r: u64)
    ensures
        r >= 1,
        ({
            let top = if current >= seed {
                current
            } else {
                seed
            };
            r == if top < u64::MAX {
                (top + 1) as u64
            } else {
                1
            }
        }),
{
    let top: u64 = if current >= seed {
        current
    } else {
        seed
    };
    if top < u64::MAX {
        top + 1
    } else {
        1
    }
}

// ---------------------------------------------------------------------------
// What a file holds

/// Records in path order.
pub open spec fn by_path(rs: Seq<RecordView>) -> bool {
    forall|i: int, j: int|
        0 <= i < j < rs.len() ==> !crate::order::text_lt(
            (#[trigger] rs[j]).path,
            (#[trigger] rs[i]).path,
        )
}

/// How many blocks some records fill.
pub open spec fn block_count(n: nat) -> nat {
    (n + 31) / 32
}

/// The records of a block.
pub open spec fn block_of(rs: Seq<RecordView>, i: int) -> Seq<RecordView> {
    rs.subrange(
        32 * i,
        if 32 * i + 32 <= rs.len() {
            32 * i + 32
        } else {
            rs.len() as int
        },
    )
}

/// The blocks of some records.
pub open spec fn blocks_of(rs: Seq<RecordView>) -> Seq<Seq<RecordView>> {
    Seq::new(block_count(rs.len()), |i: int| block_of(rs, i))
}

/// A trigram with the blocks that it occurs in.
#[verifier::ext_equal]
pub struct GramView {
    pub gram: u64,
    pub ids: Seq<u32>,
}

/// Ascending block numbers.
pub open spec fn ascending_ids(ids: Seq<u32>) -> bool {
    forall|i: int, j: int| 0 <= i < j < ids.len() ==> ids[i] < ids[j]
}

/// The trigram has an entry.
pub open spec fn gram_listed(dict: Seq<GramView>, g: u64) -> bool {
    exists|i: int| 0 <= i < dict.len() && (#[trigger] dict[i]).gram == g
}

/// Ascending trigrams, each with the ascending numbers of exactly those blocks that it
/// occurs in.
pub open spec fn is_dictionary(blocks: Seq<Seq<RecordView>>, dict: Seq<GramView>) -> bool {
    &&& forall|i: int, j: int| 0 <= i < j < dict.len() ==> dict[i].gram < dict[j].gram
    &&& forall|i: int| 0 <= i < dict.len() ==> (#[trigger] dict[i]).gram < 0x100_0000
        && ascending_ids(dict[i].ids)
    &&& forall|i: int, b: u32| #![trigger dict[i].ids.contains(b)]
        0 <= i < dict.len() ==> (dict[i].ids.contains(b) <==> b < blocks.len()
            && crate::trigram::block_has(blocks[b as int], dict[i].gram))
    &&& forall|b: int, g: u64| #![trigger crate::trigram::block_has(blocks[b], g)]
        0 <= b < blocks.len() && crate::trigram::block_has(blocks[b], g) ==> gram_listed(dict, g)
}

/// All parts, one behind the other.
pub open spec fn joined(parts: Seq<Seq<u8>>) -> Seq<u8>
    decreases parts.len(),
{
    if parts.len() == 0 {
        Seq::empty()
    } else {
        joined(parts.drop_last()) + parts.last()
    }
}

/// The posting lists of a dictionary.
pub open spec fn posting_parts(dict: Seq<GramView>) -> Seq<Seq<u8>> {
    Seq::new(dict.len(), |i: int| crate::varint::posting_bytes(dict[i].ids))
}

/// The descriptor of block `i`: where it is, how long it is, and how many records it holds.
pub open spec fn desc_bytes(packed: Seq<Seq<u8>>, counts: Seq<nat>, i: int) -> Seq<u8> {
    crate::bytes::le_bytes(
        64 + 16 * packed.len() + joined(packed.take(i)).len(),
        8,
    ) + crate::bytes::le_bytes(packed[i].len(), 4) + crate::bytes::le_bytes(counts[i], 2)
        + crate::bytes::le_bytes(0, 2)
}

/// The first `n` descriptors.
pub open spec fn descs_bytes(packed: Seq<Seq<u8>>, counts: Seq<nat>, n: nat) -> Seq<u8>
    decreases n,
{
    if n == 0 {
        Seq::empty()
    } else {
        descs_bytes(packed, counts, (n - 1) as nat) + desc_bytes(packed, counts, n - 1)
    }
}

/// The dictionary entry `i`: the trigram, and where its posting list is.
pub open spec fn entry_bytes(dict: Seq<GramView>, at: nat, i: int) -> Seq<u8> {
    crate::bytes::le_bytes(dict[i].gram as nat, 4) + crate::bytes::le_bytes(
        posting_parts(dict)[i].len(),
        4,
    ) + crate::bytes::le_bytes(at + joined(posting_parts(dict).take(i)).len(), 8)
}

/// The first `n` dictionary entries.
pub open spec fn entries_bytes(dict: Seq<GramView>, at: nat, n: nat) -> Seq<u8>
    decreases n,
{
    if n == 0 {
        Seq::empty()
    } else {
        entries_bytes(dict, at, (n - 1) as nat) + entry_bytes(dict, at, n - 1)
    }
}

/// The header.
pub open spec fn header_bytes(
    generation: u64,
    records: nat,
    blocks: nat,
    grams: nat,
    postings_at: nat,
    dict_at: nat,
) -> Seq<u8> {
    index_magic() + crate::bytes::le_bytes(VERSION as nat, 4) + crate::bytes::le_bytes(
        BLOCK_RECORDS as nat,
        4,
    ) + crate::bytes::le_bytes(records, 8) + crate::bytes::le_bytes(blocks, 4)
        + crate::bytes::le_bytes(grams, 4) + crate::bytes::le_bytes(HEADER as nat, 8)
        + crate::bytes::le_bytes(postings_at, 8) + crate::bytes::le_bytes(dict_at, 8)
        + crate::bytes::le_bytes(generation as nat, 8)
}

/// Where the posting lists begin.
pub open spec fn postings_offset(packed: Seq<Seq<u8>>) -> nat {
    64 + 16 * packed.len() + joined(packed).len()
}

/// Where the dictionary begins.
pub open spec fn dict_offset(packed: Seq<Seq<u8>>, dict: Seq<GramView>) -> nat {
    postings_offset(packed) + joined(posting_parts(dict)).len()
}

/// A file without its checksum.
pub open spec fn body_bytes(
    generation: u64,
    records: nat,
    packed: Seq<Seq<u8>>,
    counts: Seq<nat>,
    dict: Seq<GramView>,
) -> Seq<u8> {
    header_bytes(
        generation,
        records,
        packed.len(),
        dict.len(),
        postings_offset(packed),
        dict_offset(packed, dict),
    ) + descs_bytes(packed, counts, packed.len()) + joined(packed) + joined(posting_parts(dict))
        + entries_bytes(dict, postings_offset(packed), dict.len())
}

/// Some bytes with their checksum.
pub open spec fn sealed(body: Seq<u8>) -> Seq<u8> {
    body + crate::bytes::le_bytes(crate::checksum::crc32_of(body) as nat, 4)
}

/// How many records each block holds.
pub open spec fn counts_of(blocks: Seq<Seq<RecordView>>) -> Seq<nat> {
    Seq::new(blocks.len(), |i: int| blocks[i].len())
}

/// The packed form of every block.
pub open spec fn packs(blocks: Seq<Seq<RecordView>>, packed: Seq<Seq<u8>>) -> bool {
    &&& packed.len() == blocks.len()
    &&& forall|i: int|
        0 <= i < packed.len() ==> (#[trigger] packed[i]).len() <= u32::MAX
            && crate::codec::records_bytes(blocks[i]).len() <= usize::MAX && crate::pack::zstd_packed(crate::codec::records_bytes(blocks[i]), BLOCK_LEVEL)
            == Some(packed[i]) && crate::pack::zstd_unpacked(packed[i]) == Some(
            crate::codec::records_bytes(blocks[i]),
        )
}

/// `image` is the file of `records`, put in order as `sorted`.
pub open spec fn image_parts(
    image: Seq<u8>,
    generation: u64,
    records: Seq<RecordView>,
    sorted: Seq<RecordView>,
    packed: Seq<Seq<u8>>,
    dict: Seq<GramView>,
) -> bool {
    let blocks = blocks_of(sorted);
    &&& sorted.to_multiset() == records.to_multiset()
    &&& by_path(sorted)
    &&& packs(blocks, packed)
    &&& is_dictionary(blocks, dict)
    &&& forall|i: int| 0 <= i < dict.len() ==> (#[trigger] posting_parts(dict)[i]).len() <= u32::MAX
    &&& dict.len() <= 0x100_0000
    &&& image == sealed(body_bytes(generation, sorted.len(), packed, counts_of(blocks), dict))
}

/// `image` is the file of `records`.
pub open spec fn is_image(image: Seq<u8>, generation: u64, records: Seq<RecordView>) -> bool {
    exists|sorted: Seq<RecordView>, packed: Seq<Seq<u8>>, dict: Seq<GramView>|
        image_parts(image, generation, records, sorted, packed, dict)
}

// ---------------------------------------------------------------------------
// Building

/// Records by their positions, in path order.
struct ByPath<'a> {
    records: &'a [FileRecord],
}

impl<'a> Precedence for ByPath<'a> {
    closed spec fn known(&self, a: usize) -> bool {
        a < self.records@.len()
    }

    closed spec fn le(&self, a: usize, b: usize) -> bool {
        !crate::order::text_lt(self.records@[b as int]@.path, self.records@[a as int]@.path)
    }

    proof fn total(&self, a: usize, b: usize) {
        crate::order::lemma_lex_total(
            vstd::utf8::encode_utf8(self.records@[a as int]@.path),
            vstd::utf8::encode_utf8(self.records@[b as int]@.path),
        );
    }

    proof fn transitive(&self, a: usize, b: usize, c: usize) {
        crate::order::lemma_lex_not_after(
            vstd::utf8::encode_utf8(self.records@[a as int]@.path),
            vstd::utf8::encode_utf8(self.records@[b as int]@.path),
            vstd::utf8::encode_utf8(self.records@[c as int]@.path),
        );
    }

    fn may_precede(&self, a: usize, b: usize) -> (r: bool) {
        proof {
            crate::order::lemma_lex_total(
                vstd::utf8::encode_utf8(self.records@[a as int]@.path),
                vstd::utf8::encode_utf8(self.records@[b as int]@.path),
            );
            crate::order::lemma_lex_irreflexive(
                vstd::utf8::encode_utf8(self.records@[a as int]@.path),
            );
        }
        crate::order::text_standing(
            self.records[b].path.as_str(),
            self.records[a].path.as_str(),
        ) != Standing::Before
    }
}

/// The positions of records in path order.
fn path_order(records: &[FileRecord]) -> (order: Vec<usize>)
    ensures
        order@.len() == records@.len(),
        forall|i: int| 0 <= i < order@.len() ==> (#[trigger] order@[i]) < records@.len(),
        by_path(crate::rank::picked(crate::types::record_views(records@), order@)),
        crate::rank::picked(crate::types::record_views(records@), order@).to_multiset()
            == crate::types::record_views(records@).to_multiset(),
{
    let all = crate::order::first_indices(records.len());
    let by = ByPath { records };
    let order = crate::order::sorted(all.as_slice(), &by);
    proof {
        broadcast use vstd::seq_lib::group_to_multiset_ensures;

        let views = crate::types::record_views(records@);
        let sorted = crate::rank::picked(views, order@);
        assert forall|i: int| 0 <= i < order@.len() implies (#[trigger] order@[i])
            < records@.len() by {
            assert(order@.contains(order@[i]));
            assert(all@.to_multiset().count(order@[i]) > 0);
            assert(all@.contains(order@[i]));
        }
        assert forall|i: int, j: int| 0 <= i < j < sorted.len() implies !crate::order::text_lt(
            (#[trigger] sorted[j]).path,
            (#[trigger] sorted[i]).path,
        ) by {
            assert(by.le(order@[i], order@[j]));
        }
        crate::rank::lemma_picked_multiset(views, order@, all@);
        assert(crate::rank::picked(views, all@) =~= views);
    }
    order
}

/// The bytes of the records at some positions.
fn encode_block(records: &[FileRecord], order: &[usize], from: usize, to: usize) -> (out: Vec<u8>)
    requires
        from <= to <= order@.len(),
        forall|i: int| 0 <= i < order@.len() ==> (#[trigger] order@[i]) < records@.len(),
    ensures
        out@ == crate::codec::records_bytes(
            crate::rank::picked(crate::types::record_views(records@), order@).subrange(
                from as int,
                to as int,
            ),
        ),
{
    let ghost views = crate::types::record_views(records@);
    let ghost block = crate::rank::picked(views, order@).subrange(from as int, to as int);
    let mut refs: Vec<FileRecord> = Vec::new();
    let mut i: usize = from;
    assert(crate::types::record_views(refs@) =~= block.take(0));
    while i < to
        invariant
            from <= i <= to <= order@.len(),
            views == crate::types::record_views(records@),
            block == crate::rank::picked(views, order@).subrange(from as int, to as int),
            forall|k: int| 0 <= k < order@.len() ==> (#[trigger] order@[k]) < records@.len(),
            crate::types::record_views(refs@) == block.take(i - from),
        decreases to - i,
    {
        let ghost before = refs@;
        let r = records[order[i]].clone();
        refs.push(r);
        i += 1;
        assert(crate::types::record_views(refs@) =~= crate::types::record_views(before).push(r@));
        assert(block.take(i - from) =~= block.take(i - 1 - from).push(block[i - 1 - from]));
    }
    assert(block.take(i - from) =~= block);
    crate::codec::encode_records(refs.as_slice())
}

/// A trigram with the blocks that it occurs in.
struct GramPosting {
    gram: u64,
    ids: Vec<u32>,
}

/// The views of postings.
spec fn gram_views(s: Seq<GramPosting>) -> Seq<GramView> {
    Seq::new(s.len(), |i: int| GramView { gram: s[i].gram, ids: s[i].ids@ })
}

/// The trigram has an entry.
spec fn listed(s: Seq<GramPosting>, g: u64) -> bool {
    exists|i: int| 0 <= i < s.len() && (#[trigger] s[i]).gram == g
}

/// The number of a trigram in a block.
spec fn pair_of(g: u64, b: u32) -> u64 {
    (g * 0x1_0000_0000 + b) as u64
}

/// Groups ascending pairs of trigram and block by trigram.
fn group_pairs(pairs: &Vec<u64>) -> (out: Vec<GramPosting>)
    requires
        crate::order::strictly_ascending(pairs@),
        forall|k: int| 0 <= k < pairs@.len() ==> (#[trigger] pairs@[k]) < 0x100_0000_0000_0000,
    ensures
        forall|i: int, j: int| 0 <= i < j < out@.len() ==> out@[i].gram < out@[j].gram,
        forall|i: int| 0 <= i < out@.len() ==> (#[trigger] out@[i]).gram < 0x100_0000
            && ascending_ids(out@[i].ids@),
        forall|i: int, b: u32| #![trigger out@[i].ids@.contains(b)]
            0 <= i < out@.len() ==> (out@[i].ids@.contains(b) <==> pairs@.contains(
                pair_of(out@[i].gram, b),
            )),
        forall|k: int|
            0 <= k < pairs@.len() ==> listed(out@, (#[trigger] pairs@[k]) / 0x1_0000_0000),
{
    let mut out: Vec<GramPosting> = Vec::new();
    let mut ids: Vec<u32> = Vec::new();
    let mut gram: u64 = 0;
    let mut i: usize = 0;
    while i < pairs.len()
        invariant
            i <= pairs@.len(),
            crate::order::strictly_ascending(pairs@),
            forall|k: int|
                0 <= k < pairs@.len() ==> (#[trigger] pairs@[k]) < 0x100_0000_0000_0000,
            i == 0 ==> out@.len() == 0 && ids@.len() == 0,
            i > 0 ==> gram == pairs@[i - 1] / 0x1_0000_0000 && ids@.len() > 0 && ids@.last()
                == pairs@[i - 1] % 0x1_0000_0000,
            ascending_ids(ids@),
            forall|a: int, b: int| 0 <= a < b < out@.len() ==> out@[a].gram < out@[b].gram,
            forall|a: int| 0 <= a < out@.len() ==> (#[trigger] out@[a]).gram < gram
                && ascending_ids(out@[a].ids@),
            gram < 0x100_0000,
            forall|b: u32| #[trigger]
                ids@.contains(b) <==> exists|k: int|
                    0 <= k < i && #[trigger] pairs@[k] == pair_of(gram, b),
            forall|a: int, b: u32| #![trigger out@[a].ids@.contains(b)]
                0 <= a < out@.len() ==> (out@[a].ids@.contains(b) <==> pairs@.contains(
                    pair_of(out@[a].gram, b),
                )),
            forall|k: int|
                0 <= k < i ==> (#[trigger] pairs@[k]) / 0x1_0000_0000 == gram || listed(
                    out@,
                    pairs@[k] / 0x1_0000_0000,
                ),
        decreases pairs@.len() - i,
    {
        let x: u64 = pairs[i];
        let g: u64 = x / 0x1_0000_0000;
        let b: u32 = (x % 0x1_0000_0000) as u32;
        assert(x == pair_of(g, b));
        assert(i > 0 ==> pairs@[i - 1] < x);
        if i > 0 && g != gram {
            let ghost before = out@;
            let ghost old_ids = ids@;
            let ghost old_gram = gram;
            assert forall|c: u32| #[trigger] old_ids.contains(c) <==> pairs@.contains(
                pair_of(old_gram, c),
            ) by {
                if old_ids.contains(c) {
                    let k = choose|k: int|
                        0 <= k < i && #[trigger] pairs@[k] == pair_of(old_gram, c);
                    assert(pairs@[k] == pair_of(old_gram, c));
                }
                if pairs@.contains(pair_of(old_gram, c)) {
                    let k = pairs@.index_of(pair_of(old_gram, c));
                    assert(pairs@[k] == pair_of(old_gram, c));
                    if k >= i {
                        assert(k == i || pairs@[i as int] < pairs@[k]);
                        assert(false);
                    }
                }
            }
            out.push(GramPosting { gram, ids });
            ids = Vec::new();
            assert forall|a: int, c: u32| #![trigger out@[a].ids@.contains(c)]
                0 <= a < out@.len() implies (out@[a].ids@.contains(c) <==> pairs@.contains(
                pair_of(out@[a].gram, c),
            )) by {
                if a < before.len() {
                    assert(out@[a] == before[a]);
                }
            }
            assert forall|a: int| 0 <= a < out@.len() implies (#[trigger] out@[a]).gram < g
                && ascending_ids(out@[a].ids@) by {
                if a < before.len() {
                    assert(out@[a] == before[a]);
                }
            }
            assert forall|k: int| 0 <= k < i implies listed(
                out@,
                (#[trigger] pairs@[k]) / 0x1_0000_0000,
            ) by {
                if pairs@[k] / 0x1_0000_0000 == old_gram {
                    assert(out@[out@.len() - 1].gram == old_gram);
                } else {
                    let a = choose|a: int|
                        0 <= a < before.len() && (#[trigger] before[a]).gram == pairs@[k]
                            / 0x1_0000_0000;
                    assert(out@[a].gram == pairs@[k] / 0x1_0000_0000);
                }
            }
        }
        let ghost earlier = ids@;
        let ghost fresh = i > 0 && g != gram;
        let ghost prev_gram = gram;
        gram = g;
        ids.push(b);
        proof {
            assert forall|c: u32| #[trigger] ids@.contains(c) <==> exists|k: int|
                0 <= k < i + 1 && #[trigger] pairs@[k] == pair_of(gram, c) by {
                if ids@.contains(c) {
                    let n = ids@.index_of(c);
                    if n < earlier.len() {
                        assert(earlier[n] == c);
                        assert(earlier.contains(c));
                        let k = choose|k: int|
                            0 <= k < i && #[trigger] pairs@[k] == pair_of(gram, c);
                        assert(0 <= k < i + 1 && pairs@[k] == pair_of(gram, c));
                    } else {
                        assert(pairs@[i as int] == pair_of(gram, c));
                    }
                }
                if exists|k: int| 0 <= k < i + 1 && #[trigger] pairs@[k] == pair_of(gram, c) {
                    let k = choose|k: int|
                        0 <= k < i + 1 && #[trigger] pairs@[k] == pair_of(gram, c);
                    if k == i {
                        assert(c == b);
                        assert(ids@[ids@.len() - 1] == c);
                    } else {
                        assert(pairs@[k] / 0x1_0000_0000 == gram);
                        if fresh {
                            assert(pairs@[k] <= pairs@[i - 1]);
                            assert(prev_gram < g);
                            assert(false);
                        }
                        assert(earlier.contains(c));
                        let n = earlier.index_of(c);
                        assert(ids@[n] == c);
                    }
                }
            }
        }
        i += 1;
    }
    if ids.len() > 0 {
        let ghost before = out@;
        let ghost last_ids = ids@;
        let ghost last_gram = gram;
        out.push(GramPosting { gram, ids });
        proof {
            assert forall|a: int, c: u32| #![trigger out@[a].ids@.contains(c)]
                0 <= a < out@.len() implies (out@[a].ids@.contains(c) <==> pairs@.contains(
                pair_of(out@[a].gram, c),
            )) by {
                if a < before.len() {
                    assert(out@[a] == before[a]);
                } else {
                    if last_ids.contains(c) {
                        let k = choose|k: int|
                            0 <= k < i && #[trigger] pairs@[k] == pair_of(last_gram, c);
                        assert(pairs@[k] == pair_of(last_gram, c));
                    }
                    if pairs@.contains(pair_of(last_gram, c)) {
                        let k = pairs@.index_of(pair_of(last_gram, c));
                        assert(pairs@[k] == pair_of(last_gram, c));
                    }
                }
            }
            assert forall|k: int| 0 <= k < pairs@.len() implies listed(
                out@,
                (#[trigger] pairs@[k]) / 0x1_0000_0000,
            ) by {
                if pairs@[k] / 0x1_0000_0000 == last_gram {
                    assert(out@[out@.len() - 1].gram == last_gram);
                } else {
                    let a = choose|a: int|
                        0 <= a < before.len() && (#[trigger] before[a]).gram == pairs@[k]
                            / 0x1_0000_0000;
                    assert(out@[a].gram == pairs@[k] / 0x1_0000_0000);
                }
            }
        }
    }
    out
}

/// One part more.
proof fn lemma_joined_step(parts: Seq<Seq<u8>>, i: int)
    requires
        0 <= i < parts.len(),
    ensures
        joined(parts.take(i + 1)) == joined(parts.take(i)) + parts[i],
{
    assert(parts.take(i + 1).drop_last() =~= parts.take(i));
}

/// The views of packed blocks.
spec fn vec_views(s: Seq<Vec<u8>>) -> Seq<Seq<u8>> {
    Seq::new(s.len(), |i: int| s[i]@)
}

/// Ascending numbers are no smaller than their positions.
proof fn lemma_ascending_bound(dict: Seq<GramView>, i: int)
    requires
        forall|a: int, b: int| 0 <= a < b < dict.len() ==> dict[a].gram < dict[b].gram,
        0 <= i < dict.len(),
    ensures
        dict[i].gram >= i,
    decreases i,
{
    if i > 0 {
        lemma_ascending_bound(dict, i - 1);
        assert(dict[i - 1].gram < dict[i].gram);
    }
}

/// The blocks packed, and the trigrams that they hold.
struct PackedBlocks {
    packed: Vec<Vec<u8>>,
    pairs: Vec<u64>,
}

/// Some block of some ordering of the records cannot be packed for this reason.
pub open spec fn cannot_pack(records: Seq<RecordView>, e: BuildError) -> bool {
    exists|sorted: Seq<RecordView>, i: int|
        #![trigger block_of(sorted, i)]
        {
            let packed = crate::pack::zstd_packed(
                crate::codec::records_bytes(block_of(sorted, i)),
                BLOCK_LEVEL,
            );
            &&& sorted.to_multiset() == records.to_multiset()
            &&& by_path(sorted)
            &&& 0 <= i < block_count(sorted.len())
            &&& match packed {
                None => e == BuildError::Compression,
                Some(p) => e == BuildError::BlockTooLarge && p.len() > u32::MAX,
            }
        }
}

#[verifier::rlimit(40)]
fn pack_blocks(records: &[FileRecord], order: &Vec<usize>) -> (r: Result<PackedBlocks, BuildError>)
    requires
        records@.len() <= u32::MAX,
        order@.len() == records@.len(),
        forall|i: int| 0 <= i < order@.len() ==> (#[trigger] order@[i]) < records@.len(),
        by_path(crate::rank::picked(crate::types::record_views(records@), order@)),
        crate::rank::picked(crate::types::record_views(records@), order@).to_multiset()
            == crate::types::record_views(records@).to_multiset(),
    ensures
        match r {
            Ok(p) => ({
                let blocks = blocks_of(
                    crate::rank::picked(crate::types::record_views(records@), order@),
                );
                &&& packs(blocks, vec_views(p.packed@))
                &&& forall|k: int|
                    0 <= k < p.pairs@.len() ==> (#[trigger] p.pairs@[k]) < 0x100_0000_0000_0000
                &&& forall|g: u64, b: u32| #![trigger pair_of(g, b)]
                    g < 0x100_0000 ==> (p.pairs@.contains(pair_of(g, b)) <==> b < blocks.len()
                        && crate::trigram::block_has(blocks[b as int], g))
                &&& forall|g: u64, b: int| #![trigger crate::trigram::block_has(blocks[b], g)]
                    0 <= b < blocks.len() && crate::trigram::block_has(blocks[b], g) ==> g
                        < 0x100_0000
            }),
            Err(e) => cannot_pack(crate::types::record_views(records@), e),
        },
{
    let ghost views = crate::types::record_views(records@);
    let ghost sorted = crate::rank::picked(views, order@);
    let ghost blocks = blocks_of(sorted);
    let total: usize = records.len();
    let count: usize = total / 32 + (if total % 32 == 0 {
        0usize
    } else {
        1usize
    });
    assert(count == blocks.len());
    let mut packed: Vec<Vec<u8>> = Vec::new();
    let mut pairs: Vec<u64> = Vec::new();
    let mut i: usize = 0;
    while i < count
        invariant
            i <= count == blocks.len(),
            count == block_count(total as nat),
            total == records@.len() == order@.len(),
            total <= u32::MAX,
            views == crate::types::record_views(records@),
            sorted == crate::rank::picked(views, order@),
            by_path(sorted),
            sorted.to_multiset() == views.to_multiset(),
            blocks == blocks_of(sorted),
            forall|k: int| 0 <= k < order@.len() ==> (#[trigger] order@[k]) < records@.len(),
            packed@.len() == i,
            forall|k: int|
                0 <= k < i ==> (#[trigger] packed@[k])@.len() <= u32::MAX
                    && crate::codec::records_bytes(blocks[k]).len() <= usize::MAX
                    && crate::pack::zstd_packed(
                    crate::codec::records_bytes(blocks[k]),
                    BLOCK_LEVEL,
                ) == Some(packed@[k]@) && crate::pack::zstd_unpacked(packed@[k]@) == Some(
                    crate::codec::records_bytes(blocks[k]),
                ),
            forall|k: int|
                0 <= k < pairs@.len() ==> (#[trigger] pairs@[k]) < 0x100_0000_0000_0000,
            forall|g: u64, b: u32| #![trigger pair_of(g, b)]
                g < 0x100_0000 ==> (pairs@.contains(pair_of(g, b)) <==> b < i
                    && crate::trigram::block_has(blocks[b as int], g)),
            forall|g: u64, b: int| #![trigger crate::trigram::block_has(blocks[b], g)]
                0 <= b < i && crate::trigram::block_has(blocks[b], g) ==> g < 0x100_0000,
        decreases count - i,
    {
        let from: usize = i * 32;
        let to: usize = if total - from <= 32 {
            total
        } else {
            from + 32
        };
        let grams = crate::trigram::block_trigrams(records, order.as_slice(), from, to);
        let raw = encode_block(records, order.as_slice(), from, to);
        assert(raw.len() == raw@.len());
        proof {
            assert(blocks[i as int] =~= sorted.subrange(from as int, to as int));
            assert(crate::rank::picked(views, order@.subrange(from as int, to as int))
                =~= blocks[i as int]);
            assert(block_of(sorted, i as int) == blocks[i as int]);
        }
        let ghost before = pairs@;
        push_pairs(&grams, i as u32, &mut pairs);
        proof {
            assert forall|g: u64, b: u32| #![trigger pair_of(g, b)]
                g < 0x100_0000 implies (pairs@.contains(pair_of(g, b)) <==> b < i + 1
                && crate::trigram::block_has(blocks[b as int], g)) by {
                assert(pairs@.contains(pair_of(g, b)) <==> before.contains(pair_of(g, b)) || (b == i
                    && grams@.contains(g)));
            }
            assert forall|g: u64, b: int| #![trigger crate::trigram::block_has(blocks[b], g)]
                0 <= b < i + 1 && crate::trigram::block_has(blocks[b], g) implies g
                < 0x100_0000 by {
                if b == i {
                    assert(grams@.contains(g));
                    let k = grams@.index_of(g);
                    assert(grams@[k] == g);
                }
            }
        }
        match crate::pack::zstd_pack(raw.as_slice(), BLOCK_LEVEL) {
            None => {
                return Err(BuildError::Compression);
            },
            Some(p) => {
                if p.len() as u64 > u32::MAX as u64 {
                    return Err(BuildError::BlockTooLarge);
                }
                let ghost old_packed = packed@;
                packed.push(p);
                assert forall|k: int| 0 <= k < i + 1 implies (#[trigger] packed@[k])@.len()
                    <= u32::MAX && crate::codec::records_bytes(blocks[k]).len() <= usize::MAX
                    && crate::pack::zstd_packed(
                    crate::codec::records_bytes(blocks[k]),
                    BLOCK_LEVEL,
                ) == Some(packed@[k]@) && crate::pack::zstd_unpacked(packed@[k]@) == Some(
                    crate::codec::records_bytes(blocks[k]),
                ) by {
                    if k < i {
                        assert(packed@[k] == old_packed[k]);
                    }
                }
            },
        }
        i += 1;
    }
    assert(packs(blocks, vec_views(packed@)));
    Ok(PackedBlocks { packed, pairs })
}

/// Appends the pairs of a block.
fn push_pairs(grams: &Vec<u64>, block: u32, pairs: &mut Vec<u64>)
    requires
        forall|k: int| 0 <= k < grams@.len() ==> (#[trigger] grams@[k]) < 0x100_0000,
        forall|k: int|
            0 <= k < old(pairs)@.len() ==> (#[trigger] old(pairs)@[k]) < 0x100_0000_0000_0000,
    ensures
        forall|k: int|
            0 <= k < final(pairs)@.len() ==> (#[trigger] final(pairs)@[k]) < 0x100_0000_0000_0000,
        forall|g: u64, b: u32| #![trigger pair_of(g, b)]
            g < 0x100_0000 ==> (final(pairs)@.contains(pair_of(g, b)) <==> old(pairs)@.contains(
                pair_of(g, b),
            ) || (b == block && grams@.contains(g))),
{
    let ghost start = pairs@;
    let mut i: usize = 0;
    while i < grams.len()
        invariant
            i <= grams@.len(),
            forall|k: int| 0 <= k < grams@.len() ==> (#[trigger] grams@[k]) < 0x100_0000,
            pairs@.len() == start.len() + i,
            forall|k: int| 0 <= k < start.len() ==> pairs@[k] == start[k],
            forall|k: int| 0 <= k < start.len() ==> (#[trigger] start[k]) < 0x100_0000_0000_0000,
            forall|k: int|
                0 <= k < i ==> #[trigger] pairs@[start.len() + k] == pair_of(grams@[k], block),
        decreases grams@.len() - i,
    {
        let g: u64 = grams[i];
        pairs.push(g * 0x1_0000_0000 + block as u64);
        i += 1;
    }
    proof {
        assert forall|k: int| 0 <= k < pairs@.len() implies (#[trigger] pairs@[k])
            < 0x100_0000_0000_0000 by {
            if k >= start.len() {
                assert(pairs@[start.len() + (k - start.len())] == pair_of(
                    grams@[k - start.len()],
                    block,
                ));
                assert(grams@[k - start.len()] < 0x100_0000);
            } else {
                assert(pairs@[k] == start[k]);
            }
        }
        assert forall|g: u64, b: u32| #![trigger pair_of(g, b)]
            g < 0x100_0000 implies (pairs@.contains(pair_of(g, b)) <==> start.contains(
            pair_of(g, b),
        ) || (b == block && grams@.contains(g))) by {
            let x = pair_of(g, b);
            if pairs@.contains(x) {
                let k = pairs@.index_of(x);
                if k < start.len() {
                    assert(start[k] == x);
                } else {
                    let h = grams@[k - start.len()];
                    assert(pairs@[start.len() + (k - start.len())] == pair_of(h, block));
                    assert(x / 0x1_0000_0000 == g && x % 0x1_0000_0000 == b);
                    assert(h == g && b == block);
                }
            }
            if start.contains(x) {
                let k = start.index_of(x);
                assert(pairs@[k] == x);
            }
            if b == block && grams@.contains(g) {
                let k = grams@.index_of(g);
                assert(pairs@[start.len() + k] == x);
            }
        }
    }
}

/// The dictionary of packed blocks.
proof fn lemma_is_dictionary(
    blocks: Seq<Seq<RecordView>>,
    pairs: Seq<u64>,
    set: Seq<u64>,
    dict: Seq<GramView>,
)
    requires
        blocks.len() <= u32::MAX,
        forall|x: u64| #[trigger] set.contains(x) <==> pairs.contains(x),
        forall|g: u64, b: u32| #![trigger pair_of(g, b)]
            g < 0x100_0000 ==> (pairs.contains(pair_of(g, b)) <==> b < blocks.len()
                && crate::trigram::block_has(blocks[b as int], g)),
        forall|g: u64, b: int| #![trigger crate::trigram::block_has(blocks[b], g)]
            0 <= b < blocks.len() && crate::trigram::block_has(blocks[b], g) ==> g < 0x100_0000,
        forall|i: int, j: int| 0 <= i < j < dict.len() ==> dict[i].gram < dict[j].gram,
        forall|i: int| 0 <= i < dict.len() ==> (#[trigger] dict[i]).gram < 0x100_0000
            && ascending_ids(dict[i].ids),
        forall|i: int, b: u32| #![trigger dict[i].ids.contains(b)]
            0 <= i < dict.len() ==> (dict[i].ids.contains(b) <==> set.contains(
                pair_of(dict[i].gram, b),
            )),
        forall|k: int|
            0 <= k < set.len() ==> gram_listed(dict, (#[trigger] set[k]) / 0x1_0000_0000),
    ensures
        is_dictionary(blocks, dict),
{
    assert forall|b: int, g: u64| #![trigger crate::trigram::block_has(blocks[b], g)]
        0 <= b < blocks.len() && crate::trigram::block_has(blocks[b], g) implies gram_listed(
        dict,
        g,
    ) by {
        let x = pair_of(g, b as u32);
        assert(pairs.contains(x));
        assert(set.contains(x));
        let k = set.index_of(x);
        assert(set[k] == x);
        assert(x / 0x1_0000_0000 == g);
    }
}

/// Some trigram's posting list is too long to be written.
pub open spec fn posting_too_large(records: Seq<RecordView>) -> bool {
    exists|sorted: Seq<RecordView>, dict: Seq<GramView>, i: int|
        #![trigger is_dictionary(blocks_of(sorted), dict), dict[i]]
        sorted.to_multiset() == records.to_multiset() && by_path(sorted) && is_dictionary(
            blocks_of(sorted),
            dict,
        ) && 0 <= i < dict.len() && crate::varint::posting_bytes(dict[i].ids).len() > u32::MAX
}

/// What the statistics of a build say of it.
pub open spec fn counts(
    stats: BuildStats,
    image: Seq<u8>,
    generation: u64,
    records: Seq<RecordView>,
    packed: Seq<Seq<u8>>,
    dict: Seq<GramView>,
) -> bool {
    &&& stats.generation == generation
    &&& stats.records == records.len() as u64
    &&& stats.blocks == packed.len() as u32
    &&& stats.trigrams == dict.len() as u32
    &&& stats.bytes == image.len() as u64
}

/// The index is built as `image` with these statistics.
pub open spec fn built(
    image: Seq<u8>,
    stats: BuildStats,
    generation: u64,
    records: Seq<RecordView>,
) -> bool {
    exists|sorted: Seq<RecordView>, packed: Seq<Seq<u8>>, dict: Seq<GramView>|
        #[trigger] image_parts(image, generation, records, sorted, packed, dict) && counts(
            stats,
            image,
            generation,
            records,
            packed,
            dict,
        )
}

/// The descriptors and the blocks: `data` begins with as many bytes as stand in front of
/// the blocks in the file.
fn write_blocks(packed: &Vec<Vec<u8>>, total: usize, data: &mut Vec<u8>) -> (descs: Vec<u8>)
    requires
        total <= u32::MAX,
        packed@.len() == block_count(total as nat),
        old(data)@.len() == 64 + 16 * packed@.len(),
        forall|k: int| 0 <= k < packed@.len() ==> (#[trigger] packed@[k])@.len() <= u32::MAX,
    ensures
        final(data)@ == old(data)@ + joined(vec_views(packed@)),
        descs@ == descs_bytes(
            vec_views(packed@),
            Seq::new(
                packed@.len(),
                |i: int|
                    if 32 * i + 32 <= total {
                        32nat
                    } else {
                        (total - 32 * i) as nat
                    },
            ),
            packed@.len(),
        ),
        descs@.len() == 16 * packed@.len(),
{
    let ghost parts = vec_views(packed@);
    let ghost counts = Seq::new(
        packed@.len(),
        |i: int|
            if 32 * i + 32 <= total {
                32nat
            } else {
                (total - 32 * i) as nat
            },
    );
    let mut descs: Vec<u8> = Vec::new();
    let count: usize = packed.len();
    let mut i: usize = 0;
    proof {
        assert(parts.take(0) =~= Seq::empty());
        assert(data@ =~= old(data)@ + joined(parts.take(0)));
    }
    while i < count
        invariant
            i <= count == packed@.len(),
            total <= u32::MAX,
            count == block_count(total as nat),
            parts == vec_views(packed@),
            old(data)@.len() == 64 + 16 * packed@.len(),
            counts == Seq::new(
                packed@.len(),
                |i: int|
                    if 32 * i + 32 <= total {
                        32nat
                    } else {
                        (total - 32 * i) as nat
                    },
            ),
            forall|k: int| 0 <= k < packed@.len() ==> (#[trigger] packed@[k])@.len() <= u32::MAX,
            data@ == old(data)@ + joined(parts.take(i as int)),
            descs@ == descs_bytes(parts, counts, i as nat),
            descs@.len() == 16 * i,
        decreases count - i,
    {
        let held: usize = if total - 32 * i >= 32 {
            32
        } else {
            total - 32 * i
        };
        assert(counts[i as int] == held);
        let ghost before = descs@;
        crate::bytes::write_u64(&mut descs, data.len() as u64);
        crate::bytes::write_u32(&mut descs, packed[i].len() as u32);
        crate::bytes::write_u16(&mut descs, held as u16);
        crate::bytes::write_u16(&mut descs, 0);
        proof {
            crate::bytes::lemma_le_bytes_len(data@.len(), 8);
            crate::bytes::lemma_le_bytes_len(packed@[i as int]@.len(), 4);
            crate::bytes::lemma_le_bytes_len(held as nat, 2);
            crate::bytes::lemma_le_bytes_len(0, 2);
            assert(parts[i as int] == packed@[i as int]@);
            assert(descs@ =~= before + desc_bytes(parts, counts, i as int));
            lemma_joined_step(parts, i as int);
        }
        crate::bytes::write_all(data, packed[i].as_slice());
        i += 1;
        assert(data@ =~= old(data)@ + joined(parts.take(i as int)));
    }
    assert(parts.take(i as int) =~= parts);
    descs
}

/// The posting lists behind `data`, and the dictionary entries that point to them.
fn write_postings(dict: &Vec<GramPosting>, data: &mut Vec<u8>) -> (r: Option<Vec<u8>>)
    requires
        forall|i: int| 0 <= i < dict@.len() ==> (#[trigger] dict@[i]).gram < 0x100_0000
            && ascending_ids(dict@[i].ids@),
    ensures
        match r {
            Some(entries) => final(data)@ == old(data)@ + joined(posting_parts(gram_views(dict@)))
                && entries@ == entries_bytes(gram_views(dict@), old(data)@.len(), dict@.len())
                && forall|i: int|
                0 <= i < dict@.len() ==> (#[trigger] posting_parts(gram_views(dict@))[i]).len()
                    <= u32::MAX,
            None => exists|i: int|
                0 <= i < dict@.len() && crate::varint::posting_bytes(
                    (#[trigger] gram_views(dict@)[i]).ids,
                ).len() > u32::MAX,
        },
{
    let ghost views = gram_views(dict@);
    let ghost parts = posting_parts(views);
    let ghost at = data@.len();
    let mut entries: Vec<u8> = Vec::new();
    let mut i: usize = 0;
    proof {
        assert(parts.take(0) =~= Seq::empty());
        assert(data@ =~= old(data)@ + joined(parts.take(0)));
    }
    while i < dict.len()
        invariant
            i <= dict@.len(),
            views == gram_views(dict@),
            parts == posting_parts(views),
            at == old(data)@.len(),
            forall|k: int| 0 <= k < dict@.len() ==> (#[trigger] dict@[k]).gram < 0x100_0000
                && ascending_ids(dict@[k].ids@),
            data@ == old(data)@ + joined(parts.take(i as int)),
            entries@ == entries_bytes(views, at, i as nat),
            forall|k: int| 0 <= k < i ==> (#[trigger] parts[k]).len() <= u32::MAX,
        decreases dict@.len() - i,
    {
        let d = &dict[i];
        proof {
            assert(crate::varint::non_descending(d.ids@)) by {
                assert(ascending_ids(dict@[i as int].ids@));
            }
            assert(views[i as int].ids == d.ids@);
        }
        let encoded = crate::varint::encode_posting(d.ids.as_slice());
        assert(parts[i as int] == encoded@);
        if encoded.len() as u64 > u32::MAX as u64 {
            assert(crate::varint::posting_bytes(views[i as int].ids).len() > u32::MAX);
            return None;
        }
        let ghost before = entries@;
        crate::bytes::write_u32(&mut entries, d.gram as u32);
        crate::bytes::write_u32(&mut entries, encoded.len() as u32);
        crate::bytes::write_u64(&mut entries, data.len() as u64);
        proof {
            assert(entries@ =~= before + entry_bytes(views, at, i as int));
            lemma_joined_step(parts, i as int);
        }
        crate::bytes::write_all(data, encoded.as_slice());
        i += 1;
        assert(data@ =~= old(data)@ + joined(parts.take(i as int)));
    }
    assert(parts.take(i as int) =~= parts);
    Some(entries)
}

pub(crate) fn magic() -> (r: Vec<u8>)
    ensures
        r@ == index_magic(),
{
    let r: Vec<u8> = vec![0x4e, 0x45, 0x55, 0x54, 0x49, 0x44, 0x58, 0x31];
    assert(r@ =~= index_magic());
    r
}

fn write_header(
    generation: u64,
    records: u64,
    blocks: u32,
    grams: u32,
    postings_at: u64,
    dict_at: u64,
) -> (out: Vec<u8>)
    ensures
        out@ == header_bytes(
            generation,
            records as nat,
            blocks as nat,
            grams as nat,
            postings_at as nat,
            dict_at as nat,
        ),
{
    let mut out = magic();
    crate::bytes::write_u32(&mut out, VERSION);
    crate::bytes::write_u32(&mut out, BLOCK_RECORDS as u32);
    crate::bytes::write_u64(&mut out, records);
    crate::bytes::write_u32(&mut out, blocks);
    crate::bytes::write_u32(&mut out, grams);
    crate::bytes::write_u64(&mut out, HEADER as u64);
    crate::bytes::write_u64(&mut out, postings_at);
    crate::bytes::write_u64(&mut out, dict_at);
    crate::bytes::write_u64(&mut out, generation);
    assert(out@ =~= header_bytes(
        generation,
        records as nat,
        blocks as nat,
        grams as nat,
        postings_at as nat,
        dict_at as nat,
    ));
    out
}

/// Whether all paths are absolute and normalized.
fn all_safe(records: &[FileRecord]) -> (r: bool)
    ensures
        r == forall|i: int|
            0 <= i < records@.len() ==> crate::scope::safe_path((#[trigger] records@[i])@.path),
{
    let mut i: usize = 0;
    while i < records.len()
        invariant
            i <= records@.len(),
            forall|k: int| 0 <= k < i ==> crate::scope::safe_path((#[trigger] records@[k])@.path),
        decreases records@.len() - i,
    {
        if !crate::scope::safe_absolute_path(records[i].path.as_str()) {
            assert(!crate::scope::safe_path(records@[i as int]@.path));
            return false;
        }
        i += 1;
    }
    true
}

/// Builds the file of some records.
#[verifier::rlimit(40)]
pub fn build_image(records: &[FileRecord], generation: u64) -> (r: Result<
    (Vec<u8>, BuildStats),
    BuildError,
>)
    ensures
        ({
            let views = crate::types::record_views(records@);
            let safe = forall|i: int|
                0 <= i < records@.len() ==> crate::scope::safe_path((#[trigger] records@[i])@.path);
            match r {
                Ok((image, stats)) => records@.len() <= u32::MAX && safe && built(
                    image@,
                    stats,
                    generation,
                    views,
                ),
                Err(BuildError::TooManyRecords) => records@.len() > u32::MAX,
                Err(BuildError::UnsafePath) => records@.len() <= u32::MAX && !safe,
                Err(BuildError::PostingTooLarge) => records@.len() <= u32::MAX && safe
                    && posting_too_large(views),
                Err(e) => records@.len() <= u32::MAX && safe && cannot_pack(views, e),
            }
        }),
{
    let watch = Stopwatch::start();
    if records.len() as u64 > u32::MAX as u64 {
        return Err(BuildError::TooManyRecords);
    }
    if !all_safe(records) {
        return Err(BuildError::UnsafePath);
    }
    let total: usize = records.len();
    let ghost views = crate::types::record_views(records@);
    let order = path_order(records);
    let ghost sorted = crate::rank::picked(views, order@);
    let ghost blocks = blocks_of(sorted);
    let p: PackedBlocks = match pack_blocks(records, &order) {
        Ok(p) => p,
        Err(e) => {
            return Err(e);
        },
    };
    let ghost packed = vec_views(p.packed@);
    let set = crate::order::ascending_set(&p.pairs);
    proof {
        assert forall|k: int| 0 <= k < set@.len() implies (#[trigger] set@[k])
            < 0x100_0000_0000_0000 by {
            assert(set@.contains(set@[k]));
            let j = p.pairs@.index_of(set@[k]);
            assert(p.pairs@[j] == set@[k]);
        }
    }
    let dict = group_pairs(&set);
    let ghost dv = gram_views(dict@);
    proof {
        assert forall|i: int, b: u32| #![trigger dv[i].ids.contains(b)]
            0 <= i < dv.len() implies (dv[i].ids.contains(b) <==> set@.contains(
            pair_of(dv[i].gram, b),
        )) by {
            assert(dv[i].ids == dict@[i].ids@);
        }
        assert forall|i: int| 0 <= i < dv.len() implies (#[trigger] dv[i]).gram < 0x100_0000
            && ascending_ids(dv[i].ids) by {
            assert(dict@[i].gram < 0x100_0000 && ascending_ids(dict@[i].ids@));
        }
        assert forall|k: int| 0 <= k < set@.len() implies gram_listed(
            dv,
            (#[trigger] set@[k]) / 0x1_0000_0000,
        ) by {
            let i = choose|i: int|
                0 <= i < dict@.len() && (#[trigger] dict@[i]).gram == set@[k] / 0x1_0000_0000;
            assert(dv[i].gram == set@[k] / 0x1_0000_0000);
        }
        lemma_is_dictionary(blocks, p.pairs@, set@, dv);
        if dv.len() > 0 {
            lemma_ascending_bound(dv, dv.len() - 1);
        }
        assert(dv.len() <= 0x100_0000);
    }
    let count: usize = p.packed.len();
    let base: usize = 64 + 16 * count;
    let mut data: Vec<u8> = vec![0u8; base];
    proof {
        assert forall|k: int| 0 <= k < p.packed@.len() implies (#[trigger] p.packed@[k])@.len()
            <= u32::MAX by {
            assert(packed[k].len() <= u32::MAX);
        }
    }
    let descs = write_blocks(&p.packed, total, &mut data);
    let ghost counts = counts_of(blocks);
    proof {
        assert(counts =~= Seq::new(
            p.packed@.len(),
            |i: int|
                if 32 * i + 32 <= total {
                    32nat
                } else {
                    (total - 32 * i) as nat
                },
        ));
    }
    let postings_at: u64 = data.len() as u64;
    let entries: Vec<u8> = match write_postings(&dict, &mut data) {
        Some(e) => e,
        None => {
            proof {
                let i = choose|i: int|
                    0 <= i < dv.len() && crate::varint::posting_bytes((#[trigger] dv[i]).ids).len()
                        > u32::MAX;
                assert(is_dictionary(blocks_of(sorted), dv));
                assert(dv[i] == dv[i]);
            }
            return Err(BuildError::PostingTooLarge);
        },
    };
    let dict_at: u64 = data.len() as u64;
    crate::bytes::write_all(&mut data, entries.as_slice());
    let mut image = write_header(
        generation,
        total as u64,
        count as u32,
        dict.len() as u32,
        postings_at,
        dict_at,
    );
    crate::bytes::write_all(&mut image, descs.as_slice());
    let end: usize = data.len();
    crate::bytes::write_all(&mut image, vstd::slice::slice_subrange(data.as_slice(), base, end));
    let ghost body = body_bytes(generation, sorted.len(), packed, counts, dv);
    proof {
        assert(data@.subrange(base as int, end as int) =~= joined(packed) + joined(
            posting_parts(dv),
        ) + entries@);
        assert(image@ =~= body);
    }
    let crc: u32 = crate::checksum::crc32(image.as_slice());
    crate::bytes::write_u32(&mut image, crc);
    let stats = BuildStats {
        generation,
        records: total as u64,
        blocks: count as u32,
        trigrams: dict.len() as u32,
        bytes: image.len() as u64,
        wall_ms: watch.millis(),
    };
    assert(image_parts(image@, generation, views, sorted, packed, dv));
    Ok((image, stats))
}

} // verus!
