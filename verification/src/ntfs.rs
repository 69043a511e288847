//! The NTFS metadata lane: records of the master file table become file records.
//!
//! Whoever runs the lane reads bytes from the volume; the lane says where the table lies,
//! repairs and parses its records, and resolves paths. Alternate data streams are ignored.

use crate::clock::Stopwatch;
use crate::dirtree::DirTable;
use crate::host::Host;
use crate::mounts::{FsKind, FsView};
use crate::text::Separator;
use crate::types::{FileKind, FileRecord, RecordView, ScanStats};
use std::collections::HashMap;
use vstd::prelude::*;

verus! {

broadcast use vstd::std_specs::hash::group_hash_axioms;

/// The record of the top directory.
pub const ROOT_ID: u64 = 5;

/// The largest record.
pub const MAX_RECORD: u64 = 65_536;

/// More records than a plausible table has.
pub const MAX_RECORDS: u64 = 100_000_000;

/// Why a volume could not be read.
#[derive(Debug, Clone, Copy, PartialEq, Eq, Structural)]
pub enum NtfsError {
    ShortBootSector,
    NotNtfs,
    InvalidGeometry,
    RecordShift,
    RecordSize,
    OffsetOverflow,
    AttributeOffset,
    AttributeLength,
    ShortDataAttribute,
    RunlistOffset,
    NoDataAttribute,
    InvalidRun,
    SparseRun,
    LcnOverflow,
    NegativeLcn,
    RunOverflow,
    NoRuns,
    ImplausibleCount,
    LogicalHole,
    RunExhausted,
    UsaMissing,
    InvalidUsa,
    UsaMismatch,
    RecordSequence,
}

impl NtfsError {
    /// How the error is reported.
    pub open spec fn text(self) -> Seq<char> {
        match self {
            NtfsError::ShortBootSector => "failed to fill whole buffer"@,
            NtfsError::NotNtfs => "not an NTFS boot sector"@,
            NtfsError::InvalidGeometry => "invalid NTFS geometry"@,
            NtfsError::RecordShift => "record shift"@,
            NtfsError::RecordSize => "invalid MFT record size"@,
            NtfsError::OffsetOverflow => "MFT offset overflow"@,
            NtfsError::AttributeOffset => "attribute offset"@,
            NtfsError::AttributeLength => "invalid MFT attribute length"@,
            NtfsError::ShortDataAttribute => "short non-resident $MFT DATA attribute"@,
            NtfsError::RunlistOffset => "invalid $MFT runlist offset"@,
            NtfsError::NoDataAttribute => "$MFT unnamed non-resident DATA attribute not found"@,
            NtfsError::InvalidRun => "invalid NTFS data run"@,
            NtfsError::SparseRun => "sparse $MFT run is invalid"@,
            NtfsError::LcnOverflow => "MFT LCN overflow"@,
            NtfsError::NegativeLcn => "negative MFT LCN"@,
            NtfsError::RunOverflow => "run length overflow"@,
            NtfsError::NoRuns => "$MFT has no non-resident unnamed $DATA runs"@,
            NtfsError::ImplausibleCount => "implausible MFT record count"@,
            NtfsError::LogicalHole => "MFT logical hole"@,
            NtfsError::RunExhausted => "MFT run exhausted"@,
            NtfsError::UsaMissing => "USA offset"@,
            NtfsError::InvalidUsa => "invalid USA"@,
            NtfsError::UsaMismatch => "USA mismatch"@,
            NtfsError::RecordSequence => "record sequence"@,
        }
    }

    /// How the error is reported.
    pub fn message(self) -> (r: String)
        ensures
            r@ == self.text(),
    {
        match self {
            NtfsError::ShortBootSector => "failed to fill whole buffer".to_owned(),
            NtfsError::NotNtfs => "not an NTFS boot sector".to_owned(),
            NtfsError::InvalidGeometry => "invalid NTFS geometry".to_owned(),
            NtfsError::RecordShift => "record shift".to_owned(),
            NtfsError::RecordSize => "invalid MFT record size".to_owned(),
            NtfsError::OffsetOverflow => "MFT offset overflow".to_owned(),
            NtfsError::AttributeOffset => "attribute offset".to_owned(),
            NtfsError::AttributeLength => "invalid MFT attribute length".to_owned(),
            NtfsError::ShortDataAttribute => "short non-resident $MFT DATA attribute".to_owned(),
            NtfsError::RunlistOffset => "invalid $MFT runlist offset".to_owned(),
            NtfsError::NoDataAttribute => "$MFT unnamed non-resident DATA attribute not found".to_owned(),
            NtfsError::InvalidRun => "invalid NTFS data run".to_owned(),
            NtfsError::SparseRun => "sparse $MFT run is invalid".to_owned(),
            NtfsError::LcnOverflow => "MFT LCN overflow".to_owned(),
            NtfsError::NegativeLcn => "negative MFT LCN".to_owned(),
            NtfsError::RunOverflow => "run length overflow".to_owned(),
            NtfsError::NoRuns => "$MFT has no non-resident unnamed $DATA runs".to_owned(),
            NtfsError::ImplausibleCount => "implausible MFT record count".to_owned(),
            NtfsError::LogicalHole => "MFT logical hole".to_owned(),
            NtfsError::RunExhausted => "MFT run exhausted".to_owned(),
            NtfsError::UsaMissing => "USA offset".to_owned(),
            NtfsError::InvalidUsa => "invalid USA".to_owned(),
            NtfsError::UsaMismatch => "USA mismatch".to_owned(),
            NtfsError::RecordSequence => "record sequence".to_owned(),
        }
    }
}

/// Where things lie on a volume.
#[derive(Debug, Clone, Copy, PartialEq, Eq, Structural)]
pub struct Geometry {
    pub sector: u64,
    pub cluster: u64,
    pub record: u64,
    pub mft_offset: u64,
}

/// A power of two.
pub open spec fn power_of_two(n: u64) -> bool {
    ||| n == 1
    ||| n == 2
    ||| n == 4
    ||| n == 8
    ||| n == 16
    ||| n == 32
    ||| n == 64
    ||| n == 128
    ||| n == 256
    ||| n == 512
    ||| n == 1024
    ||| n == 2048
    ||| n == 4096
    ||| n == 8192
    ||| n == 16384
    ||| n == 32768
}

/// Two to a power.
pub open spec fn two_to(n: nat) -> nat
    decreases n,
{
    if n == 0 {
        1
    } else {
        2 * two_to((n - 1) as nat)
    }
}

/// The size of a record: a number of clusters, or where the byte is negative a power of
/// two bytes.
pub open spec fn record_size(encoded: u8, cluster: nat) -> Option<nat> {
    if encoded >= 128 {
        if 256 - encoded >= 64 {
            None
        } else {
            Some(two_to((256 - encoded) as nat))
        }
    } else {
        Some(cluster * encoded as nat)
    }
}

/// The geometry in a boot sector.
pub open spec fn geometry_in(b: Seq<u8>) -> Result<Geometry, NtfsError> {
    let sector = crate::bytes::le_value(b.subrange(11, 13));
    let cluster = sector * b[13] as nat;
    let lcn = crate::bytes::le_value(b.subrange(48, 56));
    if b.len() < 512 {
        Err(NtfsError::ShortBootSector)
    } else if b.subrange(3, 7) != seq![0x4eu8, 0x54, 0x46, 0x53] {
        Err(NtfsError::NotNtfs)
    } else if !power_of_two(sector as u64) || b[13] == 0 {
        Err(NtfsError::InvalidGeometry)
    } else {
        match record_size(b[64], cluster) {
            None => Err(NtfsError::RecordShift),
            Some(record) => if record < sector || record > MAX_RECORD {
                Err(NtfsError::RecordSize)
            } else if lcn * cluster > u64::MAX {
                Err(NtfsError::OffsetOverflow)
            } else {
                Ok(
                    Geometry {
                        sector: sector as u64,
                        cluster: cluster as u64,
                        record: record as u64,
                        mft_offset: (lcn * cluster) as u64,
                    },
                )
            },
        }
    }
}

fn is_power_of_two(n: u64) -> (r: bool)
    ensures
        r == power_of_two(n),
{
    n == 1 || n == 2 || n == 4 || n == 8 || n == 16 || n == 32 || n == 64 || n == 128 || n == 256
        || n == 512 || n == 1024 || n == 2048 || n == 4096 || n == 8192 || n == 16384 || n == 32768
}

fn two_power(n: u64) -> (r: u64)
    requires
        n < 64,
    ensures
        r == two_to(n as nat),
        r >= 1,
    decreases n,
{
    if n == 0 {
        1
    } else {
        proof {
            lemma_two_to(n as nat);
        }
        2 * two_power(n - 1)
    }
}

proof fn lemma_two_to(n: nat)
    requires
        n < 64,
    ensures
        1 <= two_to(n) <= 0x8000_0000_0000_0000,
{
    reveal_with_fuel(two_to, 65);
    lemma_two_grows(n, 63);
}

proof fn lemma_two_grows(a: nat, b: nat)
    requires
        a <= b,
    ensures
        1 <= two_to(a) <= two_to(b),
    decreases b,
{
    if a < b {
        lemma_two_grows(a, (b - 1) as nat);
    } else if a > 0 {
        lemma_two_grows((a - 1) as nat, (a - 1) as nat);
    }
}

/// Reads the geometry from a boot sector.
pub fn read_geometry(b: &[u8]) -> (r: Result<Geometry, NtfsError>)
    ensures
        r == geometry_in(b@),
{
    if b.len() < 512 {
        return Err(NtfsError::ShortBootSector);
    }
    let name: Vec<u8> = vec![0x4e, 0x54, 0x46, 0x53];
    assert(name@ =~= seq![0x4eu8, 0x54, 0x46, 0x53]);
    if !crate::bytes::same_bytes(vstd::slice::slice_subrange(b, 3, 7), name.as_slice()) {
        return Err(NtfsError::NotNtfs);
    }
    let sector: u64 = crate::bytes::le_u16(vstd::slice::slice_subrange(b, 11, 13)) as u64;
    let per: u64 = b[13] as u64;
    if !is_power_of_two(sector) || per == 0 {
        return Err(NtfsError::InvalidGeometry);
    }
    assert(sector * per <= 0x1_0000 * 0x100) by (nonlinear_arith)
        requires
            sector <= 0x1_0000,
            per <= 0x100,
    ;
    let cluster: u64 = sector * per;
    let lcn: u64 = crate::bytes::le_u64(vstd::slice::slice_subrange(b, 48, 56));
    let encoded: u8 = b[64];
    let record: u64 = if encoded >= 128 {
        let shift: u64 = 256 - encoded as u64;
        if shift >= 64 {
            return Err(NtfsError::RecordShift);
        }
        two_power(shift)
    } else {
        assert(cluster * encoded <= 0x100_0000 * 128) by (nonlinear_arith)
            requires
                cluster <= 0x100_0000,
                encoded < 128,
        ;
        cluster * encoded as u64
    };
    if record < sector || record > MAX_RECORD {
        return Err(NtfsError::RecordSize);
    }
    match lcn.checked_mul(cluster) {
        None => Err(NtfsError::OffsetOverflow),
        Some(mft_offset) => Ok(Geometry { sector, cluster, record, mft_offset }),
    }
}

// ---------------------------------------------------------------------------
// The volume

/// The path by which a volume is opened: on Windows in the namespace of devices, and without
/// backslashes at the end.
pub open spec fn volume_name(host: Host, device: Seq<char>) -> Seq<char> {
    if host == Host::Windows {
        let d = crate::text::trim_end(device, Separator::Char('\\'));
        if "\\\\.\\"@.is_prefix_of(d) {
            d
        } else {
            "\\\\.\\"@ + d
        }
    } else {
        device
    }
}

/// The path by which the volume of a device is opened.
pub fn volume_path(host: Host, device: &str) -> (r: String)
    ensures
        r@ == volume_name(host, device@),
{
    if host == Host::Windows {
        let chars = crate::text::chars_of(device);
        let end: usize = crate::text::end_run(chars.as_slice(), Separator::Char('\\'));
        let bare = crate::text::part(chars.as_slice(), 0, end);
        let text = crate::text::string_of(bare.as_slice());
        if crate::text::begins(bare.as_slice(), "\\\\.\\") {
            text
        } else {
            crate::text::joined("\\\\.\\", text.as_str())
        }
    } else {
        device.to_owned()
    }
}

// ---------------------------------------------------------------------------
// Fixups

/// The record with its first `n` sectors repaired; none where one was torn.
pub open spec fn repaired(rec: Seq<u8>, usa: int, sector: int, n: nat) -> Option<Seq<u8>>
    decreases n,
{
    if n == 0 {
        Some(rec)
    } else {
        match repaired(rec, usa, sector, (n - 1) as nat) {
            None => None,
            Some(r) => {
                let end = n * sector;
                let src = usa + 2 * n;
                if r[end - 2] == rec[usa] && r[end - 1] == rec[usa + 1] {
                    let half = r.update(end - 2, r[src]);
                    Some(half.update(end - 1, half[src + 1]))
                } else {
                    None
                }
            },
        }
    }
}

/// The record with all sectors repaired.
pub open spec fn fixed_up(rec: Seq<u8>, sector: usize) -> Result<Seq<u8>, NtfsError> {
    match (crate::reader::number(rec, 4, 2), crate::reader::number(rec, 6, 2)) {
        (Some(usa), Some(count)) => if sector < 2 || rec.len() % sector as nat != 0 || count
            != rec.len() / sector as nat + 1 || usa + count * 2 > rec.len() {
            Err(NtfsError::InvalidUsa)
        } else {
            match repaired(rec, usa as int, sector as int, (count - 1) as nat) {
                None => Err(NtfsError::UsaMismatch),
                Some(r) => Ok(r),
            }
        },
        _ => Err(NtfsError::UsaMissing),
    }
}

/// How many of the first `n` sectors stand before the first torn one.
pub open spec fn sound_sectors(rec: Seq<u8>, usa: int, sector: int, n: nat) -> nat
    decreases n,
{
    if n == 0 || repaired(rec, usa, sector, n) is Some {
        n
    } else {
        sound_sectors(rec, usa, sector, (n - 1) as nat)
    }
}

/// What repairing a record makes of it, in the end: all sectors before the first torn one are
/// repaired, and all else is as before. Nothing is touched where there is no update sequence.
pub open spec fn left_by_fixup(rec: Seq<u8>, sector: usize) -> Seq<u8> {
    match fixed_up(rec, sector) {
        Ok(r) => r,
        Err(NtfsError::UsaMismatch) => {
            let usa = crate::reader::number(rec, 4, 2)->0 as int;
            let count = crate::reader::number(rec, 6, 2)->0;
            let n = sound_sectors(rec, usa, sector as int, (count - 1) as nat);
            repaired(rec, usa, sector as int, n)->0
        },
        Err(_) => rec,
    }
}

proof fn lemma_sound_sectors(rec: Seq<u8>, usa: int, sector: int, n: nat, m: nat)
    requires
        n < m,
        repaired(rec, usa, sector, n) is Some,
        repaired(rec, usa, sector, n + 1) is None,
    ensures
        sound_sectors(rec, usa, sector, m) == n,
    decreases m,
{
    lemma_torn(rec, usa, sector, n + 1, m);
    if n + 1 < m {
        lemma_sound_sectors(rec, usa, sector, n, (m - 1) as nat);
    } else {
        assert(sound_sectors(rec, usa, sector, n) == n);
    }
}

proof fn lemma_repaired_only_at_ends(rec: Seq<u8>, usa: int, sector: int, n: nat)
    requires
        sector >= 2,
        repaired(rec, usa, sector, n) is Some,
        n * sector <= rec.len(),
    ensures
        repaired(rec, usa, sector, n)->0.len() == rec.len(),
        forall|k: int|
            n * sector <= k < rec.len() ==> repaired(rec, usa, sector, n)->0[k] == rec[k],
        forall|k: int|
            0 <= k < rec.len() && k % sector < sector - 2 ==> #[trigger] repaired(
                rec,
                usa,
                sector,
                n,
            )->0[k] == rec[k],
    decreases n,
{
    if n > 0 {
        let before = (n - 1) as nat;
        assert(n * sector == before * sector + sector) by (nonlinear_arith)
            requires
                n == before + 1,
        ;
        lemma_repaired_only_at_ends(rec, usa, sector, before);
        assert((before * sector + (sector - 2)) % sector == sector - 2) by (nonlinear_arith)
            requires
                sector >= 2,
        ;
        assert((before * sector + (sector - 1)) % sector == sector - 1) by (nonlinear_arith)
            requires
                sector >= 2,
        ;
    }
}

/// Repairing a record changes no more than the two bytes at the end of a sector, and, where
/// a sector is torn, nothing from that sector on.
pub proof fn law_fixups_touch_only_ends_of_sound_sectors(rec: Seq<u8>, sector: usize, k: int)
    requires
        0 <= k < rec.len(),
    ensures
        left_by_fixup(rec, sector).len() == rec.len(),
        sector >= 2 && k % (sector as int) < sector - 2 ==> left_by_fixup(rec, sector)[k] == rec[k],
        fixed_up(rec, sector) == Err::<Seq<u8>, NtfsError>(NtfsError::UsaMismatch) && sound_sectors(
            rec,
            crate::reader::number(rec, 4, 2)->0 as int,
            sector as int,
            (crate::reader::number(rec, 6, 2)->0 - 1) as nat,
        ) * sector <= k ==> left_by_fixup(rec, sector)[k] == rec[k],
{
    let usa = crate::reader::number(rec, 4, 2);
    let count = crate::reader::number(rec, 6, 2);
    match fixed_up(rec, sector) {
        Ok(_) => {
            let all = (count->0 - 1) as nat;
            lemma_sectors_fit(rec.len(), sector as nat, all);
            lemma_repaired_only_at_ends(rec, usa->0 as int, sector as int, all);
        },
        Err(NtfsError::UsaMismatch) => {
            let all = (count->0 - 1) as nat;
            let n = sound_sectors(rec, usa->0 as int, sector as int, all);
            lemma_sound_within(rec, usa->0 as int, sector as int, all);
            lemma_sectors_fit(rec.len(), sector as nat, n);
            lemma_repaired_only_at_ends(rec, usa->0 as int, sector as int, n);
        },
        Err(_) => {},
    }
}

proof fn lemma_sectors_fit(len: nat, sector: nat, n: nat)
    requires
        sector >= 2,
        n <= len / sector,
    ensures
        n * sector <= len,
{
    assert(n * sector <= len) by (nonlinear_arith)
        requires
            n <= len / sector,
            sector >= 2,
    ;
}

proof fn lemma_sound_within(rec: Seq<u8>, usa: int, sector: int, n: nat)
    ensures
        sound_sectors(rec, usa, sector, n) <= n,
        repaired(rec, usa, sector, sound_sectors(rec, usa, sector, n)) is Some,
    decreases n,
{
    if n > 0 && repaired(rec, usa, sector, n) is None {
        lemma_sound_within(rec, usa, sector, (n - 1) as nat);
    }
}

proof fn lemma_torn(rec: Seq<u8>, usa: int, sector: int, n: nat, m: nat)
    requires
        n <= m,
        repaired(rec, usa, sector, n) is None,
    ensures
        repaired(rec, usa, sector, m) is None,
    decreases m,
{
    if n < m {
        lemma_torn(rec, usa, sector, n, (m - 1) as nat);
    }
}

/// Repairs the ends of all sectors of a record from its update sequence.
pub fn apply_fixup(rec: &mut Vec<u8>, sector: usize) -> (r: Result<(), NtfsError>)
    ensures
        match r {
            Ok(_) => fixed_up(old(rec)@, sector) == Ok::<Seq<u8>, NtfsError>(final(rec)@),
            Err(e) => fixed_up(old(rec)@, sector) == Err::<Seq<u8>, NtfsError>(e),
        },
        final(rec)@ == left_by_fixup(old(rec)@, sector),
        final(rec)@.len() == old(rec)@.len(),
{
    let len: usize = rec.len();
    let ghost given = rec@;
    if len < 8 {
        proof {
            assert(crate::reader::number(given, 6, 2) is None);
        }
        return Err(NtfsError::UsaMissing);
    }
    let usa: usize = crate::bytes::le_u16(
        vstd::slice::slice_subrange(rec.as_slice(), 4, 6),
    ) as usize;
    let count: usize = crate::bytes::le_u16(
        vstd::slice::slice_subrange(rec.as_slice(), 6, 8),
    ) as usize;
    if sector < 2 || len % sector != 0 {
        return Err(NtfsError::InvalidUsa);
    }
    assert(len / sector <= len / 2) by (nonlinear_arith)
        requires
            sector >= 2,
    ;
    if count != len / sector + 1 || usa + count * 2 > len {
        return Err(NtfsError::InvalidUsa);
    }
    let first: u8 = rec[usa];
    let second: u8 = rec[usa + 1];
    let mut i: usize = 1;
    while i < count
        invariant
            1 <= i <= count,
            sector >= 2,
            given == old(rec)@,
            len == given.len() == rec@.len(),
            len % sector == 0,
            crate::reader::number(given, 4, 2) == Some(usa as nat),
            crate::reader::number(given, 6, 2) == Some(count as nat),
            count == len / sector + 1,
            usa + count * 2 <= len,
            first == given[usa as int],
            second == given[usa + 1],
            repaired(given, usa as int, sector as int, (i - 1) as nat) == Some(rec@),
        decreases count - i,
    {
        proof {
            assert(i * sector <= len) by (nonlinear_arith)
                requires
                    i <= len / sector,
                    sector >= 2,
            ;
            assert(i * sector >= 2) by (nonlinear_arith)
                requires
                    i >= 1,
                    sector >= 2,
            ;
        }
        let end: usize = i * sector;
        if rec[end - 2] != first || rec[end - 1] != second {
            proof {
                assert(repaired(given, usa as int, sector as int, i as nat) is None);
                lemma_torn(
                    given,
                    usa as int,
                    sector as int,
                    i as nat,
                    (count - 1) as nat,
                );
                lemma_sound_sectors(
                    given,
                    usa as int,
                    sector as int,
                    (i - 1) as nat,
                    (count - 1) as nat,
                );
            }
            return Err(NtfsError::UsaMismatch);
        }
        let src: usize = usa + i * 2;
        let low: u8 = rec[src];
        rec.set(end - 2, low);
        let high: u8 = rec[src + 1];
        rec.set(end - 1, high);
        i += 1;
    }
    Ok(())
}

// ---------------------------------------------------------------------------
// Runs

/// A piece of the table: where it stands in the table and on the volume.
#[derive(Debug, Clone, Copy, PartialEq, Eq, Structural)]
pub struct Run {
    pub logical: u64,
    pub len: u64,
    pub physical: u64,
}

/// A signed number of some bytes, least significant first.
pub open spec fn signed_value(b: Seq<u8>) -> int {
    if b.len() > 0 && b.last() >= 128 {
        crate::bytes::le_value(b) - crate::bytes::byte_span(b.len())
    } else {
        crate::bytes::le_value(b) as int
    }
}

/// The runs from a position of a runlist on. `lcn` and `logical` are where the last one
/// began on the volume and where the next one begins in the table.
pub open spec fn runs_from(data: Seq<u8>, p: int, cluster: u64, lcn: int, logical: int) -> Result<
    Seq<Run>,
    NtfsError,
>
    decreases data.len() - p,
{
    if p < 0 || p >= data.len() || data[p] == 0 {
        Ok(Seq::empty())
    } else {
        let ls = (data[p] % 16) as int;
        let os = (data[p] / 16) as int;
        let q = p + 1 + ls + os;
        if ls == 0 || ls > 8 || os > 8 || q > data.len() {
            Err(NtfsError::InvalidRun)
        } else if os == 0 {
            Err(NtfsError::SparseRun)
        } else {
            let clusters = crate::bytes::le_value(data.subrange(p + 1, p + 1 + ls));
            let next = lcn + signed_value(data.subrange(p + 1 + ls, q));
            let len = clusters * cluster as nat;
            if next > i64::MAX || next < i64::MIN {
                Err(NtfsError::LcnOverflow)
            } else if next < 0 {
                Err(NtfsError::NegativeLcn)
            } else if len > u64::MAX || next * cluster > u64::MAX || logical + len > u64::MAX {
                Err(NtfsError::RunOverflow)
            } else {
                match runs_from(data, q, cluster, next, logical + len) {
                    Err(e) => Err(e),
                    Ok(rest) => Ok(
                        seq![
                            Run {
                                logical: logical as u64,
                                len: len as u64,
                                physical: (next * cluster) as u64,
                            },
                        ] + rest,
                    ),
                }
            }
        }
    }
}

fn read_unsigned(b: &[u8]) -> (n: u64)
    requires
        b@.len() <= 8,
    ensures
        n == crate::bytes::le_value(b@),
        n < crate::bytes::byte_span(b@.len()),
    decreases b@.len(),
{
    let len: usize = b.len();
    proof {
        reveal_with_fuel(crate::bytes::byte_span, 9);
    }
    if len == 0 {
        return 0;
    }
    let rest = vstd::slice::slice_subrange(b, 1, len);
    assert(rest@ =~= b@.drop_first());
    let high: u64 = read_unsigned(rest);
    proof {
        lemma_span_bound((len - 1) as nat);
    }
    b[0] as u64 + 256 * high
}

proof fn lemma_span_bound(n: nat)
    requires
        n <= 7,
    ensures
        crate::bytes::byte_span(n) <= 0x100_0000_0000_0000,
        crate::bytes::byte_span(n + 1) == 256 * crate::bytes::byte_span(n),
{
    reveal_with_fuel(crate::bytes::byte_span, 9);
}

/// The runs of a runlist.
pub fn parse_runlist(data: &[u8], cluster: u64) -> (r: Result<Vec<Run>, NtfsError>)
    ensures
        match r {
            Ok(runs) => runs_from(data@, 0, cluster, 0, 0) == Ok::<Seq<Run>, NtfsError>(runs@),
            Err(e) => runs_from(data@, 0, cluster, 0, 0) == Err::<Seq<Run>, NtfsError>(e),
        },
{
    let total: usize = data.len();
    let mut out: Vec<Run> = Vec::new();
    let mut p: usize = 0;
    let mut lcn: i64 = 0;
    let mut logical: u64 = 0;
    let ghost all = runs_from(data@, 0, cluster, 0, 0);
    proof {
        if all is Ok {
            assert(out@ + all->Ok_0 =~= all->Ok_0);
        }
    }
    while p < total && data[p] != 0
        invariant
            p <= total == data@.len(),
            lcn >= 0,
            all == runs_from(data@, 0, cluster, 0, 0),
            all == behind(
                out@,
                runs_from(data@, p as int, cluster, lcn as int, logical as int),
            ),
        decreases total - p,
    {
        let head: u8 = data[p];
        let ls: usize = (head % 16) as usize;
        let os: usize = (head / 16) as usize;
        let room: usize = total - p - 1;
        if ls == 0 || ls > 8 || os > 8 || ls + os > room {
            return Err(NtfsError::InvalidRun);
        }
        if os == 0 {
            return Err(NtfsError::SparseRun);
        }
        let mid: usize = p + 1 + ls;
        let end: usize = mid + os;
        let clusters: u64 = read_unsigned(vstd::slice::slice_subrange(data, p + 1, mid));
        let bytes = vstd::slice::slice_subrange(data, mid, end);
        let raw: u64 = read_unsigned(bytes);
        let delta: i128 = if bytes[os - 1] >= 128 {
            let span: i128 = span_of(os);
            raw as i128 - span
        } else {
            raw as i128
        };
        let ghost before = out@;
        let next: i128 = lcn as i128 + delta;
        if next > i64::MAX as i128 || next < i64::MIN as i128 {
            return Err(NtfsError::LcnOverflow);
        }
        if next < 0 {
            return Err(NtfsError::NegativeLcn);
        }
        let at: u64 = next as u64;
        let len: u64 = match clusters.checked_mul(cluster) {
            Some(n) => n,
            None => {
                return Err(NtfsError::RunOverflow);
            },
        };
        let physical: u64 = match at.checked_mul(cluster) {
            Some(n) => n,
            None => {
                return Err(NtfsError::RunOverflow);
            },
        };
        let after: u64 = match logical.checked_add(len) {
            Some(n) => n,
            None => {
                return Err(NtfsError::RunOverflow);
            },
        };
        let run = Run { logical, len, physical };
        out.push(run);
        proof {
            let rest = runs_from(data@, end as int, cluster, next as int, after as int);
            if rest is Ok {
                assert(before + (seq![run] + rest->Ok_0) =~= out@ + rest->Ok_0);
            }
        }
        lcn = at as i64;
        logical = after;
        p = end;
    }
    assert(out@ + Seq::<Run>::empty() =~= out@);
    Ok(out)
}

/// More behind some runs, or the error further on.
spec fn behind(front: Seq<Run>, rest: Result<Seq<Run>, NtfsError>) -> Result<Seq<Run>, NtfsError> {
    match rest {
        Ok(more) => Ok(front + more),
        Err(e) => Err(e),
    }
}

fn span_of(n: usize) -> (r: i128)
    requires
        n <= 8,
    ensures
        r == crate::bytes::byte_span(n as nat),
        0 < r <= 0x1_0000_0000_0000_0000,
    decreases n,
{
    proof {
        reveal_with_fuel(crate::bytes::byte_span, 9);
    }
    if n == 0 {
        1
    } else {
        proof {
            lemma_span_bound((n - 1) as nat);
        }
        256 * span_of(n - 1)
    }
}

/// The runs and the size of the table, from the attributes of its own record.
pub open spec fn table_in(rec: Seq<u8>, p: int, cluster: u64) -> Result<(Seq<Run>, u64), NtfsError>
    decreases rec.len() - p,
{
    if p < 0 || p + 16 > rec.len() {
        Err(NtfsError::NoDataAttribute)
    } else {
        let typ = crate::bytes::le_value(rec.subrange(p, p + 4));
        let len = crate::bytes::le_value(rec.subrange(p + 4, p + 8)) as int;
        if typ == 0xffff_ffff {
            Err(NtfsError::NoDataAttribute)
        } else if len < 16 || p + len > rec.len() {
            Err(NtfsError::AttributeLength)
        } else if typ == 0x80 && rec[p + 8] != 0 && rec[p + 9] == 0 {
            if len < 64 {
                Err(NtfsError::ShortDataAttribute)
            } else {
                let off = crate::bytes::le_value(rec.subrange(p + 32, p + 34)) as int;
                let size = crate::bytes::le_value(rec.subrange(p + 48, p + 56));
                if off < 64 || off > len {
                    Err(NtfsError::RunlistOffset)
                } else {
                    match runs_from(rec.subrange(p + off, p + len), 0, cluster, 0, 0) {
                        Err(e) => Err(e),
                        Ok(runs) => Ok((runs, size as u64)),
                    }
                }
            }
        } else {
            table_in(rec, p + len, cluster)
        }
    }
}

/// Where the table lies and how large it is.
pub open spec fn mft_table(rec: Seq<u8>, cluster: u64) -> Result<(Seq<Run>, u64), NtfsError> {
    match crate::reader::number(rec, 20, 2) {
        None => Err(NtfsError::AttributeOffset),
        Some(p) => table_in(rec, p as int, cluster),
    }
}

/// Finds where the table lies and how large it is.
pub fn mft_runs(rec: &[u8], cluster: u64) -> (r: Result<(Vec<Run>, u64), NtfsError>)
    ensures
        match r {
            Ok((runs, size)) => mft_table(rec@, cluster) == Ok::<(Seq<Run>, u64), NtfsError>(
                (runs@, size),
            ),
            Err(e) => mft_table(rec@, cluster) == Err::<(Seq<Run>, u64), NtfsError>(e),
        },
{
    let total: usize = rec.len();
    if total < 22 {
        return Err(NtfsError::AttributeOffset);
    }
    let mut p: usize = crate::bytes::le_u16(vstd::slice::slice_subrange(rec, 20, 22)) as usize;
    let ghost first = p as int;
    while p <= total && total - p >= 16
        invariant
            total == rec@.len(),
            crate::reader::number(rec@, 20, 2) == Some(first as nat),
            0 <= first,
            table_in(rec@, first, cluster) == table_in(rec@, p as int, cluster),
        decreases total - p,
    {
        let typ: u32 = crate::bytes::le_u32(vstd::slice::slice_subrange(rec, p, p + 4));
        if typ == 0xffff_ffff {
            return Err(NtfsError::NoDataAttribute);
        }
        let raw: u32 = crate::bytes::le_u32(vstd::slice::slice_subrange(rec, p + 4, p + 8));
        if raw < 16 || raw as u64 > (total - p) as u64 {
            return Err(NtfsError::AttributeLength);
        }
        let len: usize = raw as usize;
        if typ == 0x80 && rec[p + 8] != 0 && rec[p + 9] == 0 {
            if len < 64 {
                return Err(NtfsError::ShortDataAttribute);
            }
            let off: usize = crate::bytes::le_u16(
                vstd::slice::slice_subrange(rec, p + 32, p + 34),
            ) as usize;
            if off < 64 || off > len {
                return Err(NtfsError::RunlistOffset);
            }
            let size: u64 = crate::bytes::le_u64(
                vstd::slice::slice_subrange(rec, p + 48, p + 56),
            );
            return match parse_runlist(
                vstd::slice::slice_subrange(rec, p + off, p + len),
                cluster,
            ) {
                Ok(runs) => Ok((runs, size)),
                Err(e) => Err(e),
            };
        }
        p = p + len;
    }
    Err(NtfsError::NoDataAttribute)
}

/// How many records the table has.
pub open spec fn records_in(runs: Seq<Run>, size: u64, record: u64) -> Result<u64, NtfsError> {
    if runs.len() == 0 {
        Err(NtfsError::NoRuns)
    } else if size / record > MAX_RECORDS {
        Err(NtfsError::ImplausibleCount)
    } else {
        Ok((size / record) as u64)
    }
}

/// How many records the table has.
pub fn record_count(runs: &Vec<Run>, size: u64, record: u64) -> (r: Result<u64, NtfsError>)
    requires
        record > 0,
    ensures
        r == records_in(runs@, size, record),
{
    if runs.len() == 0 {
        return Err(NtfsError::NoRuns);
    }
    let count: u64 = size / record;
    if count > MAX_RECORDS {
        return Err(NtfsError::ImplausibleCount);
    }
    Ok(count)
}

/// A stretch of the volume.
#[derive(Debug, Clone, Copy, PartialEq, Eq, Structural)]
pub struct Extent {
    pub physical: u64,
    pub len: u64,
}

/// The stretches that hold `left` bytes of the table from `logical` on, the runs from `i` on
/// taken in turn.
pub open spec fn stretches(runs: Seq<Run>, i: int, logical: int, left: int) -> Result<
    Seq<Extent>,
    NtfsError,
>
    decreases runs.len() - i,
{
    if left <= 0 {
        Ok(Seq::empty())
    } else if i < 0 || i >= runs.len() {
        Err(NtfsError::RunExhausted)
    } else {
        let run = runs[i];
        let within = logical - run.logical;
        if within < 0 {
            Err(NtfsError::LogicalHole)
        } else if within >= run.len {
            stretches(runs, i + 1, logical, left)
        } else {
            let n = if run.len - within < left {
                run.len - within
            } else {
                left
            };
            if run.physical + within > u64::MAX {
                Err(NtfsError::OffsetOverflow)
            } else {
                match stretches(runs, i + 1, logical + n, left - n) {
                    Err(e) => Err(e),
                    Ok(rest) => Ok(
                        seq![Extent { physical: (run.physical + within) as u64, len: n as u64 }]
                            + rest,
                    ),
                }
            }
        }
    }
}

/// The run holds the position.
pub open spec fn run_holds(run: Run, logical: u64) -> bool {
    run.logical <= logical < run.logical + run.len
}

/// The first run that holds a position, or the number of runs.
pub open spec fn holding_run(runs: Seq<Run>, logical: u64) -> int
    decreases runs.len(),
{
    if runs.len() == 0 {
        0
    } else {
        let front = holding_run(runs.drop_last(), logical);
        if front < runs.len() - 1 || run_holds(runs.last(), logical) {
            front
        } else {
            runs.len() as int
        }
    }
}

/// Where a part of the table lies on the volume.
pub open spec fn located(runs: Seq<Run>, logical: u64, len: u64) -> Result<Seq<Extent>, NtfsError> {
    let i = holding_run(runs, logical);
    if i == runs.len() {
        Err(NtfsError::LogicalHole)
    } else {
        stretches(runs, i, logical as int, len as int)
    }
}

spec fn then_extents(front: Seq<Extent>, rest: Result<Seq<Extent>, NtfsError>) -> Result<
    Seq<Extent>,
    NtfsError,
> {
    match rest {
        Ok(more) => Ok(front + more),
        Err(e) => Err(e),
    }
}

fn find_run(runs: &Vec<Run>, logical: u64) -> (i: usize)
    ensures
        i == holding_run(runs@, logical),
        i <= runs@.len(),
{
    let mut i: usize = 0;
    assert(runs@.take(0) =~= Seq::empty());
    while i < runs.len()
        invariant
            i <= runs@.len(),
            holding_run(runs@.take(i as int), logical) == i,
        decreases runs@.len() - i,
    {
        proof {
            assert(runs@.take(i + 1).drop_last() =~= runs@.take(i as int));
            assert(runs@.take(i + 1).last() == runs@[i as int]);
        }
        let run = runs[i];
        if run.logical <= logical && logical - run.logical < run.len {
            proof {
                lemma_holding_stays(runs@, logical, i + 1);
            }
            return i;
        }
        i += 1;
    }
    assert(runs@.take(i as int) =~= runs@);
    i
}

proof fn lemma_holding_stays(runs: Seq<Run>, logical: u64, n: int)
    requires
        0 <= n <= runs.len(),
        holding_run(runs.take(n), logical) < n,
    ensures
        holding_run(runs, logical) == holding_run(runs.take(n), logical),
    decreases runs.len(),
{
    if n < runs.len() {
        assert(runs.drop_last().take(n) =~= runs.take(n));
        lemma_holding_stays(runs.drop_last(), logical, n);
    } else {
        assert(runs.take(n) =~= runs);
    }
}

/// Finds where a part of the table lies on the volume.
pub fn locate(runs: &Vec<Run>, logical: u64, len: u64) -> (r: Result<Vec<Extent>, NtfsError>)
    requires
        logical + len <= u64::MAX,
    ensures
        match r {
            Ok(es) => located(runs@, logical, len) == Ok::<Seq<Extent>, NtfsError>(es@),
            Err(e) => located(runs@, logical, len) == Err::<Seq<Extent>, NtfsError>(e),
        },
{
    let start: usize = find_run(runs, logical);
    if start == runs.len() {
        return Err(NtfsError::LogicalHole);
    }
    let mut out: Vec<Extent> = Vec::new();
    let mut i: usize = start;
    let mut at: u64 = logical;
    let mut left: u64 = len;
    let ghost all = stretches(runs@, start as int, logical as int, len as int);
    proof {
        if all is Ok {
            assert(out@ + all->Ok_0 =~= all->Ok_0);
        }
    }
    while left > 0
        invariant
            i <= runs@.len(),
            at + left == logical + len,
            logical + len <= u64::MAX,
            start == holding_run(runs@, logical),
            start < runs@.len(),
            all == stretches(runs@, start as int, logical as int, len as int),
            all == then_extents(out@, stretches(runs@, i as int, at as int, left as int)),
        decreases runs@.len() - i,
    {
        if i >= runs.len() {
            return Err(NtfsError::RunExhausted);
        }
        let run = runs[i];
        if at < run.logical {
            return Err(NtfsError::LogicalHole);
        }
        let within: u64 = at - run.logical;
        if within < run.len {
            let n: u64 = if run.len - within < left {
                run.len - within
            } else {
                left
            };
            let physical: u64 = match run.physical.checked_add(within) {
                Some(p) => p,
                None => {
                    return Err(NtfsError::OffsetOverflow);
                },
            };
            let ghost before = out@;
            let e = Extent { physical, len: n };
            out.push(e);
            at = at + n;
            left = left - n;
            proof {
                let rest = stretches(runs@, i + 1, at as int, left as int);
                if rest is Ok {
                    assert(before + (seq![e] + rest->Ok_0) =~= out@ + rest->Ok_0);
                }
            }
        }
        i += 1;
    }
    assert(out@ + Seq::<Extent>::empty() =~= out@);
    Ok(out)
}

// ---------------------------------------------------------------------------
// Records of the table

/// What is kept of a record.
#[derive(Debug)]
pub struct Entry {
    pub parent: u64,
    pub parent_sequence: u16,
    pub sequence: u16,
    pub name: String,
    pub size: u64,
    pub mtime: i64,
    pub dir: bool,
}

/// Another name of a record.
#[derive(Debug)]
pub struct Alias {
    pub parent: u64,
    pub parent_sequence: u16,
    pub name: String,
}

/// A record as a mathematical value.
#[verifier::ext_equal]
pub struct EntryView {
    pub parent: u64,
    pub parent_sequence: u16,
    pub sequence: u16,
    pub name: Seq<char>,
    pub size: u64,
    pub mtime: i64,
    pub dir: bool,
}

/// A name as a mathematical value.
#[verifier::ext_equal]
pub struct AliasView {
    pub parent: u64,
    pub parent_sequence: u16,
    pub name: Seq<char>,
}

impl View for Entry {
    type V = EntryView;

    open spec fn view(&self) -> EntryView {
        EntryView {
            parent: self.parent,
            parent_sequence: self.parent_sequence,
            sequence: self.sequence,
            name: self.name@,
            size: self.size,
            mtime: self.mtime,
            dir: self.dir,
        }
    }
}

impl View for Alias {
    type V = AliasView;

    open spec fn view(&self) -> AliasView {
        AliasView {
            parent: self.parent,
            parent_sequence: self.parent_sequence,
            name: self.name@,
        }
    }
}

/// Names as mathematical values.
pub open spec fn alias_views(s: Seq<Alias>) -> Seq<AliasView> {
    Seq::new(s.len(), |i: int| s[i]@)
}

/// One of the names stands in this parent under this name.
pub open spec fn names_it(s: Seq<AliasView>, parent: u64, name: Seq<char>) -> bool {
    exists|i: int| 0 <= i < s.len() && (#[trigger] s[i]).parent == parent && s[i].name == name
}

/// Seconds since 1970 of a count of 100 ns steps since 1601.
pub open spec fn unix_time(v: u64) -> i64 {
    (v / 10_000_000 - 11_644_473_600) as i64
}

/// Seconds since 1970 of a count of 100 ns steps since 1601.
pub fn filetime_to_unix(v: u64) -> (r: i64)
    ensures
        r == unix_time(v),
{
    (v / 10_000_000) as i64 - 11_644_473_600
}

/// UTF-16 units of some bytes.
pub open spec fn units_of(b: Seq<u8>) -> Seq<u16> {
    Seq::new(b.len() / 2, |i: int| (b[2 * i] + 256 * b[2 * i + 1]) as u16)
}

/// How good a name space is: a long name before a plain one before a short one.
pub open spec fn space_rank(ns: u8) -> u8 {
    if ns == 1 || ns == 3 {
        3
    } else if ns == 0 {
        2
    } else if ns == 2 {
        1
    } else {
        0
    }
}

/// What the attributes of a record say.
#[verifier::ext_equal]
pub struct FactsView {
    pub mtime: i64,
    pub best: Option<(u8, EntryView)>,
    pub names: Seq<AliasView>,
    pub listed: bool,
    pub data_size: Option<u64>,
}

/// A file name attribute.
pub open spec fn with_name(f: FactsView, v: Seq<u8>, sequence: u16, header_dir: bool) -> FactsView {
    let reference = crate::bytes::le_value(v.subrange(0, 8));
    let parent = (reference % 0x1_0000_0000_0000) as u64;
    let parent_sequence = (reference / 0x1_0000_0000_0000) as u16;
    let size = crate::bytes::le_value(v.subrange(48, 56)) as u64;
    let flags = crate::bytes::le_value(v.subrange(56, 60));
    let n = v[64] as int;
    let ns = v[65];
    let name = crate::text::utf16_text(units_of(v.subrange(66, 66 + 2 * n)));
    if 66 + 2 * n > v.len() || name == "."@ || name == ".."@ {
        f
    } else {
        let e = EntryView {
            parent,
            parent_sequence,
            sequence,
            name,
            size,
            mtime: f.mtime,
            dir: header_dir || (flags / 0x1000_0000) % 2 == 1,
        };
        FactsView {
            names: if ns != 2 && !names_it(f.names, parent, name) {
                f.names.push(AliasView { parent, parent_sequence, name })
            } else {
                f.names
            },
            best: match f.best {
                None => Some((space_rank(ns), e)),
                Some((r, _)) => if space_rank(ns) > r {
                    Some((space_rank(ns), e))
                } else {
                    f.best
                },
            },
            ..f
        }
    }
}

/// One more attribute of `len` bytes at `p`.
pub open spec fn with_attribute(
    f: FactsView,
    rec: Seq<u8>,
    p: int,
    len: int,
    sequence: u16,
    header_dir: bool,
) -> FactsView {
    let typ = crate::bytes::le_value(rec.subrange(p, p + 4));
    let g = if typ == 0x20 {
        FactsView { listed: true, ..f }
    } else {
        f
    };
    if rec[p + 8] != 0 {
        if typ == 0x80 && rec[p + 9] == 0 && len >= 64 {
            FactsView {
                data_size: Some(crate::bytes::le_value(rec.subrange(p + 48, p + 56)) as u64),
                ..g
            }
        } else {
            g
        }
    } else {
        let size = match crate::reader::number(rec, p + 16, 4) {
            Some(n) => n as int,
            None => 0,
        };
        let off = match crate::reader::number(rec, p + 20, 2) {
            Some(n) => n as int,
            None => 0,
        };
        if off + size > len {
            g
        } else {
            let v = rec.subrange(p + off, p + off + size);
            if typ == 0x80 && rec[p + 9] == 0 {
                FactsView { data_size: Some(size as u64), ..g }
            } else if typ == 0x10 && v.len() >= 16 {
                FactsView {
                    mtime: unix_time(crate::bytes::le_value(v.subrange(8, 16)) as u64),
                    ..g
                }
            } else if typ == 0x30 && v.len() >= 66 {
                with_name(g, v, sequence, header_dir)
            } else {
                g
            }
        }
    }
}

/// What the attributes from a position on add.
pub open spec fn facts_from(
    f: FactsView,
    rec: Seq<u8>,
    p: int,
    sequence: u16,
    header_dir: bool,
) -> FactsView
    decreases rec.len() - p,
{
    if p < 0 || p + 16 > rec.len() {
        f
    } else {
        let typ = crate::bytes::le_value(rec.subrange(p, p + 4));
        let len = crate::bytes::le_value(rec.subrange(p + 4, p + 8)) as int;
        if typ == 0xffff_ffff || len < 16 || p + len > rec.len() {
            f
        } else {
            facts_from(
                with_attribute(f, rec, p, len, sequence, header_dir),
                rec,
                p + len,
                sequence,
                header_dir,
            )
        }
    }
}

/// No attribute was read yet.
pub open spec fn no_facts() -> FactsView {
    FactsView { mtime: 0, best: None, names: Seq::empty(), listed: false, data_size: None }
}

/// A record that was parsed: its entry, its other names, and whether more of its attributes
/// stand elsewhere.
#[verifier::ext_equal]
pub struct ParsedView {
    pub entry: EntryView,
    pub names: Seq<AliasView>,
    pub listed: bool,
}

/// What the attributes come to.
pub open spec fn concluded(f: FactsView) -> Option<ParsedView> {
    match f.best {
        None => None,
        Some((_, e)) => {
            let entry = EntryView {
                mtime: f.mtime,
                size: match f.data_size {
                    Some(n) => n,
                    None => e.size,
                },
                ..e
            };
            Some(
                ParsedView {
                    entry,
                    names: f.names.filter(
                        |a: AliasView| a.parent != e.parent || a.name != e.name,
                    ),
                    listed: f.listed,
                },
            )
        },
    }
}

/// What a record says, or what is missing from it.
pub open spec fn parsed_record(rec: Seq<u8>, header_dir: bool) -> Result<
    Option<ParsedView>,
    NtfsError,
> {
    match (crate::reader::number(rec, 20, 2), crate::reader::number(rec, 16, 2)) {
        (None, _) => Err(NtfsError::AttributeOffset),
        (_, None) => Err(NtfsError::RecordSequence),
        (Some(p), Some(sequence)) => Ok(
            concluded(facts_from(no_facts(), rec, p as int, sequence as u16, header_dir)),
        ),
    }
}

/// A parsed record.
pub struct Parsed {
    pub entry: Entry,
    pub names: Vec<Alias>,
    pub listed: bool,
}

impl View for Parsed {
    type V = ParsedView;

    open spec fn view(&self) -> ParsedView {
        ParsedView { entry: self.entry@, names: alias_views(self.names@), listed: self.listed }
    }
}

struct Facts {
    mtime: i64,
    best: Option<(u8, Entry)>,
    names: Vec<Alias>,
    listed: bool,
    data_size: Option<u64>,
}

impl View for Facts {
    type V = FactsView;

    closed spec fn view(&self) -> FactsView {
        FactsView {
            mtime: self.mtime,
            best: match self.best {
                Some((r, e)) => Some((r, e@)),
                None => None,
            },
            names: alias_views(self.names@),
            listed: self.listed,
            data_size: self.data_size,
        }
    }
}

fn units(b: &[u8]) -> (out: Vec<u16>)
    ensures
        out@ == units_of(b@),
{
    let total: usize = b.len();
    let n: usize = total / 2;
    let mut out: Vec<u16> = Vec::new();
    let mut i: usize = 0;
    while i < n
        invariant
            i <= n == total / 2,
            total == b@.len(),
            out@.len() == i,
            forall|k: int| 0 <= k < i ==> #[trigger] out@[k] == units_of(b@)[k],
        decreases n - i,
    {
        out.push(b[2 * i] as u16 + 256 * (b[2 * i + 1] as u16));
        i += 1;
    }
    assert(out@ =~= units_of(b@));
    out
}

fn has_name(s: &Vec<Alias>, parent: u64, name: &str) -> (r: bool)
    ensures
        r == names_it(alias_views(s@), parent, name@),
{
    let ghost views = alias_views(s@);
    let mut i: usize = 0;
    while i < s.len()
        invariant
            i <= s@.len(),
            views == alias_views(s@),
            forall|k: int|
                0 <= k < i ==> !((#[trigger] views[k]).parent == parent && views[k].name == name@),
        decreases s@.len() - i,
    {
        assert(views[i as int] == s@[i as int]@);
        if s[i].parent == parent && crate::text::same_text(s[i].name.as_str(), name) {
            return true;
        }
        i += 1;
    }
    false
}

fn rank_of(ns: u8) -> (r: u8)
    ensures
        r == space_rank(ns),
{
    if ns == 1 || ns == 3 {
        3
    } else if ns == 0 {
        2
    } else if ns == 2 {
        1
    } else {
        0
    }
}

fn add_name(f: &mut Facts, v: &[u8], sequence: u16, header_dir: bool)
    requires
        v@.len() >= 66,
    ensures
        final(f)@ == with_name(old(f)@, v@, sequence, header_dir),
{
    let reference: u64 = crate::bytes::le_u64(vstd::slice::slice_subrange(v, 0, 8));
    let parent: u64 = reference % 0x1_0000_0000_0000;
    let parent_sequence: u16 = (reference / 0x1_0000_0000_0000) as u16;
    let size: u64 = crate::bytes::le_u64(vstd::slice::slice_subrange(v, 48, 56));
    let flags: u32 = crate::bytes::le_u32(vstd::slice::slice_subrange(v, 56, 60));
    let n: usize = v[64] as usize;
    let ns: u8 = v[65];
    if 66 + 2 * n > v.len() {
        return;
    }
    let words = units(vstd::slice::slice_subrange(v, 66, 66 + 2 * n));
    let name = crate::text::text_from_utf16_lossy(words.as_slice());
    if crate::text::same_text(name.as_str(), ".") || crate::text::same_text(name.as_str(), "..") {
        return;
    }
    let ghost before = alias_views(f.names@);
    if ns != 2 && !has_name(&f.names, parent, name.as_str()) {
        let a = Alias { parent, parent_sequence, name: name.clone() };
        let ghost av = a@;
        f.names.push(a);
        assert(alias_views(f.names@) =~= before.push(av));
    }
    let rank: u8 = rank_of(ns);
    let better: bool = match &f.best {
        None => true,
        Some((r, _)) => rank > *r,
    };
    if better {
        f.best = Some(
            (
                rank,
                Entry {
                    parent,
                    parent_sequence,
                    sequence,
                    name,
                    size,
                    mtime: f.mtime,
                    dir: header_dir || (flags / 0x1000_0000) % 2 == 1,
                },
            ),
        );
    }
}

fn add_attribute(f: &mut Facts, rec: &[u8], p: usize, len: usize, sequence: u16, header_dir: bool)
    requires
        16 <= len,
        p + len <= rec@.len(),
    ensures
        final(f)@ == with_attribute(old(f)@, rec@, p as int, len as int, sequence, header_dir),
{
    let total: usize = rec.len();
    let typ: u32 = crate::bytes::le_u32(vstd::slice::slice_subrange(rec, p, p + 4));
    if typ == 0x20 {
        f.listed = true;
    }
    if rec[p + 8] != 0 {
        if typ == 0x80 && rec[p + 9] == 0 && len >= 64 {
            f.data_size = Some(
                crate::bytes::le_u64(vstd::slice::slice_subrange(rec, p + 48, p + 56)),
            );
        }
        return;
    }
    let size: u32 = if total - p >= 20 {
        crate::bytes::le_u32(vstd::slice::slice_subrange(rec, p + 16, p + 20))
    } else {
        0
    };
    let off: u16 = if total - p >= 22 {
        crate::bytes::le_u16(vstd::slice::slice_subrange(rec, p + 20, p + 22))
    } else {
        0
    };
    if off as u64 + size as u64 > len as u64 {
        return;
    }
    let from: usize = p + off as usize;
    let to: usize = from + size as usize;
    let v = vstd::slice::slice_subrange(rec, from, to);
    if typ == 0x80 && rec[p + 9] == 0 {
        f.data_size = Some(size as u64);
    } else if typ == 0x10 && v.len() >= 16 {
        f.mtime = filetime_to_unix(crate::bytes::le_u64(vstd::slice::slice_subrange(v, 8, 16)));
    } else if typ == 0x30 && v.len() >= 66 {
        add_name(f, v, sequence, header_dir);
    }
}

/// The names that are not the record's own.
fn other_names(names: Vec<Alias>, parent: u64, name: &str) -> (out: Vec<Alias>)
    ensures
        alias_views(out@) == alias_views(names@).filter(
            |a: AliasView| a.parent != parent || a.name != name@,
        ),
{
    let ghost all = alias_views(names@);
    let ghost keep = |a: AliasView| a.parent != parent || a.name != name@;
    let mut out: Vec<Alias> = Vec::new();
    proof {
        reveal(Seq::filter);
        assert(all.take(0).filter(keep) =~= alias_views(out@));
    }
    for a in it: names
        invariant
            it.seq().len() == all.len(),
            forall|k: int| 0 <= k < all.len() ==> (#[trigger] it.seq()[k])@ == all[k],
            keep == (|a: AliasView| a.parent != parent || a.name != name@),
            alias_views(out@) == all.take(it.index() as int).filter(keep),
    {
        let ghost k = it.index();
        let ghost before = alias_views(out@);
        let ghost v = a@;
        proof {
            reveal(Seq::filter);
            assert(all.take(k + 1).drop_last() =~= all.take(k));
            assert(all.take(k + 1).last() == v);
        }
        if a.parent != parent || !crate::text::same_text(a.name.as_str(), name) {
            out.push(a);
            assert(alias_views(out@) =~= before.push(v));
        }
    }
    assert(all.take(all.len() as int) =~= all);
    out
}

/// Parses a record whose sectors were repaired.
pub fn parse_record(rec: &[u8], header_dir: bool) -> (r: Result<Option<Parsed>, NtfsError>)
    ensures
        match (r, parsed_record(rec@, header_dir)) {
            (Ok(Some(p)), Ok(Some(v))) => p@ == v,
            (Ok(None), Ok(None)) => true,
            (Err(e), Err(f)) => e == f,
            _ => false,
        },
{
    let total: usize = rec.len();
    if total < 22 {
        return Err(NtfsError::AttributeOffset);
    }
    let mut p: usize = crate::bytes::le_u16(vstd::slice::slice_subrange(rec, 20, 22)) as usize;
    let sequence: u16 = crate::bytes::le_u16(vstd::slice::slice_subrange(rec, 16, 18));
    let ghost first = p as int;
    let mut f = Facts {
        mtime: 0,
        best: None,
        names: Vec::new(),
        listed: false,
        data_size: None,
    };
    assert(f@ =~= no_facts());
    let ghost all = facts_from(no_facts(), rec@, first, sequence, header_dir);
    let mut going: bool = true;
    while going && p <= total && total - p >= 16
        invariant
            total == rec@.len(),
            all == if going {
                facts_from(f@, rec@, p as int, sequence, header_dir)
            } else {
                f@
            },
        decreases total - p, (if going { 1int } else { 0int }),
    {
        let typ: u32 = crate::bytes::le_u32(vstd::slice::slice_subrange(rec, p, p + 4));
        let raw: u32 = crate::bytes::le_u32(vstd::slice::slice_subrange(rec, p + 4, p + 8));
        if typ == 0xffff_ffff || raw < 16 || raw as u64 > (total - p) as u64 {
            going = false;
        } else {
            let len: usize = raw as usize;
            add_attribute(&mut f, rec, p, len, sequence, header_dir);
            p = p + len;
        }
    }
    match f.best {
        None => Ok(None),
        Some((_, e)) => {
            let mut entry = e;
            entry.mtime = f.mtime;
            if let Some(n) = f.data_size {
                entry.size = n;
            }
            let names = other_names(f.names, entry.parent, entry.name.as_str());
            Ok(Some(Parsed { entry, names, listed: f.listed }))
        },
    }
}

// ---------------------------------------------------------------------------
// Gathering records

/// What was gathered from the table so far.
#[verifier::ext_equal]
pub struct MftView {
    pub entries: Map<u64, EntryView>,
    pub aliases: Map<u64, Seq<AliasView>>,
    pub ids: Seq<u64>,
    pub next: u64,
    pub listed: u64,
}

/// What a record in use says, with the reference to the record that it extends.
pub open spec fn usable(buf: Seq<u8>, sector: usize) -> Option<(nat, ParsedView)> {
    let flags = match crate::reader::number(buf, 22, 2) {
        Some(n) => n,
        None => 0,
    };
    if buf.len() < 4 || buf.take(4) != seq![0x46u8, 0x49, 0x4c, 0x45] || flags % 2 == 0 {
        None
    } else {
        match fixed_up(buf, sector) {
            Err(_) => None,
            Ok(rec) => match parsed_record(rec, (flags / 2) % 2 == 1) {
                Ok(Some(p)) => {
                    let base = match crate::reader::number(rec, 32, 8) {
                        Some(n) => n,
                        None => 0,
                    };
                    Some((base, p))
                },
                _ => None,
            },
        }
    }
}

/// More names of a record, those left out that it has already.
pub open spec fn more_names(dest: Seq<AliasView>, new: Seq<AliasView>, base: EntryView) -> Seq<
    AliasView,
>
    decreases new.len(),
{
    if new.len() == 0 {
        dest
    } else {
        let front = more_names(dest, new.drop_last(), base);
        let a = new.last();
        if front.contains(a) || (a.parent == base.parent && a.name == base.name) {
            front
        } else {
            front.push(a)
        }
    }
}

/// What a record adds.
pub open spec fn after_record(g: MftView, buf: Seq<u8>, sector: usize) -> MftView {
    let next = (g.next + 1) as u64;
    match usable(buf, sector) {
        None => MftView { next, ..g },
        Some((base_ref, p)) => {
            let listed = if p.listed {
                crate::rank::capped(g.listed as nat + 1)
            } else {
                g.listed
            };
            if base_ref != 0 {
                let base_id = (base_ref % 0x1_0000_0000_0000) as u64;
                let base_sequence = base_ref / 0x1_0000_0000_0000;
                if g.entries.contains_key(base_id) && (base_sequence == 0
                    || g.entries[base_id].sequence == base_sequence) {
                    let base = g.entries[base_id];
                    let had = if g.aliases.contains_key(base_id) {
                        g.aliases[base_id]
                    } else {
                        Seq::empty()
                    };
                    let own = AliasView {
                        parent: p.entry.parent,
                        parent_sequence: p.entry.parent_sequence,
                        name: p.entry.name,
                    };
                    let size = if p.entry.size > base.size {
                        p.entry.size
                    } else {
                        base.size
                    };
                    MftView {
                        entries: g.entries.insert(base_id, EntryView { size, ..base }),
                        aliases: g.aliases.insert(
                            base_id,
                            more_names(had, p.names.push(own), base),
                        ),
                        next,
                        listed,
                        ..g
                    }
                } else {
                    MftView { next, listed, ..g }
                }
            } else {
                MftView {
                    entries: g.entries.insert(g.next, p.entry),
                    aliases: if p.names.len() == 0 {
                        g.aliases
                    } else {
                        g.aliases.insert(g.next, p.names)
                    },
                    ids: g.ids.push(g.next),
                    next,
                    listed,
                }
            }
        },
    }
}

/// The records of the table that are in use.
pub struct MftLane {
    entries: HashMap<u64, Entry>,
    aliases: HashMap<u64, Vec<Alias>>,
    ids: Vec<u64>,
    next: u64,
    listed: u64,
}

/// Entries as mathematical values.
pub open spec fn entry_map(m: Map<u64, Entry>) -> Map<u64, EntryView> {
    m.map_values(|e: Entry| e@)
}

/// Names as mathematical values.
pub open spec fn alias_map(m: Map<u64, Vec<Alias>>) -> Map<u64, Seq<AliasView>> {
    m.map_values(|v: Vec<Alias>| alias_views(v@))
}

impl View for MftLane {
    type V = MftView;

    closed spec fn view(&self) -> MftView {
        MftView {
            entries: entry_map(self.entries@),
            aliases: alias_map(self.aliases@),
            ids: self.ids@,
            next: self.next,
            listed: self.listed,
        }
    }
}

impl Clone for Alias {
    fn clone(&self) -> (r: Alias)
        ensures
            r@ == self@,
    {
        Alias {
            parent: self.parent,
            parent_sequence: self.parent_sequence,
            name: self.name.clone(),
        }
    }
}

fn has_alias(s: &Vec<Alias>, a: &Alias) -> (r: bool)
    ensures
        r == alias_views(s@).contains(a@),
{
    let ghost views = alias_views(s@);
    let mut i: usize = 0;
    while i < s.len()
        invariant
            i <= s@.len(),
            views == alias_views(s@),
            forall|k: int| 0 <= k < i ==> #[trigger] views[k] != a@,
        decreases s@.len() - i,
    {
        assert(views[i as int] == s@[i as int]@);
        if s[i].parent == a.parent && s[i].parent_sequence == a.parent_sequence
            && crate::text::same_text(s[i].name.as_str(), a.name.as_str()) {
            assert(views[i as int] =~= a@);
            return true;
        }
        i += 1;
    }
    false
}

fn add_names(dest: &mut Vec<Alias>, new: Vec<Alias>, base: &Entry)
    ensures
        alias_views(final(dest)@) == more_names(
            alias_views(old(dest)@),
            alias_views(new@),
            base@,
        ),
{
    let ghost had = alias_views(dest@);
    let ghost all = alias_views(new@);
    assert(all.take(0) =~= Seq::empty());
    for a in it: new
        invariant
            it.seq().len() == all.len(),
            forall|k: int| 0 <= k < all.len() ==> (#[trigger] it.seq()[k])@ == all[k],
            alias_views(dest@) == more_names(had, all.take(it.index() as int), base@),
    {
        let ghost k = it.index();
        let ghost before = alias_views(dest@);
        let ghost v = a@;
        proof {
            assert(all.take(k + 1).drop_last() =~= all.take(k));
            assert(all.take(k + 1).last() == v);
        }
        let own: bool = a.parent == base.parent && crate::text::same_text(
            a.name.as_str(),
            base.name.as_str(),
        );
        if !has_alias(dest, &a) && !own {
            dest.push(a);
            assert(alias_views(dest@) =~= before.push(v));
        }
    }
    assert(all.take(all.len() as int) =~= all);
}

fn read_usable(buf: &mut Vec<u8>, sector: usize) -> (r: Option<(u64, Parsed)>)
    ensures
        match (r, usable(old(buf)@, sector)) {
            (Some((base, p)), Some((b, v))) => base == b && p@ == v,
            (None, None) => true,
            _ => false,
        },
{
    let len: usize = buf.len();
    if len < 4 {
        return None;
    }
    let mark: Vec<u8> = vec![0x46, 0x49, 0x4c, 0x45];
    let front = vstd::slice::slice_subrange(buf.as_slice(), 0, 4);
    proof {
        assert(mark@ =~= seq![0x46u8, 0x49, 0x4c, 0x45]);
        assert(front@ =~= buf@.take(4));
    }
    if !crate::bytes::same_bytes(front, mark.as_slice()) {
        return None;
    }
    let flags: u16 = if len >= 24 {
        crate::bytes::le_u16(vstd::slice::slice_subrange(buf.as_slice(), 22, 24))
    } else {
        0
    };
    if flags % 2 == 0 {
        return None;
    }
    match apply_fixup(buf, sector) {
        Err(_) => {
            return None;
        },
        Ok(_) => {},
    }
    let base: u64 = if len >= 40 {
        crate::bytes::le_u64(vstd::slice::slice_subrange(buf.as_slice(), 32, 40))
    } else {
        0
    };
    match parse_record(buf.as_slice(), (flags / 2) % 2 == 1) {
        Ok(Some(p)) => Some((base, p)),
        _ => None,
    }
}

impl MftLane {
    /// Nothing was gathered yet.
    pub fn new() -> (r: MftLane)
        ensures
            r@ == (MftView {
                entries: Map::empty(),
                aliases: Map::empty(),
                ids: Seq::empty(),
                next: 0,
                listed: 0,
            }),
            r.wf(),
    {
        let r = MftLane {
            entries: HashMap::new(),
            aliases: HashMap::new(),
            ids: Vec::new(),
            next: 0,
            listed: 0,
        };
        proof {
            assert(r@.entries =~= Map::empty());
            assert(r@.aliases =~= Map::empty());
        }
        r
    }

    /// The numbers name the entries, in ascending order.
    pub open spec fn wf(&self) -> bool {
        &&& forall|k: u64| #[trigger] self@.entries.contains_key(k) <==> self@.ids.contains(k)
        &&& crate::order::strictly_ascending(self@.ids)
        &&& forall|i: int| 0 <= i < self@.ids.len() ==> #[trigger] self@.ids[i] < self@.next
    }

    /// Takes in the next record of the table.
    pub fn take(&mut self, buf: &mut Vec<u8>, sector: usize)
        requires
            old(self)@.next < u64::MAX,
            old(self).wf(),
        ensures
            final(self)@ == after_record(old(self)@, old(buf)@, sector),
            final(self).wf(),
    {
        let ghost given = self@;
        let id: u64 = self.next;
        self.next = id + 1;
        let (base_ref, parsed): (u64, Parsed) = match read_usable(buf, sector) {
            None => {
                return;
            },
            Some(x) => x,
        };
        if parsed.listed {
            self.listed = self.listed.saturating_add(1);
        }
        if base_ref != 0 {
            let base_id: u64 = base_ref % 0x1_0000_0000_0000;
            let base_sequence: u16 = (base_ref / 0x1_0000_0000_0000) as u16;
            let fits: bool = match self.entries.get(&base_id) {
                None => false,
                Some(base) => base_sequence == 0 || base.sequence == base_sequence,
            };
            if !fits {
                return;
            }
            if let Some(old_base) = self.entries.remove(&base_id) {
                let mut base = old_base;
                let mut names = parsed.names;
                let ghost before = alias_views(names@);
                let own = Alias {
                    parent: parsed.entry.parent,
                    parent_sequence: parsed.entry.parent_sequence,
                    name: parsed.entry.name,
                };
                let ghost own_view = own@;
                names.push(own);
                assert(alias_views(names@) =~= before.push(own_view));
                let mut dest: Vec<Alias> = match self.aliases.remove(&base_id) {
                    Some(v) => v,
                    None => Vec::new(),
                };
                proof {
                    if !given.aliases.contains_key(base_id) {
                        assert(alias_views(dest@) =~= Seq::empty());
                    }
                }
                add_names(&mut dest, names, &base);
                if parsed.entry.size > base.size {
                    base.size = parsed.entry.size;
                }
                let ghost new_view = base@;
                let ghost new_names = alias_views(dest@);
                self.entries.insert(base_id, base);
                self.aliases.insert(base_id, dest);
                proof {
                    assert(self@.entries =~= given.entries.insert(base_id, new_view));
                    assert(self@.aliases =~= given.aliases.insert(base_id, new_names));
                    assert forall|k: u64| #[trigger]
                        self@.entries.contains_key(k) <==> self@.ids.contains(k) by {
                        assert(given.entries.contains_key(k) <==> given.ids.contains(k));
                    }
                }
            }
            return;
        }
        let ghost entry = parsed.entry@;
        let ghost names = alias_views(parsed.names@);
        if parsed.names.len() > 0 {
            self.aliases.insert(id, parsed.names);
            assert(self@.aliases =~= given.aliases.insert(id, names));
        }
        self.entries.insert(id, parsed.entry);
        self.ids.push(id);
        proof {
            assert(self@.entries =~= given.entries.insert(id, entry));
            assert forall|k: u64| #[trigger] self@.entries.contains_key(k) <==> self@.ids.contains(
                k,
            ) by {
                assert(given.entries.contains_key(k) <==> given.ids.contains(k));
                if self@.ids.contains(k) {
                    let m = self@.ids.index_of(k);
                    if m < given.ids.len() {
                        assert(given.ids[m] == k);
                    }
                }
                if given.ids.contains(k) {
                    let m = given.ids.index_of(k);
                    assert(self@.ids[m] == k);
                }
                assert(self@.ids[given.ids.len() as int] == id);
            }
        }
    }
}

// ---------------------------------------------------------------------------
// Paths and file records

/// The record has the sequence number that a reference expects; zero expects none.
pub open spec fn expected(entries: Map<u64, EntryView>, id: u64, sequence: u16) -> bool {
    sequence == 0 || (entries.contains_key(id) && entries[id].sequence == sequence)
}

/// The link of a directory to its parent; a reference to a reused parent is broken.
pub open spec fn entry_step(entries: Map<u64, EntryView>, id: u64) -> Option<(u64, Seq<char>)> {
    if entries.contains_key(id) && entries[id].dir && expected(
        entries,
        entries[id].parent,
        entries[id].parent_sequence,
    ) {
        Some((entries[id].parent, entries[id].name))
    } else {
        None
    }
}

/// Entries as directories with parents.
pub struct EntryTable<'a> {
    pub entries: &'a HashMap<u64, Entry>,
}

fn is_expected(entries: &HashMap<u64, Entry>, id: u64, sequence: u16) -> (r: bool)
    ensures
        r == expected(entry_map(entries@), id, sequence),
{
    if sequence == 0 {
        return true;
    }
    match entries.get(&id) {
        Some(e) => e.sequence == sequence,
        None => false,
    }
}

impl<'a> DirTable for EntryTable<'a> {
    open spec fn valid(&self) -> bool {
        true
    }

    open spec fn ids(&self) -> Set<u64> {
        self.entries@.dom()
    }

    open spec fn step(&self, id: u64) -> Option<(u64, Seq<char>)> {
        entry_step(entry_map(self.entries@), id)
    }

    proof fn bounded(&self) {
    }

    fn step_of(&self, id: u64) -> (r: Option<(u64, String)>) {
        match self.entries.get(&id) {
            None => None,
            Some(e) => {
                if e.dir && is_expected(self.entries, e.parent, e.parent_sequence) {
                    Some((e.parent, e.name.clone()))
                } else {
                    None
                }
            },
        }
    }
}

/// Finds the path of a directory below the top and keeps it with those on the way.
pub fn ensure_dir_path(
    id: u64,
    expected_sequence: u16,
    entries: &HashMap<u64, Entry>,
    cache: &mut HashMap<u64, String>,
) -> (r: bool)
    requires
        crate::dirtree::sound(&(EntryTable { entries }), ROOT_ID, old(cache)@),
    ensures
        crate::dirtree::sound(&(EntryTable { entries }), ROOT_ID, final(cache)@),
        r == (expected(entry_map(entries@), id, expected_sequence) && crate::dirtree::reaches(
            &(EntryTable { entries }),
            ROOT_ID,
            id,
        )),
        crate::dirtree::looked_up(&(EntryTable { entries }), id, old(cache)@, final(cache)@, r),
{
    if !is_expected(entries, id, expected_sequence) {
        return false;
    }
    let table = EntryTable { entries };
    crate::dirtree::ensure_path(&table, ROOT_ID, id, cache)
}

/// The full path of a name in a directory, if the directory can be reached.
pub open spec fn name_path(
    t: &EntryTable,
    prefix: Seq<char>,
    parent: u64,
    sequence: u16,
    name: Seq<char>,
) -> Option<Seq<char>> {
    if expected(entry_map(t.entries@), parent, sequence) && crate::dirtree::reaches(
        t,
        ROOT_ID,
        parent,
    ) {
        Some(
            prefix.push('/') + crate::dirtree::appended(
                crate::dirtree::path_below(t, ROOT_ID, parent),
                name,
            ),
        )
    } else {
        None
    }
}

/// The file record of an entry at a path.
pub open spec fn entry_record(
    id: u64,
    e: EntryView,
    path: Seq<char>,
    parent: u64,
    dir: bool,
) -> RecordView {
    RecordView {
        path,
        size: e.size,
        mtime: e.mtime,
        mode: 0,
        kind: if dir {
            FileKind::Dir
        } else {
            FileKind::File
        },
        fs: FsView::Ntfs,
        native_id: id,
        native_parent: parent,
        source: 0,
    }
}

/// The file records of entries by their own names. The top directory has none.
pub open spec fn own_records(t: &EntryTable, prefix: Seq<char>, ids: Seq<u64>) -> Seq<RecordView>
    decreases ids.len(),
{
    if ids.len() == 0 {
        Seq::empty()
    } else {
        let front = own_records(t, prefix, ids.drop_last());
        let id = ids.last();
        let e = entry_map(t.entries@)[id];
        if id == ROOT_ID {
            front
        } else {
            match name_path(t, prefix, e.parent, e.parent_sequence, e.name) {
                None => front,
                Some(path) => front.push(entry_record(id, e, path, e.parent, e.dir)),
            }
        }
    }
}

/// The file records of one entry by its other names.
pub open spec fn names_records(
    t: &EntryTable,
    prefix: Seq<char>,
    id: u64,
    names: Seq<AliasView>,
) -> Seq<RecordView>
    decreases names.len(),
{
    if names.len() == 0 {
        Seq::empty()
    } else {
        let front = names_records(t, prefix, id, names.drop_last());
        let a = names.last();
        match name_path(t, prefix, a.parent, a.parent_sequence, a.name) {
            None => front,
            Some(path) => front.push(
                entry_record(id, entry_map(t.entries@)[id], path, a.parent, false),
            ),
        }
    }
}

/// The file records of entries by their other names. Directories have only one.
pub open spec fn other_records(
    t: &EntryTable,
    prefix: Seq<char>,
    ids: Seq<u64>,
    aliases: Map<u64, Seq<AliasView>>,
) -> Seq<RecordView>
    decreases ids.len(),
{
    if ids.len() == 0 {
        Seq::empty()
    } else {
        let front = other_records(t, prefix, ids.drop_last(), aliases);
        let id = ids.last();
        if aliases.contains_key(id) && !entry_map(t.entries@)[id].dir {
            front + names_records(t, prefix, id, aliases[id])
        } else {
            front
        }
    }
}

fn full_path(
    entries: &HashMap<u64, Entry>,
    cache: &mut HashMap<u64, String>,
    prefix: &str,
    parent: u64,
    sequence: u16,
    name: &str,
) -> (r: Option<String>)
    requires
        crate::dirtree::sound(&(EntryTable { entries }), ROOT_ID, old(cache)@),
    ensures
        crate::dirtree::sound(&(EntryTable { entries }), ROOT_ID, final(cache)@),
        match r {
            Some(p) => name_path(
                &(EntryTable { entries }),
                prefix@,
                parent,
                sequence,
                name@,
            ) == Some(p@),
            None => name_path(
                &(EntryTable { entries }),
                prefix@,
                parent,
                sequence,
                name@,
            ) is None,
        },
{
    let ghost table = EntryTable { entries };
    if !ensure_dir_path(parent, sequence, entries, cache) {
        return None;
    }
    match cache.get(&parent) {
        None => None,
        Some(above) => {
            let relative = crate::dirtree::append_component(above.as_str(), name);
            let full = crate::text::joined3(prefix, "/", relative.as_str());
            proof {
                crate::dirtree::lemma_path_below(&table, ROOT_ID, parent, above@);
                reveal_strlit("/");
                assert(full@ =~= prefix@.push('/') + relative@);
            }
            Some(full)
        },
    }
}

fn make_record(id: u64, e: &Entry, path: String, parent: u64, dir: bool) -> (r: FileRecord)
    ensures
        r@ == entry_record(id, e@, path@, parent, dir),
{
    FileRecord {
        path,
        size: e.size,
        mtime: e.mtime,
        mode: 0,
        kind: if dir {
            FileKind::Dir
        } else {
            FileKind::File
        },
        fs: FsKind::Ntfs,
        native_id: id,
        native_parent: parent,
        source: 0,
    }
}

impl MftLane {
    /// The table of the entries.
    pub closed spec fn table(&self) -> EntryTable<'_> {
        EntryTable { entries: &self.entries }
    }

    fn push_own(&self, prefix: &str, cache: &mut HashMap<u64, String>, out: &mut Vec<FileRecord>)
        requires
            self.wf(),
            crate::dirtree::sound(&self.table(), ROOT_ID, old(cache)@),
        ensures
            crate::dirtree::sound(&self.table(), ROOT_ID, final(cache)@),
            crate::types::record_views(final(out)@) == crate::types::record_views(old(out)@)
                + own_records(&self.table(), prefix@, self@.ids),
    {
        let ghost t = self.table();
        let ghost ids = self@.ids;
        let ghost had = crate::types::record_views(out@);
        let mut i: usize = 0;
        proof {
            assert(ids.take(0) =~= Seq::empty());
            assert(had + own_records(&t, prefix@, ids.take(0)) =~= had);
        }
        while i < self.ids.len()
            invariant
                i <= self.ids@.len(),
                self.wf(),
                t == self.table(),
                ids == self.ids@,
                crate::dirtree::sound(&t, ROOT_ID, cache@),
                crate::types::record_views(out@) == had + own_records(
                    &t,
                    prefix@,
                    ids.take(i as int),
                ),
            decreases self.ids@.len() - i,
        {
            let id: u64 = self.ids[i];
            let ghost before = crate::types::record_views(out@);
            proof {
                assert(ids.take(i + 1).drop_last() =~= ids.take(i as int));
                assert(ids.take(i + 1).last() == id);
                assert(self@.ids.contains(self@.ids[i as int]));
                assert(self@.entries.contains_key(id));
            }
            if id != ROOT_ID {
                if let Some(e) = self.entries.get(&id) {
                    let path = full_path(
                        &self.entries,
                        cache,
                        prefix,
                        e.parent,
                        e.parent_sequence,
                        e.name.as_str(),
                    );
                    if let Some(path) = path {
                        let rec = make_record(id, e, path, e.parent, e.dir);
                        let ghost v = rec@;
                        out.push(rec);
                        proof {
                            assert(crate::types::record_views(out@) =~= before.push(v));
                            assert(had + own_records(&t, prefix@, ids.take(i + 1)) =~= (had
                                + own_records(&t, prefix@, ids.take(i as int))).push(v));
                        }
                    }
                }
            }
            i += 1;
        }
        assert(ids.take(i as int) =~= ids);
    }

    fn push_names(
        &self,
        id: u64,
        names: &Vec<Alias>,
        prefix: &str,
        cache: &mut HashMap<u64, String>,
        out: &mut Vec<FileRecord>,
    )
        requires
            self@.entries.contains_key(id),
            crate::dirtree::sound(&self.table(), ROOT_ID, old(cache)@),
        ensures
            crate::dirtree::sound(&self.table(), ROOT_ID, final(cache)@),
            crate::types::record_views(final(out)@) == crate::types::record_views(old(out)@)
                + names_records(&self.table(), prefix@, id, alias_views(names@)),
    {
        let ghost t = self.table();
        let ghost all = alias_views(names@);
        let ghost had = crate::types::record_views(out@);
        let mut i: usize = 0;
        proof {
            assert(all.take(0) =~= Seq::empty());
            assert(had + names_records(&t, prefix@, id, all.take(0)) =~= had);
        }
        while i < names.len()
            invariant
                i <= names@.len(),
                t == self.table(),
                all == alias_views(names@),
                self@.entries.contains_key(id),
                crate::dirtree::sound(&t, ROOT_ID, cache@),
                crate::types::record_views(out@) == had + names_records(
                    &t,
                    prefix@,
                    id,
                    all.take(i as int),
                ),
            decreases names@.len() - i,
        {
            let a = &names[i];
            let ghost before = crate::types::record_views(out@);
            proof {
                assert(all.take(i + 1).drop_last() =~= all.take(i as int));
                assert(all.take(i + 1).last() == a@);
            }
            let path = full_path(
                &self.entries,
                cache,
                prefix,
                a.parent,
                a.parent_sequence,
                a.name.as_str(),
            );
            if let Some(path) = path {
                if let Some(e) = self.entries.get(&id) {
                    let rec = make_record(id, e, path, a.parent, false);
                    let ghost v = rec@;
                    out.push(rec);
                    proof {
                        assert(crate::types::record_views(out@) =~= before.push(v));
                        assert(had + names_records(&t, prefix@, id, all.take(i + 1)) =~= (had
                            + names_records(&t, prefix@, id, all.take(i as int))).push(v));
                    }
                }
            }
            i += 1;
        }
        assert(all.take(i as int) =~= all);
    }

    /// Turns the gathered entries into file records below a prefix: first by their own
    /// names, then by their other names. The watch runs since the scan began.
    pub fn scan(&self, prefix: &str, records: u64, runs: u64, watch: &Stopwatch) -> (r: (
        Vec<FileRecord>,
        ScanStats,
    ))
        requires
            self.wf(),
        ensures
            crate::types::record_views(r.0@) == own_records(
                &self.table(),
                crate::text::trim_end(prefix@, Separator::Char('/')),
                self@.ids,
            ) + other_records(
                &self.table(),
                crate::text::trim_end(prefix@, Separator::Char('/')),
                self@.ids,
                self@.aliases,
            ),
            entry_map(self.table().entries@) == self@.entries,
            r.1.records == r.0@.len(),
            r.1.dirs == crate::ext4::dirs_among(crate::types::record_views(r.0@)),
            r.1.files == r.0@.len() - r.1.dirs,
            r.1.bytes_read == 0,
            r.1.detail@ == "$MFT records="@ + crate::text::decimal(records as nat) + ", runs="@
                + crate::text::decimal(runs as nat) + ", attr-list records="@
                + crate::text::decimal(self@.listed as nat),
    {
        let ghost t = self.table();
        let ghost ids = self@.ids;
        let chars = crate::text::chars_of(prefix);
        let keep: usize = crate::text::end_run(chars.as_slice(), Separator::Char('/'));
        let cut = crate::text::part(chars.as_slice(), 0, keep);
        assert(cut@ =~= chars@.take(keep as int));
        let base = crate::text::string_of(cut.as_slice());
        let mut cache: HashMap<u64, String> = HashMap::new();
        cache.insert(ROOT_ID, String::new());
        proof {
            assert(crate::dirtree::climb(&t, ROOT_ID, ROOT_ID, 0) == Some(Seq::<char>::empty()));
            assert(cache@[ROOT_ID]@ =~= Seq::empty());
        }
        let mut out: Vec<FileRecord> = Vec::new();
        assert(crate::types::record_views(out@) =~= Seq::empty());
        self.push_own(base.as_str(), &mut cache, &mut out);
        let ghost own = own_records(&t, base@, ids);
        let mut i: usize = 0;
        proof {
            assert(Seq::<RecordView>::empty() + own =~= own);
            assert(ids.take(0) =~= Seq::empty());
            assert(own + other_records(&t, base@, ids.take(0), self@.aliases) =~= own);
        }
        while i < self.ids.len()
            invariant
                i <= self.ids@.len(),
                self.wf(),
                t == self.table(),
                ids == self.ids@,
                crate::dirtree::sound(&t, ROOT_ID, cache@),
                crate::types::record_views(out@) == own + other_records(
                    &t,
                    base@,
                    ids.take(i as int),
                    self@.aliases,
                ),
            decreases self.ids@.len() - i,
        {
            let id: u64 = self.ids[i];
            proof {
                assert(ids.take(i + 1).drop_last() =~= ids.take(i as int));
                assert(ids.take(i + 1).last() == id);
                assert(self@.ids.contains(self@.ids[i as int]));
                assert(self@.entries.contains_key(id));
            }
            let is_dir: bool = match self.entries.get(&id) {
                Some(e) => e.dir,
                None => true,
            };
            if let Some(names) = self.aliases.get(&id) {
                if !is_dir {
                    self.push_names(id, names, base.as_str(), &mut cache, &mut out);
                    proof {
                        let more = names_records(&t, base@, id, self@.aliases[id]);
                        let front = other_records(&t, base@, ids.take(i as int), self@.aliases);
                        assert(own + front + more =~= own + (front + more));
                    }
                }
            }
            i += 1;
        }
        assert(ids.take(i as int) =~= ids);
        let count: u64 = out.len() as u64;
        let dirs: u64 = crate::ext4::count_dirs(&out);
        let a = crate::text::decimal_text(records);
        let b = crate::text::decimal_text(runs);
        let c = crate::text::decimal_text(self.listed);
        let head = crate::text::joined3("$MFT records=", a.as_str(), ", runs=");
        let body = crate::text::joined3(head.as_str(), b.as_str(), ", attr-list records=");
        let detail = crate::text::joined(body.as_str(), c.as_str());
        let stats = ScanStats {
            records: count,
            dirs,
            files: count - dirs,
            bytes_read: 0,
            wall_ms: watch.millis(),
            detail,
        };
        (out, stats)
    }
}

} // verus!
