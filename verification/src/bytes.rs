//! Little-endian integers inside byte sequences, and bounds-checked sections.

use vstd::prelude::*;

verus! {

/// The number that `s` spells, least significant byte first.
pub open spec fn le_value(s: Seq<u8>) -> nat
    decreases s.len(),
{
    if s.len() == 0 {
        0
    } else {
        s[0] as nat + 256 * le_value(s.drop_first())
    }
}

/// The `width` low-order bytes of `n`, least significant first.
pub open spec fn le_bytes(n: nat, width: nat) -> Seq<u8>
    decreases width,
{
    if width == 0 {
        Seq::empty()
    } else {
        seq![(n % 256) as u8] + le_bytes(n / 256, (width - 1) as nat)
    }
}

/// 256 to the power of `width`: how many numbers `width` bytes can spell.
pub open spec fn byte_span(width: nat) -> nat
    decreases width,
{
    if width == 0 {
        1
    } else {
        256 * byte_span((width - 1) as nat)
    }
}

/// `le_bytes` has the width that was asked for.
pub proof fn lemma_le_bytes_len(n: nat, width: nat)
    ensures
        le_bytes(n, width).len() == width,
    decreases width,
{
    if width > 0 {
        lemma_le_bytes_len(n / 256, (width - 1) as nat);
    }
}

/// A number that fits in `width` bytes is read back from the bytes that spell it.
pub proof fn law_le_read_back(n: nat, width: nat)
    requires
        n < byte_span(width),
    ensures
        le_value(le_bytes(n, width)) == n,
    decreases width,
{
    if width > 0 {
        let rest = le_bytes(n / 256, (width - 1) as nat);
        law_le_read_back(n / 256, (width - 1) as nat);
        assert(le_bytes(n, width).drop_first() =~= rest);
    }
}

/// Bytes are spelled again by the number that they hold.
pub proof fn law_le_spell_back(s: Seq<u8>)
    ensures
        le_value(s) < byte_span(s.len()),
        le_bytes(le_value(s), s.len()) == s,
    decreases s.len(),
{
    if s.len() > 0 {
        let rest = s.drop_first();
        law_le_spell_back(rest);
        let n = le_value(s);
        assert(n % 256 == s[0] as nat && n / 256 == le_value(rest));
        assert(le_bytes(n, s.len()) =~= s);
    } else {
        assert(le_bytes(0, 0) =~= s);
    }
}

/// The spans of the four integer widths in use.
pub proof fn lemma_byte_spans()
    ensures
        byte_span(1) == 0x100,
        byte_span(2) == 0x1_0000,
        byte_span(4) == 0x1_0000_0000,
        byte_span(8) == 0x1_0000_0000_0000_0000,
{
    reveal_with_fuel(byte_span, 9);
}

/// Why a section of an index file could not be read.
#[derive(Debug, Clone, Copy, PartialEq, Eq, Structural)]
pub enum SectionError {
    /// The end of the section is not a machine address.
    OffsetOverflow,
    /// The section reaches past the end of the data.
    OutOfBounds,
}

impl SectionError {
    /// How the error is reported.
    pub open spec fn text(self) -> Seq<char> {
        match self {
            SectionError::OffsetOverflow => "index offset overflow"@,
            SectionError::OutOfBounds => "index section out of bounds"@,
        }
    }

    /// How the error is reported.
    pub fn message(self) -> (r: String)
        ensures
            r@ == self.text(),
    {
        match self {
            SectionError::OffsetOverflow => "index offset overflow".to_owned(),
            SectionError::OutOfBounds => "index section out of bounds".to_owned(),
        }
    }
}

/// The outcome of reading `len` bytes at `offset`.
pub open spec fn section_of(data: Seq<u8>, offset: usize, len: usize) -> Result<
    Seq<u8>,
    SectionError,
> {
    if offset + len > usize::MAX {
        Err(SectionError::OffsetOverflow)
    } else if offset + len > data.len() {
        Err(SectionError::OutOfBounds)
    } else {
        Ok(data.subrange(offset as int, offset + len))
    }
}

/// The number spelled by `len` bytes at `offset`.
pub open spec fn number_at(data: Seq<u8>, offset: usize, len: usize) -> Result<nat, SectionError> {
    match section_of(data, offset, len) {
        Ok(s) => Ok(le_value(s)),
        Err(e) => Err(e),
    }
}

/// `len` bytes of `data` from `offset` on.
pub fn checked(data: &[u8], offset: usize, len: usize) -> (r: Result<&[u8], SectionError>)
    ensures
        match r {
            Ok(s) => section_of(data@, offset, len) == Ok::<Seq<u8>, SectionError>(s@),
            Err(e) => section_of(data@, offset, len) == Err::<Seq<u8>, SectionError>(e),
        },
{
    match offset.checked_add(len) {
        None => Err(SectionError::OffsetOverflow),
        Some(end) => {
            if end > data.len() {
                Err(SectionError::OutOfBounds)
            } else {
                Ok(vstd::slice::slice_subrange(data, offset, end))
            }
        },
    }
}

/// The number that two bytes spell.
pub fn le_u16(b: &[u8]) -> (n: u16)
    requires
        b@.len() == 2,
    ensures
        n == le_value(b@),
{
    proof {
        reveal_with_fuel(le_value, 3);
        assert(b@.drop_first()[0] == b@[1]);
    }
    b[0] as u16 + 256 * b[1] as u16
}

/// The number that four bytes spell.
pub fn le_u32(b: &[u8]) -> (n: u32)
    requires
        b@.len() == 4,
    ensures
        n == le_value(b@),
{
    proof {
        reveal_with_fuel(le_value, 5);
        let s1 = b@.drop_first();
        let s2 = s1.drop_first();
        let s3 = s2.drop_first();
        assert(s1[0] == b@[1] && s2[0] == b@[2] && s3[0] == b@[3]);
    }
    b[0] as u32 + 256 * b[1] as u32 + 0x1_0000 * b[2] as u32 + 0x100_0000 * b[3] as u32
}

/// A longer number is its low part plus the span of that part times the high part.
pub proof fn lemma_le_value_split(s: Seq<u8>, mid: int)
    requires
        0 <= mid <= s.len(),
    ensures
        le_value(s) == le_value(s.take(mid)) + byte_span(mid as nat) * le_value(s.skip(mid)),
    decreases s.len(),
{
    if mid == 0 {
        assert(s.skip(0) =~= s);
        assert(s.take(0).len() == 0);
        assert(byte_span(0) == 1);
        assert(1 * le_value(s) == le_value(s)) by (nonlinear_arith);
    } else {
        let rest = s.drop_first();
        lemma_le_value_split(rest, mid - 1);
        assert(rest.take(mid - 1) =~= s.take(mid).drop_first());
        assert(rest.skip(mid - 1) =~= s.skip(mid));
        let low = le_value(rest.take(mid - 1));
        let span = byte_span((mid - 1) as nat);
        let high = le_value(s.skip(mid));
        assert(s.take(mid)[0] == s[0]);
        assert(byte_span(mid as nat) == 256 * span);
        assert(256 * (low + span * high) == 256 * low + (256 * span) * high) by (nonlinear_arith);
    }
}

/// The number that eight bytes spell.
pub fn le_u64(b: &[u8]) -> (n: u64)
    requires
        b@.len() == 8,
    ensures
        n == le_value(b@),
{
    let low: u32 = le_u32(vstd::slice::slice_subrange(b, 0, 4));
    let high: u32 = le_u32(vstd::slice::slice_subrange(b, 4, 8));
    let n: u64 = low as u64 + 0x1_0000_0000 * (high as u64);
    proof {
        lemma_le_value_split(b@, 4);
        lemma_byte_spans();
        assert(b@.take(4) =~= b@.subrange(0, 4));
        assert(b@.skip(4) =~= b@.subrange(4, 8));
    }
    n
}

/// The two-byte number at `p`.
pub fn u16_at(b: &[u8], p: usize) -> (r: Result<u16, SectionError>)
    ensures
        match r {
            Ok(n) => number_at(b@, p, 2) == Ok::<nat, SectionError>(n as nat),
            Err(e) => number_at(b@, p, 2) == Err::<nat, SectionError>(e),
        },
{
    match checked(b, p, 2) {
        Ok(s) => Ok(le_u16(s)),
        Err(e) => Err(e),
    }
}

/// The four-byte number at `p`.
pub fn u32_at(b: &[u8], p: usize) -> (r: Result<u32, SectionError>)
    ensures
        match r {
            Ok(n) => number_at(b@, p, 4) == Ok::<nat, SectionError>(n as nat),
            Err(e) => number_at(b@, p, 4) == Err::<nat, SectionError>(e),
        },
{
    match checked(b, p, 4) {
        Ok(s) => Ok(le_u32(s)),
        Err(e) => Err(e),
    }
}

/// The eight-byte number at `p`.
pub fn u64_at(b: &[u8], p: usize) -> (r: Result<u64, SectionError>)
    ensures
        match r {
            Ok(n) => number_at(b@, p, 8) == Ok::<nat, SectionError>(n as nat),
            Err(e) => number_at(b@, p, 8) == Err::<nat, SectionError>(e),
        },
{
    match checked(b, p, 8) {
        Ok(s) => Ok(le_u64(s)),
        Err(e) => Err(e),
    }
}

/// Appends a two-byte number.
pub fn write_u16(out: &mut Vec<u8>, n: u16)
    ensures
        final(out)@ == old(out)@ + le_bytes(n as nat, 2),
{
    proof {
        reveal_with_fuel(le_bytes, 3);
    }
    out.push((n % 256) as u8);
    out.push((n / 256) as u8);
    assert(out@ =~= old(out)@ + le_bytes(n as nat, 2));
}

/// Appends a four-byte number.
pub fn write_u32(out: &mut Vec<u8>, n: u32)
    ensures
        final(out)@ == old(out)@ + le_bytes(n as nat, 4),
{
    proof {
        reveal_with_fuel(le_bytes, 5);
    }
    out.push((n % 256) as u8);
    out.push((n / 256 % 256) as u8);
    out.push((n / 256 / 256 % 256) as u8);
    out.push((n / 256 / 256 / 256) as u8);
    assert(out@ =~= old(out)@ + le_bytes(n as nat, 4));
}

/// The first four of eight bytes spell the remainder, the others the quotient.
pub proof fn lemma_le_bytes_split(n: nat, low: nat, high: nat)
    ensures
        le_bytes(n, low + high) == le_bytes(n, low) + le_bytes(n / byte_span(low), high),
    decreases low,
{
    if low == 0 {
        assert(n / 1 == n);
        assert(le_bytes(n, high) =~= le_bytes(n, 0) + le_bytes(n, high));
    } else {
        let span = byte_span((low - 1) as nat);
        lemma_le_bytes_split(n / 256, (low - 1) as nat, high);
        assert(span > 0) by {
            lemma_byte_span_positive((low - 1) as nat);
        }
        vstd::arithmetic::div_mod::lemma_div_denominator(n as int, 256, span as int);
        assert(low + high - 1 == (low - 1) as nat + high);
        assert(le_bytes(n, low + high) =~= le_bytes(n, low) + le_bytes(n / byte_span(low), high));
    }
}

/// A span is never empty.
pub proof fn lemma_byte_span_positive(width: nat)
    ensures
        byte_span(width) > 0,
    decreases width,
{
    if width > 0 {
        lemma_byte_span_positive((width - 1) as nat);
    }
}

/// Appends an eight-byte number.
pub fn write_u64(out: &mut Vec<u8>, n: u64)
    ensures
        final(out)@ == old(out)@ + le_bytes(n as nat, 8),
{
    let low: u32 = (n % 0x1_0000_0000) as u32;
    let high: u32 = (n / 0x1_0000_0000) as u32;
    write_u32(out, low);
    write_u32(out, high);
    proof {
        lemma_byte_spans();
        lemma_le_bytes_split(n as nat, 4, 4);
        lemma_le_bytes_low(n as nat, 4);
        assert(out@ =~= old(out)@ + le_bytes(n as nat, 8));
    }
}

/// The low bytes of a number are those of its remainder.
pub proof fn lemma_le_bytes_low(n: nat, width: nat)
    ensures
        le_bytes(n % byte_span(width), width) == le_bytes(n, width),
    decreases width,
{
    lemma_byte_span_positive(width);
    if width > 0 {
        let span = byte_span((width - 1) as nat);
        lemma_byte_span_positive((width - 1) as nat);
        lemma_le_bytes_low(n / 256, (width - 1) as nat);
        let m = n % byte_span(width);
        vstd::arithmetic::div_mod::lemma_mod_breakdown(n as int, 256, span as int);
        assert(m == 256 * ((n / 256) % span) + n % 256);
        assert(m % 256 == n % 256 && m / 256 == (n / 256) % span);
    }
}

/// Appends a slice of bytes.
pub fn write_all(out: &mut Vec<u8>, data: &[u8])
    ensures
        final(out)@ == old(out)@ + data@,
{
    let mut i: usize = 0;
    while i < data.len()
        invariant
            i <= data@.len(),
            out@ == old(out)@ + data@.take(i as int),
        decreases data@.len() - i,
    {
        out.push(data[i]);
        i += 1;
        assert(data@.take(i as int) =~= data@.take(i - 1).push(data@[i - 1]));
    }
    assert(data@.take(i as int) =~= data@);
}

/// A copy of a slice of bytes.
pub fn to_vec(data: &[u8]) -> (r: Vec<u8>)
    ensures
        r@ == data@,
{
    let mut out: Vec<u8> = Vec::new();
    write_all(&mut out, data);
    assert(out@ =~= data@);
    out
}

/// Whether two byte slices hold the same bytes.
pub fn same_bytes(a: &[u8], b: &[u8]) -> (r: bool)
    ensures
        r == (a@ == b@),
{
    if a.len() != b.len() {
        return false;
    }
    let mut i: usize = 0;
    while i < a.len()
        invariant
            i <= a@.len(),
            a@.len() == b@.len(),
            forall|k: int| 0 <= k < i ==> a@[k] == b@[k],
        decreases a@.len() - i,
    {
        if a[i] != b[i] {
            return false;
        }
        i += 1;
    }
    assert(a@ =~= b@);
    true
}

} // verus!
