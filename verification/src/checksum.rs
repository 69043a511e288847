//! Checksums of byte strings.

use vstd::prelude::*;

verus! {

/// One bit of a CRC-32 (IEEE): the lowest goes out, and takes the polynomial along.
pub open spec fn crc_bit(c: u32) -> u32 {
    if c & 1 == 1 {
        (c >> 1) ^ 0xedb8_8320
    } else {
        c >> 1
    }
}

/// Several bits.
pub open spec fn crc_bits(c: u32, n: nat) -> u32
    decreases n,
{
    if n == 0 {
        c
    } else {
        crc_bit(crc_bits(c, (n - 1) as nat))
    }
}

/// The remainder after some bytes.
pub open spec fn crc_remainder(data: Seq<u8>) -> u32
    decreases data.len(),
{
    if data.len() == 0 {
        0xffff_ffff
    } else {
        crc_bits(crc_remainder(data.drop_last()) ^ (data.last() as u32), 8)
    }
}

/// The CRC-32 (IEEE) of some bytes.
#[verifier::opaque]
pub open spec fn crc32_of(data: Seq<u8>) -> u32 {
    crc_remainder(data) ^ 0xffff_ffff
}

/// Calls `crc32fast::hash`, which is the CRC-32 (IEEE) of the bytes: reflected, with the
/// polynomial 0xedb88320, and inverted before and after.
#[verifier::external_body]
pub(crate) fn crc32(data: &[u8]) -> (r: u32)
    ensures
        r == crc32_of(data@),
{
    crc32fast::hash(data)
}

/// Different remainders stay different.
proof fn lemma_bits_differ(a: u32, b: u32, n: nat)
    requires
        a != b,
    ensures
        crc_bits(a, n) != crc_bits(b, n),
    decreases n,
{
    if n > 0 {
        lemma_bits_differ(a, b, (n - 1) as nat);
        let x = crc_bits(a, (n - 1) as nat);
        let y = crc_bits(b, (n - 1) as nat);
        assert(crc_bit(x) == crc_bit(y) ==> x == y) by (bit_vector);
    }
}

/// One byte more keeps different remainders apart, and so do different bytes.
proof fn lemma_byte_differs(c: u32, d: u32, x: u8, y: u8)
    requires
        c != d && x == y || c == d && x != y,
    ensures
        crc_bits(c ^ (x as u32), 8) != crc_bits(d ^ (y as u32), 8),
{
    assert((c != d && x == y || c == d && x != y) ==> c ^ (x as u32) != d ^ (y as u32))
        by (bit_vector);
    lemma_bits_differ(c ^ (x as u32), d ^ (y as u32), 8);
}

proof fn lemma_remainder_differs(a: Seq<u8>, b: Seq<u8>, i: int)
    requires
        0 <= i < a.len(),
        a.len() == b.len(),
        a[i] != b[i],
        forall|k: int| 0 <= k < a.len() && k != i ==> a[k] == b[k],
    ensures
        crc_remainder(a) != crc_remainder(b),
    decreases a.len(),
{
    let (fa, fb) = (a.drop_last(), b.drop_last());
    if i == a.len() - 1 {
        assert(fa =~= fb);
    } else {
        lemma_remainder_differs(fa, fb, i);
    }
    lemma_byte_differs(crc_remainder(fa), crc_remainder(fb), a.last(), b.last());
}

/// One changed byte, and so one flipped bit, changes the CRC-32.
pub proof fn law_one_changed_byte_changes_the_crc(a: Seq<u8>, b: Seq<u8>, i: int)
    requires
        0 <= i < a.len(),
        a.len() == b.len(),
        a[i] != b[i],
        forall|k: int| 0 <= k < a.len() && k != i ==> a[k] == b[k],
    ensures
        crc32_of(a) != crc32_of(b),
{
    reveal(crc32_of);
    lemma_remainder_differs(a, b, i);
    let (x, y) = (crc_remainder(a), crc_remainder(b));
    assert(x != y ==> x ^ 0xffff_ffff != y ^ 0xffff_ffff) by (bit_vector);
}

/// The SHA-256 of some bytes in hexadecimal, as the `sha2` crate computes it.
pub uninterp spec fn sha256_of(data: Seq<u8>) -> Seq<char>;

/// Calls `sha2::Sha256::digest` and writes the digest with `{:x}`. The result depends on the
/// bytes alone; which text it is, is only named.
#[verifier::external_body]
pub(crate) fn sha256(data: &[u8]) -> (r: String)
    ensures
        r@ == sha256_of(data@),
{
    format!("{:x}", <sha2::Sha256 as sha2::Digest>::digest(data))
}

} // verus!
