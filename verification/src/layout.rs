//! Numbers in a layout of bytes, written out byte by byte: the low byte comes first.

use vstd::prelude::*;

verus! {

/// Two bytes at a position.
#[verifier::opaque]
pub open spec fn two(b: Seq<u8>, at: int) -> nat {
    (b[at] + 0x100 * b[at + 1]) as nat
}

/// Four bytes at a position.
#[verifier::opaque]
pub open spec fn four(b: Seq<u8>, at: int) -> nat {
    (b[at] + 0x100 * b[at + 1] + 0x1_0000 * b[at + 2] + 0x100_0000 * b[at + 3]) as nat
}

/// Eight bytes at a position.
#[verifier::opaque]
pub open spec fn eight(b: Seq<u8>, at: int) -> nat {
    four(b, at) + 0x1_0000_0000 * four(b, at + 4)
}

/// The numbers are read as they are laid out.
pub proof fn law_numbers_are_read_as_laid_out(b: Seq<u8>, at: int)
    requires
        0 <= at,
    ensures
        at + 2 <= b.len() ==> crate::bytes::le_value(b.subrange(at, at + 2)) == two(b, at),
        at + 4 <= b.len() ==> crate::bytes::le_value(b.subrange(at, at + 4)) == four(b, at),
        at + 8 <= b.len() ==> crate::bytes::le_value(b.subrange(at, at + 8)) == eight(b, at),
        at + 2 <= b.len() ==> two(b, at) < 0x1_0000,
        at + 4 <= b.len() ==> four(b, at) < 0x1_0000_0000,
        at + 8 <= b.len() ==> eight(b, at) < 0x1_0000_0000_0000_0000,
        crate::reader::number(b, at, 2) == (if at + 2 <= b.len() {
            Some(two(b, at))
        } else {
            None
        }),
        crate::reader::number(b, at, 4) == (if at + 4 <= b.len() {
            Some(four(b, at))
        } else {
            None
        }),
        crate::reader::number(b, at, 8) == (if at + 8 <= b.len() {
            Some(eight(b, at))
        } else {
            None
        }),
{
    reveal(two);
    reveal(four);
    reveal(eight);
    if at + 2 <= b.len() {
        lemma_two(b.subrange(at, at + 2));
    }
    if at + 4 <= b.len() {
        lemma_four(b.subrange(at, at + 4));
    }
    if at + 8 <= b.len() {
        lemma_eight(b.subrange(at, at + 8));
    }
}

proof fn lemma_two(s: Seq<u8>)
    requires
        s.len() == 2,
    ensures
        crate::bytes::le_value(s) == s[0] + 0x100 * s[1],
{
    reveal_with_fuel(crate::bytes::le_value, 3);
    let t = s.drop_first();
    assert(t[0] == s[1]);
    assert(t.drop_first().len() == 0);
}

proof fn lemma_four(s: Seq<u8>)
    requires
        s.len() == 4,
    ensures
        crate::bytes::le_value(s) == s[0] + 0x100 * s[1] + 0x1_0000 * s[2] + 0x100_0000 * s[3],
{
    let t = s.drop_first();
    let u = t.drop_first();
    assert(t[0] == s[1] && u[0] == s[2] && u[1] == s[3]);
    lemma_two(u);
    reveal_with_fuel(crate::bytes::le_value, 3);
}

proof fn lemma_eight(s: Seq<u8>)
    requires
        s.len() == 8,
    ensures
        crate::bytes::le_value(s) == (s[0] + 0x100 * s[1] + 0x1_0000 * s[2] + 0x100_0000 * s[3])
            + 0x1_0000_0000 * (s[4] + 0x100 * s[5] + 0x1_0000 * s[6] + 0x100_0000 * s[7]),
{
    let a = s.drop_first();
    let b = a.drop_first();
    let c = b.drop_first();
    let d = c.drop_first();
    assert(a[0] == s[1] && b[0] == s[2] && c[0] == s[3]);
    assert(d[0] == s[4] && d[1] == s[5] && d[2] == s[6] && d[3] == s[7]);
    lemma_four(d);
    assert(crate::bytes::le_value(c) == s[3] + 256 * crate::bytes::le_value(d));
    assert(crate::bytes::le_value(b) == s[2] + 256 * crate::bytes::le_value(c));
    assert(crate::bytes::le_value(a) == s[1] + 256 * crate::bytes::le_value(b));
    assert(crate::bytes::le_value(s) == s[0] + 256 * crate::bytes::le_value(a));
}

} // verus!
