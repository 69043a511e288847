//! Variable-length numbers, and lists of ascending numbers as differences.

use vstd::prelude::*;

verus! {

/// Seven bits per byte, low bits first; a set high bit says that more follow.
pub open spec fn varint_bytes(n: nat) -> Seq<u8>
    decreases n,
{
    if n < 128 {
        seq![n as u8]
    } else {
        seq![(n % 128 + 128) as u8] + varint_bytes(n / 128)
    }
}

/// How many bytes the number at the start of `s` takes, if it ends.
pub open spec fn varint_len(s: Seq<u8>) -> Option<nat>
    decreases s.len(),
{
    if s.len() == 0 {
        None
    } else if s[0] < 128 {
        Some(1)
    } else {
        match varint_len(s.drop_first()) {
            Some(n) => Some(n + 1),
            None => None,
        }
    }
}

/// The number at the start of `s`.
pub open spec fn varint_value(s: Seq<u8>) -> nat
    decreases s.len(),
{
    if s.len() == 0 {
        0
    } else if s[0] < 128 {
        s[0] as nat
    } else {
        (s[0] - 128) as nat + 128 * varint_value(s.drop_first())
    }
}

/// Why a list of numbers could not be read.
#[derive(Debug, Clone, Copy, PartialEq, Eq, Structural)]
pub enum VarintError {
    /// The bytes end inside a number.
    Truncated,
    /// A number takes more than five bytes.
    TooLong,
    /// The numbers of a list exceed 32 bits.
    DeltaOverflow,
}

impl VarintError {
    /// How the error is reported.
    pub open spec fn text(self) -> Seq<char> {
        match self {
            VarintError::Truncated => "truncated posting varint"@,
            VarintError::TooLong => "posting varint overflow"@,
            VarintError::DeltaOverflow => "posting delta overflow"@,
        }
    }

    /// How the error is reported.
    pub fn message(self) -> (r: String)
        ensures
            r@ == self.text(),
    {
        match self {
            VarintError::Truncated => "truncated posting varint".to_owned(),
            VarintError::TooLong => "posting varint overflow".to_owned(),
            VarintError::DeltaOverflow => "posting delta overflow".to_owned(),
        }
    }
}

/// What reading one number gives: the number modulo 2^32, and how many bytes it takes.
pub open spec fn varint_read(s: Seq<u8>) -> Result<(u32, nat), VarintError> {
    match varint_len(s) {
        Some(n) => if n <= 5 {
            Ok(((varint_value(s) % 0x1_0000_0000) as u32, n))
        } else {
            Err(VarintError::TooLong)
        },
        None => if s.len() <= 5 {
            Err(VarintError::Truncated)
        } else {
            Err(VarintError::TooLong)
        },
    }
}

/// A number takes as many bytes as its encoding, and is read back from it.
pub proof fn lemma_varint_own(n: nat, tail: Seq<u8>)
    ensures
        varint_bytes(n).len() > 0,
        varint_len(varint_bytes(n) + tail) == Some(varint_bytes(n).len()),
        varint_value(varint_bytes(n) + tail) == n,
    decreases n,
{
    let s = varint_bytes(n) + tail;
    if n < 128 {
        assert(s[0] == n as u8);
    } else {
        lemma_varint_own(n / 128, tail);
        assert(s.drop_first() =~= varint_bytes(n / 128) + tail);
        assert(s[0] == (n % 128 + 128) as u8);
    }
}

/// A 32-bit number takes at most five bytes.
pub proof fn lemma_varint_short(n: nat)
    requires
        n < 0x1_0000_0000,
    ensures
        varint_bytes(n).len() <= 5,
{
    reveal_with_fuel(varint_bytes, 6);
    assert(n / 128 < 0x200_0000);
    assert(n / 128 / 128 < 0x4_0000);
    assert(n / 128 / 128 / 128 < 0x800);
    assert(n / 128 / 128 / 128 / 128 < 16);
}

/// A number is read back from its encoding, whatever follows.
pub proof fn law_varint_read_back(n: u32, tail: Seq<u8>)
    ensures
        varint_read(varint_bytes(n as nat) + tail) == Ok::<(u32, nat), VarintError>(
            (n, varint_bytes(n as nat).len()),
        ),
{
    lemma_varint_own(n as nat, tail);
    lemma_varint_short(n as nat);
}

/// Appends a number.
pub fn put_varint(n: u32, out: &mut Vec<u8>)
    ensures
        final(out)@ == old(out)@ + varint_bytes(n as nat),
{
    let mut rest: u32 = n;
    assert(out@ + varint_bytes(rest as nat) =~= old(out)@ + varint_bytes(n as nat));
    while rest >= 128
        invariant
            out@ + varint_bytes(rest as nat) == old(out)@ + varint_bytes(n as nat),
        decreases rest,
    {
        let ghost before = out@;
        out.push((rest % 128 + 128) as u8);
        assert(out@ + varint_bytes((rest / 128) as nat) =~= before + varint_bytes(rest as nat));
        rest = rest / 128;
    }
    let ghost before = out@;
    out.push(rest as u8);
    assert(out@ =~= before + varint_bytes(rest as nat));
}

/// Powers of 128: what the group at a position counts for.
pub open spec fn group_weight(k: nat) -> nat
    decreases k,
{
    if k == 0 {
        1
    } else {
        128 * group_weight((k - 1) as nat)
    }
}

/// Reads one number at `*p` and moves `*p` behind it. An error leaves `*p` behind the bytes
/// that were looked at; there are none where `*p` lies behind the end.
pub fn get_varint(bytes: &[u8], p: &mut usize) -> (r: Result<u32, VarintError>)
    ensures
        *final(p) <= bytes@.len() || *final(p) == *old(p),
        match r {
            Ok(n) => ({
                let read = varint_read(bytes@.skip(*old(p) as int));
                &&& *old(p) <= bytes@.len()
                &&& read is Ok
                &&& read->Ok_0.0 == n
                &&& *final(p) == *old(p) + read->Ok_0.1
            }),
            Err(e) => if *old(p) > bytes@.len() {
                e == VarintError::Truncated && *final(p) == *old(p)
            } else {
                &&& varint_read(bytes@.skip(*old(p) as int)) == Err::<(u32, nat), VarintError>(e)
                &&& *final(p) == if e == VarintError::Truncated {
                    bytes@.len() as int
                } else {
                    *old(p) + 6
                }
            },
        },
{
    let start: usize = *p;
    if start > bytes.len() {
        return Err(VarintError::Truncated);
    }
    let ghost s = bytes@.skip(start as int);
    let mut value: u64 = 0;
    let mut weight: u64 = 1;
    let mut k: usize = 0;
    assert(s.skip(0) =~= s);
    proof {
        reveal_with_fuel(group_weight, 6);
        assert(1 * varint_value(s) == varint_value(s)) by (nonlinear_arith);
    }
    loop
        invariant
            k <= 5,
            start == *old(p),
            start + k == *p,
            *p <= bytes@.len(),
            s == bytes@.skip(start as int),
            weight == group_weight(k as nat),
            value < weight,
            weight <= 0x8_0000_0000,
            forall|i: int| 0 <= i < k ==> s[i] >= 128,
            varint_value(s) == value + weight * varint_value(s.skip(k as int)),
            varint_len(s) == match varint_len(s.skip(k as int)) {
                Some(n) => Some((n + k) as nat),
                None => None,
            },
        decreases 6 - k,
    {
        let ghost rest = s.skip(k as int);
        if *p >= bytes.len() {
            assert(rest.len() == 0);
            return Err(VarintError::Truncated);
        }
        let b: u8 = bytes[*p];
        assert(rest[0] == b);
        *p = *p + 1;
        if k >= 5 {
            assert(varint_len(s) matches Some(n) ==> n > 5);
            return Err(VarintError::TooLong);
        }
        proof {
            reveal_with_fuel(group_weight, 6);
            assert(rest.drop_first() =~= s.skip(k + 1));
        }
        if b < 128 {
            assert(weight * (b as u64) <= 0x1000_0000 * 127) by (nonlinear_arith)
                requires
                    weight <= 0x1000_0000,
                    b <= 127,
            ;
            let total: u64 = value + weight * (b as u64);
            return Ok((total % 0x1_0000_0000) as u32);
        }
        let low: u64 = (b - 128) as u64;
        proof {
            assert(weight * low <= weight * 127) by (nonlinear_arith)
                requires
                    low <= 127,
            ;
            let v = varint_value(s.skip(k + 1));
            assert(weight * (low + 128 * v) == weight * low + (128 * weight) * v)
                by (nonlinear_arith);
        }
        value = value + weight * low;
        weight = 128 * weight;
        k += 1;
    }
}

/// Ascending numbers as their differences.
pub open spec fn posting_bytes(ids: Seq<u32>) -> Seq<u8>
    decreases ids.len(),
{
    if ids.len() == 0 {
        Seq::empty()
    } else {
        let front = ids.drop_last();
        let previous: int = if front.len() == 0 {
            0
        } else {
            front.last() as int
        };
        posting_bytes(front) + varint_bytes((ids.last() - previous) as nat)
    }
}

/// What reading a list of differences gives, from a number on.
pub open spec fn posting_read(s: Seq<u8>, from: u32) -> Result<Seq<u32>, VarintError>
    decreases s.len(),
{
    if s.len() == 0 {
        Ok(Seq::empty())
    } else {
        match varint_read(s) {
            Err(e) => Err(e),
            Ok((delta, used)) => if used == 0 || used > s.len() {
                Err(VarintError::Truncated)
            } else if from + delta > u32::MAX {
                Err(VarintError::DeltaOverflow)
            } else {
                match posting_read(s.skip(used as int), (from + delta) as u32) {
                    Err(e) => Err(e),
                    Ok(rest) => Ok(seq![(from + delta) as u32] + rest),
                }
            },
        }
    }
}

/// Each number is followed by one that is no smaller.
pub open spec fn non_descending(ids: Seq<u32>) -> bool {
    forall|i: int, j: int| 0 <= i < j < ids.len() ==> ids[i] <= ids[j]
}

/// The numbers of a list behind its first `i`, with what stands in front of them.
proof fn lemma_posting_suffix(ids: Seq<u32>, i: int)
    requires
        non_descending(ids),
        0 <= i <= ids.len(),
    ensures
        posting_bytes(ids.take(i)).is_prefix_of(posting_bytes(ids)),
        posting_read(
            posting_bytes(ids).skip(posting_bytes(ids.take(i)).len() as int),
            if i == 0 {
                0
            } else {
                ids[i - 1]
            },
        ) == Ok::<Seq<u32>, VarintError>(ids.skip(i)),
    decreases ids.len() - i,
{
    let all = posting_bytes(ids);
    let before = posting_bytes(ids.take(i));
    if i == ids.len() {
        assert(ids.take(i) =~= ids);
        assert(all.subrange(0, all.len() as int) =~= all);
        assert(all.skip(all.len() as int) =~= Seq::empty());
        assert(ids.skip(i) =~= Seq::empty());
    } else {
        lemma_posting_suffix(ids, i + 1);
        let t = ids.take(i + 1);
        assert(t.drop_last() =~= ids.take(i));
        assert(t.last() == ids[i]);
        let previous: int = if i == 0 {
            0
        } else {
            ids[i - 1] as int
        };
        assert(i > 0 ==> ids.take(i).last() == ids[i - 1]);
        let d = (ids[i] - previous) as u32;
        let code = varint_bytes(d as nat);
        let after = posting_bytes(t);
        assert(after == before + code);
        assert(all.subrange(0, before.len() as int) =~= before) by {
            assert(all.subrange(0, after.len() as int) == after);
            assert forall|k: int| 0 <= k < before.len() implies all[k] == before[k] by {
                assert(all.subrange(0, after.len() as int)[k] == after[k]);
            }
        }
        let s = all.skip(before.len() as int);
        let tail = all.skip(after.len() as int);
        assert(s =~= code + tail) by {
            assert forall|k: int| 0 <= k < code.len() implies s[k] == code[k] by {
                assert(all.subrange(0, after.len() as int)[before.len() + k] == after[before.len()
                    + k]);
            }
        }
        law_varint_read_back(d, tail);
        lemma_varint_own(d as nat, tail);
        assert(s.skip(code.len() as int) =~= tail);
        assert(ids.skip(i) =~= seq![ids[i]] + ids.skip(i + 1));
    }
}

/// A list of ascending numbers is read back from its differences.
pub proof fn law_posting_read_back(ids: Seq<u32>)
    requires
        non_descending(ids),
    ensures
        posting_read(posting_bytes(ids), 0) == Ok::<Seq<u32>, VarintError>(ids),
{
    lemma_posting_suffix(ids, 0);
    assert(ids.take(0) =~= Seq::empty());
    assert(posting_bytes(ids).skip(0) =~= posting_bytes(ids));
    assert(ids.skip(0) =~= ids);
}

/// The differences of ascending numbers.
pub fn encode_posting(ids: &[u32]) -> (out: Vec<u8>)
    requires
        non_descending(ids@),
    ensures
        out@ == posting_bytes(ids@),
{
    let mut out: Vec<u8> = Vec::new();
    let mut previous: u32 = 0;
    let mut i: usize = 0;
    assert(ids@.take(0) =~= Seq::empty());
    while i < ids.len()
        invariant
            i <= ids@.len(),
            non_descending(ids@),
            out@ == posting_bytes(ids@.take(i as int)),
            previous == if i == 0 {
                0
            } else {
                ids@[i - 1]
            },
        decreases ids@.len() - i,
    {
        assert(i > 0 ==> ids@[i - 1] <= ids@[i as int]);
        assert(ids@.take(i + 1).drop_last() =~= ids@.take(i as int));
        assert(i > 0 ==> ids@.take(i as int).last() == ids@[i - 1]);
        put_varint(ids[i] - previous, &mut out);
        previous = ids[i];
        i += 1;
    }
    assert(ids@.take(i as int) =~= ids@);
    out
}

/// Numbers from their differences.
pub fn decode_posting(bytes: &[u8]) -> (r: Result<Vec<u32>, VarintError>)
    ensures
        match r {
            Ok(ids) => posting_read(bytes@, 0) == Ok::<Seq<u32>, VarintError>(ids@),
            Err(e) => posting_read(bytes@, 0) == Err::<Seq<u32>, VarintError>(e),
        },
{
    let mut out: Vec<u32> = Vec::new();
    let mut p: usize = 0;
    let mut id: u32 = 0;
    let ghost whole = posting_read(bytes@, 0);
    assert(bytes@.skip(0) =~= bytes@);
    proof {
        if whole is Ok {
            assert(out@ + whole->Ok_0 =~= whole->Ok_0);
        }
    }
    while p < bytes.len()
        invariant
            p <= bytes@.len(),
            whole == posting_read(bytes@, 0),
            match posting_read(bytes@.skip(p as int), id) {
                Ok(rest) => whole == Ok::<Seq<u32>, VarintError>(out@ + rest),
                Err(e) => whole == Err::<Seq<u32>, VarintError>(e),
            },
        decreases bytes@.len() - p,
    {
        let ghost s = bytes@.skip(p as int);
        let ghost from = p as int;
        proof {
            lemma_varint_len_bound(s);
        }
        match get_varint(bytes, &mut p) {
            Err(e) => {
                return Err(e);
            },
            Ok(delta) => {
                match id.checked_add(delta) {
                    None => {
                        return Err(VarintError::DeltaOverflow);
                    },
                    Some(next) => {
                        let ghost before = out@;
                        out.push(next);
                        proof {
                            assert(s.skip(p - from) =~= bytes@.skip(p as int));
                            match posting_read(bytes@.skip(p as int), next) {
                                Ok(rest) => {
                                    assert(before + (seq![next] + rest) =~= out@ + rest);
                                },
                                Err(_) => {},
                            }
                        }
                        id = next;
                    },
                }
            },
        }
    }
    assert(bytes@.skip(p as int) =~= Seq::empty());
    assert(out@ + Seq::<u32>::empty() =~= out@);
    Ok(out)
}

/// A number that ends takes some of the bytes.
proof fn lemma_varint_len_bound(s: Seq<u8>)
    ensures
        varint_len(s) matches Some(n) ==> 0 < n <= s.len(),
    decreases s.len(),
{
    if s.len() > 0 && s[0] >= 128 {
        lemma_varint_len_bound(s.drop_first());
    }
}

} // verus!
