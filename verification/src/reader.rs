//! Reading numbers and texts at positions of a byte string.

use vstd::prelude::*;

verus! {

/// The number that `width` bytes at `at` spell, least significant byte first.
pub open spec fn number(s: Seq<u8>, at: int, width: nat) -> Option<nat> {
    if 0 <= at && at + width <= s.len() {
        Some(crate::bytes::le_value(s.subrange(at, at + width)))
    } else {
        None
    }
}

/// The text at `at`, which follows its length in bytes, and where it ends.
pub open spec fn text(s: Seq<u8>, at: int) -> Option<(Seq<char>, int)> {
    match number(s, at, 8) {
        None => None,
        Some(n) => {
            let end = at + 8 + n;
            if end <= s.len() && vstd::utf8::valid_utf8(s.subrange(at + 8, end)) {
                Some((vstd::utf8::decode_utf8(s.subrange(at + 8, end)), end))
            } else {
                None
            }
        },
    }
}

/// Reads four bytes.
pub fn read_u32(data: &[u8], at: usize) -> (r: Option<u32>)
    ensures
        match r {
            Some(n) => number(data@, at as int, 4) == Some(n as nat) && at + 4 <= data@.len(),
            None => number(data@, at as int, 4) is None,
        },
{
    let len: usize = data.len();
    if at > len || len - at < 4 {
        return None;
    }
    let part = vstd::slice::slice_subrange(data, at, at + 4);
    Some(crate::bytes::le_u32(part))
}

/// Reads eight bytes.
pub fn read_u64(data: &[u8], at: usize) -> (r: Option<u64>)
    ensures
        match r {
            Some(n) => number(data@, at as int, 8) == Some(n as nat) && at + 8 <= data@.len(),
            None => number(data@, at as int, 8) is None,
        },
{
    let len: usize = data.len();
    if at > len || len - at < 8 {
        return None;
    }
    let part = vstd::slice::slice_subrange(data, at, at + 8);
    Some(crate::bytes::le_u64(part))
}

/// Reads a text with its length.
pub fn read_text(data: &[u8], at: usize) -> (r: Option<(String, usize)>)
    ensures
        match r {
            Some((t, end)) => text(data@, at as int) == Some((t@, end as int)) && at + 8 <= end
                <= data@.len(),
            None => text(data@, at as int) is None,
        },
{
    let n: u64 = match read_u64(data, at) {
        Some(n) => n,
        None => {
            return None;
        },
    };
    let len: usize = data.len();
    let start: usize = at + 8;
    if n > (len - start) as u64 {
        return None;
    }
    let end: usize = start + n as usize;
    let body = crate::bytes::to_vec(vstd::slice::slice_subrange(data, start, end));
    match crate::text::text_from_utf8(body) {
        Some(t) => Some((t, end)),
        None => None,
    }
}

/// A number is read where its bytes stand.
pub proof fn lemma_number_there(s: Seq<u8>, at: int, n: nat, width: nat)
    requires
        0 <= at,
        at + width <= s.len(),
        n < crate::bytes::byte_span(width),
        s.subrange(at, at + width) == crate::bytes::le_bytes(n, width),
    ensures
        number(s, at, width) == Some(n),
{
    crate::bytes::law_le_read_back(n, width);
}

/// A text is read where its bytes stand.
pub proof fn lemma_text_there(s: Seq<u8>, at: int, t: Seq<char>)
    requires
        0 <= at,
        at + crate::codec::text_bytes(t).len() <= s.len() <= usize::MAX,
        s.subrange(at, at + crate::codec::text_bytes(t).len()) == crate::codec::text_bytes(t),
    ensures
        text(s, at) == Some((t, at + crate::codec::text_bytes(t).len())),
        crate::codec::text_bytes(t).len() == 8 + vstd::utf8::encode_utf8(t).len(),
{
    let b = vstd::utf8::encode_utf8(t);
    let all = crate::codec::text_bytes(t);
    let n = b.len();
    crate::bytes::lemma_byte_spans();
    crate::bytes::lemma_le_bytes_len(n, 8);
    let cut = s.subrange(at, at + all.len());
    assert(s.subrange(at, at + 8) =~= cut.subrange(0, 8));
    assert(cut.subrange(0, 8) =~= crate::bytes::le_bytes(n, 8));
    lemma_number_there(s, at, n, 8);
    assert(s.subrange(at + 8, at + 8 + n) =~= cut.subrange(8, 8 + n as int));
    assert(cut.subrange(8, 8 + n as int) =~= b);
    vstd::utf8::encode_utf8_valid_utf8(t);
    vstd::utf8::encode_utf8_decode_utf8(t);
}

} // verus!
