//! Compression of byte strings. That there is memory for it is taken for granted, as
//! everywhere in the library.

use vstd::prelude::*;

verus! {

/// What `zstd::bulk::compress` makes of some bytes at a level, if it succeeds.
pub uninterp spec fn zstd_packed(data: Seq<u8>, level: i32) -> Option<Seq<u8>>;

/// What `zstd::stream::decode_all` reads from some bytes, if they are zstd frames.
pub uninterp spec fn zstd_unpacked(data: Seq<u8>) -> Option<Seq<u8>>;

/// Calls `zstd::bulk::compress`. The compressed form is only named; what decompression
/// gives back of it is the data.
#[verifier::external_body]
pub(crate) fn zstd_pack(data: &[u8], level: i32) -> (r: Option<Vec<u8>>)
    ensures
        match r {
            Some(p) => zstd_packed(data@, level) == Some(p@) && zstd_unpacked(p@) == Some(data@),
            None => zstd_packed(data@, level) is None,
        },
{
    zstd::bulk::compress(data, level).ok()
}

/// Calls `zstd::stream::decode_all`; what it reads is only named, and depends on the bytes
/// alone.
#[verifier::external_body]
pub(crate) fn zstd_unpack(data: &[u8]) -> (r: Option<Vec<u8>>)
    ensures
        match r {
            Some(d) => zstd_unpacked(data@) == Some(d@),
            None => zstd_unpacked(data@) is None,
        },
{
    zstd::stream::decode_all(data).ok()
}

/// What `zstd::stream::encode_all` makes of some bytes at a level, if it succeeds.
pub uninterp spec fn zstd_streamed(data: Seq<u8>, level: i32) -> Option<Seq<u8>>;

/// What `zstd::bulk::decompress` reads from some bytes into a buffer of a given capacity,
/// if they are zstd frames that fit.
pub uninterp spec fn zstd_inflated(data: Seq<u8>, capacity: nat) -> Option<Seq<u8>>;

/// Calls `zstd::stream::encode_all`. The compressed form is only named; decompression into
/// a buffer as large as the data gives it back.
#[verifier::external_body]
pub(crate) fn zstd_stream(data: &[u8], level: i32) -> (r: Option<Vec<u8>>)
    ensures
        match r {
            Some(p) => zstd_streamed(data@, level) == Some(p@) && zstd_inflated(
                p@,
                data@.len(),
            ) == Some(data@),
            None => zstd_streamed(data@, level) is None,
        },
{
    zstd::stream::encode_all(data, level).ok()
}

/// Calls `zstd::bulk::decompress`; what it reads is only named, and depends on the bytes and
/// the capacity alone. A capacity that no buffer can have is left out.
#[verifier::external_body]
pub(crate) fn zstd_inflate(data: &[u8], capacity: usize) -> (r: Option<Vec<u8>>)
    requires
        capacity <= isize::MAX,
    ensures
        match r {
            Some(d) => zstd_inflated(data@, capacity as nat) == Some(d@),
            None => zstd_inflated(data@, capacity as nat) is None,
        },
{
    zstd::bulk::decompress(data, capacity).ok()
}

} // verus!
