//! The byte encoding of records and change-log entries: fixed-width little-endian
//! integers, texts behind their length, and enum variants behind their number.

use crate::mounts::{FsKind, FsView};
use crate::types::{FileKind, FileRecord, RecordView};
use vstd::prelude::*;

verus! {

/// A text: its length in bytes, then its UTF-8 bytes.
pub open spec fn text_bytes(s: Seq<char>) -> Seq<u8> {
    let b = vstd::utf8::encode_utf8(s);
    crate::bytes::le_bytes(b.len(), 8) + b
}

/// The number under which a signed value is stored: two's complement.
pub open spec fn unsigned_form(n: i64) -> nat {
    if n >= 0 {
        n as nat
    } else {
        (0x1_0000_0000_0000_0000 + n) as nat
    }
}

/// The number of a kind.
pub open spec fn kind_tag(k: FileKind) -> nat {
    match k {
        FileKind::File => 0,
        FileKind::Dir => 1,
        FileKind::Symlink => 2,
        FileKind::Other => 3,
    }
}

/// The number of a filesystem family.
pub open spec fn fs_tag(f: FsView) -> nat {
    match f {
        FsView::Btrfs => 0,
        FsView::Ext4 => 1,
        FsView::Ntfs => 2,
        FsView::Zfs => 3,
        FsView::Network(_) => 4,
        FsView::Unsupported(_) => 5,
    }
}

/// The name that a family carries.
pub open spec fn fs_name(f: FsView) -> Seq<u8> {
    match f {
        FsView::Network(n) => text_bytes(n),
        FsView::Unsupported(n) => text_bytes(n),
        _ => Seq::empty(),
    }
}

/// The fields of a record in front of the family's name, without the path.
pub open spec fn head_bytes(r: RecordView) -> Seq<u8> {
    crate::bytes::le_bytes(r.size as nat, 8) + crate::bytes::le_bytes(unsigned_form(r.mtime), 8)
        + crate::bytes::le_bytes(r.mode as nat, 4) + crate::bytes::le_bytes(kind_tag(r.kind), 4)
        + crate::bytes::le_bytes(fs_tag(r.fs), 4)
}

/// The fields of a record behind the family's name.
pub open spec fn tail_bytes(r: RecordView) -> Seq<u8> {
    crate::bytes::le_bytes(r.native_id as nat, 8) + crate::bytes::le_bytes(
        r.native_parent as nat,
        8,
    ) + crate::bytes::le_bytes(r.source as nat, 4)
}

/// A record: its fields in the order of their declaration.
pub open spec fn record_bytes(r: RecordView) -> Seq<u8> {
    text_bytes(r.path) + head_bytes(r) + fs_name(r.fs) + tail_bytes(r)
}

/// Records one behind the other.
pub open spec fn records_body(rs: Seq<RecordView>) -> Seq<u8>
    decreases rs.len(),
{
    if rs.len() == 0 {
        Seq::empty()
    } else {
        records_body(rs.drop_last()) + record_bytes(rs.last())
    }
}

/// A list of records: their number, then the records.
pub open spec fn records_bytes(rs: Seq<RecordView>) -> Seq<u8> {
    crate::bytes::le_bytes(rs.len(), 8) + records_body(rs)
}

// ---------------------------------------------------------------------------
// Facts about prefixes

/// What begins with two parts begins with the first, and goes on with the second.
pub proof fn lemma_prefix_parts(a: Seq<u8>, b: Seq<u8>, s: Seq<u8>)
    ensures
        (a + b).is_prefix_of(s) <==> a.is_prefix_of(s) && b.is_prefix_of(s.skip(a.len() as int)),
{
    if (a + b).is_prefix_of(s) {
        let n = a.len() as int;
        let m = (a + b).len() as int;
        assert(s.subrange(0, m) == a + b);
        assert(s.subrange(0, n) =~= a) by {
            assert forall|i: int| 0 <= i < n implies s[i] == a[i] by {
                assert(s.subrange(0, m)[i] == (a + b)[i]);
            }
        }
        assert(s.skip(n).subrange(0, b.len() as int) =~= b) by {
            assert forall|i: int| 0 <= i < b.len() implies s.skip(n)[i] == b[i] by {
                assert(s.subrange(0, m)[n + i] == (a + b)[n + i]);
            }
        }
    }
    if a.is_prefix_of(s) && b.is_prefix_of(s.skip(a.len() as int)) {
        let n = a.len() as int;
        assert(s.subrange(0, (a + b).len() as int) =~= a + b) by {
            assert forall|i: int| 0 <= i < (a + b).len() implies s[i] == (a + b)[i] by {
                if i < n {
                    assert(s.subrange(0, n)[i] == a[i]);
                } else {
                    assert(s.skip(n).subrange(0, b.len() as int)[i - n] == b[i - n]);
                }
            }
        }
    }
}

/// A number at the start of some bytes is the one that they spell.
pub proof fn lemma_number_prefix(n: nat, width: nat, s: Seq<u8>)
    requires
        n < crate::bytes::byte_span(width),
    ensures
        crate::bytes::le_bytes(n, width).is_prefix_of(s) <==> s.len() >= width
            && crate::bytes::le_value(s.take(width as int)) == n,
{
    let b = crate::bytes::le_bytes(n, width);
    crate::bytes::lemma_le_bytes_len(n, width);
    crate::bytes::law_le_read_back(n, width);
    if b.is_prefix_of(s) {
        assert(s.take(width as int) =~= b);
    }
    if s.len() >= width && crate::bytes::le_value(s.take(width as int)) == n {
        crate::bytes::law_le_spell_back(s.take(width as int));
        assert(b == s.take(width as int));
        assert(s.subrange(0, b.len() as int) =~= b);
    }
}

// ---------------------------------------------------------------------------
// Encoding

/// Appends a text.
pub fn put_text(out: &mut Vec<u8>, s: &str)
    ensures
        final(out)@ == old(out)@ + text_bytes(s@),
{
    let b = s.as_bytes();
    crate::bytes::write_u64(out, b.len() as u64);
    crate::bytes::write_all(out, b);
    assert(out@ =~= old(out)@ + text_bytes(s@));
}

fn unsigned(n: i64) -> (r: u64)
    ensures
        r == unsigned_form(n),
{
    if n >= 0 {
        n as u64
    } else {
        (n as i128 + 0x1_0000_0000_0000_0000) as u64
    }
}

fn signed(n: u64) -> (r: i64)
    ensures
        unsigned_form(r) == n,
{
    if n <= 0x7fff_ffff_ffff_ffff {
        n as i64
    } else {
        (n as i128 - 0x1_0000_0000_0000_0000) as i64
    }
}

/// The number of a kind.
pub fn tag_of_kind(k: FileKind) -> (r: u32)
    ensures
        r == kind_tag(k),
{
    match k {
        FileKind::File => 0,
        FileKind::Dir => 1,
        FileKind::Symlink => 2,
        FileKind::Other => 3,
    }
}

fn tag_of_fs(f: &FsKind) -> (r: u32)
    ensures
        r == fs_tag(f@),
{
    match f {
        FsKind::Btrfs => 0,
        FsKind::Ext4 => 1,
        FsKind::Ntfs => 2,
        FsKind::Zfs => 3,
        FsKind::Network(_) => 4,
        FsKind::Unsupported(_) => 5,
    }
}

/// Appends a record.
pub fn put_record(out: &mut Vec<u8>, r: &FileRecord)
    ensures
        final(out)@ == old(out)@ + record_bytes(r@),
{
    put_text(out, r.path.as_str());
    crate::bytes::write_u64(out, r.size);
    crate::bytes::write_u64(out, unsigned(r.mtime));
    crate::bytes::write_u32(out, r.mode);
    crate::bytes::write_u32(out, tag_of_kind(r.kind));
    crate::bytes::write_u32(out, tag_of_fs(&r.fs));
    match &r.fs {
        FsKind::Network(n) => put_text(out, n.as_str()),
        FsKind::Unsupported(n) => put_text(out, n.as_str()),
        _ => {},
    }
    assert(out@ =~= old(out)@ + (text_bytes(r@.path) + head_bytes(r@) + fs_name(r@.fs)));
    crate::bytes::write_u64(out, r.native_id);
    crate::bytes::write_u64(out, r.native_parent);
    crate::bytes::write_u32(out, r.source);
    assert(out@ =~= old(out)@ + record_bytes(r@));
}

/// The bytes of a list of records.
pub fn encode_records(rs: &[FileRecord]) -> (out: Vec<u8>)
    ensures
        out@ == records_bytes(crate::types::record_views(rs@)),
{
    let ghost views = crate::types::record_views(rs@);
    let mut out: Vec<u8> = Vec::new();
    crate::bytes::write_u64(&mut out, rs.len() as u64);
    let mut i: usize = 0;
    proof {
        assert(views.take(0) =~= Seq::empty());
        assert(out@ =~= crate::bytes::le_bytes(rs@.len(), 8) + records_body(views.take(0)));
    }
    while i < rs.len()
        invariant
            i <= rs@.len(),
            views == crate::types::record_views(rs@),
            out@ == crate::bytes::le_bytes(rs@.len(), 8) + records_body(views.take(i as int)),
        decreases rs@.len() - i,
    {
        put_record(&mut out, &rs[i]);
        i += 1;
        proof {
            assert(views.take(i as int).drop_last() =~= views.take(i - 1));
            assert(views.take(i as int).last() == rs@[i - 1]@);
            assert(out@ =~= crate::bytes::le_bytes(rs@.len(), 8) + records_body(
                views.take(i as int),
            ));
        }
    }
    assert(views.take(i as int) =~= views);
    out
}

// ---------------------------------------------------------------------------
// Decoding

/// No text's encoding stands at the start of `s`.
pub open spec fn no_text(s: Seq<u8>) -> bool {
    forall|t: Seq<char>| !(#[trigger] text_bytes(t)).is_prefix_of(s)
}

/// Two texts whose encodings begin the same bytes are equal.
pub proof fn lemma_text_unique(a: Seq<char>, b: Seq<char>, s: Seq<u8>)
    requires
        s.len() < 0x1_0000_0000_0000_0000,
        text_bytes(a).is_prefix_of(s),
        text_bytes(b).is_prefix_of(s),
    ensures
        a == b,
{
    let ea = vstd::utf8::encode_utf8(a);
    let eb = vstd::utf8::encode_utf8(b);
    crate::bytes::lemma_byte_spans();
    lemma_prefix_parts(crate::bytes::le_bytes(ea.len(), 8), ea, s);
    lemma_prefix_parts(crate::bytes::le_bytes(eb.len(), 8), eb, s);
    crate::bytes::lemma_le_bytes_len(ea.len(), 8);
    crate::bytes::lemma_le_bytes_len(eb.len(), 8);
    lemma_number_prefix(ea.len(), 8, s);
    lemma_number_prefix(eb.len(), 8, s);
    assert(ea == s.skip(8).subrange(0, ea.len() as int));
    crate::text::lemma_encoding_is_faithful(a, b);
}

/// Reads a text at `at`; gives it with the position behind it.
pub fn get_text(data: &[u8], at: usize) -> (r: Option<(String, usize)>)
    requires
        at <= data@.len(),
    ensures
        match r {
            Some((s, end)) => at <= end <= data@.len() && data@.subrange(at as int, end as int)
                == text_bytes(s@),
            None => no_text(data@.skip(at as int)),
        },
{
    let total: usize = data.len();
    let ghost rest = data@.skip(at as int);
    proof {
        crate::bytes::lemma_byte_spans();
        assert forall|t: Seq<char>| (#[trigger] text_bytes(t)).is_prefix_of(rest) implies rest.len()
            >= 8 && crate::bytes::le_value(rest.take(8)) == vstd::utf8::encode_utf8(t).len()
            && vstd::utf8::encode_utf8(t).is_prefix_of(rest.skip(8)) by {
            let e = vstd::utf8::encode_utf8(t);
            lemma_prefix_parts(crate::bytes::le_bytes(e.len(), 8), e, rest);
            crate::bytes::lemma_le_bytes_len(e.len(), 8);
            lemma_number_prefix(e.len(), 8, rest);
        }
    }
    if total - at < 8 {
        return None;
    }
    let n: u64 = crate::bytes::le_u64(vstd::slice::slice_subrange(data, at, at + 8));
    assert(data@.subrange(at as int, at + 8) =~= rest.take(8));
    if n > (total - at - 8) as u64 {
        return None;
    }
    let start: usize = at + 8;
    let end: usize = start + n as usize;
    let body = crate::bytes::to_vec(vstd::slice::slice_subrange(data, start, end));
    let ghost raw = body@;
    proof {
        assert(raw =~= rest.skip(8).subrange(0, n as int));
    }
    match crate::text::text_from_utf8(body) {
        Some(s) => {
            proof {
                vstd::utf8::decode_utf8_encode_utf8(raw);
                crate::bytes::law_le_spell_back(rest.take(8));
                assert(data@.subrange(at as int, end as int) =~= rest.take(8) + raw);
            }
            Some((s, end))
        },
        None => {
            proof {
                assert forall|t: Seq<char>| !(#[trigger] text_bytes(t)).is_prefix_of(rest) by {
                    if text_bytes(t).is_prefix_of(rest) {
                        vstd::utf8::encode_utf8_valid_utf8(t);
                        assert(raw == vstd::utf8::encode_utf8(t));
                    }
                }
            }
            None
        },
    }
}

/// No record's encoding stands at the start of `s`.
pub open spec fn no_record(s: Seq<u8>) -> bool {
    forall|r: RecordView| !(#[trigger] record_bytes(r)).is_prefix_of(s)
}

/// The widths of the fixed parts.
pub proof fn lemma_part_lengths(r: RecordView)
    ensures
        head_bytes(r).len() == 28,
        tail_bytes(r).len() == 20,
        text_bytes(r.path).len() >= 8,
{
    crate::bytes::lemma_le_bytes_len(r.size as nat, 8);
    crate::bytes::lemma_le_bytes_len(unsigned_form(r.mtime), 8);
    crate::bytes::lemma_le_bytes_len(r.mode as nat, 4);
    crate::bytes::lemma_le_bytes_len(kind_tag(r.kind), 4);
    crate::bytes::lemma_le_bytes_len(fs_tag(r.fs), 4);
    crate::bytes::lemma_le_bytes_len(r.native_id as nat, 8);
    crate::bytes::lemma_le_bytes_len(r.native_parent as nat, 8);
    crate::bytes::lemma_le_bytes_len(r.source as nat, 4);
    crate::bytes::lemma_le_bytes_len(vstd::utf8::encode_utf8(r.path).len(), 8);
}

/// The head's numbers, read from its bytes.
pub open spec fn head_reads(s: Seq<u8>, r: RecordView) -> bool {
    &&& s.len() >= 28
    &&& crate::bytes::le_value(s.subrange(0, 8)) == r.size
    &&& crate::bytes::le_value(s.subrange(8, 16)) == unsigned_form(r.mtime)
    &&& crate::bytes::le_value(s.subrange(16, 20)) == r.mode
    &&& crate::bytes::le_value(s.subrange(20, 24)) == kind_tag(r.kind)
    &&& crate::bytes::le_value(s.subrange(24, 28)) == fs_tag(r.fs)
}

/// The tail's numbers, read from its bytes.
pub open spec fn tail_reads(s: Seq<u8>, r: RecordView) -> bool {
    &&& s.len() >= 20
    &&& crate::bytes::le_value(s.subrange(0, 8)) == r.native_id
    &&& crate::bytes::le_value(s.subrange(8, 16)) == r.native_parent
    &&& crate::bytes::le_value(s.subrange(16, 20)) == r.source
}

proof fn lemma_head_reads(s: Seq<u8>, r: RecordView)
    ensures
        head_bytes(r).is_prefix_of(s) <==> head_reads(s, r),
{
    crate::bytes::lemma_byte_spans();
    lemma_part_lengths(r);
    let a = crate::bytes::le_bytes(r.size as nat, 8);
    let b = crate::bytes::le_bytes(unsigned_form(r.mtime), 8);
    let c = crate::bytes::le_bytes(r.mode as nat, 4);
    let d = crate::bytes::le_bytes(kind_tag(r.kind), 4);
    let e = crate::bytes::le_bytes(fs_tag(r.fs), 4);
    crate::bytes::lemma_le_bytes_len(r.size as nat, 8);
    crate::bytes::lemma_le_bytes_len(unsigned_form(r.mtime), 8);
    crate::bytes::lemma_le_bytes_len(r.mode as nat, 4);
    crate::bytes::lemma_le_bytes_len(kind_tag(r.kind), 4);
    lemma_prefix_parts(a + b + c + d, e, s);
    lemma_prefix_parts(a + b + c, d, s);
    lemma_prefix_parts(a + b, c, s);
    lemma_prefix_parts(a, b, s);
    lemma_number_prefix(r.size as nat, 8, s);
    lemma_number_prefix(unsigned_form(r.mtime), 8, s.skip(8));
    lemma_number_prefix(r.mode as nat, 4, s.skip(16));
    lemma_number_prefix(kind_tag(r.kind), 4, s.skip(20));
    lemma_number_prefix(fs_tag(r.fs), 4, s.skip(24));
    if s.len() >= 28 {
        assert(s.take(8) =~= s.subrange(0, 8));
        assert(s.skip(8).take(8) =~= s.subrange(8, 16));
        assert(s.skip(16).take(4) =~= s.subrange(16, 20));
        assert(s.skip(20).take(4) =~= s.subrange(20, 24));
        assert(s.skip(24).take(4) =~= s.subrange(24, 28));
    }
}

proof fn lemma_tail_reads(s: Seq<u8>, r: RecordView)
    ensures
        tail_bytes(r).is_prefix_of(s) <==> tail_reads(s, r),
{
    crate::bytes::lemma_byte_spans();
    let a = crate::bytes::le_bytes(r.native_id as nat, 8);
    let b = crate::bytes::le_bytes(r.native_parent as nat, 8);
    let c = crate::bytes::le_bytes(r.source as nat, 4);
    crate::bytes::lemma_le_bytes_len(r.native_id as nat, 8);
    crate::bytes::lemma_le_bytes_len(r.native_parent as nat, 8);
    lemma_prefix_parts(a + b, c, s);
    lemma_prefix_parts(a, b, s);
    lemma_number_prefix(r.native_id as nat, 8, s);
    lemma_number_prefix(r.native_parent as nat, 8, s.skip(8));
    lemma_number_prefix(r.source as nat, 4, s.skip(16));
    if s.len() >= 20 {
        assert(s.take(8) =~= s.subrange(0, 8));
        assert(s.skip(8).take(8) =~= s.subrange(8, 16));
        assert(s.skip(16).take(4) =~= s.subrange(16, 20));
    }
}

/// The four parts of a record's encoding.
pub open spec fn record_reads(s: Seq<u8>, r: RecordView) -> bool {
    let p = text_bytes(r.path).len() as int;
    let f = fs_name(r.fs).len() as int;
    &&& text_bytes(r.path).is_prefix_of(s)
    &&& head_reads(s.skip(p), r)
    &&& fs_name(r.fs).is_prefix_of(s.skip(p + 28))
    &&& tail_reads(s.skip(p + 28 + f), r)
}

proof fn lemma_record_reads(s: Seq<u8>, r: RecordView)
    ensures
        record_bytes(r).is_prefix_of(s) <==> record_reads(s, r),
{
    lemma_part_lengths(r);
    let (a, b, c, d) = (text_bytes(r.path), head_bytes(r), fs_name(r.fs), tail_bytes(r));
    let p = a.len() as int;
    let f = c.len() as int;
    lemma_prefix_parts(a + b + c, d, s);
    lemma_prefix_parts(a + b, c, s);
    lemma_prefix_parts(a, b, s);
    lemma_head_reads(s.skip(p), r);
    lemma_tail_reads(s.skip(p + 28 + f), r);
}

/// Two records whose encodings begin the same bytes are equal.
pub proof fn law_record_encoding_is_unique(a: RecordView, b: RecordView, s: Seq<u8>)
    requires
        s.len() < 0x1_0000_0000_0000_0000,
        record_bytes(a).is_prefix_of(s),
        record_bytes(b).is_prefix_of(s),
    ensures
        a == b,
{
    lemma_record_reads(s, a);
    lemma_record_reads(s, b);
    lemma_text_unique(a.path, b.path, s);
    let p = text_bytes(a.path).len() as int;
    assert(fs_tag(a.fs) == fs_tag(b.fs));
    lemma_part_lengths(a);
    let rest = s.skip(p + 28);
    match (a.fs, b.fs) {
        (FsView::Network(x), FsView::Network(y)) => {
            lemma_text_unique(x, y, rest);
        },
        (FsView::Unsupported(x), FsView::Unsupported(y)) => {
            lemma_text_unique(x, y, rest);
        },
        _ => {},
    }
    assert(a.fs == b.fs);
    assert(unsigned_form(a.mtime) == unsigned_form(b.mtime));
    assert(a =~= b);
}

pub fn kind_from_tag(n: u32) -> (r: Option<FileKind>)
    ensures
        match r {
            Some(k) => kind_tag(k) == n,
            None => n > 3,
        },
{
    if n == 0 {
        Some(FileKind::File)
    } else if n == 1 {
        Some(FileKind::Dir)
    } else if n == 2 {
        Some(FileKind::Symlink)
    } else if n == 3 {
        Some(FileKind::Other)
    } else {
        None
    }
}

/// The numbers of a record's head.
struct Head {
    size: u64,
    mtime: i64,
    mode: u32,
    kind: FileKind,
    fs: u32,
}

fn get_head(data: &[u8], at: usize) -> (r: Option<Head>)
    requires
        at <= data@.len(),
    ensures
        match r {
            Some(h) => ({
                let s = data@.skip(at as int);
                &&& s.len() >= 28
                &&& crate::bytes::le_value(s.subrange(0, 8)) == h.size
                &&& crate::bytes::le_value(s.subrange(8, 16)) == unsigned_form(h.mtime)
                &&& crate::bytes::le_value(s.subrange(16, 20)) == h.mode
                &&& crate::bytes::le_value(s.subrange(20, 24)) == kind_tag(h.kind)
                &&& crate::bytes::le_value(s.subrange(24, 28)) == h.fs
            }),
            None => forall|x: RecordView| !(#[trigger] head_reads(data@.skip(at as int), x)),
        },
{
    if data.len() - at < 28 {
        return None;
    }
    let h = vstd::slice::slice_subrange(data, at, at + 28);
    let size: u64 = crate::bytes::le_u64(vstd::slice::slice_subrange(h, 0, 8));
    let mtime_raw: u64 = crate::bytes::le_u64(vstd::slice::slice_subrange(h, 8, 16));
    let mode: u32 = crate::bytes::le_u32(vstd::slice::slice_subrange(h, 16, 20));
    let kind_raw: u32 = crate::bytes::le_u32(vstd::slice::slice_subrange(h, 20, 24));
    let fs: u32 = crate::bytes::le_u32(vstd::slice::slice_subrange(h, 24, 28));
    let ghost s = data@.skip(at as int);
    proof {
        assert(h@.subrange(0, 8) =~= s.subrange(0, 8));
        assert(h@.subrange(8, 16) =~= s.subrange(8, 16));
        assert(h@.subrange(16, 20) =~= s.subrange(16, 20));
        assert(h@.subrange(20, 24) =~= s.subrange(20, 24));
        assert(h@.subrange(24, 28) =~= s.subrange(24, 28));
    }
    match kind_from_tag(kind_raw) {
        Some(kind) => Some(Head { size, mtime: signed(mtime_raw), mode, kind, fs }),
        None => None,
    }
}

/// Families of one number whose names begin the same bytes are equal.
proof fn lemma_fs_unique(a: FsView, b: FsView, s: Seq<u8>)
    requires
        s.len() < 0x1_0000_0000_0000_0000,
        fs_tag(a) == fs_tag(b),
        fs_name(a).is_prefix_of(s),
        fs_name(b).is_prefix_of(s),
    ensures
        a == b,
{
    match (a, b) {
        (FsView::Network(x), FsView::Network(y)) => {
            lemma_text_unique(x, y, s);
        },
        (FsView::Unsupported(x), FsView::Unsupported(y)) => {
            lemma_text_unique(x, y, s);
        },
        _ => {},
    }
}

fn get_fs(data: &[u8], at: usize, tag: u32) -> (r: Option<(FsKind, usize)>)
    requires
        at <= data@.len(),
    ensures
        match r {
            Some((f, end)) => fs_tag(f@) == tag && at <= end <= data@.len() && data@.subrange(
                at as int,
                end as int,
            ) == fs_name(f@),
            None => forall|f: FsView| #[trigger]
                fs_tag(f) == tag ==> !fs_name(f).is_prefix_of(data@.skip(at as int)),
        },
{
    assert(data@.subrange(at as int, at as int) =~= Seq::empty());
    if tag == 0 {
        Some((FsKind::Btrfs, at))
    } else if tag == 1 {
        Some((FsKind::Ext4, at))
    } else if tag == 2 {
        Some((FsKind::Ntfs, at))
    } else if tag == 3 {
        Some((FsKind::Zfs, at))
    } else if tag == 4 {
        match get_text(data, at) {
            Some((n, end)) => Some((FsKind::Network(n), end)),
            None => None,
        }
    } else if tag == 5 {
        match get_text(data, at) {
            Some((n, end)) => Some((FsKind::Unsupported(n), end)),
            None => None,
        }
    } else {
        None
    }
}

/// Reads a record at `at`; gives it with the position behind it.
pub fn get_record(data: &[u8], at: usize) -> (r: Option<(FileRecord, usize)>)
    requires
        at <= data@.len(),
    ensures
        match r {
            Some((rec, end)) => at <= end <= data@.len() && data@.subrange(at as int, end as int)
                == record_bytes(rec@),
            None => no_record(data@.skip(at as int)),
        },
{
    let total: usize = data.len();
    let ghost rest = data@.skip(at as int);
    proof {
        assert forall|r: RecordView| (#[trigger] record_bytes(r)).is_prefix_of(rest) implies
            record_reads(rest, r) by {
            lemma_record_reads(rest, r);
        }
    }
    let (path, h): (String, usize) = match get_text(data, at) {
        Some(x) => x,
        None => {
            return None;
        },
    };
    let ghost p = h - at;
    proof {
        assert(rest.subrange(0, p) =~= data@.subrange(at as int, h as int));
        assert(rest.skip(p) =~= data@.skip(h as int));
        assert forall|r: RecordView| (#[trigger] record_bytes(r)).is_prefix_of(rest) implies r.path
            == path@ by {
            lemma_text_unique(r.path, path@, rest);
        }
    }
    let head = match get_head(data, h) {
        Some(x) => x,
        None => {
            return None;
        },
    };
    let ghost fsrest = rest.skip(p + 28);
    assert(fsrest =~= data@.skip(h + 28));
    let (fs, t): (FsKind, usize) = match get_fs(data, h + 28, head.fs) {
        Some(x) => x,
        None => {
            return None;
        },
    };
    let ghost f = t - h - 28;
    proof {
        assert(fsrest.subrange(0, f) =~= data@.subrange(h + 28, t as int));
        assert(rest.skip(p + 28 + f) =~= data@.skip(t as int));
        assert forall|r: RecordView| (#[trigger] record_bytes(r)).is_prefix_of(rest) implies r.fs
            == fs@ by {
            lemma_fs_unique(r.fs, fs@, fsrest);
        }
    }
    if total - t < 20 {
        return None;
    }
    let tail = vstd::slice::slice_subrange(data, t, t + 20);
    let native_id: u64 = crate::bytes::le_u64(vstd::slice::slice_subrange(tail, 0, 8));
    let native_parent: u64 = crate::bytes::le_u64(vstd::slice::slice_subrange(tail, 8, 16));
    let source: u32 = crate::bytes::le_u32(vstd::slice::slice_subrange(tail, 16, 20));
    let rec = FileRecord {
        path,
        size: head.size,
        mtime: head.mtime,
        mode: head.mode,
        kind: head.kind,
        fs,
        native_id,
        native_parent,
        source,
    };
    let end: usize = t + 20;
    proof {
        let ts = data@.skip(t as int);
        assert(tail@.subrange(0, 8) =~= ts.subrange(0, 8));
        assert(tail@.subrange(8, 16) =~= ts.subrange(8, 16));
        assert(tail@.subrange(16, 20) =~= ts.subrange(16, 20));
        lemma_record_reads(rest, rec@);
        lemma_part_lengths(rec@);
        assert(record_reads(rest, rec@));
        assert(rest.subrange(0, record_bytes(rec@).len() as int) =~= data@.subrange(
            at as int,
            end as int,
        ));
    }
    Some((rec, end))
}

/// The records in front are encoded in front.
proof fn lemma_body_prefix(rs: Seq<RecordView>, i: int)
    requires
        0 <= i <= rs.len(),
    ensures
        records_body(rs.take(i)).is_prefix_of(records_body(rs)),
    decreases rs.len(),
{
    if i == rs.len() {
        assert(rs.take(i) =~= rs);
        let b = records_body(rs);
        assert(b.subrange(0, b.len() as int) =~= b);
    } else {
        let front = rs.drop_last();
        lemma_body_prefix(front, i);
        assert(front.take(i) =~= rs.take(i));
        let a = records_body(rs.take(i));
        let b = records_body(front);
        let c = records_body(rs);
        assert(c.subrange(0, a.len() as int) =~= b.subrange(0, a.len() as int));
    }
}

/// A body is at least as long as its number of records.
proof fn lemma_body_length(rs: Seq<RecordView>)
    ensures
        records_body(rs).len() >= rs.len(),
    decreases rs.len(),
{
    if rs.len() > 0 {
        lemma_body_length(rs.drop_last());
        lemma_part_lengths(rs.last());
    }
}

/// What begins with a prefix of a prefix.
proof fn lemma_prefix_transitive(a: Seq<u8>, b: Seq<u8>, s: Seq<u8>)
    requires
        a.is_prefix_of(b),
        b.is_prefix_of(s),
    ensures
        a.is_prefix_of(s),
{
    assert(s.subrange(0, a.len() as int) =~= b.subrange(0, a.len() as int));
}

/// Record lists of one length that begin the same bytes are equal.
proof fn lemma_body_unique(a: Seq<RecordView>, b: Seq<RecordView>, s: Seq<u8>)
    requires
        s.len() < 0x1_0000_0000_0000_0000,
        a.len() == b.len(),
        records_body(a).is_prefix_of(s),
        records_body(b).is_prefix_of(s),
    ensures
        a == b,
    decreases a.len(),
{
    if a.len() > 0 {
        let (fa, fb) = (a.drop_last(), b.drop_last());
        lemma_prefix_parts(records_body(fa), record_bytes(a.last()), s);
        lemma_prefix_parts(records_body(fb), record_bytes(b.last()), s);
        lemma_body_unique(fa, fb, s);
        law_record_encoding_is_unique(
            a.last(),
            b.last(),
            s.skip(records_body(fa).len() as int),
        );
        assert(a =~= fa.push(a.last()));
        assert(b =~= fb.push(b.last()));
    } else {
        assert(a =~= b);
    }
}

/// Two record lists whose encodings begin the same bytes are equal.
pub proof fn law_records_encoding_is_unique(a: Seq<RecordView>, b: Seq<RecordView>, s: Seq<u8>)
    requires
        s.len() < 0x1_0000_0000_0000_0000,
        records_bytes(a).is_prefix_of(s),
        records_bytes(b).is_prefix_of(s),
    ensures
        a == b,
{
    lemma_list_reads(a, s);
    lemma_list_reads(b, s);
    lemma_body_unique(a, b, s.skip(8));
}

/// How a list begins: with its number of records.
proof fn lemma_list_reads(rs: Seq<RecordView>, s: Seq<u8>)
    requires
        s.len() < 0x1_0000_0000_0000_0000,
    ensures
        records_bytes(rs).is_prefix_of(s) ==> s.len() >= 8 && crate::bytes::le_value(s.take(8))
            == rs.len() && records_body(rs).is_prefix_of(s.skip(8)),
{
    if records_bytes(rs).is_prefix_of(s) {
        crate::bytes::lemma_byte_spans();
        crate::bytes::lemma_le_bytes_len(rs.len(), 8);
        lemma_prefix_parts(crate::bytes::le_bytes(rs.len(), 8), records_body(rs), s);
        lemma_body_length(rs);
        lemma_number_prefix(rs.len(), 8, s);
    }
}

/// No record list's encoding stands at the start of `s`.
pub open spec fn no_records(s: Seq<u8>) -> bool {
    forall|rs: Seq<RecordView>| !(#[trigger] records_bytes(rs)).is_prefix_of(s)
}

/// Reads a list of records; bytes behind it are passed over.
pub fn decode_records(data: &[u8]) -> (r: Option<Vec<FileRecord>>)
    ensures
        match r {
            Some(rs) => records_bytes(crate::types::record_views(rs@)).is_prefix_of(data@),
            None => no_records(data@),
        },
{
    let total: usize = data.len();
    let ghost s = data@;
    proof {
        assert forall|rs: Seq<RecordView>| (#[trigger] records_bytes(rs)).is_prefix_of(s) implies
            s.len() >= 8 && crate::bytes::le_value(s.take(8)) == rs.len() && records_body(
            rs,
        ).is_prefix_of(s.skip(8)) by {
            lemma_list_reads(rs, s);
        }
    }
    if total < 8 {
        return None;
    }
    let n: u64 = crate::bytes::le_u64(vstd::slice::slice_subrange(data, 0, 8));
    assert(data@.subrange(0, 8) =~= s.take(8));
    let ghost body = s.skip(8);
    let mut out: Vec<FileRecord> = Vec::new();
    let mut at: usize = 8;
    let mut done: u64 = 0;
    proof {
        assert(crate::types::record_views(out@) =~= Seq::empty());
        assert(body.subrange(0, 0) =~= Seq::empty());
    }
    while done < n
        invariant
            done <= n,
            done == out@.len(),
            8 <= at <= total == data@.len(),
            s == data@,
            body == s.skip(8),
            n == crate::bytes::le_value(s.take(8)),
            records_body(crate::types::record_views(out@)) == body.subrange(0, at - 8),
            forall|rs: Seq<RecordView>| (#[trigger] records_bytes(rs)).is_prefix_of(s) ==> rs.len()
                == n && records_body(rs).is_prefix_of(body),
        decreases n - done,
    {
        let ghost views = crate::types::record_views(out@);
        match get_record(data, at) {
            Some((rec, end)) => {
                let ghost e = rec@;
                out.push(rec);
                proof {
                    let now = crate::types::record_views(out@);
                    assert(now =~= views.push(e));
                    assert(now.drop_last() =~= views);
                    assert(body.subrange(0, end - 8) =~= body.subrange(0, at - 8) + data@.subrange(
                        at as int,
                        end as int,
                    ));
                }
                at = end;
                done += 1;
            },
            None => {
                proof {
                    assert forall|rs: Seq<RecordView>| !(#[trigger] records_bytes(rs)).is_prefix_of(
                        s,
                    ) by {
                        if records_bytes(rs).is_prefix_of(s) {
                            let i = done as int;
                            lemma_body_prefix(rs, i);
                            lemma_body_prefix(rs, i + 1);
                            lemma_prefix_transitive(
                                records_body(rs.take(i)),
                                records_body(rs),
                                body,
                            );
                            lemma_prefix_transitive(
                                records_body(rs.take(i + 1)),
                                records_body(rs),
                                body,
                            );
                            assert(records_body(views).is_prefix_of(body));
                            lemma_body_unique(views, rs.take(i), body);
                            assert(rs.take(i + 1).drop_last() =~= rs.take(i));
                            lemma_prefix_parts(records_body(views), record_bytes(rs[i]), body);
                            assert(body.skip(at - 8) =~= data@.skip(at as int));
                        }
                    }
                }
                return None;
            },
        }
    }
    proof {
        let views = crate::types::record_views(out@);
        crate::bytes::lemma_byte_spans();
        crate::bytes::lemma_le_bytes_len(n as nat, 8);
        lemma_number_prefix(n as nat, 8, s);
        assert(records_body(views).is_prefix_of(body));
        lemma_prefix_parts(crate::bytes::le_bytes(n as nat, 8), records_body(views), s);
    }
    Some(out)
}

} // verus!
