//! The file that keeps a directory summary beside its compact index. It belongs to one
//! generation of the index, is compressed, and carries a checksum.

use crate::summary::{
    ChildView, DirectoryChild, DirectorySummaryEntry, EntryView,
};
use crate::types::FileKind;
use vstd::prelude::*;

verus! {

/// The format version.
pub const SUMMARY_VERSION: u32 = 1;

/// Magic, version and generation.
pub const PREFIX_BYTES: usize = 20;

/// Uncompressed size and checksum.
pub const TRAILER_BYTES: usize = 12;

/// The largest file that is read.
pub const MAX_SIDECAR_BYTES: u64 = 0x2000_0000;

/// The largest payload that is decompressed.
pub const MAX_UNCOMPRESSED_BYTES: u64 = 0x8000_0000;

/// The level at which the payload is compressed.
pub const SUMMARY_LEVEL: i32 = 3;

/// The first bytes of the file.
pub open spec fn summary_magic() -> Seq<u8> {
    seq![0x4e, 0x45, 0x55, 0x44, 0x49, 0x52, 0x30, 0x31]
}

/// Why a summary could not be built, read or changed.
#[derive(Debug)]
pub enum SummaryError {
    NotRegular,
    TooLarge,
    TooManyRecords,
    ZeroGeneration,
    UnsafePath(String),
    EntryTooLarge,
    Codec,
    NotASummary,
    UnsupportedVersion,
    InvalidHeader,
    ChecksumMismatch,
    TruncatedLength,
    TruncatedFrame,
    UnnormalizedPath,
    UnnormalizedChild,
    WrongParent,
    MissingDirectory,
    OtherGeneration { stored: u64, expected: u64 },
    StagedGeneration,
    RemovalWithoutRecord(String),
    RemovalMismatch,
}

/// An error as a mathematical value.
#[verifier::ext_equal]
pub enum Fault {
    NotRegular,
    TooLarge,
    TooManyRecords,
    ZeroGeneration,
    UnsafePath(Seq<char>),
    EntryTooLarge,
    Codec,
    NotASummary,
    UnsupportedVersion,
    InvalidHeader,
    ChecksumMismatch,
    TruncatedLength,
    TruncatedFrame,
    UnnormalizedPath,
    UnnormalizedChild,
    WrongParent,
    MissingDirectory,
    OtherGeneration { stored: u64, expected: u64 },
    StagedGeneration,
    RemovalWithoutRecord(Seq<char>),
    RemovalMismatch,
}

impl View for SummaryError {
    type V = Fault;

    open spec fn view(&self) -> Fault {
        match self {
            SummaryError::NotRegular => Fault::NotRegular,
            SummaryError::TooLarge => Fault::TooLarge,
            SummaryError::TooManyRecords => Fault::TooManyRecords,
            SummaryError::ZeroGeneration => Fault::ZeroGeneration,
            SummaryError::UnsafePath(p) => Fault::UnsafePath(p@),
            SummaryError::EntryTooLarge => Fault::EntryTooLarge,
            SummaryError::Codec => Fault::Codec,
            SummaryError::NotASummary => Fault::NotASummary,
            SummaryError::UnsupportedVersion => Fault::UnsupportedVersion,
            SummaryError::InvalidHeader => Fault::InvalidHeader,
            SummaryError::ChecksumMismatch => Fault::ChecksumMismatch,
            SummaryError::TruncatedLength => Fault::TruncatedLength,
            SummaryError::TruncatedFrame => Fault::TruncatedFrame,
            SummaryError::UnnormalizedPath => Fault::UnnormalizedPath,
            SummaryError::UnnormalizedChild => Fault::UnnormalizedChild,
            SummaryError::WrongParent => Fault::WrongParent,
            SummaryError::MissingDirectory => Fault::MissingDirectory,
            SummaryError::OtherGeneration { stored, expected } => Fault::OtherGeneration {
                stored: *stored,
                expected: *expected,
            },
            SummaryError::StagedGeneration => Fault::StagedGeneration,
            SummaryError::RemovalWithoutRecord(p) => Fault::RemovalWithoutRecord(p@),
            SummaryError::RemovalMismatch => Fault::RemovalMismatch,
        }
    }
}

// ---------------------------------------------------------------------------
// Entries as bytes

/// The bytes of a child.
pub open spec fn child_bytes(c: ChildView) -> Seq<u8> {
    crate::codec::text_bytes(c.path) + crate::bytes::le_bytes(crate::codec::kind_tag(c.kind), 4)
        + crate::bytes::le_bytes(c.logical_bytes as nat, 8) + crate::bytes::le_bytes(
        c.file_count as nat,
        8,
    ) + crate::bytes::le_bytes(c.directory_count as nat, 8)
}

/// The bytes of children, one behind the other.
pub open spec fn children_bytes(cs: Seq<ChildView>) -> Seq<u8>
    decreases cs.len(),
{
    if cs.len() == 0 {
        Seq::empty()
    } else {
        children_bytes(cs.drop_last()) + child_bytes(cs.last())
    }
}

/// The bytes of an entry.
pub open spec fn entry_bytes(e: EntryView) -> Seq<u8> {
    crate::bytes::le_bytes(e.source as nat, 4) + crate::codec::text_bytes(e.path)
        + crate::bytes::le_bytes(e.logical_bytes as nat, 8) + crate::bytes::le_bytes(
        e.file_count as nat,
        8,
    ) + crate::bytes::le_bytes(e.directory_count as nat, 8) + crate::bytes::le_bytes(
        e.children.len(),
        8,
    ) + children_bytes(e.children)
}

/// An entry with its length.
pub open spec fn frame_of(e: EntryView) -> Seq<u8> {
    crate::bytes::le_bytes(entry_bytes(e).len(), 4) + entry_bytes(e)
}

/// The frames of entries.
pub open spec fn payload_of(es: Seq<EntryView>) -> Seq<u8>
    decreases es.len(),
{
    if es.len() == 0 {
        Seq::empty()
    } else {
        payload_of(es.drop_last()) + frame_of(es.last())
    }
}

/// The child at a position, and where it ends.
pub open spec fn child_at(s: Seq<u8>, at: int) -> Option<(ChildView, int)> {
    match crate::reader::text(s, at) {
        None => None,
        Some((path, p)) => match (
            crate::reader::number(s, p, 4),
            crate::reader::number(s, p + 4, 8),
            crate::reader::number(s, p + 12, 8),
            crate::reader::number(s, p + 20, 8),
        ) {
            (Some(k), Some(a), Some(b), Some(c)) => if k <= 3 {
                Some(
                    (
                        ChildView {
                            path,
                            kind: if k == 0 {
                                FileKind::File
                            } else if k == 1 {
                                FileKind::Dir
                            } else if k == 2 {
                                FileKind::Symlink
                            } else {
                                FileKind::Other
                            },
                            logical_bytes: a as u64,
                            file_count: b as u64,
                            directory_count: c as u64,
                        },
                        p + 28,
                    ),
                )
            } else {
                None
            },
            _ => None,
        },
    }
}

/// The first `n` children from a position on, and where they end.
pub open spec fn children_at(s: Seq<u8>, at: int, n: nat) -> Option<(Seq<ChildView>, int)>
    decreases n,
{
    if n == 0 {
        Some((Seq::empty(), at))
    } else {
        match children_at(s, at, (n - 1) as nat) {
            None => None,
            Some((front, p)) => match child_at(s, p) {
                None => None,
                Some((c, end)) => Some((front.push(c), end)),
            },
        }
    }
}

/// The entry that some bytes begin with.
pub open spec fn entry_in(s: Seq<u8>) -> Option<EntryView> {
    match (crate::reader::number(s, 0, 4), crate::reader::text(s, 4)) {
        (Some(source), Some((path, p))) => match (
            crate::reader::number(s, p, 8),
            crate::reader::number(s, p + 8, 8),
            crate::reader::number(s, p + 16, 8),
            crate::reader::number(s, p + 24, 8),
        ) {
            (Some(a), Some(b), Some(c), Some(n)) => match children_at(s, p + 32, n) {
                None => None,
                Some((children, _)) => Some(
                    EntryView {
                        source: source as u32,
                        path,
                        logical_bytes: a as u64,
                        file_count: b as u64,
                        directory_count: c as u64,
                        children,
                    },
                ),
            },
            _ => None,
        },
        _ => None,
    }
}

/// The entries of a payload from a position on, or the first fault.
pub open spec fn entries_at(s: Seq<u8>, at: int) -> Result<Seq<EntryView>, Fault>
    decreases s.len() - at,
{
    if at < 0 || at >= s.len() {
        Ok(Seq::empty())
    } else {
        match crate::reader::number(s, at, 4) {
            None => Err(Fault::TruncatedLength),
            Some(n) => if at + 4 + n > s.len() {
                Err(Fault::TruncatedFrame)
            } else {
                match entry_in(s.subrange(at + 4, at + 4 + n)) {
                    None => Err(Fault::Codec),
                    Some(e) => match entries_at(s, at + 4 + n) {
                        Err(f) => Err(f),
                        Ok(rest) => Ok(seq![e] + rest),
                    },
                }
            },
        }
    }
}

fn put_child(out: &mut Vec<u8>, c: &DirectoryChild)
    ensures
        final(out)@ == old(out)@ + child_bytes(c@),
{
    crate::codec::put_text(out, c.path.as_str());
    crate::bytes::write_u32(out, crate::codec::tag_of_kind(c.kind));
    crate::bytes::write_u64(out, c.logical_bytes);
    crate::bytes::write_u64(out, c.file_count);
    crate::bytes::write_u64(out, c.directory_count);
    assert(out@ =~= old(out)@ + child_bytes(c@));
}

fn encode_entry(e: &DirectorySummaryEntry) -> (out: Vec<u8>)
    ensures
        out@ == entry_bytes(e@),
{
    let mut out: Vec<u8> = Vec::new();
    crate::bytes::write_u32(&mut out, e.source);
    crate::codec::put_text(&mut out, e.path.as_str());
    crate::bytes::write_u64(&mut out, e.logical_bytes);
    crate::bytes::write_u64(&mut out, e.file_count);
    crate::bytes::write_u64(&mut out, e.directory_count);
    crate::bytes::write_u64(&mut out, e.children.len() as u64);
    let ghost head = out@;
    let ghost cs = e@.children;
    let mut i: usize = 0;
    proof {
        assert(cs.take(0) =~= Seq::empty());
        assert(out@ =~= head + children_bytes(cs.take(0)));
    }
    while i < e.children.len()
        invariant
            i <= e.children@.len(),
            cs == e@.children,
            out@ == head + children_bytes(cs.take(i as int)),
        decreases e.children@.len() - i,
    {
        put_child(&mut out, &e.children[i]);
        proof {
            assert(cs.take(i + 1).drop_last() =~= cs.take(i as int));
            assert(cs.take(i + 1).last() == e.children@[i as int]@);
            assert(out@ =~= head + children_bytes(cs.take(i + 1)));
        }
        i += 1;
    }
    assert(cs.take(i as int) =~= cs);
    assert(out@ =~= entry_bytes(e@));
    out
}

/// Every entry has a length of four bytes.
pub open spec fn entries_fit(es: Seq<EntryView>) -> bool {
    forall|i: int| 0 <= i < es.len() ==> entry_bytes(#[trigger] es[i]).len() <= u32::MAX
}

/// The payload of entries; none where one is too large.
pub fn encode_payload(es: &[DirectorySummaryEntry]) -> (r: Option<Vec<u8>>)
    ensures
        match r {
            Some(p) => p@ == payload_of(crate::summary::entry_views(es@)) && entries_fit(
                crate::summary::entry_views(es@),
            ),
            None => !entries_fit(crate::summary::entry_views(es@)),
        },
{
    let ghost views = crate::summary::entry_views(es@);
    let mut out: Vec<u8> = Vec::new();
    let mut i: usize = 0;
    assert(views.take(0) =~= Seq::empty());
    while i < es.len()
        invariant
            i <= es@.len(),
            views == crate::summary::entry_views(es@),
            out@ == payload_of(views.take(i as int)),
            forall|k: int| 0 <= k < i ==> entry_bytes(#[trigger] views[k]).len() <= u32::MAX,
        decreases es@.len() - i,
    {
        let body = encode_entry(&es[i]);
        assert(body@ == entry_bytes(views[i as int]));
        if body.len() as u64 > u32::MAX as u64 {
            return None;
        }
        crate::bytes::write_u32(&mut out, body.len() as u32);
        crate::bytes::write_all(&mut out, body.as_slice());
        proof {
            assert(views.take(i + 1).drop_last() =~= views.take(i as int));
            assert(views.take(i + 1).last() == views[i as int]);
            assert(out@ =~= payload_of(views.take(i as int)) + frame_of(views[i as int]));
        }
        i += 1;
    }
    assert(views.take(i as int) =~= views);
    Some(out)
}

fn read_child(s: &[u8], at: usize) -> (r: Option<(DirectoryChild, usize)>)
    ensures
        match r {
            Some((c, end)) => child_at(s@, at as int) == Some((c@, end as int)) && at + 36 <= end
                <= s@.len(),
            None => child_at(s@, at as int) is None,
        },
{
    let (path, p): (String, usize) = match crate::reader::read_text(s, at) {
        Some(x) => x,
        None => {
            return None;
        },
    };
    if s.len() - p < 28 {
        assert(crate::reader::number(s@, p + 20, 8) is None);
        return None;
    }
    let tag: Option<u32> = crate::reader::read_u32(s, p);
    let a: Option<u64> = crate::reader::read_u64(s, p + 4);
    let b: Option<u64> = crate::reader::read_u64(s, p + 12);
    let c: Option<u64> = crate::reader::read_u64(s, p + 20);
    match (tag, a, b, c) {
        (Some(k), Some(logical_bytes), Some(file_count), Some(directory_count)) => {
            match crate::codec::kind_from_tag(k) {
                Some(kind) => Some(
                    (
                        DirectoryChild { path, kind, logical_bytes, file_count, directory_count },
                        p + 28,
                    ),
                ),
                None => None,
            }
        },
        _ => None,
    }
}

/// Once a child is missing, the whole list is.
proof fn lemma_children_stop(s: Seq<u8>, at: int, n: nat, m: nat)
    requires
        n <= m,
        children_at(s, at, n) is None,
    ensures
        children_at(s, at, m) is None,
    decreases m,
{
    if n < m {
        lemma_children_stop(s, at, n, (m - 1) as nat);
    }
}

fn read_children(s: &[u8], start: usize, n: u64) -> (r: Option<Vec<DirectoryChild>>)
    requires
        start <= s@.len(),
    ensures
        match (r, children_at(s@, start as int, n as nat)) {
            (Some(cs), Some((vs, _))) => vs == crate::summary::child_views(cs@),
            (None, None) => true,
            _ => false,
        },
{
    let mut children: Vec<DirectoryChild> = Vec::new();
    let mut at: usize = start;
    let mut done: u64 = 0;
    assert(crate::summary::child_views(children@) =~= Seq::empty());
    while done < n
        invariant
            done <= n,
            start <= at <= s@.len(),
            children_at(s@, start as int, done as nat) == Some(
                (crate::summary::child_views(children@), at as int),
            ),
        decreases n - done,
    {
        let ghost before = children@;
        match read_child(s, at) {
            Some((child, end)) => {
                children.push(child);
                assert(crate::summary::child_views(children@) =~= crate::summary::child_views(
                    before,
                ).push(child@));
                at = end;
                done += 1;
            },
            None => {
                proof {
                    assert(children_at(s@, start as int, (done + 1) as nat) is None);
                    lemma_children_stop(s@, start as int, (done + 1) as nat, n as nat);
                }
                return None;
            },
        }
    }
    Some(children)
}

fn read_entry(s: &[u8]) -> (r: Option<DirectorySummaryEntry>)
    ensures
        match r {
            Some(e) => entry_in(s@) == Some(e@),
            None => entry_in(s@) is None,
        },
{
    let source: u32 = match crate::reader::read_u32(s, 0) {
        Some(n) => n,
        None => {
            return None;
        },
    };
    let (path, p): (String, usize) = match crate::reader::read_text(s, 4) {
        Some(x) => x,
        None => {
            return None;
        },
    };
    if s.len() - p < 32 {
        assert(crate::reader::number(s@, p + 24, 8) is None);
        return None;
    }
    let a: Option<u64> = crate::reader::read_u64(s, p);
    let b: Option<u64> = crate::reader::read_u64(s, p + 8);
    let c: Option<u64> = crate::reader::read_u64(s, p + 16);
    let d: Option<u64> = crate::reader::read_u64(s, p + 24);
    match (a, b, c, d) {
        (Some(logical_bytes), Some(file_count), Some(directory_count), Some(n)) => {
            let children = match read_children(s, p + 32, n) {
                Some(cs) => cs,
                None => {
                    return None;
                },
            };
            Some(
                DirectorySummaryEntry {
                    source,
                    path,
                    logical_bytes,
                    file_count,
                    directory_count,
                    children,
                },
            )
        },
        _ => None,
    }
}

/// A fault further on is the fault of the whole.
spec fn after(front: Seq<EntryView>, rest: Result<Seq<EntryView>, Fault>) -> Result<
    Seq<EntryView>,
    Fault,
> {
    match rest {
        Ok(more) => Ok(front + more),
        Err(f) => Err(f),
    }
}

/// The entries of a payload.
pub fn read_payload(s: &[u8]) -> (r: Result<Vec<DirectorySummaryEntry>, SummaryError>)
    ensures
        match r {
            Ok(es) => entries_at(s@, 0) == Ok::<Seq<EntryView>, Fault>(
                crate::summary::entry_views(es@),
            ),
            Err(e) => entries_at(s@, 0) == Err::<Seq<EntryView>, Fault>(e@),
        },
{
    let len: usize = s.len();
    let mut out: Vec<DirectorySummaryEntry> = Vec::new();
    let mut at: usize = 0;
    proof {
        if entries_at(s@, 0) is Ok {
            assert(crate::summary::entry_views(out@) + entries_at(s@, 0)->Ok_0 =~= entries_at(
                s@,
                0,
            )->Ok_0);
        }
    }
    while at < len
        invariant
            at <= len == s@.len(),
            entries_at(s@, 0) == after(
                crate::summary::entry_views(out@),
                entries_at(s@, at as int),
            ),
        decreases len - at,
    {
        let n: u32 = match crate::reader::read_u32(s, at) {
            Some(n) => n,
            None => {
                return Err(SummaryError::TruncatedLength);
            },
        };
        let start: usize = at + 4;
        if n as u64 > (len - start) as u64 {
            return Err(SummaryError::TruncatedFrame);
        }
        let end: usize = start + n as usize;
        match read_entry(vstd::slice::slice_subrange(s, start, end)) {
            None => {
                return Err(SummaryError::Codec);
            },
            Some(e) => {
                let ghost before = crate::summary::entry_views(out@);
                let ghost v = e@;
                out.push(e);
                proof {
                    let now = crate::summary::entry_views(out@);
                    assert(now =~= before.push(v));
                    let rest = entries_at(s@, end as int);
                    if rest is Ok {
                        assert(before + (seq![v] + rest->Ok_0) =~= now + rest->Ok_0);
                    }
                }
                at = end;
            },
        }
    }
    assert(crate::summary::entry_views(out@) + Seq::<EntryView>::empty()
        =~= crate::summary::entry_views(out@));
    Ok(out)
}

// ---------------------------------------------------------------------------
// Entries read back

proof fn lemma_child_there(s: Seq<u8>, at: int, c: ChildView)
    requires
        0 <= at,
        at + child_bytes(c).len() <= s.len() <= usize::MAX,
        s.subrange(at, at + child_bytes(c).len()) == child_bytes(c),
    ensures
        child_at(s, at) == Some((c, at + child_bytes(c).len())),
{
    let all = child_bytes(c);
    let t = crate::codec::text_bytes(c.path);
    let n = t.len() as int;
    let k = crate::codec::kind_tag(c.kind);
    crate::bytes::lemma_byte_spans();
    crate::bytes::lemma_le_bytes_len(k, 4);
    crate::bytes::lemma_le_bytes_len(c.logical_bytes as nat, 8);
    crate::bytes::lemma_le_bytes_len(c.file_count as nat, 8);
    crate::bytes::lemma_le_bytes_len(c.directory_count as nat, 8);
    let cut = s.subrange(at, at + all.len());
    assert(all.len() == n + 28);
    let p = at + n;
    assert(s.subrange(at, p) =~= cut.subrange(0, n as int));
    assert(cut.subrange(0, n as int) =~= t);
    crate::reader::lemma_text_there(s, at, c.path);
    assert(s.subrange(p, p + 4) =~= cut.subrange(n as int, n + 4));
    assert(cut.subrange(n as int, n + 4) =~= crate::bytes::le_bytes(k, 4));
    crate::reader::lemma_number_there(s, p, k, 4);
    assert(s.subrange(p + 4, p + 12) =~= cut.subrange(n + 4, n + 12));
    assert(cut.subrange(n + 4, n + 12) =~= crate::bytes::le_bytes(c.logical_bytes as nat, 8));
    crate::reader::lemma_number_there(s, p + 4, c.logical_bytes as nat, 8);
    assert(s.subrange(p + 12, p + 20) =~= cut.subrange(n + 12, n + 20));
    assert(cut.subrange(n + 12, n + 20) =~= crate::bytes::le_bytes(c.file_count as nat, 8));
    crate::reader::lemma_number_there(s, p + 12, c.file_count as nat, 8);
    assert(s.subrange(p + 20, p + 28) =~= cut.subrange(n + 20, n + 28));
    assert(cut.subrange(n + 20, n + 28) =~= crate::bytes::le_bytes(c.directory_count as nat, 8));
    crate::reader::lemma_number_there(s, p + 20, c.directory_count as nat, 8);
}

proof fn lemma_children_there(s: Seq<u8>, at: int, cs: Seq<ChildView>)
    requires
        0 <= at,
        at + children_bytes(cs).len() <= s.len() <= usize::MAX,
        s.subrange(at, at + children_bytes(cs).len()) == children_bytes(cs),
    ensures
        children_at(s, at, cs.len()) == Some((cs, at + children_bytes(cs).len())),
    decreases cs.len(),
{
    if cs.len() == 0 {
        assert(cs =~= Seq::empty());
    } else {
        let front = children_bytes(cs.drop_last());
        let last = child_bytes(cs.last());
        let cut = s.subrange(at, at + children_bytes(cs).len());
        let p = at + front.len();
        assert(s.subrange(at, p) =~= cut.subrange(0, front.len() as int));
        assert(cut.subrange(0, front.len() as int) =~= front);
        lemma_children_there(s, at, cs.drop_last());
        assert(s.subrange(p, p + last.len()) =~= cut.subrange(
            front.len() as int,
            (front.len() + last.len()) as int,
        ));
        assert(cut.subrange(front.len() as int, (front.len() + last.len()) as int) =~= last);
        lemma_child_there(s, p, cs.last());
        assert(cs.drop_last().push(cs.last()) =~= cs);
    }
}

/// An entry is read back from its bytes.
pub proof fn law_entry_read_back(e: EntryView)
    requires
        entry_bytes(e).len() <= usize::MAX,
    ensures
        entry_in(entry_bytes(e)) == Some(e),
{
    let s = entry_bytes(e);
    let t = crate::codec::text_bytes(e.path);
    let n = t.len();
    let body = children_bytes(e.children);
    crate::bytes::lemma_byte_spans();
    crate::bytes::lemma_le_bytes_len(e.source as nat, 4);
    crate::bytes::lemma_le_bytes_len(e.logical_bytes as nat, 8);
    crate::bytes::lemma_le_bytes_len(e.file_count as nat, 8);
    crate::bytes::lemma_le_bytes_len(e.directory_count as nat, 8);
    crate::bytes::lemma_le_bytes_len(e.children.len(), 8);
    lemma_children_long(e.children);
    assert(s.subrange(0, 4) =~= crate::bytes::le_bytes(e.source as nat, 4));
    crate::reader::lemma_number_there(s, 0, e.source as nat, 4);
    assert(s.subrange(4, 4 + n as int) =~= t);
    crate::reader::lemma_text_there(s, 4, e.path);
    let p = 4 + n as int;
    assert(s.subrange(p, p + 8) =~= crate::bytes::le_bytes(e.logical_bytes as nat, 8));
    crate::reader::lemma_number_there(s, p, e.logical_bytes as nat, 8);
    assert(s.subrange(p + 8, p + 16) =~= crate::bytes::le_bytes(e.file_count as nat, 8));
    crate::reader::lemma_number_there(s, p + 8, e.file_count as nat, 8);
    assert(s.subrange(p + 16, p + 24) =~= crate::bytes::le_bytes(e.directory_count as nat, 8));
    crate::reader::lemma_number_there(s, p + 16, e.directory_count as nat, 8);
    assert(s.subrange(p + 24, p + 32) =~= crate::bytes::le_bytes(e.children.len(), 8));
    crate::reader::lemma_number_there(s, p + 24, e.children.len(), 8);
    assert(s.subrange(p + 32, p + 32 + body.len()) =~= body);
    lemma_children_there(s, p + 32, e.children);
}

/// Every child takes a byte at least.
proof fn lemma_children_long(cs: Seq<ChildView>)
    ensures
        cs.len() <= children_bytes(cs).len(),
    decreases cs.len(),
{
    if cs.len() > 0 {
        lemma_children_long(cs.drop_last());
        crate::bytes::lemma_le_bytes_len(crate::codec::kind_tag(cs.last().kind), 4);
    }
}

/// The frames of the entries from one on.
spec fn payload_from(es: Seq<EntryView>) -> Seq<u8>
    decreases es.len(),
{
    if es.len() == 0 {
        Seq::empty()
    } else {
        frame_of(es[0]) + payload_from(es.drop_first())
    }
}

proof fn lemma_payload_split(a: Seq<EntryView>, b: Seq<EntryView>)
    ensures
        payload_of(a + b) == payload_of(a) + payload_of(b),
    decreases b.len(),
{
    if b.len() == 0 {
        assert(a + b =~= a);
        assert(payload_of(a) + payload_of(b) =~= payload_of(a));
    } else {
        lemma_payload_split(a, b.drop_last());
        assert((a + b).drop_last() =~= a + b.drop_last());
        assert(payload_of(a + b) =~= payload_of(a) + payload_of(b));
    }
}

proof fn lemma_payload_from(es: Seq<EntryView>)
    ensures
        payload_of(es) == payload_from(es),
    decreases es.len(),
{
    if es.len() > 0 {
        lemma_payload_from(es.drop_first());
        lemma_payload_split(es.take(1), es.drop_first());
        assert(es.take(1) + es.drop_first() =~= es);
        assert(es.take(1).drop_last() =~= Seq::empty());
        assert(payload_of(Seq::<EntryView>::empty()) =~= Seq::empty());
        assert(es.take(1).last() == es[0]);
        assert(payload_of(es.take(1)) =~= frame_of(es[0]));
    }
}

proof fn lemma_frame_there(s: Seq<u8>, at: int, e: EntryView, rest: Seq<u8>)
    requires
        0 <= at <= s.len() <= usize::MAX,
        entry_bytes(e).len() <= u32::MAX,
        s.skip(at) == frame_of(e) + rest,
    ensures
        at + 4 + entry_bytes(e).len() <= s.len(),
        crate::reader::number(s, at, 4) == Some(entry_bytes(e).len()),
        s.subrange(at + 4, at + 4 + entry_bytes(e).len()) == entry_bytes(e),
        s.skip(at + 4 + entry_bytes(e).len()) == rest,
{
    let b = entry_bytes(e);
    let cut = s.skip(at);
    crate::bytes::lemma_byte_spans();
    crate::bytes::lemma_le_bytes_len(b.len(), 4);
    let end = at + 4 + b.len();
    assert(cut.len() == 4 + b.len() + rest.len());
    assert(s.subrange(at, at + 4) =~= cut.subrange(0, 4));
    assert(cut.subrange(0, 4) =~= crate::bytes::le_bytes(b.len(), 4));
    crate::reader::lemma_number_there(s, at, b.len(), 4);
    assert(s.subrange(at + 4, end) =~= cut.subrange(4, 4 + b.len() as int));
    assert(cut.subrange(4, 4 + b.len() as int) =~= b);
    assert(s.skip(end) =~= cut.skip(4 + b.len() as int));
    assert(cut.skip(4 + b.len() as int) =~= rest);
}

proof fn lemma_entries_step(s: Seq<u8>, at: int, n: nat, e: EntryView, rest: Seq<EntryView>)
    requires
        0 <= at < s.len(),
        at + 4 + n <= s.len(),
        crate::reader::number(s, at, 4) == Some(n),
        entry_in(s.subrange(at + 4, at + 4 + n)) == Some(e),
        entries_at(s, at + 4 + n) == Ok::<Seq<EntryView>, Fault>(rest),
    ensures
        entries_at(s, at) == Ok::<Seq<EntryView>, Fault>(seq![e] + rest),
{
}

proof fn lemma_entries_there(s: Seq<u8>, at: int, es: Seq<EntryView>)
    requires
        0 <= at <= s.len() <= usize::MAX,
        entries_fit(es),
        s.skip(at) == payload_from(es),
    ensures
        entries_at(s, at) == Ok::<Seq<EntryView>, Fault>(es),
    decreases es.len(),
{
    if es.len() == 0 {
        assert(s.skip(at).len() == 0);
        assert(es =~= Seq::empty());
    } else {
        let more = es.drop_first();
        assert(entry_bytes(es[0]).len() <= u32::MAX);
        lemma_frame_there(s, at, es[0], payload_from(more));
        law_entry_read_back(es[0]);
        assert forall|i: int| 0 <= i < more.len() implies entry_bytes(#[trigger] more[i]).len()
            <= u32::MAX by {
            assert(more[i] == es[i + 1]);
        }
        lemma_entries_there(s, at + 4 + entry_bytes(es[0]).len(), more);
        lemma_entries_step(s, at, entry_bytes(es[0]).len(), es[0], more);
        assert(seq![es[0]] + more =~= es);
    }
}

/// A payload gives back its entries.
pub proof fn law_payload_read_back(es: Seq<EntryView>)
    requires
        entries_fit(es),
        payload_of(es).len() <= usize::MAX,
    ensures
        entries_at(payload_of(es), 0) == Ok::<Seq<EntryView>, Fault>(es),
{
    let s = payload_of(es);
    lemma_payload_from(es);
    assert(s.skip(0) =~= s);
    lemma_entries_there(s, 0, es);
}

// ---------------------------------------------------------------------------
// The file

/// The bytes of a summary file.
pub open spec fn sidecar_bytes(generation: u64, payload: Seq<u8>, packed: Seq<u8>) -> Seq<u8> {
    summary_magic() + crate::bytes::le_bytes(SUMMARY_VERSION as nat, 4) + crate::bytes::le_bytes(
        generation as nat,
        8,
    ) + packed + crate::bytes::le_bytes(payload.len(), 8) + crate::bytes::le_bytes(
        crate::checksum::crc32_of(packed) as nat,
        4,
    )
}

/// The compressed part of a file.
pub open spec fn packed_part(b: Seq<u8>) -> Seq<u8> {
    b.subrange(20, b.len() - 12)
}

/// The stated size of the payload.
pub open spec fn stated_size(b: Seq<u8>) -> nat {
    crate::bytes::le_value(b.subrange(b.len() - 12, b.len() - 4))
}

/// The generation that a file belongs to, or what is wrong with the file.
pub open spec fn generation_in(b: Seq<u8>) -> Result<u64, Fault> {
    if b.len() < 32 || b.take(8) != summary_magic() {
        Err(Fault::NotASummary)
    } else if crate::bytes::le_value(b.subrange(8, 12)) != SUMMARY_VERSION {
        Err(Fault::UnsupportedVersion)
    } else if crate::bytes::le_value(b.subrange(12, 20)) == 0 || stated_size(b)
        > MAX_UNCOMPRESSED_BYTES {
        Err(Fault::InvalidHeader)
    } else if crate::checksum::crc32_of(packed_part(b)) != crate::bytes::le_value(
        b.subrange(b.len() - 4, b.len() as int),
    ) {
        Err(Fault::ChecksumMismatch)
    } else {
        Ok(crate::bytes::le_value(b.subrange(12, 20)) as u64)
    }
}

/// The entries in a file, in the order in which they stand. A payload larger than any
/// buffer of the machine cannot be read.
pub open spec fn entries_in(b: Seq<u8>) -> Result<Seq<EntryView>, Fault> {
    if stated_size(b) > isize::MAX {
        Err(Fault::Codec)
    } else {
    match crate::pack::zstd_inflated(packed_part(b), stated_size(b)) {
        None => Err(Fault::Codec),
        Some(payload) => entries_at(payload, 0),
    }
    }
}

fn magic() -> (r: Vec<u8>)
    ensures
        r@ == summary_magic(),
{
    let r: Vec<u8> = vec![0x4e, 0x45, 0x55, 0x44, 0x49, 0x52, 0x30, 0x31];
    assert(r@ =~= summary_magic());
    r
}

/// Checks the header and the checksum of a file; its entries stay as they are.
pub fn sidecar_generation(b: &[u8]) -> (r: Result<u64, SummaryError>)
    ensures
        match r {
            Ok(g) => generation_in(b@) == Ok::<u64, Fault>(g),
            Err(e) => generation_in(b@) == Err::<u64, Fault>(e@),
        },
{
    let len: usize = b.len();
    if len < PREFIX_BYTES + TRAILER_BYTES {
        return Err(SummaryError::NotASummary);
    }
    let front = vstd::slice::slice_subrange(b, 0, 8);
    assert(front@ =~= b@.take(8));
    if !crate::bytes::same_bytes(front, magic().as_slice()) {
        return Err(SummaryError::NotASummary);
    }
    let version: u32 = crate::bytes::le_u32(vstd::slice::slice_subrange(b, 8, 12));
    if version != SUMMARY_VERSION {
        return Err(SummaryError::UnsupportedVersion);
    }
    let generation: u64 = crate::bytes::le_u64(vstd::slice::slice_subrange(b, 12, 20));
    let trailer: usize = len - TRAILER_BYTES;
    let size: u64 = crate::bytes::le_u64(vstd::slice::slice_subrange(b, trailer, trailer + 8));
    if generation == 0 || size > MAX_UNCOMPRESSED_BYTES {
        return Err(SummaryError::InvalidHeader);
    }
    let sum: u32 = crate::bytes::le_u32(vstd::slice::slice_subrange(b, trailer + 8, len));
    if crate::checksum::crc32(vstd::slice::slice_subrange(b, PREFIX_BYTES, trailer)) != sum {
        return Err(SummaryError::ChecksumMismatch);
    }
    Ok(generation)
}

/// The entries of a file whose header was checked.
pub fn sidecar_entries(b: &[u8]) -> (r: Result<Vec<DirectorySummaryEntry>, SummaryError>)
    requires
        generation_in(b@) is Ok,
    ensures
        match r {
            Ok(es) => entries_in(b@) == Ok::<Seq<EntryView>, Fault>(
                crate::summary::entry_views(es@),
            ),
            Err(e) => entries_in(b@) == Err::<Seq<EntryView>, Fault>(e@),
        },
{
    let len: usize = b.len();
    let trailer: usize = len - TRAILER_BYTES;
    let size: u64 = crate::bytes::le_u64(vstd::slice::slice_subrange(b, trailer, trailer + 8));
    let packed = vstd::slice::slice_subrange(b, PREFIX_BYTES, trailer);
    if size > isize::MAX as u64 {
        return Err(SummaryError::Codec);
    }
    match crate::pack::zstd_inflate(packed, size as usize) {
        None => Err(SummaryError::Codec),
        Some(payload) => read_payload(payload.as_slice()),
    }
}

/// The file of some entries, or why there is none.
pub open spec fn sidecar_made(es: Seq<EntryView>, generation: u64) -> Result<Seq<u8>, Fault> {
    let payload = payload_of(es);
    if !entries_fit(es) {
        Err(Fault::EntryTooLarge)
    } else {
        match crate::pack::zstd_streamed(payload, SUMMARY_LEVEL) {
            None => Err(Fault::Codec),
            Some(packed) => Ok(sidecar_bytes(generation, payload, packed)),
        }
    }
}

/// Makes the file of some entries.
pub fn make_sidecar(es: &[DirectorySummaryEntry], generation: u64) -> (r: Result<
    Vec<u8>,
    SummaryError,
>)
    ensures
        match r {
            Ok(b) => sidecar_made(crate::summary::entry_views(es@), generation) == Ok::<
                Seq<u8>,
                Fault,
            >(b@) && gives_back(b@, crate::summary::entry_views(es@), generation),
            Err(e) => sidecar_made(crate::summary::entry_views(es@), generation) == Err::<
                Seq<u8>,
                Fault,
            >(e@),
        },
{
    let ghost views = crate::summary::entry_views(es@);
    let payload = match encode_payload(es) {
        Some(p) => p,
        None => {
            return Err(SummaryError::EntryTooLarge);
        },
    };
    let packed = match crate::pack::zstd_stream(payload.as_slice(), SUMMARY_LEVEL) {
        Some(p) => p,
        None => {
            return Err(SummaryError::Codec);
        },
    };
    let mut out = magic();
    crate::bytes::write_u32(&mut out, SUMMARY_VERSION);
    crate::bytes::write_u64(&mut out, generation);
    crate::bytes::write_all(&mut out, packed.as_slice());
    let size: usize = payload.len();
    crate::bytes::write_u64(&mut out, size as u64);
    crate::bytes::write_u32(&mut out, crate::checksum::crc32(packed.as_slice()));
    proof {
        assert(out@ =~= sidecar_bytes(generation, payload@, packed@));
        law_payload_read_back(views);
        lemma_sidecar_parts(generation, payload@, packed@);
    }
    Ok(out)
}

/// The file is read as it was written, unless it is of no generation or too large.
pub open spec fn gives_back(b: Seq<u8>, es: Seq<EntryView>, generation: u64) -> bool {
    if generation == 0 || payload_of(es).len() > MAX_UNCOMPRESSED_BYTES {
        generation_in(b) == Err::<u64, Fault>(Fault::InvalidHeader)
    } else {
        &&& generation_in(b) == Ok::<u64, Fault>(generation)
        &&& stated_size(b) == payload_of(es).len()
        &&& payload_of(es).len() <= isize::MAX ==> entries_in(b) == Ok::<Seq<EntryView>, Fault>(es)
    }
}

proof fn lemma_sidecar_parts(generation: u64, payload: Seq<u8>, packed: Seq<u8>)
    requires
        payload.len() <= usize::MAX,
    ensures
        ({
            let b = sidecar_bytes(generation, payload, packed);
            &&& b.len() == 32 + packed.len()
            &&& b.take(8) == summary_magic()
            &&& crate::bytes::le_value(b.subrange(8, 12)) == SUMMARY_VERSION
            &&& crate::bytes::le_value(b.subrange(12, 20)) == generation
            &&& packed_part(b) == packed
            &&& stated_size(b) == payload.len()
            &&& crate::bytes::le_value(b.subrange(b.len() - 4, b.len() as int))
                == crate::checksum::crc32_of(packed)
        }),
{
    let b = sidecar_bytes(generation, payload, packed);
    let sum = crate::checksum::crc32_of(packed) as nat;
    crate::bytes::lemma_byte_spans();
    crate::bytes::lemma_le_bytes_len(SUMMARY_VERSION as nat, 4);
    crate::bytes::lemma_le_bytes_len(generation as nat, 8);
    crate::bytes::lemma_le_bytes_len(payload.len(), 8);
    crate::bytes::lemma_le_bytes_len(sum, 4);
    crate::bytes::law_le_read_back(SUMMARY_VERSION as nat, 4);
    crate::bytes::law_le_read_back(generation as nat, 8);
    crate::bytes::law_le_read_back(payload.len(), 8);
    crate::bytes::law_le_read_back(sum, 4);
    assert(b.len() == 32 + packed.len());
    assert(b.take(8) =~= summary_magic());
    assert(b.subrange(8, 12) =~= crate::bytes::le_bytes(SUMMARY_VERSION as nat, 4));
    assert(b.subrange(12, 20) =~= crate::bytes::le_bytes(generation as nat, 8));
    assert(packed_part(b) =~= packed);
    assert(b.subrange(b.len() - 12, b.len() - 4) =~= crate::bytes::le_bytes(payload.len(), 8));
    assert(b.subrange(b.len() - 4, b.len() as int) =~= crate::bytes::le_bytes(sum, 4));
}

/// How an error is reported.
pub open spec fn fault_text(e: Fault) -> Seq<char> {
    match e {
        Fault::NotRegular => "directory summary sidecar is not a regular file"@,
        Fault::TooLarge => "directory summary sidecar is too large"@,
        Fault::TooManyRecords => "too many records for summary order"@,
        Fault::ZeroGeneration => "directory summary requires a nonzero generation"@,
        Fault::UnsafePath(p) => "unsafe or relative summary path "@ + p,
        Fault::EntryTooLarge => "directory summary entry is too large"@,
        Fault::Codec => "directory summary codec: invalid entry"@,
        Fault::NotASummary => "not a Neutrasearch directory summary"@,
        Fault::UnsupportedVersion => "unsupported directory summary version"@,
        Fault::InvalidHeader => "invalid directory summary header"@,
        Fault::ChecksumMismatch => "directory summary checksum mismatch"@,
        Fault::TruncatedLength => "truncated directory summary frame length"@,
        Fault::TruncatedFrame => "truncated directory summary frame"@,
        Fault::UnnormalizedPath => "directory summary contains an unnormalized path"@,
        Fault::UnnormalizedChild => "directory summary contains an unnormalized child path"@,
        Fault::WrongParent => "directory summary child has the wrong parent"@,
        Fault::MissingDirectory => "directory summary child directory is missing"@,
        Fault::OtherGeneration { stored, expected } => "directory summary generation "@ + crate::text::decimal(stored as nat)
            + " does not match compact index generation "@ + crate::text::decimal(expected as nat),
        Fault::StagedGeneration => "staged directory summary generation mismatch"@,
        Fault::RemovalWithoutRecord(p) => "directory summary removal requires the previous record for "@ + p,
        Fault::RemovalMismatch => "directory summary removal path does not match record"@,
    }
}

impl SummaryError {
    /// How the error is reported.
    pub fn message(&self) -> (r: String)
        ensures
            r@ == fault_text(self@),
    {
        match self {
            SummaryError::NotRegular => "directory summary sidecar is not a regular file".to_owned(),
            SummaryError::TooLarge => "directory summary sidecar is too large".to_owned(),
            SummaryError::TooManyRecords => "too many records for summary order".to_owned(),
            SummaryError::ZeroGeneration => "directory summary requires a nonzero generation".to_owned(),
            SummaryError::UnsafePath(p) => crate::text::joined("unsafe or relative summary path ", p.as_str()),
            SummaryError::EntryTooLarge => "directory summary entry is too large".to_owned(),
            SummaryError::Codec => "directory summary codec: invalid entry".to_owned(),
            SummaryError::NotASummary => "not a Neutrasearch directory summary".to_owned(),
            SummaryError::UnsupportedVersion => "unsupported directory summary version".to_owned(),
            SummaryError::InvalidHeader => "invalid directory summary header".to_owned(),
            SummaryError::ChecksumMismatch => "directory summary checksum mismatch".to_owned(),
            SummaryError::TruncatedLength => "truncated directory summary frame length".to_owned(),
            SummaryError::TruncatedFrame => "truncated directory summary frame".to_owned(),
            SummaryError::UnnormalizedPath => "directory summary contains an unnormalized path".to_owned(),
            SummaryError::UnnormalizedChild => "directory summary contains an unnormalized child path".to_owned(),
            SummaryError::WrongParent => "directory summary child has the wrong parent".to_owned(),
            SummaryError::MissingDirectory => "directory summary child directory is missing".to_owned(),
            SummaryError::OtherGeneration { stored, expected } => {
                let a = crate::text::decimal_text(*stored);
                let b = crate::text::decimal_text(*expected);
                let head = crate::text::joined3(
                    "directory summary generation ",
                    a.as_str(),
                    " does not match compact index generation ",
                );
                crate::text::joined(head.as_str(), b.as_str())
            },
            SummaryError::StagedGeneration => "staged directory summary generation mismatch".to_owned(),
            SummaryError::RemovalWithoutRecord(p) => crate::text::joined("directory summary removal requires the previous record for ", p.as_str()),
            SummaryError::RemovalMismatch => "directory summary removal path does not match record".to_owned(),
        }
    }
}

} // verus!
