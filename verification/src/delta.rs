//! Bounded mutable overlay for filesystem change events.
//!
//! The immutable compact base is never rewritten per event; changes are first appended
//! to an owner-only write-ahead log and then reflected in memory. The log begins with a
//! header that binds it to one base generation; each change follows in a frame with its
//! length and checksum.

use crate::pathmap::{HasPath, PathMap};
use crate::types::{FileRecord, RecordView};
use vstd::prelude::*;

verus! {

/// How many bytes the header of a log takes.
pub const DELTA_HEADER_BYTES: u64 = 16;

/// The largest encoded change.
pub const MAX_FRAME: usize = 16_777_216;

/// How large a log grows before it is merged into the base.
pub const DEFAULT_COMPACT_AT: u64 = 67_108_864;

/// One change of the indexed tree.
#[derive(Debug)]
pub enum DeltaChange {
    Upsert(FileRecord),
    Remove(String),
}

/// A change as a mathematical value.
#[verifier::ext_equal]
pub enum ChangeView {
    Upsert(RecordView),
    Remove(Seq<char>),
}

impl View for DeltaChange {
    type V = ChangeView;

    open spec fn view(&self) -> ChangeView {
        match self {
            DeltaChange::Upsert(r) => ChangeView::Upsert(r@),
            DeltaChange::Remove(p) => ChangeView::Remove(p@),
        }
    }
}

impl Clone for DeltaChange {
    fn clone(&self) -> (r: DeltaChange)
        ensures
            r@ == self@,
    {
        match self {
            DeltaChange::Upsert(r) => DeltaChange::Upsert(r.clone()),
            DeltaChange::Remove(p) => DeltaChange::Remove(p.clone()),
        }
    }
}

impl HasPath for DeltaChange {
    open spec fn key(&self) -> Seq<char> {
        path_of(self@)
    }

    fn key_text(&self) -> (r: &str) {
        match self {
            DeltaChange::Upsert(r) => r.path.as_str(),
            DeltaChange::Remove(p) => p.as_str(),
        }
    }
}

/// Why a log could not be used.
#[derive(Debug, Clone, Copy, PartialEq, Eq, Structural)]
pub enum DeltaError {
    /// There is no log to read.
    NotFound,
    /// A generation of zero names no base.
    ZeroGeneration,
    /// The log ends inside its header.
    TornHeader,
    /// The log does not begin with the magic bytes.
    NotADelta,
    /// The log was written for another base.
    WrongGeneration,
    /// A frame claims more bytes than are allowed.
    FrameTooLarge,
    /// A complete frame does not match its checksum.
    ChecksumMismatch,
    /// A complete frame holds no change.
    Codec,
    /// A change is too large to be logged.
    ChangeTooLarge,
    /// The log was opened for reading only.
    ReadOnly,
    /// The log is shorter than what was read from it before.
    Truncated,
}

/// The class of an error, as callers that recover from it need to know it.
#[derive(Debug, Clone, Copy, PartialEq, Eq, Structural)]
pub enum DeltaErrorKind {
    NotFound,
    InvalidData,
    UnexpectedEof,
    PermissionDenied,
}

impl DeltaError {
    /// The class of the error.
    pub open spec fn class(self) -> DeltaErrorKind {
        match self {
            DeltaError::NotFound => DeltaErrorKind::NotFound,
            DeltaError::TornHeader => DeltaErrorKind::UnexpectedEof,
            DeltaError::ReadOnly => DeltaErrorKind::PermissionDenied,
            _ => DeltaErrorKind::InvalidData,
        }
    }

    /// The class of the error.
    pub fn kind(self) -> (k: DeltaErrorKind)
        ensures
            k == self.class(),
    {
        match self {
            DeltaError::NotFound => DeltaErrorKind::NotFound,
            DeltaError::TornHeader => DeltaErrorKind::UnexpectedEof,
            DeltaError::ReadOnly => DeltaErrorKind::PermissionDenied,
            _ => DeltaErrorKind::InvalidData,
        }
    }

    /// How the error is reported.
    pub open spec fn text(self) -> Seq<char> {
        match self {
            DeltaError::NotFound => "delta log does not exist"@,
            DeltaError::ZeroGeneration => "delta requires a nonzero base generation"@,
            DeltaError::TornHeader => "failed to fill whole buffer"@,
            DeltaError::NotADelta => "not a Neutrasearch delta log"@,
            DeltaError::WrongGeneration => "delta log belongs to a different base generation"@,
            DeltaError::FrameTooLarge => "delta frame exceeds safety cap"@,
            DeltaError::ChecksumMismatch => "delta frame checksum mismatch"@,
            DeltaError::Codec => "delta codec: invalid change"@,
            DeltaError::ChangeTooLarge => "delta change exceeds safety cap"@,
            DeltaError::ReadOnly => "read-only delta snapshot"@,
            DeltaError::Truncated => "delta log was replaced or truncated"@,
        }
    }

    /// How the error is reported.
    pub fn message(self) -> (r: String)
        ensures
            r@ == self.text(),
    {
        match self {
            DeltaError::NotFound => "delta log does not exist".to_owned(),
            DeltaError::ZeroGeneration => "delta requires a nonzero base generation".to_owned(),
            DeltaError::TornHeader => "failed to fill whole buffer".to_owned(),
            DeltaError::NotADelta => "not a Neutrasearch delta log".to_owned(),
            DeltaError::WrongGeneration =>
                "delta log belongs to a different base generation".to_owned(),
            DeltaError::FrameTooLarge => "delta frame exceeds safety cap".to_owned(),
            DeltaError::ChecksumMismatch => "delta frame checksum mismatch".to_owned(),
            DeltaError::Codec => "delta codec: invalid change".to_owned(),
            DeltaError::ChangeTooLarge => "delta change exceeds safety cap".to_owned(),
            DeltaError::ReadOnly => "read-only delta snapshot".to_owned(),
            DeltaError::Truncated => "delta log was replaced or truncated".to_owned(),
        }
    }
}

// ---------------------------------------------------------------------------
// Encoding of changes, frames and headers

/// A change: the number of its variant, then its content.
pub open spec fn change_bytes(c: ChangeView) -> Seq<u8> {
    match c {
        ChangeView::Upsert(r) => crate::bytes::le_bytes(0, 4) + crate::codec::record_bytes(r),
        ChangeView::Remove(p) => crate::bytes::le_bytes(1, 4) + crate::codec::text_bytes(p),
    }
}

/// The change whose encoding stands at the start of a payload.
pub open spec fn decoded_change(payload: Seq<u8>) -> Option<ChangeView> {
    if exists|c: ChangeView| (#[trigger] change_bytes(c)).is_prefix_of(payload) {
        Some(choose|c: ChangeView| (#[trigger] change_bytes(c)).is_prefix_of(payload))
    } else {
        None
    }
}

/// Two changes whose encodings begin the same bytes are equal.
pub proof fn law_change_encoding_is_unique(a: ChangeView, b: ChangeView, s: Seq<u8>)
    requires
        s.len() < 0x1_0000_0000_0000_0000,
        change_bytes(a).is_prefix_of(s),
        change_bytes(b).is_prefix_of(s),
    ensures
        a == b,
{
    lemma_change_reads(a, s);
    lemma_change_reads(b, s);
    match (a, b) {
        (ChangeView::Upsert(x), ChangeView::Upsert(y)) => {
            crate::codec::law_record_encoding_is_unique(x, y, s.skip(4));
        },
        (ChangeView::Remove(x), ChangeView::Remove(y)) => {
            crate::codec::lemma_text_unique(x, y, s.skip(4));
        },
        _ => {},
    }
}

/// How a change begins: with the number of its variant.
proof fn lemma_change_reads(c: ChangeView, s: Seq<u8>)
    ensures
        change_bytes(c).is_prefix_of(s) <==> s.len() >= 4 && match c {
            ChangeView::Upsert(r) => crate::bytes::le_value(s.take(4)) == 0
                && crate::codec::record_bytes(r).is_prefix_of(s.skip(4)),
            ChangeView::Remove(p) => crate::bytes::le_value(s.take(4)) == 1
                && crate::codec::text_bytes(p).is_prefix_of(s.skip(4)),
        },
{
    crate::bytes::lemma_byte_spans();
    crate::bytes::lemma_le_bytes_len(0, 4);
    crate::bytes::lemma_le_bytes_len(1, 4);
    crate::codec::lemma_number_prefix(0, 4, s);
    crate::codec::lemma_number_prefix(1, 4, s);
    match c {
        ChangeView::Upsert(r) => {
            crate::codec::lemma_prefix_parts(
                crate::bytes::le_bytes(0, 4),
                crate::codec::record_bytes(r),
                s,
            );
        },
        ChangeView::Remove(p) => {
            crate::codec::lemma_prefix_parts(
                crate::bytes::le_bytes(1, 4),
                crate::codec::text_bytes(p),
                s,
            );
        },
    }
}

/// A change is decoded from its own encoding, whatever follows.
pub proof fn lemma_decode_own_encoding(c: ChangeView, payload: Seq<u8>)
    requires
        change_bytes(c).is_prefix_of(payload),
        payload.len() < 0x1_0000_0000_0000_0000,
    ensures
        decoded_change(payload) == Some(c),
{
    let d = decoded_change(payload)->0;
    assert(change_bytes(d).is_prefix_of(payload));
    law_change_encoding_is_unique(c, d, payload);
}

fn encode_change(c: &DeltaChange) -> (out: Vec<u8>)
    ensures
        out@ == change_bytes(c@),
{
    let mut out: Vec<u8> = Vec::new();
    match c {
        DeltaChange::Upsert(r) => {
            crate::bytes::write_u32(&mut out, 0);
            crate::codec::put_record(&mut out, r);
        },
        DeltaChange::Remove(p) => {
            crate::bytes::write_u32(&mut out, 1);
            crate::codec::put_text(&mut out, p.as_str());
        },
    }
    assert(out@ =~= change_bytes(c@));
    out
}

fn decode_change(payload: &[u8]) -> (r: Option<DeltaChange>)
    ensures
        match r {
            Some(c) => decoded_change(payload@) == Some(c@),
            None => decoded_change(payload@) is None,
        },
{
    let ghost s = payload@;
    proof {
        assert forall|c: ChangeView| (#[trigger] change_bytes(c)).is_prefix_of(s) implies s.len()
            >= 4 && match c {
            ChangeView::Upsert(r) => crate::bytes::le_value(s.take(4)) == 0
                && crate::codec::record_bytes(r).is_prefix_of(s.skip(4)),
            ChangeView::Remove(p) => crate::bytes::le_value(s.take(4)) == 1
                && crate::codec::text_bytes(p).is_prefix_of(s.skip(4)),
        } by {
            lemma_change_reads(c, s);
        }
    }
    if payload.len() < 4 {
        return None;
    }
    let tag: u32 = crate::bytes::le_u32(vstd::slice::slice_subrange(payload, 0, 4));
    assert(payload@.subrange(0, 4) =~= s.take(4));
    if tag == 0 {
        match crate::codec::get_record(payload, 4) {
            Some((r, end)) => {
                let c = DeltaChange::Upsert(r);
                proof {
                    assert(s.skip(4).subrange(0, end - 4) =~= s.subrange(4, end as int));
                    assert(crate::codec::record_bytes(r@).is_prefix_of(s.skip(4)));
                    lemma_change_reads(c@, s);
                    lemma_decode_own_encoding(c@, s);
                }
                Some(c)
            },
            None => None,
        }
    } else if tag == 1 {
        match crate::codec::get_text(payload, 4) {
            Some((p, end)) => {
                let c = DeltaChange::Remove(p);
                proof {
                    assert(s.skip(4).subrange(0, end - 4) =~= s.subrange(4, end as int));
                    assert(crate::codec::text_bytes(p@).is_prefix_of(s.skip(4)));
                    lemma_change_reads(c@, s);
                    lemma_decode_own_encoding(c@, s);
                }
                Some(c)
            },
            None => None,
        }
    } else {
        None
    }
}

/// A frame: the length of the payload, its checksum, and the payload.
pub open spec fn frame_bytes(payload: Seq<u8>) -> Seq<u8> {
    crate::bytes::le_bytes(payload.len(), 4) + crate::bytes::le_bytes(
        crate::checksum::crc32_of(payload) as nat,
        4,
    ) + payload
}

/// The first eight bytes of a log: `NEUTDLT1`.
pub open spec fn delta_magic() -> Seq<u8> {
    seq![0x4e, 0x45, 0x55, 0x54, 0x44, 0x4c, 0x54, 0x31]
}

/// The header that binds a log to a base generation.
pub open spec fn delta_header(generation: u64) -> Seq<u8> {
    delta_magic() + crate::bytes::le_bytes(generation as nat, 8)
}

/// What is wrong with the header of a log, if anything.
pub open spec fn header_error(file: Seq<u8>, generation: u64) -> Option<DeltaError> {
    if file.len() < 8 {
        Some(DeltaError::TornHeader)
    } else if file.take(8) != delta_magic() {
        Some(DeltaError::NotADelta)
    } else if file.len() < 16 {
        Some(DeltaError::TornHeader)
    } else if crate::bytes::le_value(file.subrange(8, 16)) != generation {
        Some(DeltaError::WrongGeneration)
    } else {
        None
    }
}

fn magic() -> (r: Vec<u8>)
    ensures
        r@ == delta_magic(),
{
    let r: Vec<u8> = vec![0x4e, 0x45, 0x55, 0x54, 0x44, 0x4c, 0x54, 0x31];
    assert(r@ =~= delta_magic());
    r
}

/// The header of a log for a base generation.
pub fn header(generation: u64) -> (r: Vec<u8>)
    ensures
        r@ == delta_header(generation),
        r@.len() == DELTA_HEADER_BYTES,
{
    let mut out = magic();
    crate::bytes::write_u64(&mut out, generation);
    proof {
        crate::bytes::lemma_le_bytes_len(generation as nat, 8);
    }
    out
}

/// Checks the header of a log against a base generation.
pub fn read_header(file: &[u8], generation: u64) -> (r: Result<(), DeltaError>)
    ensures
        match r {
            Ok(_) => header_error(file@, generation) is None,
            Err(e) => header_error(file@, generation) == Some(e),
        },
{
    if file.len() < 8 {
        return Err(DeltaError::TornHeader);
    }
    let m = magic();
    assert(file@.subrange(0, 8) =~= file@.take(8));
    if !crate::bytes::same_bytes(vstd::slice::slice_subrange(file, 0, 8), m.as_slice()) {
        return Err(DeltaError::NotADelta);
    }
    if file.len() < 16 {
        return Err(DeltaError::TornHeader);
    }
    if crate::bytes::le_u64(vstd::slice::slice_subrange(file, 8, 16)) != generation {
        return Err(DeltaError::WrongGeneration);
    }
    Ok(())
}

// ---------------------------------------------------------------------------
// The overlay

/// What the changes so far add up to.
#[verifier::ext_equal]
pub struct OverlayView {
    /// The newest record of each path that was written last.
    pub upserts: Map<Seq<char>, RecordView>,
    /// The paths that were removed last.
    pub removed: Set<Seq<char>>,
}

/// No change yet.
pub open spec fn no_changes() -> OverlayView {
    OverlayView { upserts: Map::empty(), removed: Set::empty() }
}

/// One more change.
pub open spec fn changed(o: OverlayView, c: ChangeView) -> OverlayView {
    match c {
        ChangeView::Upsert(r) => OverlayView {
            upserts: o.upserts.insert(r.path, r),
            removed: o.removed.remove(r.path),
        },
        ChangeView::Remove(p) => OverlayView {
            upserts: o.upserts.remove(p),
            removed: o.removed.insert(p),
        },
    }
}

/// More changes, one after the other.
pub open spec fn all_changed(o: OverlayView, cs: Seq<ChangeView>) -> OverlayView
    decreases cs.len(),
{
    if cs.len() == 0 {
        o
    } else {
        changed(all_changed(o, cs.drop_last()), cs.last())
    }
}

/// The path that a change is about.
pub open spec fn path_of(c: ChangeView) -> Seq<char> {
    match c {
        ChangeView::Upsert(r) => r.path,
        ChangeView::Remove(p) => p,
    }
}

/// No path is both written and removed, and each record stands at its own path.
pub open spec fn coherent(o: OverlayView) -> bool {
    &&& forall|p: Seq<char>| #[trigger]
        o.upserts.contains_key(p) ==> !o.removed.contains(p) && o.upserts[p].path == p
}

/// Every change keeps the overlay coherent.
pub proof fn law_changes_keep_coherence(o: OverlayView, cs: Seq<ChangeView>)
    requires
        coherent(o),
    ensures
        coherent(all_changed(o, cs)),
    decreases cs.len(),
{
    if cs.len() > 0 {
        law_changes_keep_coherence(o, cs.drop_last());
    }
}

/// The last change of a path decides about it; paths that no change mentions stay.
pub proof fn law_last_change_wins(o: OverlayView, cs: Seq<ChangeView>, p: Seq<char>)
    ensures
        ({
            let after = all_changed(o, cs);
            let last = last_about(cs, p);
            match last {
                Some(ChangeView::Upsert(r)) => after.upserts.contains_key(p) && after.upserts[p] == r
                    && !after.removed.contains(p),
                Some(ChangeView::Remove(_)) => !after.upserts.contains_key(p)
                    && after.removed.contains(p),
                None => (after.upserts.contains_key(p) <==> o.upserts.contains_key(p)) && (
                o.upserts.contains_key(p) ==> after.upserts[p] == o.upserts[p]) && (
                after.removed.contains(p) <==> o.removed.contains(p)),
            }
        }),
    decreases cs.len(),
{
    if cs.len() > 0 && path_of(cs.last()) != p {
        law_last_change_wins(o, cs.drop_last(), p);
    }
}

/// The last change about a path.
pub open spec fn last_about(cs: Seq<ChangeView>, p: Seq<char>) -> Option<ChangeView>
    decreases cs.len(),
{
    if cs.len() == 0 {
        None
    } else if path_of(cs.last()) == p {
        Some(cs.last())
    } else {
        last_about(cs.drop_last(), p)
    }
}

// ---------------------------------------------------------------------------
// Replay

/// What reading the frames of a log gives.
#[verifier::ext_equal]
pub struct Replay {
    /// The changes of the complete frames up to the end or the error.
    pub changes: Seq<ChangeView>,
    /// How many bytes those frames take.
    pub used: nat,
    /// Why reading stopped early.
    pub error: Option<DeltaError>,
}

/// Reads frame by frame. A frame that is cut off ends the log and is passed over; a
/// complete frame that is damaged is an error.
pub open spec fn replay(s: Seq<u8>) -> Replay
    decreases s.len(),
{
    let stop = Replay { changes: Seq::empty(), used: 0, error: None };
    if s.len() < 4 {
        stop
    } else {
        let n = crate::bytes::le_value(s.take(4));
        if n > MAX_FRAME {
            Replay { error: Some(DeltaError::FrameTooLarge), ..stop }
        } else if s.len() < 8 + n {
            stop
        } else {
            let payload = s.subrange(8, 8 + n as int);
            if crate::checksum::crc32_of(payload) != crate::bytes::le_value(s.subrange(4, 8)) {
                Replay { error: Some(DeltaError::ChecksumMismatch), ..stop }
            } else {
                match decoded_change(payload) {
                    None => Replay { error: Some(DeltaError::Codec), ..stop },
                    Some(c) => {
                        let rest = replay(s.skip(8 + n as int));
                        Replay {
                            changes: seq![c] + rest.changes,
                            used: 8 + n + rest.used,
                            error: rest.error,
                        }
                    },
                }
            }
        }
    }
}

/// The frames of some changes, one behind the other.
pub open spec fn frames(cs: Seq<ChangeView>) -> Seq<u8>
    decreases cs.len(),
{
    if cs.len() == 0 {
        Seq::empty()
    } else {
        frame_bytes(change_bytes(cs[0])) + frames(cs.drop_first())
    }
}

/// What a crash leaves of a frame that was being written: less than all of it. Up to three
/// bytes do not even give a length.
pub open spec fn torn(tail: Seq<u8>) -> bool {
    tail.len() < 4 || (crate::bytes::le_value(tail.take(4)) <= MAX_FRAME && tail.len() < 8
        + crate::bytes::le_value(tail.take(4)))
}

/// Each part of a frame that was not written whole is torn.
pub proof fn law_cut_frames_are_torn(c: ChangeView, n: nat)
    requires
        change_bytes(c).len() <= MAX_FRAME,
        n < frame_bytes(change_bytes(c)).len(),
    ensures
        torn(frame_bytes(change_bytes(c)).take(n as int)),
{
    let p = change_bytes(c);
    let tail = frame_bytes(p).take(n as int);
    crate::bytes::lemma_byte_spans();
    crate::bytes::lemma_le_bytes_len(p.len(), 4);
    crate::bytes::lemma_le_bytes_len(crate::checksum::crc32_of(p) as nat, 4);
    if n >= 4 {
        assert(tail.take(4) =~= crate::bytes::le_bytes(p.len(), 4));
        crate::bytes::law_le_read_back(p.len(), 4);
    }
}

/// Reading goes on behind the frames that were written.
proof fn lemma_replay_past(cs: Seq<ChangeView>, tail: Seq<u8>)
    requires
        forall|i: int| 0 <= i < cs.len() ==> change_bytes(#[trigger] cs[i]).len() <= MAX_FRAME,
    ensures
        replay(frames(cs) + tail).error == replay(tail).error,
        replay(frames(cs) + tail).changes == cs + replay(tail).changes,
        replay(frames(cs) + tail).used == frames(cs).len() + replay(tail).used,
    decreases cs.len(),
{
    crate::bytes::lemma_byte_spans();
    if cs.len() == 0 {
        assert(frames(cs) + tail =~= tail);
        assert(cs + replay(tail).changes =~= replay(tail).changes);
    } else {
        let p = change_bytes(cs[0]);
        let rest = frames(cs.drop_first()) + tail;
        let s = frames(cs) + tail;
        crate::bytes::lemma_le_bytes_len(p.len(), 4);
        crate::bytes::lemma_le_bytes_len(crate::checksum::crc32_of(p) as nat, 4);
        crate::bytes::law_le_read_back(p.len(), 4);
        crate::bytes::law_le_read_back(crate::checksum::crc32_of(p) as nat, 4);
        assert(s.take(4) =~= crate::bytes::le_bytes(p.len(), 4));
        assert(s.subrange(4, 8) =~= crate::bytes::le_bytes(
            crate::checksum::crc32_of(p) as nat,
            4,
        ));
        assert(s.subrange(8, 8 + p.len() as int) =~= p);
        assert(s.skip(8 + p.len() as int) =~= rest);
        assert(p.subrange(0, p.len() as int) =~= p);
        lemma_decode_own_encoding(cs[0], p);
        assert forall|i: int| 0 <= i < cs.drop_first().len() implies change_bytes(
            #[trigger] cs.drop_first()[i],
        ).len() <= MAX_FRAME by {
            assert(cs.drop_first()[i] == cs[i + 1]);
        }
        lemma_replay_past(cs.drop_first(), tail);
        assert(seq![cs[0]] + (cs.drop_first() + replay(tail).changes) =~= cs + replay(
            tail,
        ).changes);
    }
}

/// What was logged is replayed: all changes in order. A frame that was being written when
/// the log ended changes nothing.
pub proof fn law_replay_gives_back_the_log(cs: Seq<ChangeView>, tail: Seq<u8>)
    requires
        forall|i: int| 0 <= i < cs.len() ==> change_bytes(#[trigger] cs[i]).len() <= MAX_FRAME,
        torn(tail),
    ensures
        replay(frames(cs) + tail) == (Replay {
            changes: cs,
            used: frames(cs).len(),
            error: None,
        }),
{
    lemma_replay_past(cs, tail);
    assert(replay(frames(cs) + tail) =~= Replay {
        changes: cs,
        used: frames(cs).len(),
        error: None,
    });
}

/// The overlay of a base: the changes of one log.
pub struct DeltaIndex {
    generation: u64,
    writable: bool,
    upserts: PathMap<FileRecord>,
    removed: PathMap<String>,
    wal_bytes: u64,
    compact_at: u64,
}

/// An overlay as a mathematical value.
#[verifier::ext_equal]
pub struct DeltaView {
    pub generation: u64,
    pub writable: bool,
    pub overlay: OverlayView,
    pub wal_bytes: u64,
    pub compact_at: u64,
}

impl View for DeltaIndex {
    type V = DeltaView;

    closed spec fn view(&self) -> DeltaView {
        DeltaView {
            generation: self.generation,
            writable: self.writable,
            overlay: OverlayView {
                upserts: self.upserts.entries(),
                removed: self.removed.entries().dom(),
            },
            wal_bytes: self.wal_bytes,
            compact_at: self.compact_at,
        }
    }
}

/// What has to be done to the log on disk after it was opened for writing.
#[derive(Debug, Clone, Copy, PartialEq, Eq, Structural)]
pub struct WalRepair {
    /// Cut the log to this length: a torn frame follows.
    pub truncate_to: Option<u64>,
    /// Write the header: the log is empty or new.
    pub write_header: bool,
}

/// The threshold that is used: a log of a header alone is never due.
pub open spec fn effective_threshold(compact_at: u64) -> u64 {
    if compact_at > 17 {
        compact_at
    } else {
        17
    }
}

/// What opening a log gives. `file` is its content, or none where there is no file.
pub open spec fn opened(
    file: Option<Seq<u8>>,
    generation: u64,
    compact_at: u64,
    writable: bool,
) -> Result<(DeltaView, WalRepair), DeltaError> {
    let empty = DeltaView {
        generation,
        writable,
        overlay: no_changes(),
        wal_bytes: 0,
        compact_at: effective_threshold(compact_at),
    };
    if generation == 0 {
        Err(DeltaError::ZeroGeneration)
    } else if file is None && !writable {
        Err(DeltaError::NotFound)
    } else if file is None || file->0.len() == 0 {
        if writable {
            Ok(
                (
                    DeltaView { wal_bytes: DELTA_HEADER_BYTES, ..empty },
                    WalRepair { truncate_to: None, write_header: true },
                ),
            )
        } else {
            Ok((empty, WalRepair { truncate_to: None, write_header: false }))
        }
    } else {
        let bytes = file->0;
        match header_error(bytes, generation) {
            Some(e) => Err(e),
            None => {
                let r = replay(bytes.skip(16));
                match r.error {
                    Some(e) => Err(e),
                    None => Ok(
                        (
                            DeltaView {
                                overlay: all_changed(no_changes(), r.changes),
                                wal_bytes: (16 + r.used) as u64,
                                ..empty
                            },
                            WalRepair {
                                truncate_to: if writable && bytes.len() > 16 + r.used {
                                    Some((16 + r.used) as u64)
                                } else {
                                    None
                                },
                                write_header: false,
                            },
                        ),
                    ),
                }
            },
        }
    }
}

/// Complete frames are part of what was read.
pub proof fn lemma_replay_bounds(s: Seq<u8>)
    ensures
        replay(s).used <= s.len(),
    decreases s.len(),
{
    if s.len() >= 4 {
        let n = crate::bytes::le_value(s.take(4));
        if n <= MAX_FRAME && s.len() >= 8 + n {
            lemma_replay_bounds(s.skip(8 + n as int));
        }
    }
}

impl DeltaIndex {
    /// Paths ascend in both collections, and no path is in both.
    pub closed spec fn wf(&self) -> bool {
        &&& self.upserts.wf()
        &&& self.removed.wf()
        &&& coherent(self@.overlay)
    }

    /// No path is both written and removed.
    pub proof fn law_changes_are_coherent(&self)
        requires
            self.wf(),
        ensures
            coherent(self@.overlay),
    {
    }

    fn blank(generation: u64, compact_at: u64, writable: bool, wal_bytes: u64) -> (r: DeltaIndex)
        ensures
            r.wf(),
            r@ == (DeltaView {
                generation,
                writable,
                overlay: no_changes(),
                wal_bytes,
                compact_at: effective_threshold(compact_at),
            }),
    {
        let r = DeltaIndex {
            generation,
            writable,
            upserts: PathMap::new(),
            removed: PathMap::new(),
            wal_bytes,
            compact_at: if compact_at > 17 {
                compact_at
            } else {
                17
            },
        };
        assert(r@.overlay.removed =~= Set::empty());
        r
    }

    /// Opens a log for writing with the default threshold.
    pub fn open(file: Option<&[u8]>, generation: u64) -> (r: Result<
        (DeltaIndex, WalRepair),
        DeltaError,
    >)
        ensures
            match r {
                Ok((d, w)) => d.wf() && opened(
                    file_view(file),
                    generation,
                    DEFAULT_COMPACT_AT,
                    true,
                ) == Ok::<(DeltaView, WalRepair), DeltaError>((d@, w)),
                Err(e) => opened(file_view(file), generation, DEFAULT_COMPACT_AT, true) == Err::<
                    (DeltaView, WalRepair),
                    DeltaError,
                >(e),
            },
    {
        Self::open_mode(file, generation, DEFAULT_COMPACT_AT, true)
    }

    /// Replays a point-in-time log snapshot without becoming its writer.
    pub fn open_snapshot(file: Option<&[u8]>, generation: u64) -> (r: Result<
        (DeltaIndex, WalRepair),
        DeltaError,
    >)
        ensures
            match r {
                Ok((d, w)) => d.wf() && opened(
                    file_view(file),
                    generation,
                    DEFAULT_COMPACT_AT,
                    false,
                ) == Ok::<(DeltaView, WalRepair), DeltaError>((d@, w)),
                Err(e) => opened(file_view(file), generation, DEFAULT_COMPACT_AT, false) == Err::<
                    (DeltaView, WalRepair),
                    DeltaError,
                >(e),
            },
    {
        Self::open_mode(file, generation, DEFAULT_COMPACT_AT, false)
    }

    /// Opens a log for writing with a threshold of the caller's.
    pub fn open_with_threshold(file: Option<&[u8]>, generation: u64, compact_at: u64) -> (r: Result<
        (DeltaIndex, WalRepair),
        DeltaError,
    >)
        ensures
            match r {
                Ok((d, w)) => d.wf() && opened(file_view(file), generation, compact_at, true)
                    == Ok::<(DeltaView, WalRepair), DeltaError>((d@, w)),
                Err(e) => opened(file_view(file), generation, compact_at, true) == Err::<
                    (DeltaView, WalRepair),
                    DeltaError,
                >(e),
            },
    {
        Self::open_mode(file, generation, compact_at, true)
    }

    /// Replaces an unreadable log by an empty one. Only compaction recovery should call
    /// this, after verifying that a staged base already contains the changes.
    pub fn replace_empty(generation: u64) -> (r: Result<DeltaIndex, DeltaError>)
        ensures
            replaced(generation, DEFAULT_COMPACT_AT, r),
    {
        Self::replace_empty_with_threshold(generation, DEFAULT_COMPACT_AT)
    }

    /// Replaces an unreadable log by an empty one with a threshold of the caller's.
    pub fn replace_empty_with_threshold(generation: u64, compact_at: u64) -> (r: Result<
        DeltaIndex,
        DeltaError,
    >)
        ensures
            replaced(generation, compact_at, r),
    {
        if generation == 0 {
            return Err(DeltaError::ZeroGeneration);
        }
        Ok(Self::blank(generation, compact_at, true, DELTA_HEADER_BYTES))
    }

    /// Opens a log from its content.
    pub fn open_mode(
        file: Option<&[u8]>,
        generation: u64,
        compact_at: u64,
        writable: bool,
    ) -> (r: Result<(DeltaIndex, WalRepair), DeltaError>)
        ensures
            match r {
                Ok((d, w)) => d.wf() && opened(file_view(file), generation, compact_at, writable)
                    == Ok::<(DeltaView, WalRepair), DeltaError>((d@, w)),
                Err(e) => opened(file_view(file), generation, compact_at, writable) == Err::<
                    (DeltaView, WalRepair),
                    DeltaError,
                >(e),
            },
    {
        if generation == 0 {
            return Err(DeltaError::ZeroGeneration);
        }
        let bytes: &[u8] = match file {
            Some(b) => b,
            None => {
                if writable {
                    return Ok(
                        (
                            Self::blank(generation, compact_at, true, DELTA_HEADER_BYTES),
                            WalRepair { truncate_to: None, write_header: true },
                        ),
                    );
                }
                return Err(DeltaError::NotFound);
            },
        };
        if bytes.len() == 0 {
            if writable {
                return Ok(
                    (
                        Self::blank(generation, compact_at, true, DELTA_HEADER_BYTES),
                        WalRepair { truncate_to: None, write_header: true },
                    ),
                );
            }
            return Ok(
                (
                    Self::blank(generation, compact_at, false, 0),
                    WalRepair { truncate_to: None, write_header: false },
                ),
            );
        }
        match read_header(bytes, generation) {
            Err(e) => {
                return Err(e);
            },
            Ok(_) => {},
        }
        let mut d = Self::blank(generation, compact_at, writable, DELTA_HEADER_BYTES);
        let rest = vstd::slice::slice_subrange(bytes, 16, bytes.len());
        assert(rest@ =~= bytes@.skip(16));
        proof {
            lemma_replay_bounds(rest@);
        }
        match d.replay_frames(rest) {
            Some(e) => Err(e),
            None => {
                let used: u64 = d.wal_bytes;
                let total: u64 = bytes.len() as u64;
                let repair = WalRepair {
                    truncate_to: if writable && total > used {
                        Some(used)
                    } else {
                        None
                    },
                    write_header: false,
                };
                Ok((d, repair))
            },
        }
    }

    /// Applies the changes of the complete frames, and counts their bytes.
    fn replay_frames(&mut self, data: &[u8]) -> (error: Option<DeltaError>)
        requires
            old(self).wf(),
            old(self)@.wal_bytes + data@.len() <= u64::MAX,
        ensures
            final(self).wf(),
            error == replay(data@).error,
            final(self)@ == (DeltaView {
                overlay: all_changed(old(self)@.overlay, replay(data@).changes),
                wal_bytes: (old(self)@.wal_bytes + replay(data@).used) as u64,
                ..old(self)@
            }),
    {
        let total: usize = data.len();
        let start: u64 = self.wal_bytes;
        let mut at: usize = 0;
        let ghost whole = replay(data@);
        let ghost mut done: Seq<ChangeView> = Seq::empty();
        proof {
            lemma_replay_bounds(data@);
            assert(data@.skip(0) =~= data@);
            assert(done + whole.changes =~= whole.changes);
        }
        loop
            invariant
                at <= total == data@.len(),
                start + total <= u64::MAX,
                start == old(self)@.wal_bytes,
                whole == replay(data@),
                self.wf(),
                self@ == (DeltaView {
                    overlay: all_changed(old(self)@.overlay, done),
                    wal_bytes: (start + at) as u64,
                    ..old(self)@
                }),
                whole.changes == done + replay(data@.skip(at as int)).changes,
                whole.used == at + replay(data@.skip(at as int)).used,
                whole.error == replay(data@.skip(at as int)).error,
            decreases total - at,
        {
            let ghost s = data@.skip(at as int);
            if total - at < 4 {
                assert(whole.changes =~= done);
                return None;
            }
            let n: u32 = crate::bytes::le_u32(vstd::slice::slice_subrange(data, at, at + 4));
            assert(data@.subrange(at as int, at + 4) =~= s.take(4));
            if n as usize > MAX_FRAME {
                assert(whole.changes =~= done);
                return Some(DeltaError::FrameTooLarge);
            }
            if total - at < 8 + n as usize {
                assert(whole.changes =~= done);
                return None;
            }
            let crc: u32 = crate::bytes::le_u32(vstd::slice::slice_subrange(data, at + 4, at + 8));
            let end: usize = at + 8 + n as usize;
            let payload = vstd::slice::slice_subrange(data, at + 8, end);
            proof {
                assert(data@.subrange(at + 4, at + 8) =~= s.subrange(4, 8));
                assert(payload@ =~= s.subrange(8, 8 + n as int));
                assert(s.skip(8 + n as int) =~= data@.skip(end as int));
            }
            if crate::checksum::crc32(payload) != crc {
                assert(whole.changes =~= done);
                return Some(DeltaError::ChecksumMismatch);
            }
            match decode_change(payload) {
                None => {
                    assert(whole.changes =~= done);
                    return Some(DeltaError::Codec);
                },
                Some(change) => {
                    let ghost c = change@;
                    self.apply_memory(change);
                    self.wal_bytes = start + end as u64;
                    at = end;
                    proof {
                        let next = done.push(c);
                        assert(next.drop_last() =~= done);
                        assert(done + (seq![c] + replay(data@.skip(end as int)).changes) =~= next
                            + replay(data@.skip(end as int)).changes);
                        done = next;
                    }
                },
            }
        }
    }

    fn apply_memory(&mut self, change: DeltaChange)
        requires
            old(self).wf(),
        ensures
            final(self).wf(),
            final(self)@ == (DeltaView {
                overlay: changed(old(self)@.overlay, change@),
                ..old(self)@
            }),
    {
        let ghost c = change@;
        let ghost before = self@.overlay;
        match change {
            DeltaChange::Upsert(record) => {
                self.removed.remove(record.path.as_str());
                self.upserts.insert(record);
            },
            DeltaChange::Remove(path) => {
                self.upserts.remove(path.as_str());
                self.removed.insert(path);
            },
        }
        assert(self@.overlay.removed =~= changed(before, c).removed);
        assert(self@.overlay =~= changed(before, c));
    }

    /// The frame to append for a change. It is written before the change is applied.
    pub fn frame_for(&self, change: &DeltaChange) -> (r: Result<Vec<u8>, DeltaError>)
        ensures
            match r {
                Ok(f) => change_bytes(change@).len() <= MAX_FRAME && self@.writable && f@
                    == frame_bytes(change_bytes(change@)),
                Err(DeltaError::ChangeTooLarge) => change_bytes(change@).len() > MAX_FRAME,
                Err(e) => e == DeltaError::ReadOnly && change_bytes(change@).len() <= MAX_FRAME
                    && !self@.writable,
            },
    {
        let payload = encode_change(change);
        if payload.len() > MAX_FRAME {
            return Err(DeltaError::ChangeTooLarge);
        }
        if !self.writable {
            return Err(DeltaError::ReadOnly);
        }
        let mut out: Vec<u8> = Vec::new();
        crate::bytes::write_u32(&mut out, payload.len() as u32);
        crate::bytes::write_u32(&mut out, crate::checksum::crc32(payload.as_slice()));
        crate::bytes::write_all(&mut out, payload.as_slice());
        assert(out@ =~= frame_bytes(payload@));
        Ok(out)
    }

    /// Takes a change over into memory, once its frame of `frame_len` bytes is written.
    pub fn apply(&mut self, change: DeltaChange, frame_len: usize)
        requires
            old(self).wf(),
        ensures
            final(self).wf(),
            final(self)@ == (DeltaView {
                overlay: changed(old(self)@.overlay, change@),
                wal_bytes: if old(self)@.wal_bytes + frame_len <= u64::MAX {
                    (old(self)@.wal_bytes + frame_len) as u64
                } else {
                    u64::MAX
                },
                ..old(self)@
            }),
    {
        self.wal_bytes = self.wal_bytes.saturating_add(frame_len as u64);
        self.apply_memory(change);
    }

    /// Binds the overlay to a replacement base and forgets its changes; gives the header
    /// that the emptied log has to begin with.
    pub fn reset(&mut self, generation: u64) -> (r: Result<Vec<u8>, DeltaError>)
        requires
            old(self).wf(),
        ensures
            final(self).wf(),
            match r {
                Ok(h) => generation != 0 && old(self)@.writable && h@ == delta_header(generation)
                    && final(self)@ == (DeltaView {
                    generation,
                    overlay: no_changes(),
                    wal_bytes: DELTA_HEADER_BYTES,
                    ..old(self)@
                }),
                Err(DeltaError::ZeroGeneration) => generation == 0 && final(self)@ == old(self)@,
                Err(e) => e == DeltaError::ReadOnly && generation != 0 && !old(self)@.writable
                    && final(self)@ == old(self)@,
            },
    {
        if generation == 0 {
            return Err(DeltaError::ZeroGeneration);
        }
        if !self.writable {
            return Err(DeltaError::ReadOnly);
        }
        self.generation = generation;
        self.upserts = PathMap::new();
        self.removed = PathMap::new();
        self.wal_bytes = DELTA_HEADER_BYTES;
        assert(self@.overlay.removed =~= Set::empty());
        Ok(header(generation))
    }

    /// Reads the complete, verified frames that were appended since this read-only snapshot
    /// was opened. `file` is the log as it is now. A partial last frame stays invisible until
    /// a later refresh. Where a frame is damaged, those in front of it are applied.
    pub fn refresh(&mut self, file: &[u8]) -> (r: Result<u64, DeltaError>)
        requires
            old(self).wf(),
        ensures
            final(self).wf(),
            ({
                let before = old(self)@;
                let news = replay(file@.skip(before.wal_bytes as int));
                let read = DeltaView {
                    overlay: all_changed(before.overlay, news.changes),
                    wal_bytes: (before.wal_bytes + news.used) as u64,
                    ..before
                };
                let bad_header = header_error(file@, before.generation);
                if before.writable {
                    r == Ok::<u64, DeltaError>(0) && final(self)@ == before
                } else if bad_header is Some {
                    r == Err::<u64, DeltaError>(bad_header->0) && final(self)@ == before
                } else if file@.len() < before.wal_bytes {
                    r == Err::<u64, DeltaError>(DeltaError::Truncated) && final(self)@ == before
                } else if news.error is Some {
                    r == Err::<u64, DeltaError>(news.error->0) && final(self)@ == read
                } else {
                    r == Ok::<u64, DeltaError>(news.used as u64) && final(self)@ == read
                }
            }),
    {
        if self.writable {
            return Ok(0);
        }
        match read_header(file, self.generation) {
            Err(e) => {
                return Err(e);
            },
            Ok(_) => {},
        }
        let total: u64 = file.len() as u64;
        if total < self.wal_bytes {
            return Err(DeltaError::Truncated);
        }
        let from: u64 = self.wal_bytes;
        let rest = vstd::slice::slice_subrange(file, from as usize, file.len());
        assert(rest@ =~= file@.skip(from as int));
        proof {
            lemma_replay_bounds(rest@);
        }
        match self.replay_frames(rest) {
            Some(e) => Err(e),
            None => Ok(self.wal_bytes - from),
        }
    }

    /// The records that were written, in path order.
    pub fn upserts(&self) -> (r: &[FileRecord])
        requires
            self.wf(),
        ensures
            crate::pathmap::ascending(crate::pathmap::keys_of(r@)),
            crate::pathmap::entries_of(r@) == self@.overlay.upserts,
    {
        self.upserts.as_slice()
    }

    /// The paths that were removed, in path order.
    pub fn removed(&self) -> (r: &[String])
        requires
            self.wf(),
        ensures
            crate::pathmap::ascending(crate::pathmap::keys_of(r@)),
            crate::pathmap::entries_of(r@).dom() == self@.overlay.removed,
    {
        self.removed.as_slice()
    }

    /// Whether a path was removed.
    pub fn is_removed(&self, path: &str) -> (r: bool)
        requires
            self.wf(),
        ensures
            r == self@.overlay.removed.contains(path@),
    {
        self.removed.contains(path)
    }

    /// Whether the base record of a path no longer counts.
    pub fn shadows(&self, path: &str) -> (r: bool)
        requires
            self.wf(),
        ensures
            r == hides(self@.overlay, path@),
    {
        self.removed.contains(path) || self.upserts.contains(path)
    }

    /// The base that the overlay belongs to.
    pub fn generation(&self) -> (r: u64)
        ensures
            r == self@.generation,
    {
        self.generation
    }

    /// How many bytes of the log are valid.
    pub fn wal_bytes(&self) -> (r: u64)
        ensures
            r == self@.wal_bytes,
    {
        self.wal_bytes
    }

    /// How many paths the overlay speaks of.
    pub fn change_count(&self) -> (r: usize)
        requires
            self.wf(),
        ensures
            r == overlay_size(self@.overlay),
    {
        self.upserts.len().saturating_add(self.removed.len())
    }

    /// Whether the log is due for merging into the base.
    pub fn needs_compaction(&self) -> (r: bool)
        ensures
            r == (self@.wal_bytes >= self@.compact_at),
    {
        self.wal_bytes >= self.compact_at
    }
}

/// How many paths an overlay speaks of, as far as a machine counts.
pub open spec fn overlay_size(o: OverlayView) -> usize {
    let n = o.upserts.len() + o.removed.len();
    if n <= usize::MAX {
        n as usize
    } else {
        usize::MAX
    }
}

/// The base record of a path no longer counts.
pub open spec fn hides(o: OverlayView, path: Seq<char>) -> bool {
    o.removed.contains(path) || o.upserts.contains_key(path)
}

/// The content of a file that may not exist.
pub open spec fn file_view(file: Option<&[u8]>) -> Option<Seq<u8>> {
    match file {
        Some(b) => Some(b@),
        None => None,
    }
}

/// What replacing a log by an empty one gives.
pub open spec fn replaced(generation: u64, compact_at: u64, r: Result<DeltaIndex, DeltaError>) -> bool {
    match r {
        Ok(d) => generation != 0 && d.wf() && d@ == (DeltaView {
            generation,
            writable: true,
            overlay: no_changes(),
            wal_bytes: DELTA_HEADER_BYTES,
            compact_at: effective_threshold(compact_at),
        }),
        Err(e) => generation == 0 && e == DeltaError::ZeroGeneration,
    }
}

/// A log that was written change by change is opened again as the overlay that the
/// changes add up to, torn tail or not. It counts as long as its whole frames are, and is
/// cut back to them where it is opened for writing.
pub proof fn law_reopened_log_holds_all_changes(
    generation: u64,
    compact_at: u64,
    writable: bool,
    cs: Seq<ChangeView>,
    tail: Seq<u8>,
)
    requires
        generation != 0,
        forall|i: int| 0 <= i < cs.len() ==> change_bytes(#[trigger] cs[i]).len() <= MAX_FRAME,
        torn(tail),
        delta_header(generation).len() + frames(cs).len() <= u64::MAX,
    ensures
        ({
            let whole = delta_header(generation) + frames(cs);
            opened(Some(whole + tail), generation, compact_at, writable) == Ok::<
                (DeltaView, WalRepair),
                DeltaError,
            >(
                (
                    DeltaView {
                        generation,
                        writable,
                        overlay: all_changed(no_changes(), cs),
                        wal_bytes: whole.len() as u64,
                        compact_at: effective_threshold(compact_at),
                    },
                    WalRepair {
                        truncate_to: if writable && tail.len() > 0 {
                            Some(whole.len() as u64)
                        } else {
                            None
                        },
                        write_header: false,
                    },
                ),
            )
        }),
{
    let h = delta_header(generation);
    let file = h + frames(cs) + tail;
    crate::bytes::lemma_byte_spans();
    crate::bytes::lemma_le_bytes_len(generation as nat, 8);
    crate::bytes::law_le_read_back(generation as nat, 8);
    assert(file.take(8) =~= delta_magic());
    assert(file.subrange(8, 16) =~= crate::bytes::le_bytes(generation as nat, 8));
    assert(file.skip(16) =~= frames(cs) + tail);
    law_replay_gives_back_the_log(cs, tail);
}

/// A log of another generation is never opened.
pub proof fn law_generation_binds_the_log(
    generation: u64,
    other: u64,
    compact_at: u64,
    writable: bool,
    body: Seq<u8>,
)
    requires
        generation != other,
    ensures
        opened(Some(delta_header(generation) + body), other, compact_at, writable) == Err::<
            (DeltaView, WalRepair),
            DeltaError,
        >(
            if other == 0 {
                DeltaError::ZeroGeneration
            } else {
                DeltaError::WrongGeneration
            },
        ),
{
    let file = delta_header(generation) + body;
    crate::bytes::lemma_byte_spans();
    crate::bytes::lemma_le_bytes_len(generation as nat, 8);
    crate::bytes::law_le_read_back(generation as nat, 8);
    assert(file.take(8) =~= delta_magic());
    assert(file.subrange(8, 16) =~= crate::bytes::le_bytes(generation as nat, 8));
}

/// A log with a whole frame whose checksum is not that of its content is never opened: what
/// stands in front of it does not matter.
pub proof fn law_damaged_frames_are_refused(
    generation: u64,
    compact_at: u64,
    writable: bool,
    cs: Seq<ChangeView>,
    payload: Seq<u8>,
    checksum: u32,
    rest: Seq<u8>,
)
    requires
        generation != 0,
        forall|i: int| 0 <= i < cs.len() ==> change_bytes(#[trigger] cs[i]).len() <= MAX_FRAME,
        payload.len() <= MAX_FRAME,
        checksum != crate::checksum::crc32_of(payload),
    ensures
        ({
            let frame = crate::bytes::le_bytes(payload.len(), 4) + crate::bytes::le_bytes(
                checksum as nat,
                4,
            ) + payload;
            opened(
                Some(delta_header(generation) + (frames(cs) + (frame + rest))),
                generation,
                compact_at,
                writable,
            ) == Err::<(DeltaView, WalRepair), DeltaError>(DeltaError::ChecksumMismatch)
        }),
{
    let frame = crate::bytes::le_bytes(payload.len(), 4) + crate::bytes::le_bytes(
        checksum as nat,
        4,
    ) + payload;
    let file = delta_header(generation) + (frames(cs) + (frame + rest));
    crate::bytes::lemma_byte_spans();
    crate::bytes::lemma_le_bytes_len(generation as nat, 8);
    crate::bytes::law_le_read_back(generation as nat, 8);
    assert(file.take(8) =~= delta_magic());
    assert(file.subrange(8, 16) =~= crate::bytes::le_bytes(generation as nat, 8));
    assert(file.skip(16) =~= frames(cs) + (frame + rest));
    let tail = frame + rest;
    crate::bytes::lemma_le_bytes_len(payload.len(), 4);
    crate::bytes::lemma_le_bytes_len(checksum as nat, 4);
    crate::bytes::law_le_read_back(payload.len(), 4);
    crate::bytes::law_le_read_back(checksum as nat, 4);
    assert(tail.take(4) =~= crate::bytes::le_bytes(payload.len(), 4));
    assert(tail.subrange(4, 8) =~= crate::bytes::le_bytes(checksum as nat, 4));
    assert(tail.subrange(8, 8 + payload.len() as int) =~= payload);
    lemma_replay_past(cs, tail);
}

/// A log is refused once a byte of a change in it was changed.
pub proof fn law_one_changed_byte_is_refused(
    generation: u64,
    compact_at: u64,
    writable: bool,
    cs: Seq<ChangeView>,
    payload: Seq<u8>,
    i: int,
    x: u8,
    rest: Seq<u8>,
)
    requires
        generation != 0,
        forall|k: int| 0 <= k < cs.len() ==> change_bytes(#[trigger] cs[k]).len() <= MAX_FRAME,
        payload.len() <= MAX_FRAME,
        0 <= i < payload.len(),
        payload[i] != x,
    ensures
        ({
            let h = crate::bytes::le_bytes(payload.len(), 4) + crate::bytes::le_bytes(
                crate::checksum::crc32_of(payload) as nat,
                4,
            );
            &&& frame_bytes(payload) == h + payload
            &&& opened(
                Some(delta_header(generation) + (frames(cs) + (h + payload.update(i, x) + rest))),
                generation,
                compact_at,
                writable,
            ) == Err::<(DeltaView, WalRepair), DeltaError>(DeltaError::ChecksumMismatch)
        }),
{
    let other = payload.update(i, x);
    crate::checksum::law_one_changed_byte_changes_the_crc(payload, other, i);
    law_damaged_frames_are_refused(
        generation,
        compact_at,
        writable,
        cs,
        other,
        crate::checksum::crc32_of(payload),
        rest,
    );
}

} // verus!
