//! Framed wire protocol between clients and the helper.
//!
//! A frame is a length of four bytes, low byte first, and the payload. It is the same over
//! the pipe of a child process and over an authenticated SSH child. The protocol is no
//! network authentication layer.

use crate::delta::{ChangeView, DeltaChange};
use crate::mounts::{MountInfo, MountView};
use crate::query::{Query, QueryView};
use crate::types::{FileRecord, RecordView, ScanStats};
use vstd::prelude::*;

verus! {

/// Helper and client refuse to talk across versions.
pub const PROTO_VERSION: u32 = 7;

/// The build of the helper; a client replaces an older remote copy.
pub const HELPER_BUILD: u32 = 9;

/// The longest payload.
pub const MAX_FRAME_BYTES: usize = 16_777_216;

/// What a client asks for.
#[derive(Debug)]
pub enum ClientMsg {
    /// Identify and negotiate. Must be the first message.
    Hello { proto: u32 },
    /// Scan the mounts and stream only records inside the approved roots. Empty mounts or
    /// roots scan nothing.
    Scan { mounts: Vec<MountInfo>, roots: Vec<String> },
    /// Scan, filter to the approved roots, and keep the records for later searches.
    ScanResident { mounts: Vec<MountInfo>, roots: Vec<String> },
    /// Query the index that the helper holds.
    Search { query: Query },
    /// Put a batch in the log before it is published.
    ApplyDelta { changes: Vec<DeltaChange> },
    /// Stop scanning and exit cleanly.
    Shutdown,
}

/// What the helper answers.
#[derive(Debug)]
pub enum HelperMsg {
    Hello { proto: u32, build: u32, os: String, arch: String },
    ScanBegin { mount: MountInfo },
    /// Batched to keep the overhead per frame small.
    Records(Vec<FileRecord>),
    ScanDone { mount: MountInfo, stats: ScanStats },
    ScanError { mount: MountInfo, error: String },
    /// Ends one scan request, also one without mounts. Careful clients publish only where
    /// there are no errors; interactive ones may publish what the reachable lanes gave, but
    /// must say so and replace the records of the failed sources.
    ScanComplete { mounts: u32, errors: u32 },
    /// The matched records, sorted and limited.
    SearchResult { hits: Vec<FileRecord>, wall_us: u64 },
    DeltaApplied { changes: u32, wal_bytes: u64, needs_compaction: bool },
    Error(String),
}

/// The statistics of a scan as a mathematical value.
#[verifier::ext_equal]
pub struct StatsView {
    pub records: u64,
    pub dirs: u64,
    pub files: u64,
    pub bytes_read: u64,
    pub wall_ms: u64,
    pub detail: Seq<char>,
}

/// The statistics of a scan.
pub open spec fn stats_view(s: ScanStats) -> StatsView {
    StatsView {
        records: s.records,
        dirs: s.dirs,
        files: s.files,
        bytes_read: s.bytes_read,
        wall_ms: s.wall_ms,
        detail: s.detail@,
    }
}

/// An answer as a mathematical value.
#[verifier::ext_equal]
pub enum AnswerView {
    Hello { proto: u32, build: u32, os: Seq<char>, arch: Seq<char> },
    ScanBegin { mount: MountView },
    Records(Seq<RecordView>),
    ScanDone { mount: MountView, stats: StatsView },
    ScanError { mount: MountView, error: Seq<char> },
    ScanComplete { mounts: u32, errors: u32 },
    SearchResult { hits: Seq<RecordView>, wall_us: u64 },
    DeltaApplied { changes: u32, wal_bytes: u64, needs_compaction: bool },
    Error(Seq<char>),
}

impl View for HelperMsg {
    type V = AnswerView;

    open spec fn view(&self) -> AnswerView {
        match self {
            HelperMsg::Hello { proto, build, os, arch } => AnswerView::Hello {
                proto: *proto,
                build: *build,
                os: os@,
                arch: arch@,
            },
            HelperMsg::ScanBegin { mount } => AnswerView::ScanBegin { mount: mount@ },
            HelperMsg::Records(rs) => AnswerView::Records(crate::types::record_views(rs@)),
            HelperMsg::ScanDone { mount, stats } => AnswerView::ScanDone {
                mount: mount@,
                stats: stats_view(*stats),
            },
            HelperMsg::ScanError { mount, error } => AnswerView::ScanError {
                mount: mount@,
                error: error@,
            },
            HelperMsg::ScanComplete { mounts, errors } => AnswerView::ScanComplete {
                mounts: *mounts,
                errors: *errors,
            },
            HelperMsg::SearchResult { hits, wall_us } => AnswerView::SearchResult {
                hits: crate::types::record_views(hits@),
                wall_us: *wall_us,
            },
            HelperMsg::DeltaApplied { changes, wal_bytes, needs_compaction } =>
                AnswerView::DeltaApplied {
                changes: *changes,
                wal_bytes: *wal_bytes,
                needs_compaction: *needs_compaction,
            },
            HelperMsg::Error(e) => AnswerView::Error(e@),
        }
    }
}

/// Why a frame could not be written or read.
#[derive(Debug, Clone, Copy, PartialEq, Eq, Structural)]
pub enum FrameError {
    /// The payload is longer than a frame may be.
    TooLong(u64),
    /// The input ends inside the payload.
    UnexpectedEof,
}

impl FrameError {
    /// How the error is reported.
    pub open spec fn text(self) -> Seq<char> {
        match self {
            FrameError::TooLong(n) => "frame length "@ + crate::text::decimal(n as nat)
                + " exceeds cap"@,
            FrameError::UnexpectedEof => "failed to fill whole buffer"@,
        }
    }

    /// How the error is reported.
    pub fn message(self) -> (r: String)
        ensures
            r@ == self.text(),
    {
        match self {
            FrameError::TooLong(n) => {
                let d = crate::text::decimal_text(n);
                crate::text::joined3("frame length ", d.as_str(), " exceeds cap")
            },
            FrameError::UnexpectedEof => "failed to fill whole buffer".to_owned(),
        }
    }
}

/// A payload in its frame.
pub open spec fn framed(payload: Seq<u8>) -> Seq<u8> {
    crate::bytes::le_bytes(payload.len(), 4) + payload
}

/// What reading a frame gives: nothing where the input ends in front of or inside the
/// length. The length is looked at before anything is made of the payload.
pub open spec fn frame_in(input: Seq<u8>) -> Result<Option<Seq<u8>>, FrameError> {
    if input.len() < 4 {
        Ok(None)
    } else {
        let n = crate::bytes::le_value(input.take(4));
        if n > MAX_FRAME_BYTES {
            Err(FrameError::TooLong(n as u64))
        } else if input.len() < 4 + n {
            Err(FrameError::UnexpectedEof)
        } else {
            Ok(Some(input.subrange(4, 4 + n as int)))
        }
    }
}

/// Appends a payload in its frame.
pub fn write_frame(out: &mut Vec<u8>, payload: &[u8]) -> (r: Result<(), FrameError>)
    ensures
        match r {
            Ok(_) => payload@.len() <= MAX_FRAME_BYTES && final(out)@ == old(out)@ + framed(payload@),
            Err(e) => payload@.len() > MAX_FRAME_BYTES && e == FrameError::TooLong(
                payload@.len() as u64,
            ) && final(out)@ == old(out)@,
        },
{
    if payload.len() > MAX_FRAME_BYTES {
        return Err(FrameError::TooLong(payload.len() as u64));
    }
    let ghost before = out@;
    crate::bytes::write_u32(out, payload.len() as u32);
    crate::bytes::write_all(out, payload);
    assert(out@ =~= before + framed(payload@));
    Ok(())
}

/// The length of the payload that follows, checked before room is made for it.
pub fn frame_length(head: &[u8]) -> (r: Result<usize, FrameError>)
    requires
        head@.len() == 4,
    ensures
        match r {
            Ok(n) => n == crate::bytes::le_value(head@) && n <= MAX_FRAME_BYTES,
            Err(e) => crate::bytes::le_value(head@) > MAX_FRAME_BYTES && e == FrameError::TooLong(
                crate::bytes::le_value(head@) as u64,
            ),
        },
{
    let n: u32 = crate::bytes::le_u32(head);
    if n as u64 > MAX_FRAME_BYTES as u64 {
        return Err(FrameError::TooLong(n as u64));
    }
    Ok(n as usize)
}

/// Reads the frame at the start of the input.
pub fn read_frame(input: &[u8]) -> (r: Result<Option<Vec<u8>>, FrameError>)
    ensures
        match r {
            Ok(Some(p)) => frame_in(input@) == Ok::<Option<Seq<u8>>, FrameError>(Some(p@)),
            Ok(None) => frame_in(input@) == Ok::<Option<Seq<u8>>, FrameError>(None),
            Err(e) => frame_in(input@) == Err::<Option<Seq<u8>>, FrameError>(e),
        },
{
    let total: usize = input.len();
    if total < 4 {
        return Ok(None);
    }
    let head = vstd::slice::slice_subrange(input, 0, 4);
    assert(head@ =~= input@.take(4));
    match frame_length(head) {
        Err(e) => Err(e),
        Ok(n) => {
            if total - 4 < n {
                return Err(FrameError::UnexpectedEof);
            }
            Ok(Some(crate::bytes::to_vec(vstd::slice::slice_subrange(input, 4, 4 + n))))
        },
    }
}

/// A frame is read as it was written, whatever follows it.
pub proof fn law_frame_read_back(payload: Seq<u8>, rest: Seq<u8>)
    requires
        payload.len() <= MAX_FRAME_BYTES,
    ensures
        frame_in(framed(payload) + rest) == Ok::<Option<Seq<u8>>, FrameError>(Some(payload)),
        (framed(payload) + rest).skip(framed(payload).len() as int) == rest,
{
    let s = framed(payload) + rest;
    crate::bytes::lemma_byte_spans();
    crate::bytes::lemma_le_bytes_len(payload.len(), 4);
    crate::bytes::law_le_read_back(payload.len(), 4);
    assert(s.take(4) =~= crate::bytes::le_bytes(payload.len(), 4));
    assert(s.subrange(4, 4 + payload.len() as int) =~= payload);
    assert(s.skip(framed(payload).len() as int) =~= rest);
}

} // verus!
