//! The durable pair of a base and its log, and how it survives an interrupted compaction.
//!
//! A compaction writes the merged base beside the old one as a stage, then a marker with
//! the new generation, empties the log for that generation, moves the stage over the base
//! and takes the marker away. Whatever step it is cut off at, opening the pair ends in one
//! coherent state, and a complete log is never thrown away unread.

use crate::compact::BuildError;
use crate::compact_index::{CompactIndex, CompactView, IndexError};
use crate::delta::{
    ChangeView, DeltaChange, DeltaError, DeltaErrorKind, DeltaIndex, DeltaView, OverlayView,
    WalRepair,
};
use crate::query::Query;
use crate::rank::{SearchHit, SearchStats};
use crate::types::{FileRecord, RecordView};
use vstd::prelude::*;

verus! {

/// What lies on disk: the content of each file, or none where there is no such file.
pub struct StoreFiles {
    pub base: Option<Vec<u8>>,
    /// A marker beside the base forbids its use.
    pub stale: bool,
    pub log: Option<Vec<u8>>,
    pub marker: Option<Vec<u8>>,
    pub stage: Option<Vec<u8>>,
    /// A marker beside the stage forbids its use.
    pub stage_stale: bool,
}

/// The files as mathematical values.
#[verifier::ext_equal]
pub struct FilesView {
    pub base: Option<Seq<u8>>,
    pub stale: bool,
    pub log: Option<Seq<u8>>,
    pub marker: Option<Seq<u8>>,
    pub stage: Option<Seq<u8>>,
    pub stage_stale: bool,
}

/// The content of a file that may not exist.
pub open spec fn content(file: Option<Vec<u8>>) -> Option<Seq<u8>> {
    match file {
        Some(b) => Some(b@),
        None => None,
    }
}

impl View for StoreFiles {
    type V = FilesView;

    open spec fn view(&self) -> FilesView {
        FilesView {
            base: content(self.base),
            stale: self.stale,
            log: content(self.log),
            marker: content(self.marker),
            stage: content(self.stage),
            stage_stale: self.stage_stale,
        }
    }
}

/// Why a pair could not be opened or compacted.
#[derive(Debug, Clone, Copy, PartialEq, Eq, Structural)]
pub enum StoreError {
    /// There is no base.
    NoBase,
    /// A stage is needed, and there is none.
    NoStage,
    /// The base cannot be used.
    Base(IndexError),
    /// The stage cannot be used.
    Stage(IndexError),
    /// The log cannot be used.
    Log(DeltaError),
    /// The marker is not eight bytes long.
    MarkerLength,
    /// The marker names generation zero.
    ZeroMarker,
    /// The marker and the stage are of different generations.
    GenerationsDiffer,
    /// The replacement base could not be built.
    Build(BuildError),
}

impl StoreError {
    /// How the error is reported.
    pub open spec fn text(self) -> Seq<char> {
        match self {
            StoreError::NoBase => "compact index does not exist"@,
            StoreError::NoStage => "compaction stage does not exist"@,
            StoreError::Base(e) => "open compact index: "@ + e.text(),
            StoreError::Stage(e) => "open compaction stage: "@ + e.text(),
            StoreError::Log(e) => "open delta index: "@ + e.text(),
            StoreError::MarkerLength => "invalid compaction marker length"@,
            StoreError::ZeroMarker => "invalid zero compaction generation"@,
            StoreError::GenerationsDiffer => "compaction marker and staged base generations differ"@,
            StoreError::Build(e) => "build staged replacement compact base: "@ + e.text(),
        }
    }

    /// How the error is reported.
    pub fn message(self) -> (r: String)
        ensures
            r@ == self.text(),
    {
        match self {
            StoreError::NoBase => "compact index does not exist".to_owned(),
            StoreError::NoStage => "compaction stage does not exist".to_owned(),
            StoreError::Base(e) => {
                let t = e.message();
                crate::text::joined("open compact index: ", t.as_str())
            },
            StoreError::Stage(e) => {
                let t = e.message();
                crate::text::joined("open compaction stage: ", t.as_str())
            },
            StoreError::Log(e) => {
                let t = e.message();
                crate::text::joined("open delta index: ", t.as_str())
            },
            StoreError::MarkerLength => "invalid compaction marker length".to_owned(),
            StoreError::ZeroMarker => "invalid zero compaction generation".to_owned(),
            StoreError::GenerationsDiffer => "compaction marker and staged base generations differ".to_owned(),
            StoreError::Build(e) => {
                let t = e.message();
                crate::text::joined("build staged replacement compact base: ", t.as_str())
            },
        }
    }
}

/// What has to be done to the log on disk.
#[derive(Debug, Clone, Copy, PartialEq, Eq, Structural)]
pub enum LogStep {
    /// Keep it, repaired.
    Keep(WalRepair),
    /// Put a log in its place that holds nothing but a header.
    Fresh,
}

/// A recovered pair, and what has to be done on disk before it is used: first the log, then
/// the stage moves over the base, then marker and stage are removed.
pub struct Recovery {
    pub base: CompactIndex,
    pub delta: DeltaIndex,
    pub log: LogStep,
    /// The stage becomes the base.
    pub publish: bool,
}

/// A recovery as a mathematical value.
#[verifier::ext_equal]
pub struct RecoveryView {
    pub base: CompactView,
    pub delta: DeltaView,
    pub log: LogStep,
    pub publish: bool,
}

impl View for Recovery {
    type V = RecoveryView;

    open spec fn view(&self) -> RecoveryView {
        RecoveryView {
            base: self.base@,
            delta: self.delta@,
            log: self.log,
            publish: self.publish,
        }
    }
}

/// The threshold of a log: the caller's, or the default.
pub open spec fn threshold_of(compact_at: Option<u64>) -> u64 {
    match compact_at {
        Some(t) => t,
        None => crate::delta::DEFAULT_COMPACT_AT,
    }
}

/// What opening the base gives. A marker that forbids its use is looked at first.
#[verifier::opaque]
pub open spec fn base_opened(f: FilesView) -> Result<CompactView, StoreError> {
    match f.base {
        None => if f.stale {
            Err(StoreError::Base(IndexError::Stale))
        } else {
            Err(StoreError::NoBase)
        },
        Some(b) => match crate::compact_index::opened_index(b, f.stale) {
            Ok(v) => Ok(v),
            Err(e) => Err(StoreError::Base(e)),
        },
    }
}

/// What opening the stage gives.
#[verifier::opaque]
pub open spec fn stage_opened(f: FilesView) -> Result<CompactView, StoreError> {
    match f.stage {
        None => if f.stage_stale {
            Err(StoreError::Stage(IndexError::Stale))
        } else {
            Err(StoreError::NoStage)
        },
        Some(b) => match crate::compact_index::opened_index(b, f.stage_stale) {
            Ok(v) => Ok(v),
            Err(e) => Err(StoreError::Stage(e)),
        },
    }
}

/// What opening the log for writing gives.
#[verifier::opaque]
pub open spec fn log_opened(log: Option<Seq<u8>>, generation: u64, at: u64) -> Result<
    (DeltaView, WalRepair),
    DeltaError,
> {
    crate::delta::opened(log, generation, at, true)
}

/// A log that holds nothing.
pub open spec fn empty_log(generation: u64, at: u64) -> DeltaView {
    DeltaView {
        generation,
        writable: true,
        overlay: crate::delta::no_changes(),
        wal_bytes: crate::delta::DELTA_HEADER_BYTES,
        compact_at: crate::delta::effective_threshold(at),
    }
}

/// The log may be one of the staged generation.
pub open spec fn may_be_staged(e: DeltaError) -> bool {
    e.class() == DeltaErrorKind::InvalidData || e.class() == DeltaErrorKind::UnexpectedEof
}

/// The log was cut off while its header was rewritten. Only that demonstrably incomplete
/// state is recovered from: a complete but invalid header, frame, generation or checksum
/// is an error.
pub open spec fn is_torn(e: DeltaError) -> bool {
    e.class() == DeltaErrorKind::UnexpectedEof
}

/// The log of a generation; a torn one is replaced.
pub open spec fn log_or_fresh(f: FilesView, generation: u64, at: u64) -> Result<
    (DeltaView, LogStep),
    StoreError,
> {
    match log_opened(f.log, generation, at) {
        Ok(o) => Ok((o.0, LogStep::Keep(o.1))),
        Err(e) => if is_torn(e) {
            Ok((empty_log(generation, at), LogStep::Fresh))
        } else {
            Err(StoreError::Log(e))
        },
    }
}

/// A log that ends inside its header stands beside a stage.
pub open spec fn short_beside_stage(f: FilesView) -> bool {
    f.stage is Some && f.log is Some && f.log->0.len() < crate::delta::DELTA_HEADER_BYTES
}

/// Opening a pair that no marker stands beside. Where the log does not fit the base but a
/// stage is there, the marker was lost and the stage is taken.
pub open spec fn unmarked(f: FilesView, at: u64) -> Result<RecoveryView, StoreError> {
    match base_opened(f) {
        Err(e) => Err(e),
        Ok(b) => {
            let current = if short_beside_stage(f) {
                Err(DeltaError::TornHeader)
            } else {
                log_opened(f.log, b.generation, at)
            };
            match current {
                Ok(o) => Ok(
                    RecoveryView { base: b, delta: o.0, log: LogStep::Keep(o.1), publish: false },
                ),
                Err(e) => if may_be_staged(e) && f.stage is Some {
                    match stage_opened(f) {
                        Err(e) => Err(e),
                        Ok(s) => match log_or_fresh(f, s.generation, at) {
                            Err(e) => Err(e),
                            Ok(l) => Ok(
                                RecoveryView { base: s, delta: l.0, log: l.1, publish: true },
                            ),
                        },
                    }
                } else {
                    Err(StoreError::Log(e))
                },
            }
        },
    }
}

/// The generation that a marker names.
pub open spec fn marked_generation(marker: Seq<u8>) -> Result<u64, StoreError> {
    if marker.len() != 8 {
        Err(StoreError::MarkerLength)
    } else if crate::bytes::le_value(marker) == 0 {
        Err(StoreError::ZeroMarker)
    } else {
        Ok(crate::bytes::le_value(marker) as u64)
    }
}

/// The log that goes with a stage whose marker stands: the stage holds the changes of the
/// old log.
pub open spec fn log_for_stage(f: FilesView, old: u64, generation: u64, at: u64) -> Result<
    (DeltaView, LogStep),
    StoreError,
> {
    if f.log is None || f.log->0.len() < crate::delta::DELTA_HEADER_BYTES {
        Ok((empty_log(generation, at), LogStep::Fresh))
    } else {
        match log_opened(f.log, old, at) {
            Ok(o) => Ok((empty_log(generation, at), LogStep::Fresh)),
            Err(e) => if may_be_staged(e) {
                log_or_fresh(f, generation, at)
            } else {
                Err(StoreError::Log(e))
            },
        }
    }
}

/// Opening a pair that a marker stands beside.
pub open spec fn marked(f: FilesView, generation: u64, at: u64) -> Result<
    RecoveryView,
    StoreError,
> {
    match base_opened(f) {
        Err(e) => Err(e),
        Ok(b) => if b.generation == generation {
            match log_or_fresh(f, generation, at) {
                Err(e) => Err(e),
                Ok(l) => Ok(RecoveryView { base: b, delta: l.0, log: l.1, publish: false }),
            }
        } else {
            match stage_opened(f) {
                Err(e) => Err(e),
                Ok(s) => if s.generation != generation {
                    Err(StoreError::GenerationsDiffer)
                } else {
                    match log_for_stage(f, b.generation, generation, at) {
                        Err(e) => Err(e),
                        Ok(l) => Ok(RecoveryView { base: s, delta: l.0, log: l.1, publish: true }),
                    }
                },
            }
        },
    }
}

/// What opening a pair gives.
pub open spec fn recovered(f: FilesView, at: u64) -> Result<RecoveryView, StoreError> {
    match f.marker {
        None => unmarked(f, at),
        Some(m) => match marked_generation(m) {
            Err(e) => Err(e),
            Ok(generation) => marked(f, generation, at),
        },
    }
}

fn threshold(compact_at: Option<u64>) -> (r: u64)
    ensures
        r == threshold_of(compact_at),
{
    match compact_at {
        Some(t) => t,
        None => crate::delta::DEFAULT_COMPACT_AT,
    }
}

/// Whether the log may be one of the staged generation.
pub fn retry_delta_with_staged_generation(e: DeltaError) -> (r: bool)
    ensures
        r == may_be_staged(e),
{
    match e.kind() {
        DeltaErrorKind::InvalidData | DeltaErrorKind::UnexpectedEof => true,
        _ => false,
    }
}

/// Whether the log was cut off inside its header.
pub fn recoverable_delta_error(e: DeltaError) -> (r: bool)
    ensures
        r == is_torn(e),
{
    match e.kind() {
        DeltaErrorKind::UnexpectedEof => true,
        _ => false,
    }
}

/// The generation that a marker names.
pub fn read_compaction_marker(marker: &[u8]) -> (r: Result<u64, StoreError>)
    ensures
        r == marked_generation(marker@),
        r matches Ok(g) ==> g != 0,
{
    if marker.len() != 8 {
        return Err(StoreError::MarkerLength);
    }
    let generation: u64 = crate::bytes::le_u64(marker);
    if generation == 0 {
        return Err(StoreError::ZeroMarker);
    }
    Ok(generation)
}

/// The marker that names a generation.
pub open spec fn marker_bytes(generation: u64) -> Seq<u8> {
    crate::bytes::le_bytes(generation as nat, 8)
}

/// The marker that names a generation.
pub fn compaction_marker_bytes(generation: u64) -> (r: Vec<u8>)
    ensures
        r@ == marker_bytes(generation),
{
    let mut out: Vec<u8> = Vec::new();
    crate::bytes::write_u64(&mut out, generation);
    assert(out@ =~= marker_bytes(generation));
    out
}

/// A marker is read as it was written.
pub proof fn law_marker_read_back(generation: u64)
    requires
        generation != 0,
    ensures
        marked_generation(marker_bytes(generation)) == Ok::<u64, StoreError>(generation),
{
    crate::bytes::lemma_byte_spans();
    crate::bytes::lemma_le_bytes_len(generation as nat, 8);
    crate::bytes::law_le_read_back(generation as nat, 8);
}

fn open_base(base: Option<Vec<u8>>, stale: bool, Ghost(f): Ghost<FilesView>) -> (r: Result<
    CompactIndex,
    StoreError,
>)
    requires
        f.base == content(base),
        f.stale == stale,
    ensures
        match r {
            Ok(b) => b.wf() && base_opened(f) == Ok::<CompactView, StoreError>(b@),
            Err(e) => base_opened(f) == Err::<CompactView, StoreError>(e),
        },
{
    reveal(base_opened);
    match base {
        None => if stale {
            Err(StoreError::Base(IndexError::Stale))
        } else {
            Err(StoreError::NoBase)
        },
        Some(b) => match CompactIndex::open(b, stale) {
            Ok(v) => Ok(v),
            Err(e) => Err(StoreError::Base(e)),
        },
    }
}

fn open_stage(stage: Option<Vec<u8>>, stale: bool, Ghost(f): Ghost<FilesView>) -> (r: Result<
    CompactIndex,
    StoreError,
>)
    requires
        f.stage == content(stage),
        f.stage_stale == stale,
    ensures
        match r {
            Ok(b) => b.wf() && stage_opened(f) == Ok::<CompactView, StoreError>(b@),
            Err(e) => stage_opened(f) == Err::<CompactView, StoreError>(e),
        },
{
    reveal(stage_opened);
    match stage {
        None => if stale {
            Err(StoreError::Stage(IndexError::Stale))
        } else {
            Err(StoreError::NoStage)
        },
        Some(b) => match CompactIndex::open(b, stale) {
            Ok(v) => Ok(v),
            Err(e) => Err(StoreError::Stage(e)),
        },
    }
}

fn open_delta_writer(log: &Option<Vec<u8>>, generation: u64, at: u64) -> (r: Result<
    (DeltaIndex, WalRepair),
    DeltaError,
>)
    ensures
        match r {
            Ok((d, w)) => d.wf() && log_opened(content(*log), generation, at)
                == Ok::<(DeltaView, WalRepair), DeltaError>((d@, w)),
            Err(e) => log_opened(content(*log), generation, at) == Err::<
                (DeltaView, WalRepair),
                DeltaError,
            >(e),
        },
{
    reveal(log_opened);
    match log {
        Some(b) => DeltaIndex::open_with_threshold(Some(b.as_slice()), generation, at),
        None => DeltaIndex::open_with_threshold(None, generation, at),
    }
}

fn replace_empty_delta(generation: u64, at: u64) -> (r: Result<(DeltaIndex, LogStep), StoreError>)
    ensures
        generation != 0 ==> (r matches Ok(l) && l.0.wf() && l.0@ == empty_log(generation, at) && l.1
            == LogStep::Fresh),
{
    match DeltaIndex::replace_empty_with_threshold(generation, at) {
        Ok(d) => Ok((d, LogStep::Fresh)),
        Err(e) => Err(StoreError::Log(e)),
    }
}

fn open_or_replace(log: &Option<Vec<u8>>, generation: u64, at: u64, Ghost(f): Ghost<FilesView>) -> (r:
    Result<(DeltaIndex, LogStep), StoreError>)
    requires
        f.log == content(*log),
    ensures
        match r {
            Ok(l) => l.0.wf() && log_or_fresh(f, generation, at) == Ok::<
                (DeltaView, LogStep),
                StoreError,
            >((l.0@, l.1)),
            Err(e) => log_or_fresh(f, generation, at) == Err::<(DeltaView, LogStep), StoreError>(e),
        },
{
    match open_delta_writer(log, generation, at) {
        Ok((d, w)) => Ok((d, LogStep::Keep(w))),
        Err(e) => if recoverable_delta_error(e) {
            reveal(log_opened);
            replace_empty_delta(generation, at)
        } else {
            Err(StoreError::Log(e))
        },
    }
}

fn open_for_stage(
    log: &Option<Vec<u8>>,
    old_generation: u64,
    generation: u64,
    at: u64,
    Ghost(f): Ghost<FilesView>,
) -> (r: Result<(DeltaIndex, LogStep), StoreError>)
    requires
        f.log == content(*log),
        generation != 0,
    ensures
        match r {
            Ok(l) => l.0.wf() && log_for_stage(f, old_generation, generation, at) == Ok::<
                (DeltaView, LogStep),
                StoreError,
            >((l.0@, l.1)),
            Err(e) => log_for_stage(f, old_generation, generation, at) == Err::<
                (DeltaView, LogStep),
                StoreError,
            >(e),
        },
{
    let short: bool = match log {
        None => true,
        Some(b) => (b.len() as u64) < crate::delta::DELTA_HEADER_BYTES,
    };
    if short {
        return replace_empty_delta(generation, at);
    }
    match open_delta_writer(log, old_generation, at) {
        Ok((d, _)) => {
            let mut d = d;
            proof {
                reveal(log_opened);
                assert(d@.writable && d@.compact_at == crate::delta::effective_threshold(at));
            }
            match d.reset(generation) {
                Ok(_) => {
                    assert(d@ =~= empty_log(generation, at));
                    Ok((d, LogStep::Fresh))
                },
                Err(e) => Err(StoreError::Log(e)),
            }
        },
        Err(e) => if retry_delta_with_staged_generation(e) {
            open_or_replace(log, generation, at, Ghost(f))
        } else {
            Err(StoreError::Log(e))
        },
    }
}

fn open_unmarked(
    base: CompactIndex,
    log: Option<Vec<u8>>,
    stage: Option<Vec<u8>>,
    stage_stale: bool,
    at: u64,
    Ghost(f): Ghost<FilesView>,
) -> (r: Result<Recovery, StoreError>)
    requires
        base.wf(),
        base_opened(f) == Ok::<CompactView, StoreError>(base@),
        f.log == content(log),
        f.stage == content(stage),
        f.stage_stale == stage_stale,
    ensures
        match r {
            Ok(x) => x.base.wf() && x.delta.wf() && unmarked(f, at) == Ok::<
                RecoveryView,
                StoreError,
            >(x@),
            Err(e) => unmarked(f, at) == Err::<RecoveryView, StoreError>(e),
        },
{
    let staged: bool = stage.is_some();
    let short: bool = staged && match &log {
        Some(b) => (b.len() as u64) < crate::delta::DELTA_HEADER_BYTES,
        None => false,
    };
    let current = if short {
        Err(DeltaError::TornHeader)
    } else {
        open_delta_writer(&log, base.generation(), at)
    };
    match current {
        Ok((delta, w)) => Ok(Recovery { base, delta, log: LogStep::Keep(w), publish: false }),
        Err(e) => {
            if !retry_delta_with_staged_generation(e) || !staged {
                return Err(StoreError::Log(e));
            }
            match open_stage(stage, stage_stale, Ghost(f)) {
                Err(e) => Err(e),
                Ok(s) => match open_or_replace(&log, s.generation(), at, Ghost(f)) {
                    Err(e) => Err(e),
                    Ok((delta, step)) => Ok(Recovery { base: s, delta, log: step, publish: true }),
                },
            }
        },
    }
}

fn open_marked(
    base: CompactIndex,
    log: Option<Vec<u8>>,
    stage: Option<Vec<u8>>,
    stage_stale: bool,
    generation: u64,
    at: u64,
    Ghost(f): Ghost<FilesView>,
) -> (r: Result<Recovery, StoreError>)
    requires
        base.wf(),
        generation != 0,
        base_opened(f) == Ok::<CompactView, StoreError>(base@),
        f.log == content(log),
        f.stage == content(stage),
        f.stage_stale == stage_stale,
    ensures
        match r {
            Ok(x) => x.base.wf() && x.delta.wf() && marked(f, generation, at) == Ok::<
                RecoveryView,
                StoreError,
            >(x@),
            Err(e) => marked(f, generation, at) == Err::<RecoveryView, StoreError>(e),
        },
{
    if base.generation() == generation {
        return match open_or_replace(&log, generation, at, Ghost(f)) {
            Err(e) => Err(e),
            Ok((delta, step)) => Ok(Recovery { base, delta, log: step, publish: false }),
        };
    }
    match open_stage(stage, stage_stale, Ghost(f)) {
        Err(e) => Err(e),
        Ok(s) => {
            if s.generation() != generation {
                return Err(StoreError::GenerationsDiffer);
            }
            match open_for_stage(&log, base.generation(), generation, at, Ghost(f)) {
                Err(e) => Err(e),
                Ok((delta, step)) => Ok(Recovery { base: s, delta, log: step, publish: true }),
            }
        },
    }
}

/// Opens the pair of a base and its log from what lies on disk, and finishes a compaction
/// that was cut off.
pub fn open_durable_pair(files: StoreFiles, compact_at: Option<u64>) -> (r: Result<
    Recovery,
    StoreError,
>)
    ensures
        match r {
            Ok(x) => x.base.wf() && x.delta.wf() && recovered(files@, threshold_of(compact_at))
                == Ok::<RecoveryView, StoreError>(x@),
            Err(e) => recovered(files@, threshold_of(compact_at)) == Err::<
                RecoveryView,
                StoreError,
            >(e),
        },
{
    let ghost f = files@;
    let at: u64 = threshold(compact_at);
    let StoreFiles { base, stale, log, marker, stage, stage_stale } = files;
    let marked_as: Option<u64> = match marker {
        None => None,
        Some(m) => match read_compaction_marker(m.as_slice()) {
            Err(e) => {
                return Err(e);
            },
            Ok(g) => Some(g),
        },
    };
    match open_base(base, stale, Ghost(f)) {
        Err(e) => Err(e),
        Ok(b) => match marked_as {
            None => open_unmarked(b, log, stage, stage_stale, at, Ghost(f)),
            Some(g) => open_marked(b, log, stage, stage_stale, g, at, Ghost(f)),
        },
    }
}

// ---------------------------------------------------------------------------
// Reading without writing

/// Why no pair could be opened for reading.
#[derive(Debug, Clone, Copy, PartialEq, Eq, Structural)]
pub enum SnapshotError {
    /// The base or the stage cannot be used.
    Index(IndexError),
    /// The log cannot be used with the base, and there is no stage to try.
    Delta(DeltaError),
    /// The log fits neither the base nor the stage.
    Neither { current: DeltaError, staged: DeltaError },
}

impl SnapshotError {
    /// How the error is reported.
    pub open spec fn text(self) -> Seq<char> {
        match self {
            SnapshotError::Index(e) => e.text(),
            SnapshotError::Delta(e) => e.text(),
            SnapshotError::Neither { current, staged } => "neither current nor staged base matches the delta: current="@ + current.text() + "; staged="@ + staged.text(),
        }
    }

    /// How the error is reported.
    pub fn message(self) -> (r: String)
        ensures
            r@ == self.text(),
    {
        match self {
            SnapshotError::Index(e) => e.message(),
            SnapshotError::Delta(e) => e.message(),
            SnapshotError::Neither { current, staged } => {
                let t = current.message();
                let u = staged.message();
                let head = crate::text::joined3("neither current nor staged base matches the delta: current=", t.as_str(), "; staged=");
                crate::text::joined(head.as_str(), u.as_str())
            },
        }
    }
}

/// What opening a base and its log for reading gives. The current pair is preferred; the
/// stage of a running compaction is used only where its generation is that of the log.
pub open spec fn snapshot_opened(
    base: Seq<u8>,
    stale: bool,
    log: Option<Seq<u8>>,
    marked: bool,
    stage: Option<Seq<u8>>,
    stage_stale: bool,
) -> Result<(CompactView, Option<DeltaView>), SnapshotError> {
    let at = crate::delta::DEFAULT_COMPACT_AT;
    match crate::compact_index::opened_index(base, stale) {
        Err(e) => Err(SnapshotError::Index(e)),
        Ok(b) => if log is None {
            Ok((b, None))
        } else {
            match crate::delta::opened(log, b.generation, at, false) {
                Ok(d) => Ok((b, Some(d.0))),
                Err(current) => if !marked || stage is None {
                    Err(SnapshotError::Delta(current))
                } else {
                    match crate::compact_index::opened_index(stage->0, stage_stale) {
                        Err(e) => Err(SnapshotError::Index(e)),
                        Ok(s) => match crate::delta::opened(log, s.generation, at, false) {
                            Ok(d) => Ok((s, Some(d.0))),
                            Err(staged) => Err(SnapshotError::Neither { current, staged }),
                        },
                    }
                },
            }
        },
    }
}

impl CompactIndex {
    /// Opens a coherent pair for reading, on either side of a running compaction. `marked`
    /// says whether the marker of a compaction stands.
    pub fn open_with_delta_snapshot(
        base: Vec<u8>,
        stale: bool,
        log: Option<Vec<u8>>,
        marked: bool,
        stage: Option<Vec<u8>>,
        stage_stale: bool,
    ) -> (r: Result<(CompactIndex, Option<DeltaIndex>), SnapshotError>)
        ensures
            ({
                let x = snapshot_opened(
                    base@,
                    stale,
                    content(log),
                    marked,
                    content(stage),
                    stage_stale,
                );
                match r {
                    Ok((b, d)) => b.wf() && (d matches Some(d) ==> d.wf()) && x == Ok::<
                        (CompactView, Option<DeltaView>),
                        SnapshotError,
                    >(
                        (
                            b@,
                            match d {
                                Some(d) => Some(d@),
                                None => None,
                            },
                        ),
                    ),
                    Err(e) => x == Err::<(CompactView, Option<DeltaView>), SnapshotError>(e),
                }
            }),
    {
        let base = match CompactIndex::open(base, stale) {
            Err(e) => {
                return Err(SnapshotError::Index(e));
            },
            Ok(b) => b,
        };
        let log = match log {
            None => {
                return Ok((base, None));
            },
            Some(l) => l,
        };
        let current = match DeltaIndex::open_snapshot(Some(log.as_slice()), base.generation()) {
            Ok((d, _)) => {
                return Ok((base, Some(d)));
            },
            Err(e) => e,
        };
        if !marked {
            return Err(SnapshotError::Delta(current));
        }
        match stage {
            None => Err(SnapshotError::Delta(current)),
            Some(s) => match CompactIndex::open(s, stage_stale) {
                Err(e) => Err(SnapshotError::Index(e)),
                Ok(s) => match DeltaIndex::open_snapshot(Some(log.as_slice()), s.generation()) {
                    Ok((d, _)) => Ok((s, Some(d))),
                    Err(staged) => Err(SnapshotError::Neither { current, staged }),
                },
            },
        }
    }
}

/// A pair that is read is of one generation.
pub proof fn law_snapshot_is_of_one_generation(
    base: Seq<u8>,
    stale: bool,
    log: Option<Seq<u8>>,
    marked: bool,
    stage: Option<Seq<u8>>,
    stage_stale: bool,
)
    ensures
        snapshot_opened(base, stale, log, marked, stage, stage_stale) matches Ok(p) ==> (p.1 matches
            Some(d) ==> d.generation == p.0.generation),
{
}

// ---------------------------------------------------------------------------
// The store

/// A base and its log, in use.
pub struct DurableStore {
    base: CompactIndex,
    delta: DeltaIndex,
}

/// A store as a mathematical value.
#[verifier::ext_equal]
pub struct StoreView {
    pub base: CompactView,
    pub delta: DeltaView,
}

impl View for DurableStore {
    type V = StoreView;

    closed spec fn view(&self) -> StoreView {
        StoreView { base: self.base@, delta: self.delta@ }
    }
}

/// What a compaction leaves to be written, in this order: the stage, the marker and the
/// header of the emptied log.
pub struct Compaction {
    pub image: Vec<u8>,
    pub marker: Vec<u8>,
    pub header: Vec<u8>,
    pub records: u64,
    pub bytes: u64,
}

/// How many changes were taken in, how long the log is now, and whether it is due.
#[derive(Debug, Clone, Copy, PartialEq, Eq, Structural)]
pub struct Applied {
    pub changes: u32,
    pub wal_bytes: u64,
    pub due: bool,
}

/// The numbers of all blocks.
pub open spec fn every_block(v: CompactView) -> Seq<u32> {
    Seq::new(v.blocks.len(), |i: int| i as u32)
}

/// All records of the base, or why they could not be read.
pub open spec fn base_records(v: CompactView) -> Result<Seq<RecordView>, IndexError> {
    crate::compact_index::standing_in(v, crate::delta::no_changes(), every_block(v))
}

/// `rs` are the records of the pair: those of the base that the overlay leaves standing, and
/// those that were written.
pub open spec fn merges(s: StoreView, rs: Seq<RecordView>) -> bool {
    exists|us: Seq<RecordView>| #[trigger]
        crate::compact_index::lists_records(us, s.delta.overlay.upserts) && base_records(s.base)
            is Ok && rs == crate::compact_index::visible(s.delta.overlay, base_records(s.base)->Ok_0)
            + us
}

/// The log after one more change.
pub open spec fn logged(d: DeltaView, c: ChangeView) -> DeltaView {
    let n = d.wal_bytes + crate::delta::frame_bytes(crate::delta::change_bytes(c)).len();
    DeltaView {
        overlay: crate::delta::changed(d.overlay, c),
        wal_bytes: if n <= u64::MAX {
            n as u64
        } else {
            u64::MAX
        },
        ..d
    }
}

/// The log after some changes.
pub open spec fn all_logged(d: DeltaView, cs: Seq<ChangeView>) -> DeltaView
    decreases cs.len(),
{
    if cs.len() == 0 {
        d
    } else {
        logged(all_logged(d, cs.drop_last()), cs.last())
    }
}

/// The changes as mathematical values.
pub open spec fn change_views(cs: Seq<DeltaChange>) -> Seq<ChangeView> {
    Seq::new(cs.len(), |i: int| cs[i]@)
}

/// The change can be put in a frame.
pub open spec fn loggable(c: ChangeView) -> bool {
    crate::delta::change_bytes(c).len() <= crate::delta::MAX_FRAME
}

/// How many changes there are up to the first that cannot be logged.
pub open spec fn loggable_run(cs: Seq<ChangeView>) -> nat
    decreases cs.len(),
{
    if cs.len() == 0 {
        0
    } else {
        let front = loggable_run(cs.drop_last());
        if front == cs.len() - 1 && loggable(cs.last()) {
            cs.len()
        } else {
            front
        }
    }
}

proof fn lemma_run(cs: Seq<ChangeView>, i: int)
    requires
        0 <= i < cs.len(),
        loggable_run(cs.take(i)) == i,
        !loggable(cs[i]),
    ensures
        loggable_run(cs) == i,
    decreases cs.len(),
{
    if i == cs.len() - 1 {
        assert(cs.drop_last() =~= cs.take(i));
    } else {
        assert(cs.drop_last().take(i) =~= cs.take(i));
        lemma_run(cs.drop_last(), i);
    }
}

/// The content of some frames, one behind the other.
pub open spec fn frames_joined(frames: Seq<Vec<u8>>) -> Seq<u8>
    decreases frames.len(),
{
    if frames.len() == 0 {
        Seq::empty()
    } else {
        frames_joined(frames.drop_last()) + frames.last()@
    }
}

proof fn lemma_frames_push(cs: Seq<ChangeView>, c: ChangeView)
    ensures
        crate::delta::frames(cs.push(c)) == crate::delta::frames(cs) + crate::delta::frame_bytes(
            crate::delta::change_bytes(c),
        ),
    decreases cs.len(),
{
    let f = crate::delta::frame_bytes(crate::delta::change_bytes(c));
    if cs.len() == 0 {
        assert(cs.push(c).drop_first() =~= Seq::empty());
        assert(crate::delta::frames(cs.push(c)) =~= f + crate::delta::frames(
            Seq::<ChangeView>::empty(),
        ));
        assert(crate::delta::frames(cs) + f =~= f);
        assert(f + Seq::<u8>::empty() =~= f);
    } else {
        lemma_frames_push(cs.drop_first(), c);
        assert(cs.push(c).drop_first() =~= cs.drop_first().push(c));
        let head = crate::delta::frame_bytes(crate::delta::change_bytes(cs[0]));
        assert(head + (crate::delta::frames(cs.drop_first()) + f) =~= head + crate::delta::frames(
            cs.drop_first(),
        ) + f);
    }
}

fn build_all(records: &Vec<FileRecord>, generation: u64) -> (r: Result<
    (Vec<u8>, crate::compact::BuildStats),
    BuildError,
>)
    ensures
        match r {
            Ok((image, stats)) => records@.len() <= u32::MAX && crate::compact::built(
                image@,
                stats,
                generation,
                crate::types::record_views(records@),
            ),
            Err(e) => build_fails(crate::types::record_views(records@), e),
        },
{
    match crate::compact::build_image(records.as_slice(), generation) {
        Ok(b) => Ok(b),
        Err(e) => {
            proof {
                lemma_build_fails(records@, e);
            }
            Err(e)
        },
    }
}

impl DurableStore {
    /// Base and log are sound.
    pub closed spec fn wf(&self) -> bool {
        self.base.wf() && self.delta.wf()
    }

    /// Opens a store from what lies on disk; what the log and the stage still need is handed
    /// back.
    pub fn open(files: StoreFiles, compact_at: Option<u64>) -> (r: Result<
        (DurableStore, LogStep, bool),
        StoreError,
    >)
        ensures
            ({
                let x = recovered(files@, threshold_of(compact_at));
                match r {
                    Ok((s, log, publish)) => s.wf() && x == Ok::<RecoveryView, StoreError>(
                        RecoveryView { base: s@.base, delta: s@.delta, log, publish },
                    ),
                    Err(e) => x == Err::<RecoveryView, StoreError>(e),
                }
            }),
    {
        match open_durable_pair(files, compact_at) {
            Ok(x) => {
                let Recovery { base, delta, log, publish } = x;
                Ok((DurableStore { base, delta }, log, publish))
            },
            Err(e) => Err(e),
        }
    }

    /// Searches base and log as one index.
    pub fn search(&self, q: &Query) -> (r: Result<(Vec<SearchHit>, SearchStats), IndexError>)
        requires
            self.wf(),
        ensures
            match r {
                Ok((hits, stats)) => crate::compact_index::search_answer(
                    self@.base,
                    self@.delta.overlay,
                    q@,
                    crate::rank::hit_views(hits@),
                    stats,
                ),
                Err(e) => crate::compact_index::search_error(
                    self@.base,
                    self@.delta.overlay,
                    q@,
                ) == Some(e),
            },
    {
        self.base.search_with_delta(q, &self.delta)
    }

    /// The generation of the store.
    pub fn generation(&self) -> (r: u64)
        ensures
            r == self@.base.generation,
    {
        self.base.generation()
    }

    /// Takes changes in, up to the first that cannot be logged. The frames that are handed
    /// back have to be appended to the log and synced before the store is read again.
    pub fn apply(&mut self, changes: Vec<DeltaChange>) -> (r: (Vec<Vec<u8>>, Result<Applied, DeltaError>))
        requires
            old(self).wf(),
            changes@.len() <= u32::MAX,
        ensures
            final(self).wf(),
            final(self)@.base == old(self)@.base,
            ({
                let cs = change_views(changes@);
                let n = taken_in(old(self)@, cs);
                &&& n <= cs.len()
                &&& final(self)@.delta == all_logged(old(self)@.delta, cs.take(n as int))
                &&& frames_joined(r.0@) == crate::delta::frames(cs.take(n as int))
                &&& r.1 == if n == cs.len() {
                    Ok::<Applied, DeltaError>(
                        Applied {
                            changes: cs.len() as u32,
                            wal_bytes: final(self)@.delta.wal_bytes,
                            due: final(self)@.delta.wal_bytes >= final(self)@.delta.compact_at,
                        },
                    )
                } else if !loggable(cs[n as int]) {
                    Err(DeltaError::ChangeTooLarge)
                } else {
                    Err(DeltaError::ReadOnly)
                }
            }),
    {
        let ghost before = self@;
        let ghost cs = change_views(changes@);
        let total: usize = changes.len();
        let mut frames: Vec<Vec<u8>> = Vec::new();
        let mut i: usize = 0;
        assert(cs.take(0) =~= Seq::empty());
        for change in it: changes
            invariant
                it.seq() == changes@,
                i == it.index(),
                self.wf(),
                before == old(self)@,
                cs == change_views(changes@),
                self@.base == before.base,
                self@.delta == all_logged(before.delta, cs.take(i as int)),
                self@.delta.writable == before.delta.writable,
                i > 0 ==> before.delta.writable,
                loggable_run(cs.take(i as int)) == i,
                frames_joined(frames@) == crate::delta::frames(cs.take(i as int)),
                i <= total == changes@.len(),
        {
            let ghost c = change@;
            proof {
                assert(cs[i as int] == c);
                assert(cs.take(i + 1).drop_last() =~= cs.take(i as int));
                assert(cs.take(i as int).push(c) =~= cs.take(i + 1));
                lemma_frames_push(cs.take(i as int), c);
            }
            let frame = match self.delta.frame_for(&change) {
                Ok(f) => f,
                Err(e) => {
                    proof {
                        if before.delta.writable {
                            lemma_run(cs, i as int);
                        } else {
                            assert(cs.take(0) =~= cs.take(i as int));
                        }
                    }
                    return (frames, Err(e));
                },
            };
            let n: usize = frame.len();
            let ghost had = frames@;
            let ghost f = frame@;
            self.delta.apply(change, n);
            frames.push(frame);
            proof {
                assert(frames@.drop_last() =~= had);
            }
            i = i + 1;
        }
        assert(cs.take(i as int) =~= cs);
        let wal: u64 = self.delta.wal_bytes();
        let due: bool = self.delta.needs_compaction();
        proof {
            if !before.delta.writable {
                assert(cs.take(0) =~= cs);
            }
        }
        (frames, Ok(Applied { changes: total as u32, wal_bytes: wal, due }))
    }

    /// The records of base and log together.
    pub fn merged(&self) -> (r: Result<Vec<FileRecord>, IndexError>)
        requires
            self.wf(),
        ensures
            match r {
                Ok(rs) => merges(self@, crate::types::record_views(rs@)),
                Err(e) => base_records(self@.base) == Err::<Seq<RecordView>, IndexError>(e),
            },
    {
        let all = match self.base.records() {
            Ok(rs) => rs,
            Err(e) => {
                return Err(e);
            },
        };
        let ghost o = self@.delta.overlay;
        let ghost views = crate::types::record_views(all@);
        assert(every_block(self@.base) =~= Seq::new(self@.base.blocks.len(), |i: int| i as u32));
        let mut out: Vec<FileRecord> = Vec::new();
        let mut i: usize = 0;
        proof {
            assert(views.take(0) =~= Seq::empty());
            assert(crate::types::record_views(out@) =~= Seq::empty());
        }
        let total: usize = all.len();
        for rec in it: all
            invariant
                it.seq() == all@,
                i == it.index(),
                i <= total == all@.len(),
                self.wf(),
                o == self@.delta.overlay,
                views == crate::types::record_views(all@),
                crate::types::record_views(out@) == crate::compact_index::visible(
                    o,
                    views.take(i as int),
                ),
        {
            let ghost had = crate::types::record_views(out@);
            let ghost v = rec@;
            proof {
                assert(views[i as int] == v);
                assert(views.take(i + 1).drop_last() =~= views.take(i as int));
            }
            if !self.delta.shadows(rec.path.as_str()) {
                out.push(rec);
                assert(crate::types::record_views(out@) =~= had.push(v));
            }
            i = i + 1;
        }
        assert(views.take(i as int) =~= views);
        let ghost standing = crate::compact_index::visible(o, views);
        let ups = self.delta.upserts();
        let ghost us = crate::types::record_views(ups@);
        let mut j: usize = 0;
        assert(standing + us.take(0) =~= standing);
        while j < ups.len()
            invariant
                j <= ups@.len(),
                us == crate::types::record_views(ups@),
                crate::types::record_views(out@) == standing + us.take(j as int),
            decreases ups@.len() - j,
        {
            let ghost had = crate::types::record_views(out@);
            let rec = ups[j].clone();
            let ghost v = rec@;
            out.push(rec);
            proof {
                assert(crate::types::record_views(out@) =~= had.push(v));
                assert(standing + us.take(j + 1) =~= (standing + us.take(j as int)).push(us[j as int]));
            }
            j += 1;
        }
        proof {
            assert(us.take(j as int) =~= us);
            crate::compact_index::lemma_lists_upserts(ups@, o.upserts);
        }
        Ok(out)
    }

    fn rebuild(&self, generation: u64) -> (r: Result<
        (Vec<u8>, crate::compact::BuildStats),
        StoreError,
    >)
        requires
            self.wf(),
        ensures
            match r {
                Ok((image, stats)) => rebuilt(self@, generation, image@, stats),
                Err(e) => compaction_fails(self@, e),
            },
    {
        let records = match self.merged() {
            Ok(rs) => rs,
            Err(e) => {
                reveal(compaction_fails);
                return Err(StoreError::Base(e));
            },
        };
        match build_all(&records, generation) {
            Ok((image, stats)) => {
                reveal(rebuilt);
                Ok((image, stats))
            },
            Err(e) => {
                reveal(compaction_fails);
                Err(StoreError::Build(e))
            },
        }
    }

    /// Merges base and log into a replacement base of a new generation and empties the log.
    /// The generation is the one that was drawn, unless it is that of the base. Nothing
    /// changes where that fails.
    pub fn compact(&mut self, drawn: u64) -> (r: Result<Compaction, StoreError>)
        requires
            old(self).wf(),
        ensures
            final(self).wf(),
            match r {
                Ok(c) => compacted(old(self)@, drawn, c, final(self)@),
                Err(e) => final(self)@ == old(self)@ && compaction_fails(old(self)@, e),
            },
    {
        let ghost before = self@;
        let generation: u64 = unused_generation(self.base.generation(), drawn);
        let (image, stats) = match self.rebuild(generation) {
            Ok(b) => b,
            Err(e) => {
                return Err(e);
            },
        };
        assert(image.len() == image@.len());
        proof {
            lemma_rebuild_opens(before, generation, image@, stats);
        }
        let copy = crate::bytes::to_vec(image.as_slice());
        let base = match CompactIndex::open(copy, false) {
            Ok(b) => b,
            Err(e) => {
                return Err(StoreError::Base(e));
            },
        };
        let header = match self.delta.reset(generation) {
            Ok(h) => h,
            Err(e) => {
                reveal(compaction_fails);
                return Err(StoreError::Log(e));
            },
        };
        self.base = base;
        let c = Compaction {
            image,
            marker: compaction_marker_bytes(generation),
            header,
            records: stats.records,
            bytes: stats.bytes,
        };
        proof {
            reveal(compacted);
            assert(compacts(
                before,
                unused(before.base.generation, drawn),
                stats,
                c,
                self@,
            ));
        }
        Ok(c)
    }

    /// Takes changes in and keeps the log bounded: it is compacted before where it is due
    /// already, and afterwards where it has become so. What each step leaves to be written
    /// is handed back in order. `first` and `second` are unused generations.
    pub fn apply_bounded(&mut self, changes: Vec<DeltaChange>, first: u64, second: u64) -> (r: Bounded)
        requires
            old(self).wf(),
            changes@.len() <= u32::MAX,
        ensures
            final(self).wf(),
            bounded(old(self)@, change_views(changes@), first, second, r, final(self)@),
    {
        let ghost before = self@;
        let mut ahead: Option<Compaction> = None;
        if self.delta.needs_compaction() {
            match self.compact(first) {
                Ok(c) => {
                    ahead = Some(c);
                },
                Err(e) => {
                    return Bounded { ahead: None, frames: Vec::new(), behind: None, outcome: Err(e) };
                },
            }
        }
        let ghost mid = self@;
        let (frames, outcome) = self.apply(changes);
        let ghost end = self@;
        let applied = match outcome {
            Ok(a) => a,
            Err(e) => {
                let r = Bounded { ahead, frames, behind: None, outcome: Err(StoreError::Log(e)) };
                assert(went(before, first, mid, change_views(changes@), end, r));
                return r;
            },
        };
        if applied.due {
            match self.compact(second) {
                Ok(c) => {
                    let bytes: u64 = self.delta.wal_bytes();
                    let r = Bounded {
                        ahead,
                        frames,
                        behind: Some(c),
                        outcome: Ok(Applied { changes: applied.changes, wal_bytes: bytes, due: false }),
                    };
                    assert(went(before, first, mid, change_views(changes@), end, r));
                    r
                },
                Err(e) => {
                    let r = Bounded { ahead, frames, behind: None, outcome: Err(e) };
                    assert(went(before, first, mid, change_views(changes@), end, r));
                    r
                },
            }
        } else {
            let r = Bounded { ahead, frames, behind: None, outcome: Ok(applied) };
            assert(went(before, first, mid, change_views(changes@), end, r));
            r
        }
    }
}

/// The outcome of a bounded update, and what it leaves to be written: a compaction, then
/// the frames, then another compaction.
pub struct Bounded {
    pub ahead: Option<Compaction>,
    pub frames: Vec<Vec<u8>>,
    pub behind: Option<Compaction>,
    pub outcome: Result<Applied, StoreError>,
}

/// The build of some records fails.
#[verifier::opaque]
pub open spec fn build_fails(rs: Seq<RecordView>, e: BuildError) -> bool {
    let safe = forall|i: int| 0 <= i < rs.len() ==> crate::scope::safe_path((#[trigger] rs[i]).path);
    match e {
        BuildError::TooManyRecords => rs.len() > u32::MAX,
        BuildError::UnsafePath => rs.len() <= u32::MAX && !safe,
        BuildError::PostingTooLarge => rs.len() <= u32::MAX && safe
            && crate::compact::posting_too_large(rs),
        _ => rs.len() <= u32::MAX && safe && crate::compact::cannot_pack(rs, e),
    }
}

/// A replacement base of the records of the pair.
#[verifier::opaque]
pub open spec fn rebuilt(
    s: StoreView,
    generation: u64,
    image: Seq<u8>,
    stats: crate::compact::BuildStats,
) -> bool {
    exists|rs: Seq<RecordView>| #[trigger]
        merges(s, rs) && rs.len() <= u32::MAX && crate::compact::built(image, stats, generation, rs)
}

/// What a compaction of a store does, with the statistics of the build.
pub open spec fn compacts(
    before: StoreView,
    generation: u64,
    stats: crate::compact::BuildStats,
    c: Compaction,
    after: StoreView,
) -> bool {
    &&& rebuilt(before, generation, c.image@, stats)
    &&& c.marker@ == marker_bytes(generation)
    &&& c.header@ == crate::delta::delta_header(generation)
    &&& c.records == stats.records
    &&& c.bytes == stats.bytes
    &&& crate::compact_index::opened_index(c.image@, false) == Ok::<CompactView, IndexError>(
        after.base,
    )
    &&& after.base.generation == generation
    &&& generation != 0
    &&& before.delta.writable
    &&& after.delta == (DeltaView {
        generation,
        overlay: crate::delta::no_changes(),
        wal_bytes: crate::delta::DELTA_HEADER_BYTES,
        ..before.delta
    })
}

/// The generation after another: the one that was drawn, or the next where it is the same;
/// never zero.
pub open spec fn unused(old_generation: u64, drawn: u64) -> u64 {
    let fresh = crate::compact::numbered(drawn);
    if fresh != old_generation {
        fresh
    } else if fresh < u64::MAX {
        (fresh + 1) as u64
    } else {
        1
    }
}

fn unused_generation(old_generation: u64, drawn: u64) -> (r: u64)
    ensures
        r == unused(old_generation, drawn),
        r != old_generation,
        r != 0,
{
    let fresh: u64 = crate::compact::numbered_generation(drawn);
    if fresh != old_generation {
        fresh
    } else if fresh < u64::MAX {
        fresh + 1
    } else {
        1
    }
}

/// What a compaction of a store does, for which a generation was drawn.
#[verifier::opaque]
pub open spec fn compacted(before: StoreView, drawn: u64, c: Compaction, after: StoreView) -> bool {
    exists|stats: crate::compact::BuildStats| #[trigger]
        compacts(before, unused(before.base.generation, drawn), stats, c, after)
}

/// Why a compaction of a store fails.
#[verifier::opaque]
pub open spec fn compaction_fails(s: StoreView, e: StoreError) -> bool {
    match e {
        StoreError::Base(e) => base_records(s.base) == Err::<Seq<RecordView>, IndexError>(e),
        StoreError::Build(e) => exists|rs: Seq<RecordView>| #[trigger]
            merges(s, rs) && build_fails(rs, e),
        StoreError::Log(e) => e == DeltaError::ReadOnly && !s.delta.writable,
        _ => false,
    }
}

proof fn lemma_rebuild_opens(
    s: StoreView,
    generation: u64,
    image: Seq<u8>,
    stats: crate::compact::BuildStats,
)
    requires
        rebuilt(s, generation, image, stats),
        image.len() <= usize::MAX,
    ensures
        crate::compact_index::opened_index(image, false) is Ok,
        crate::compact_index::opened_index(image, false)->Ok_0.generation == generation,
{
    reveal(rebuilt);
    let rs = choose|rs: Seq<RecordView>| #[trigger]
        merges(s, rs) && rs.len() <= u32::MAX && crate::compact::built(image, stats, generation, rs);
    lemma_build_opens(image, stats, generation, rs);
}

proof fn lemma_build_fails(records: Seq<FileRecord>, e: BuildError)
    requires
        ({
            let views = crate::types::record_views(records);
            let safe = forall|i: int|
                0 <= i < records.len() ==> crate::scope::safe_path((#[trigger] records[i])@.path);
            match e {
                BuildError::TooManyRecords => records.len() > u32::MAX,
                BuildError::UnsafePath => records.len() <= u32::MAX && !safe,
                BuildError::PostingTooLarge => records.len() <= u32::MAX && safe
                    && crate::compact::posting_too_large(views),
                _ => records.len() <= u32::MAX && safe && crate::compact::cannot_pack(views, e),
            }
        }),
    ensures
        build_fails(crate::types::record_views(records), e),
{
    reveal(build_fails);
    let views = crate::types::record_views(records);
    let safe = forall|i: int|
        0 <= i < records.len() ==> crate::scope::safe_path((#[trigger] records[i])@.path);
    if safe {
        assert forall|i: int| 0 <= i < views.len() implies crate::scope::safe_path(
            (#[trigger] views[i]).path,
        ) by {
            assert(records[i]@ == views[i]);
        }
    } else {
        let i = choose|i: int|
            0 <= i < records.len() && !crate::scope::safe_path((#[trigger] records[i])@.path);
        assert(views[i] == records[i]@);
    }
}

/// How many changes a store takes in.
pub open spec fn taken_in(s: StoreView, cs: Seq<ChangeView>) -> nat {
    if s.delta.writable {
        loggable_run(cs)
    } else {
        0
    }
}

/// The parts of a bounded update before the second compaction: `mid` is the store after the
/// first one, `end` the store with the changes.
pub open spec fn went(
    before: StoreView,
    first: u64,
    mid: StoreView,
    cs: Seq<ChangeView>,
    end: StoreView,
    r: Bounded,
) -> bool {
    let n = taken_in(mid, cs);
    &&& if before.delta.wal_bytes >= before.delta.compact_at {
        r.ahead is Some && compacted(before, first, r.ahead->0, mid)
    } else {
        r.ahead is None && mid == before
    }
    &&& n <= cs.len()
    &&& end == (StoreView { delta: all_logged(mid.delta, cs.take(n as int)), ..mid })
    &&& frames_joined(r.frames@) == crate::delta::frames(cs.take(n as int))
    &&& n < cs.len() ==> r.behind is None && r.outcome == Err::<Applied, StoreError>(
        StoreError::Log(
            if !loggable(cs[n as int]) {
                DeltaError::ChangeTooLarge
            } else {
                DeltaError::ReadOnly
            },
        ),
    )
    &&& r.outcome is Ok || r.behind is None
    &&& r.outcome is Ok ==> n == cs.len()
}

/// What a bounded update does.
pub open spec fn bounded(
    before: StoreView,
    cs: Seq<ChangeView>,
    first: u64,
    second: u64,
    r: Bounded,
    after: StoreView,
) -> bool {
    ||| before.delta.wal_bytes >= before.delta.compact_at && r.outcome is Err && compaction_fails(
        before,
        r.outcome->Err_0,
    ) && r.ahead is None && r.frames@.len() == 0 && r.behind is None && after == before
    ||| exists|mid: StoreView, end: StoreView| #[trigger]
        went(before, first, mid, cs, end, r) && {
            let due = end.delta.wal_bytes >= end.delta.compact_at;
            match r.outcome {
                Ok(a) => a.changes == cs.len() && !a.due && a.wal_bytes == after.delta.wal_bytes
                    && if due {
                    r.behind is Some && compacted(end, second, r.behind->0, after)
                } else {
                    r.behind is None && after == end
                },
                Err(e) => after == end && (taken_in(mid, cs) < cs.len() || (due && compaction_fails(
                    end,
                    e,
                ))),
            }
        }
}

/// A file that was built is opened.
proof fn lemma_build_opens(
    image: Seq<u8>,
    stats: crate::compact::BuildStats,
    generation: u64,
    rs: Seq<RecordView>,
)
    requires
        crate::compact::built(image, stats, generation, rs),
        rs.len() <= u32::MAX,
        image.len() <= usize::MAX,
    ensures
        crate::compact_index::opened_index(image, false) is Ok,
        crate::compact_index::opened_index(image, false)->Ok_0.generation == generation,
{
    let (sorted, packed, dict) = choose|
        sorted: Seq<RecordView>,
        packed: Seq<Seq<u8>>,
        dict: Seq<crate::compact::GramView>,
    | #[trigger]
        crate::compact::image_parts(image, generation, rs, sorted, packed, dict);
    crate::compact_laws::law_open_gives_back_the_build(
        image,
        generation,
        rs,
        sorted,
        packed,
        dict,
    );
}

proof fn lemma_logging_keeps_the_bound(d: DeltaView, cs: Seq<ChangeView>)
    ensures
        all_logged(d, cs).compact_at == d.compact_at,
    decreases cs.len(),
{
    if cs.len() > 0 {
        lemma_logging_keeps_the_bound(d, cs.drop_last());
    }
}

/// After a bounded update that succeeded, the log is shorter than the length at which it is
/// compacted, as long as that leaves room for more than its header.
pub proof fn law_updates_bound_the_log(
    before: StoreView,
    cs: Seq<ChangeView>,
    first: u64,
    second: u64,
    r: Bounded,
    after: StoreView,
)
    requires
        bounded(before, cs, first, second, r, after),
        r.outcome is Ok,
        before.delta.compact_at > crate::delta::DELTA_HEADER_BYTES,
    ensures
        after.delta.wal_bytes < after.delta.compact_at,
        after.delta.compact_at == before.delta.compact_at,
{
    reveal(compacted);
    let (mid, end) = choose|mid: StoreView, end: StoreView| #[trigger]
        went(before, first, mid, cs, end, r) && {
            let due = end.delta.wal_bytes >= end.delta.compact_at;
            match r.outcome {
                Ok(a) => a.changes == cs.len() && !a.due && a.wal_bytes == after.delta.wal_bytes
                    && if due {
                    r.behind is Some && compacted(end, second, r.behind->0, after)
                } else {
                    r.behind is None && after == end
                },
                Err(e) => after == end && (taken_in(mid, cs) < cs.len() || (due && compaction_fails(
                    end,
                    e,
                ))),
            }
        };
    lemma_logging_keeps_the_bound(mid.delta, cs.take(taken_in(mid, cs) as int));
}

// ---------------------------------------------------------------------------
// Laws of recovery

/// What lies on disk once a recovery is done.
pub open spec fn settled_files(f: FilesView, r: RecoveryView) -> FilesView {
    FilesView {
        base: if r.publish {
            f.stage
        } else {
            f.base
        },
        log: Some(
            match r.log {
                LogStep::Fresh => crate::delta::delta_header(r.delta.generation),
                LogStep::Keep(w) => if w.write_header {
                    crate::delta::delta_header(r.delta.generation)
                } else {
                    match w.truncate_to {
                        Some(n) => f.log->0.take(n as int),
                        None => f.log->0,
                    }
                },
            },
        ),
        marker: None,
        stage: None,
        ..f
    }
}

/// A log that was opened is of the generation that was asked for.
proof fn lemma_log_generation(log: Option<Seq<u8>>, generation: u64, at: u64)
    ensures
        log_opened(log, generation, at) matches Ok(o) ==> o.0.generation == generation
            && generation != 0,
{
    reveal(log_opened);
}

/// Whatever was found on disk, the recovered base and log are of one generation, which is
/// not zero.
pub proof fn law_recovered_pair_is_of_one_generation(f: FilesView, at: u64)
    requires
        recovered(f, at) is Ok,
    ensures
        recovered(f, at)->Ok_0.base.generation == recovered(f, at)->Ok_0.delta.generation,
        recovered(f, at)->Ok_0.base.generation != 0,
{
    reveal(log_opened);
    if f.marker is Some {
        crate::bytes::lemma_byte_spans();
        crate::bytes::law_le_spell_back(f.marker->0);
    }
}

/// A log with a whole header is never thrown away unread: it is replaced only where a
/// verified stage holds its changes, namely where the marker of that stage stands and the
/// log is a sound one of the old base.
pub proof fn law_complete_logs_are_never_discarded(f: FilesView, at: u64)
    requires
        recovered(f, at) is Ok,
        recovered(f, at)->Ok_0.log is Fresh,
        f.log is Some,
        f.log->0.len() >= crate::delta::DELTA_HEADER_BYTES,
    ensures
        f.marker is Some,
        recovered(f, at)->Ok_0.publish,
        base_opened(f) is Ok,
        log_opened(f.log, base_opened(f)->Ok_0.generation, at) is Ok,
        marked_generation(f.marker->0) == Ok::<u64, StoreError>(
            recovered(f, at)->Ok_0.base.generation,
        ),
{
    assert forall|g: u64| (#[trigger] log_opened(f.log, g, at)) is Err implies !is_torn(
        log_opened(f.log, g, at)->Err_0,
    ) by {
        reveal(log_opened);
        lemma_replay_errors(f.log->0.skip(16));
    }
}

/// Frames are never reported as cut off.
proof fn lemma_replay_errors(s: Seq<u8>)
    ensures
        crate::delta::replay(s).error matches Some(e) ==> !is_torn(e),
    decreases s.len(),
{
    if s.len() >= 4 {
        let n = crate::bytes::le_value(s.take(4));
        if n <= crate::delta::MAX_FRAME && s.len() >= 8 + n {
            lemma_replay_errors(s.skip(8 + n as int));
        }
    }
}

/// An empty log is opened as one that holds nothing.
proof fn lemma_header_opens(generation: u64, at: u64)
    requires
        generation != 0,
    ensures
        log_opened(Some(crate::delta::delta_header(generation)), generation, at) == Ok::<
            (DeltaView, WalRepair),
            DeltaError,
        >((empty_log(generation, at), WalRepair { truncate_to: None, write_header: false })),
        crate::delta::delta_header(generation).len() == 16,
{
    reveal(log_opened);
    let h = crate::delta::delta_header(generation);
    crate::bytes::lemma_byte_spans();
    crate::bytes::lemma_le_bytes_len(generation as nat, 8);
    crate::bytes::law_le_read_back(generation as nat, 8);
    assert(h.take(8) =~= crate::delta::delta_magic());
    assert(h.subrange(8, 16) =~= crate::bytes::le_bytes(generation as nat, 8));
    assert(h.skip(16) =~= Seq::empty());
    assert(crate::delta::all_changed(crate::delta::no_changes(), Seq::empty())
        == crate::delta::no_changes());
}

/// Frames that were read are read again where only they are left.
proof fn lemma_replay_cut(s: Seq<u8>)
    requires
        crate::delta::replay(s).error is None,
    ensures
        crate::delta::replay(s.take(crate::delta::replay(s).used as int)) == crate::delta::replay(
            s,
        ),
    decreases s.len(),
{
    crate::delta::lemma_replay_bounds(s);
    let r = crate::delta::replay(s);
    let t = s.take(r.used as int);
    if s.len() >= 4 {
        let n = crate::bytes::le_value(s.take(4));
        if n <= crate::delta::MAX_FRAME && s.len() >= 8 + n {
            let rest = s.skip(8 + n as int);
            lemma_replay_cut(rest);
            crate::delta::lemma_replay_bounds(rest);
            assert(t.take(4) =~= s.take(4));
            assert(t.subrange(8, 8 + n as int) =~= s.subrange(8, 8 + n as int));
            assert(t.subrange(4, 8) =~= s.subrange(4, 8));
            assert(t.skip(8 + n as int) =~= rest.take(crate::delta::replay(rest).used as int));
        } else {
            assert(t.len() == 0);
        }
    } else {
        assert(t.len() == 0);
    }
}

/// A log that was repaired is opened as it was, with nothing left to repair.
proof fn lemma_repaired_opens(log: Option<Seq<u8>>, generation: u64, at: u64)
    requires
        log_opened(log, generation, at) is Ok,
        log is Some ==> log->0.len() <= u64::MAX,
    ensures
        ({
            let (d, w) = log_opened(log, generation, at)->Ok_0;
            let repaired = if w.write_header {
                crate::delta::delta_header(generation)
            } else {
                match w.truncate_to {
                    Some(n) => log->0.take(n as int),
                    None => log->0,
                }
            };
            log_opened(Some(repaired), generation, at) == Ok::<(DeltaView, WalRepair), DeltaError>(
                (d, WalRepair { truncate_to: None, write_header: false }),
            )
        }),
{
    let (d, w) = log_opened(log, generation, at)->Ok_0;
    lemma_log_generation(log, generation, at);
    if w.write_header {
        lemma_header_opens(generation, at);
        reveal(log_opened);
    } else {
        reveal(log_opened);
        let b = log->0;
        let s = b.skip(16);
        let r = crate::delta::replay(s);
        crate::delta::lemma_replay_bounds(s);
        lemma_replay_cut(s);
        let t = b.take((16 + r.used) as int);
        assert(t.take(8) =~= b.take(8));
        assert(t.subrange(8, 16) =~= b.subrange(8, 16));
        assert(t.skip(16) =~= s.take(r.used as int));
        if b.len() == 16 + r.used {
            assert(t =~= b);
        }
    }
}

/// Recovery is settled: opened once more, the files give the same pair, and nothing is
/// left to be done.
pub proof fn law_recovery_is_settled(f: FilesView, at: u64)
    requires
        recovered(f, at) is Ok,
        f.log is Some ==> f.log->0.len() <= u64::MAX,
    ensures
        recovered(settled_files(f, recovered(f, at)->Ok_0), at) == Ok::<RecoveryView, StoreError>(
            RecoveryView {
                log: LogStep::Keep(WalRepair { truncate_to: None, write_header: false }),
                publish: false,
                ..recovered(f, at)->Ok_0
            },
        ),
{
    let r = recovered(f, at)->Ok_0;
    let g = settled_files(f, r);
    law_recovered_pair_is_of_one_generation(f, at);
    assert(base_opened(g) == Ok::<CompactView, StoreError>(r.base)) by {
        reveal(base_opened);
        reveal(stage_opened);
    }
    lemma_header_opens(r.base.generation, at);
    assert(log_opened(g.log, r.base.generation, at) == Ok::<(DeltaView, WalRepair), DeltaError>(
        (r.delta, WalRepair { truncate_to: None, write_header: false }),
    )) by {
        match r.log {
            LogStep::Fresh => {},
            LogStep::Keep(w) => {
                lemma_repaired_opens(f.log, r.base.generation, at);
            },
        }
    }
}

/// How far a compaction came before it was cut off.
pub enum Moment {
    /// The stage is written.
    Staged,
    /// The marker is written.
    Marked,
    /// So many bytes of the new header of the log are written.
    Emptied(nat),
    /// The same, and the marker was lost.
    MarkerLost(nat),
    /// The stage was moved over the base.
    Published,
    /// The marker is removed.
    Unmarked,
}

/// What a compaction to `generation` leaves on disk when it is cut off.
pub open spec fn files_at(before: FilesView, stage: Seq<u8>, generation: u64, m: Moment) -> FilesView {
    let staged = FilesView { stage: Some(stage), marker: None, ..before };
    let marked = FilesView { marker: Some(marker_bytes(generation)), ..staged };
    let header = crate::delta::delta_header(generation);
    match m {
        Moment::Staged => staged,
        Moment::Marked => marked,
        Moment::Emptied(n) => FilesView { log: Some(header.take(n as int)), ..marked },
        Moment::MarkerLost(n) => FilesView { log: Some(header.take(n as int)), ..staged },
        Moment::Published => FilesView { base: Some(stage), log: Some(header), ..marked },
        Moment::Unmarked => FilesView { base: Some(stage), log: Some(header), ..staged },
    }
}

/// Wherever a compaction is cut off, opening the pair gives either the old base with its
/// log or the new base with an empty one. The new base is taken once it is published or its
/// marker stands.
pub proof fn law_interrupted_compaction_is_recovered(
    before: FilesView,
    stage: Seq<u8>,
    generation: u64,
    m: Moment,
    at: u64,
)
    requires
        before.marker is None,
        before.stage is None,
        !before.stale,
        !before.stage_stale,
        recovered(before, at) is Ok,
        crate::compact_index::opened_index(stage, false) is Ok,
        crate::compact_index::opened_index(stage, false)->Ok_0.generation == generation,
        generation != 0,
        generation != recovered(before, at)->Ok_0.base.generation,
        m matches Moment::Emptied(n) ==> n <= 16,
        m matches Moment::MarkerLost(n) ==> n <= 16,
    ensures
        ({
            let r = recovered(files_at(before, stage, generation, m), at);
            let old = recovered(before, at)->Ok_0;
            let new_base = crate::compact_index::opened_index(stage, false)->Ok_0;
            &&& r is Ok
            &&& {
                ||| r->Ok_0.base == new_base && r->Ok_0.delta == empty_log(generation, at)
                ||| m is Staged && r->Ok_0.base == old.base && r->Ok_0.delta == old.delta
            }
        }),
{
    let f = files_at(before, stage, generation, m);
    let old = recovered(before, at)->Ok_0;
    let new_base = crate::compact_index::opened_index(stage, false)->Ok_0;
    let h = crate::delta::delta_header(generation);
    law_recovered_pair_is_of_one_generation(before, at);
    law_marker_read_back(generation);
    lemma_header_opens(generation, at);
    assert(h.take(16) =~= h);
    assert(stage_opened(f) == Ok::<CompactView, StoreError>(new_base)) by {
        reveal(stage_opened);
    }
    assert(base_opened(before) == Ok::<CompactView, StoreError>(old.base));
    assert(base_opened(f) == Ok::<CompactView, StoreError>(
        if m is Published || m is Unmarked {
            new_base
        } else {
            old.base
        },
    )) by {
        reveal(base_opened);
    }
    assert forall|n: nat, g: u64| n < 16 && g != 0 implies (#[trigger] log_opened(
        Some(h.take(n as int)),
        g,
        at,
    )) == if n == 0 {
        Ok::<(DeltaView, WalRepair), DeltaError>(
            (empty_log(g, at), WalRepair { truncate_to: None, write_header: true }),
        )
    } else {
        Err(DeltaError::TornHeader)
    } by {
        reveal(log_opened);
        if n >= 8 {
            assert(h.take(n as int).take(8) =~= crate::delta::delta_magic());
        }
    }
    assert(log_opened(Some(h), old.base.generation, at) == Err::<
        (DeltaView, WalRepair),
        DeltaError,
    >(DeltaError::WrongGeneration)) by {
        reveal(log_opened);
        crate::bytes::lemma_byte_spans();
        crate::bytes::law_le_read_back(generation as nat, 8);
        assert(h.take(8) =~= crate::delta::delta_magic());
        assert(h.subrange(8, 16) =~= crate::bytes::le_bytes(generation as nat, 8));
    }
    match m {
        Moment::Staged => {
            if short_beside_stage(f) {
                reveal(log_opened);
                assert(f.log->0.len() == 0);
            }
        },
        Moment::Marked => {},
        Moment::Emptied(n) => {},
        Moment::MarkerLost(n) => {},
        Moment::Published => {},
        Moment::Unmarked => {},
    }
}

} // verus!
