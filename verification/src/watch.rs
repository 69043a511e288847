//! Events of the native watch on Linux: how the kernel's buffer is read, and which changes
//! its events are. Numbers in the buffer are in the order of the machine, low byte first.

use crate::delta::{ChangeView, DeltaChange};
use crate::host::Host;
use crate::mounts::{FsView, MountInfo, MountView};
use crate::pathmap::PathMap;
use crate::types::{FileKind, FileRecord, RecordView};
use vstd::prelude::*;

verus! {

/// The length of the fixed part of an event.
pub const META_LEN: usize = 24;

/// The length of the head of an information record.
pub const INFO_HEADER_LEN: usize = 4;

/// The length of the head and the filesystem identifier of a record.
pub const FID_PREFIX_LEN: usize = 12;

/// The length of the head of a file handle.
pub const FILE_HANDLE_HEADER_LEN: usize = 8;

/// The version of the event format.
pub const METADATA_VERSION: u8 = 3;

pub const INFO_FID: u8 = 1;

pub const INFO_DFID_NAME: u8 = 2;

pub const INFO_DFID: u8 = 3;

pub const INFO_OLD_DFID_NAME: u8 = 10;

pub const INFO_NEW_DFID_NAME: u8 = 12;

pub const FAN_ATTRIB: u64 = 0x4;

pub const FAN_CLOSE_WRITE: u64 = 0x8;

pub const FAN_MOVED_FROM: u64 = 0x40;

pub const FAN_MOVED_TO: u64 = 0x80;

/// Either side of a move.
pub const FAN_MOVE: u64 = 0xc0;

pub const FAN_CREATE: u64 = 0x100;

pub const FAN_DELETE: u64 = 0x200;

pub const FAN_Q_OVERFLOW: u64 = 0x4000;

pub const FAN_RENAME: u64 = 0x1000_0000;

pub const FAN_ONDIR: u64 = 0x4000_0000;

/// The events that take a name away: a deletion, or a move from it.
pub const TAKES_AWAY: u64 = 0x240;

/// The events that bring or change something: a creation, a move to it, a change of
/// attributes, the end of writing, or a rename.
pub const BRINGS: u64 = 0x1000_018c;

/// The events that change an object: of its attributes, or the end of writing.
pub const TOUCHES: u64 = 0xc;

/// What one reading of the watch gave.
#[derive(Debug)]
pub enum WatchBatch {
    Changes(Vec<DeltaChange>),
    /// The store cannot be kept current by changes alone.
    RescanRequired(String),
}

/// Why a buffer of events could not be read.
#[derive(Debug, Clone, Copy, PartialEq, Eq, Structural)]
pub enum WatchError {
    TruncatedMetadata,
    UnsupportedVersion,
    InvalidLengths,
    EventPastBuffer,
    TruncatedInfo,
    InvalidInfoLength,
    ShortFid,
    HandlePastInfo,
    UnterminatedName,
}

impl WatchError {
    /// How the error is reported.
    pub open spec fn text(self) -> Seq<char> {
        match self {
            WatchError::TruncatedMetadata => "truncated fanotify event metadata"@,
            WatchError::UnsupportedVersion => "unsupported fanotify metadata version"@,
            WatchError::InvalidLengths => "invalid fanotify event lengths"@,
            WatchError::EventPastBuffer => "fanotify event exceeds read buffer"@,
            WatchError::TruncatedInfo => "truncated fanotify info header"@,
            WatchError::InvalidInfoLength => "invalid fanotify info length"@,
            WatchError::ShortFid => "fanotify FID record is too short"@,
            WatchError::HandlePastInfo => "fanotify file handle exceeds info record"@,
            WatchError::UnterminatedName => "fanotify name is not NUL-terminated"@,
        }
    }

    /// How the error is reported.
    pub fn message(self) -> (r: String)
        ensures
            r@ == self.text(),
    {
        match self {
            WatchError::TruncatedMetadata => "truncated fanotify event metadata".to_owned(),
            WatchError::UnsupportedVersion => "unsupported fanotify metadata version".to_owned(),
            WatchError::InvalidLengths => "invalid fanotify event lengths".to_owned(),
            WatchError::EventPastBuffer => "fanotify event exceeds read buffer".to_owned(),
            WatchError::TruncatedInfo => "truncated fanotify info header".to_owned(),
            WatchError::InvalidInfoLength => "invalid fanotify info length".to_owned(),
            WatchError::ShortFid => "fanotify FID record is too short".to_owned(),
            WatchError::HandlePastInfo => "fanotify file handle exceeds info record".to_owned(),
            WatchError::UnterminatedName => "fanotify name is not NUL-terminated".to_owned(),
        }
    }
}

/// What a location is to an event.
#[derive(Debug, Clone, Copy, PartialEq, Eq, Structural)]
pub enum Role {
    Object,
    Current,
    Old,
    New,
}

/// A handle of the object or of its directory, and the name in that directory.
#[derive(Debug)]
pub struct Location {
    pub role: Role,
    pub handle: Vec<u8>,
    pub name: Option<Vec<u8>>,
}

/// One event.
#[derive(Debug)]
pub struct ParsedEvent {
    pub mask: u64,
    pub locations: Vec<Location>,
}

/// A location as a mathematical value.
#[verifier::ext_equal]
pub struct LocationView {
    pub role: Role,
    pub handle: Seq<u8>,
    pub name: Option<Seq<u8>>,
}

/// An event as a mathematical value.
#[verifier::ext_equal]
pub struct EventView {
    pub mask: u64,
    pub locations: Seq<LocationView>,
}

impl View for Location {
    type V = LocationView;

    open spec fn view(&self) -> LocationView {
        LocationView {
            role: self.role,
            handle: self.handle@,
            name: match self.name {
                Some(n) => Some(n@),
                None => None,
            },
        }
    }
}

/// The views of locations.
pub open spec fn location_views(ls: Seq<Location>) -> Seq<LocationView> {
    Seq::new(ls.len(), |i: int| ls[i]@)
}

impl View for ParsedEvent {
    type V = EventView;

    open spec fn view(&self) -> EventView {
        EventView { mask: self.mask, locations: location_views(self.locations@) }
    }
}

/// The views of events.
pub open spec fn event_views(es: Seq<ParsedEvent>) -> Seq<EventView> {
    Seq::new(es.len(), |i: int| es[i]@)
}

/// What a record of a type tells of; other types are passed over.
pub open spec fn role_of(info_type: u8) -> Option<Role> {
    if info_type == INFO_FID {
        Some(Role::Object)
    } else if info_type == INFO_DFID || info_type == INFO_DFID_NAME {
        Some(Role::Current)
    } else if info_type == INFO_OLD_DFID_NAME {
        Some(Role::Old)
    } else if info_type == INFO_NEW_DFID_NAME {
        Some(Role::New)
    } else {
        None
    }
}

/// What a record of a type tells of.
pub fn role_for(info_type: u8) -> (r: Option<Role>)
    ensures
        r == role_of(info_type),
{
    if info_type == INFO_FID {
        Some(Role::Object)
    } else if info_type == INFO_DFID || info_type == INFO_DFID_NAME {
        Some(Role::Current)
    } else if info_type == INFO_OLD_DFID_NAME {
        Some(Role::Old)
    } else if info_type == INFO_NEW_DFID_NAME {
        Some(Role::New)
    } else {
        None
    }
}

/// The number at a place.
pub open spec fn at(s: Seq<u8>, from: int, to: int) -> nat {
    crate::bytes::le_value(s.subrange(from, to))
}

/// The position of the first zero byte, or the length.
pub open spec fn nul_at(s: Seq<u8>) -> int
    decreases s.len(),
{
    if s.len() == 0 || s[0] == 0 {
        0
    } else {
        1 + nul_at(s.skip(1))
    }
}

/// The location in an information record.
pub open spec fn location_in(info: Seq<u8>, role: Role, has_name: bool) -> Result<
    LocationView,
    WatchError,
> {
    if info.len() < 20 {
        Err(WatchError::ShortFid)
    } else if 20 + at(info, 12, 16) > info.len() {
        Err(WatchError::HandlePastInfo)
    } else {
        let end = 20 + at(info, 12, 16) as int;
        let handle = info.subrange(12, end);
        let rest = info.skip(end);
        if !has_name {
            Ok(LocationView { role, handle, name: None })
        } else if nul_at(rest) >= rest.len() {
            Err(WatchError::UnterminatedName)
        } else {
            Ok(LocationView { role, handle, name: Some(rest.take(nul_at(rest))) })
        }
    }
}

/// The locations in the records of an event.
pub open spec fn locations_in(s: Seq<u8>) -> Result<Seq<LocationView>, WatchError>
    decreases s.len(),
{
    if s.len() == 0 {
        Ok(Seq::empty())
    } else if s.len() < 4 {
        Err(WatchError::TruncatedInfo)
    } else {
        let n = at(s, 2, 4) as int;
        if n < 4 || n > s.len() {
            Err(WatchError::InvalidInfoLength)
        } else {
            match role_of(s[0]) {
                None => locations_in(s.skip(n)),
                Some(role) => match location_in(
                    s.take(n),
                    role,
                    s[0] != INFO_FID && s[0] != INFO_DFID,
                ) {
                    Err(e) => Err(e),
                    Ok(l) => match locations_in(s.skip(n)) {
                        Err(e) => Err(e),
                        Ok(rest) => Ok(seq![l] + rest),
                    },
                },
            }
        }
    }
}

/// The events in a buffer.
pub open spec fn events_in(s: Seq<u8>) -> Result<Seq<EventView>, WatchError>
    decreases s.len(),
{
    if s.len() == 0 {
        Ok(Seq::empty())
    } else if s.len() < 24 {
        Err(WatchError::TruncatedMetadata)
    } else {
        let n = at(s, 0, 4) as int;
        let m = at(s, 6, 8) as int;
        if s[4] != METADATA_VERSION {
            Err(WatchError::UnsupportedVersion)
        } else if m < 24 || n < m {
            Err(WatchError::InvalidLengths)
        } else if n > s.len() {
            Err(WatchError::EventPastBuffer)
        } else {
            match locations_in(s.subrange(m, n)) {
                Err(e) => Err(e),
                Ok(locations) => match events_in(s.skip(n)) {
                    Err(e) => Err(e),
                    Ok(rest) => Ok(
                        seq![EventView { mask: at(s, 8, 16) as u64, locations }] + rest,
                    ),
                },
            }
        }
    }
}

fn find_nul(s: &[u8], from: usize) -> (n: usize)
    requires
        from <= s@.len(),
    ensures
        from <= n <= s@.len(),
        n - from == nul_at(s@.skip(from as int)),
{
    let mut n: usize = from;
    while n < s.len() && s[n] != 0
        invariant
            from <= n <= s@.len(),
            nul_at(s@.skip(from as int)) == n - from + nul_at(s@.skip(n as int)),
        decreases s@.len() - n,
    {
        assert(s@.skip(n as int)[0] == s@[n as int]);
        assert(s@.skip(n as int).skip(1) =~= s@.skip(n + 1));
        n += 1;
    }
    proof {
        if n < s@.len() {
            assert(s@.skip(n as int)[0] == s@[n as int]);
        }
    }
    n
}

fn u16_at(s: &[u8], from: usize) -> (r: u16)
    requires
        from + 2 <= s@.len(),
    ensures
        r == at(s@, from as int, from + 2),
{
    assert(s.len() == s@.len());
    crate::bytes::le_u16(vstd::slice::slice_subrange(s, from, from + 2))
}

fn u32_at(s: &[u8], from: usize) -> (r: u32)
    requires
        from + 4 <= s@.len(),
    ensures
        r == at(s@, from as int, from + 4),
{
    assert(s.len() == s@.len());
    crate::bytes::le_u32(vstd::slice::slice_subrange(s, from, from + 4))
}

fn u64_at(s: &[u8], from: usize) -> (r: u64)
    requires
        from + 8 <= s@.len(),
    ensures
        r == at(s@, from as int, from + 8),
{
    assert(s.len() == s@.len());
    crate::bytes::le_u64(vstd::slice::slice_subrange(s, from, from + 8))
}

/// Reads the location in an information record.
pub fn parse_location(info: &[u8], role: Role, has_name: bool) -> (r: Result<Location, WatchError>)
    ensures
        match r {
            Ok(l) => location_in(info@, role, has_name) == Ok::<LocationView, WatchError>(l@),
            Err(e) => location_in(info@, role, has_name) == Err::<LocationView, WatchError>(e),
        },
{
    let total: usize = info.len();
    if total < FID_PREFIX_LEN + FILE_HANDLE_HEADER_LEN {
        return Err(WatchError::ShortFid);
    }
    let n: u32 = u32_at(info, 12);
    if n as u64 > (total - 20) as u64 {
        return Err(WatchError::HandlePastInfo);
    }
    let end: usize = 20 + n as usize;
    let handle = crate::bytes::to_vec(vstd::slice::slice_subrange(info, 12, end));
    if !has_name {
        let l = Location { role, handle, name: None };
        assert(l@ =~= location_in(info@, role, has_name)->Ok_0);
        return Ok(l);
    }
    let nul: usize = find_nul(info, end);
    if nul >= total {
        return Err(WatchError::UnterminatedName);
    }
    let name = crate::bytes::to_vec(vstd::slice::slice_subrange(info, end, nul));
    assert(name@ =~= info@.skip(end as int).take(nul - end));
    let l = Location { role, handle, name: Some(name) };
    assert(l@ =~= location_in(info@, role, has_name)->Ok_0);
    Ok(l)
}

/// A result with something in front of it.
pub open spec fn behind<T>(front: Seq<T>, r: Result<Seq<T>, WatchError>) -> Result<
    Seq<T>,
    WatchError,
> {
    match r {
        Ok(s) => Ok(front + s),
        Err(e) => Err(e),
    }
}

fn parse_infos(s: &[u8], from: usize, to: usize) -> (r: Result<Vec<Location>, WatchError>)
    requires
        from <= to <= s@.len(),
    ensures
        match r {
            Ok(ls) => locations_in(s@.subrange(from as int, to as int)) == Ok::<
                Seq<LocationView>,
                WatchError,
            >(location_views(ls@)),
            Err(e) => locations_in(s@.subrange(from as int, to as int)) == Err::<
                Seq<LocationView>,
                WatchError,
            >(e),
        },
{
    let ghost all = locations_in(s@.subrange(from as int, to as int));
    let mut out: Vec<Location> = Vec::new();
    let mut p: usize = from;
    proof {
        assert(location_views(out@) =~= Seq::empty());
        assert(behind(location_views(out@), all) =~= all) by {
            if all is Ok {
                assert(Seq::<LocationView>::empty() + all->Ok_0 =~= all->Ok_0);
            }
        }
    }
    while p < to
        invariant
            from <= p <= to <= s@.len(),
            all == locations_in(s@.subrange(from as int, to as int)),
            all == behind(location_views(out@), locations_in(s@.subrange(p as int, to as int))),
        decreases to - p,
    {
        let ghost rest = s@.subrange(p as int, to as int);
        if to - p < INFO_HEADER_LEN {
            return Err(WatchError::TruncatedInfo);
        }
        assert(rest.subrange(2, 4) =~= s@.subrange(p + 2, p + 4));
        let n: usize = u16_at(s, p + 2) as usize;
        if n < INFO_HEADER_LEN || n > to - p {
            return Err(WatchError::InvalidInfoLength);
        }
        let kind: u8 = s[p];
        assert(rest[0] == kind);
        assert(rest.skip(n as int) =~= s@.subrange(p + n, to as int));
        let ghost next = locations_in(s@.subrange(p + n, to as int));
        let ghost had = location_views(out@);
        if let Some(role) = role_for(kind) {
            let info = vstd::slice::slice_subrange(s, p, p + n);
            assert(info@ =~= rest.take(n as int));
            match parse_location(info, role, kind != INFO_FID && kind != INFO_DFID) {
                Err(e) => {
                    return Err(e);
                },
                Ok(l) => {
                    let ghost v = l@;
                    out.push(l);
                    proof {
                        assert(location_views(out@) =~= had.push(v));
                        if next is Ok {
                            assert(had + (seq![v] + next->Ok_0) =~= had.push(v) + next->Ok_0);
                        }
                    }
                },
            }
        }
        p = p + n;
    }
    proof {
        assert(s@.subrange(p as int, to as int) =~= Seq::empty());
        assert(location_views(out@) + Seq::<LocationView>::empty() =~= location_views(out@));
    }
    Ok(out)
}

/// Reads the events in a buffer.
pub fn parse_events(bytes: &[u8]) -> (r: Result<Vec<ParsedEvent>, WatchError>)
    ensures
        match r {
            Ok(es) => events_in(bytes@) == Ok::<Seq<EventView>, WatchError>(event_views(es@)),
            Err(e) => events_in(bytes@) == Err::<Seq<EventView>, WatchError>(e),
        },
{
    let ghost all = events_in(bytes@);
    let total: usize = bytes.len();
    let mut out: Vec<ParsedEvent> = Vec::new();
    let mut p: usize = 0;
    proof {
        assert(bytes@.skip(0) =~= bytes@);
        assert(event_views(out@) =~= Seq::empty());
        if all is Ok {
            assert(Seq::<EventView>::empty() + all->Ok_0 =~= all->Ok_0);
        }
    }
    while p < total
        invariant
            p <= total == bytes@.len(),
            all == events_in(bytes@),
            all == behind(event_views(out@), events_in(bytes@.skip(p as int))),
        decreases total - p,
    {
        let ghost rest = bytes@.skip(p as int);
        if total - p < META_LEN {
            return Err(WatchError::TruncatedMetadata);
        }
        proof {
            assert(rest.subrange(0, 4) =~= bytes@.subrange(p as int, p + 4));
            assert(rest.subrange(6, 8) =~= bytes@.subrange(p + 6, p + 8));
            assert(rest.subrange(8, 16) =~= bytes@.subrange(p + 8, p + 16));
            assert(rest[4] == bytes@[p + 4]);
        }
        let n: u32 = u32_at(bytes, p);
        let m: u16 = u16_at(bytes, p + 6);
        if bytes[p + 4] != METADATA_VERSION {
            return Err(WatchError::UnsupportedVersion);
        }
        if (m as usize) < META_LEN || n < m as u32 {
            return Err(WatchError::InvalidLengths);
        }
        if n as u64 > (total - p) as u64 {
            return Err(WatchError::EventPastBuffer);
        }
        let end: usize = p + n as usize;
        let mask: u64 = u64_at(bytes, p + 8);
        assert(bytes@.subrange(p + m, end as int) =~= rest.subrange(m as int, n as int));
        match parse_infos(bytes, p + m as usize, end) {
            Err(e) => {
                return Err(e);
            },
            Ok(locations) => {
                let ghost had = event_views(out@);
                let event = ParsedEvent { mask, locations };
                let ghost v = event@;
                out.push(event);
                proof {
                    assert(event_views(out@) =~= had.push(v));
                    assert(rest.skip(n as int) =~= bytes@.skip(end as int));
                    let next = events_in(bytes@.skip(end as int));
                    if next is Ok {
                        assert(had + (seq![v] + next->Ok_0) =~= had.push(v) + next->Ok_0);
                    }
                }
            },
        }
        p = end;
    }
    proof {
        assert(bytes@.skip(p as int) =~= Seq::empty());
        assert(event_views(out@) + Seq::<EventView>::empty() =~= event_views(out@));
    }
    Ok(out)
}

// ---------------------------------------------------------------------------
// What the events mean

/// One of the events has one of these bits.
pub open spec fn any_of(es: Seq<EventView>, bits: u64) -> bool {
    exists|i: int| 0 <= i < es.len() && (#[trigger] es[i]).mask & bits != 0
}

/// A directory was moved.
pub open spec fn moves_directory(es: Seq<EventView>) -> bool {
    exists|i: int|
        0 <= i < es.len() && (#[trigger] es[i]).mask & FAN_ONDIR != 0 && es[i].mask & (FAN_MOVE
            | FAN_RENAME) != 0
}

/// Why events cannot be followed by changes alone.
pub open spec fn rescan_of(es: Seq<EventView>, atomic_rename: bool) -> Option<Seq<char>> {
    if any_of(es, FAN_Q_OVERFLOW) {
        Some("fanotify queue overflowed"@)
    } else if moves_directory(es) {
        Some("directory rename requires descendant path reconciliation"@)
    } else if !atomic_rename && any_of(es, FAN_MOVE) {
        Some("kernel reported an unpaired move event"@)
    } else {
        None
    }
}

fn any_event(es: &Vec<ParsedEvent>, bits: u64) -> (r: bool)
    ensures
        r == any_of(event_views(es@), bits),
{
    let ghost views = event_views(es@);
    let mut i: usize = 0;
    while i < es.len()
        invariant
            i <= es@.len(),
            views == event_views(es@),
            forall|k: int| 0 <= k < i ==> (#[trigger] views[k]).mask & bits == 0,
        decreases es@.len() - i,
    {
        assert(views[i as int] == es@[i as int]@);
        if es[i].mask & bits != 0 {
            return true;
        }
        i += 1;
    }
    false
}

fn any_moved_directory(es: &Vec<ParsedEvent>) -> (r: bool)
    ensures
        r == moves_directory(event_views(es@)),
{
    let ghost views = event_views(es@);
    let mut i: usize = 0;
    while i < es.len()
        invariant
            i <= es@.len(),
            views == event_views(es@),
            forall|k: int|
                0 <= k < i ==> (#[trigger] views[k]).mask & FAN_ONDIR == 0 || views[k].mask & (
                FAN_MOVE | FAN_RENAME) == 0,
        decreases es@.len() - i,
    {
        assert(views[i as int] == es@[i as int]@);
        if es[i].mask & FAN_ONDIR != 0 && es[i].mask & (FAN_MOVE | FAN_RENAME) != 0 {
            return true;
        }
        i += 1;
    }
    false
}

/// Why events cannot be followed by changes alone.
pub fn rescan_reason(events: &Vec<ParsedEvent>, atomic_rename: bool) -> (r: Option<&'static str>)
    ensures
        match r {
            Some(t) => rescan_of(event_views(events@), atomic_rename) == Some(t@),
            None => rescan_of(event_views(events@), atomic_rename) is None,
        },
{
    if any_event(events, FAN_Q_OVERFLOW) {
        return Some("fanotify queue overflowed");
    }
    if any_moved_directory(events) {
        return Some("directory rename requires descendant path reconciliation");
    }
    if !atomic_rename && any_event(events, FAN_MOVE) {
        return Some("kernel reported an unpaired move event");
    }
    None
}

/// What the system says of a file.
#[derive(Debug, Clone, Copy, PartialEq, Eq, Structural)]
pub struct FileStat {
    pub mode: u32,
    pub size: i64,
    pub mtime: i64,
    pub ino: u64,
}

/// What came of looking a location up.
#[derive(Debug)]
pub enum Resolution {
    /// It is at a path, with what stands there now, and the number of its directory.
    Found { path: String, stat: Option<FileStat>, parent: u64 },
    /// The handle no longer leads anywhere.
    Gone,
    /// The system reported an error.
    Failed(String),
}

/// The same as a mathematical value.
#[verifier::ext_equal]
pub enum ResolutionView {
    Found { path: Seq<char>, stat: Option<FileStat>, parent: u64 },
    Gone,
    Failed(Seq<char>),
}

impl View for Resolution {
    type V = ResolutionView;

    open spec fn view(&self) -> ResolutionView {
        match self {
            Resolution::Found { path, stat, parent } => ResolutionView::Found {
                path: path@,
                stat: *stat,
                parent: *parent,
            },
            Resolution::Gone => ResolutionView::Gone,
            Resolution::Failed(e) => ResolutionView::Failed(e@),
        }
    }
}

/// What is watched: a mount, the number of its source, and the files that are left out.
pub struct Watched {
    pub mount: MountInfo,
    pub source: u32,
    pub excluded: Vec<String>,
}

/// The same as a mathematical value.
#[verifier::ext_equal]
pub struct WatchedView {
    pub mount: MountView,
    pub source: u32,
    pub excluded: Seq<Seq<char>>,
}

impl View for Watched {
    type V = WatchedView;

    open spec fn view(&self) -> WatchedView {
        WatchedView {
            mount: self.mount@,
            source: self.source,
            excluded: crate::text::strings(self.excluded@),
        }
    }
}

/// The path lies outside the mount or is one of the files that are left out.
pub open spec fn leaves_out(w: WatchedView, path: Seq<char>) -> bool {
    !crate::host::path_starts_with(Host::Linux, path, w.mount.mountpoint) || exists|i: int|
        0 <= i < w.excluded.len() && crate::host::same_path(Host::Linux, path, #[trigger] w.excluded[i])
}

/// The kind of file that a mode tells of.
pub open spec fn kind_of_mode(mode: u32) -> FileKind {
    let k = mode & 0o170000;
    if k == 0o040000 {
        FileKind::Dir
    } else if k == 0o120000 {
        FileKind::Symlink
    } else if k == 0o100000 {
        FileKind::File
    } else {
        FileKind::Other
    }
}

/// The record of a file that was found.
pub open spec fn found_record(w: WatchedView, path: Seq<char>, s: FileStat, parent: u64) -> RecordView {
    RecordView {
        path,
        size: if s.size > 0 {
            s.size as u64
        } else {
            0
        },
        mtime: s.mtime,
        mode: s.mode,
        kind: kind_of_mode(s.mode),
        fs: w.mount.fs,
        native_id: s.ino,
        native_parent: parent,
        source: w.source,
    }
}

/// What a batch has come to so far.
#[verifier::ext_equal]
pub enum Gathered {
    Changes(Map<Seq<char>, ChangeView>),
    Gone,
    Failed(Seq<char>),
}

/// A path that was taken away is noted.
pub open spec fn removed(m: Map<Seq<char>, ChangeView>, path: Seq<char>) -> Map<Seq<char>, ChangeView> {
    m.insert(path, ChangeView::Remove(path))
}

/// A record that was brought is noted.
pub open spec fn upserted(m: Map<Seq<char>, ChangeView>, r: RecordView) -> Map<Seq<char>, ChangeView> {
    m.insert(r.path, ChangeView::Upsert(r))
}

/// What a named location of an event makes of the changes.
pub open spec fn named_change(
    w: WatchedView,
    m: Map<Seq<char>, ChangeView>,
    mask: u64,
    role: Role,
    r: ResolutionView,
) -> Gathered {
    match r {
        ResolutionView::Gone => Gathered::Gone,
        ResolutionView::Failed(e) => Gathered::Failed(e),
        ResolutionView::Found { path, stat, parent } => Gathered::Changes(
            if leaves_out(w, path) {
                m
            } else if role == Role::Old || (role == Role::Current && mask & TAKES_AWAY != 0) {
                removed(m, path)
            } else if role == Role::New || mask & BRINGS != 0 {
                match stat {
                    Some(s) => upserted(m, found_record(w, path, s, parent)),
                    None => removed(m, path),
                }
            } else {
                m
            },
        ),
    }
}

/// What the object of an event makes of the changes.
pub open spec fn object_change(
    w: WatchedView,
    m: Map<Seq<char>, ChangeView>,
    r: ResolutionView,
) -> Gathered {
    match r {
        ResolutionView::Gone => Gathered::Gone,
        ResolutionView::Failed(e) => Gathered::Failed(e),
        ResolutionView::Found { path, stat, parent } => Gathered::Changes(
            if leaves_out(w, path) {
                m
            } else {
                match stat {
                    Some(s) => upserted(m, found_record(w, path, s, parent)),
                    None => m,
                }
            },
        ),
    }
}

/// A location of an event that has to be looked up: what it is to the event, whether it has
/// a name, and what came of it.
pub struct LookedUp {
    pub mask: u64,
    pub role: Role,
    pub named: bool,
    pub found: Resolution,
}

/// The same as a mathematical value.
#[verifier::ext_equal]
pub struct LookedUpView {
    pub mask: u64,
    pub role: Role,
    pub named: bool,
    pub found: ResolutionView,
}

impl View for LookedUp {
    type V = LookedUpView;

    open spec fn view(&self) -> LookedUpView {
        LookedUpView {
            mask: self.mask,
            role: self.role,
            named: self.named,
            found: self.found@,
        }
    }
}

/// What some locations, in order, come to. The first that is gone or fails ends the batch.
pub open spec fn gathered(w: WatchedView, ls: Seq<LookedUpView>) -> Gathered
    decreases ls.len(),
{
    if ls.len() == 0 {
        Gathered::Changes(Map::empty())
    } else {
        match gathered(w, ls.drop_last()) {
            Gathered::Changes(m) => if ls.last().named {
                named_change(w, m, ls.last().mask, ls.last().role, ls.last().found)
            } else {
                object_change(w, m, ls.last().found)
            },
            g => g,
        }
    }
}

/// The views of locations that were looked up.
pub open spec fn looked_up_views(ls: Seq<LookedUp>) -> Seq<LookedUpView> {
    Seq::new(ls.len(), |i: int| ls[i]@)
}

/// Where the locations stand that have to be looked up: those with a name, or, where there
/// are none and the event changed its object, the object.
pub open spec fn to_look_up(e: EventView) -> Seq<int> {
    let names = named_positions(e.locations);
    if names.len() > 0 {
        names
    } else if e.mask & TOUCHES == 0 {
        Seq::empty()
    } else {
        match object_position(e.locations) {
            Some(i) => seq![i],
            None => Seq::empty(),
        }
    }
}

/// The positions of the locations with a name.
pub open spec fn named_positions(ls: Seq<LocationView>) -> Seq<int>
    decreases ls.len(),
{
    if ls.len() == 0 {
        Seq::empty()
    } else if ls.last().name is Some {
        named_positions(ls.drop_last()).push(ls.len() - 1)
    } else {
        named_positions(ls.drop_last())
    }
}

/// The position of the first location that is the object.
pub open spec fn object_position(ls: Seq<LocationView>) -> Option<int>
    decreases ls.len(),
{
    if ls.len() == 0 {
        None
    } else {
        match object_position(ls.drop_last()) {
            Some(i) => Some(i),
            None => if ls.last().role == Role::Object {
                Some(ls.len() - 1)
            } else {
                None
            },
        }
    }
}

/// Positions as numbers.
pub open spec fn positions(v: Seq<usize>) -> Seq<int> {
    Seq::new(v.len(), |i: int| v[i] as int)
}

/// The locations of an event that have to be looked up.
pub fn locations_to_look_up(e: &ParsedEvent) -> (r: Vec<usize>)
    ensures
        positions(r@) == to_look_up(e@),
{
    let ghost ls = e@.locations;
    let mut names: Vec<usize> = Vec::new();
    let mut object: Option<usize> = None;
    let mut i: usize = 0;
    proof {
        assert(ls.take(0) =~= Seq::empty());
        assert(positions(names@) =~= Seq::empty());
    }
    while i < e.locations.len()
        invariant
            i <= e.locations@.len(),
            ls == location_views(e.locations@),
            positions(names@) == named_positions(ls.take(i as int)),
            match object {
                Some(k) => object_position(ls.take(i as int)) == Some(k as int),
                None => object_position(ls.take(i as int)) is None,
            },
        decreases e.locations@.len() - i,
    {
        let ghost had = positions(names@);
        proof {
            assert(ls.take(i + 1).drop_last() =~= ls.take(i as int));
            assert(ls[i as int] == e.locations@[i as int]@);
        }
        if e.locations[i].name.is_some() {
            names.push(i);
            assert(positions(names@) =~= had.push(i as int));
        }
        if object.is_none() && e.locations[i].role == Role::Object {
            object = Some(i);
        }
        i += 1;
    }
    assert(ls.take(i as int) =~= ls);
    if names.len() > 0 {
        return names;
    }
    let mut out: Vec<usize> = Vec::new();
    if e.mask & TOUCHES != 0 {
        if let Some(k) = object {
            out.push(k);
        }
    }
    assert(positions(out@) =~= to_look_up(e@));
    out
}

fn is_excluded(w: &Watched, path: &str) -> (r: bool)
    ensures
        r == leaves_out(w@, path@),
{
    let p = crate::text::chars_of(path);
    let root = crate::text::chars_of(w.mount.mountpoint.as_str());
    if !crate::host::begins_with(Host::Linux, p.as_slice(), root.as_slice()) {
        return true;
    }
    let ghost ex = w@.excluded;
    let mut i: usize = 0;
    while i < w.excluded.len()
        invariant
            i <= w.excluded@.len(),
            ex == crate::text::strings(w.excluded@),
            ex == w@.excluded,
            crate::host::path_starts_with(Host::Linux, path@, w@.mount.mountpoint),
            forall|k: int| 0 <= k < i ==> !crate::host::same_path(Host::Linux, path@, #[trigger] ex[k]),
        decreases w.excluded@.len() - i,
    {
        assert(ex[i as int] == w.excluded@[i as int]@);
        if crate::host::same(Host::Linux, path, w.excluded[i].as_str()) {
            return true;
        }
        i += 1;
    }
    false
}

fn make_record(w: &Watched, path: String, s: &FileStat, parent: u64) -> (r: FileRecord)
    ensures
        r@ == found_record(w@, path@, *s, parent),
{
    let k: u32 = s.mode & 0o170000;
    let kind = if k == 0o040000 {
        FileKind::Dir
    } else if k == 0o120000 {
        FileKind::Symlink
    } else if k == 0o100000 {
        FileKind::File
    } else {
        FileKind::Other
    };
    FileRecord {
        path,
        size: if s.size > 0 {
            s.size as u64
        } else {
            0
        },
        mtime: s.mtime,
        mode: s.mode,
        kind,
        fs: w.mount.fs.clone(),
        native_id: s.ino,
        native_parent: parent,
        source: w.source,
    }
}

/// The changes of a batch: sorted by path, one for each.
pub open spec fn lists_changes(cs: Seq<ChangeView>, m: Map<Seq<char>, ChangeView>) -> bool {
    &&& forall|i: int|
        0 <= i < cs.len() ==> m.contains_key(crate::delta::path_of(#[trigger] cs[i]))
            && m[crate::delta::path_of(cs[i])] == cs[i]
    &&& forall|p: Seq<char>| #[trigger]
        m.contains_key(p) ==> exists|i: int|
            0 <= i < cs.len() && crate::delta::path_of(#[trigger] cs[i]) == p
    &&& forall|i: int, j: int|
        0 <= i < j < cs.len() ==> crate::order::text_lt(
            crate::delta::path_of(#[trigger] cs[i]),
            crate::delta::path_of(#[trigger] cs[j]),
        )
}

/// The outcome of a batch.
pub open spec fn batch_of(g: Gathered, r: Result<WatchBatch, String>) -> bool {
    match g {
        Gathered::Changes(m) => match r {
            Ok(WatchBatch::Changes(cs)) => lists_changes(crate::store::change_views(cs@), m),
            _ => false,
        },
        Gathered::Gone => match r {
            Ok(WatchBatch::RescanRequired(t)) => t@
                == "an event path became unresolvable before delivery"@,
            _ => false,
        },
        Gathered::Failed(e) => match r {
            Err(t) => t@ == e,
            _ => false,
        },
    }
}

proof fn lemma_gathered_stop(w: WatchedView, ls: Seq<LookedUpView>, i: int)
    requires
        0 <= i < ls.len(),
        !(gathered(w, ls.take(i + 1)) is Changes),
    ensures
        gathered(w, ls) == gathered(w, ls.take(i + 1)),
    decreases ls.len(),
{
    if i == ls.len() - 1 {
        assert(ls.take(i + 1) =~= ls);
    } else {
        assert(ls.drop_last().take(i + 1) =~= ls.take(i + 1));
        lemma_gathered_stop(w, ls.drop_last(), i);
    }
}

/// Turns the locations that were looked up, in the order of the events, into the changes of
/// a batch.
pub fn collect_events(w: &Watched, found: Vec<LookedUp>) -> (r: Result<WatchBatch, String>)
    ensures
        batch_of(gathered(w@, looked_up_views(found@)), r),
        match r {
            Ok(WatchBatch::Changes(cs)) => crate::watch_laws::tells_the_last_word(
                w@,
                looked_up_views(found@),
                crate::store::change_views(cs@),
            ),
            _ => true,
        },
{
    let ghost all = looked_up_views(found@);
    let total: usize = found.len();
    let mut changes: PathMap<DeltaChange> = PathMap::new();
    let mut i: usize = 0;
    assert(all.take(0) =~= Seq::empty());
    for item in it: found
        invariant
            it.seq() == found@,
            i == it.index(),
            i <= total == found@.len(),
            all == looked_up_views(found@),
            changes.wf(),
            gathered(w@, all.take(i as int)) == Gathered::Changes(changes.entries()),
    {
        proof {
            assert(all.take(i + 1).drop_last() =~= all.take(i as int));
            assert(all[i as int] == item@);
        }
        let LookedUp { mask, role, named, found: resolution } = item;
        match resolution {
            Resolution::Gone => {
                proof {
                    lemma_gathered_stop(w@, all, i as int);
                }
                return Ok(
                    WatchBatch::RescanRequired(
                        "an event path became unresolvable before delivery".to_owned(),
                    ),
                );
            },
            Resolution::Failed(e) => {
                proof {
                    lemma_gathered_stop(w@, all, i as int);
                }
                return Err(e);
            },
            Resolution::Found { path, stat, parent } => {
                if !is_excluded(w, path.as_str()) {
                    let takes: bool = named && (role == Role::Old || (role == Role::Current && mask
                        & TAKES_AWAY != 0));
                    let brings: bool = !named || role == Role::New || mask & BRINGS != 0;
                    if takes {
                        changes.insert(DeltaChange::Remove(path));
                    } else if brings {
                        match stat {
                            Some(s) => {
                                let rec = make_record(w, path, &s, parent);
                                changes.insert(DeltaChange::Upsert(rec));
                            },
                            None => {
                                if named {
                                    changes.insert(DeltaChange::Remove(path));
                                }
                            },
                        }
                    }
                }
            },
        }
        i = i + 1;
    }
    assert(all.take(i as int) =~= all);
    let ghost items = changes.items();
    let ghost m = changes.entries();
    let out = changes.into_items();
    proof {
        let cs = crate::store::change_views(out@);
        let keys = crate::pathmap::keys_of(items);
        assert forall|i: int| 0 <= i < cs.len() implies m.contains_key(
            crate::delta::path_of(#[trigger] cs[i]),
        ) && m[crate::delta::path_of(cs[i])] == cs[i] by {
            crate::pathmap::lemma_key_position(items, i);
        }
        assert forall|p: Seq<char>| #[trigger] m.contains_key(p) implies exists|i: int|
            0 <= i < cs.len() && crate::delta::path_of(#[trigger] cs[i]) == p by {
            let i = keys.index_of(p);
            assert(keys.contains(p));
            assert(crate::delta::path_of(cs[i]) == p);
        }
        assert forall|i: int, j: int| 0 <= i < j < cs.len() implies crate::order::text_lt(
            crate::delta::path_of(#[trigger] cs[i]),
            crate::delta::path_of(#[trigger] cs[j]),
        ) by {
            assert(crate::order::text_lt(keys[i], keys[j]));
        }
    }
    let r = Ok(WatchBatch::Changes(out));
    proof {
        crate::watch_laws::law_the_last_word_on_a_path_stands(w@, all, r);
    }
    r
}

} // verus!
