//! The macOS lane: the namespace comes from Spotlight, or from bulk attribute reads where
//! Spotlight is off.

use crate::clock::Stopwatch;
use crate::host::Host;
use crate::mounts::{FsKind, FsView};
use crate::types::{FileKind, FileRecord, RecordView, ScanStats};
use vstd::prelude::*;

verus! {

/// The Spotlight query for every file and folder.
pub const SPOTLIGHT_QUERY: &'static str = "kMDItemContentTypeTree == 'public.item'";

/// The parts of some bytes between NUL bytes.
pub open spec fn nul_parts(b: Seq<u8>) -> Seq<Seq<u8>>
    decreases b.len(),
{
    if b.len() == 0 {
        seq![Seq::empty()]
    } else {
        let less = nul_parts(b.drop_last());
        if b.last() == 0 {
            less.push(Seq::empty())
        } else {
            less.drop_last().push(less.last().push(b.last()))
        }
    }
}

/// The texts among some parts: what is empty or not UTF-8 is left out.
pub open spec fn texts_among(parts: Seq<Seq<u8>>) -> Seq<Seq<char>>
    decreases parts.len(),
{
    if parts.len() == 0 {
        Seq::empty()
    } else {
        let less = texts_among(parts.drop_last());
        let p = parts.last();
        if p.len() > 0 && vstd::utf8::valid_utf8(p) {
            less.push(vstd::utf8::decode_utf8(p))
        } else {
            less
        }
    }
}

fn keep_text(out: &mut Vec<String>, part: Vec<u8>)
    ensures
        crate::text::strings(final(out)@) == if part@.len() > 0 && vstd::utf8::valid_utf8(part@) {
            crate::text::strings(old(out)@).push(vstd::utf8::decode_utf8(part@))
        } else {
            crate::text::strings(old(out)@)
        },
{
    let ghost had = crate::text::strings(out@);
    if part.len() > 0 {
        if let Some(t) = crate::text::text_from_utf8(part) {
            out.push(t);
            assert(crate::text::strings(out@) =~= had.push(t@));
        }
    }
}

/// Reads the output of `mdfind -0`: paths that each end with a NUL byte, so that a path may
/// hold line breaks.
pub fn parse_mdfind_nul(bytes: &[u8]) -> (r: Vec<String>)
    ensures
        crate::text::strings(r@) == texts_among(nul_parts(bytes@)),
{
    let mut out: Vec<String> = Vec::new();
    let mut part: Vec<u8> = Vec::new();
    let mut i: usize = 0;
    proof {
        assert(bytes@.take(0) =~= Seq::empty());
        assert(nul_parts(Seq::empty()).drop_last() =~= Seq::empty());
        assert(crate::text::strings(out@) =~= Seq::empty());
        assert(part@ =~= Seq::empty());
    }
    while i < bytes.len()
        invariant
            i <= bytes@.len(),
            nul_parts(bytes@.take(i as int)).len() > 0,
            nul_parts(bytes@.take(i as int)).last() == part@,
            crate::text::strings(out@) == texts_among(
                nul_parts(bytes@.take(i as int)).drop_last(),
            ),
        decreases bytes@.len() - i,
    {
        let ghost before = nul_parts(bytes@.take(i as int));
        let ghost next = nul_parts(bytes@.take(i + 1));
        proof {
            assert(bytes@.take(i + 1).drop_last() =~= bytes@.take(i as int));
            assert(bytes@.take(i + 1).last() == bytes@[i as int]);
        }
        if bytes[i] == 0 {
            let mut done: Vec<u8> = Vec::new();
            std::mem::swap(&mut done, &mut part);
            keep_text(&mut out, done);
            proof {
                assert(next.drop_last() =~= before);
                assert(part@ =~= Seq::empty());
            }
        } else {
            part.push(bytes[i]);
            assert(next.drop_last() =~= before.drop_last());
        }
        i += 1;
    }
    assert(bytes@.take(i as int) =~= bytes@);
    keep_text(&mut out, part);
    out
}

// ---------------------------------------------------------------------------
// Spotlight

/// What follows a Spotlight query.
pub enum Spotlight {
    /// It failed, for this reason.
    Failed(String),
    /// Spotlight is off: read attributes in bulk.
    Fallback,
    /// Look up the attributes of these paths.
    Found(Vec<String>),
}

/// What follows a Spotlight query. `status` is what `mdutil -s` says, asked where nothing was
/// found.
pub fn spotlight_answer(success: bool, stdout: &[u8], stderr: &[u8], status: Option<&[u8]>) -> (r:
    Spotlight)
    ensures
        ({
            let paths = texts_among(nul_parts(stdout@));
            let off = status is Some && crate::text::first_occurrence(
                crate::text::lossy_text(status->0@),
                "Indexing disabled"@,
            ) is Some;
            match r {
                Spotlight::Failed(e) => !success && e@ == "Spotlight query failed: "@
                    + crate::text::lossy_text(stderr@),
                Spotlight::Fallback => success && paths.len() == 0 && off,
                Spotlight::Found(ps) => success && crate::text::strings(ps@) == paths && !(
                paths.len() == 0 && off),
            }
        }),
{
    if !success {
        let why = crate::text::text_from_utf8_lossy(stderr);
        return Spotlight::Failed(crate::text::joined("Spotlight query failed: ", why.as_str()));
    }
    let paths = parse_mdfind_nul(stdout);
    assert(crate::text::strings(paths@).len() == paths@.len());
    if paths.len() == 0 {
        if let Some(s) = status {
            let text = crate::text::text_from_utf8_lossy(s);
            let chars = crate::text::chars_of(text.as_str());
            if crate::text::contains_text(chars.as_slice(), "Indexing disabled") {
                return Spotlight::Fallback;
            }
        }
    }
    Spotlight::Found(paths)
}

/// A path and its attributes.
pub struct Looked {
    pub path: String,
    pub kind: FileKind,
    pub size: u64,
    pub mtime: i64,
    pub mode: u32,
}

/// The record of a path and its attributes.
pub open spec fn apfs_record(
    path: Seq<char>,
    kind: FileKind,
    size: u64,
    mtime: i64,
    mode: u32,
) -> RecordView {
    RecordView {
        path,
        size,
        mtime,
        mode,
        kind,
        fs: FsView::Unsupported("apfs"@),
        native_id: 0,
        native_parent: 0,
        source: 0,
    }
}

/// The record of what was looked up.
pub open spec fn looked_record(l: Looked) -> RecordView {
    apfs_record(l.path@, l.kind, l.size, l.mtime, l.mode)
}

/// How many records are plain files.
pub open spec fn files_among(rs: Seq<RecordView>) -> nat
    decreases rs.len(),
{
    if rs.len() == 0 {
        0
    } else {
        files_among(rs.drop_last()) + if rs.last().kind is File {
            1nat
        } else {
            0nat
        }
    }
}

fn make_record(path: String, kind: FileKind, size: u64, mtime: i64, mode: u32) -> (r: FileRecord)
    ensures
        r@ == apfs_record(path@, kind, size, mtime, mode),
{
    FileRecord {
        path,
        size,
        mtime,
        mode,
        kind,
        fs: FsKind::Unsupported("apfs".to_owned()),
        native_id: 0,
        native_parent: 0,
        source: 0,
    }
}

/// The records of paths that Spotlight knows, and the totals of the scan. Paths whose
/// attributes could not be had are not among them.
pub fn spotlight_records(found: Vec<Looked>, watch: &Stopwatch) -> (r: (Vec<FileRecord>, ScanStats))
    ensures
        crate::types::record_views(r.0@) == Seq::new(
            found@.len(),
            |i: int| looked_record(found@[i]),
        ),
        r.1.records == found@.len(),
        r.1.dirs == crate::ext4::dirs_among(crate::types::record_views(r.0@)),
        r.1.files == files_among(crate::types::record_views(r.0@)),
        r.1.bytes_read == 0,
        r.1.detail@ == "Spotlight index (mdfind namespace + one metadata lookup per hit)"@,
{
    let ghost views = Seq::new(found@.len(), |i: int| looked_record(found@[i]));
    let total: usize = found.len();
    let mut out: Vec<FileRecord> = Vec::new();
    let mut dirs: u64 = 0;
    let mut files: u64 = 0;
    let mut i: usize = 0;
    proof {
        assert(views.take(0) =~= Seq::empty());
        assert(crate::types::record_views(out@) =~= Seq::empty());
    }
    for l in it: found
        invariant
            it.seq() == found@,
            i == it.index(),
            i <= total == found@.len(),
            views == Seq::new(found@.len(), |i: int| looked_record(found@[i])),
            crate::types::record_views(out@) == views.take(i as int),
            dirs == crate::ext4::dirs_among(views.take(i as int)),
            files == files_among(views.take(i as int)),
            dirs + files <= i,
    {
        let ghost had = crate::types::record_views(out@);
        let ghost v = looked_record(l);
        match l.kind {
            FileKind::Dir => {
                dirs = dirs + 1;
            },
            FileKind::File => {
                files = files + 1;
            },
            _ => {},
        }
        let record = make_record(l.path, l.kind, l.size, l.mtime, l.mode);
        out.push(record);
        proof {
            assert(views[i as int] == v);
            assert(crate::types::record_views(out@) =~= had.push(v));
            assert(views.take(i + 1) =~= views.take(i as int).push(v));
            assert(views.take(i + 1).drop_last() =~= views.take(i as int));
        }
        i = i + 1;
    }
    assert(views.take(i as int) =~= views);
    let stats = ScanStats {
        records: total as u64,
        dirs,
        files,
        bytes_read: 0,
        wall_ms: watch.millis(),
        detail: "Spotlight index (mdfind namespace + one metadata lookup per hit)".to_owned(),
    };
    (out, stats)
}

/// A scan of what Spotlight knows; only macOS has it.
pub fn scan(host: Host, found: Vec<Looked>, watch: &Stopwatch) -> (r: Result<
    (Vec<FileRecord>, ScanStats),
    String,
>)
    ensures
        match r {
            Ok((records, stats)) => host == Host::MacOs && crate::types::record_views(records@)
                == Seq::new(found@.len(), |i: int| looked_record(found@[i])) && stats.records
                == found@.len() && stats.dirs == crate::ext4::dirs_among(
                crate::types::record_views(records@),
            ) && stats.files == files_among(crate::types::record_views(records@))
                && stats.bytes_read == 0 && stats.detail@
                == "Spotlight index (mdfind namespace + one metadata lookup per hit)"@,
            Err(e) => host != Host::MacOs && e@
                == "macOS Spotlight lane is only available on macOS"@,
        },
{
    if host == Host::MacOs {
        Ok(spotlight_records(found, watch))
    } else {
        Err("macOS Spotlight lane is only available on macOS".to_owned())
    }
}

// ---------------------------------------------------------------------------
// Bulk attributes

/// An entry of a directory.
pub struct BulkEntry {
    pub name: Vec<u8>,
    /// The system says that it is a directory.
    pub is_directory: bool,
}

/// An entry as a mathematical value.
#[verifier::ext_equal]
pub struct BulkView {
    pub name: Seq<u8>,
    pub is_directory: bool,
}

impl View for BulkEntry {
    type V = BulkView;

    open spec fn view(&self) -> BulkView {
        BulkView { name: self.name@, is_directory: self.is_directory }
    }
}

/// Entries as mathematical values.
pub open spec fn bulk_views(es: Seq<BulkEntry>) -> Seq<BulkView> {
    Seq::new(es.len(), |i: int| es[i]@)
}

/// The number of four bytes.
pub open spec fn word(b: Seq<u8>, at: int) -> nat {
    crate::bytes::le_value(b.subrange(at, at + 4))
}

/// The same read with a sign.
pub open spec fn signed_word(b: Seq<u8>, at: int) -> int {
    if word(b, at) >= 0x8000_0000 {
        word(b, at) - 0x1_0000_0000
    } else {
        word(b, at) as int
    }
}

/// A record of `len` bytes stands at `pos`.
pub open spec fn record_at(b: Seq<u8>, pos: int) -> bool {
    pos + 36 <= b.len() && word(b, pos) >= 36 && pos + word(b, pos) <= b.len()
}

/// A name without the NUL byte behind it.
pub open spec fn bare_name(n: Seq<u8>) -> Seq<u8> {
    if n.len() > 0 && n.last() == 0 {
        n.drop_last()
    } else {
        n
    }
}

/// The name can be that of an entry.
pub open spec fn is_entry_name(n: Seq<u8>) -> bool {
    &&& n.len() > 0
    &&& n != seq![46u8]
    &&& n != seq![46u8, 46u8]
    &&& !n.contains(0u8)
}

/// The entry in the record at `pos`. After the length and five words of returned attributes
/// come the place of the name, counted from its own position, the length of the name, and the
/// type of the object.
pub open spec fn entry_at(b: Seq<u8>, pos: int) -> Option<BulkView> {
    let end = pos + word(b, pos);
    let start = pos + 24 + signed_word(b, pos + 24);
    let len = word(b, pos + 28) as int;
    if len == 0 || start < 0 || start >= end {
        None
    } else {
        let stop = if start + len < end {
            start + len
        } else {
            end
        };
        let name = bare_name(b.subrange(start, stop));
        if is_entry_name(name) {
            Some(BulkView { name, is_directory: word(b, pos + 32) == 2 })
        } else {
            None
        }
    }
}

/// The entries in at most `count` records from `pos` on; a record that does not fit ends
/// them.
pub open spec fn entries_from(b: Seq<u8>, pos: int, count: nat) -> Seq<BulkView>
    decreases count,
{
    if count == 0 || !record_at(b, pos) {
        Seq::empty()
    } else {
        let rest = entries_from(b, pos + word(b, pos), (count - 1) as nat);
        match entry_at(b, pos) {
            Some(e) => seq![e] + rest,
            None => rest,
        }
    }
}

fn word_of(b: &[u8], at: usize) -> (r: u32)
    requires
        at + 4 <= b@.len(),
    ensures
        r == word(b@, at as int),
{
    assert(b.len() == b@.len());
    let part = vstd::slice::slice_subrange(b, at, at + 4);
    crate::bytes::le_u32(part)
}

fn read_entry(b: &[u8], pos: usize) -> (r: Option<BulkEntry>)
    requires
        record_at(b@, pos as int),
    ensures
        match r {
            Some(e) => entry_at(b@, pos as int) == Some(e@),
            None => entry_at(b@, pos as int) is None,
        },
{
    assert(b.len() == b@.len());
    let end: usize = pos + word_of(b, pos) as usize;
    let offset: i64 = word_of(b, pos + 24) as i64;
    let signed: i64 = if offset >= 0x8000_0000 {
        offset - 0x1_0000_0000
    } else {
        offset
    };
    let len: usize = word_of(b, pos + 28) as usize;
    let is_directory: bool = word_of(b, pos + 32) == 2;
    if len == 0 {
        return None;
    }
    let start: usize = if signed < 0 {
        let back: usize = (0 - signed) as usize;
        if back > pos + 24 {
            return None;
        }
        pos + 24 - back
    } else {
        let ahead: usize = signed as usize;
        if ahead >= end - pos - 24 {
            return None;
        }
        pos + 24 + ahead
    };
    if start >= end {
        return None;
    }
    let stop: usize = if len < end - start {
        start + len
    } else {
        end
    };
    let mut last: usize = stop;
    if b[stop - 1] == 0 {
        last = stop - 1;
    }
    let name = crate::bytes::to_vec(vstd::slice::slice_subrange(b, start, last));
    assert(name@ =~= bare_name(b@.subrange(start as int, stop as int)));
    if name.len() == 0 {
        return None;
    }
    if name.len() == 1 && name[0] == 46 {
        assert(name@ =~= seq![46u8]);
        return None;
    }
    if name.len() == 2 && name[0] == 46 && name[1] == 46 {
        assert(name@ =~= seq![46u8, 46u8]);
        return None;
    }
    let mut i: usize = 0;
    while i < name.len()
        invariant
            i <= name@.len(),
            forall|k: int| 0 <= k < i ==> name@[k] != 0,
        ensures
            i == name@.len() || name@.contains(0u8),
            i == name@.len() ==> !name@.contains(0u8),
        decreases name@.len() - i,
    {
        if name[i] == 0 {
            assert(name@[i as int] == 0u8);
            break;
        }
        i += 1;
    }
    if i < name.len() {
        return None;
    }
    Some(BulkEntry { name, is_directory })
}

/// Reads the entries that `getattrlistbulk` left in a buffer: their names and types, as asked
/// for with returned attributes, name and object type. Numbers are little-endian.
pub fn parse_bulk(b: &[u8], count: u32) -> (r: Vec<BulkEntry>)
    ensures
        bulk_views(r@) == entries_from(b@, 0, count as nat),
{
    let mut out: Vec<BulkEntry> = Vec::new();
    let mut pos: usize = 0;
    let mut left: u32 = count;
    let n: usize = b.len();
    proof {
        assert(bulk_views(out@) =~= Seq::empty());
        assert(Seq::<BulkView>::empty() + entries_from(b@, 0, count as nat) =~= entries_from(
            b@,
            0,
            count as nat,
        ));
    }
    while left > 0
        invariant
            pos <= n == b@.len(),
            bulk_views(out@) + entries_from(b@, pos as int, left as nat) == entries_from(
                b@,
                0,
                count as nat,
            ),
        decreases left,
    {
        if n - pos < 36 {
            assert(entries_from(b@, pos as int, left as nat) =~= Seq::empty());
            assert(bulk_views(out@) + Seq::empty() =~= bulk_views(out@));
            return out;
        }
        let len: usize = word_of(b, pos) as usize;
        if len < 36 || len > n - pos {
            assert(entries_from(b@, pos as int, left as nat) =~= Seq::empty());
            assert(bulk_views(out@) + Seq::empty() =~= bulk_views(out@));
            return out;
        }
        let ghost had = bulk_views(out@);
        let ghost rest = entries_from(b@, pos + len, (left - 1) as nat);
        if let Some(e) = read_entry(b, pos) {
            let ghost v = e@;
            out.push(e);
            assert(bulk_views(out@) =~= had.push(v));
            assert(had.push(v) + rest =~= had + (seq![v] + rest));
        }
        pos += len;
        left -= 1;
    }
    assert(bulk_views(out@) + Seq::empty() =~= bulk_views(out@));
    out
}

/// The path of an entry of a folder.
pub open spec fn entry_path(folder: Seq<char>, name: Seq<u8>) -> Seq<char> {
    crate::paths::below(Host::MacOs, folder, crate::text::lossy_text(name))
}

/// The record of an entry, and whether to go on with what it holds. A folder counts as such
/// where the system or its mode says so.
pub fn bulk_record(folder: &str, e: &BulkEntry, size: i64, mtime: i64, mode: u32) -> (r: (
    FileRecord,
    bool,
))
    ensures
        r.0@ == apfs_record(
            entry_path(folder@, e.name@),
            crate::btrfs::kind_of_mode(mode),
            if size > 0 {
                size as u64
            } else {
                0
            },
            mtime,
            mode,
        ),
        r.1 == (e.is_directory || crate::btrfs::kind_of_mode(mode) is Dir),
{
    let name = crate::text::text_from_utf8_lossy(e.name.as_slice());
    let path = crate::paths::place_below(Host::MacOs, folder, name.as_str());
    let kind = crate::btrfs::kind_from_mode(mode);
    let bytes: u64 = if size > 0 {
        size as u64
    } else {
        0
    };
    let dir: bool = match kind {
        FileKind::Dir => true,
        _ => false,
    };
    (make_record(path, kind, bytes, mtime, mode), e.is_directory || dir)
}

} // verus!
