//! Indexed filesystem entries.

use crate::mounts::{FsKind, FsView};
use vstd::prelude::*;
use vstd::string::StrSliceExecFns;

verus! {

/// What a record points at.
#[derive(Debug, Clone, Copy, PartialEq, Eq, Structural)]
pub enum FileKind {
    File,
    Dir,
    Symlink,
    /// Sockets, fifos, devices, or anything the scanner could not classify.
    Other,
}

/// One indexed filesystem entry. The path is the single source of truth; the file
/// name is derived from it and never stored twice.
#[derive(Debug)]
pub struct FileRecord {
    /// Absolute path as seen from the scanning machine (for remote sources, the path
    /// is prefixed with the remote mount alias by the client).
    pub path: String,
    pub size: u64,
    /// Unix seconds; 0 when the source filesystem did not provide one.
    pub mtime: i64,
    /// Unix mode bits where meaningful (0 on NTFS).
    pub mode: u32,
    pub kind: FileKind,
    /// Which filesystem lane produced this record.
    pub fs: FsKind,
    /// Filesystem-native stable object identity (inode or file reference number).
    pub native_id: u64,
    /// Filesystem-native parent identity; required for rename reconciliation.
    pub native_parent: u64,
    /// Identifies the index source: 0 is local, otherwise a remote-source id assigned
    /// by the client when merging helper indexes.
    pub source: u32,
}

/// A record as a mathematical value.
#[verifier::ext_equal]
pub struct RecordView {
    pub path: Seq<char>,
    pub size: u64,
    pub mtime: i64,
    pub mode: u32,
    pub kind: FileKind,
    pub fs: FsView,
    pub native_id: u64,
    pub native_parent: u64,
    pub source: u32,
}

impl View for FileRecord {
    type V = RecordView;

    open spec fn view(&self) -> RecordView {
        RecordView {
            path: self.path@,
            size: self.size,
            mtime: self.mtime,
            mode: self.mode,
            kind: self.kind,
            fs: self.fs@,
            native_id: self.native_id,
            native_parent: self.native_parent,
            source: self.source,
        }
    }
}

/// The views of a sequence of records.
pub open spec fn record_views(records: Seq<FileRecord>) -> Seq<RecordView> {
    Seq::new(records.len(), |i: int| records[i]@)
}

/// The part of a path behind its last slash: all of it when there is none.
pub open spec fn name_of(path: Seq<char>) -> Seq<char> {
    path.skip(crate::text::last_index(path, '/') + 1)
}

/// The part of a file name behind its last dot. A dot that begins or ends the name
/// does not count.
pub open spec fn raw_extension_of(name: Seq<char>) -> Seq<char> {
    let dot = crate::text::last_index(name, '.');
    if dot <= 0 || dot == name.len() - 1 {
        Seq::empty()
    } else {
        name.skip(dot + 1)
    }
}

impl FileRecord {
    /// File name component of the path.
    pub fn name(&self) -> (r: &str)
        ensures
            r@ == name_of(self.path@),
    {
        let chars = crate::text::chars_of(self.path.as_str());
        let total: usize = chars.len();
        match crate::text::rfind(chars.as_slice(), '/') {
            Some(i) => {
                let r = self.path.as_str().substring_char(i + 1, total);
                assert(r@ =~= name_of(self.path@));
                r
            },
            None => {
                assert(name_of(self.path@) =~= self.path@);
                self.path.as_str()
            },
        }
    }

    /// The extension as the path spells it, without the dot.
    pub(crate) fn raw_extension(&self) -> (r: &str)
        ensures
            r@ == raw_extension_of(name_of(self.path@)),
    {
        let name = self.name();
        let chars = crate::text::chars_of(name);
        match crate::text::rfind(chars.as_slice(), '.') {
            Some(i) => {
                if i == 0 || i == chars.len() - 1 {
                    name.substring_char(0, 0)
                } else {
                    let r = name.substring_char(i + 1, chars.len());
                    assert(r@ =~= raw_extension_of(name@));
                    r
                }
            },
            None => name.substring_char(0, 0),
        }
    }

    /// Extension, lowercased, without the dot. Empty for dotfiles and for names
    /// without one.
    pub fn extension(&self) -> (r: String)
        ensures
            r@ == crate::text::lowercase(raw_extension_of(name_of(self.path@))),
    {
        crate::text::to_lowercase(self.raw_extension())
    }

}

impl Clone for FileRecord {
    fn clone(&self) -> (r: FileRecord)
        ensures
            r@ == self@,
    {
        FileRecord {
            path: self.path.clone(),
            size: self.size,
            mtime: self.mtime,
            mode: self.mode,
            kind: self.kind,
            fs: self.fs.clone(),
            native_id: self.native_id,
            native_parent: self.native_parent,
            source: self.source,
        }
    }
}

/// Per-scan statistics emitted by every lane.
#[derive(Debug, Clone)]
pub struct ScanStats {
    pub records: u64,
    pub dirs: u64,
    pub files: u64,
    pub bytes_read: u64,
    pub wall_ms: u64,
    /// Human-readable lane detail, e.g. "MFT records: 412998, fragmented: no".
    pub detail: String,
}

impl Default for ScanStats {
    fn default() -> (r: ScanStats)
        ensures
            r.records == 0,
            r.dirs == 0,
            r.files == 0,
            r.bytes_read == 0,
            r.wall_ms == 0,
            r.detail@ == Seq::<char>::empty(),
    {
        ScanStats { records: 0, dirs: 0, files: 0, bytes_read: 0, wall_ms: 0, detail: String::new() }
    }
}

} // verus!
