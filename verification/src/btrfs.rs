//! The Btrfs metadata lane: inode items and references of a tree search become records.
//!
//! Whoever runs the lane performs the searches; the lane says what to search for next and
//! takes in what came back.

use crate::clock::Stopwatch;
use crate::dirtree::DirTable;
use crate::mounts::{FsKind, FsView};
use crate::text::Separator;
use crate::types::{FileKind, FileRecord, RecordView, ScanStats};
use std::collections::HashMap;
use vstd::prelude::*;

verus! {

broadcast use vstd::std_specs::hash::group_hash_axioms;

/// The item that holds an inode.
pub const INODE_ITEM: u32 = 1;

/// The item that names an inode in its parent.
pub const INODE_REF: u32 = 12;

/// The same for long lists of names.
pub const INODE_EXTREF: u32 = 13;

/// The inode of the subvolume's top directory.
pub const ROOT_INO: u64 = 256;

/// The fixed part of a search request: the key and the buffer size.
pub const SEARCH_V2_HEADER: usize = 112;

/// How many bytes one search may return.
pub const SEARCH_BUF_BYTES: u64 = 0x40_0000;

/// How many items one search may return.
pub const SEARCH_ITEMS: u32 = 65_535;

/// What to search for.
#[derive(Debug, Clone, Copy)]
pub struct SearchKey {
    pub tree_id: u64,
    pub min_objectid: u64,
    pub max_objectid: u64,
    pub min_offset: u64,
    pub max_offset: u64,
    pub min_transid: u64,
    pub max_transid: u64,
    pub min_type: u32,
    pub max_type: u32,
    pub nr_items: u32,
    pub unused: u32,
    pub unused1: u64,
    pub unused2: u64,
    pub unused3: u64,
    pub unused4: u64,
}

/// A search request without the buffer behind it.
#[derive(Debug, Clone, Copy)]
pub struct SearchArgsV2 {
    pub key: SearchKey,
    pub buf_size: u64,
}

/// The bytes of a request, as the kernel reads them.
pub open spec fn request_bytes(a: SearchArgsV2) -> Seq<u8> {
    crate::bytes::le_bytes(a.key.tree_id as nat, 8) + crate::bytes::le_bytes(
        a.key.min_objectid as nat,
        8,
    ) + crate::bytes::le_bytes(a.key.max_objectid as nat, 8) + crate::bytes::le_bytes(
        a.key.min_offset as nat,
        8,
    ) + crate::bytes::le_bytes(a.key.max_offset as nat, 8) + crate::bytes::le_bytes(
        a.key.min_transid as nat,
        8,
    ) + crate::bytes::le_bytes(a.key.max_transid as nat, 8) + crate::bytes::le_bytes(
        a.key.min_type as nat,
        4,
    ) + crate::bytes::le_bytes(a.key.max_type as nat, 4) + crate::bytes::le_bytes(
        a.key.nr_items as nat,
        4,
    ) + crate::bytes::le_bytes(a.key.unused as nat, 4) + crate::bytes::le_bytes(
        a.key.unused1 as nat,
        8,
    ) + crate::bytes::le_bytes(a.key.unused2 as nat, 8) + crate::bytes::le_bytes(
        a.key.unused3 as nat,
        8,
    ) + crate::bytes::le_bytes(a.key.unused4 as nat, 8) + crate::bytes::le_bytes(
        a.buf_size as nat,
        8,
    )
}

impl SearchArgsV2 {
    /// The bytes of the request.
    pub fn encode(&self) -> (out: Vec<u8>)
        ensures
            out@ == request_bytes(*self),
    {
        let mut out: Vec<u8> = Vec::new();
        crate::bytes::write_u64(&mut out, self.key.tree_id);
        crate::bytes::write_u64(&mut out, self.key.min_objectid);
        crate::bytes::write_u64(&mut out, self.key.max_objectid);
        crate::bytes::write_u64(&mut out, self.key.min_offset);
        crate::bytes::write_u64(&mut out, self.key.max_offset);
        crate::bytes::write_u64(&mut out, self.key.min_transid);
        crate::bytes::write_u64(&mut out, self.key.max_transid);
        crate::bytes::write_u32(&mut out, self.key.min_type);
        crate::bytes::write_u32(&mut out, self.key.max_type);
        crate::bytes::write_u32(&mut out, self.key.nr_items);
        crate::bytes::write_u32(&mut out, self.key.unused);
        crate::bytes::write_u64(&mut out, self.key.unused1);
        crate::bytes::write_u64(&mut out, self.key.unused2);
        crate::bytes::write_u64(&mut out, self.key.unused3);
        crate::bytes::write_u64(&mut out, self.key.unused4);
        crate::bytes::write_u64(&mut out, self.buf_size);
        assert(out@ =~= request_bytes(*self));
        out
    }
}

/// Where a search goes on.
pub type Cursor = (u64, u32, u64);

/// The key that follows another.
pub open spec fn key_after(key: Cursor) -> Option<Cursor> {
    let (obj, typ, off) = key;
    if off != u64::MAX {
        Some((obj, typ, (off + 1) as u64))
    } else if typ < INODE_EXTREF {
        Some((obj, (typ + 1) as u32, 0))
    } else if obj != u64::MAX {
        Some(((obj + 1) as u64, INODE_ITEM, 0))
    } else {
        None
    }
}

/// The key that follows another; none follows the last.
pub fn next_key(key: Cursor) -> (r: Option<Cursor>)
    ensures
        r == key_after(key),
{
    let (obj, typ, off): (u64, u32, u64) = key;
    if off != u64::MAX {
        Some((obj, typ, off + 1))
    } else if typ < INODE_EXTREF {
        Some((obj, typ + 1, 0))
    } else if obj != u64::MAX {
        Some((obj + 1, INODE_ITEM, 0))
    } else {
        None
    }
}

/// One key comes strictly before another.
pub open spec fn key_before(a: Cursor, b: Cursor) -> bool {
    ||| a.0 < b.0
    ||| a.0 == b.0 && a.1 < b.1
    ||| a.0 == b.0 && a.1 == b.1 && a.2 < b.2
}

/// The next key comes strictly after its key, so that a search that goes on advances.
pub proof fn law_keys_advance(key: Cursor)
    requires
        key_after(key) is Some,
    ensures
        key_before(key, key_after(key)->0),
{
}

/// Why a search could not be used.
#[derive(Debug, Clone, Copy, PartialEq, Eq, Structural)]
pub enum BtrfsError {
    TruncatedHeader,
    LengthOverflow,
    TruncatedItem,
    CursorStuck,
}

impl BtrfsError {
    /// How the error is shown.
    pub fn message(self) -> (r: String)
        ensures
            r@ == match self {
                BtrfsError::TruncatedHeader => "kernel returned truncated Btrfs search header"@,
                BtrfsError::LengthOverflow => "Btrfs item length overflow"@,
                BtrfsError::TruncatedItem => "kernel returned truncated Btrfs search item"@,
                BtrfsError::CursorStuck => "Btrfs search cursor did not advance"@,
            },
    {
        match self {
            BtrfsError::TruncatedHeader => "kernel returned truncated Btrfs search header".to_owned(

            ),
            BtrfsError::LengthOverflow => "Btrfs item length overflow".to_owned(),
            BtrfsError::TruncatedItem => "kernel returned truncated Btrfs search item".to_owned(),
            BtrfsError::CursorStuck => "Btrfs search cursor did not advance".to_owned(),
        }
    }
}

// ---------------------------------------------------------------------------
// Inodes

/// What an inode item says.
#[derive(Debug, Clone, Copy, PartialEq, Eq, Structural)]
pub struct Meta {
    pub size: u64,
    pub mode: u32,
    pub mtime: i64,
}

/// An inode with its place in the tree.
#[derive(Debug)]
pub struct Node {
    pub ino: u64,
    pub parent: u64,
    pub meta: Meta,
    pub name: String,
}

/// An inode as a mathematical value.
#[verifier::ext_equal]
pub struct NodeView {
    pub ino: u64,
    pub parent: u64,
    pub meta: Meta,
    pub name: Seq<char>,
}

impl View for Node {
    type V = NodeView;

    open spec fn view(&self) -> NodeView {
        NodeView { ino: self.ino, parent: self.parent, meta: self.meta, name: self.name@ }
    }
}

/// Inodes as mathematical values.
pub open spec fn node_views(ns: Seq<Node>) -> Seq<NodeView> {
    Seq::new(ns.len(), |i: int| ns[i]@)
}

/// The kind that a mode says.
pub open spec fn kind_of_mode(mode: u32) -> FileKind {
    let format = mode & 0xf000;
    if format == 0x8000 {
        FileKind::File
    } else if format == 0x4000 {
        FileKind::Dir
    } else if format == 0xa000 {
        FileKind::Symlink
    } else {
        FileKind::Other
    }
}

/// The kind that a mode says.
pub fn kind_from_mode(mode: u32) -> (r: FileKind)
    ensures
        r == kind_of_mode(mode),
{
    let format: u32 = mode & 0xf000;
    if format == 0x8000 {
        FileKind::File
    } else if format == 0x4000 {
        FileKind::Dir
    } else if format == 0xa000 {
        FileKind::Symlink
    } else {
        FileKind::Other
    }
}

/// A signed number from its two's complement.
pub open spec fn signed_form(n: nat) -> i64 {
    if n < 0x8000_0000_0000_0000 {
        n as i64
    } else {
        (n - 0x1_0000_0000_0000_0000) as i64
    }
}

/// A signed number from its two's complement.
pub fn signed(n: u64) -> (r: i64)
    ensures
        r == signed_form(n as nat),
{
    if n < 0x8000_0000_0000_0000 {
        n as i64
    } else {
        let rest: u64 = n - 0x8000_0000_0000_0000;
        (rest as i64) + i64::MIN
    }
}

/// A name of some bytes, read leniently, unless it is too long.
pub open spec fn stored_name(bytes: Seq<u8>) -> Option<Seq<char>> {
    let text = crate::text::lossy_text(bytes);
    if vstd::utf8::encode_utf8(text).len() <= u16::MAX {
        Some(text)
    } else {
        None
    }
}

/// The name in a reference.
pub open spec fn ref_link(parent: u64, data: Seq<u8>) -> Option<(u64, Seq<char>)> {
    match crate::reader::number(data, 8, 2) {
        None => None,
        Some(n) => if data.len() < 10 + n {
            None
        } else {
            match stored_name(data.subrange(10, 10 + n as int)) {
                None => None,
                Some(name) => Some((parent, name)),
            }
        },
    }
}

/// The parent and the name in an extended reference.
pub open spec fn extref_link(data: Seq<u8>) -> Option<(u64, Seq<char>)> {
    match (crate::reader::number(data, 0, 8), crate::reader::number(data, 16, 2)) {
        (Some(parent), Some(n)) => if data.len() < 18 + n {
            None
        } else {
            match stored_name(data.subrange(18, 18 + n as int)) {
                None => None,
                Some(name) => Some((parent as u64, name)),
            }
        },
        _ => None,
    }
}

/// A parent and a name in it.
struct Link {
    parent: u64,
    name: String,
}

spec fn link_view(l: Option<Link>) -> Option<(u64, Seq<char>)> {
    match l {
        Some(l) => Some((l.parent, l.name@)),
        None => None,
    }
}

fn store_name(parent: u64, bytes: &[u8]) -> (r: Option<Link>)
    ensures
        link_view(r) == match stored_name(bytes@) {
            Some(name) => Some((parent, name)),
            None => None,
        },
{
    let name = crate::text::text_from_utf8_lossy(bytes);
    let len: usize = name.as_str().as_bytes().len();
    if len <= u16::MAX as usize {
        Some(Link { parent, name })
    } else {
        None
    }
}

fn parse_inode_ref(parent: u64, data: &[u8]) -> (r: Option<Link>)
    ensures
        link_view(r) == ref_link(parent, data@),
{
    if data.len() < 10 {
        return None;
    }
    let n: usize = crate::bytes::le_u16(vstd::slice::slice_subrange(data, 8, 10)) as usize;
    if data.len() < 10 + n {
        return None;
    }
    store_name(parent, vstd::slice::slice_subrange(data, 10, 10 + n))
}

fn parse_inode_extref(data: &[u8]) -> (r: Option<Link>)
    ensures
        link_view(r) == extref_link(data@),
{
    if data.len() < 18 {
        return None;
    }
    let parent: u64 = crate::bytes::le_u64(vstd::slice::slice_subrange(data, 0, 8));
    let n: usize = crate::bytes::le_u16(vstd::slice::slice_subrange(data, 16, 18)) as usize;
    if data.len() < 18 + n {
        return None;
    }
    store_name(parent, vstd::slice::slice_subrange(data, 18, 18 + n))
}

/// The inode in an inode item.
pub open spec fn meta_in(data: Seq<u8>) -> Meta {
    Meta {
        size: crate::bytes::le_value(data.subrange(16, 24)) as u64,
        mode: crate::bytes::le_value(data.subrange(52, 56)) as u32,
        mtime: signed_form(crate::bytes::le_value(data.subrange(136, 144))),
    }
}

// ---------------------------------------------------------------------------
// Taking in what a search returned

/// One item of a search.
#[verifier::ext_equal]
pub struct ItemView {
    pub objectid: u64,
    pub offset: u64,
    pub item_type: u32,
    pub data: Seq<u8>,
}

/// The item at a position and where it ends.
pub open spec fn item_at(b: Seq<u8>, pos: int) -> Result<(ItemView, int), BtrfsError> {
    if pos + 32 > b.len() {
        Err(BtrfsError::TruncatedHeader)
    } else {
        let len = crate::bytes::le_value(b.subrange(pos + 28, pos + 32));
        let end = pos + 32 + len;
        if end > usize::MAX {
            Err(BtrfsError::LengthOverflow)
        } else if end > b.len() {
            Err(BtrfsError::TruncatedItem)
        } else {
            Ok(
                (
                    ItemView {
                        objectid: crate::bytes::le_value(b.subrange(pos + 8, pos + 16)) as u64,
                        offset: crate::bytes::le_value(b.subrange(pos + 16, pos + 24)) as u64,
                        item_type: crate::bytes::le_value(b.subrange(pos + 24, pos + 28)) as u32,
                        data: b.subrange(pos + 32, end),
                    },
                    end,
                ),
            )
        }
    }
}

/// What a lane has gathered so far.
#[verifier::ext_equal]
pub struct GatherView {
    pub nodes: Seq<NodeView>,
    pub ino: Option<u64>,
    pub meta: Option<Meta>,
    pub link: Option<(u64, Seq<char>)>,
}

/// The current inode is complete: it is kept if it has an item and a name, or is the top
/// directory.
pub open spec fn finished(g: GatherView) -> GatherView {
    let nodes = match (g.ino, g.meta) {
        (Some(ino), Some(meta)) => if ino == ROOT_INO {
            g.nodes.push(NodeView { ino, parent: u64::MAX, meta, name: Seq::empty() })
        } else {
            match g.link {
                Some((parent, name)) => g.nodes.push(NodeView { ino, parent, meta, name }),
                None => g.nodes,
            }
        },
        _ => g.nodes,
    };
    GatherView { nodes, ino: g.ino, meta: None, link: None }
}

/// One more item.
pub open spec fn absorbed(g: GatherView, item: ItemView) -> GatherView {
    let h = if g.ino == Some(item.objectid) {
        g
    } else if g.ino is Some {
        GatherView { ino: Some(item.objectid), ..finished(g) }
    } else {
        GatherView { ino: Some(item.objectid), ..g }
    };
    if item.item_type == INODE_ITEM && item.data.len() >= 148 {
        GatherView { meta: Some(meta_in(item.data)), ..h }
    } else if item.item_type == INODE_REF && h.link is None {
        GatherView { link: ref_link(item.offset, item.data), ..h }
    } else if item.item_type == INODE_EXTREF && h.link is None {
        GatherView { link: extref_link(item.data), ..h }
    } else {
        h
    }
}

/// The first `n` items of a search taken in, where they end, and the key of the last.
pub open spec fn absorbed_items(g: GatherView, b: Seq<u8>, n: nat) -> Result<
    (GatherView, int, Option<Cursor>),
    BtrfsError,
>
    decreases n,
{
    if n == 0 {
        Ok((g, 0, None))
    } else {
        match absorbed_items(g, b, (n - 1) as nat) {
            Err(e) => Err(e),
            Ok((h, pos, _)) => match item_at(b, pos) {
                Err(e) => Err(e),
                Ok((item, end)) => Ok(
                    (
                        absorbed(h, item),
                        end,
                        Some((item.objectid, item.item_type, item.offset)),
                    ),
                ),
            },
        }
    }
}

/// What a lane does next.
#[derive(Debug, Clone, Copy, PartialEq, Eq, Structural)]
pub enum LaneStep {
    /// Search again.
    More,
    /// Everything was found.
    Done,
}

/// A lane over a range of inodes.
pub struct Lane {
    cursor: Cursor,
    range_max: u64,
    nodes: Vec<Node>,
    ino: Option<u64>,
    meta: Option<Meta>,
    link: Option<Link>,
    batches: u64,
}

/// A lane as a mathematical value.
#[verifier::ext_equal]
pub struct LaneView {
    pub cursor: Cursor,
    pub range_max: u64,
    pub gathered: GatherView,
    pub batches: u64,
}

impl View for Lane {
    type V = LaneView;

    closed spec fn view(&self) -> LaneView {
        LaneView {
            cursor: self.cursor,
            range_max: self.range_max,
            gathered: GatherView {
                nodes: node_views(self.nodes@),
                ino: self.ino,
                meta: self.meta,
                link: link_view(self.link),
            },
            batches: self.batches,
        }
    }
}

/// What a search with `count` items in `b` leads to.
pub open spec fn after_search(v: LaneView, count: u32, b: Seq<u8>) -> Result<
    (LaneView, LaneStep),
    BtrfsError,
> {
    if count == 0 {
        Ok((v, LaneStep::Done))
    } else {
        match absorbed_items(v.gathered, b, count as nat) {
            Err(e) => Err(e),
            Ok((gathered, _, last)) => {
                let batches = crate::rank::capped(v.batches as nat + 1);
                match last {
                    None => Ok((LaneView { gathered, batches, ..v }, LaneStep::Done)),
                    Some(key) => match key_after(key) {
                        None => Ok((LaneView { gathered, batches, ..v }, LaneStep::Done)),
                        Some(next) => if !key_before(v.cursor, next) {
                            Err(BtrfsError::CursorStuck)
                        } else {
                            Ok(
                                (
                                    LaneView { cursor: next, gathered, batches, ..v },
                                    LaneStep::More,
                                ),
                            )
                        },
                    },
                }
            },
        }
    }
}

/// An early error is the error of all items.
proof fn lemma_items_stop(g: GatherView, b: Seq<u8>, n: nat, m: nat)
    requires
        n <= m,
        absorbed_items(g, b, n) is Err,
    ensures
        absorbed_items(g, b, m) == absorbed_items(g, b, n),
    decreases m,
{
    if n < m {
        lemma_items_stop(g, b, n, (m - 1) as nat);
    }
}

impl Lane {
    /// A lane that starts at the first inode of a range.
    pub fn new(range_min: u64, range_max: u64) -> (r: Lane)
        ensures
            r@ == (LaneView {
                cursor: (range_min, INODE_ITEM, 0),
                range_max,
                gathered: GatherView {
                    nodes: Seq::empty(),
                    ino: None,
                    meta: None,
                    link: None,
                },
                batches: 0,
            }),
    {
        let r = Lane {
            cursor: (range_min, INODE_ITEM, 0),
            range_max,
            nodes: Vec::new(),
            ino: None,
            meta: None,
            link: None,
            batches: 0,
        };
        assert(r@.gathered.nodes =~= Seq::empty());
        r
    }

    /// What to search for next.
    pub fn request(&self) -> (r: SearchArgsV2)
        ensures
            r.key.tree_id == 0,
            r.key.min_objectid == self@.cursor.0,
            r.key.max_objectid == self@.range_max,
            r.key.min_offset == self@.cursor.2,
            r.key.max_offset == u64::MAX,
            r.key.min_transid == 0,
            r.key.max_transid == u64::MAX,
            r.key.min_type == self@.cursor.1,
            r.key.max_type == INODE_EXTREF,
            r.key.nr_items == SEARCH_ITEMS,
            r.buf_size == SEARCH_BUF_BYTES,
    {
        SearchArgsV2 {
            key: SearchKey {
                tree_id: 0,
                min_objectid: self.cursor.0,
                max_objectid: self.range_max,
                min_offset: self.cursor.2,
                max_offset: u64::MAX,
                min_transid: 0,
                max_transid: u64::MAX,
                min_type: self.cursor.1,
                max_type: INODE_EXTREF,
                nr_items: SEARCH_ITEMS,
                unused: 0,
                unused1: 0,
                unused2: 0,
                unused3: 0,
                unused4: 0,
            },
            buf_size: SEARCH_BUF_BYTES,
        }
    }

    fn finish_node(&mut self)
        ensures
            final(self)@.gathered == finished(old(self)@.gathered),
            final(self)@.cursor == old(self)@.cursor,
            final(self)@.range_max == old(self)@.range_max,
            final(self)@.batches == old(self)@.batches,
    {
        let ghost before = node_views(self.nodes@);
        let mut link: Option<Link> = None;
        std::mem::swap(&mut link, &mut self.link);
        if let Some(ino) = self.ino {
            if let Some(meta) = self.meta {
                if ino == ROOT_INO {
                    let n = Node { ino, parent: u64::MAX, meta, name: String::new() };
                    assert(n.name@ =~= Seq::empty());
                    self.nodes.push(n);
                    assert(node_views(self.nodes@) =~= before.push(n@));
                } else if let Some(l) = link {
                    let n = Node { ino, parent: l.parent, meta, name: l.name };
                    self.nodes.push(n);
                    assert(node_views(self.nodes@) =~= before.push(n@));
                }
            }
        }
        self.meta = None;
    }

    fn absorb(&mut self, objectid: u64, offset: u64, item_type: u32, data: &[u8])
        ensures
            final(self)@.gathered == absorbed(
                old(self)@.gathered,
                (ItemView { objectid, offset, item_type, data: data@ }),
            ),
            final(self)@.cursor == old(self)@.cursor,
            final(self)@.range_max == old(self)@.range_max,
            final(self)@.batches == old(self)@.batches,
    {
        let same: bool = match self.ino {
            Some(ino) => ino == objectid,
            None => false,
        };
        if !same {
            if self.ino.is_some() {
                self.finish_node();
            }
            self.ino = Some(objectid);
        }
        if item_type == INODE_ITEM && data.len() >= 148 {
            let size: u64 = crate::bytes::le_u64(vstd::slice::slice_subrange(data, 16, 24));
            let mode: u32 = crate::bytes::le_u32(vstd::slice::slice_subrange(data, 52, 56));
            let mtime: i64 = signed(
                crate::bytes::le_u64(vstd::slice::slice_subrange(data, 136, 144)),
            );
            self.meta = Some(Meta { size, mode, mtime });
        } else if item_type == INODE_REF && self.link.is_none() {
            self.link = parse_inode_ref(offset, data);
        } else if item_type == INODE_EXTREF && self.link.is_none() {
            self.link = parse_inode_extref(data);
        }
    }

    /// Takes in what a search returned, and says whether to go on.
    pub fn take(&mut self, count: u32, b: &[u8]) -> (r: Result<LaneStep, BtrfsError>)
        ensures
            match r {
                Ok(step) => after_search(old(self)@, count, b@) == Ok::<
                    (LaneView, LaneStep),
                    BtrfsError,
                >((final(self)@, step)),
                Err(e) => after_search(old(self)@, count, b@) == Err::<
                    (LaneView, LaneStep),
                    BtrfsError,
                >(e),
            },
    {
        if count == 0 {
            return Ok(LaneStep::Done);
        }
        let ghost start = self@;
        let len: usize = b.len();
        let mut pos: usize = 0;
        let mut last: Option<Cursor> = None;
        let mut i: u32 = 0;
        while i < count
            invariant
                i <= count,
                pos <= len == b@.len(),
                start == old(self)@,
                self@.cursor == start.cursor,
                self@.range_max == start.range_max,
                self@.batches == start.batches,
                absorbed_items(start.gathered, b@, i as nat) == Ok::<
                    (GatherView, int, Option<Cursor>),
                    BtrfsError,
                >((self@.gathered, pos as int, last)),
                i > 0 ==> last is Some,
                count > 0,
            decreases count - i,
        {
            proof {
                if item_at(b@, pos as int) is Err {
                    lemma_items_stop(start.gathered, b@, (i + 1) as nat, count as nat);
                }
            }
            if len - pos < 32 {
                return Err(BtrfsError::TruncatedHeader);
            }
            let objectid: u64 = crate::bytes::le_u64(
                vstd::slice::slice_subrange(b, pos + 8, pos + 16),
            );
            let offset: u64 = crate::bytes::le_u64(
                vstd::slice::slice_subrange(b, pos + 16, pos + 24),
            );
            let item_type: u32 = crate::bytes::le_u32(
                vstd::slice::slice_subrange(b, pos + 24, pos + 28),
            );
            let n: u32 = crate::bytes::le_u32(
                vstd::slice::slice_subrange(b, pos + 28, pos + 32),
            );
            let from: usize = pos + 32;
            let end: usize = match from.checked_add(n as usize) {
                Some(e) => e,
                None => {
                    return Err(BtrfsError::LengthOverflow);
                },
            };
            if end > len {
                return Err(BtrfsError::TruncatedItem);
            }
            self.absorb(
                objectid,
                offset,
                item_type,
                vstd::slice::slice_subrange(b, from, end),
            );
            pos = end;
            last = Some((objectid, item_type, offset));
            i += 1;
        }
        self.batches = self.batches.saturating_add(1);
        match last {
            None => Ok(LaneStep::Done),
            Some(key) => match next_key(key) {
                None => Ok(LaneStep::Done),
                Some(next) => {
                    let at: Cursor = self.cursor;
                    let ahead: bool = at.0 < next.0 || (at.0 == next.0 && at.1 < next.1) || (at.0
                        == next.0 && at.1 == next.1 && at.2 < next.2);
                    if !ahead {
                        return Err(BtrfsError::CursorStuck);
                    }
                    self.cursor = next;
                    Ok(LaneStep::More)
                },
            },
        }
    }

    /// The inodes that were found, the last one completed, and how many searches it took.
    pub fn finish(self) -> (r: (Vec<Node>, u64))
        ensures
            node_views(r.0@) == finished(self@.gathered).nodes,
            r.1 == self@.batches,
    {
        let mut lane = self;
        lane.finish_node();
        (lane.nodes, lane.batches)
    }
}

// ---------------------------------------------------------------------------
// Shards

/// How many inodes a regular shard spans.
pub const SHARD_WIDTH: u64 = 8_000_000;

/// How many regular shards there are; one more takes all that is above them.
pub const REGULAR_SHARDS: u64 = 16;

/// The range of a shard.
pub open spec fn shard(i: int) -> (u64, u64) {
    if i < REGULAR_SHARDS {
        ((i * SHARD_WIDTH) as u64, ((i + 1) * SHARD_WIDTH - 1) as u64)
    } else {
        ((REGULAR_SHARDS * SHARD_WIDTH) as u64, u64::MAX)
    }
}

/// The ranges that are searched side by side.
pub fn shard_ranges() -> (r: Vec<(u64, u64)>)
    ensures
        r@ == Seq::new(17, |i: int| shard(i)),
{
    let mut out: Vec<(u64, u64)> = Vec::new();
    let mut i: u64 = 0;
    while i < REGULAR_SHARDS
        invariant
            i <= REGULAR_SHARDS,
            out@.len() == i,
            forall|k: int| 0 <= k < i ==> #[trigger] out@[k] == shard(k),
        decreases REGULAR_SHARDS - i,
    {
        out.push((i * SHARD_WIDTH, (i + 1) * SHARD_WIDTH - 1));
        i += 1;
    }
    out.push((REGULAR_SHARDS * SHARD_WIDTH, u64::MAX));
    assert(out@ =~= Seq::new(17, |i: int| shard(i)));
    out
}

/// A number that was set, or what stands for one that was not.
pub open spec fn number_or(text: Option<Seq<char>>, otherwise: u64) -> u64 {
    match text {
        Some(t) => match crate::text::parsed_number(t, u64::MAX as nat) {
            Some(n) => n as u64,
            None => otherwise,
        },
        None => otherwise,
    }
}

fn number_set(text: Option<&str>, otherwise: u64) -> (r: u64)
    ensures
        r == number_or(
            match text {
                Some(t) => Some(t@),
                None => None,
            },
            otherwise,
        ),
{
    match text {
        Some(t) => {
            let chars = crate::text::chars_of(t);
            match crate::text::parse_number(chars.as_slice(), u64::MAX) {
                Some(n) => n,
                None => otherwise,
            }
        },
        None => otherwise,
    }
}

/// The ranges that are searched: side by side, or one after the settings where the search is
/// to be `serial`. Settings that are no numbers count as not set.
pub fn search_ranges(serial: bool, least: Option<&str>, most: Option<&str>) -> (r: Vec<(u64, u64)>)
    ensures
        serial ==> r@ == seq![
            (
                number_or(
                    match least {
                        Some(t) => Some(t@),
                        None => None,
                    },
                    0,
                ),
                number_or(
                    match most {
                        Some(t) => Some(t@),
                        None => None,
                    },
                    u64::MAX,
                ),
            ),
        ],
        !serial ==> r@ == Seq::new(17, |i: int| shard(i)),
{
    if serial {
        let from: u64 = number_set(least, 0);
        let to: u64 = number_set(most, u64::MAX);
        let mut out: Vec<(u64, u64)> = Vec::new();
        out.push((from, to));
        assert(out@ =~= seq![(from, to)]);
        out
    } else {
        shard_ranges()
    }
}

/// Every inode lies in exactly one shard.
pub proof fn law_shards_cover_once(ino: u64) -> (i: int)
    ensures
        0 <= i < 17,
        shard(i).0 <= ino <= shard(i).1,
        forall|k: int| 0 <= k < 17 && k != i ==> !((#[trigger] shard(k)).0 <= ino <= shard(k).1),
{
    let i = if ino < REGULAR_SHARDS * SHARD_WIDTH {
        (ino / SHARD_WIDTH) as int
    } else {
        16
    };
    i
}

/// The first inode of a number.
pub open spec fn first_with(ns: Seq<NodeView>, ino: u64) -> Option<NodeView>
    decreases ns.len(),
{
    if ns.len() == 0 {
        None
    } else {
        match first_with(ns.drop_last(), ino) {
            Some(n) => Some(n),
            None => if ns.last().ino == ino {
                Some(ns.last())
            } else {
                None
            },
        }
    }
}

/// Inodes in ascending order, each once.
pub open spec fn ascending(ns: Seq<NodeView>) -> bool {
    forall|i: int, j: int| 0 <= i < j < ns.len() ==> (#[trigger] ns[i]).ino < (#[trigger] ns[j]).ino
}

proof fn lemma_first_with(ns: Seq<NodeView>, ino: u64, i: int)
    requires
        0 <= i <= ns.len(),
        forall|k: int| 0 <= k < i ==> (#[trigger] ns[k]).ino != ino,
        i < ns.len() ==> ns[i].ino == ino,
    ensures
        first_with(ns, ino) == if i < ns.len() {
            Some(ns[i])
        } else {
            None
        },
    decreases ns.len(),
{
    if ns.len() > 0 {
        let less = ns.drop_last();
        assert forall|k: int| 0 <= k < i && k < less.len() implies (#[trigger] less[k]).ino
            != ino by {
            assert(less[k] == ns[k]);
        }
        if i < less.len() {
            assert(less[i] == ns[i]);
            lemma_first_with(less, ino, i);
        } else {
            lemma_first_with(less, ino, less.len() as int);
            if i == ns.len() {
                assert(ns[ns.len() - 1].ino != ino);
            }
        }
    }
}

/// The position of the first inode of a number, if there is one.
proof fn lemma_first_position(ns: Seq<NodeView>, ino: u64) -> (i: int)
    ensures
        0 <= i <= ns.len(),
        forall|k: int| 0 <= k < i ==> (#[trigger] ns[k]).ino != ino,
        i < ns.len() ==> ns[i].ino == ino,
    decreases ns.len(),
{
    if ns.len() == 0 {
        0
    } else {
        let less = ns.drop_last();
        let i = lemma_first_position(less, ino);
        assert forall|k: int| 0 <= k < i implies (#[trigger] ns[k]).ino != ino by {
            assert(less[k] == ns[k]);
        }
        if i < less.len() {
            assert(ns[i] == less[i]);
            i
        } else if ns.last().ino == ino {
            i
        } else {
            i + 1
        }
    }
}

/// Puts the inodes of all shards in ascending order. Of several with one number the first
/// stays.
pub fn merge_nodes(all: Vec<Node>) -> (out: Vec<Node>)
    ensures
        ascending(node_views(out@)),
        forall|ino: u64| #[trigger]
            first_with(node_views(out@), ino) == first_with(node_views(all@), ino),
{
    let ghost given = node_views(all@);
    let n: usize = all.len();
    let mut numbers: Vec<u64> = Vec::new();
    let mut i: usize = 0;
    while i < n
        invariant
            i <= n == all@.len(),
            given == node_views(all@),
            numbers@.len() == i,
            forall|k: int| 0 <= k < i ==> #[trigger] numbers@[k] == given[k].ino,
        decreases n - i,
    {
        numbers.push(all[i].ino);
        i += 1;
    }
    let order = crate::order::number_order(&numbers);
    let sorted = crate::order::arranged(all, &order);
    let ghost views = node_views(sorted@);
    assert(views =~= crate::rank::picked(given, order@));
    let mut out: Vec<Node> = Vec::new();
    let mut last: Option<u64> = None;
    assert(views.take(0) =~= Seq::empty());
    for node in it: sorted
        invariant
            it.seq().len() == views.len(),
            forall|k: int| 0 <= k < views.len() ==> (#[trigger] it.seq()[k])@ == views[k],
            forall|a: int, b: int|
                0 <= a < b < views.len() ==> (#[trigger] views[a]).ino <= (#[trigger] views[b]).ino,
            ascending(node_views(out@)),
            forall|ino: u64| #[trigger]
                first_with(node_views(out@), ino) == first_with(
                    views.take(it.index() as int),
                    ino,
                ),
            last is None <==> out@.len() == 0,
            last matches Some(x) ==> out@.len() > 0 && out@[out@.len() - 1].ino == x,
            it.index() == 0 ==> out@.len() == 0,
            it.index() > 0 ==> last == Some(views[it.index() - 1].ino),
    {
        let ghost k = it.index();
        let ghost before = node_views(out@);
        let ghost v = node@;
        proof {
            assert(views.take(k + 1).drop_last() =~= views.take(k));
            assert(views.take(k + 1).last() == v);
        }
        let fresh: bool = match last {
            Some(x) => x != node.ino,
            None => true,
        };
        if fresh {
            last = Some(node.ino);
            out.push(node);
            proof {
                let now = node_views(out@);
                assert(now =~= before.push(v));
                assert(now.drop_last() =~= before);
                assert forall|a: int, b: int| 0 <= a < b < now.len() implies (#[trigger] now[a]).ino
                    < (#[trigger] now[b]).ino by {
                    if b == now.len() - 1 {
                        assert(views[k - 1].ino <= views[k].ino);
                        if a < before.len() - 1 {
                            assert(before[a].ino < before[before.len() - 1].ino);
                        }
                    } else {
                        assert(before[a].ino < before[b].ino);
                    }
                }
                assert forall|ino: u64| #[trigger] first_with(now, ino) == first_with(
                    views.take(k + 1),
                    ino,
                ) by {
                    assert(first_with(before, ino) == first_with(views.take(k), ino));
                }
            }
        } else {
            proof {
                assert forall|ino: u64| #[trigger] first_with(before, ino) == first_with(
                    views.take(k + 1),
                    ino,
                ) by {
                    assert(first_with(before, ino) == first_with(views.take(k), ino));
                    if ino == v.ino {
                        let at = before.len() - 1;
                        assert(before[at].ino == v.ino);
                        let p = lemma_first_position(before, ino);
                        if p == before.len() {
                            assert(before[at].ino != ino);
                        }
                        lemma_first_with(before, ino, p);
                    }
                }
            }
        }
    }
    proof {
        let ns = node_views(out@);
        assert(views.take(views.len() as int) =~= views);
        assert forall|ino: u64| #[trigger] first_with(ns, ino) == first_with(given, ino) by {
            assert(first_with(ns, ino) == first_with(views, ino));
            let p = lemma_first_position(given, ino);
            lemma_first_with(given, ino, p);
            let q = lemma_first_position(views, ino);
            lemma_first_with(views, ino, q);
            if p < given.len() {
                crate::order::lemma_order_covers(order@, given.len(), p);
                let k = order@.index_of(p as usize);
                assert(views[k] == given[p]);
                assert(q <= k);
                let a = order@[q] as int;
                assert(views[q] == given[a]);
                if q < k {
                    assert(crate::order::number_first(
                        numbers@,
                        order@[q] as int,
                        order@[k] as int,
                    ));
                    assert(numbers@[a] == given[a].ino);
                    assert(numbers@[p] == given[p].ino);
                    assert(given[a].ino != ino || a >= p);
                }
            } else if q < views.len() {
                assert(views[q] == given[order@[q] as int]);
            }
        }
    }
    out
}

// ---------------------------------------------------------------------------
// Records

/// Inodes as directories with parents.
pub struct NodeTable<'a> {
    pub nodes: &'a Vec<Node>,
}

/// The link of a directory to its parent.
pub open spec fn node_step(ns: Seq<NodeView>, id: u64) -> Option<(u64, Seq<char>)> {
    match first_with(ns, id) {
        None => None,
        Some(n) => if kind_of_mode(n.meta.mode) is Dir && n.parent != u64::MAX {
            Some((n.parent, n.name))
        } else {
            None
        },
    }
}

impl<'a> NodeTable<'a> {
    /// The inodes stand in order.
    pub open spec fn wf(&self) -> bool {
        ascending(node_views(self.nodes@))
    }

    /// Finds an inode by its number.
    fn find(&self, ino: u64) -> (r: Option<usize>)
        requires
            self.wf(),
        ensures
            match r {
                Some(i) => i < self.nodes@.len() && first_with(node_views(self.nodes@), ino)
                    == Some(self.nodes@[i as int]@),
                None => first_with(node_views(self.nodes@), ino) is None,
            },
    {
        let ghost ns = node_views(self.nodes@);
        let mut low: usize = 0;
        let mut high: usize = self.nodes.len();
        while low < high
            invariant
                low <= high <= self.nodes@.len(),
                ns == node_views(self.nodes@),
                ascending(ns),
                forall|k: int| 0 <= k < low ==> (#[trigger] ns[k]).ino < ino,
                forall|k: int| high <= k < ns.len() ==> (#[trigger] ns[k]).ino >= ino,
            decreases high - low,
        {
            let mid: usize = low + (high - low) / 2;
            assert(ns[mid as int] == self.nodes@[mid as int]@);
            if self.nodes[mid].ino < ino {
                low = mid + 1;
            } else {
                high = mid;
            }
        }
        if low < self.nodes.len() && self.nodes[low].ino == ino {
            proof {
                assert(ns[low as int] == self.nodes@[low as int]@);
                lemma_first_with(ns, ino, low as int);
            }
            Some(low)
        } else {
            proof {
                assert forall|k: int| 0 <= k < ns.len() implies (#[trigger] ns[k]).ino != ino by {
                    if k >= low && low < ns.len() {
                        assert(ns[low as int] == self.nodes@[low as int]@);
                    }
                }
                lemma_first_with(ns, ino, ns.len() as int);
            }
            None
        }
    }
}

impl<'a> DirTable for NodeTable<'a> {
    open spec fn valid(&self) -> bool {
        self.wf()
    }

    open spec fn ids(&self) -> Set<u64> {
        node_views(self.nodes@).map_values(|n: NodeView| n.ino).to_set()
    }

    open spec fn step(&self, id: u64) -> Option<(u64, Seq<char>)> {
        node_step(node_views(self.nodes@), id)
    }

    proof fn bounded(&self) {
        let ns = node_views(self.nodes@);
        let inos = ns.map_values(|n: NodeView| n.ino);
        vstd::seq_lib::seq_to_set_is_finite(inos);
        assert forall|id: u64| #[trigger] self.step(id) is Some implies self.ids().contains(id) by {
            let i = lemma_first_position(ns, id);
            lemma_first_with(ns, id, i);
            assert(inos[i] == id);
        }
    }

    fn step_of(&self, id: u64) -> (r: Option<(u64, String)>) {
        match self.find(id) {
            None => None,
            Some(i) => {
                let n = &self.nodes[i];
                let is_dir: bool = match kind_from_mode(n.meta.mode) {
                    FileKind::Dir => true,
                    _ => false,
                };
                if is_dir && n.parent != u64::MAX {
                    Some((n.parent, n.name.clone()))
                } else {
                    None
                }
            },
        }
    }
}

/// Finds the path of a directory below the top and keeps it with those on the way.
pub fn ensure_dir_path(ino: u64, nodes: &Vec<Node>, cache: &mut HashMap<u64, String>) -> (r: bool)
    requires
        ascending(node_views(nodes@)),
        crate::dirtree::sound(&(NodeTable { nodes }), ROOT_INO, old(cache)@),
    ensures
        crate::dirtree::sound(&(NodeTable { nodes }), ROOT_INO, final(cache)@),
        r == crate::dirtree::reaches(&(NodeTable { nodes }), ROOT_INO, ino),
        crate::dirtree::looked_up(&(NodeTable { nodes }), ino, old(cache)@, final(cache)@, r),
{
    let table = NodeTable { nodes };
    crate::dirtree::ensure_path(&table, ROOT_INO, ino, cache)
}

/// The full path of something below a mount point.
pub open spec fn mounted(prefix: Seq<char>, relative: Seq<char>) -> Seq<char> {
    prefix.push('/') + relative
}

/// The path of an inode, if it can be reached.
pub open spec fn node_path(t: &NodeTable, prefix: Seq<char>, n: NodeView) -> Option<Seq<char>> {
    if n.ino == ROOT_INO {
        Some(prefix)
    } else if n.parent == u64::MAX || !crate::dirtree::reaches(t, ROOT_INO, n.parent) {
        None
    } else {
        let relative = crate::dirtree::appended(
            crate::dirtree::path_below(t, ROOT_INO, n.parent),
            n.name,
        );
        if kind_of_mode(n.meta.mode) is Dir && relative.len() == 0 {
            Some(prefix)
        } else {
            Some(mounted(prefix, relative))
        }
    }
}

/// The record of an inode.
pub open spec fn node_record(n: NodeView, path: Seq<char>) -> RecordView {
    RecordView {
        path,
        size: n.meta.size,
        mtime: n.meta.mtime,
        mode: n.meta.mode,
        kind: kind_of_mode(n.meta.mode),
        fs: FsView::Btrfs,
        native_id: n.ino,
        native_parent: if n.parent == u64::MAX {
            0
        } else {
            n.parent
        },
        source: 0,
    }
}

/// The records of all inodes that can be reached, in the order of the inodes.
pub open spec fn node_records(t: &NodeTable, prefix: Seq<char>, ns: Seq<NodeView>) -> Seq<
    RecordView,
>
    decreases ns.len(),
{
    if ns.len() == 0 {
        Seq::empty()
    } else {
        let front = node_records(t, prefix, ns.drop_last());
        match node_path(t, prefix, ns.last()) {
            None => front,
            Some(path) => front.push(node_record(ns.last(), path)),
        }
    }
}

/// Turns inodes into records below a mount point. The watch runs since the scan began.
pub fn scan(nodes: &Vec<Node>, mountpoint: &str, batches: u64, watch: &Stopwatch) -> (r: (
    Vec<FileRecord>,
    ScanStats,
))
    requires
        ascending(node_views(nodes@)),
    ensures
        crate::types::record_views(r.0@) == node_records(
            &(NodeTable { nodes }),
            crate::text::trim_end(mountpoint@, Separator::Char('/')),
            node_views(nodes@),
        ),
        r.1.records == r.0@.len(),
        r.1.dirs == crate::ext4::dirs_among(crate::types::record_views(r.0@)),
        r.1.files == r.0@.len() - r.1.dirs,
        r.1.bytes_read == 0,
        r.1.detail@ == "TREE_SEARCH only; "@ + crate::text::decimal(batches as nat)
            + " batches; mounted subvolume tree"@,
{
    let ghost table = NodeTable { nodes };
    let ghost ns = node_views(nodes@);
    let chars = crate::text::chars_of(mountpoint);
    let keep: usize = crate::text::end_run(chars.as_slice(), Separator::Char('/'));
    let cut = crate::text::part(chars.as_slice(), 0, keep);
    assert(cut@ =~= chars@.take(keep as int));
    let prefix = crate::text::string_of(cut.as_slice());
    let mut cache: HashMap<u64, String> = HashMap::new();
    cache.insert(ROOT_INO, String::new());
    proof {
        assert(crate::dirtree::climb(&table, ROOT_INO, ROOT_INO, 0) == Some(Seq::<char>::empty()));
        assert(cache@[ROOT_INO]@ =~= Seq::empty());
        assert(crate::dirtree::sound(&table, ROOT_INO, cache@));
    }
    let mut out: Vec<FileRecord> = Vec::new();
    let mut dirs: u64 = 0;
    let mut i: usize = 0;
    proof {
        assert(ns.take(0) =~= Seq::empty());
        assert(crate::types::record_views(out@) =~= Seq::empty());
    }
    while i < nodes.len()
        invariant
            i <= nodes@.len(),
            ns == node_views(nodes@),
            ascending(ns),
            table == (NodeTable { nodes }),
            prefix@ == crate::text::trim_end(mountpoint@, Separator::Char('/')),
            crate::dirtree::sound(&table, ROOT_INO, cache@),
            crate::types::record_views(out@) == node_records(
                &table,
                prefix@,
                ns.take(i as int),
            ),
            out@.len() <= i,
            dirs == crate::ext4::dirs_among(crate::types::record_views(out@)),
            dirs <= out@.len(),
        decreases nodes@.len() - i,
    {
        let node = &nodes[i];
        let ghost before = crate::types::record_views(out@);
        proof {
            assert(ns.take(i + 1).drop_last() =~= ns.take(i as int));
            assert(ns.take(i + 1).last() == node@);
        }
        let kind = kind_from_mode(node.meta.mode);
        let is_dir: bool = match kind {
            FileKind::Dir => true,
            _ => false,
        };
        let mut path: Option<String> = None;
        if node.ino == ROOT_INO {
            path = Some(prefix.clone());
        } else if node.parent != u64::MAX {
            if ensure_dir_path(node.parent, nodes, &mut cache) {
                if let Some(parent) = cache.get(&node.parent) {
                    let relative = crate::dirtree::append_component(
                        parent.as_str(),
                        node.name.as_str(),
                    );
                    proof {
                        crate::dirtree::lemma_path_below(
                            &table,
                            ROOT_INO,
                            node.parent,
                            parent@,
                        );
                        reveal_strlit("/");
                    }
                    if is_dir && relative.as_str().is_empty() {
                        path = Some(prefix.clone());
                    } else {
                        let full = crate::text::joined3(prefix.as_str(), "/", relative.as_str());
                        assert(full@ =~= mounted(prefix@, relative@));
                        path = Some(full);
                    }
                }
            }
        }
        if let Some(path) = path {
            let native_parent: u64 = if node.parent == u64::MAX {
                0
            } else {
                node.parent
            };
            let rec = FileRecord {
                path,
                size: node.meta.size,
                mtime: node.meta.mtime,
                mode: node.meta.mode,
                kind,
                fs: FsKind::Btrfs,
                native_id: node.ino,
                native_parent,
                source: 0,
            };
            let ghost v = rec@;
            out.push(rec);
            proof {
                let now = crate::types::record_views(out@);
                assert(now =~= before.push(v));
                assert(now.drop_last() =~= before);
            }
            if is_dir {
                dirs += 1;
            }
        }
        i += 1;
    }
    proof {
        assert(ns.take(i as int) =~= ns);
    }
    let records: u64 = out.len() as u64;
    let count = crate::text::decimal_text(batches);
    let detail = crate::text::joined3(
        "TREE_SEARCH only; ",
        count.as_str(),
        " batches; mounted subvolume tree",
    );
    let stats = ScanStats {
        records,
        dirs,
        files: records - dirs,
        bytes_read: 0,
        wall_ms: watch.millis(),
        detail,
    };
    (out, stats)
}

} // verus!
