//! The hierarchy of folders that indexed records form, and the blocks that a map of one
//! folder shows.

use crate::pathmap::PathMap;
use crate::types::{FileKind, FileRecord, RecordView};
use vstd::hash_map::StringHashMap;
use vstd::prelude::*;

verus! {

/// A file in its folder.
#[derive(Debug)]
pub struct TreeFile {
    pub path: String,
    pub name: String,
    pub size: u64,
    pub extension: String,
}

/// A file as a mathematical value.
#[verifier::ext_equal]
pub struct FileView {
    pub path: Seq<char>,
    pub name: Seq<char>,
    pub size: u64,
    pub extension: Seq<char>,
}

impl View for TreeFile {
    type V = FileView;

    open spec fn view(&self) -> FileView {
        FileView {
            path: self.path@,
            name: self.name@,
            size: self.size,
            extension: self.extension@,
        }
    }
}

/// The views of files.
pub open spec fn file_views(fs: Seq<TreeFile>) -> Seq<FileView> {
    Seq::new(fs.len(), |i: int| fs[i]@)
}

/// What a folder holds: the size and the number of all files below it, its folders, and the
/// files right in it.
pub struct FolderSummary {
    path: String,
    size: u64,
    count: u64,
    children: PathMap<String>,
    direct_files: Vec<TreeFile>,
}

/// A folder as a mathematical value.
#[verifier::ext_equal]
pub struct FolderView {
    pub size: u64,
    pub count: u64,
    pub children: Set<Seq<char>>,
    pub files: Seq<FileView>,
}

impl View for FolderSummary {
    type V = FolderView;

    closed spec fn view(&self) -> FolderView {
        FolderView {
            size: self.size,
            count: self.count,
            children: self.children.entries().dom(),
            files: file_views(self.direct_files@),
        }
    }
}

/// The folders by their paths.
pub type Tree = Map<Seq<char>, FolderView>;

/// A folder that holds nothing.
pub open spec fn no_content() -> FolderView {
    FolderView { size: 0, count: 0, children: Set::empty(), files: Seq::empty() }
}

/// A sum, as far as a machine counts.
pub open spec fn capped_sum(a: u64, b: u64) -> u64 {
    if a + b <= u64::MAX {
        (a + b) as u64
    } else {
        u64::MAX
    }
}

/// The size that a file counts with: even an empty one takes room.
pub open spec fn weight(size: u64) -> u64 {
    if size >= 1 {
        size
    } else {
        1
    }
}

/// The folder is there.
pub open spec fn touched(t: Tree, p: Seq<char>) -> Tree {
    if t.contains_key(p) {
        t
    } else {
        t.insert(p, no_content())
    }
}

/// A file below the folder is counted.
pub open spec fn weighed(t: Tree, p: Seq<char>, size: u64) -> Tree {
    let f = touched(t, p)[p];
    touched(t, p).insert(
        p,
        FolderView {
            size: capped_sum(f.size, weight(size)),
            count: capped_sum(f.count, 1),
            ..f
        },
    )
}

/// A file is counted in each of some folders.
pub open spec fn all_weighed(t: Tree, ps: Seq<Seq<char>>, size: u64) -> Tree
    decreases ps.len(),
{
    if ps.len() == 0 {
        t
    } else {
        weighed(all_weighed(t, ps.drop_last(), size), ps.last(), size)
    }
}

/// A folder is one of another.
pub open spec fn adopted(t: Tree, p: Seq<char>, child: Seq<char>) -> Tree {
    let f = touched(t, p)[p];
    touched(t, p).insert(p, FolderView { children: f.children.insert(child), ..f })
}

/// Each of some folders is one of the folder in front of it.
pub open spec fn chained(t: Tree, ps: Seq<Seq<char>>) -> Tree
    decreases ps.len(),
{
    if ps.len() < 2 {
        t
    } else {
        adopted(chained(t, ps.drop_last()), ps[ps.len() - 2], ps.last())
    }
}

/// A file is right in a folder.
pub open spec fn placed(t: Tree, p: Seq<char>, file: FileView) -> Tree {
    let f = touched(t, p)[p];
    touched(t, p).insert(p, FolderView { files: f.files.push(file), ..f })
}

/// The extension of a name: what follows its last dot, in lower case.
pub open spec fn extension_in(name: Seq<char>) -> Seq<char> {
    let dot = crate::text::last_index(name, '.');
    if dot < 0 {
        Seq::empty()
    } else {
        crate::text::ascii_lower_all(name.skip(dot + 1))
    }
}

/// The file that a record is in its folder.
pub open spec fn file_of(r: RecordView) -> FileView {
    let name = crate::dirs::name_of_path(crate::dirs::tidy(r.path));
    FileView { path: r.path, name, size: r.size, extension: extension_in(name) }
}

/// The hierarchy with one more record.
pub open spec fn with_record(t: Tree, r: RecordView) -> Tree {
    let n = crate::dirs::tidy(r.path);
    let parent = crate::dirs::parent_of(n);
    let above = crate::dirs::ancestors_of(parent);
    let folder = r.kind == FileKind::Dir;
    let a = if folder {
        t
    } else {
        all_weighed(t, above, r.size)
    };
    let b = chained(a, above);
    if folder {
        adopted(touched(b, n), parent, n)
    } else {
        placed(b, parent, file_of(r))
    }
}

/// The hierarchy of some records, with the files of a folder in their order.
pub open spec fn tree_of(rs: Seq<RecordView>) -> Tree
    decreases rs.len(),
{
    if rs.len() == 0 {
        touched(Map::empty(), crate::dirs::top())
    } else {
        with_record(tree_of(rs.drop_last()), rs.last())
    }
}

/// The same files, the largest first.
pub open spec fn largest_first(given: Seq<FileView>, r: Seq<FileView>) -> bool {
    &&& r.to_multiset() == given.to_multiset()
    &&& forall|i: int, j: int| 0 <= i < j < r.len() ==> r[i].size >= r[j].size
}

/// The hierarchy `r` is `t` with the largest files first.
pub open spec fn arranged_tree(t: Tree, r: Tree) -> bool {
    &&& r.dom() == t.dom()
    &&& forall|p: Seq<char>| #[trigger]
        t.contains_key(p) ==> r[p].size == t[p].size && r[p].count == t[p].count && r[p].children
            == t[p].children && largest_first(t[p].files, r[p].files)
}

/// The folders of some records.
pub struct Hierarchy {
    folders: Vec<FolderSummary>,
    slots: StringHashMap<usize>,
}

impl View for Hierarchy {
    type V = Tree;

    closed spec fn view(&self) -> Tree {
        Map::new(
            |p: Seq<char>| self.slots@.contains_key(p),
            |p: Seq<char>| self.folders@[self.slots@[p] as int]@,
        )
    }
}

impl Hierarchy {
    /// Every folder is found by its path.
    pub closed spec fn wf(&self) -> bool {
        &&& forall|p: Seq<char>| #[trigger]
            self.slots@.contains_key(p) ==> self.slots@[p] < self.folders@.len()
                && self.folders@[self.slots@[p] as int].path@ == p
        &&& forall|i: int|
            0 <= i < self.folders@.len() ==> self.slots@.contains_key(
                (#[trigger] self.folders@[i]).path@,
            ) && self.slots@[self.folders@[i].path@] == i
        &&& forall|i: int|
            0 <= i < self.folders@.len() ==> (#[trigger] self.folders@[i]).children.wf()
    }

    fn slot(&mut self, p: &[char]) -> (i: usize)
        requires
            old(self).wf(),
        ensures
            final(self).wf(),
            final(self)@ == touched(old(self)@, p@),
            i < final(self).folders@.len(),
            final(self).folders@[i as int].path@ == p@,
            final(self).slots@.contains_key(p@),
            final(self).slots@[p@] == i,
    {
        let text = crate::text::string_of(p);
        match self.slots.get(text.as_str()) {
            Some(i) => {
                let k: usize = *i;
                return k;
            },
            None => {},
        }
        let ghost before = self@;
        let ghost had = self.folders@;
        let ghost slots = self.slots@;
        let k: usize = self.folders.len();
        let key = text.clone();
        let folder = FolderSummary {
            path: text,
            size: 0,
            count: 0,
            children: PathMap::new(),
            direct_files: Vec::new(),
        };
        proof {
            assert(folder@.children =~= Set::empty());
            assert(folder@.files =~= Seq::empty());
        }
        let ghost f = folder@;
        self.folders.push(folder);
        self.slots.insert(key, k);
        proof {
            assert forall|q: Seq<char>| #[trigger] self.slots@.contains_key(q) implies self.slots@[q]
                < self.folders@.len() && self.folders@[self.slots@[q] as int].path@ == q by {
                if q != p@ {
                    assert(slots.contains_key(q));
                    assert(self.folders@[slots[q] as int] == had[slots[q] as int]);
                }
            }
            assert forall|i: int| 0 <= i < self.folders@.len() implies self.slots@.contains_key(
                (#[trigger] self.folders@[i]).path@,
            ) && self.slots@[self.folders@[i].path@] == i by {
                if i < had.len() {
                    assert(self.folders@[i] == had[i]);
                    assert(had[i].path@ != p@);
                }
            }
            assert forall|i: int| 0 <= i < self.folders@.len() implies (
            #[trigger] self.folders@[i]).children.wf() by {
                if i < had.len() {
                    assert(self.folders@[i] == had[i]);
                }
            }
            assert(self@ =~= before.insert(p@, f)) by {
                assert forall|q: Seq<char>| #[trigger] self@.contains_key(q) implies self@[q]
                    == before.insert(p@, f)[q] by {
                    if q != p@ {
                        assert(slots.contains_key(q));
                    }
                }
            }
        }
        k
    }

    /// One folder changed.
    proof fn changed_at(before: Hierarchy, after: Hierarchy, p: Seq<char>, i: int)
        requires
            before.wf(),
            0 <= i < before.folders@.len(),
            before.folders@[i].path@ == p,
            after.slots@ == before.slots@,
            after.folders@.len() == before.folders@.len(),
            after.folders@[i].path@ == p,
            after.folders@[i].children.wf(),
            forall|k: int|
                0 <= k < before.folders@.len() && k != i ==> (#[trigger] after.folders@[k])
                    == before.folders@[k],
        ensures
            after.wf(),
            after@ == before@.insert(p, after.folders@[i]@),
            before@.contains_key(p),
            before@[p] == before.folders@[i]@,
    {
        assert forall|q: Seq<char>| #[trigger] after.slots@.contains_key(q) implies after.slots@[q]
            < after.folders@.len() && after.folders@[after.slots@[q] as int].path@ == q by {
            assert(before.slots@.contains_key(q));
            if after.slots@[q] != i {
                assert(after.folders@[after.slots@[q] as int] == before.folders@[before.slots@[q] as int]);
            }
        }
        assert forall|k: int| 0 <= k < after.folders@.len() implies after.slots@.contains_key(
            (#[trigger] after.folders@[k]).path@,
        ) && after.slots@[after.folders@[k].path@] == k by {
            assert(before.slots@[before.folders@[k].path@] == k);
            if k != i {
                assert(after.folders@[k] == before.folders@[k]);
            }
        }
        assert forall|k: int| 0 <= k < after.folders@.len() implies (
        #[trigger] after.folders@[k]).children.wf() by {
            if k != i {
                assert(after.folders@[k] == before.folders@[k]);
                assert(before.folders@[k].children.wf());
            }
        }
        assert(before.slots@[p] == i);
        assert(after@ =~= before@.insert(p, after.folders@[i]@)) by {
            assert forall|q: Seq<char>| #[trigger] after@.contains_key(q) implies after@[q]
                == before@.insert(p, after.folders@[i]@)[q] by {
                assert(before.slots@.contains_key(q));
                if before.slots@[q] == i {
                    assert(before.folders@[i].path@ == q);
                } else {
                    assert(after.folders@[after.slots@[q] as int]
                        == before.folders@[before.slots@[q] as int]);
                }
            }
        }
    }

    fn weigh(&mut self, p: &[char], size: u64)
        requires
            old(self).wf(),
        ensures
            final(self).wf(),
            final(self)@ == weighed(old(self)@, p@, size),
    {
        let i: usize = self.slot(p);
        let ghost mid = *self;
        let w: u64 = if size >= 1 {
            size
        } else {
            1
        };
        let s: u64 = self.folders[i].size.saturating_add(w);
        let c: u64 = self.folders[i].count.saturating_add(1);
        self.folders[i].size = s;
        self.folders[i].count = c;
        proof {
            Self::changed_at(mid, *self, p@, i as int);
            assert(self.folders@[i as int]@.files =~= mid.folders@[i as int]@.files);
        }
    }

    fn adopt(&mut self, p: &[char], child: &[char])
        requires
            old(self).wf(),
        ensures
            final(self).wf(),
            final(self)@ == adopted(old(self)@, p@, child@),
    {
        let i: usize = self.slot(p);
        let ghost mid = *self;
        let name = crate::text::string_of(child);
        assert(self.folders@[i as int].children.wf());
        self.folders[i].children.insert(name);
        proof {
            Self::changed_at(mid, *self, p@, i as int);
            assert(self.folders@[i as int]@.children =~= mid.folders@[i as int]@.children.insert(
                child@,
            ));
            assert(self.folders@[i as int]@.files =~= mid.folders@[i as int]@.files);
        }
    }

    fn place(&mut self, p: &[char], file: TreeFile)
        requires
            old(self).wf(),
        ensures
            final(self).wf(),
            final(self)@ == placed(old(self)@, p@, file@),
    {
        let i: usize = self.slot(p);
        let ghost mid = *self;
        let ghost f = file@;
        self.folders[i].direct_files.push(file);
        proof {
            Self::changed_at(mid, *self, p@, i as int);
            assert(self.folders@[i as int]@.files =~= mid.folders@[i as int]@.files.push(f));
        }
    }

    fn put(&mut self, r: &FileRecord)
        requires
            old(self).wf(),
        ensures
            final(self).wf(),
            final(self)@ == with_record(old(self)@, r@),
    {
        let ghost t = self@;
        let raw = crate::text::chars_of(r.path.as_str());
        let n = crate::dirs::tidied(raw.as_slice());
        let parent = crate::dirs::parent_path(n.as_slice());
        let above = crate::dirs::ancestor_paths(parent.as_slice());
        let ghost ps = crate::text::texts(above@);
        let folder: bool = match r.kind {
            FileKind::Dir => true,
            _ => false,
        };
        if !folder {
            let mut i: usize = 0;
            assert(ps.take(0) =~= Seq::empty());
            while i < above.len()
                invariant
                    i <= above@.len(),
                    ps == crate::text::texts(above@),
                    self.wf(),
                    self@ == all_weighed(t, ps.take(i as int), r.size),
                decreases above@.len() - i,
            {
                proof {
                    assert(ps.take(i + 1).drop_last() =~= ps.take(i as int));
                    assert(ps[i as int] == above@[i as int]@);
                }
                self.weigh(above[i].as_slice(), r.size);
                i += 1;
            }
            assert(ps.take(i as int) =~= ps);
        }
        let ghost a = self@;
        if above.len() > 0 {
            let mut i: usize = 1;
            while i < above.len()
                invariant
                    1 <= i <= above@.len(),
                    ps == crate::text::texts(above@),
                    self.wf(),
                    self@ == chained(a, ps.take(i as int)),
                decreases above@.len() - i,
            {
                proof {
                    assert(ps.take(i + 1).drop_last() =~= ps.take(i as int));
                    assert(ps[i as int] == above@[i as int]@);
                    assert(ps[i - 1] == above@[i - 1]@);
                }
                self.adopt(above[i - 1].as_slice(), above[i].as_slice());
                i += 1;
            }
            assert(ps.take(i as int) =~= ps);
        }
        if folder {
            self.slot(n.as_slice());
            self.adopt(parent.as_slice(), n.as_slice());
        } else {
            let tidy_path = crate::text::string_of(n.as_slice());
            let name = crate::dirs::path_name(tidy_path.as_str());
            let chars = crate::text::chars_of(name.as_str());
            let extension = match crate::text::rfind(chars.as_slice(), '.') {
                None => String::new(),
                Some(d) => {
                    assert(chars.len() == chars@.len());
                    let tail = crate::text::part(chars.as_slice(), d + 1, chars.len());
                    assert(tail@ =~= chars@.skip(d + 1));
                    let low = crate::text::lowered(tail.as_slice());
                    crate::text::string_of(low.as_slice())
                },
            };
            let file = TreeFile { path: r.path.clone(), name, size: r.size, extension };
            assert(file@ =~= file_of(r@));
            self.place(parent.as_slice(), file);
        }
    }

    /// The hierarchy of some records, with the largest files of each folder first.
    pub fn from_records(records: &[FileRecord]) -> (r: Hierarchy)
        ensures
            r.wf(),
            arranged_tree(tree_of(crate::types::record_views(records@)), r@),
    {
        let ghost views = crate::types::record_views(records@);
        let mut h = Hierarchy { folders: Vec::new(), slots: StringHashMap::new() };
        assert(h@ =~= Map::empty());
        let top: Vec<char> = vec!['/'];
        assert(top@ =~= crate::dirs::top());
        h.slot(top.as_slice());
        let mut i: usize = 0;
        assert(views.take(0) =~= Seq::empty());
        while i < records.len()
            invariant
                i <= records@.len(),
                views == crate::types::record_views(records@),
                h.wf(),
                h@ == tree_of(views.take(i as int)),
            decreases records@.len() - i,
        {
            proof {
                assert(views.take(i + 1).drop_last() =~= views.take(i as int));
                assert(views[i as int] == records@[i as int]@);
            }
            h.put(&records[i]);
            i += 1;
        }
        assert(views.take(i as int) =~= views);
        h.sort_files();
        h
    }

    fn sort_files(&mut self)
        requires
            old(self).wf(),
        ensures
            final(self).wf(),
            arranged_tree(old(self)@, final(self)@),
    {
        let ghost start = *self;
        let mut i: usize = 0;
        while i < self.folders.len()
            invariant
                i <= self.folders@.len(),
                start == *old(self),
                start.wf(),
                self.folders@.len() == start.folders@.len(),
                self.slots@ == start.slots@,
                self.wf(),
                forall|k: int|
                    i <= k < self.folders@.len() ==> (#[trigger] self.folders@[k])
                        == start.folders@[k],
                forall|k: int|
                    0 <= k < i ==> same_but_order(start.folders@[k]@, (
                    #[trigger] self.folders@[k])@),
            decreases self.folders@.len() - i,
        {
            let ghost mid = *self;
            let mut files: Vec<TreeFile> = Vec::new();
            std::mem::swap(&mut files, &mut self.folders[i].direct_files);
            let ghost given = file_views(files@);
            let sorted = sort_by_size(files);
            self.folders[i].direct_files = sorted;
            proof {
                Self::changed_at(mid, *self, mid.folders@[i as int].path@, i as int);
                assert(mid.folders@[i as int]@.files =~= given);
                assert(same_but_order(start.folders@[i as int]@, self.folders@[i as int]@));
            }
            i += 1;
        }
        proof {
            assert(self@.dom() =~= start@.dom());
            assert forall|p: Seq<char>| #[trigger] start@.contains_key(p) implies self@[p].size
                == start@[p].size && self@[p].count == start@[p].count && self@[p].children
                == start@[p].children && largest_first(start@[p].files, self@[p].files) by {
                let k = start.slots@[p] as int;
                assert(same_but_order(start.folders@[k]@, self.folders@[k]@));
            }
        }
    }

    fn find(&self, p: &str) -> (r: Option<&FolderSummary>)
        requires
            self.wf(),
        ensures
            match r {
                Some(f) => self@.contains_key(p@) && f@ == self@[p@] && f.children.wf(),
                None => !self@.contains_key(p@),
            },
    {
        match self.slots.get(p) {
            Some(i) => {
                let k: usize = *i;
                Some(&self.folders[k])
            },
            None => None,
        }
    }

    /// Whether there is a folder at a path.
    pub fn contains(&self, p: &str) -> (r: bool)
        requires
            self.wf(),
        ensures
            r == self@.contains_key(p@),
    {
        self.find(p).is_some()
    }

    /// The size and the number of the files below a folder.
    pub fn totals(&self, p: &str) -> (r: Option<(u64, u64)>)
        requires
            self.wf(),
        ensures
            r == (if self@.contains_key(p@) {
                Some((self@[p@].size, self@[p@].count))
            } else {
                None
            }),
    {
        match self.find(p) {
            Some(f) => Some((f.size, f.count)),
            None => None,
        }
    }

    /// The folders of a folder, in path order.
    pub fn children(&self, p: &str) -> (r: Option<&[String]>)
        requires
            self.wf(),
        ensures
            match r {
                Some(c) => self@.contains_key(p@) && lists_children(
                    crate::text::strings(c@),
                    self@[p@].children,
                ),
                None => !self@.contains_key(p@),
            },
    {
        match self.find(p) {
            Some(f) => {
                let c = f.children.as_slice();
                proof {
                    lemma_children_listed(c@);
                }
                Some(c)
            },
            None => None,
        }
    }

    /// The files right in a folder, the largest first.
    pub fn files(&self, p: &str) -> (r: Option<&[TreeFile]>)
        requires
            self.wf(),
        ensures
            match r {
                Some(fs) => self@.contains_key(p@) && file_views(fs@) == self@[p@].files,
                None => !self@.contains_key(p@),
            },
    {
        match self.find(p) {
            Some(f) => Some(f.direct_files.as_slice()),
            None => None,
        }
    }
}

/// A list holds the members of a set, each once, in path order.
pub open spec fn lists_children(c: Seq<Seq<char>>, s: Set<Seq<char>>) -> bool {
    crate::pathmap::ascending(c) && forall|p: Seq<char>| c.contains(p) <==> #[trigger] s.contains(p)
}

proof fn lemma_children_listed(c: Seq<String>)
    requires
        crate::pathmap::ascending(crate::pathmap::keys_of(c)),
    ensures
        lists_children(crate::text::strings(c), crate::pathmap::entries_of(c).dom()),
{
    let s = crate::text::strings(c);
    assert(s =~= crate::pathmap::keys_of(c));
}

/// The same folder, with the largest files first.
pub open spec fn same_but_order(a: FolderView, b: FolderView) -> bool {
    a.size == b.size && a.count == b.count && a.children == b.children && largest_first(
        a.files,
        b.files,
    )
}

/// Positions by size, the largest first; equal ones stay as they were.
pub open spec fn is_size_order(sizes: Seq<u64>, order: Seq<usize>) -> bool {
    &&& order.len() == sizes.len()
    &&& forall|i: int| 0 <= i < order.len() ==> (#[trigger] order[i]) < sizes.len()
    &&& forall|i: int, j: int|
        0 <= i < j < order.len() ==> sizes[#[trigger] order[i] as int]
            > sizes[#[trigger] order[j] as int] || (sizes[order[i] as int] == sizes[order[j] as int]
            && order[i] < order[j])
    &&& order.to_multiset() == Seq::new(sizes.len(), |i: int| i as usize).to_multiset()
}

/// The positions of items by size, the largest first.
pub fn size_order(sizes: &Vec<u64>) -> (order: Vec<usize>)
    ensures
        is_size_order(sizes@, order@),
{
    let mut numbers: Vec<u64> = Vec::new();
    let mut i: usize = 0;
    while i < sizes.len()
        invariant
            i <= sizes@.len(),
            numbers@.len() == i,
            forall|k: int| 0 <= k < i ==> #[trigger] numbers@[k] == u64::MAX - sizes@[k],
        decreases sizes@.len() - i,
    {
        numbers.push(u64::MAX - sizes[i]);
        i += 1;
    }
    let order = crate::order::number_order(&numbers);
    proof {
        let n = numbers@;
        assert forall|i: int, j: int| 0 <= i < j < order@.len() implies sizes@[
            #[trigger] order@[i] as int] > sizes@[#[trigger] order@[j] as int] || (sizes@[order@[i] as int]
            == sizes@[order@[j] as int] && order@[i] < order@[j]) by {
            let (a, b) = (order@[i] as int, order@[j] as int);
            assert(crate::order::number_first(n, a, b));
            assert(n[a] == u64::MAX - sizes@[a]);
            assert(n[b] == u64::MAX - sizes@[b]);
        }
    }
    order
}

fn sort_by_size(files: Vec<TreeFile>) -> (r: Vec<TreeFile>)
    ensures
        largest_first(file_views(files@), file_views(r@)),
{
    let ghost given = file_views(files@);
    let mut sizes: Vec<u64> = Vec::new();
    let mut i: usize = 0;
    while i < files.len()
        invariant
            i <= files@.len(),
            sizes@.len() == i,
            forall|k: int| 0 <= k < i ==> #[trigger] sizes@[k] == files@[k].size,
        decreases files@.len() - i,
    {
        sizes.push(files[i].size);
        i += 1;
    }
    let order = size_order(&sizes);
    let ghost all = files@;
    assert(files.len() == files@.len());
    let r = crate::order::arranged(files, &order);
    proof {
        let out = file_views(r@);
        assert(out =~= crate::rank::picked(given, order@));
        crate::order::lemma_arranged_keeps(given, order@);
        assert forall|i: int, j: int| 0 <= i < j < out.len() implies out[i].size >= out[j].size by {
            let (a, b) = (order@[i] as int, order@[j] as int);
            assert(out[i] == given[a] && out[j] == given[b]);
            assert(sizes@[a] == all[a].size && sizes@[b] == all[b].size);
        }
    }
    r
}

// ---------------------------------------------------------------------------
// The map of one folder

/// How many blocks a map shows at most.
pub const MAX_BLOCKS: usize = 256;

/// One block of a map.
#[derive(Debug)]
pub struct MapBlock {
    pub path: String,
    pub name: String,
    pub bytes: u64,
    pub count: u64,
    pub folder: bool,
    pub extension: String,
}

/// A block as a mathematical value.
#[verifier::ext_equal]
pub struct BlockView {
    pub path: Seq<char>,
    pub name: Seq<char>,
    pub bytes: u64,
    pub count: u64,
    pub folder: bool,
    pub extension: Seq<char>,
}

impl View for MapBlock {
    type V = BlockView;

    open spec fn view(&self) -> BlockView {
        BlockView {
            path: self.path@,
            name: self.name@,
            bytes: self.bytes,
            count: self.count,
            folder: self.folder,
            extension: self.extension@,
        }
    }
}

/// The views of blocks.
pub open spec fn block_views(bs: Seq<MapBlock>) -> Seq<BlockView> {
    Seq::new(bs.len(), |i: int| bs[i]@)
}

/// The block of a folder.
pub open spec fn folder_block(t: Tree, p: Seq<char>) -> BlockView {
    BlockView {
        path: p,
        name: crate::dirs::name_of_path(p),
        bytes: weight(t[p].size),
        count: t[p].count,
        folder: true,
        extension: Seq::empty(),
    }
}

/// The blocks of some folders, as far as they are in the hierarchy.
pub open spec fn folder_blocks(t: Tree, c: Seq<Seq<char>>) -> Seq<BlockView>
    decreases c.len(),
{
    if c.len() == 0 {
        Seq::empty()
    } else if t.contains_key(c.last()) {
        folder_blocks(t, c.drop_last()).push(folder_block(t, c.last()))
    } else {
        folder_blocks(t, c.drop_last())
    }
}

/// The block of a file.
pub open spec fn file_block(f: FileView) -> BlockView {
    BlockView {
        path: f.path,
        name: f.name,
        bytes: weight(f.size),
        count: 1,
        folder: false,
        extension: f.extension,
    }
}

/// The blocks of some files.
pub open spec fn file_blocks(fs: Seq<FileView>) -> Seq<BlockView> {
    Seq::new(fs.len(), |i: int| file_block(fs[i]))
}

/// The sizes of blocks.
pub open spec fn block_sizes(bs: Seq<BlockView>) -> Seq<u64> {
    Seq::new(bs.len(), |i: int| bs[i].bytes)
}

/// The blocks of a folder: the largest of its folders and files.
pub open spec fn is_map(t: Tree, p: Seq<char>, r: Seq<BlockView>) -> bool {
    if !t.contains_key(p) {
        r.len() == 0
    } else {
        exists|c: Seq<Seq<char>>, order: Seq<usize>|
            #![trigger lists_children(c, t[p].children), is_size_order(
                block_sizes(folder_blocks(t, c) + file_blocks(t[p].files)),
                order,
            )]
            {
                let all = folder_blocks(t, c) + file_blocks(t[p].files);
                &&& lists_children(c, t[p].children)
                &&& is_size_order(block_sizes(all), order)
                &&& r == crate::rank::picked(all, order).take(
                    if all.len() < MAX_BLOCKS {
                        all.len() as int
                    } else {
                        MAX_BLOCKS as int
                    },
                )
            }
    }
}

/// The blocks that a map of a folder shows.
pub fn map_blocks(h: &Hierarchy, current: &str) -> (r: Vec<MapBlock>)
    requires
        h.wf(),
    ensures
        is_map(h@, current@, block_views(r@)),
{
    let ghost t = h@;
    let mut out: Vec<MapBlock> = Vec::new();
    let children = match h.children(current) {
        None => {
            return out;
        },
        Some(c) => c,
    };
    let files = match h.files(current) {
        None => {
            return out;
        },
        Some(f) => f,
    };
    let ghost c = crate::text::strings(children@);
    let ghost fs = t[current@].files;
    let mut i: usize = 0;
    proof {
        assert(c.take(0) =~= Seq::empty());
        assert(block_views(out@) =~= Seq::empty());
    }
    while i < children.len()
        invariant
            i <= children@.len(),
            h.wf(),
            t == h@,
            c == crate::text::strings(children@),
            block_views(out@) == folder_blocks(t, c.take(i as int)),
        decreases children@.len() - i,
    {
        let child = &children[i];
        let ghost had = block_views(out@);
        proof {
            assert(c.take(i + 1).drop_last() =~= c.take(i as int));
            assert(c[i as int] == child@);
        }
        if let Some((size, count)) = h.totals(child.as_str()) {
            let block = MapBlock {
                path: child.clone(),
                name: crate::dirs::path_name(child.as_str()),
                bytes: if size >= 1 {
                    size
                } else {
                    1
                },
                count,
                folder: true,
                extension: String::new(),
            };
            proof {
                assert(block.extension@ =~= Seq::empty());
                assert(block@ =~= folder_block(t, child@));
            }
            out.push(block);
            assert(block_views(out@) =~= had.push(folder_block(t, child@)));
        }
        i += 1;
    }
    assert(c.take(i as int) =~= c);
    let ghost folders = folder_blocks(t, c);
    let mut j: usize = 0;
    assert(folders + file_blocks(fs.take(0)) =~= folders);
    while j < files.len()
        invariant
            j <= files@.len(),
            fs == file_views(files@),
            block_views(out@) == folders + file_blocks(fs.take(j as int)),
        decreases files@.len() - j,
    {
        let f = &files[j];
        let ghost had = block_views(out@);
        assert(fs[j as int] == f@);
        let block = MapBlock {
            path: f.path.clone(),
            name: f.name.clone(),
            bytes: if f.size >= 1 {
                f.size
            } else {
                1
            },
            count: 1,
            folder: false,
            extension: f.extension.clone(),
        };
        assert(block@ =~= file_block(f@));
        out.push(block);
        proof {
            assert(block_views(out@) =~= had.push(file_block(f@)));
            assert(folders + file_blocks(fs.take(j + 1)) =~= (folders + file_blocks(
                fs.take(j as int),
            )).push(file_block(f@)));
        }
        j += 1;
    }
    assert(fs.take(j as int) =~= fs);
    let ghost all = folders + file_blocks(fs);
    let mut sizes: Vec<u64> = Vec::new();
    let mut k: usize = 0;
    while k < out.len()
        invariant
            k <= out@.len(),
            block_views(out@) == all,
            sizes@.len() == k,
            forall|x: int| 0 <= x < k ==> #[trigger] sizes@[x] == all[x].bytes,
        decreases out@.len() - k,
    {
        assert(all[k as int] == out@[k as int]@);
        sizes.push(out[k].bytes);
        k += 1;
    }
    assert(sizes@ =~= block_sizes(all));
    let order = size_order(&sizes);
    let ghost given = out@;
    let mut sorted = crate::order::arranged(out, &order);
    proof {
        assert(block_views(sorted@) =~= crate::rank::picked(all, order@)) by {
            assert forall|x: int| 0 <= x < order@.len() implies block_views(sorted@)[x]
                == all[order@[x] as int] by {
                assert(all[order@[x] as int] == given[order@[x] as int]@);
            }
        }
    }
    let ghost whole = block_views(sorted@);
    if sorted.len() > MAX_BLOCKS {
        sorted.truncate(MAX_BLOCKS);
    }
    proof {
        assert(block_views(sorted@) =~= whole.take(
            if all.len() < MAX_BLOCKS {
                all.len() as int
            } else {
                MAX_BLOCKS as int
            },
        ));
        assert(lists_children(c, t[current@].children));
        assert(is_size_order(block_sizes(folder_blocks(t, c) + file_blocks(t[current@].files)), order@));
    }
    sorted
}

/// The sum of some sizes, as far as a machine counts.
pub open spec fn sizes_sum(s: Seq<u64>) -> u64
    decreases s.len(),
{
    if s.len() == 0 {
        0
    } else {
        capped_sum(sizes_sum(s.drop_last()), s.last())
    }
}

/// Where a row of blocks is cut in two: behind the first blocks that hold half of the total,
/// with at least one block on either side.
pub open spec fn is_cut(sizes: Seq<u64>, split: int) -> bool {
    let half = (if sizes_sum(sizes) >= 1 {
        sizes_sum(sizes)
    } else {
        1
    }) / 2;
    &&& 1 <= split < sizes.len()
    &&& split == sizes.len() - 1 || sizes_sum(sizes.take(split)) >= half
    &&& forall|k: int| 1 <= k < split ==> sizes_sum(#[trigger] sizes.take(k)) < half
}

fn sum_sizes(sizes: &Vec<u64>) -> (n: u64)
    ensures
        n == sizes_sum(sizes@),
{
    let mut n: u64 = 0;
    let mut i: usize = 0;
    assert(sizes@.take(0) =~= Seq::empty());
    while i < sizes.len()
        invariant
            i <= sizes@.len(),
            n == sizes_sum(sizes@.take(i as int)),
        decreases sizes@.len() - i,
    {
        assert(sizes@.take(i + 1).drop_last() =~= sizes@.take(i as int));
        n = n.saturating_add(sizes[i]);
        i += 1;
    }
    assert(sizes@.take(i as int) =~= sizes@);
    n
}

/// Cuts a row of blocks in two; gives the place of the cut, the size in front of it and the
/// total, which is at least one.
pub fn cut_blocks(sizes: &Vec<u64>) -> (r: (usize, u64, u64))
    requires
        sizes@.len() >= 2,
    ensures
        is_cut(sizes@, r.0 as int),
        r.1 == sizes_sum(sizes@.take(r.0 as int)),
        r.2 == (if sizes_sum(sizes@) >= 1 {
            sizes_sum(sizes@)
        } else {
            1
        }),
{
    let sum: u64 = sum_sizes(sizes);
    let total: u64 = if sum >= 1 {
        sum
    } else {
        1
    };
    let n: usize = sizes.len();
    let mut left: u64 = sizes[0];
    let mut split: usize = 1;
    proof {
        assert(sizes@.take(1).drop_last() =~= Seq::empty());
        assert(sizes_sum(sizes@.take(1).drop_last()) == 0);
    }
    while split < n - 1 && left < total / 2
        invariant
            n == sizes@.len(),
            1 <= split <= n - 1,
            left == sizes_sum(sizes@.take(split as int)),
            forall|k: int| 1 <= k < split ==> sizes_sum(#[trigger] sizes@.take(k)) < total / 2,
        decreases n - split,
    {
        assert(sizes@.take(split + 1).drop_last() =~= sizes@.take(split as int));
        left = left.saturating_add(sizes[split]);
        split += 1;
    }
    (split, left, total)
}

// ---------------------------------------------------------------------------
// How folders hang together

/// A folder is one of another.
pub open spec fn linked(t: Tree, p: Seq<char>, child: Seq<char>) -> bool {
    t.contains_key(p) && t[p].children.contains(child)
}

/// Every link stays.
spec fn keeps_links(a: Tree, b: Tree) -> bool {
    forall|p: Seq<char>, c: Seq<char>| #[trigger] linked(a, p, c) ==> linked(b, p, c)
}

proof fn lemma_weighing_keeps_links(t: Tree, ps: Seq<Seq<char>>, size: u64)
    ensures
        keeps_links(t, all_weighed(t, ps, size)),
    decreases ps.len(),
{
    if ps.len() > 0 {
        lemma_weighing_keeps_links(t, ps.drop_last(), size);
    }
}

proof fn lemma_chained_links(t: Tree, ps: Seq<Seq<char>>)
    ensures
        keeps_links(t, chained(t, ps)),
        forall|i: int| 0 <= i < ps.len() - 1 ==> linked(chained(t, ps), #[trigger] ps[i], ps[i + 1]),
    decreases ps.len(),
{
    if ps.len() >= 2 {
        let less = ps.drop_last();
        lemma_chained_links(t, less);
        assert forall|i: int| 0 <= i < ps.len() - 1 implies linked(
            chained(t, ps),
            #[trigger] ps[i],
            ps[i + 1],
        ) by {
            if i < ps.len() - 2 {
                assert(less[i] == ps[i] && less[i + 1] == ps[i + 1]);
                assert(linked(chained(t, less), less[i], less[i + 1]));
            }
        }
    }
}

/// The folders from the top down to the one that a record lies in.
pub open spec fn way_to(r: RecordView) -> Seq<Seq<char>> {
    crate::dirs::ancestors_of(crate::dirs::parent_of(crate::dirs::tidy(r.path)))
}

proof fn lemma_record_links(t: Tree, r: RecordView)
    ensures
        keeps_links(t, with_record(t, r)),
        forall|i: int|
            0 <= i < way_to(r).len() - 1 ==> linked(
                with_record(t, r),
                #[trigger] way_to(r)[i],
                way_to(r)[i + 1],
            ),
        r.kind is Dir ==> linked(
            with_record(t, r),
            crate::dirs::parent_of(crate::dirs::tidy(r.path)),
            crate::dirs::tidy(r.path),
        ),
{
    let a = if r.kind == FileKind::Dir {
        t
    } else {
        all_weighed(t, way_to(r), r.size)
    };
    lemma_weighing_keeps_links(t, way_to(r), r.size);
    lemma_chained_links(a, way_to(r));
    let b = chained(a, way_to(r));
    assert(keeps_links(b, with_record(t, r)));
    assert forall|i: int| 0 <= i < way_to(r).len() - 1 implies linked(
        with_record(t, r),
        #[trigger] way_to(r)[i],
        way_to(r)[i + 1],
    ) by {
        assert(linked(b, way_to(r)[i], way_to(r)[i + 1]));
    }
}

/// Whatever records there are, the way from the top to the folder of each of them is linked
/// step by step, drives and shares being among the folders of the top; and a folder that has a
/// record of its own is one of its parent's.
pub proof fn law_folders_hang_together(rs: Seq<RecordView>, k: int, i: int)
    requires
        0 <= k < rs.len(),
    ensures
        way_to(rs[k]).len() > 0,
        way_to(rs[k])[0] == crate::dirs::top(),
        0 <= i < way_to(rs[k]).len() - 1 ==> linked(
            tree_of(rs),
            way_to(rs[k])[i],
            way_to(rs[k])[i + 1],
        ),
        rs[k].kind is Dir ==> linked(
            tree_of(rs),
            crate::dirs::parent_of(crate::dirs::tidy(rs[k].path)),
            crate::dirs::tidy(rs[k].path),
        ),
    decreases rs.len(),
{
    let less = rs.drop_last();
    lemma_record_links(tree_of(less), rs.last());
    if k < less.len() {
        assert(less[k] == rs[k]);
        law_folders_hang_together(less, k, i);
    } else {
        assert(rs.last() == rs[k]);
        if 0 <= i < way_to(rs[k]).len() - 1 {
            assert(linked(tree_of(rs), way_to(rs.last())[i], way_to(rs.last())[i + 1]));
        }
    }
}

// ---------------------------------------------------------------------------
// What a folder sums up

/// What the hierarchy has of a folder; nothing where it does not have it.
pub open spec fn content(t: Tree, p: Seq<char>) -> FolderView {
    if t.contains_key(p) {
        t[p]
    } else {
        no_content()
    }
}

/// How many files some folders count together.
pub open spec fn counts_of(t: Tree, c: Seq<Seq<char>>) -> nat
    decreases c.len(),
{
    if c.len() == 0 {
        0
    } else {
        counts_of(t, c.drop_last()) + content(t, c.last()).count as nat
    }
}

/// How large some folders are together.
pub open spec fn sizes_of(t: Tree, c: Seq<Seq<char>>) -> nat
    decreases c.len(),
{
    if c.len() == 0 {
        0
    } else {
        sizes_of(t, c.drop_last()) + content(t, c.last()).size as nat
    }
}

/// How large some files are together.
pub open spec fn weights(fs: Seq<FileView>) -> nat
    decreases fs.len(),
{
    if fs.len() == 0 {
        0
    } else {
        weights(fs.drop_last()) + weight(fs.last().size) as nat
    }
}

/// What a record counts, in files or in room.
pub open spec fn unit(r: RecordView, room: bool) -> nat {
    if r.kind == FileKind::Dir {
        0
    } else if room {
        weight(r.size) as nat
    } else {
        1
    }
}

/// What some records count together.
pub open spec fn total(rs: Seq<RecordView>, room: bool) -> nat
    decreases rs.len(),
{
    if rs.len() == 0 {
        0
    } else {
        total(rs.drop_last(), room) + unit(rs.last(), room)
    }
}

/// A record has an absolute path that does not begin with a folder called `:`, and is not the
/// top itself, which would be its own parent.
pub open spec fn well_placed(r: RecordView) -> bool {
    let n = crate::dirs::tidy(r.path);
    let c = crate::dirs::components(n);
    &&& crate::dirs::rooted(n)
    &&& c.len() == 0 || c[0] != seq![':']
    &&& r.kind == FileKind::Dir ==> n != crate::dirs::top()
}

/// What the records below a folder count.
spec fn held(rs: Seq<RecordView>, p: Seq<char>, room: bool) -> nat
    decreases rs.len(),
{
    if rs.len() == 0 {
        0
    } else {
        held(rs.drop_last(), p, room) + if way_to(rs.last()).contains(p) {
            unit(rs.last(), room)
        } else {
            0
        }
    }
}

/// What the records right in a folder count.
spec fn own(rs: Seq<RecordView>, p: Seq<char>, room: bool) -> nat
    decreases rs.len(),
{
    if rs.len() == 0 {
        0
    } else {
        own(rs.drop_last(), p, room) + if crate::dirs::parent_of(
            crate::dirs::tidy(rs.last().path),
        ) == p {
            unit(rs.last(), room)
        } else {
            0
        }
    }
}

/// What the records below some folders count.
spec fn held_in_all(rs: Seq<RecordView>, c: Seq<Seq<char>>, room: bool) -> nat
    decreases c.len(),
{
    if c.len() == 0 {
        0
    } else {
        held_in_all(rs, c.drop_last(), room) + held(rs, c.last(), room)
    }
}

/// A unit for each of some folders that lies on a way.
pub open spec fn met(c: Seq<Seq<char>>, way: Seq<Seq<char>>, u: nat) -> nat
    decreases c.len(),
{
    if c.len() == 0 {
        0
    } else {
        met(c.drop_last(), way, u) + if way.contains(c.last()) {
            u
        } else {
            0
        }
    }
}

pub proof fn lemma_none_met(c: Seq<Seq<char>>, way: Seq<Seq<char>>, u: nat)
    requires
        forall|j: int| 0 <= j < c.len() ==> !way.contains(#[trigger] c[j]),
    ensures
        met(c, way, u) == 0,
    decreases c.len(),
{
    if c.len() > 0 {
        let less = c.drop_last();
        assert(c.last() == c[c.len() - 1]);
        assert forall|j: int| 0 <= j < less.len() implies !way.contains(#[trigger] less[j]) by {
            assert(less[j] == c[j]);
        }
        lemma_none_met(less, way, u);
    }
}

pub proof fn lemma_one_met(c: Seq<Seq<char>>, way: Seq<Seq<char>>, u: nat, at: int)
    requires
        0 <= at < c.len(),
        way.contains(c[at]),
        forall|j: int| 0 <= j < c.len() && j != at ==> !way.contains(#[trigger] c[j]),
    ensures
        met(c, way, u) == u,
    decreases c.len(),
{
    let less = c.drop_last();
    assert(c.last() == c[c.len() - 1]);
    assert forall|j: int| 0 <= j < less.len() && j != at implies !way.contains(
        #[trigger] less[j],
    ) by {
        assert(less[j] == c[j]);
    }
    if at == c.len() - 1 {
        lemma_none_met(less, way, u);
    } else {
        assert(less[at] == c[at]);
        lemma_one_met(less, way, u, at);
    }
}

proof fn lemma_held_with(rs: Seq<RecordView>, c: Seq<Seq<char>>, room: bool)
    requires
        rs.len() > 0,
    ensures
        held_in_all(rs, c, room) == held_in_all(rs.drop_last(), c, room) + met(
            c,
            way_to(rs.last()),
            unit(rs.last(), room),
        ),
    decreases c.len(),
{
    if c.len() > 0 {
        lemma_held_with(rs, c.drop_last(), room);
    }
}

proof fn lemma_held_of_none(c: Seq<Seq<char>>, room: bool)
    ensures
        held_in_all(Seq::empty(), c, room) == 0,
    decreases c.len(),
{
    if c.len() > 0 {
        lemma_held_of_none(c.drop_last(), room);
    }
}

/// The way to a well placed record goes from parent to child, and ends in its folder.
proof fn lemma_way(r: RecordView)
    requires
        well_placed(r),
    ensures
        way_to(r).len() > 0,
        way_to(r).no_duplicates(),
        way_to(r)[0] == crate::dirs::top(),
        way_to(r).last() == crate::dirs::parent_of(crate::dirs::tidy(r.path)),
        forall|i: int|
            0 < i < way_to(r).len() ==> crate::dirs::parent_of(#[trigger] way_to(r)[i])
                == way_to(r)[i - 1],
{
    let up = crate::dirs::parent_of(crate::dirs::tidy(r.path));
    crate::dirs::law_parents_are_settled(r.path);
    crate::dirs::law_ancestors_are_the_chain_of_parents(up);
    crate::dirs::law_ancestors_differ(up);
}

/// A list names folders of `p` alone, each once, and every one that the way to a record goes
/// through behind `p`.
spec fn lists_steps(rs: Seq<RecordView>, p: Seq<char>, c: Seq<Seq<char>>) -> bool {
    &&& c.no_duplicates()
    &&& forall|j: int|
        0 <= j < c.len() ==> crate::dirs::parent_of(#[trigger] c[j]) == p && c[j]
            != crate::dirs::top()
    &&& forall|k: int, i: int|
        0 <= k < rs.len() && 0 <= i < way_to(rs[k]).len() - 1 && (#[trigger] way_to(rs[k])[i]) == p
            ==> c.contains(way_to(rs[k])[i + 1])
}

proof fn lemma_step(r: RecordView, p: Seq<char>, c: Seq<Seq<char>>, u: nat)
    requires
        well_placed(r),
        lists_steps(seq![r], p, c),
    ensures
        (if way_to(r).contains(p) {
            u
        } else {
            0
        }) == (if crate::dirs::parent_of(crate::dirs::tidy(r.path)) == p {
            u
        } else {
            0
        }) + met(c, way_to(r), u),
{
    let way = way_to(r);
    let last = way.len() - 1;
    lemma_way(r);
    assert(way[last] == way.last());
    assert(seq![r][0] == r);
    assert forall|j: int| 0 <= j < c.len() && way.contains(#[trigger] c[j]) implies exists|m: int|
        0 < m < way.len() && #[trigger] way[m] == c[j] && way[m - 1] == p by {
        let m = way.index_of(c[j]);
        assert(way[m] == c[j]);
        assert(m != 0);
        assert(crate::dirs::parent_of(way[m]) == way[m - 1]);
    }
    if way.contains(p) {
        let i = way.index_of(p);
        assert(way[i] == p);
        if i == last {
            lemma_none_met(c, way, u);
        } else {
            assert(way_to(seq![r][0])[i] == p);
            assert(c.contains(way[i + 1]));
            let at = c.index_of(way[i + 1]);
            assert forall|j: int| 0 <= j < c.len() && j != at implies !way.contains(
                #[trigger] c[j],
            ) by {
                if way.contains(c[j]) {
                    let m = choose|m: int|
                        0 < m < way.len() && #[trigger] way[m] == c[j] && way[m - 1] == p;
                    assert(m - 1 == i);
                    assert(c[j] == c[at]);
                }
            }
            assert(way.contains(c[at]));
            lemma_one_met(c, way, u, at);
            assert(way.last() != p);
        }
    } else {
        lemma_none_met(c, way, u);
    }
}

proof fn lemma_sums(rs: Seq<RecordView>, p: Seq<char>, c: Seq<Seq<char>>, room: bool)
    requires
        forall|k: int| 0 <= k < rs.len() ==> well_placed(#[trigger] rs[k]),
        lists_steps(rs, p, c),
    ensures
        held(rs, p, room) == own(rs, p, room) + held_in_all(rs, c, room),
    decreases rs.len(),
{
    if rs.len() == 0 {
        assert(rs =~= Seq::empty());
        lemma_held_of_none(c, room);
    } else {
        let less = rs.drop_last();
        let r = rs.last();
        assert(r == rs[rs.len() - 1]);
        assert forall|k: int| 0 <= k < less.len() implies well_placed(#[trigger] less[k]) by {
            assert(less[k] == rs[k]);
        }
        assert(lists_steps(less, p, c)) by {
            assert forall|k: int, i: int|
                0 <= k < less.len() && 0 <= i < way_to(less[k]).len() - 1 && (
                #[trigger] way_to(less[k])[i]) == p implies c.contains(way_to(less[k])[i + 1]) by {
                assert(less[k] == rs[k]);
                assert(way_to(rs[k])[i] == p);
            }
        }
        assert(lists_steps(seq![r], p, c)) by {
            let one = seq![r];
            assert forall|k: int, i: int|
                0 <= k < one.len() && 0 <= i < way_to(one[k]).len() - 1 && (
                #[trigger] way_to(one[k])[i]) == p implies c.contains(way_to(one[k])[i + 1]) by {
                assert(one[k] == rs[rs.len() - 1]);
                assert(way_to(rs[rs.len() - 1])[i] == p);
            }
        }
        lemma_sums(less, p, c, room);
        lemma_held_with(rs, c, room);
        lemma_step(r, p, c, unit(r, room));
    }
}

proof fn lemma_weighed_content(t: Tree, ps: Seq<Seq<char>>, size: u64, p: Seq<char>)
    requires
        ps.no_duplicates(),
    ensures
        content(all_weighed(t, ps, size), p) == if ps.contains(p) {
            FolderView {
                size: capped_sum(content(t, p).size, weight(size)),
                count: capped_sum(content(t, p).count, 1),
                ..content(t, p)
            }
        } else {
            content(t, p)
        },
    decreases ps.len(),
{
    if ps.len() > 0 {
        let less = ps.drop_last();
        let last = ps.len() - 1;
        assert(less.no_duplicates());
        lemma_weighed_content(t, less, size, p);
        if less.contains(p) {
            let i = less.index_of(p);
            assert(ps[i] == p);
            assert(ps[last] != ps[i]);
        } else if ps.contains(p) {
            let i = ps.index_of(p);
            if i < last {
                assert(less[i] == p);
            }
        }
        assert(ps[last] == ps.last());
    }
}

/// Two folders alike but for their own folders.
spec fn alike(a: FolderView, b: FolderView) -> bool {
    a.size == b.size && a.count == b.count && a.files == b.files
}

proof fn lemma_chained_content(t: Tree, ps: Seq<Seq<char>>, p: Seq<char>)
    ensures
        alike(content(chained(t, ps), p), content(t, p)),
    decreases ps.len(),
{
    if ps.len() >= 2 {
        lemma_chained_content(t, ps.drop_last(), p);
    }
}

/// What a record adds to a folder.
proof fn lemma_record_content(t: Tree, r: RecordView, p: Seq<char>)
    ensures
        ({
            let f = content(t, p);
            let g = content(with_record(t, r), p);
            let counts = r.kind != FileKind::Dir && way_to(r).contains(p);
            &&& g.count == if counts {
                capped_sum(f.count, 1)
            } else {
                f.count
            }
            &&& g.size == if counts {
                capped_sum(f.size, weight(r.size))
            } else {
                f.size
            }
            &&& g.files == if r.kind != FileKind::Dir && crate::dirs::parent_of(
                crate::dirs::tidy(r.path),
            ) == p {
                f.files.push(file_of(r))
            } else {
                f.files
            }
        }),
{
    let n = crate::dirs::tidy(r.path);
    let parent = crate::dirs::parent_of(n);
    crate::dirs::law_ancestors_differ(parent);
    let a = if r.kind == FileKind::Dir {
        t
    } else {
        all_weighed(t, way_to(r), r.size)
    };
    lemma_weighed_content(t, way_to(r), r.size, p);
    lemma_chained_content(a, way_to(r), p);
    let b = chained(a, way_to(r));
    if r.kind == FileKind::Dir {
        assert(alike(content(touched(b, n), p), content(b, p)));
    }
}

proof fn lemma_held_within(rs: Seq<RecordView>, p: Seq<char>, room: bool)
    ensures
        held(rs, p, room) <= total(rs, room),
    decreases rs.len(),
{
    if rs.len() > 0 {
        lemma_held_within(rs.drop_last(), p, room);
    }
}

/// A folder counts what the records below it count, and holds the files right in it.
proof fn lemma_tree_content(rs: Seq<RecordView>, p: Seq<char>)
    requires
        total(rs, false) <= u64::MAX,
        total(rs, true) <= u64::MAX,
    ensures
        content(tree_of(rs), p).count == held(rs, p, false),
        content(tree_of(rs), p).size == held(rs, p, true),
        content(tree_of(rs), p).files.len() == own(rs, p, false),
        weights(content(tree_of(rs), p).files) == own(rs, p, true),
    decreases rs.len(),
{
    if rs.len() > 0 {
        let less = rs.drop_last();
        let r = rs.last();
        lemma_tree_content(less, p);
        lemma_held_within(rs, p, false);
        lemma_held_within(rs, p, true);
        lemma_record_content(tree_of(less), r, p);
        let files = content(tree_of(less), p).files;
        assert(files.push(file_of(r)).drop_last() =~= files);
    }
}

proof fn lemma_weighing_adds_no_links(t: Tree, ps: Seq<Seq<char>>, size: u64)
    ensures
        keeps_links(all_weighed(t, ps, size), t),
    decreases ps.len(),
{
    if ps.len() > 0 {
        lemma_weighing_adds_no_links(t, ps.drop_last(), size);
        let before = all_weighed(t, ps.drop_last(), size);
        assert forall|p: Seq<char>, c: Seq<char>| #[trigger]
            linked(all_weighed(t, ps, size), p, c) implies linked(t, p, c) by {
            assert(linked(before, p, c));
        }
    }
}

/// Every folder is a child of its parent alone.
spec fn links_lead_down(t: Tree) -> bool {
    forall|p: Seq<char>, c: Seq<char>| #[trigger]
        linked(t, p, c) ==> crate::dirs::parent_of(c) == p && c != crate::dirs::top()
}

proof fn lemma_chained_lead_down(t: Tree, ps: Seq<Seq<char>>)
    requires
        links_lead_down(t),
        forall|i: int|
            0 < i < ps.len() ==> crate::dirs::parent_of(#[trigger] ps[i]) == ps[i - 1] && ps[i]
                != crate::dirs::top(),
    ensures
        links_lead_down(chained(t, ps)),
    decreases ps.len(),
{
    if ps.len() >= 2 {
        let less = ps.drop_last();
        assert forall|i: int| 0 < i < less.len() implies crate::dirs::parent_of(#[trigger] less[i])
            == less[i - 1] && less[i] != crate::dirs::top() by {
            assert(less[i] == ps[i] && less[i - 1] == ps[i - 1]);
        }
        lemma_chained_lead_down(t, less);
        let before = chained(t, less);
        let after = chained(t, ps);
        let last = ps.len() - 1;
        assert(ps[last] == ps.last());
        assert forall|p: Seq<char>, c: Seq<char>| #[trigger] linked(after, p, c) implies
            crate::dirs::parent_of(c) == p && c != crate::dirs::top() by {
            assert(linked(before, p, c) || (p == ps[last - 1] && c == ps[last]));
        }
    }
}

proof fn lemma_tree_leads_down(rs: Seq<RecordView>)
    requires
        forall|k: int| 0 <= k < rs.len() ==> well_placed(#[trigger] rs[k]),
    ensures
        links_lead_down(tree_of(rs)),
    decreases rs.len(),
{
    if rs.len() > 0 {
        let less = rs.drop_last();
        let r = rs.last();
        assert(r == rs[rs.len() - 1]);
        assert forall|k: int| 0 <= k < less.len() implies well_placed(#[trigger] less[k]) by {
            assert(less[k] == rs[k]);
        }
        lemma_tree_leads_down(less);
        let t = tree_of(less);
        let n = crate::dirs::tidy(r.path);
        let parent = crate::dirs::parent_of(n);
        let way = way_to(r);
        lemma_way(r);
        assert forall|i: int| 0 < i < way.len() implies crate::dirs::parent_of(#[trigger] way[i])
            == way[i - 1] && way[i] != crate::dirs::top() by {
            assert(way[i] != way[0]);
        }
        let a = if r.kind == FileKind::Dir {
            t
        } else {
            all_weighed(t, way, r.size)
        };
        lemma_weighing_adds_no_links(t, way, r.size);
        assert(links_lead_down(a)) by {
            assert forall|p: Seq<char>, c: Seq<char>| #[trigger] linked(a, p, c) implies
                crate::dirs::parent_of(c) == p && c != crate::dirs::top() by {
                assert(linked(t, p, c));
            }
        }
        lemma_chained_lead_down(a, way);
        let b = chained(a, way);
        let after = with_record(t, r);
        assert forall|p: Seq<char>, c: Seq<char>| #[trigger] linked(after, p, c) implies
            crate::dirs::parent_of(c) == p && c != crate::dirs::top() by {
            assert(linked(b, p, c) || (r.kind == FileKind::Dir && p == parent && c == n));
        }
    }
}

/// The number of files that a folder counts is the number of files right in it and those that
/// its folders count, and its size is theirs: nothing is counted twice or left out. `c` lists
/// the folders of the folder. The sums of all records have to fit the counters.
pub proof fn law_folders_sum_up(rs: Seq<RecordView>, p: Seq<char>, c: Seq<Seq<char>>)
    requires
        forall|k: int| 0 <= k < rs.len() ==> well_placed(#[trigger] rs[k]),
        total(rs, false) <= u64::MAX,
        total(rs, true) <= u64::MAX,
        tree_of(rs).contains_key(p),
        lists_children(c, tree_of(rs)[p].children),
    ensures
        tree_of(rs)[p].count == tree_of(rs)[p].files.len() + counts_of(tree_of(rs), c),
        tree_of(rs)[p].size == weights(tree_of(rs)[p].files) + sizes_of(tree_of(rs), c),
{
    let t = tree_of(rs);
    lemma_tree_content(rs, p);
    lemma_tree_leads_down(rs);
    assert(lists_steps(rs, p, c)) by {
        assert forall|i: int, j: int| 0 <= i < j < c.len() implies c[i] != c[j] by {
            assert(crate::order::text_lt(c[i], c[j]));
            crate::order::lemma_lex_irreflexive(vstd::utf8::encode_utf8(c[i]));
        }
        assert forall|j: int| 0 <= j < c.len() implies crate::dirs::parent_of(#[trigger] c[j]) == p
            && c[j] != crate::dirs::top() by {
            assert(c.contains(c[j]));
            assert(linked(t, p, c[j]));
        }
        assert forall|k: int, i: int|
            0 <= k < rs.len() && 0 <= i < way_to(rs[k]).len() - 1 && (#[trigger] way_to(rs[k])[i])
                == p implies c.contains(way_to(rs[k])[i + 1]) by {
            law_folders_hang_together(rs, k, i);
            assert(linked(t, p, way_to(rs[k])[i + 1]));
        }
    }
    lemma_sums(rs, p, c, false);
    lemma_sums(rs, p, c, true);
    lemma_folders_hold(rs, c);
}

proof fn lemma_folders_hold(rs: Seq<RecordView>, c: Seq<Seq<char>>)
    requires
        total(rs, false) <= u64::MAX,
        total(rs, true) <= u64::MAX,
    ensures
        counts_of(tree_of(rs), c) == held_in_all(rs, c, false),
        sizes_of(tree_of(rs), c) == held_in_all(rs, c, true),
    decreases c.len(),
{
    if c.len() > 0 {
        lemma_folders_hold(rs, c.drop_last());
        lemma_tree_content(rs, c.last());
    }
}

} // verus!
