//! The ZFS lane: snapshots, and what changed between two of them.
//!
//! The first indexing of a pool needs the library of the pool itself. Without it the lane
//! refuses: it neither walks directories nor reads the output of a debugging tool.

use crate::mounts::MountInfo;
use crate::text::Separator;
use crate::types::ScanStats;
use vstd::prelude::*;

verus! {

/// What changed between two snapshots.
#[derive(Debug)]
pub enum DiffEntry {
    Created(String),
    Removed(String),
    Modified(String),
    Renamed { from: String, to: String },
}

/// The same as a mathematical value.
#[verifier::ext_equal]
pub enum DiffView {
    Created(Seq<char>),
    Removed(Seq<char>),
    Modified(Seq<char>),
    Renamed { from: Seq<char>, to: Seq<char> },
}

impl View for DiffEntry {
    type V = DiffView;

    open spec fn view(&self) -> DiffView {
        match self {
            DiffEntry::Created(p) => DiffView::Created(p@),
            DiffEntry::Removed(p) => DiffView::Removed(p@),
            DiffEntry::Modified(p) => DiffView::Modified(p@),
            DiffEntry::Renamed { from, to } => DiffView::Renamed { from: from@, to: to@ },
        }
    }
}

/// Why something is refused. Lines are counted from 1.
#[derive(Debug)]
pub enum ZfsError {
    MissingPath { line: usize },
    UnknownMarker { marker: String, line: usize },
    InvalidDataset,
    NotASnapshot,
    NotOurs,
    NoBackend,
}

/// The same as a mathematical value.
#[verifier::ext_equal]
pub enum ZfsFault {
    MissingPath { line: usize },
    UnknownMarker { marker: Seq<char>, line: usize },
    InvalidDataset,
    NotASnapshot,
    NotOurs,
    NoBackend,
}

impl View for ZfsError {
    type V = ZfsFault;

    open spec fn view(&self) -> ZfsFault {
        match self {
            ZfsError::MissingPath { line } => ZfsFault::MissingPath { line: *line },
            ZfsError::UnknownMarker { marker, line } => ZfsFault::UnknownMarker {
                marker: marker@,
                line: *line,
            },
            ZfsError::InvalidDataset => ZfsFault::InvalidDataset,
            ZfsError::NotASnapshot => ZfsFault::NotASnapshot,
            ZfsError::NotOurs => ZfsFault::NotOurs,
            ZfsError::NoBackend => ZfsFault::NoBackend,
        }
    }
}

/// A text as `format!` writes it with `{:?}`.
pub uninterp spec fn debug_text(s: Seq<char>) -> Seq<char>;

/// Calls `format!` with `{:?}` on a text: quotes around it, and escapes inside. Which
/// characters are escaped is only named.
#[verifier::external_body]
fn quoted(s: &str) -> (r: String)
    ensures
        r@ == debug_text(s@),
{
    format!("{s:?}")
}

/// What an error says.
pub open spec fn fault_message(f: ZfsFault) -> Seq<char> {
    match f {
        ZfsFault::MissingPath { line } => "zfs diff line "@ + crate::text::decimal(line as nat)
            + " missing path"@,
        ZfsFault::UnknownMarker { marker, line } => "unknown zfs diff marker "@ + debug_text(
            marker,
        ) + " on line "@ + crate::text::decimal(line as nat),
        ZfsFault::InvalidDataset => "invalid ZFS dataset name"@,
        ZfsFault::NotASnapshot => "not a snapshot name"@,
        ZfsFault::NotOurs => "refusing to destroy a snapshot not owned by neutrasearch"@,
        ZfsFault::NoBackend =>
            "ZFS indexing requires snapshot + libzpool ZAP backend; rebuild with --features neutra-zfs/zfs-libzpool against an OpenZFS build tree (walking and zdb fallbacks are disabled)"@,
    }
}

impl ZfsError {
    /// What the error says.
    pub fn message(&self) -> (r: String)
        ensures
            r@ == fault_message(self@),
    {
        match self {
            ZfsError::MissingPath { line } => {
                let n = crate::text::decimal_text(*line as u64);
                crate::text::joined3("zfs diff line ", n.as_str(), " missing path")
            },
            ZfsError::UnknownMarker { marker, line } => {
                let n = crate::text::decimal_text(*line as u64);
                let q = quoted(marker.as_str());
                let head = crate::text::joined3("unknown zfs diff marker ", q.as_str(), " on line ");
                crate::text::joined(head.as_str(), n.as_str())
            },
            ZfsError::InvalidDataset => "invalid ZFS dataset name".to_owned(),
            ZfsError::NotASnapshot => "not a snapshot name".to_owned(),
            ZfsError::NotOurs =>
                "refusing to destroy a snapshot not owned by neutrasearch".to_owned(),
            ZfsError::NoBackend =>
                "ZFS indexing requires snapshot + libzpool ZAP backend; rebuild with --features neutra-zfs/zfs-libzpool against an OpenZFS build tree (walking and zdb fallbacks are disabled)".to_owned(),
        }
    }
}

/// The change that a line tells of. With type information there are three columns or more and
/// the path comes third, else second; what follows the paths is not looked at.
pub open spec fn diff_in(cols: Seq<Seq<char>>, line: usize) -> Result<DiffView, ZfsFault> {
    let marker = crate::text::trim(cols[0]);
    let at: int = if cols.len() >= 3 {
        2
    } else {
        1
    };
    let missing = Err::<DiffView, ZfsFault>(ZfsFault::MissingPath { line });
    if marker == "+"@ {
        if at < cols.len() {
            Ok(DiffView::Created(cols[at]))
        } else {
            missing
        }
    } else if marker == "-"@ {
        if at < cols.len() {
            Ok(DiffView::Removed(cols[at]))
        } else {
            missing
        }
    } else if marker == "M"@ {
        if at < cols.len() {
            Ok(DiffView::Modified(cols[at]))
        } else {
            missing
        }
    } else if marker == "R"@ {
        if at + 1 < cols.len() {
            Ok(DiffView::Renamed { from: cols[at], to: cols[at + 1] })
        } else {
            missing
        }
    } else {
        Err(ZfsFault::UnknownMarker { marker, line })
    }
}

/// The changes that the first `n` lines tell of; blank lines tell of none. The first wrong
/// line refuses them all.
pub open spec fn diffs_in(lines: Seq<Seq<char>>, n: nat) -> Result<Seq<DiffView>, ZfsFault>
    decreases n,
{
    if n == 0 {
        Ok(Seq::empty())
    } else {
        match diffs_in(lines, (n - 1) as nat) {
            Err(f) => Err(f),
            Ok(seen) => if crate::text::trim(lines[n - 1]).len() == 0 {
                Ok(seen)
            } else {
                match diff_in(
                    crate::text::split(lines[n - 1], Separator::Char('\t')),
                    n as usize,
                ) {
                    Ok(d) => Ok(seen.push(d)),
                    Err(f) => Err(f),
                }
            },
        }
    }
}

/// Changes as mathematical values.
pub open spec fn diff_views(ds: Seq<DiffEntry>) -> Seq<DiffView> {
    Seq::new(ds.len(), |i: int| ds[i]@)
}

fn column(cols: &Vec<Vec<char>>, at: usize, line: usize) -> (r: Result<String, ZfsError>)
    ensures
        match r {
            Ok(t) => at < cols@.len() && t@ == cols@[at as int]@,
            Err(e) => at >= cols@.len() && e@ == (ZfsFault::MissingPath { line }),
        },
{
    if at < cols.len() {
        Ok(crate::text::string_of(cols[at].as_slice()))
    } else {
        Err(ZfsError::MissingPath { line })
    }
}

fn read_diff(cols: &Vec<Vec<char>>, line: usize) -> (r: Result<DiffEntry, ZfsError>)
    requires
        cols@.len() > 0,
    ensures
        match r {
            Ok(d) => diff_in(crate::text::texts(cols@), line) == Ok::<DiffView, ZfsFault>(d@),
            Err(e) => diff_in(crate::text::texts(cols@), line) == Err::<DiffView, ZfsFault>(e@),
        },
{
    let ghost views = crate::text::texts(cols@);
    assert(views[0] == cols@[0]@);
    let marker_chars = crate::text::trimmed(cols[0].as_slice());
    let marker = crate::text::string_of(marker_chars.as_slice());
    let at: usize = if cols.len() >= 3 {
        2
    } else {
        1
    };
    proof {
        reveal_strlit("+");
        reveal_strlit("-");
        reveal_strlit("M");
        reveal_strlit("R");
        assert("+"@[0] != "-"@[0] && "+"@[0] != "M"@[0] && "+"@[0] != "R"@[0]);
    }
    if crate::text::same_text(marker.as_str(), "+") {
        return match column(cols, at, line) {
            Ok(p) => Ok(DiffEntry::Created(p)),
            Err(e) => Err(e),
        };
    }
    if crate::text::same_text(marker.as_str(), "-") {
        return match column(cols, at, line) {
            Ok(p) => Ok(DiffEntry::Removed(p)),
            Err(e) => Err(e),
        };
    }
    if crate::text::same_text(marker.as_str(), "M") {
        return match column(cols, at, line) {
            Ok(p) => Ok(DiffEntry::Modified(p)),
            Err(e) => Err(e),
        };
    }
    if crate::text::same_text(marker.as_str(), "R") {
        let from = match column(cols, at, line) {
            Ok(p) => p,
            Err(e) => {
                return Err(e);
            },
        };
        return match column(cols, at + 1, line) {
            Ok(to) => Ok(DiffEntry::Renamed { from, to }),
            Err(e) => Err(e),
        };
    }
    Err(ZfsError::UnknownMarker { marker, line })
}

proof fn lemma_diffs_stop(lines: Seq<Seq<char>>, i: nat, n: nat)
    requires
        i <= n,
        diffs_in(lines, i) is Err,
    ensures
        diffs_in(lines, n) == diffs_in(lines, i),
    decreases n,
{
    if i < n {
        lemma_diffs_stop(lines, i, (n - 1) as nat);
    }
}

/// Reads `zfs diff -FH old@snap new@snap`: columns between tabs.
pub fn parse_diff(input: &str) -> (r: Result<Vec<DiffEntry>, ZfsError>)
    ensures
        ({
            let lines = crate::text::lines(input@);
            match r {
                Ok(ds) => diffs_in(lines, lines.len()) == Ok::<Seq<DiffView>, ZfsFault>(
                    diff_views(ds@),
                ),
                Err(e) => diffs_in(lines, lines.len()) == Err::<Seq<DiffView>, ZfsFault>(e@),
            }
        }),
{
    let ghost views = crate::text::lines(input@);
    let chars = crate::text::chars_of(input);
    let lines = crate::text::split_lines(chars.as_slice());
    let mut out: Vec<DiffEntry> = Vec::new();
    let mut i: usize = 0;
    assert(diff_views(out@) =~= Seq::empty());
    while i < lines.len()
        invariant
            i <= lines@.len(),
            views == crate::text::texts(lines@),
            views == crate::text::lines(input@),
            diffs_in(views, i as nat) == Ok::<Seq<DiffView>, ZfsFault>(diff_views(out@)),
        decreases lines@.len() - i,
    {
        let ghost had = diff_views(out@);
        assert(views[i as int] == lines@[i as int]@);
        let text = crate::text::trimmed(lines[i].as_slice());
        if text.len() > 0 {
            let cols = crate::text::split_chars(lines[i].as_slice(), Separator::Char('\t'));
            assert(crate::text::texts(cols@).len() > 0) by {
                crate::text::lemma_split_not_empty(views[i as int], Separator::Char('\t'));
            }
            match read_diff(&cols, i + 1) {
                Ok(d) => {
                    out.push(d);
                    assert(diff_views(out@) =~= had.push(d@));
                },
                Err(e) => {
                    proof {
                        lemma_diffs_stop(views, (i + 1) as nat, views.len());
                    }
                    return Err(e);
                },
            }
        }
        i += 1;
    }
    Ok(out)
}

/// What the names of our own snapshots begin with.
pub const SNAPSHOT_PREFIX: &'static str = "neutra-";

/// Such a data set can be named.
pub open spec fn is_dataset(dataset: Seq<char>) -> bool {
    &&& dataset.len() > 0
    &&& forall|i: int|
        0 <= i < dataset.len() ==> #[trigger] dataset[i] != '@' && !crate::text::is_space(
            dataset[i],
        )
}

/// The name of a snapshot of ours.
pub open spec fn snapshot_of(dataset: Seq<char>, unix_seconds: u64) -> Seq<char> {
    dataset + "@"@ + SNAPSHOT_PREFIX@ + crate::text::decimal(unix_seconds as nat)
}

/// Names a snapshot.
pub fn snapshot_name(dataset: &str, unix_seconds: u64) -> (r: Result<String, ZfsError>)
    ensures
        match r {
            Ok(t) => is_dataset(dataset@) && t@ == snapshot_of(dataset@, unix_seconds),
            Err(e) => !is_dataset(dataset@) && e@ is InvalidDataset,
        },
{
    let chars = crate::text::chars_of(dataset);
    if chars.len() == 0 {
        return Err(ZfsError::InvalidDataset);
    }
    let mut i: usize = 0;
    while i < chars.len()
        invariant
            i <= chars@.len(),
            chars@ == dataset@,
            forall|k: int|
                0 <= k < i ==> #[trigger] chars@[k] != '@' && !crate::text::is_space(chars@[k]),
        decreases chars@.len() - i,
    {
        if chars[i] == '@' || crate::text::space(chars[i]) {
            return Err(ZfsError::InvalidDataset);
        }
        i += 1;
    }
    let head = crate::text::joined3(dataset, "@", SNAPSHOT_PREFIX);
    let number = crate::text::decimal_text(unix_seconds);
    Ok(crate::text::joined(head.as_str(), number.as_str()))
}

/// The arguments that make a snapshot.
pub fn snapshot_command(dataset: &str, unix_seconds: u64, recursive: bool) -> (r: Result<
    Vec<String>,
    ZfsError,
>)
    ensures
        match r {
            Ok(args) => is_dataset(dataset@) && crate::text::strings(args@) == (if recursive {
                seq!["snapshot"@, "-r"@]
            } else {
                seq!["snapshot"@]
            }).push(snapshot_of(dataset@, unix_seconds)),
            Err(e) => !is_dataset(dataset@) && e@ is InvalidDataset,
        },
{
    let name = match snapshot_name(dataset, unix_seconds) {
        Ok(n) => n,
        Err(e) => {
            return Err(e);
        },
    };
    let mut args: Vec<String> = Vec::new();
    args.push("snapshot".to_owned());
    if recursive {
        args.push("-r".to_owned());
    }
    let ghost n = name@;
    args.push(name);
    assert(crate::text::strings(args@) =~= (if recursive {
        seq!["snapshot"@, "-r"@]
    } else {
        seq!["snapshot"@]
    }).push(n));
    Ok(args)
}

/// What follows the last `@`.
pub open spec fn tag_of(snapshot: Seq<char>) -> Option<Seq<char>> {
    let at = crate::text::last_index(snapshot, '@');
    if at < 0 {
        None
    } else {
        Some(snapshot.skip(at + 1))
    }
}

/// The snapshot is one of ours.
pub open spec fn is_ours(snapshot: Seq<char>) -> bool {
    tag_of(snapshot) is Some && SNAPSHOT_PREFIX@.is_prefix_of(tag_of(snapshot)->0)
}

fn tag(snapshot: &str) -> (r: Option<Vec<char>>)
    ensures
        match r {
            Some(t) => tag_of(snapshot@) == Some(t@),
            None => tag_of(snapshot@) is None,
        },
{
    let chars = crate::text::chars_of(snapshot);
    let n: usize = chars.len();
    match crate::text::rfind(chars.as_slice(), '@') {
        None => None,
        Some(at) => {
            let t = crate::text::part(chars.as_slice(), at + 1, n);
            assert(t@ =~= snapshot@.skip(at + 1));
            Some(t)
        },
    }
}

/// The arguments that destroy a snapshot; only our own are.
pub fn destroy_snapshot_command(snapshot: &str) -> (r: Result<Vec<String>, ZfsError>)
    ensures
        match r {
            Ok(args) => is_ours(snapshot@) && crate::text::strings(args@) == seq![
                "destroy"@,
                snapshot@,
            ],
            Err(e) => if tag_of(snapshot@) is None {
                e@ is NotASnapshot
            } else {
                !is_ours(snapshot@) && e@ is NotOurs
            },
        },
{
    let t = match tag(snapshot) {
        None => {
            return Err(ZfsError::NotASnapshot);
        },
        Some(t) => t,
    };
    if !crate::text::begins(t.as_slice(), SNAPSHOT_PREFIX) {
        return Err(ZfsError::NotOurs);
    }
    let mut args: Vec<String> = Vec::new();
    args.push("destroy".to_owned());
    args.push(snapshot.to_owned());
    assert(crate::text::strings(args@) =~= seq!["destroy"@, snapshot@]);
    Ok(args)
}

/// Whether a path names a snapshot of ours.
pub fn is_neutrasearch_snapshot(path: &str) -> (r: bool)
    ensures
        r == is_ours(path@),
{
    match tag(path) {
        None => false,
        Some(t) => crate::text::begins(t.as_slice(), SNAPSHOT_PREFIX),
    }
}

/// The first indexing of a pool, which is refused rather than faked.
pub fn scan(_mount: &MountInfo) -> (r: Result<ScanStats, ZfsError>)
    ensures
        r matches Err(e) && e@ is NoBackend,
{
    Err(ZfsError::NoBackend)
}

/// A snapshot that was named here is one of ours, so that it can be destroyed again.
pub proof fn law_own_snapshots_can_be_destroyed(dataset: Seq<char>, unix_seconds: u64)
    requires
        is_dataset(dataset),
    ensures
        is_ours(snapshot_of(dataset, unix_seconds)),
{
    reveal_strlit("@");
    reveal_strlit("neutra-");
    let s = snapshot_of(dataset, unix_seconds);
    let n = crate::text::decimal(unix_seconds as nat);
    let tail = SNAPSHOT_PREFIX@ + n;
    crate::text::lemma_last_index(s, '@');
    crate::text::lemma_decimal_digits(unix_seconds as nat);
    let at = crate::text::last_index(s, '@');
    assert(s =~= dataset + seq!['@'] + tail);
    assert(s[dataset.len() as int] == '@');
    assert forall|k: int| dataset.len() < k < s.len() implies s[k] != '@' by {
        assert(s[k] == tail[k - dataset.len() - 1]);
        if k - dataset.len() - 1 >= 7 {
            assert(tail[k - dataset.len() - 1] == n[k - dataset.len() - 8]);
        }
    }
    assert(at == dataset.len());
    assert(s.skip(at + 1) =~= tail);
}

} // verus!
