//! How results are chosen, worded and walked through in the window.

use crate::pathmap::PathMap;
use crate::rank::{HitView, SearchHit};
use crate::text::Separator;
use crate::types::{FileKind, FileRecord, RecordView};
use vstd::prelude::*;

verus! {

/// The ways to lay results out.
#[derive(Debug, Clone, Copy, PartialEq, Eq, Structural)]
pub enum ResultView {
    Details,
    List,
    Grid,
    Treemap,
}

/// The kinds that are shown.
#[derive(Debug, Clone, Copy, PartialEq, Eq, Structural)]
pub enum KindFilter {
    All,
    Files,
    Folders,
}

/// The order of results.
#[derive(Debug, Clone, Copy, PartialEq, Eq, Structural)]
pub enum SortMode {
    Modified,
    Name,
    Size,
    Path,
}

/// What the text of a search is held against.
#[derive(Debug, Clone, Copy, PartialEq, Eq, Structural)]
pub enum SearchMode {
    Name,
    NameAndPath,
    Path,
}

/// The layout that a setting names; details where it names none.
pub open spec fn view_named(setting: Seq<char>) -> ResultView {
    let s = crate::text::ascii_lower_all(setting);
    if s == "list"@ {
        ResultView::List
    } else if s == "grid"@ {
        ResultView::Grid
    } else if s == "treemap"@ {
        ResultView::Treemap
    } else {
        ResultView::Details
    }
}

/// The layout that a setting names.
pub fn initial_view(setting: &str) -> (r: ResultView)
    ensures
        r == view_named(setting@),
{
    let chars = crate::text::chars_of(setting);
    let low = crate::text::lowered(chars.as_slice());
    let text = crate::text::string_of(low.as_slice());
    if crate::text::same_text(text.as_str(), "list") {
        ResultView::List
    } else if crate::text::same_text(text.as_str(), "grid") {
        ResultView::Grid
    } else if crate::text::same_text(text.as_str(), "treemap") {
        ResultView::Treemap
    } else {
        ResultView::Details
    }
}

impl SortMode {
    /// The next order when the heading is clicked.
    pub fn next(self) -> (r: SortMode)
        ensures
            r == match self {
                SortMode::Modified => SortMode::Name,
                SortMode::Name => SortMode::Size,
                SortMode::Size => SortMode::Path,
                SortMode::Path => SortMode::Modified,
            },
    {
        match self {
            SortMode::Modified => SortMode::Name,
            SortMode::Name => SortMode::Size,
            SortMode::Size => SortMode::Path,
            SortMode::Path => SortMode::Modified,
        }
    }

    /// The name of the order.
    pub fn label(self) -> (r: &'static str)
        ensures
            r@ == match self {
                SortMode::Modified => "Modified"@,
                SortMode::Name => "Name"@,
                SortMode::Size => "Size"@,
                SortMode::Path => "Path"@,
            },
    {
        match self {
            SortMode::Modified => "Modified",
            SortMode::Name => "Name",
            SortMode::Size => "Size",
            SortMode::Path => "Path",
        }
    }
}

// ---------------------------------------------------------------------------
// Which hits are shown

/// Whether a regular expression matches somewhere in a text; none where the expression does
/// not compile.
pub uninterp spec fn regex_result(pattern: Seq<char>, insensitive: bool, text: Seq<char>) -> Option<
    bool,
>;

/// Calls `RegexBuilder::build` and `Regex::is_match` of the crate regex: compiles an
/// expression, with or without regard to case, and says whether it matches anywhere in a
/// text, or none where it does not compile. What expressions match is only named.
#[verifier::external_body]
fn regex_search(pattern: &str, insensitive: bool, text: &str) -> (r: Option<bool>)
    ensures
        r == regex_result(pattern@, insensitive, text@),
{
    let built = regex::RegexBuilder::new(pattern).case_insensitive(insensitive).build();
    match built {
        Ok(regex) => Some(regex.is_match(text)),
        Err(_) => None,
    }
}

/// The text that a record is searched by.
pub open spec fn searched_text(mode: SearchMode, path: Seq<char>) -> Seq<char> {
    match mode {
        SearchMode::Name => crate::types::name_of(path),
        SearchMode::NameAndPath => crate::types::name_of(path) + " "@ + path,
        SearchMode::Path => path,
    }
}

/// The way to hold a text against the query.
#[derive(Debug, Clone, Copy, PartialEq, Eq, Structural)]
pub struct Matching {
    pub mode: SearchMode,
    pub regex: bool,
    pub case_sensitive: bool,
}

/// Whether a text matches, given what the regular expression made of it.
pub open spec fn text_matches(
    m: Matching,
    query: Seq<char>,
    text: Seq<char>,
    by_regex: Option<bool>,
) -> bool {
    if query.len() == 0 {
        true
    } else if m.regex {
        by_regex == Some(true)
    } else if m.case_sensitive {
        crate::text::first_occurrence(text, query) is Some
    } else {
        crate::text::first_occurrence(
            crate::text::lowercase(text),
            crate::text::lowercase(query),
        ) is Some
    }
}

/// Whether a text matches, given what the regular expression made of it.
pub fn is_match(m: Matching, query: &str, text: &str, by_regex: Option<bool>) -> (r: bool)
    ensures
        r == text_matches(m, query@, text@, by_regex),
{
    if query.is_empty() {
        return true;
    }
    if m.regex {
        return match by_regex {
            Some(b) => b,
            None => false,
        };
    }
    if m.case_sensitive {
        let t = crate::text::chars_of(text);
        crate::text::contains_text(t.as_slice(), query)
    } else {
        let t = crate::text::to_lowercase(text);
        let q = crate::text::to_lowercase(query);
        let chars = crate::text::chars_of(t.as_str());
        crate::text::contains_text(chars.as_slice(), q.as_str())
    }
}

/// A hit is shown.
pub open spec fn is_shown(m: Matching, query: Seq<char>, hit: HitView) -> bool {
    let q = crate::text::trim(query);
    let t = searched_text(m.mode, hit.record.path);
    text_matches(m, q, t, regex_result(q, !m.case_sensitive, t))
}

/// The positions of the hits that are shown, in order.
pub open spec fn shown(m: Matching, query: Seq<char>, hits: Seq<HitView>) -> Seq<int>
    decreases hits.len(),
{
    if hits.len() == 0 {
        Seq::empty()
    } else if is_shown(m, query, hits.last()) {
        shown(m, query, hits.drop_last()).push(hits.len() - 1)
    } else {
        shown(m, query, hits.drop_last())
    }
}

/// The positions of the hits that are shown.
pub fn visible_indices(m: Matching, query: &str, hits: &[SearchHit]) -> (r: Vec<usize>)
    ensures
        crate::watch::positions(r@) == shown(m, query@, crate::rank::hit_views(hits@)),
{
    let chars = crate::text::chars_of(query);
    let cut = crate::text::trimmed(chars.as_slice());
    let q = crate::text::string_of(cut.as_slice());
    let ghost views = crate::rank::hit_views(hits@);
    let mut out: Vec<usize> = Vec::new();
    let mut i: usize = 0;
    proof {
        assert(views.take(0) =~= Seq::empty());
        assert(crate::watch::positions(out@) =~= Seq::empty());
    }
    while i < hits.len()
        invariant
            i <= hits@.len(),
            views == crate::rank::hit_views(hits@),
            q@ == crate::text::trim(query@),
            crate::watch::positions(out@) == shown(m, query@, views.take(i as int)),
        decreases hits@.len() - i,
    {
        let ghost had = crate::watch::positions(out@);
        proof {
            assert(views.take(i + 1).drop_last() =~= views.take(i as int));
            assert(views[i as int] == hits@[i as int]@);
        }
        let record = &hits[i].record;
        let text = match m.mode {
            SearchMode::Name => record.name().to_owned(),
            SearchMode::NameAndPath => crate::text::joined3(
                record.name(),
                " ",
                record.path.as_str(),
            ),
            SearchMode::Path => record.path.clone(),
        };
        assert(text@ == searched_text(m.mode, views[i as int].record.path));
        let by_regex: Option<bool> = if m.regex && !q.as_str().is_empty() {
            regex_search(q.as_str(), !m.case_sensitive, text.as_str())
        } else {
            None
        };
        if is_match(m, q.as_str(), text.as_str(), by_regex) {
            out.push(i);
            assert(crate::watch::positions(out@) =~= had.push(i as int));
        }
        i += 1;
    }
    assert(views.take(i as int) =~= views);
    out
}

/// The position that an arrow key leads to among `count` shown hits: one further down or up
/// from the selected one, from the first or the last where none is selected, and not past
/// either end.
pub open spec fn arrow_position(count: nat, selected: Option<int>, down: bool) -> int {
    let from = match selected {
        Some(p) => p,
        None => if down {
            0
        } else {
            count - 1
        },
    };
    if down {
        if from + 1 < count {
            from + 1
        } else {
            count - 1
        }
    } else if from > 0 {
        from - 1
    } else {
        0
    }
}

/// The position that an arrow key leads to.
pub fn keyboard_selection(count: usize, selected: Option<usize>, down: bool) -> (r: usize)
    requires
        count > 0,
        selected matches Some(p) ==> p < count,
    ensures
        r < count,
        r == arrow_position(
            count as nat,
            match selected {
                Some(p) => Some(p as int),
                None => None,
            },
            down,
        ),
{
    let from: usize = match selected {
        Some(p) => p,
        None => if down {
            0
        } else {
            count - 1
        },
    };
    if down {
        if from < count - 1 {
            from + 1
        } else {
            count - 1
        }
    } else if from > 0 {
        from - 1
    } else {
        0
    }
}

/// The places of some hits.
pub open spec fn places(hits: Seq<HitView>) -> Set<Seq<char>>
    decreases hits.len(),
{
    if hits.len() == 0 {
        Set::empty()
    } else {
        match crate::dirs::place_of(hits.last().record.path) {
            Some(p) => places(hits.drop_last()).insert(p),
            None => places(hits.drop_last()),
        }
    }
}

/// The places of the hits, in path order: the first folder, the share, or the first folder
/// of a drive.
pub fn scope_roots(hits: &[SearchHit]) -> (r: Vec<String>)
    ensures
        crate::treemap::lists_children(
            crate::text::strings(r@),
            places(crate::rank::hit_views(hits@)),
        ),
{
    let ghost views = crate::rank::hit_views(hits@);
    let mut found: PathMap<String> = PathMap::new();
    let mut i: usize = 0;
    proof {
        assert(views.take(0) =~= Seq::empty());
        assert(found.entries().dom() =~= Set::empty());
    }
    while i < hits.len()
        invariant
            i <= hits@.len(),
            views == crate::rank::hit_views(hits@),
            found.wf(),
            found.entries().dom() == places(views.take(i as int)),
        decreases hits@.len() - i,
    {
        proof {
            assert(views.take(i + 1).drop_last() =~= views.take(i as int));
            assert(views[i as int] == hits@[i as int]@);
        }
        let chars = crate::text::chars_of(hits[i].record.path.as_str());
        if let Some(p) = crate::dirs::first_place(chars.as_slice()) {
            let text = crate::text::string_of(p.as_slice());
            found.insert(text);
        }
        i += 1;
    }
    assert(views.take(i as int) =~= views);
    let ghost items = found.items();
    let ghost all = found.entries().dom();
    let out = found.into_items();
    proof {
        let s = crate::text::strings(out@);
        assert(s =~= crate::pathmap::keys_of(items));
        assert forall|p: Seq<char>| s.contains(p) <==> #[trigger] all.contains(p) by {}
    }
    out
}

// ---------------------------------------------------------------------------
// Words and numbers

/// The badge of a record: what it is, in at most four letters.
pub open spec fn badge_of(r: RecordView) -> Seq<char> {
    let ext = crate::text::lowercase(
        crate::types::raw_extension_of(crate::types::name_of(r.path)),
    );
    if r.kind == FileKind::Dir {
        "DIR"@
    } else if ext.len() == 0 {
        "FILE"@
    } else {
        crate::text::ascii_upper_all(
            ext.take(
                if ext.len() < 4 {
                    ext.len() as int
                } else {
                    4
                },
            ),
        )
    }
}

/// The badge of a record.
pub fn type_badge(record: &FileRecord) -> (r: String)
    ensures
        r@ == badge_of(record@),
{
    match record.kind {
        FileKind::Dir => {
            return "DIR".to_owned();
        },
        _ => {},
    }
    let ext = record.extension();
    let chars = crate::text::chars_of(ext.as_str());
    if chars.len() == 0 {
        return "FILE".to_owned();
    }
    let n: usize = if chars.len() < 4 {
        chars.len()
    } else {
        4
    };
    let mut out: Vec<char> = Vec::new();
    let mut i: usize = 0;
    while i < n
        invariant
            i <= n <= chars@.len(),
            out@.len() == i,
            forall|k: int| 0 <= k < i ==> #[trigger] out@[k] == crate::text::ascii_upper(chars@[k]),
        decreases n - i,
    {
        out.push(crate::text::upper(chars[i]));
        i += 1;
    }
    assert(out@ =~= crate::text::ascii_upper_all(chars@.take(n as int)));
    crate::text::string_of(out.as_slice())
}

/// A number with zeros in front, up to a width.
pub open spec fn padded(n: nat, width: nat) -> Seq<char> {
    let d = crate::text::decimal(n);
    if d.len() >= width {
        d
    } else {
        Seq::new((width - d.len()) as nat, |i: int| '0') + d
    }
}

/// Writes a number with zeros in front, up to a width.
pub fn padded_text(n: u64, width: usize) -> (r: String)
    ensures
        r@ == padded(n as nat, width as nat),
{
    let d = crate::text::decimal_chars(n);
    let mut out: Vec<char> = Vec::new();
    let len: usize = d.len();
    if len < width {
        let missing: usize = width - len;
        let mut i: usize = 0;
        while i < missing
            invariant
                i <= missing,
                out@.len() == i,
                forall|k: int| 0 <= k < i ==> #[trigger] out@[k] == '0',
            decreases missing - i,
        {
            out.push('0');
            i += 1;
        }
    }
    crate::text::push_all(&mut out, d.as_slice());
    assert(out@ =~= padded(n as nat, width as nat));
    crate::text::string_of(out.as_slice())
}

/// How the age of a file is worded: by how long ago it was changed within a week, then by
/// its date.
pub open spec fn is_age_text(timestamp: int, now: int, r: Seq<char>) -> bool {
    let age = now - timestamp;
    if timestamp <= 0 {
        r == "Unknown"@
    } else if age < 60 {
        r == "Just now"@
    } else if age < 3_600 {
        r == crate::text::decimal((age / 60) as nat) + " min ago"@
    } else if age < 86_400 {
        r == crate::text::decimal((age / 3_600) as nat) + " hr ago"@
    } else if age < 604_800 {
        r == crate::text::decimal((age / 86_400) as nat) + " days ago"@
    } else {
        exists|y: int, m: int, d: int| #[trigger]
            crate::calendar::is_date(y, m, d) && y >= 0 && crate::calendar::day_number(y, m, d)
                == timestamp / 86_400 && r == padded(y as nat, 4) + "-"@ + padded(m as nat, 2)
                + "-"@ + padded(d as nat, 2)
    }
}

/// Words the age of a file.
pub fn format_mtime(timestamp: i64, now: i64) -> (r: String)
    ensures
        is_age_text(timestamp as int, now as int, r@),
{
    if timestamp <= 0 {
        return "Unknown".to_owned();
    }
    if now < timestamp {
        return "Just now".to_owned();
    }
    let age: u64 = (now - timestamp) as u64;
    if age < 60 {
        return "Just now".to_owned();
    }
    if age < 3_600 {
        let n = crate::text::decimal_text(age / 60);
        return crate::text::joined(n.as_str(), " min ago");
    }
    if age < 86_400 {
        let n = crate::text::decimal_text(age / 3_600);
        return crate::text::joined(n.as_str(), " hr ago");
    }
    if age < 604_800 {
        let n = crate::text::decimal_text(age / 86_400);
        return crate::text::joined(n.as_str(), " days ago");
    }
    let days: u64 = timestamp as u64 / 86_400;
    let (y, m, d): (i64, i64, i64) = crate::calendar::civil_date(days as i64);
    proof {
        if y < 0 {
            crate::calendar::lemma_years_apart(y as int, 1970);
            assert(false);
        }
    }
    let year = padded_text(y as u64, 4);
    let month = padded_text(m as u64, 2);
    let day = padded_text(d as u64, 2);
    let head = crate::text::joined3(year.as_str(), "-", month.as_str());
    let r = crate::text::joined3(head.as_str(), "-", day.as_str());
    proof {
        assert(crate::calendar::is_date(y as int, m as int, d as int));
        assert(r@ =~= padded(y as nat, 4) + "-"@ + padded(m as nat, 2) + "-"@ + padded(d as nat, 2));
    }
    r
}

/// Digits in groups of three.
pub open spec fn grouped(d: Seq<char>) -> Seq<char>
    decreases d.len(),
{
    if d.len() <= 3 {
        d
    } else {
        grouped(d.take(d.len() - 3)).push(',') + d.skip(d.len() - 3)
    }
}

fn group(d: &[char], end: usize) -> (r: Vec<char>)
    requires
        end <= d@.len(),
    ensures
        r@ == grouped(d@.take(end as int)),
    decreases end,
{
    if end <= 3 {
        let r = crate::text::part(d, 0, end);
        assert(r@ =~= d@.take(end as int));
        r
    } else {
        let mut out = group(d, end - 3);
        out.push(',');
        let tail = crate::text::part(d, end - 3, end);
        crate::text::push_all(&mut out, tail.as_slice());
        proof {
            let t = d@.take(end as int);
            assert(t.take(end - 3) =~= d@.take(end - 3));
            assert(t.skip(end - 3) =~= tail@);
        }
        out
    }
}

/// A count with its digits in groups of three.
pub fn fmt_count(value: u64) -> (r: String)
    ensures
        r@ == grouped(crate::text::decimal(value as nat)),
{
    let d = crate::text::decimal_chars(value);
    let n: usize = d.len();
    let out = group(d.as_slice(), n);
    assert(d@.take(n as int) =~= d@);
    crate::text::string_of(out.as_slice())
}

/// A text cut from the front to a number of characters, with a mark where it was cut.
pub open spec fn shortened(s: Seq<char>, max: nat) -> Seq<char> {
    if s.len() <= max {
        s
    } else {
        seq!['\u{2026}'] + s.skip(
            s.len() - (if max > 0 {
                max - 1
            } else {
                0
            }),
        )
    }
}

/// Cuts a text from the front to a number of characters.
pub fn shorten(value: &str, max_chars: usize) -> (r: String)
    ensures
        r@ == shortened(value@, max_chars as nat),
{
    let chars = crate::text::chars_of(value);
    let n: usize = chars.len();
    if n <= max_chars {
        return value.to_owned();
    }
    let keep: usize = if max_chars > 0 {
        max_chars - 1
    } else {
        0
    };
    let mut out: Vec<char> = Vec::new();
    out.push('\u{2026}');
    let tail = crate::text::part(chars.as_slice(), n - keep, n);
    crate::text::push_all(&mut out, tail.as_slice());
    assert(out@ =~= shortened(value@, max_chars as nat));
    crate::text::string_of(out.as_slice())
}

/// What a file is, as its colour tells.
#[derive(Debug, Clone, Copy, PartialEq, Eq, Structural)]
pub enum FileFamily {
    Folder,
    Pdf,
    Spreadsheet,
    Document,
    Archive,
    Media,
    Other,
}

/// The family of an extension.
pub open spec fn family_of(extension: Seq<char>) -> FileFamily {
    let e = crate::text::ascii_lower_all(extension);
    if e == "pdf"@ {
        FileFamily::Pdf
    } else if e == "xls"@ || e == "xlsx"@ || e == "ods"@ || e == "csv"@ {
        FileFamily::Spreadsheet
    } else if e == "doc"@ || e == "docx"@ || e == "txt"@ || e == "md"@ || e == "rtf"@ {
        FileFamily::Document
    } else if e == "zip"@ || e == "7z"@ || e == "rar"@ || e == "tar"@ || e == "gz"@ || e == "pak"@
        || e == "iso"@ {
        FileFamily::Archive
    } else if e == "png"@ || e == "jpg"@ || e == "jpeg"@ || e == "gif"@ || e == "webp"@ || e
        == "svg"@ || e == "mp4"@ || e == "mkv"@ {
        FileFamily::Media
    } else {
        FileFamily::Other
    }
}

/// The family of an extension.
pub fn extension_family(extension: &str) -> (r: FileFamily)
    ensures
        r == family_of(extension@),
{
    let chars = crate::text::chars_of(extension);
    let low = crate::text::lowered(chars.as_slice());
    let text = crate::text::string_of(low.as_slice());
    let e = text.as_str();
    if crate::text::same_text(e, "pdf") {
        FileFamily::Pdf
    } else if crate::text::same_text(e, "xls") || crate::text::same_text(e, "xlsx")
        || crate::text::same_text(e, "ods") || crate::text::same_text(e, "csv") {
        FileFamily::Spreadsheet
    } else if crate::text::same_text(e, "doc") || crate::text::same_text(e, "docx")
        || crate::text::same_text(e, "txt") || crate::text::same_text(e, "md")
        || crate::text::same_text(e, "rtf") {
        FileFamily::Document
    } else if crate::text::same_text(e, "zip") || crate::text::same_text(e, "7z")
        || crate::text::same_text(e, "rar") || crate::text::same_text(e, "tar")
        || crate::text::same_text(e, "gz") || crate::text::same_text(e, "pak")
        || crate::text::same_text(e, "iso") {
        FileFamily::Archive
    } else if crate::text::same_text(e, "png") || crate::text::same_text(e, "jpg")
        || crate::text::same_text(e, "jpeg") || crate::text::same_text(e, "gif")
        || crate::text::same_text(e, "webp") || crate::text::same_text(e, "svg")
        || crate::text::same_text(e, "mp4") || crate::text::same_text(e, "mkv") {
        FileFamily::Media
    } else {
        FileFamily::Other
    }
}

/// The family of a record.
pub fn record_family(record: &FileRecord) -> (r: FileFamily)
    ensures
        r == (if record@.kind == FileKind::Dir {
            FileFamily::Folder
        } else {
            family_of(
                crate::text::lowercase(
                    crate::types::raw_extension_of(crate::types::name_of(record@.path)),
                ),
            )
        }),
{
    match record.kind {
        FileKind::Dir => FileFamily::Folder,
        _ => {
            let ext = record.extension();
            extension_family(ext.as_str())
        },
    }
}

/// The path that a click in the folder tree selects: that of a hit by its number, or the one
/// that is named.
pub open spec fn clicked(hits: Seq<HitView>, selected: Option<Seq<char>>, text: Seq<char>) -> Option<
    Seq<char>,
> {
    let number = if "file:"@.is_prefix_of(text) {
        crate::text::parsed_number(text.skip(5), usize::MAX as nat)
    } else {
        None
    };
    match number {
        Some(n) => if n < hits.len() {
            Some(hits[n as int].record.path)
        } else {
            selected
        },
        None => Some(text),
    }
}

/// Selects what was clicked in the folder tree.
pub fn tree_selection(hits: &[SearchHit], selected: Option<String>, text: &str) -> (r: Option<String>)
    ensures
        crate::launch::some_text(r) == clicked(
            crate::rank::hit_views(hits@),
            crate::launch::some_text(selected),
            text@,
        ),
{
    let ghost views = crate::rank::hit_views(hits@);
    proof {
        reveal_strlit("file:");
    }
    let chars = crate::text::chars_of(text);
    let n: usize = chars.len();
    let number: Option<u64> = if crate::text::begins(chars.as_slice(), "file:") {
        let rest = crate::text::part(chars.as_slice(), 5, n);
        assert(rest@ =~= text@.skip(5));
        crate::text::parse_number(rest.as_slice(), usize::MAX as u64)
    } else {
        None
    };
    match number {
        Some(k) => {
            let at: usize = k as usize;
            if at < hits.len() {
                assert(views[at as int] == hits@[at as int]@);
                Some(hits[at].record.path.clone())
            } else {
                selected
            }
        },
        None => Some(text.to_owned()),
    }
}

} // verus!
