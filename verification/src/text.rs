//! Text as sequences of characters: splitting, searching, trimming, case folding.

use vstd::prelude::*;

verus! {

/// Appends one character to a string, as `String::push` documents.
pub assume_specification[ String::push ](s: &mut String, c: char)
    ensures
        final(s)@ == old(s)@.push(c),
;

/// What `str::to_lowercase` makes of a text that is not plain ASCII.
pub uninterp spec fn unicode_lowercase(s: Seq<char>) -> Seq<char>;

/// Lower case of one ASCII letter; other characters stay.
pub open spec fn ascii_lower(c: char) -> char {
    if 'A' <= c <= 'Z' {
        ((c as u32) + 32) as char
    } else {
        c
    }
}

/// Upper case of one ASCII letter; other characters stay.
pub open spec fn ascii_upper(c: char) -> char {
    if 'a' <= c <= 'z' {
        ((c as u32) - 32) as char
    } else {
        c
    }
}

/// Every ASCII letter of `s` in lower case.
pub open spec fn ascii_lower_all(s: Seq<char>) -> Seq<char> {
    Seq::new(s.len(), |i: int| ascii_lower(s[i]))
}

/// Every ASCII letter of `s` in upper case.
pub open spec fn ascii_upper_all(s: Seq<char>) -> Seq<char> {
    Seq::new(s.len(), |i: int| ascii_upper(s[i]))
}

/// The lower-case form of a text.
pub open spec fn lowercase(s: Seq<char>) -> Seq<char> {
    if vstd::utf8::is_ascii_chars(s) {
        ascii_lower_all(s)
    } else {
        unicode_lowercase(s)
    }
}

/// Calls `str::to_lowercase`. Its documentation defines the result by the Unicode
/// lower-case mappings; of a text of ASCII characters that is each letter `A` to `Z`
/// replaced by `a` to `z`. The result for other text is only named.
#[verifier::external_body]
pub(crate) fn to_lowercase(s: &str) -> (r: String)
    ensures
        r@ == (if vstd::utf8::is_ascii_chars(s@) {
            ascii_lower_all(s@)
        } else {
            unicode_lowercase(s@)
        }),
{
    s.to_lowercase()
}

/// What `str::to_uppercase` makes of a text that is not plain ASCII.
pub uninterp spec fn unicode_uppercase(s: Seq<char>) -> Seq<char>;

/// The upper-case form of a text.
pub open spec fn uppercase(s: Seq<char>) -> Seq<char> {
    if vstd::utf8::is_ascii_chars(s) {
        ascii_upper_all(s)
    } else {
        unicode_uppercase(s)
    }
}

/// Calls `str::to_uppercase`. Its documentation defines the result by the Unicode
/// upper-case mappings; of a text of ASCII characters that is each letter `a` to `z`
/// replaced by `A` to `Z`. The result for other text is only named.
#[verifier::external_body]
pub(crate) fn to_uppercase(s: &str) -> (r: String)
    ensures
        r@ == (if vstd::utf8::is_ascii_chars(s@) {
            ascii_upper_all(s@)
        } else {
            unicode_uppercase(s@)
        }),
{
    s.to_uppercase()
}

/// Calls `String::from_utf8`, which gives the text that the bytes encode, and refuses
/// bytes that are not UTF-8.
#[verifier::external_body]
pub(crate) fn text_from_utf8(bytes: Vec<u8>) -> (r: Option<String>)
    ensures
        match r {
            Some(s) => vstd::utf8::valid_utf8(bytes@) && s@ == vstd::utf8::decode_utf8(bytes@),
            None => !vstd::utf8::valid_utf8(bytes@),
        },
{
    String::from_utf8(bytes).ok()
}

/// What `String::from_utf8_lossy` puts in place of bytes that are not UTF-8.
pub uninterp spec fn replaced_utf8(bytes: Seq<u8>) -> Seq<char>;

/// The text of `bytes`, with replacement characters where they are not UTF-8.
pub open spec fn lossy_text(bytes: Seq<u8>) -> Seq<char> {
    if vstd::utf8::valid_utf8(bytes) {
        vstd::utf8::decode_utf8(bytes)
    } else {
        replaced_utf8(bytes)
    }
}

/// Calls `String::from_utf8_lossy`: valid UTF-8 is decoded as it stands; what replaces
/// invalid bytes is only named.
#[verifier::external_body]
pub(crate) fn text_from_utf8_lossy(bytes: &[u8]) -> (r: String)
    ensures
        r@ == (if vstd::utf8::valid_utf8(bytes@) {
            vstd::utf8::decode_utf8(bytes@)
        } else {
            replaced_utf8(bytes@)
        }),
{
    String::from_utf8_lossy(bytes).into_owned()
}

/// A unit that begins a pair.
pub open spec fn is_high_surrogate(u: u16) -> bool {
    0xd800 <= u < 0xdc00
}

/// A unit that ends a pair.
pub open spec fn is_low_surrogate(u: u16) -> bool {
    0xdc00 <= u < 0xe000
}

/// The text of UTF-16 units; a surrogate without its partner becomes U+FFFD.
pub open spec fn utf16_text(units: Seq<u16>) -> Seq<char>
    decreases units.len(),
{
    if units.len() == 0 {
        Seq::empty()
    } else {
        let u = units[0];
        if is_high_surrogate(u) && units.len() > 1 && is_low_surrogate(units[1]) {
            seq![(0x1_0000 + (u - 0xd800) * 0x400 + (units[1] - 0xdc00)) as char] + utf16_text(
                units.skip(2),
            )
        } else if is_high_surrogate(u) || is_low_surrogate(u) {
            seq!['\u{fffd}'] + utf16_text(units.skip(1))
        } else {
            seq![u as char] + utf16_text(units.skip(1))
        }
    }
}

/// Calls `String::from_utf16_lossy`, which decodes UTF-16 and puts U+FFFD in the place of
/// each surrogate without a partner.
#[verifier::external_body]
pub(crate) fn text_from_utf16_lossy(units: &[u16]) -> (r: String)
    ensures
        r@ == utf16_text(units@),
{
    String::from_utf16_lossy(units)
}

/// The characters that Unicode calls white space.
pub open spec fn is_space(c: char) -> bool {
    ||| '\u{9}' <= c <= '\u{d}'
    ||| c == ' '
    ||| c == '\u{85}'
    ||| c == '\u{a0}'
    ||| c == '\u{1680}'
    ||| '\u{2000}' <= c <= '\u{200a}'
    ||| c == '\u{2028}'
    ||| c == '\u{2029}'
    ||| c == '\u{202f}'
    ||| c == '\u{205f}'
    ||| c == '\u{3000}'
}

/// Whether `c` is white space.
pub fn space(c: char) -> (r: bool)
    ensures
        r == is_space(c),
{
    ('\u{9}' <= c && c <= '\u{d}') || c == ' ' || c == '\u{85}' || c == '\u{a0}' || c == '\u{1680}'
        || ('\u{2000}' <= c && c <= '\u{200a}') || c == '\u{2028}' || c == '\u{2029}' || c
        == '\u{202f}' || c == '\u{205f}' || c == '\u{3000}'
}

/// `a` to `z` or `A` to `Z`.
pub open spec fn is_letter(c: char) -> bool {
    ('a' <= c <= 'z') || ('A' <= c <= 'Z')
}

/// Whether `c` is an ASCII letter.
pub fn letter(c: char) -> (r: bool)
    ensures
        r == is_letter(c),
{
    ('a' <= c && c <= 'z') || ('A' <= c && c <= 'Z')
}

/// Lower case of one ASCII letter.
pub fn lower(c: char) -> (r: char)
    ensures
        r == ascii_lower(c),
{
    if 'A' <= c && c <= 'Z' {
        ((c as u8) + 32) as char
    } else {
        c
    }
}

/// Upper case of one ASCII letter.
pub fn upper(c: char) -> (r: char)
    ensures
        r == ascii_upper(c),
{
    if 'a' <= c && c <= 'z' {
        ((c as u8) - 32) as char
    } else {
        c
    }
}

/// The characters of a text.
pub fn chars_of(s: &str) -> (r: Vec<char>)
    ensures
        r@ == s@,
{
    let mut out: Vec<char> = Vec::new();
    for c in it: s.chars()
        invariant
            it.seq() == s@,
            out@ == it.seq().take(it.index()),
    {
        out.push(c);
        assert(out@ =~= it.seq().take(it.index() + 1));
    }
    assert(out@ =~= s@);
    out
}

/// The text that some characters spell.
pub fn string_of(chars: &[char]) -> (r: String)
    ensures
        r@ == chars@,
{
    let mut out: String = String::new();
    let mut i: usize = 0;
    while i < chars.len()
        invariant
            i <= chars@.len(),
            out@ == chars@.take(i as int),
        decreases chars@.len() - i,
    {
        out.push(chars[i]);
        i += 1;
        assert(chars@.take(i as int) =~= chars@.take(i - 1).push(chars@[i - 1]));
    }
    assert(chars@.take(i as int) =~= chars@);
    out
}

/// One text behind another.
pub fn joined(a: &str, b: &str) -> (r: String)
    ensures
        r@ == a@ + b@,
{
    let mut out = chars_of(a);
    let tail = chars_of(b);
    push_all(&mut out, tail.as_slice());
    string_of(out.as_slice())
}

/// Appends characters.
pub fn push_all(out: &mut Vec<char>, chars: &[char])
    ensures
        final(out)@ == old(out)@ + chars@,
{
    let mut i: usize = 0;
    while i < chars.len()
        invariant
            i <= chars@.len(),
            out@ == old(out)@ + chars@.take(i as int),
        decreases chars@.len() - i,
    {
        out.push(chars[i]);
        i += 1;
        assert(chars@.take(i as int) =~= chars@.take(i - 1).push(chars@[i - 1]));
    }
    assert(chars@.take(i as int) =~= chars@);
}

/// A copy of the characters from `from` up to `to`.
pub fn part(chars: &[char], from: usize, to: usize) -> (r: Vec<char>)
    requires
        from <= to <= chars@.len(),
    ensures
        r@ == chars@.subrange(from as int, to as int),
{
    let mut out: Vec<char> = Vec::new();
    push_all(&mut out, vstd::slice::slice_subrange(chars, from, to));
    assert(out@ =~= chars@.subrange(from as int, to as int));
    out
}

/// Whether two character slices are equal.
pub fn same_chars(a: &[char], b: &[char]) -> (r: bool)
    ensures
        r == (a@ == b@),
{
    if a.len() != b.len() {
        return false;
    }
    let mut i: usize = 0;
    while i < a.len()
        invariant
            i <= a@.len(),
            a@.len() == b@.len(),
            forall|k: int| 0 <= k < i ==> a@[k] == b@[k],
        decreases a@.len() - i,
    {
        if a[i] != b[i] {
            return false;
        }
        i += 1;
    }
    assert(a@ =~= b@);
    true
}

/// The bytes of two texts in a row.
pub proof fn lemma_encoded_in_a_row(a: Seq<char>, b: Seq<char>)
    ensures
        vstd::utf8::encode_utf8(a + b) == vstd::utf8::encode_utf8(a) + vstd::utf8::encode_utf8(b),
    decreases a.len(),
{
    if a.len() == 0 {
        assert(a + b =~= b);
        assert(vstd::utf8::encode_utf8(a) =~= Seq::empty());
        assert(vstd::utf8::encode_utf8(a) + vstd::utf8::encode_utf8(b)
            =~= vstd::utf8::encode_utf8(b));
    } else {
        assert((a + b).drop_first() =~= a.drop_first() + b);
        lemma_encoded_in_a_row(a.drop_first(), b);
        assert(vstd::utf8::encode_utf8(a + b) =~= vstd::utf8::encode_utf8(a)
            + vstd::utf8::encode_utf8(b));
    }
}

/// Different texts have different UTF-8 encodings.
pub proof fn lemma_encoding_is_faithful(a: Seq<char>, b: Seq<char>)
    ensures
        vstd::utf8::encode_utf8(a) == vstd::utf8::encode_utf8(b) ==> a == b,
{
    vstd::utf8::encode_utf8_decode_utf8(a);
    vstd::utf8::encode_utf8_decode_utf8(b);
}

/// Whether two texts are equal.
pub fn same_text(a: &str, b: &str) -> (r: bool)
    ensures
        r == (a@ == b@),
{
    proof {
        lemma_encoding_is_faithful(a@, b@);
    }
    crate::bytes::same_bytes(a.as_bytes(), b.as_bytes())
}

/// Whether `text` begins with `prefix`.
pub fn starts_with(text: &[char], prefix: &[char]) -> (r: bool)
    ensures
        r == prefix@.is_prefix_of(text@),
{
    if prefix.len() > text.len() {
        return false;
    }
    same_chars(vstd::slice::slice_subrange(text, 0, prefix.len()), prefix)
}

/// Whether `s` begins with the literal text `prefix`.
pub fn begins(s: &[char], prefix: &str) -> (r: bool)
    ensures
        r == prefix@.is_prefix_of(s@),
{
    let p = chars_of(prefix);
    starts_with(s, p.as_slice())
}

/// `needle` stands in `hay` at position `i`.
pub open spec fn occurs_at<T>(hay: Seq<T>, needle: Seq<T>, i: int) -> bool {
    0 <= i && i + needle.len() <= hay.len() && hay.subrange(i, i + needle.len()) == needle
}

/// The position where `needle` first stands in `hay`.
#[verifier::opaque]
pub open spec fn first_occurrence<T>(hay: Seq<T>, needle: Seq<T>) -> Option<int> {
    if exists|i: int| occurs_at(hay, needle, i) {
        Some(
            choose|i: int|
                #![trigger occurs_at(hay, needle, i)]
                occurs_at(hay, needle, i) && forall|j: int| 0 <= j < i ==> !occurs_at(hay, needle, j),
        )
    } else {
        None
    }
}

/// A position with nothing before it is the first.
pub proof fn lemma_first_occurrence<T>(hay: Seq<T>, needle: Seq<T>, i: int)
    requires
        occurs_at(hay, needle, i),
        forall|j: int| 0 <= j < i ==> !occurs_at(hay, needle, j),
    ensures
        first_occurrence(hay, needle) == Some(i),
{
    reveal(first_occurrence);
    let k = first_occurrence(hay, needle)->0;
    assert(occurs_at(hay, needle, k));
    assert(k == i);
}

/// What stands nowhere has no first position.
pub proof fn lemma_no_occurrence<T>(hay: Seq<T>, needle: Seq<T>)
    requires
        forall|j: int| !occurs_at(hay, needle, j),
    ensures
        first_occurrence(hay, needle) is None,
{
    reveal(first_occurrence);
}

/// Where `needle` first stands in `hay`.
pub fn find_chars(hay: &[char], needle: &[char]) -> (r: Option<usize>)
    ensures
        match r {
            Some(i) => first_occurrence(hay@, needle@) == Some(i as int) && occurs_at(
                hay@,
                needle@,
                i as int,
            ),
            None => first_occurrence(hay@, needle@) is None,
        },
{
    if needle.len() > hay.len() {
        proof {
            lemma_no_occurrence(hay@, needle@);
        }
        return None;
    }
    let total: usize = hay.len();
    let last: usize = total - needle.len();
    let mut i: usize = 0;
    while i <= last
        invariant
            i <= last + 1,
            total == hay@.len(),
            last == total - needle@.len(),
            forall|j: int| 0 <= j < i ==> !occurs_at(hay@, needle@, j),
        decreases last + 1 - i,
    {
        if same_chars(vstd::slice::slice_subrange(hay, i, i + needle.len()), needle) {
            proof {
                lemma_first_occurrence(hay@, needle@, i as int);
            }
            return Some(i);
        }
        if i == last {
            proof {
                assert forall|j: int| !occurs_at(hay@, needle@, j) by {}
                lemma_no_occurrence(hay@, needle@);
            }
            return None;
        }
        i += 1;
    }
    proof {
        assert forall|j: int| !occurs_at(hay@, needle@, j) by {}
        lemma_no_occurrence(hay@, needle@);
    }
    None
}

/// Where the bytes of `needle` first stand in `hay`.
pub fn find_bytes(hay: &[u8], needle: &[u8]) -> (r: Option<usize>)
    ensures
        match r {
            Some(i) => first_occurrence(hay@, needle@) == Some(i as int) && occurs_at(
                hay@,
                needle@,
                i as int,
            ),
            None => first_occurrence(hay@, needle@) is None,
        },
{
    if needle.len() > hay.len() {
        proof {
            lemma_no_occurrence(hay@, needle@);
        }
        return None;
    }
    let total: usize = hay.len();
    let last: usize = total - needle.len();
    let mut i: usize = 0;
    while i <= last
        invariant
            i <= last + 1,
            total == hay@.len(),
            last == total - needle@.len(),
            forall|j: int| 0 <= j < i ==> !occurs_at(hay@, needle@, j),
        decreases last + 1 - i,
    {
        if crate::bytes::same_bytes(
            vstd::slice::slice_subrange(hay, i, i + needle.len()),
            needle,
        ) {
            proof {
                lemma_first_occurrence(hay@, needle@, i as int);
            }
            return Some(i);
        }
        if i == last {
            proof {
                assert forall|j: int| !occurs_at(hay@, needle@, j) by {}
                lemma_no_occurrence(hay@, needle@);
            }
            return None;
        }
        i += 1;
    }
    proof {
        assert forall|j: int| !occurs_at(hay@, needle@, j) by {}
        lemma_no_occurrence(hay@, needle@);
    }
    None
}

/// Whether the literal text `needle` stands anywhere in `hay`.
pub fn contains_text(hay: &[char], needle: &str) -> (r: bool)
    ensures
        r == (first_occurrence(hay@, needle@) is Some),
{
    let n = chars_of(needle);
    find_chars(hay, n.as_slice()).is_some()
}

/// Kinds of characters that separate the parts of a text.
#[derive(Clone, Copy)]
pub enum Separator {
    /// One given character.
    Char(char),
    /// Either path separator.
    Slash,
    /// White space.
    Space,
    /// A colon or a slash, which ends a host name.
    HostEnd,
}

impl Separator {
    /// Whether `c` separates.
    pub open spec fn has(self, c: char) -> bool {
        match self {
            Separator::Char(x) => c == x,
            Separator::Slash => c == '/' || c == '\\',
            Separator::Space => is_space(c),
            Separator::HostEnd => c == ':' || c == '/',
        }
    }

    /// Whether `c` separates.
    pub fn test(self, c: char) -> (r: bool)
        ensures
            r == self.has(c),
    {
        match self {
            Separator::Char(x) => c == x,
            Separator::Slash => c == '/' || c == '\\',
            Separator::Space => space(c),
            Separator::HostEnd => c == ':' || c == '/',
        }
    }

    /// Only a backslash separates: the path is meant to the letter.
    pub open spec fn is_verbatim(self) -> bool {
        self == Separator::Char('\\')
    }

    /// Whether only a backslash separates.
    pub fn verbatim(self) -> (r: bool)
        ensures
            r == self.is_verbatim(),
    {
        match self {
            Separator::Char(x) => x == '\\',
            _ => false,
        }
    }
}

/// The parts between separators, empty ones included: there is one more part than
/// there are separators.
pub open spec fn split(s: Seq<char>, sep: Separator) -> Seq<Seq<char>>
    decreases s.len(),
{
    if s.len() == 0 {
        seq![Seq::empty()]
    } else {
        let front = split(s.drop_last(), sep);
        if sep.has(s.last()) {
            front.push(Seq::empty())
        } else {
            front.drop_last().push(front.last().push(s.last()))
        }
    }
}

/// The parts between separators that are not empty.
pub open spec fn words(s: Seq<char>, sep: Separator) -> Seq<Seq<char>> {
    split(s, sep).filter(|p: Seq<char>| p.len() > 0)
}

/// There is always a part.
pub proof fn lemma_split_not_empty(s: Seq<char>, sep: Separator)
    ensures
        split(s, sep).len() > 0,
    decreases s.len(),
{
    if s.len() > 0 {
        lemma_split_not_empty(s.drop_last(), sep);
    }
}

/// The views of the parts.
pub open spec fn texts(parts: Seq<Vec<char>>) -> Seq<Seq<char>> {
    Seq::new(parts.len(), |i: int| parts[i]@)
}

/// The views of strings.
pub open spec fn strings(parts: Seq<String>) -> Seq<Seq<char>> {
    Seq::new(parts.len(), |i: int| parts[i]@)
}

/// Splits at every separator.
pub fn split_chars(s: &[char], sep: Separator) -> (r: Vec<Vec<char>>)
    ensures
        texts(r@) == split(s@, sep),
        r@.len() > 0,
{
    let mut out: Vec<Vec<char>> = Vec::new();
    let mut current: Vec<char> = Vec::new();
    let mut i: usize = 0;
    proof {
        assert(s@.take(0) =~= Seq::empty());
        assert(texts(out@).push(current@) =~= split(s@.take(0), sep));
    }
    while i < s.len()
        invariant
            i <= s@.len(),
            texts(out@).push(current@) == split(s@.take(i as int), sep),
        decreases s@.len() - i,
    {
        let c: char = s[i];
        let ghost prefix = s@.take(i + 1);
        assert(prefix.drop_last() =~= s@.take(i as int));
        assert(prefix.last() == c);
        if sep.test(c) {
            let ghost done = current@;
            let ghost old_out = out@;
            out.push(current);
            current = Vec::new();
            assert(texts(out@) =~= texts(old_out).push(done));
            assert(texts(out@).push(current@) =~= split(prefix, sep));
        } else {
            current.push(c);
            assert(texts(out@).push(current@) =~= split(prefix, sep));
        }
        i += 1;
    }
    assert(s@.take(i as int) =~= s@);
    let ghost done = current@;
    let ghost old_out = out@;
    out.push(current);
    assert(texts(out@) =~= texts(old_out).push(done));
    out
}

/// The non-empty parts between separators.
pub fn split_words(s: &[char], sep: Separator) -> (r: Vec<Vec<char>>)
    ensures
        texts(r@) == words(s@, sep),
{
    let parts = split_chars(s, sep);
    let ghost all = texts(parts@);
    let ghost keep = |p: Seq<char>| p.len() > 0;
    let mut out: Vec<Vec<char>> = Vec::new();
    let mut i: usize = 0;
    proof {
        assert(all.take(0) =~= Seq::empty());
        assert(texts(out@) =~= all.take(0).filter(keep)) by {
            reveal(Seq::filter);
        }
    }
    while i < parts.len()
        invariant
            i <= parts@.len(),
            all == texts(parts@),
            keep == (|p: Seq<char>| p.len() > 0),
            texts(out@) == all.take(i as int).filter(keep),
        decreases parts@.len() - i,
    {
        proof {
            reveal(Seq::filter);
            assert(all.take(i + 1).drop_last() =~= all.take(i as int));
            assert(all.take(i + 1).last() == parts@[i as int]@);
        }
        if parts[i].len() > 0 {
            let ghost old_out = out@;
            let copy = part(parts[i].as_slice(), 0, parts[i].len());
            assert(copy@ =~= parts@[i as int]@);
            out.push(copy);
            assert(texts(out@) =~= texts(old_out).push(parts@[i as int]@));
        }
        i += 1;
    }
    assert(all.take(i as int) =~= all);
    out
}

/// `s` without the separators at its end.
pub open spec fn trim_end(s: Seq<char>, sep: Separator) -> Seq<char>
    decreases s.len(),
{
    if s.len() > 0 && sep.has(s.last()) {
        trim_end(s.drop_last(), sep)
    } else {
        s
    }
}

/// `s` without the separators at its start.
pub open spec fn trim_front(s: Seq<char>, sep: Separator) -> Seq<char>
    decreases s.len(),
{
    if s.len() > 0 && sep.has(s[0]) {
        trim_front(s.drop_first(), sep)
    } else {
        s
    }
}

/// `s` without white space on either side.
pub open spec fn trim(s: Seq<char>) -> Seq<char> {
    trim_end(trim_front(s, Separator::Space), Separator::Space)
}

/// How many leading characters are separators.
pub fn front_run(s: &[char], sep: Separator) -> (n: usize)
    ensures
        n <= s@.len(),
        s@.skip(n as int) == trim_front(s@, sep),
        forall|k: int| 0 <= k < n ==> sep.has(#[trigger] s@[k]),
{
    let mut i: usize = 0;
    assert(s@.skip(0) =~= s@);
    while i < s.len() && sep.test(s[i])
        invariant
            i <= s@.len(),
            trim_front(s@.skip(i as int), sep) == trim_front(s@, sep),
            forall|k: int| 0 <= k < i ==> sep.has(#[trigger] s@[k]),
        decreases s@.len() - i,
    {
        assert(s@.skip(i as int).drop_first() =~= s@.skip(i + 1));
        i += 1;
    }
    i
}

/// How many characters are left without the separators at the end.
pub fn end_run(s: &[char], sep: Separator) -> (n: usize)
    ensures
        n <= s@.len(),
        s@.take(n as int) == trim_end(s@, sep),
{
    let mut i: usize = s.len();
    assert(s@.take(i as int) =~= s@);
    while i > 0 && sep.test(s[i - 1])
        invariant
            i <= s@.len(),
            trim_end(s@.take(i as int), sep) == trim_end(s@, sep),
        decreases i,
    {
        assert(s@.take(i as int).drop_last() =~= s@.take(i - 1));
        i -= 1;
    }
    i
}

/// A copy without white space on either side.
pub fn trimmed(s: &[char]) -> (r: Vec<char>)
    ensures
        r@ == trim(s@),
{
    let n: usize = front_run(s, Separator::Space);
    let rest = part(s, n, s.len());
    assert(rest@ =~= s@.skip(n as int));
    let m: usize = end_run(rest.as_slice(), Separator::Space);
    let r = part(rest.as_slice(), 0, m);
    assert(r@ =~= rest@.take(m as int));
    r
}

/// The position of the last character equal to `c`, or -1.
pub open spec fn last_index(s: Seq<char>, c: char) -> int
    decreases s.len(),
{
    if s.len() == 0 {
        -1
    } else if s.last() == c {
        s.len() - 1
    } else {
        last_index(s.drop_last(), c)
    }
}

/// What `last_index` finds: nothing equal to `c` stands behind it.
pub proof fn lemma_last_index(s: Seq<char>, c: char)
    ensures
        -1 <= last_index(s, c) < s.len(),
        last_index(s, c) >= 0 ==> s[last_index(s, c)] == c,
        forall|k: int| last_index(s, c) < k < s.len() ==> s[k] != c,
    decreases s.len(),
{
    if s.len() > 0 && s.last() != c {
        lemma_last_index(s.drop_last(), c);
        assert forall|k: int| last_index(s, c) < k < s.len() implies s[k] != c by {
            if k < s.len() - 1 {
                assert(s.drop_last()[k] == s[k]);
            }
        }
    }
}

/// The position of the last character equal to `c`.
pub fn rfind(s: &[char], c: char) -> (r: Option<usize>)
    ensures
        match r {
            Some(i) => last_index(s@, c) == i && i < s@.len(),
            None => last_index(s@, c) == -1,
        },
{
    let mut i: usize = s.len();
    assert(s@.take(i as int) =~= s@);
    while i > 0
        invariant
            i <= s@.len(),
            last_index(s@.take(i as int), c) == last_index(s@, c),
        decreases i,
    {
        assert(s@.take(i as int).drop_last() =~= s@.take(i - 1));
        assert(s@.take(i as int).last() == s@[i - 1]);
        if s[i - 1] == c {
            return Some(i - 1);
        }
        i -= 1;
    }
    None
}

/// The position of the first separator, or the length.
pub open spec fn first_index(s: Seq<char>, sep: Separator) -> int
    decreases s.len(),
{
    if s.len() == 0 {
        0
    } else if sep.has(s[0]) {
        0
    } else {
        1 + first_index(s.drop_first(), sep)
    }
}

/// What `first_index` finds: a separator, and none before it.
pub proof fn lemma_first_index(s: Seq<char>, sep: Separator)
    ensures
        0 <= first_index(s, sep) <= s.len(),
        first_index(s, sep) < s.len() ==> sep.has(s[first_index(s, sep)]),
        forall|k: int| 0 <= k < first_index(s, sep) ==> !sep.has(#[trigger] s[k]),
    decreases s.len(),
{
    if s.len() > 0 && !sep.has(s[0]) {
        let rest = s.drop_first();
        lemma_first_index(rest, sep);
        assert forall|k: int| 0 <= k < first_index(s, sep) implies !sep.has(#[trigger] s[k]) by {
            if k > 0 {
                assert(rest[k - 1] == s[k]);
            }
        }
    }
}

/// The position of the first separator, or the length.
pub fn find_first(s: &[char], sep: Separator) -> (n: usize)
    ensures
        n == first_index(s@, sep),
        n <= s@.len(),
        forall|k: int| 0 <= k < n ==> !sep.has(#[trigger] s@[k]),
        n < s@.len() ==> sep.has(s@[n as int]),
{
    let mut i: usize = 0;
    assert(s@.skip(0) =~= s@);
    while i < s.len() && !sep.test(s[i])
        invariant
            i <= s@.len(),
            i + first_index(s@.skip(i as int), sep) == first_index(s@, sep),
            forall|k: int| 0 <= k < i ==> !sep.has(#[trigger] s@[k]),
        decreases s@.len() - i,
    {
        assert(s@.skip(i as int).drop_first() =~= s@.skip(i + 1));
        i += 1;
    }
    i
}

/// Whether `c` occurs in `s`.
pub fn has_char(s: &[char], c: char) -> (r: bool)
    ensures
        r == s@.contains(c),
{
    let mut i: usize = 0;
    while i < s.len()
        invariant
            i <= s@.len(),
            forall|k: int| 0 <= k < i ==> s@[k] != c,
        decreases s@.len() - i,
    {
        if s[i] == c {
            assert(s@[i as int] == c);
            return true;
        }
        i += 1;
    }
    false
}

/// `s` with every `from` replaced by `to`.
pub open spec fn replace_char(s: Seq<char>, from: char, to: char) -> Seq<char> {
    Seq::new(s.len(), |i: int| if s[i] == from { to } else { s[i] })
}

/// A copy with every `from` replaced by `to`.
pub fn replaced(s: &[char], from: char, to: char) -> (r: Vec<char>)
    ensures
        r@ == replace_char(s@, from, to),
{
    let mut out: Vec<char> = Vec::new();
    let mut i: usize = 0;
    while i < s.len()
        invariant
            i <= s@.len(),
            out@ == replace_char(s@, from, to).take(i as int),
        decreases s@.len() - i,
    {
        let c: char = if s[i] == from {
            to
        } else {
            s[i]
        };
        out.push(c);
        i += 1;
        assert(out@ =~= replace_char(s@, from, to).take(i as int));
    }
    assert(out@ =~= replace_char(s@, from, to));
    out
}

/// A copy with every ASCII letter in lower case.
pub fn lowered(s: &[char]) -> (r: Vec<char>)
    ensures
        r@ == ascii_lower_all(s@),
{
    let mut out: Vec<char> = Vec::new();
    let mut i: usize = 0;
    while i < s.len()
        invariant
            i <= s@.len(),
            out@ == ascii_lower_all(s@).take(i as int),
        decreases s@.len() - i,
    {
        out.push(lower(s[i]));
        i += 1;
        assert(out@ =~= ascii_lower_all(s@).take(i as int));
    }
    assert(out@ =~= ascii_lower_all(s@));
    out
}

/// The number that decimal digits spell.
pub open spec fn decimal_value(s: Seq<char>) -> nat
    decreases s.len(),
{
    if s.len() == 0 {
        0
    } else {
        10 * decimal_value(s.drop_last()) + (s.last() as nat - '0' as nat) as nat
    }
}

/// `0` to `9` throughout.
pub open spec fn all_digits(s: Seq<char>) -> bool {
    forall|i: int| 0 <= i < s.len() ==> '0' <= #[trigger] s[i] <= '9'
}

/// A leading plus sign is allowed in front of digits.
pub open spec fn unsigned_part(s: Seq<char>) -> Seq<char> {
    if s.len() > 0 && s[0] == '+' {
        s.drop_first()
    } else {
        s
    }
}

/// The number that `s` spells in decimal, where it is at most `limit`.
pub open spec fn parsed_number(s: Seq<char>, limit: nat) -> Option<nat> {
    let d = unsigned_part(s);
    if d.len() > 0 && all_digits(d) && decimal_value(d) <= limit {
        Some(decimal_value(d))
    } else {
        None
    }
}

/// More digits never spell a smaller number.
pub proof fn lemma_decimal_grows(s: Seq<char>, i: int)
    requires
        0 <= i <= s.len(),
        all_digits(s),
    ensures
        decimal_value(s.take(i)) <= decimal_value(s),
    decreases s.len(),
{
    if i == s.len() {
        assert(s.take(i) =~= s);
    } else {
        let t = s.drop_last();
        assert forall|k: int| 0 <= k < t.len() implies '0' <= #[trigger] t[k] <= '9' by {
            assert(t[k] == s[k]);
        }
        lemma_decimal_grows(t, i);
        assert(t.take(i) =~= s.take(i));
    }
}

/// Parses an unsigned decimal number of at most `limit`.
pub fn parse_number(s: &[char], limit: u64) -> (r: Option<u64>)
    ensures
        match r {
            Some(n) => parsed_number(s@, limit as nat) == Some(n as nat),
            None => parsed_number(s@, limit as nat) is None,
        },
{
    let start: usize = if s.len() > 0 && s[0] == '+' {
        1
    } else {
        0
    };
    let ghost d = unsigned_part(s@);
    assert(d =~= s@.skip(start as int));
    if start == s.len() {
        return None;
    }
    let mut value: u64 = 0;
    let mut i: usize = start;
    assert(d.take(0) =~= Seq::empty());
    while i < s.len()
        invariant
            start <= i <= s@.len(),
            d == s@.skip(start as int),
            d.len() > 0,
            parsed_number(s@, limit as nat) == if all_digits(d) && decimal_value(d) <= limit {
                Some(decimal_value(d))
            } else {
                None
            },
            forall|k: int| 0 <= k < i - start ==> '0' <= #[trigger] d[k] <= '9',
            value == decimal_value(d.take(i - start)),
            value <= limit,
        decreases s@.len() - i,
    {
        let c: char = s[i];
        assert(c == d[i - start]);
        if c < '0' || c > '9' {
            assert(!all_digits(d));
            return None;
        }
        let digit: u64 = (c as u32 - '0' as u32) as u64;
        assert(d.take(i + 1 - start).drop_last() =~= d.take(i - start));
        assert(d.take(i + 1 - start).last() == c);
        if value > (limit - (if digit <= limit { digit } else { limit })) / 10 || digit > limit {
            proof {
                if all_digits(d) {
                    lemma_decimal_grows(d, i + 1 - start);
                }
            }
            return None;
        }
        value = value * 10 + digit;
        i += 1;
    }
    assert(d.take(i - start) =~= d);
    Some(value)
}

// ---------------------------------------------------------------------------
// Lines, replacements and joins

/// A line without the carriage return at its end.
pub open spec fn without_return(line: Seq<char>) -> Seq<char> {
    if line.len() > 0 && line.last() == '\r' {
        line.drop_last()
    } else {
        line
    }
}

/// The lines of a text. A line ends at a newline, which may follow a carriage return; the
/// last newline is optional.
pub open spec fn lines(s: Seq<char>) -> Seq<Seq<char>> {
    let parts = split(s, Separator::Char('\n'));
    let ended = Seq::new((parts.len() - 1) as nat, |i: int| without_return(parts[i]));
    if parts.last().len() == 0 {
        ended
    } else {
        ended.push(parts.last())
    }
}

/// Splits a text into its lines.
pub fn split_lines(s: &[char]) -> (r: Vec<Vec<char>>)
    ensures
        texts(r@) == lines(s@),
{
    let parts = split_chars(s, Separator::Char('\n'));
    let ghost all = texts(parts@);
    let n: usize = parts.len();
    let mut out: Vec<Vec<char>> = Vec::new();
    let mut i: usize = 0;
    while i < n - 1
        invariant
            0 <= i <= n - 1,
            n == parts@.len(),
            all == texts(parts@),
            out@.len() == i,
            forall|k: int| 0 <= k < i ==> (#[trigger] out@[k])@ == without_return(all[k]),
        decreases n - i,
    {
        let line = &parts[i];
        let len: usize = line.len();
        assert(line@ == all[i as int]);
        if len > 0 && line[len - 1] == '\r' {
            let cut = part(line.as_slice(), 0, len - 1);
            assert(cut@ =~= line@.drop_last());
            out.push(cut);
        } else {
            let whole = part(line.as_slice(), 0, len);
            assert(whole@ =~= line@);
            out.push(whole);
        }
        i += 1;
    }
    let last = &parts[n - 1];
    assert(last@ == all.last());
    if last.len() > 0 {
        let whole = part(last.as_slice(), 0, last.len());
        assert(whole@ =~= last@);
        out.push(whole);
    }
    assert(texts(out@) =~= lines(s@));
    out
}

/// The text with every `from`, read from the left, replaced.
pub open spec fn replace_text(s: Seq<char>, from: Seq<char>, to: Seq<char>) -> Seq<char>
    decreases s.len(),
{
    if s.len() == 0 || from.len() == 0 {
        s
    } else if from.is_prefix_of(s) {
        to + replace_text(s.skip(from.len() as int), from, to)
    } else {
        seq![s[0]] + replace_text(s.skip(1), from, to)
    }
}

/// Replaces every `from`, read from the left.
pub fn replaced_text(s: &[char], from: &str, to: &str) -> (r: Vec<char>)
    requires
        from@.len() > 0,
    ensures
        r@ == replace_text(s@, from@, to@),
{
    let old = chars_of(from);
    let new = chars_of(to);
    let mut out: Vec<char> = Vec::new();
    let n: usize = s.len();
    let mut i: usize = 0;
    assert(s@.skip(0) =~= s@);
    assert(out@ + replace_text(s@, from@, to@) =~= replace_text(s@, from@, to@));
    while i < n
        invariant
            i <= n == s@.len(),
            old@ == from@,
            new@ == to@,
            from@.len() > 0,
            out@ + replace_text(s@.skip(i as int), from@, to@) == replace_text(s@, from@, to@),
        decreases n - i,
    {
        let rest = vstd::slice::slice_subrange(s, i, n);
        assert(rest@ =~= s@.skip(i as int));
        let ghost before = out@;
        if starts_with(rest, old.as_slice()) {
            push_all(&mut out, new.as_slice());
            proof {
                assert(rest@.skip(from@.len() as int) =~= s@.skip(i + from@.len()));
                assert(out@ + replace_text(s@.skip(i + from@.len()), from@, to@) =~= before + (to@
                    + replace_text(s@.skip(i + from@.len()), from@, to@)));
            }
            i = i + old.len();
        } else {
            out.push(s[i]);
            proof {
                assert(rest@.skip(1) =~= s@.skip(i + 1));
                assert(out@ + replace_text(s@.skip(i + 1), from@, to@) =~= before + (seq![
                    s@[i as int],
                ] + replace_text(s@.skip(i + 1), from@, to@)));
            }
            i += 1;
        }
    }
    assert(s@.skip(i as int) =~= Seq::empty());
    assert(out@ + Seq::<char>::empty() =~= out@);
    out
}

/// Parts with a separator between them.
pub open spec fn join(parts: Seq<Seq<char>>, sep: char) -> Seq<char>
    decreases parts.len(),
{
    if parts.len() == 0 {
        Seq::empty()
    } else if parts.len() == 1 {
        parts[0]
    } else {
        join(parts.drop_last(), sep).push(sep) + parts.last()
    }
}

/// Joins parts with a separator between them.
pub fn join_parts(parts: &[Vec<char>], sep: char) -> (r: Vec<char>)
    ensures
        r@ == join(texts(parts@), sep),
{
    let mut out: Vec<char> = Vec::new();
    let ghost all = texts(parts@);
    let mut i: usize = 0;
    assert(all.take(0) =~= Seq::empty());
    while i < parts.len()
        invariant
            i <= parts@.len(),
            all == texts(parts@),
            out@ == join(all.take(i as int), sep),
        decreases parts@.len() - i,
    {
        proof {
            assert(all.take(i + 1).drop_last() =~= all.take(i as int));
            assert(all.take(i + 1).last() == parts@[i as int]@);
        }
        if i > 0 {
            out.push(sep);
        }
        push_all(&mut out, parts[i].as_slice());
        proof {
            if i == 0 {
                assert(out@ =~= parts@[0]@);
                assert(all.take(1)[0] == parts@[0]@);
            }
        }
        i += 1;
    }
    assert(all.take(i as int) =~= all);
    out
}

// ---------------------------------------------------------------------------
// Numbers as text

/// The character of a decimal digit.
pub open spec fn digit(n: nat) -> char {
    (('0' as nat) + n) as char
}

/// A number in decimal.
pub open spec fn decimal(n: nat) -> Seq<char>
    decreases n,
{
    if n < 10 {
        seq![digit(n)]
    } else {
        decimal(n / 10).push(digit(n % 10))
    }
}

fn digit_char(n: u64) -> (c: char)
    requires
        n < 10,
    ensures
        c == digit(n as nat),
{
    if n == 0 {
        '0'
    } else if n == 1 {
        '1'
    } else if n == 2 {
        '2'
    } else if n == 3 {
        '3'
    } else if n == 4 {
        '4'
    } else if n == 5 {
        '5'
    } else if n == 6 {
        '6'
    } else if n == 7 {
        '7'
    } else if n == 8 {
        '8'
    } else {
        '9'
    }
}

/// The characters of a number in decimal.
pub fn decimal_chars(n: u64) -> (r: Vec<char>)
    ensures
        r@ == decimal(n as nat),
    decreases n,
{
    if n < 10 {
        let mut out: Vec<char> = Vec::new();
        out.push(digit_char(n));
        assert(out@ =~= seq![digit(n as nat)]);
        out
    } else {
        let mut out = decimal_chars(n / 10);
        out.push(digit_char(n % 10));
        out
    }
}

/// A number in decimal.
pub fn decimal_text(n: u64) -> (r: String)
    ensures
        r@ == decimal(n as nat),
{
    let chars = decimal_chars(n);
    string_of(chars.as_slice())
}

/// A number is written with at least one digit, and with digits only.
pub proof fn lemma_decimal_digits(n: nat)
    ensures
        decimal(n).len() > 0,
        forall|i: int|
            0 <= i < decimal(n).len() ==> '0' <= (#[trigger] decimal(n)[i]) && decimal(n)[i] <= '9',
    decreases n,
{
    if n >= 10 {
        lemma_decimal_digits(n / 10);
        let front = decimal(n / 10);
        assert forall|i: int| 0 <= i < decimal(n).len() implies '0' <= (#[trigger] decimal(n)[i])
            && decimal(n)[i] <= '9' by {
            if i < front.len() {
                assert(decimal(n)[i] == front[i]);
            }
        }
    }
}

/// Three texts one behind the other.
pub fn joined3(a: &str, b: &str, c: &str) -> (r: String)
    ensures
        r@ == a@ + b@ + c@,
{
    let front = joined(a, b);
    joined(front.as_str(), c)
}

/// The position where a text last stands.
pub open spec fn last_occurrence(s: Seq<char>, t: Seq<char>) -> Option<int>
    decreases s.len(),
{
    if s.len() < t.len() {
        None
    } else if occurs_at(s, t, s.len() - t.len()) {
        Some(s.len() - t.len())
    } else if s.len() == 0 {
        None
    } else {
        last_occurrence(s.drop_last(), t)
    }
}

/// Where a text last stands.
pub fn find_last(s: &[char], t: &str) -> (r: Option<usize>)
    ensures
        match r {
            Some(i) => last_occurrence(s@, t@) == Some(i as int) && i + t@.len() <= s@.len(),
            None => last_occurrence(s@, t@) is None,
        },
{
    let needle = chars_of(t);
    let n: usize = needle.len();
    let mut end: usize = s.len();
    assert(s@.take(end as int) =~= s@);
    while end >= n
        invariant
            n == needle@.len(),
            needle@ == t@,
            end <= s@.len(),
            last_occurrence(s@.take(end as int), t@) == last_occurrence(s@, t@),
        decreases end,
    {
        let ghost cut = s@.take(end as int);
        proof {
            assert(cut.subrange(end - n, end as int) =~= s@.subrange(end - n, end as int));
            if end > 0 {
                assert(cut.drop_last() =~= s@.take(end - 1));
            }
        }
        let here = part(s, end - n, end);
        if same_chars(here.as_slice(), needle.as_slice()) {
            return Some(end - n);
        }
        if end == 0 {
            return None;
        }
        end -= 1;
    }
    None
}

} // verus!
