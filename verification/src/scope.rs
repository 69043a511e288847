//! Rules on paths: which are safe to index, and which lie under a root.

use crate::text::Separator;
use vstd::prelude::*;

verus! {

/// Either path separator.
pub open spec fn is_slash(c: char) -> bool {
    c == '/' || c == '\\'
}

/// A drive letter, a colon and a separator.
pub open spec fn has_drive(p: Seq<char>) -> bool {
    p.len() >= 3 && crate::text::is_letter(p[0]) && p[1] == ':' && is_slash(p[2])
}

/// Absolute on some platform: a Unix path, a drive path or a network share.
pub open spec fn portable_absolute(p: Seq<char>) -> bool {
    ||| p.len() > 0 && p[0] == '/'
    ||| has_drive(p)
    ||| p.len() >= 2 && p[0] == '\\' && p[1] == '\\'
}

/// `.` and `..`, which would lead elsewhere.
pub open spec fn is_dots(part: Seq<char>) -> bool {
    part == seq!['.'] || part == seq!['.', '.']
}

/// No component of the path is `.` or `..`.
pub open spec fn no_dots(p: Seq<char>) -> bool {
    let parts = crate::text::split(p, Separator::Slash);
    forall|i: int| 0 <= i < parts.len() ==> !is_dots(#[trigger] parts[i])
}

/// Absolute, normalized and free of NUL.
pub open spec fn safe_path(p: Seq<char>) -> bool {
    &&& !p.contains('\0')
    &&& portable_absolute(p)
    &&& no_dots(p)
}

fn dots(part: &[char]) -> (r: bool)
    ensures
        r == is_dots(part@),
{
    let r: bool = (part.len() == 1 && part[0] == '.') || (part.len() == 2 && part[0] == '.'
        && part[1] == '.');
    proof {
        if r {
            assert(part@ =~= seq!['.'] || part@ =~= seq!['.', '.']);
        }
    }
    r
}

/// Whether no component of the path is `.` or `..`.
pub fn dot_free(p: &[char]) -> (r: bool)
    ensures
        r == no_dots(p@),
{
    let parts = crate::text::split_chars(p, Separator::Slash);
    let ghost texts = crate::text::texts(parts@);
    let mut i: usize = 0;
    while i < parts.len()
        invariant
            i <= parts@.len(),
            texts == crate::text::texts(parts@),
            texts == crate::text::split(p@, Separator::Slash),
            forall|k: int| 0 <= k < i ==> !is_dots(#[trigger] texts[k]),
        decreases parts@.len() - i,
    {
        assert(texts[i as int] == parts@[i as int]@);
        if dots(parts[i].as_slice()) {
            return false;
        }
        i += 1;
    }
    true
}

/// Whether the path is absolute on some platform.
pub fn absolute(p: &[char]) -> (r: bool)
    ensures
        r == portable_absolute(p@),
{
    (p.len() > 0 && p[0] == '/') || (p.len() >= 3 && crate::text::letter(p[0]) && p[1] == ':' && (
    p[2] == '/' || p[2] == '\\')) || (p.len() >= 2 && p[0] == '\\' && p[1] == '\\')
}

/// Whether the path is absolute, normalized and free of NUL.
pub fn safe_absolute_path(path: &str) -> (r: bool)
    ensures
        r == safe_path(path@),
{
    let p = crate::text::chars_of(path);
    !crate::text::has_char(p.as_slice(), '\0') && absolute(p.as_slice()) && dot_free(p.as_slice())
}

/// `path` is `root`, or lies below it: the prefix ends at a component boundary.
pub open spec fn under(path: Seq<char>, root: Seq<char>) -> bool {
    &&& root.is_prefix_of(path)
    &&& (path.len() == root.len() || (root.len() > 0 && is_slash(root.last())) || is_slash(
        path[root.len() as int],
    ))
}

/// Whether `path` is `root` or lies below it.
pub fn path_is_under(path: &str, root: &str) -> (r: bool)
    ensures
        r == under(path@, root@),
{
    let p = crate::text::chars_of(path);
    let q = crate::text::chars_of(root);
    if !crate::text::starts_with(p.as_slice(), q.as_slice()) {
        return false;
    }
    let n: usize = q.len();
    p.len() == n || (n > 0 && (q[n - 1] == '/' || q[n - 1] == '\\')) || p[n] == '/' || p[n] == '\\'
}

/// The byte of a path separator.
pub open spec fn slash_byte(b: u8) -> bool {
    b == 0x2f || b == 0x5c
}

/// One byte in ASCII lower case.
pub open spec fn lower_byte(b: u8) -> u8 {
    if 0x41 <= b <= 0x5a {
        (b + 0x20) as u8
    } else {
        b
    }
}

/// Equal but for ASCII case, or both separators.
pub open spec fn alike(a: u8, b: u8) -> bool {
    lower_byte(a) == lower_byte(b) || (slash_byte(a) && slash_byte(b))
}

/// `path` is `root` or lies below it, compared byte by byte with `alike`.
pub open spec fn under_alike(path: Seq<u8>, root: Seq<u8>) -> bool {
    &&& root.len() <= path.len()
    &&& forall|i: int| 0 <= i < root.len() ==> alike(#[trigger] path[i], root[i])
    &&& (path.len() == root.len() || (root.len() > 0 && slash_byte(root.last())) || slash_byte(
        path[root.len() as int],
    ))
}

/// What is compared where case does not count: ASCII text as it stands, other text in
/// lower case.
pub open spec fn folded(path: Seq<char>, root: Seq<char>) -> (Seq<u8>, Seq<u8>) {
    if vstd::utf8::is_ascii_chars(path) && vstd::utf8::is_ascii_chars(root) {
        (vstd::utf8::encode_utf8(path), vstd::utf8::encode_utf8(root))
    } else {
        (
            vstd::utf8::encode_utf8(crate::text::lowercase(path)),
            vstd::utf8::encode_utf8(crate::text::lowercase(root)),
        )
    }
}

/// `path` is `root` or lies below it, whatever the case and the separators.
pub open spec fn under_ci(path: Seq<char>, root: Seq<char>) -> bool {
    let (p, r) = folded(path, root);
    under_alike(p, r)
}

fn low(b: u8) -> (r: u8)
    ensures
        r == lower_byte(b),
{
    if 0x41 <= b && b <= 0x5a {
        b + 0x20
    } else {
        b
    }
}

fn slash(b: u8) -> (r: bool)
    ensures
        r == slash_byte(b),
{
    b == 0x2f || b == 0x5c
}

fn bytes_under(path: &[u8], root: &[u8]) -> (r: bool)
    ensures
        r == under_alike(path@, root@),
{
    let n: usize = root.len();
    if path.len() < n {
        return false;
    }
    let mut i: usize = 0;
    while i < n
        invariant
            i <= n == root@.len(),
            n <= path@.len(),
            forall|k: int| 0 <= k < i ==> alike(#[trigger] path@[k], root@[k]),
        decreases n - i,
    {
        if low(path[i]) != low(root[i]) && !(slash(path[i]) && slash(root[i])) {
            assert(!alike(path@[i as int], root@[i as int]));
            return false;
        }
        i += 1;
    }
    path.len() == n || (n > 0 && slash(root[n - 1])) || slash(path[n])
}

/// Whether `path` is `root` or lies below it, whatever the case and the separators.
pub fn path_is_under_ci(path: &str, root: &str) -> (r: bool)
    ensures
        r == under_ci(path@, root@),
{
    if path.is_ascii() && root.is_ascii() {
        bytes_under(path.as_bytes(), root.as_bytes())
    } else {
        let p = crate::text::to_lowercase(path);
        let q = crate::text::to_lowercase(root);
        bytes_under(p.as_str().as_bytes(), q.as_str().as_bytes())
    }
}

/// What lies under a root lies under every root above it.
pub proof fn law_roots_nest(path: Seq<char>, inner: Seq<char>, outer: Seq<char>)
    requires
        under(path, inner),
        under(inner, outer),
    ensures
        under(path, outer),
{
    assert(inner.subrange(0, outer.len() as int) =~= path.subrange(0, outer.len() as int));
}

/// The same whatever the case and the separators, for plain ASCII paths.
pub proof fn law_roots_nest_whatever_the_case(
    path: Seq<char>,
    inner: Seq<char>,
    outer: Seq<char>,
)
    requires
        vstd::utf8::is_ascii_chars(path),
        vstd::utf8::is_ascii_chars(inner),
        vstd::utf8::is_ascii_chars(outer),
        under_ci(path, inner),
        under_ci(inner, outer),
    ensures
        under_ci(path, outer),
{
    let p = vstd::utf8::encode_utf8(path);
    let q = vstd::utf8::encode_utf8(inner);
    let r = vstd::utf8::encode_utf8(outer);
    assert forall|i: int| 0 <= i < r.len() implies alike(#[trigger] p[i], r[i]) by {
        assert(alike(q[i], r[i]));
        assert(alike(p[i], q[i]));
    }
    if p.len() != r.len() && !slash_byte(r.last()) && q.len() != r.len() {
        assert(alike(p[r.len() as int], q[r.len() as int]));
    }
}

/// A longer name beside a root is not under it.
pub proof fn law_siblings_stay_out(root: Seq<char>, c: char, rest: Seq<char>)
    requires
        root.len() > 0,
        !is_slash(root.last()),
        !is_slash(c),
    ensures
        !under(root.push(c) + rest, root),
{
    let path = root.push(c) + rest;
    assert(path[root.len() as int] == c);
}

/// A root contains itself and whatever follows it behind a separator.
pub proof fn law_descendants_are_under(root: Seq<char>, rest: Seq<char>)
    ensures
        under(root, root),
        under(root.push('/') + rest, root),
{
    let path = root.push('/') + rest;
    assert(root.is_prefix_of(path));
    assert(path[root.len() as int] == '/');
}

} // verus!
