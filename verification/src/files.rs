//! The names of the files beside an index.

use crate::host::Host;
use crate::text::Separator;
use vstd::prelude::*;

verus! {

/// The path without the separators and the lone dots behind its last name. In a verbatim path
/// of Windows a lone dot is kept, and is no name.
pub open spec fn to_last_name(p: Seq<char>, sep: Separator) -> Seq<char>
    decreases p.len(),
{
    if p.len() > 0 && sep.has(p.last()) {
        to_last_name(p.drop_last(), sep)
    } else if p.len() >= 2 && p.last() == '.' && sep.has(p[p.len() - 2]) && !sep.is_verbatim() {
        to_last_name(p.drop_last(), sep)
    } else {
        p
    }
}

/// Where the last name of a path begins.
pub open spec fn name_start(p: Seq<char>, sep: Separator) -> int
    decreases p.len(),
{
    if p.len() == 0 || sep.has(p.last()) {
        p.len() as int
    } else {
        name_start(p.drop_last(), sep)
    }
}

/// A path without a prefix, with another extension. A path without a last name stays as it
/// is, and a dot in front of a name begins no extension.
pub open spec fn extended(path: Seq<char>, sep: Separator, extension: Seq<char>) -> Seq<char> {
    let p = to_last_name(path, sep);
    let name = p.skip(name_start(p, sep));
    let dot = crate::text::last_index(name, '.');
    if name.len() == 0 || name == seq!['.'] || name == seq!['.', '.'] {
        path
    } else if dot > 0 {
        p.take(name_start(p, sep) + dot).push('.') + extension
    } else {
        p.push('.') + extension
    }
}

/// The path with another extension.
pub open spec fn with_extension(host: Host, path: Seq<char>, extension: Seq<char>) -> Seq<char> {
    crate::host::written_prefix(host, path) + extended(
        crate::host::unprefixed(host, path),
        crate::host::separator_of(host, path),
        extension,
    )
}

/// Where the last name of a path ends.
pub fn last_name_end(p: &[char], sep: Separator) -> (n: usize)
    ensures
        n <= p@.len(),
        p@.take(n as int) == to_last_name(p@, sep),
{
    let mut n: usize = p.len();
    assert(p@.take(n as int) =~= p@);
    let mut going: bool = true;
    while going
        invariant
            n <= p@.len(),
            to_last_name(p@.take(n as int), sep) == to_last_name(p@, sep),
            !going ==> to_last_name(p@.take(n as int), sep) == p@.take(n as int),
        decreases n, (if going { 1int } else { 0int }),
    {
        assert(n > 0 ==> p@.take(n as int).drop_last() =~= p@.take(n - 1));
        if n > 0 && sep.test(p[n - 1]) {
            n -= 1;
        } else if n >= 2 && p[n - 1] == '.' && sep.test(p[n - 2]) && !sep.verbatim() {
            n -= 1;
        } else {
            going = false;
        }
    }
    n
}

/// Where the last name of a path begins.
pub fn last_name_start(p: &[char], sep: Separator) -> (n: usize)
    ensures
        n <= p@.len(),
        n == name_start(p@, sep),
{
    let mut n: usize = p.len();
    assert(p@.take(n as int) =~= p@);
    while n > 0 && !sep.test(p[n - 1])
        invariant
            n <= p@.len(),
            name_start(p@.take(n as int), sep) == name_start(p@, sep),
        decreases n,
    {
        assert(p@.take(n as int).drop_last() =~= p@.take(n - 1));
        n -= 1;
    }
    n
}

fn put_extension(path: &[char], sep: Separator, extension: &str) -> (out: Vec<char>)
    ensures
        out@ == extended(path@, sep, extension@),
{
    let end: usize = last_name_end(path, sep);
    let p = crate::text::part(path, 0, end);
    let ghost q = to_last_name(path@, sep);
    assert(p@ =~= q);
    let start: usize = last_name_start(p.as_slice(), sep);
    let name = crate::text::part(p.as_slice(), start, p.len());
    assert(name@ =~= q.skip(name_start(q, sep)));
    let plain: bool = name.len() == 0 || (name.len() == 1 && name[0] == '.') || (name.len() == 2
        && name[0] == '.' && name[1] == '.');
    proof {
        if name@.len() == 1 && name@[0] == '.' {
            assert(name@ =~= seq!['.']);
        }
        if name@.len() == 2 && name@[0] == '.' && name@[1] == '.' {
            assert(name@ =~= seq!['.', '.']);
        }
    }
    if plain {
        let same = crate::text::part(path, 0, path.len());
        assert(same@ =~= path@);
        return same;
    }
    let keep: usize = match crate::text::rfind(name.as_slice(), '.') {
        Some(d) if d > 0 => start + d,
        _ => end,
    };
    let mut out = crate::text::part(p.as_slice(), 0, keep);
    out.push('.');
    let ext = crate::text::chars_of(extension);
    crate::text::push_all(&mut out, ext.as_slice());
    proof {
        crate::text::lemma_last_index(name@, '.');
        assert(out@ =~= extended(path@, sep, extension@));
    }
    out
}

/// Puts another extension to a path.
pub fn set_extension(host: Host, path: &str, extension: &str) -> (r: String)
    ensures
        r@ == with_extension(host, path@, extension@),
{
    let chars = crate::text::chars_of(path);
    let (front, rest, sep): (Vec<char>, Vec<char>, Separator) = crate::host::without_prefix(
        host,
        chars.as_slice(),
    );
    let tail = put_extension(rest.as_slice(), sep, extension);
    let mut out = front;
    crate::text::push_all(&mut out, tail.as_slice());
    assert(out@ =~= with_extension(host, path@, extension@));
    crate::text::string_of(out.as_slice())
}

/// The log of an index.
pub fn delta_path(host: Host, base: &str) -> (r: String)
    ensures
        r@ == with_extension(host, base@, "delta"@),
{
    set_extension(host, base, "delta")
}

/// The staged replacement of an index.
pub fn compaction_stage(base: &str) -> (r: String)
    ensures
        r@ == base@ + ".compact"@,
{
    crate::text::joined(base, ".compact")
}

/// The marker of a running compaction.
pub fn compaction_marker(base: &str) -> (r: String)
    ensures
        r@ == base@ + ".compacting"@,
{
    crate::text::joined(base, ".compacting")
}

/// The marker of a running compaction while it is written.
pub fn compaction_marker_temp(base: &str) -> (r: String)
    ensures
        r@ == base@ + ".compacting.new"@,
{
    crate::text::joined(base, ".compacting.new")
}

/// The marker that forbids the use of an index.
pub fn stale_marker(base: &str) -> (r: String)
    ensures
        r@ == base@ + ".stale"@,
{
    crate::text::joined(base, ".stale")
}

/// The lock of the writer of a log.
pub fn lock_path(host: Host, base: &str) -> (r: String)
    ensures
        r@ == with_extension(host, base@, "delta"@) + ".lock"@,
{
    let d = delta_path(host, base);
    crate::text::joined(d.as_str(), ".lock")
}

/// The files beside an index that its own writer changes.
pub open spec fn own_files(host: Host, base: Seq<char>) -> Seq<Seq<char>> {
    seq![
        base,
        with_extension(host, base, "delta"@),
        with_extension(host, base, "delta"@) + ".lock"@,
        base + ".new"@,
        base + ".compact"@,
        base + ".compact"@ + ".new"@,
        base + ".compacting"@,
        base + ".compacting.new"@,
        base + ".stale"@,
        base + ".stale"@ + ".new"@,
    ]
}

/// The files that a watch has to leave out: writing them would be an event of its own.
pub fn watch_exclusions(host: Host, base: &str) -> (r: Vec<String>)
    ensures
        crate::text::strings(r@) == own_files(host, base@),
{
    let staged = compaction_stage(base);
    let stale = stale_marker(base);
    let mut out: Vec<String> = Vec::new();
    out.push(base.to_owned());
    out.push(delta_path(host, base));
    out.push(lock_path(host, base));
    out.push(crate::text::joined(base, ".new"));
    let staged_new = crate::text::joined(staged.as_str(), ".new");
    out.push(staged);
    out.push(staged_new);
    out.push(compaction_marker(base));
    out.push(compaction_marker_temp(base));
    let stale_new = crate::text::joined(stale.as_str(), ".new");
    out.push(stale);
    out.push(stale_new);
    assert(crate::text::strings(out@) =~= own_files(host, base@));
    out
}

/// How much of a reason a stale marker holds.
pub const STALE_REASON_BYTES: usize = 4096;

/// The content of a stale marker.
pub fn stale_reason(reason: &str) -> (r: Vec<u8>)
    ensures
        r@ == vstd::utf8::encode_utf8(reason@).take(
            if vstd::utf8::encode_utf8(reason@).len() < STALE_REASON_BYTES {
                vstd::utf8::encode_utf8(reason@).len() as int
            } else {
                STALE_REASON_BYTES as int
            },
        ),
{
    let b = reason.as_bytes();
    let n: usize = if b.len() < STALE_REASON_BYTES {
        b.len()
    } else {
        STALE_REASON_BYTES
    };
    let r = crate::bytes::to_vec(vstd::slice::slice_subrange(b, 0, n));
    assert(r@ =~= b@.take(n as int));
    r
}

} // verus!
