//! Paths as the host compares them.

use crate::text::Separator;
use vstd::prelude::*;

verus! {

/// The operating system that paths belong to.
#[derive(Debug, Clone, Copy, PartialEq, Eq, Structural)]
pub enum Host {
    Linux,
    MacOs,
    Windows,
}

impl Host {
    /// Whether names that differ in case are different names.
    pub open spec fn cased(self) -> bool {
        self == Host::Linux
    }

    /// Whether names that differ in case are different names.
    pub fn case_sensitive(self) -> (r: bool)
        ensures
            r == self.cased(),
    {
        match self {
            Host::Linux => true,
            _ => false,
        }
    }
}

// ---------------------------------------------------------------------------
// What Windows paths begin with

/// What stands in front of the first separator.
pub open spec fn up_to(s: Seq<char>, sep: Separator) -> Seq<char> {
    s.take(crate::text::first_index(s, sep))
}

/// What stands behind the first separator.
pub open spec fn past(s: Seq<char>, sep: Separator) -> Seq<char> {
    if crate::text::first_index(s, sep) < s.len() {
        s.skip(crate::text::first_index(s, sep) + 1)
    } else {
        Seq::empty()
    }
}

/// What a Windows path begins with: a drive, a share or a device.
#[verifier::ext_equal]
pub struct PrefixView {
    /// How it is compared: by its kind, and then by its names.
    pub token: Seq<char>,
    /// What follows it.
    pub rest: Seq<char>,
    /// Backslashes alone separate, and dots are names.
    pub verbatim: bool,
    /// It is a bare drive, which does not make a path absolute.
    pub drive: bool,
}

/// A drive name in upper case; other names stay.
pub open spec fn drive_or_name(name: Seq<char>) -> (bool, Seq<char>) {
    if name.len() == 2 && crate::text::is_letter(name[0]) && name[1] == ':' {
        (true, seq![crate::text::ascii_upper(name[0]), ':'])
    } else {
        (false, name)
    }
}

/// What a Windows path begins with; none where it has no drive, share or device. `\\\\?\\` in
/// front takes what follows verbatim.
pub open spec fn windows_prefix(p: Seq<char>) -> Option<PrefixView> {
    let slash = Separator::Slash;
    let back = Separator::Char('\\');
    if p.len() >= 2 && slash.has(p[0]) && slash.has(p[1]) {
        let q = p.skip(2);
        if "\\\\?\\"@.is_prefix_of(p) {
            let r = p.skip(4);
            if "UNC\\"@.is_prefix_of(r) {
                let t = r.skip(4);
                let u = past(t, back);
                Some(
                    PrefixView {
                        token: seq!['\\', '2'] + up_to(t, back) + seq!['\0'] + up_to(u, back),
                        rest: past(u, back),
                        verbatim: true,
                        drive: false,
                    },
                )
            } else {
                let (is_drive, name) = drive_or_name(up_to(r, back));
                Some(
                    PrefixView {
                        token: seq![
                            '\\',
                            if is_drive {
                                '3'
                            } else {
                                '1'
                            },
                        ] + name,
                        rest: past(r, back),
                        verbatim: true,
                        drive: false,
                    },
                )
            }
        } else if q.len() >= 2 && q[0] == '.' && slash.has(q[1]) {
            let r = q.skip(2);
            Some(
                PrefixView {
                    token: seq!['\\', '4'] + up_to(r, slash),
                    rest: past(r, slash),
                    verbatim: false,
                    drive: false,
                },
            )
        } else {
            let server = up_to(q, slash);
            let u = past(q, slash);
            let share = up_to(u, slash);
            if server.len() > 0 && share.len() > 0 {
                Some(
                    PrefixView {
                        token: seq!['\\', '5'] + server + seq!['\0'] + share,
                        rest: past(u, slash),
                        verbatim: false,
                        drive: false,
                    },
                )
            } else {
                None
            }
        }
    } else if p.len() >= 2 && crate::text::is_letter(p[0]) && p[1] == ':' {
        Some(
            PrefixView {
                token: seq!['\\', '6', crate::text::ascii_upper(p[0]), ':'],
                rest: p.skip(2),
                verbatim: false,
                drive: true,
            },
        )
    } else {
        None
    }
}

struct Prefix {
    token: Vec<char>,
    rest: Vec<char>,
    verbatim: bool,
    drive: bool,
}

impl View for Prefix {
    type V = PrefixView;

    closed spec fn view(&self) -> PrefixView {
        PrefixView {
            token: self.token@,
            rest: self.rest@,
            verbatim: self.verbatim,
            drive: self.drive,
        }
    }
}

/// Cuts a text at the first separator.
fn cut(s: &[char], sep: Separator) -> (r: (Vec<char>, Vec<char>))
    ensures
        r.0@ == up_to(s@, sep),
        r.1@ == past(s@, sep),
{
    let n: usize = crate::text::find_first(s, sep);
    let head = crate::text::part(s, 0, n);
    assert(head@ =~= up_to(s@, sep));
    if n < s.len() {
        let tail = crate::text::part(s, n + 1, s.len());
        assert(tail@ =~= past(s@, sep));
        (head, tail)
    } else {
        let tail: Vec<char> = Vec::new();
        assert(tail@ =~= past(s@, sep));
        (head, tail)
    }
}

/// A kind and two names, one behind the other.
fn tokened(kind: char, name: &[char], second: Option<&[char]>) -> (r: Vec<char>)
    ensures
        r@ == match second {
            Some(t) => seq!['\\', kind] + name@ + seq!['\0'] + t@,
            None => seq!['\\', kind] + name@,
        },
{
    let mut out: Vec<char> = Vec::new();
    out.push('\\');
    out.push(kind);
    crate::text::push_all(&mut out, name);
    if let Some(t) = second {
        out.push('\0');
        crate::text::push_all(&mut out, t);
        assert(out@ =~= seq!['\\', kind] + name@ + seq!['\0'] + t@);
    } else {
        assert(out@ =~= seq!['\\', kind] + name@);
    }
    out
}

fn verbatim_prefix(r: &[char]) -> (x: Prefix)
    ensures
        forall|p: Seq<char>|
            "\\\\?\\"@.is_prefix_of(p) && #[trigger] p.skip(4) == r@ ==> windows_prefix(p) == Some(
                x@,
            ),
{
    let back = Separator::Char('\\');
    proof {
        reveal_strlit("\\\\?\\");
        reveal_strlit("UNC\\");
        assert forall|p: Seq<char>| "\\\\?\\"@.is_prefix_of(p) && #[trigger] p.skip(4) == r@ implies p[0]
            == '\\' && p[1] == '\\' by {
            assert(p.take(4)[0] == p[0] && p.take(4)[1] == p[1]);
        }
    }
    if crate::text::begins(r, "UNC\\") {
        let t = crate::text::part(r, 4, r.len());
        assert(t@ =~= r@.skip(4));
        let (server, u): (Vec<char>, Vec<char>) = cut(t.as_slice(), back);
        let (share, rest): (Vec<char>, Vec<char>) = cut(u.as_slice(), back);
        let token = tokened('2', server.as_slice(), Some(share.as_slice()));
        Prefix { token, rest, verbatim: true, drive: false }
    } else {
        let (name, rest): (Vec<char>, Vec<char>) = cut(r, back);
        if name.len() == 2 && crate::text::letter(name[0]) && name[1] == ':' {
            let drive: Vec<char> = vec![crate::text::upper(name[0]), ':'];
            assert(drive@ =~= drive_or_name(name@).1);
            let token = tokened('3', drive.as_slice(), None);
            Prefix { token, rest, verbatim: true, drive: false }
        } else {
            let token = tokened('1', name.as_slice(), None);
            Prefix { token, rest, verbatim: true, drive: false }
        }
    }
}

/// What a Windows path begins with.
fn prefix_of(p: &[char]) -> (r: Option<Prefix>)
    ensures
        match r {
            Some(x) => windows_prefix(p@) == Some(x@),
            None => windows_prefix(p@) is None,
        },
{
    let slash = Separator::Slash;
    let n: usize = p.len();
    if n >= 2 && slash.test(p[0]) && slash.test(p[1]) {
        if crate::text::begins(p, "\\\\?\\") {
            proof {
                reveal_strlit("\\\\?\\");
            }
            let r = crate::text::part(p, 4, n);
            assert(r@ =~= p@.skip(4));
            return Some(verbatim_prefix(r.as_slice()));
        }
        let q = crate::text::part(p, 2, n);
        assert(q@ =~= p@.skip(2));
        if q.len() >= 2 && q[0] == '.' && slash.test(q[1]) {
            let r = crate::text::part(q.as_slice(), 2, q.len());
            assert(r@ =~= q@.skip(2));
            let (name, rest): (Vec<char>, Vec<char>) = cut(r.as_slice(), slash);
            let token = tokened('4', name.as_slice(), None);
            return Some(Prefix { token, rest, verbatim: false, drive: false });
        }
        let (server, u): (Vec<char>, Vec<char>) = cut(q.as_slice(), slash);
        let (share, rest): (Vec<char>, Vec<char>) = cut(u.as_slice(), slash);
        if server.len() > 0 && share.len() > 0 {
            let token = tokened('5', server.as_slice(), Some(share.as_slice()));
            return Some(Prefix { token, rest, verbatim: false, drive: false });
        }
        None
    } else if n >= 2 && crate::text::letter(p[0]) && p[1] == ':' {
        let drive: Vec<char> = vec![crate::text::upper(p[0]), ':'];
        let token = tokened('6', drive.as_slice(), None);
        assert(token@ =~= seq!['\\', '6', crate::text::ascii_upper(p@[0]), ':']);
        let rest = crate::text::part(p, 2, n);
        assert(rest@ =~= p@.skip(2));
        Some(Prefix { token, rest, verbatim: false, drive: true })
    } else {
        None
    }
}

/// What follows the prefix of a path.
pub open spec fn unprefixed(host: Host, p: Seq<char>) -> Seq<char> {
    if host == Host::Windows && windows_prefix(p) is Some {
        windows_prefix(p)->0.rest
    } else {
        p
    }
}

/// The prefix of a path as it is written, with the separator behind a share or a device.
pub open spec fn written_prefix(host: Host, p: Seq<char>) -> Seq<char> {
    p.take(p.len() - unprefixed(host, p).len())
}

/// What separates the names of a path.
pub open spec fn separator_of(host: Host, p: Seq<char>) -> Separator {
    if host != Host::Windows {
        Separator::Char('/')
    } else if windows_prefix(p) is Some && windows_prefix(p)->0.verbatim {
        Separator::Char('\\')
    } else {
        Separator::Slash
    }
}

/// What is put between names.
pub open spec fn joint(host: Host) -> char {
    if host == Host::Windows {
        '\\'
    } else {
        '/'
    }
}

/// What is put between names.
pub fn joint_of(host: Host) -> (r: char)
    ensures
        r == joint(host),
{
    match host {
        Host::Windows => '\\',
        _ => '/',
    }
}

/// What follows a prefix is no longer than the path.
pub proof fn lemma_unprefixed_fits(host: Host, p: Seq<char>)
    ensures
        unprefixed(host, p).len() <= p.len(),
{
    reveal_strlit("\\\\?\\");
    reveal_strlit("UNC\\");
    let slash = Separator::Slash;
    let back = Separator::Char('\\');
    if p.len() >= 2 {
        let q = p.skip(2);
        crate::text::lemma_first_index(q, slash);
        crate::text::lemma_first_index(past(q, slash), slash);
        if q.len() >= 2 {
            let r = q.skip(2);
            assert(r =~= p.skip(4));
            crate::text::lemma_first_index(r, slash);
            crate::text::lemma_first_index(r, back);
            if r.len() >= 4 {
                let t = r.skip(4);
                crate::text::lemma_first_index(t, back);
                crate::text::lemma_first_index(past(t, back), back);
            }
        }
    }
}

/// A path in two: its prefix as it is written, and what follows; and what separates its names.
pub fn without_prefix(host: Host, p: &[char]) -> (r: (Vec<char>, Vec<char>, Separator))
    ensures
        r.0@ == written_prefix(host, p@),
        r.1@ == unprefixed(host, p@),
        r.2 == separator_of(host, p@),
{
    proof {
        lemma_unprefixed_fits(host, p@);
    }
    if let Host::Windows = host {
        if let Some(x) = prefix_of(p) {
            let front = crate::text::part(p, 0, p.len() - x.rest.len());
            assert(front@ =~= written_prefix(host, p@));
            let sep = if x.verbatim {
                Separator::Char('\\')
            } else {
                Separator::Slash
            };
            return (front, x.rest, sep);
        }
        let none: Vec<char> = Vec::new();
        let whole = crate::text::part(p, 0, p.len());
        assert(whole@ =~= p@);
        assert(none@ =~= written_prefix(host, p@));
        return (none, whole, Separator::Slash);
    }
    let none: Vec<char> = Vec::new();
    let whole = crate::text::part(p, 0, p.len());
    assert(whole@ =~= p@);
    assert(none@ =~= written_prefix(host, p@));
    (none, whole, Separator::Char('/'))
}

/// The path is absolute on the host. On Windows it names a share or a device, or goes from
/// the top of a drive.
pub open spec fn host_absolute(host: Host, p: Seq<char>) -> bool {
    if host == Host::Windows {
        match windows_prefix(p) {
            Some(x) => !x.drive || (x.rest.len() > 0 && crate::scope::is_slash(x.rest[0])),
            None => false,
        }
    } else {
        p.len() > 0 && p[0] == '/'
    }
}

/// Whether the path is absolute on the host.
pub fn is_absolute(host: Host, p: &[char]) -> (r: bool)
    ensures
        r == host_absolute(host, p@),
{
    match host {
        Host::Windows => match prefix_of(p) {
            Some(x) => !x.drive || (x.rest.len() > 0 && (x.rest[0] == '/' || x.rest[0] == '\\')),
            None => false,
        },
        _ => p.len() > 0 && p[0] == '/',
    }
}

// ---------------------------------------------------------------------------
// Components

/// A part of a path that names something: not empty and no lone dot.
pub open spec fn is_named(part: Seq<char>) -> bool {
    part.len() > 0 && part != seq!['.']
}

/// The named parts among some.
pub open spec fn named(parts: Seq<Seq<char>>) -> Seq<Seq<char>>
    decreases parts.len(),
{
    if parts.len() == 0 {
        Seq::empty()
    } else if is_named(parts.last()) {
        named(parts.drop_last()).push(parts.last())
    } else {
        named(parts.drop_last())
    }
}

/// The components of a path without a prefix: its top where it begins with a separator, a dot
/// where it begins with one, and the names between the separators.
pub open spec fn headed_parts(p: Seq<char>, sep: Separator) -> Seq<Seq<char>> {
    let parts = crate::text::split(p, sep);
    let head = if p.len() > 0 && sep.has(p[0]) {
        seq![seq!['/']]
    } else if parts.len() > 0 && parts[0] == seq!['.'] {
        seq![seq!['.']]
    } else {
        Seq::empty()
    };
    head + named(parts)
}

/// The components of a path. A path of Windows may begin with a prefix; shares and devices
/// have a top of their own.
pub open spec fn path_parts(host: Host, p: Seq<char>) -> Seq<Seq<char>> {
    if host == Host::Windows {
        match windows_prefix(p) {
            Some(x) => seq![x.token] + if x.drive {
                headed_parts(x.rest, Separator::Slash)
            } else if x.verbatim {
                seq![seq!['/']] + crate::text::words(x.rest, Separator::Char('\\'))
            } else {
                seq![seq!['/']] + named(crate::text::split(x.rest, Separator::Slash))
            },
            None => headed_parts(p, Separator::Slash),
        }
    } else {
        headed_parts(p, Separator::Char('/'))
    }
}

/// Two paths with the same components.
pub open spec fn same_path(host: Host, a: Seq<char>, b: Seq<char>) -> bool {
    path_parts(host, a) == path_parts(host, b)
}

/// The components of `path` begin with those of `root`.
pub open spec fn path_starts_with(host: Host, path: Seq<char>, root: Seq<char>) -> bool {
    path_parts(host, root).is_prefix_of(path_parts(host, path))
}

fn dot(part: &[char]) -> (r: bool)
    ensures
        r == (part@ == seq!['.']),
{
    let r: bool = part.len() == 1 && part[0] == '.';
    proof {
        if r {
            assert(part@ =~= seq!['.']);
        }
    }
    r
}

/// Appends the named parts among some.
fn push_named(out: &mut Vec<Vec<char>>, parts: Vec<Vec<char>>)
    ensures
        crate::text::texts(final(out)@) == crate::text::texts(old(out)@) + named(
            crate::text::texts(parts@),
        ),
{
    let ghost head = crate::text::texts(out@);
    let ghost all = crate::text::texts(parts@);
    proof {
        assert(all.take(0) =~= Seq::empty());
        assert(head + named(all.take(0)) =~= head);
    }
    let mut i: usize = 0;
    while i < parts.len()
        invariant
            i <= parts@.len(),
            all == crate::text::texts(parts@),
            crate::text::texts(out@) == head + named(all.take(i as int)),
        decreases parts@.len() - i,
    {
        let ghost had = crate::text::texts(out@);
        proof {
            assert(all.take(i + 1).drop_last() =~= all.take(i as int));
            assert(all[i as int] == parts@[i as int]@);
        }
        if parts[i].len() > 0 && !dot(parts[i].as_slice()) {
            let part = crate::text::part(parts[i].as_slice(), 0, parts[i].len());
            assert(part@ =~= all[i as int]);
            out.push(part);
            proof {
                assert(crate::text::texts(out@) =~= had.push(all[i as int]));
                assert(head + named(all.take(i + 1)) =~= (head + named(all.take(i as int))).push(
                    all[i as int],
                ));
            }
        }
        i += 1;
    }
    assert(all.take(i as int) =~= all);
}

/// Appends the components of a path without a prefix.
fn push_headed(out: &mut Vec<Vec<char>>, p: &[char], sep: Separator)
    ensures
        crate::text::texts(final(out)@) == crate::text::texts(old(out)@) + headed_parts(p@, sep),
{
    let ghost start = crate::text::texts(out@);
    let parts = crate::text::split_chars(p, sep);
    let ghost all = crate::text::split(p@, sep);
    proof {
        assert(parts@.len() > 0 ==> all[0] == parts@[0]@);
    }
    if p.len() > 0 && sep.test(p[0]) {
        let top: Vec<char> = vec!['/'];
        assert(top@ =~= seq!['/']);
        out.push(top);
        assert(crate::text::texts(out@) =~= start + seq![seq!['/']]);
    } else if parts.len() > 0 && dot(parts[0].as_slice()) {
        let here: Vec<char> = vec!['.'];
        assert(here@ =~= seq!['.']);
        out.push(here);
        assert(crate::text::texts(out@) =~= start + seq![seq!['.']]);
    } else {
        assert(start =~= start + Seq::<Seq<char>>::empty());
    }
    let ghost head = crate::text::texts(out@);
    push_named(out, parts);
    assert(head + named(all) =~= start + headed_parts(p@, sep));
}

/// The components of a path.
pub fn parts_of(host: Host, p: &[char]) -> (r: Vec<Vec<char>>)
    ensures
        crate::text::texts(r@) == path_parts(host, p@),
{
    let mut out: Vec<Vec<char>> = Vec::new();
    let ghost none = Seq::<Seq<char>>::empty();
    assert(crate::text::texts(out@) =~= none);
    match host {
        Host::Windows => match prefix_of(p) {
            Some(x) => {
                let ghost v = x@;
                let Prefix { token, rest, verbatim, drive } = x;
                out.push(token);
                assert(crate::text::texts(out@) =~= seq![v.token]);
                if drive {
                    push_headed(&mut out, rest.as_slice(), Separator::Slash);
                } else {
                    let top: Vec<char> = vec!['/'];
                    assert(top@ =~= seq!['/']);
                    out.push(top);
                    let ghost head = seq![v.token] + seq![seq!['/']];
                    assert(crate::text::texts(out@) =~= head);
                    if verbatim {
                        let mut names = crate::text::split_words(
                            rest.as_slice(),
                            Separator::Char('\\'),
                        );
                        let ghost ws = crate::text::texts(names@);
                        let ghost was = out@;
                        let ghost more = names@;
                        out.append(&mut names);
                        assert(crate::text::texts(out@) =~= head + ws);
                        assert(head + ws =~= seq![v.token] + (seq![seq!['/']] + ws));
                    } else {
                        let parts = crate::text::split_chars(rest.as_slice(), Separator::Slash);
                        let ghost ps = named(crate::text::texts(parts@));
                        push_named(&mut out, parts);
                        assert(head + ps =~= seq![v.token] + (seq![seq!['/']] + ps));
                    }
                }
            },
            None => {
                push_headed(&mut out, p, Separator::Slash);
                assert(none + headed_parts(p@, Separator::Slash) =~= headed_parts(
                    p@,
                    Separator::Slash,
                ));
            },
        },
        _ => {
            push_headed(&mut out, p, Separator::Char('/'));
            assert(none + headed_parts(p@, Separator::Char('/')) =~= headed_parts(
                p@,
                Separator::Char('/'),
            ));
        },
    }
    out
}

/// Whether the components of `path` begin with those of `root`.
pub fn begins_with(host: Host, path: &[char], root: &[char]) -> (r: bool)
    ensures
        r == path_starts_with(host, path@, root@),
{
    let p = parts_of(host, path);
    let q = parts_of(host, root);
    let ghost a = path_parts(host, path@);
    let ghost b = path_parts(host, root@);
    if q.len() > p.len() {
        return false;
    }
    let mut i: usize = 0;
    while i < q.len()
        invariant
            i <= q@.len() <= p@.len(),
            a == crate::text::texts(p@),
            b == crate::text::texts(q@),
            a == path_parts(host, path@),
            b == path_parts(host, root@),
            forall|k: int| 0 <= k < i ==> a[k] == b[k],
        decreases q@.len() - i,
    {
        proof {
            assert(a[i as int] == p@[i as int]@);
            assert(b[i as int] == q@[i as int]@);
        }
        if !crate::text::same_chars(p[i].as_slice(), q[i].as_slice()) {
            proof {
                assert(a.subrange(0, b.len() as int)[i as int] != b[i as int]);
            }
            return false;
        }
        i += 1;
    }
    assert(a.subrange(0, b.len() as int) =~= b);
    true
}

/// Whether two paths have the same components.
pub fn same(host: Host, a: &str, b: &str) -> (r: bool)
    ensures
        r == same_path(host, a@, b@),
{
    let p = crate::text::chars_of(a);
    let q = crate::text::chars_of(b);
    let r: bool = begins_with(host, p.as_slice(), q.as_slice())
        && begins_with(host, q.as_slice(), p.as_slice());
    proof {
        if r {
            assert(path_parts(host, a@) =~= path_parts(host, b@));
        } else if path_parts(host, a@) == path_parts(host, b@) {
            assert(path_parts(host, b@).is_prefix_of(path_parts(host, a@)));
        }
    }
    r
}

/// A path as it is compared: with forward slashes, and in lower case where the host does
/// not tell cases apart.
pub open spec fn portable(host: Host, p: Seq<char>) -> Seq<char> {
    let r = crate::text::replace_char(p, '\\', '/');
    if host.cased() {
        r
    } else {
        crate::text::ascii_lower_all(r)
    }
}

/// A path as it is compared.
pub fn to_portable(host: Host, p: &str) -> (r: Vec<char>)
    ensures
        r@ == portable(host, p@),
{
    let chars = crate::text::chars_of(p);
    let r = crate::text::replaced(chars.as_slice(), '\\', '/');
    if host.case_sensitive() {
        r
    } else {
        crate::text::lowered(r.as_slice())
    }
}

/// A drive letter, a colon and a slash.
pub open spec fn is_drive_root(p: Seq<char>) -> bool {
    p.len() == 3 && crate::text::is_letter(p[0]) && p[1] == ':' && p[2] == '/'
}

/// Whether the text is a drive letter, a colon and a slash.
pub fn is_windows_drive_root(p: &[char]) -> (r: bool)
    ensures
        r == is_drive_root(p@),
{
    p.len() == 3 && crate::text::letter(p[0]) && p[1] == ':' && p[2] == '/'
}

/// A root without the slashes behind it; the top and a drive keep theirs.
pub open spec fn bare_root(r: Seq<char>) -> Seq<char>
    decreases r.len(),
{
    if r.len() > 1 && r.last() == '/' && !is_drive_root(r) {
        bare_root(r.drop_last())
    } else {
        r
    }
}

/// `path` is `root` or lies below it.
pub open spec fn in_root(host: Host, path: Seq<char>, root: Seq<char>) -> bool {
    let p = portable(host, path);
    let r = bare_root(portable(host, root));
    p == r || (r.is_prefix_of(p) && ((r.len() > 0 && r.last() == '/') || (p.len() > r.len()
        && p[r.len() as int] == '/')))
}

/// Whether `path` is `root` or lies below it.
pub fn portable_path_in_root(host: Host, path: &str, root: &str) -> (r: bool)
    ensures
        r == in_root(host, path@, root@),
{
    let p = to_portable(host, path);
    let mut q = to_portable(host, root);
    while q.len() > 1 && q[q.len() - 1] == '/' && !is_windows_drive_root(q.as_slice())
        invariant
            bare_root(q@) == bare_root(portable(host, root@)),
        decreases q@.len(),
    {
        let ghost was = q@;
        q.pop();
        assert(q@ =~= was.drop_last());
    }
    let n: usize = q.len();
    if crate::text::same_chars(p.as_slice(), q.as_slice()) {
        return true;
    }
    if !crate::text::starts_with(p.as_slice(), q.as_slice()) {
        return false;
    }
    (n > 0 && q[n - 1] == '/') || (p.len() > n && p[n] == '/')
}

/// Two paths that differ at most in separators, slashes behind them and, where the host
/// does not tell cases apart, in case.
pub open spec fn same_portable(host: Host, a: Seq<char>, b: Seq<char>) -> bool {
    crate::text::trim_end(portable(host, a), Separator::Char('/')) == crate::text::trim_end(
        portable(host, b),
        Separator::Char('/'),
    )
}

/// Whether two paths are the same for the host.
pub fn same_portable_path(host: Host, a: &str, b: &str) -> (r: bool)
    ensures
        r == same_portable(host, a@, b@),
{
    let p = to_portable(host, a);
    let q = to_portable(host, b);
    let m: usize = crate::text::end_run(p.as_slice(), Separator::Char('/'));
    let n: usize = crate::text::end_run(q.as_slice(), Separator::Char('/'));
    let x = crate::text::part(p.as_slice(), 0, m);
    let y = crate::text::part(q.as_slice(), 0, n);
    proof {
        assert(x@ =~= p@.take(m as int));
        assert(y@ =~= q@.take(n as int));
    }
    crate::text::same_chars(x.as_slice(), y.as_slice())
}

/// A mount point as Windows compares it.
pub open spec fn windows_point(p: Seq<char>) -> Seq<char> {
    crate::text::ascii_lower_all(
        crate::text::trim_end(crate::text::replace_char(p, '/', '\\'), Separator::Char('\\')),
    )
}

/// Two names of one mount point.
pub open spec fn same_point(host: Host, a: Seq<char>, b: Seq<char>) -> bool {
    if host == Host::Windows {
        windows_point(a) == windows_point(b)
    } else {
        same_path(host, a, b)
    }
}

fn to_windows_point(p: &str) -> (r: Vec<char>)
    ensures
        r@ == windows_point(p@),
{
    let chars = crate::text::chars_of(p);
    let q = crate::text::replaced(chars.as_slice(), '/', '\\');
    let n: usize = crate::text::end_run(q.as_slice(), Separator::Char('\\'));
    let cut = crate::text::part(q.as_slice(), 0, n);
    assert(cut@ =~= q@.take(n as int));
    crate::text::lowered(cut.as_slice())
}

/// Whether two names are of one mount point.
pub fn same_mountpoint(host: Host, a: &str, b: &str) -> (r: bool)
    ensures
        r == same_point(host, a@, b@),
{
    match host {
        Host::Windows => {
            let x = to_windows_point(a);
            let y = to_windows_point(b);
            crate::text::same_chars(x.as_slice(), y.as_slice())
        },
        _ => same(host, a, b),
    }
}

/// A root contains itself.
pub proof fn law_roots_contain_themselves(host: Host, root: Seq<char>)
    requires
        bare_root(portable(host, root)) == portable(host, root),
    ensures
        in_root(host, root, root),
{
}

/// A longer name beside a root is not in it.
pub proof fn law_siblings_are_outside(host: Host, root: Seq<char>, c: char, rest: Seq<char>)
    requires
        root.len() > 0,
        !crate::scope::is_slash(root.last()),
        !crate::scope::is_slash(c),
    ensures
        !in_root(host, root.push(c) + rest, root),
{
    let path = root.push(c) + rest;
    let p = portable(host, path);
    let r = portable(host, root);
    assert(r.last() != '/');
    assert(bare_root(r) == r);
    assert(p[r.len() as int] != '/') by {
        assert(path[r.len() as int] == c);
    }
}

/// Whatever follows a root behind a slash is in it.
pub proof fn law_descendants_are_inside(host: Host, root: Seq<char>, rest: Seq<char>)
    requires
        root.len() > 0,
        !crate::scope::is_slash(root.last()),
    ensures
        in_root(host, root.push('/') + rest, root),
{
    let path = root.push('/') + rest;
    let p = portable(host, path);
    let r = portable(host, root);
    assert(r.last() != '/');
    assert(bare_root(r) == r);
    assert(r.is_prefix_of(p)) by {
        assert(p.subrange(0, r.len() as int) =~= r) by {
            assert forall|i: int| 0 <= i < r.len() implies p[i] == r[i] by {
                assert(path[i] == root[i]);
            }
        }
    }
    assert(p[r.len() as int] == '/') by {
        assert(path[r.len() as int] == '/');
    }
}

} // verus!
