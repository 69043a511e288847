//! Folder paths: one normal form for Unix paths, drives and network shares, with parents
//! and ancestors up to one root above all volumes.

use crate::host::Host;
use crate::text::Separator;
use vstd::prelude::*;

verus! {

/// A drive letter, a colon and a slash.
pub open spec fn on_drive(p: Seq<char>) -> bool {
    p.len() >= 3 && crate::text::is_letter(p[0]) && p[1] == ':' && p[2] == '/'
}

/// Two slashes in front: a network share.
pub open spec fn on_share(p: Seq<char>) -> bool {
    p.len() >= 2 && p[0] == '/' && p[1] == '/'
}

/// The components of a path with forward slashes.
pub open spec fn components(p: Seq<char>) -> Seq<Seq<char>> {
    crate::text::words(p, Separator::Char('/'))
}

/// A path with forward slashes, without empty components; a bare drive keeps its slash.
pub open spec fn tidy(path: Seq<char>) -> Seq<char> {
    let r = crate::text::replace_char(path, '\\', '/');
    let c = components(r);
    let body = crate::text::join(c, '/');
    if on_share(r) {
        seq!['/', '/'] + body
    } else if r.len() > 0 && r[0] == '/' {
        seq!['/'] + body
    } else if on_drive(r) && body.len() == 2 {
        body.push('/')
    } else if body.len() == 0 {
        seq!['/']
    } else {
        body
    }
}

/// The root above all volumes.
pub open spec fn top() -> Seq<char> {
    seq!['/']
}

/// A drive or a share itself.
pub open spec fn is_volume(p: Seq<char>) -> bool {
    if on_drive(p) {
        p.len() == 3
    } else {
        on_share(p) && components(p.skip(2)).len() == 2
    }
}

/// A single ASCII character and a colon.
pub open spec fn is_drive_name(p: Seq<char>) -> bool {
    p.len() == 2 && p[1] == ':' && (p[0] as u32) < 128
}

/// The folder around a path. The top is its own parent, and that of every volume.
pub open spec fn parent_of(path: Seq<char>) -> Seq<char> {
    let n = tidy(path);
    let at = crate::text::last_index(n, '/');
    if n == top() || is_volume(n) || at <= 0 {
        top()
    } else if is_drive_name(n.take(at)) {
        n.take(at).push('/')
    } else {
        n.take(at)
    }
}

/// Some components behind a head, one more at each step.
pub open spec fn chain(head: Seq<char>, c: Seq<Seq<char>>, from: nat) -> Seq<Seq<char>> {
    Seq::new(
        (c.len() + 1 - from) as nat,
        |k: int| head + crate::text::join(c.take(from + k), '/'),
    )
}

/// The folders from the top down to a path, the path last. A share name alone has only
/// the top.
pub open spec fn ancestors_of(path: Seq<char>) -> Seq<Seq<char>> {
    let n = tidy(path);
    if on_drive(n) {
        seq![top(), n.take(3)] + chain(n.take(3), components(n.skip(3)), 1)
    } else if on_share(n) {
        let c = components(n.skip(2));
        if c.len() < 2 {
            seq![top()]
        } else {
            seq![top()] + chain(n.take(2), c, 2)
        }
    } else {
        seq![top()] + chain(top(), components(n), 1)
    }
}

/// How a folder is called.
pub open spec fn name_of_path(path: Seq<char>) -> Seq<char> {
    let n = tidy(path);
    if n == top() {
        "Computer"@
    } else if is_volume(n) {
        crate::text::trim_end(n, Separator::Char('/'))
    } else {
        n.skip(crate::text::last_index(n, '/') + 1)
    }
}

/// Absolute with forward slashes: a Unix path, a share or a drive path.
pub open spec fn rooted(r: Seq<char>) -> bool {
    r.len() > 0 && r[0] == '/' || on_drive(r)
}

/// The normal form of a path that a summary accepts: absolute, and without `.` or `..`.
pub open spec fn normal_form(path: Seq<char>) -> Option<Seq<char>> {
    let r = crate::text::replace_char(path, '\\', '/');
    if rooted(r) && crate::scope::no_dots(r) {
        Some(tidy(path))
    } else {
        None
    }
}

/// A path as it is put in order: with forward slashes, and without the case of ASCII letters
/// where the host does not tell it apart.
pub open spec fn order_form(host: Host, path: Seq<char>) -> Seq<char> {
    let r = crate::text::replace_char(path, '\\', '/');
    if host.cased() {
        r
    } else {
        crate::text::ascii_lower_all(r)
    }
}

/// The volumes and first folders of some paths.
pub open spec fn place_of(path: Seq<char>) -> Option<Seq<char>> {
    let n = tidy(path);
    if on_drive(n) {
        let c = components(n.skip(3));
        if c.len() == 0 {
            Some(n.take(3))
        } else {
            Some(n.take(3) + c[0])
        }
    } else if on_share(n) {
        let c = components(n.skip(2));
        if c.len() < 2 {
            None
        } else {
            Some(n.take(2) + c[0].push('/') + c[1])
        }
    } else {
        let c = components(n);
        if c.len() == 0 {
            None
        } else {
            Some(seq!['/'] + c[0])
        }
    }
}

fn drive(p: &[char]) -> (r: bool)
    ensures
        r == on_drive(p@),
{
    p.len() >= 3 && crate::text::letter(p[0]) && p[1] == ':' && p[2] == '/'
}

fn share(p: &[char]) -> (r: bool)
    ensures
        r == on_share(p@),
{
    p.len() >= 2 && p[0] == '/' && p[1] == '/'
}

fn split_path(p: &[char]) -> (r: Vec<Vec<char>>)
    ensures
        crate::text::texts(r@) == components(p@),
{
    crate::text::split_words(p, Separator::Char('/'))
}

/// A path with forward slashes, without empty components.
pub fn tidied(path: &[char]) -> (out: Vec<char>)
    ensures
        out@ == tidy(path@),
{
    let r = crate::text::replaced(path, '\\', '/');
    let c = split_path(r.as_slice());
    let mut body = crate::text::join_parts(c.as_slice(), '/');
    let ghost joined = body@;
    let mut out: Vec<char> = Vec::new();
    if share(r.as_slice()) {
        out.push('/');
        out.push('/');
        crate::text::push_all(&mut out, body.as_slice());
        assert(out@ =~= seq!['/', '/'] + joined);
        out
    } else if r.len() > 0 && r[0] == '/' {
        out.push('/');
        crate::text::push_all(&mut out, body.as_slice());
        assert(out@ =~= seq!['/'] + joined);
        out
    } else if drive(r.as_slice()) && body.len() == 2 {
        body.push('/');
        body
    } else if body.len() == 0 {
        out.push('/');
        assert(out@ =~= seq!['/']);
        out
    } else {
        body
    }
}

fn is_top(p: &[char]) -> (r: bool)
    ensures
        r == (p@ == top()),
{
    let r: bool = p.len() == 1 && p[0] == '/';
    proof {
        if r {
            assert(p@ =~= top());
        }
    }
    r
}

fn tail(p: &[char], from: usize) -> (r: Vec<char>)
    requires
        from <= p@.len(),
    ensures
        r@ == p@.skip(from as int),
{
    let r = crate::text::part(p, from, p.len());
    assert(r@ =~= p@.skip(from as int));
    r
}

fn head(p: &[char], to: usize) -> (r: Vec<char>)
    requires
        to <= p@.len(),
    ensures
        r@ == p@.take(to as int),
{
    let r = crate::text::part(p, 0, to);
    assert(r@ =~= p@.take(to as int));
    r
}

fn volume(p: &[char]) -> (r: bool)
    ensures
        r == is_volume(p@),
{
    if drive(p) {
        p.len() == 3
    } else if share(p) {
        let c = split_path(tail(p, 2).as_slice());
        assert(crate::text::texts(c@).len() == c@.len());
        c.len() == 2
    } else {
        false
    }
}

/// The folder around a path.
pub fn parent_path(path: &[char]) -> (out: Vec<char>)
    ensures
        out@ == parent_of(path@),
{
    let n = tidied(path);
    let mut above: Vec<char> = Vec::new();
    above.push('/');
    assert(above@ =~= top());
    proof {
        crate::text::lemma_last_index(n@, '/');
    }
    if is_top(n.as_slice()) || volume(n.as_slice()) {
        return above;
    }
    match crate::text::rfind(n.as_slice(), '/') {
        None => above,
        Some(at) => {
            if at == 0 {
                above
            } else {
                let mut parent = head(n.as_slice(), at);
                if parent.len() == 2 && parent[1] == ':' && (parent[0] as u32) < 128 {
                    parent.push('/');
                }
                parent
            }
        },
    }
}

/// Appends the steps of a chain.
fn push_chain(out: &mut Vec<Vec<char>>, head: &[char], c: &Vec<Vec<char>>, from: usize)
    requires
        1 <= from <= c@.len() + 1,
    ensures
        crate::text::texts(final(out)@) == crate::text::texts(old(out)@) + chain(
            head@,
            crate::text::texts(c@),
            from as nat,
        ),
{
    let ghost parts = crate::text::texts(c@);
    let ghost steps = chain(head@, parts, from as nat);
    let n: usize = c.len();
    let mut k: usize = from;
    assert(crate::text::texts(out@) + steps.take(0) =~= crate::text::texts(old(out)@));
    while k <= n
        invariant
            1 <= from <= k <= n + 1,
            n == c@.len(),
            parts == crate::text::texts(c@),
            steps == chain(head@, parts, from as nat),
            crate::text::texts(out@) == crate::text::texts(old(out)@) + steps.take(k - from),
        decreases n + 1 - k,
    {
        let ghost before = out@;
        let front = vstd::slice::slice_subrange(c.as_slice(), 0, k);
        let body = crate::text::join_parts(front, '/');
        assert(crate::text::texts(front@) =~= parts.take(k as int));
        let mut step: Vec<char> = Vec::new();
        crate::text::push_all(&mut step, head);
        crate::text::push_all(&mut step, body.as_slice());
        assert(step@ =~= steps[k - from]);
        let ghost given = step@;
        out.push(step);
        proof {
            assert(crate::text::texts(out@) =~= crate::text::texts(before).push(given));
            assert(steps.take(k + 1 - from) =~= steps.take(k - from).push(given));
            assert(crate::text::texts(old(out)@) + steps.take(k + 1 - from)
                =~= (crate::text::texts(old(out)@) + steps.take(k - from)).push(given));
        }
        if k == n {
            assert(steps.take(k + 1 - from) =~= steps);
            return;
        }
        k += 1;
    }
    assert(steps.take(k - from) =~= steps);
}

/// The folders from the top down to a path, the path last.
pub fn ancestor_paths(path: &[char]) -> (out: Vec<Vec<char>>)
    ensures
        crate::text::texts(out@) == ancestors_of(path@),
{
    let n = tidied(path);
    let mut above: Vec<char> = Vec::new();
    above.push('/');
    assert(above@ =~= top());
    let mut out: Vec<Vec<char>> = Vec::new();
    if drive(n.as_slice()) {
        let root = head(n.as_slice(), 3);
        let c = split_path(tail(n.as_slice(), 3).as_slice());
        let first = head(n.as_slice(), 3);
        out.push(above);
        out.push(first);
        assert(crate::text::texts(out@) =~= seq![top(), n@.take(3)]);
        push_chain(&mut out, root.as_slice(), &c, 1);
    } else if share(n.as_slice()) {
        let root = head(n.as_slice(), 2);
        let c = split_path(tail(n.as_slice(), 2).as_slice());
        out.push(above);
        assert(crate::text::texts(out@) =~= seq![top()]);
        assert(crate::text::texts(c@).len() == c@.len());
        if c.len() >= 2 {
            push_chain(&mut out, root.as_slice(), &c, 2);
        }
    } else {
        let c = split_path(n.as_slice());
        let first = head(above.as_slice(), 1);
        assert(first@ =~= top());
        out.push(first);
        assert(crate::text::texts(out@) =~= seq![top()]);
        push_chain(&mut out, above.as_slice(), &c, 1);
    }
    out
}

/// How a folder is called.
pub fn path_name(path: &str) -> (r: String)
    ensures
        r@ == name_of_path(path@),
{
    let chars = crate::text::chars_of(path);
    let n = tidied(chars.as_slice());
    if is_top(n.as_slice()) {
        return "Computer".to_owned();
    }
    if volume(n.as_slice()) {
        let end: usize = crate::text::end_run(n.as_slice(), Separator::Char('/'));
        return crate::text::string_of(head(n.as_slice(), end).as_slice());
    }
    proof {
        crate::text::lemma_last_index(n@, '/');
    }
    match crate::text::rfind(n.as_slice(), '/') {
        Some(at) => crate::text::string_of(tail(n.as_slice(), at + 1).as_slice()),
        None => {
            assert(n@.skip(0) =~= n@);
            crate::text::string_of(n.as_slice())
        },
    }
}

/// A path as it is put in order.
pub fn order_text(host: Host, path: &str) -> (r: String)
    ensures
        r@ == order_form(host, path@),
{
    let chars = crate::text::chars_of(path);
    let same = crate::text::replaced(chars.as_slice(), '\\', '/');
    if host.case_sensitive() {
        crate::text::string_of(same.as_slice())
    } else {
        crate::text::string_of(crate::text::lowered(same.as_slice()).as_slice())
    }
}

/// The normal form of a path that a summary accepts.
pub fn normalize(path: &[char]) -> (r: Option<Vec<char>>)
    ensures
        match r {
            Some(n) => normal_form(path@) == Some(n@),
            None => normal_form(path@) is None,
        },
{
    let r = crate::text::replaced(path, '\\', '/');
    if !((r.len() > 0 && r[0] == '/') || drive(r.as_slice())) {
        return None;
    }
    if !crate::scope::dot_free(r.as_slice()) {
        return None;
    }
    Some(tidied(path))
}

/// The volume or first folder of a path.
pub fn first_place(path: &[char]) -> (r: Option<Vec<char>>)
    ensures
        match r {
            Some(n) => place_of(path@) == Some(n@),
            None => place_of(path@) is None,
        },
{
    let n = tidied(path);
    if drive(n.as_slice()) {
        let mut out = head(n.as_slice(), 3);
        let c = split_path(tail(n.as_slice(), 3).as_slice());
        let ghost parts = crate::text::texts(c@);
        if c.len() > 0 {
            assert(parts[0] == c@[0]@);
            crate::text::push_all(&mut out, c[0].as_slice());
        }
        Some(out)
    } else if share(n.as_slice()) {
        let mut out = head(n.as_slice(), 2);
        let c = split_path(tail(n.as_slice(), 2).as_slice());
        let ghost parts = crate::text::texts(c@);
        if c.len() < 2 {
            return None;
        }
        assert(parts[0] == c@[0]@ && parts[1] == c@[1]@);
        crate::text::push_all(&mut out, c[0].as_slice());
        out.push('/');
        crate::text::push_all(&mut out, c[1].as_slice());
        assert(out@ =~= n@.take(2) + parts[0].push('/') + parts[1]);
        Some(out)
    } else {
        let c = split_path(n.as_slice());
        let ghost parts = crate::text::texts(c@);
        if c.len() == 0 {
            return None;
        }
        assert(parts[0] == c@[0]@);
        let mut out: Vec<char> = Vec::new();
        out.push('/');
        crate::text::push_all(&mut out, c[0].as_slice());
        assert(out@ =~= seq!['/'] + parts[0]);
        Some(out)
    }
}

// ---------------------------------------------------------------------------
// The normal form is settled

/// A component: not empty, and without a slash.
pub open spec fn is_component(c: Seq<char>) -> bool {
    c.len() > 0 && !c.contains('/')
}

/// All are components.
pub open spec fn all_components(c: Seq<Seq<char>>) -> bool {
    forall|i: int| 0 <= i < c.len() ==> is_component(#[trigger] c[i])
}

proof fn lemma_split_around(a: Seq<char>, b: Seq<char>)
    ensures
        crate::text::split(a.push('/') + b, Separator::Char('/')) == crate::text::split(
            a,
            Separator::Char('/'),
        ) + crate::text::split(b, Separator::Char('/')),
    decreases b.len(),
{
    let sep = Separator::Char('/');
    let whole = a.push('/') + b;
    let sa = crate::text::split(a, sep);
    crate::text::lemma_split_not_empty(a, sep);
    crate::text::lemma_split_not_empty(b, sep);
    if b.len() == 0 {
        assert(whole =~= a.push('/'));
        assert(whole.drop_last() =~= a);
        assert(crate::text::split(b, sep) =~= seq![Seq::empty()]);
        assert(sa.push(Seq::empty()) =~= sa + seq![Seq::<char>::empty()]);
    } else {
        lemma_split_around(a, b.drop_last());
        let sb = crate::text::split(b.drop_last(), sep);
        crate::text::lemma_split_not_empty(b.drop_last(), sep);
        assert(whole.drop_last() =~= a.push('/') + b.drop_last());
        assert(whole.last() == b.last());
        let front = sa + sb;
        if sep.has(b.last()) {
            assert(front.push(Seq::empty()) =~= sa + sb.push(Seq::empty()));
        } else {
            assert(front.last() == sb.last());
            assert(front.drop_last().push(front.last().push(b.last())) =~= sa
                + sb.drop_last().push(sb.last().push(b.last())));
        }
    }
}

proof fn lemma_split_plain(s: Seq<char>)
    requires
        !s.contains('/'),
    ensures
        crate::text::split(s, Separator::Char('/')) == seq![s],
    decreases s.len(),
{
    if s.len() > 0 {
        let front = s.drop_last();
        assert(!front.contains('/')) by {
            if front.contains('/') {
                let i = front.index_of('/');
                assert(s[i] == '/');
            }
        }
        lemma_split_plain(front);
        assert(s[s.len() - 1] != '/');
        assert(front.push(s.last()) =~= s);
        assert(crate::text::split(s, Separator::Char('/')) =~= seq![s]);
    } else {
        assert(s =~= Seq::empty());
    }
}

proof fn lemma_split_parts(s: Seq<char>, i: int)
    requires
        0 <= i < crate::text::split(s, Separator::Char('/')).len(),
    ensures
        !crate::text::split(s, Separator::Char('/'))[i].contains('/'),
    decreases s.len(),
{
    let sep = Separator::Char('/');
    if s.len() > 0 {
        let front = crate::text::split(s.drop_last(), sep);
        crate::text::lemma_split_not_empty(s.drop_last(), sep);
        if i < front.len() {
            lemma_split_parts(s.drop_last(), i);
            if !sep.has(s.last()) && i == front.len() - 1 {
                let grown = front.last().push(s.last());
                if grown.contains('/') {
                    let k = grown.index_of('/');
                    assert(k < front.last().len());
                    assert(front.last()[k] == '/');
                }
            }
        }
    }
}

/// The components of a path are components.
pub proof fn lemma_components(p: Seq<char>)
    ensures
        all_components(components(p)),
{
    let parts = crate::text::split(p, Separator::Char('/'));
    let keep = |x: Seq<char>| x.len() > 0;
    let c = parts.filter(keep);
    assert forall|i: int| 0 <= i < c.len() implies is_component(#[trigger] c[i]) by {
        parts.lemma_filter_pred(keep, i);
        assert(c.contains(c[i]));
        parts.lemma_filter_contains_rev(keep, c[i]);
        assert(parts.contains(c[i]));
        let k = parts.index_of(c[i]);
        lemma_split_parts(p, k);
    }
}

/// Slashes in front add no component.
proof fn lemma_components_behind(a: Seq<char>, b: Seq<char>)
    ensures
        components(a.push('/') + b) == components(a) + components(b),
{
    lemma_split_around(a, b);
    Seq::filter_distributes_over_add(
        crate::text::split(a, Separator::Char('/')),
        crate::text::split(b, Separator::Char('/')),
        |x: Seq<char>| x.len() > 0,
    );
}

proof fn lemma_no_components(p: Seq<char>)
    requires
        p.len() == 0,
    ensures
        components(p) == Seq::<Seq<char>>::empty(),
{
    reveal_with_fuel(Seq::filter, 2);
    assert(p =~= Seq::empty());
    assert(crate::text::split(p, Separator::Char('/')) =~= seq![Seq::<char>::empty()]);
    assert(seq![Seq::<char>::empty()].drop_last() =~= Seq::empty());
    assert(components(p) =~= Seq::empty());
}

/// Joined components come apart again.
pub proof fn law_components_join_back(c: Seq<Seq<char>>)
    requires
        all_components(c),
    ensures
        components(crate::text::join(c, '/')) == c,
    decreases c.len(),
{
    if c.len() == 0 {
        lemma_no_components(crate::text::join(c, '/'));
        assert(c =~= Seq::empty());
    } else {
        let last = c.last();
        assert(is_component(c[c.len() - 1]));
        lemma_split_plain(last);
        reveal_with_fuel(Seq::filter, 2);
        assert(seq![last].drop_last() =~= Seq::empty());
        assert(components(last) =~= seq![last]);
        if c.len() == 1 {
            assert(c =~= seq![last]);
        } else {
            let front = c.drop_last();
            assert forall|i: int| 0 <= i < front.len() implies is_component(#[trigger] front[i]) by {
                assert(front[i] == c[i]);
            }
            law_components_join_back(front);
            lemma_components_behind(crate::text::join(front, '/'), last);
            assert(front + seq![last] =~= c);
        }
    }
}

/// What joined components begin with.
proof fn lemma_join_start(c: Seq<Seq<char>>)
    requires
        all_components(c),
        c.len() > 0,
    ensures
        crate::text::join(c, '/').len() >= c[0].len(),
        c[0].is_prefix_of(crate::text::join(c, '/')),
        c.len() == 1 ==> crate::text::join(c, '/') == c[0],
        c.len() > 1 ==> crate::text::join(c, '/').len() > c[0].len() && crate::text::join(
            c,
            '/',
        )[c[0].len() as int] == '/',
    decreases c.len(),
{
    if c.len() > 1 {
        let front = c.drop_last();
        assert forall|i: int| 0 <= i < front.len() implies is_component(#[trigger] front[i]) by {
            assert(front[i] == c[i]);
        }
        lemma_join_start(front);
        let f = crate::text::join(front, '/');
        let w = crate::text::join(c, '/');
        assert(w == f.push('/') + c.last());
        assert forall|i: int| 0 <= i < c[0].len() implies w[i] == c[0][i] by {
            assert(f.take(c[0].len() as int)[i] == f[i]);
        }
        assert(w.take(c[0].len() as int) =~= c[0]);
        if c.len() == 2 {
            assert(f == c[0]);
        }
    }
}

/// Joined parts without a backslash have none.
proof fn lemma_join_plain(c: Seq<Seq<char>>, x: char)
    requires
        x != '/',
        forall|i: int| 0 <= i < c.len() ==> !(#[trigger] c[i]).contains(x),
    ensures
        !crate::text::join(c, '/').contains(x),
    decreases c.len(),
{
    if c.len() == 1 {
        assert(!c[0].contains(x));
    } else if c.len() > 1 {
        let front = c.drop_last();
        assert forall|i: int| 0 <= i < front.len() implies !(#[trigger] front[i]).contains(x) by {
            assert(front[i] == c[i]);
        }
        lemma_join_plain(front, x);
        let f = crate::text::join(front, '/');
        let w = f.push('/') + c.last();
        assert(!c[c.len() - 1].contains(x));
        if w.contains(x) {
            let k = w.index_of(x);
            if k < f.len() {
                assert(f[k] == x);
            } else if k > f.len() {
                assert(c.last()[k - f.len() - 1] == x);
            }
        }
    }
}

proof fn lemma_split_keeps_out(s: Seq<char>, x: char, i: int)
    requires
        !s.contains(x),
        0 <= i < crate::text::split(s, Separator::Char('/')).len(),
    ensures
        !crate::text::split(s, Separator::Char('/'))[i].contains(x),
    decreases s.len(),
{
    let sep = Separator::Char('/');
    if s.len() > 0 {
        let less = s.drop_last();
        assert(!less.contains(x)) by {
            if less.contains(x) {
                let k = less.index_of(x);
                assert(s[k] == x);
            }
        }
        assert(s[s.len() - 1] != x);
        let front = crate::text::split(less, sep);
        crate::text::lemma_split_not_empty(less, sep);
        if i < front.len() {
            lemma_split_keeps_out(less, x, i);
            if !sep.has(s.last()) && i == front.len() - 1 {
                let grown = front.last().push(s.last());
                if grown.contains(x) {
                    let k = grown.index_of(x);
                    assert(k < front.last().len());
                    assert(front.last()[k] == x);
                }
            }
        }
    }
}

/// A path with forward slashes and no others is left alone by the replacement.
pub proof fn lemma_nothing_to_replace(s: Seq<char>)
    requires
        !s.contains('\\'),
    ensures
        crate::text::replace_char(s, '\\', '/') == s,
{
    assert forall|i: int| 0 <= i < s.len() implies s[i] != '\\' by {
        assert(s.contains(s[i]));
    }
    assert(crate::text::replace_char(s, '\\', '/') =~= s);
}

/// Tidying a tidy path changes nothing, and no tidying changes the components.
pub proof fn law_tidy_is_settled(path: Seq<char>)
    ensures
        tidy(tidy(path)) == tidy(path),
        components(tidy(path)) == components(crate::text::replace_char(path, '\\', '/')),
{
    let r = crate::text::replace_char(path, '\\', '/');
    assert(!r.contains('\\'));
    let c = components(r);
    lemma_components(r);
    let body = crate::text::join(c, '/');
    law_components_join_back(c);
    lemma_no_components(Seq::empty());
    let t = tidy(path);
    if c.len() > 0 {
        lemma_join_start(c);
        assert(is_component(c[0]));
        assert(body[0] == c[0][0]) by {
            assert(body.take(c[0].len() as int)[0] == body[0]);
        }
        assert(c[0].contains(c[0][0]));
    }
    lemma_tidy_plain(path);
    lemma_nothing_to_replace(t);
    if on_share(r) {
        assert(t =~= seq!['/'].push('/') + body);
        lemma_components_behind(seq!['/'], body);
        assert(seq!['/'] =~= Seq::<char>::empty().push('/') + Seq::empty());
        lemma_components_behind(Seq::empty(), Seq::empty());
        assert(components(t) =~= c);
    } else if r.len() > 0 && r[0] == '/' {
        assert(t =~= Seq::<char>::empty().push('/') + body);
        lemma_components_behind(Seq::empty(), body);
        assert(components(t) =~= c);
    } else if on_drive(r) && body.len() == 2 {
        assert(t =~= body.push('/') + Seq::empty());
        lemma_components_behind(body, Seq::empty());
        assert(components(t) =~= c);
        lemma_first_component(r);
    } else if body.len() == 0 {
        if c.len() > 0 {
            assert(false);
        }
        assert(t =~= Seq::<char>::empty().push('/') + Seq::empty());
        lemma_components_behind(Seq::empty(), Seq::empty());
        assert(components(t) =~= c);
        assert(crate::text::join(c, '/') =~= Seq::empty());
        assert(seq!['/'] + Seq::<char>::empty() =~= seq!['/']);
    } else {
        assert(c.len() > 0) by {
            if c.len() == 0 {
                assert(body.len() == 0);
            }
        }
        lemma_first_component(r);
        if on_drive(t) {
            assert(on_drive(r)) by {
                assert(c[0].len() == 2) by {
                    if c[0].len() < 2 {
                        assert(c[0].len() == 1);
                        assert(c.len() > 1);
                        assert(t[1] == '/');
                    } else if c[0].len() > 2 {
                        assert(body.take(c[0].len() as int)[2] == body[2]);
                        assert(c[0].contains(c[0][2]));
                    }
                }
                assert(c.len() > 1);
                assert(r.take(2)[0] == r[0] && r.take(2)[1] == r[1]);
                assert(body.take(2)[0] == body[0] && body.take(2)[1] == body[1]);
            }
        }
    }
}

/// The first component of a path that does not begin with a slash stands at its start.
proof fn lemma_first_component(r: Seq<char>)
    requires
        r.len() > 0,
        r[0] != '/',
    ensures
        components(r).len() > 0,
        components(r)[0].len() <= r.len(),
        components(r)[0].is_prefix_of(r),
        components(r)[0].len() < r.len() ==> r[components(r)[0].len() as int] == '/',
        components(r).len() > 1 ==> components(r)[0].len() < r.len(),
    decreases r.len(),
{
    if !r.contains('/') {
        lemma_split_plain(r);
        reveal_with_fuel(Seq::filter, 2);
        assert(seq![r].drop_last() =~= Seq::empty());
        assert(components(r) =~= seq![r]);
        assert(r.take(r.len() as int) =~= r);
    } else {
        let at = r.index_of_first('/')->0;
        r.index_of_first_ensures('/');
        let a = r.take(at);
        let b = r.skip(at + 1);
        assert(r =~= a.push('/') + b);
        assert(!a.contains('/')) by {
            if a.contains('/') {
                let k = a.index_of('/');
                assert(r[k] == '/');
            }
        }
        lemma_split_plain(a);
        reveal_with_fuel(Seq::filter, 2);
        assert(seq![a].drop_last() =~= Seq::empty());
        assert(components(a) =~= seq![a]);
        lemma_components_behind(a, b);
        assert(components(r)[0] == a);
    }
}

/// More components make a longer path.
proof fn lemma_join_grows(c: Seq<Seq<char>>, i: int, j: int)
    requires
        all_components(c),
        0 <= i < j <= c.len(),
    ensures
        crate::text::join(c.take(i), '/').len() < crate::text::join(c.take(j), '/').len(),
    decreases j,
{
    let d = c.take(j);
    assert(d.drop_last() =~= c.take(j - 1));
    assert(is_component(c[j - 1]));
    assert(d.last() == c[j - 1]);
    if j == 1 {
        assert(c.take(0) =~= Seq::empty());
        assert(d[0] == c[0]);
    } else {
        assert(crate::text::join(d, '/') == crate::text::join(c.take(j - 1), '/').push('/')
            + d.last());
    }
    if i < j - 1 {
        lemma_join_grows(c, i, j - 1);
    }
}

/// The folders above a path are all different: each is longer than those above it.
pub proof fn law_ancestors_differ(path: Seq<char>)
    ensures
        ancestors_of(path).no_duplicates(),
        ancestors_of(path).len() > 0,
        forall|i: int, j: int|
            0 <= i < j < ancestors_of(path).len() ==> (#[trigger] ancestors_of(path)[i]).len() < (
            #[trigger] ancestors_of(path)[j]).len(),
{
    let n = tidy(path);
    let all = ancestors_of(path);
    let (head, c, from) = if on_drive(n) {
        (n.take(3), components(n.skip(3)), 1nat)
    } else if on_share(n) {
        (n.take(2), components(n.skip(2)), 2nat)
    } else {
        (top(), components(n), 1nat)
    };
    lemma_components(n);
    lemma_components(n.skip(3));
    lemma_components(n.skip(2));
    let extra: int = if on_drive(n) {
        2
    } else {
        1
    };
    assert forall|i: int, j: int| 0 <= i < j < all.len() implies (#[trigger] all[i]).len() < (
    #[trigger] all[j]).len() by {
        if i >= extra {
            lemma_join_grows(c, from + i - extra, from + j - extra);
        } else if j >= extra {
            lemma_join_grows(c, 0, from + j - extra);
        }
    }
}

/// A tidy path holds no character that the path does not hold, but slashes.
proof fn lemma_tidy_keeps_out(path: Seq<char>, x: char)
    requires
        x != '/',
        !crate::text::replace_char(path, '\\', '/').contains(x),
    ensures
        !tidy(path).contains(x),
{
    let r = crate::text::replace_char(path, '\\', '/');
    let c = components(r);
    let body = crate::text::join(c, '/');
    lemma_components_plain(r, x);
    lemma_join_plain(c, x);
    let t = tidy(path);
    if t.contains(x) {
        let k = t.index_of(x);
        if on_share(r) {
            assert(body[k - 2] == x);
        } else if r.len() > 0 && r[0] == '/' {
            assert(body[k - 1] == x);
        } else if body.len() > 0 {
            assert(body[k] == x);
        }
    }
}

/// A tidy path has no backslash.
pub proof fn lemma_tidy_plain(path: Seq<char>)
    ensures
        !tidy(path).contains('\\'),
{
    assert(!crate::text::replace_char(path, '\\', '/').contains('\\'));
    lemma_tidy_keeps_out(path, '\\');
}

/// Components hold no character that their path does not hold.
proof fn lemma_components_plain(p: Seq<char>, x: char)
    requires
        !p.contains(x),
    ensures
        forall|i: int| 0 <= i < components(p).len() ==> !(#[trigger] components(p)[i]).contains(x),
{
    let c = components(p);
    let parts = crate::text::split(p, Separator::Char('/'));
    assert forall|i: int| 0 <= i < c.len() implies !(#[trigger] c[i]).contains(x) by {
        assert(c.contains(c[i]));
        parts.lemma_filter_contains_rev(|y: Seq<char>| y.len() > 0, c[i]);
        assert(parts.contains(c[i]));
        lemma_split_keeps_out(p, x, parts.index_of(c[i]));
    }
}

/// A text without a slash is one component.
proof fn lemma_one_component(x: Seq<char>)
    requires
        x.len() > 0,
        !x.contains('/'),
    ensures
        components(x) == seq![x],
{
    lemma_split_plain(x);
    reveal_with_fuel(Seq::filter, 2);
    assert(seq![x].drop_last() =~= Seq::empty());
    assert(components(x) =~= seq![x]);
}

/// A path on a drive in its normal form: the drive, and what follows it.
proof fn lemma_drive_parts(n: Seq<char>)
    requires
        tidy(n) == n,
        on_drive(n),
        !n.contains('\\'),
    ensures
        n == n.take(3) + crate::text::join(components(n.skip(3)), '/'),
        all_components(components(n.skip(3))),
        !n.skip(3).contains('\\'),
{
    let x = n.take(2);
    let rest = n.skip(3);
    let d = components(rest);
    lemma_nothing_to_replace(n);
    lemma_components(rest);
    if rest.contains('\\') {
        let k = rest.index_of('\\');
        assert(n[k + 3] == '\\');
    }
    assert(!x.contains('/'));
    lemma_one_component(x);
    assert(n =~= x.push('/') + rest);
    lemma_components_behind(x, rest);
    assert(components(n) =~= seq![x] + d);
    assert(n.take(3) =~= x.push('/'));
    if d.len() > 0 {
        lemma_join_behind(x, d);
    } else {
        assert(seq![x] + d =~= seq![x]);
        assert(crate::text::join(components(n), '/') == x);
        assert(n =~= n.take(3) + crate::text::join(d, '/'));
    }
}

/// A component in front of others.
proof fn lemma_join_behind(a: Seq<char>, d: Seq<Seq<char>>)
    requires
        d.len() > 0,
    ensures
        crate::text::join(seq![a] + d, '/') == a.push('/') + crate::text::join(d, '/'),
    decreases d.len(),
{
    let whole = seq![a] + d;
    if d.len() == 1 {
        assert(whole.drop_last() =~= seq![a]);
        assert(whole.last() == d[0]);
        assert(crate::text::join(seq![a], '/') == a);
        assert(crate::text::join(d, '/') == d[0]);
    } else {
        lemma_join_behind(a, d.drop_last());
        assert(whole.drop_last() =~= seq![a] + d.drop_last());
        assert(whole.last() == d.last());
        assert(crate::text::join(whole, '/') =~= a.push('/') + crate::text::join(d, '/'));
    }
}

/// What a path in its normal form begins with: a slash, two slashes, or a drive.
pub open spec fn is_head(h: Seq<char>) -> bool {
    h == seq!['/'] || h == seq!['/', '/'] || (on_drive(h) && h.len() == 3)
}

/// Components behind a head are a tidy path.
proof fn lemma_tidy_parts(h: Seq<char>, d: Seq<Seq<char>>)
    requires
        is_head(h),
        all_components(d),
        forall|i: int| 0 <= i < d.len() ==> !(#[trigger] d[i]).contains('\\'),
    ensures
        tidy(h + crate::text::join(d, '/')) == h + crate::text::join(d, '/'),
        on_drive(h + crate::text::join(d, '/')) == on_drive(h),
        on_share(h + crate::text::join(d, '/')) == on_share(h),
        on_share(h) ==> components((h + crate::text::join(d, '/')).skip(2)) == d,
{
    let body = crate::text::join(d, '/');
    let s = h + body;
    lemma_join_plain(d, '\\');
    assert(!s.contains('\\')) by {
        if s.contains('\\') {
            let k = s.index_of('\\');
            if k >= h.len() {
                assert(body[k - h.len()] == '\\');
            }
        }
    }
    lemma_nothing_to_replace(s);
    law_components_join_back(d);
    lemma_no_components(Seq::empty());
    if d.len() > 0 {
        lemma_join_start(d);
        assert(is_component(d[0]));
        assert(body.take(d[0].len() as int)[0] == body[0]);
        assert(d[0].contains(d[0][0]));
        assert(body[0] != '/');
    } else {
        assert(body =~= Seq::empty());
        assert(s =~= h);
    }
    if h == seq!['/'] {
        assert(s =~= Seq::<char>::empty().push('/') + body);
        lemma_components_behind(Seq::empty(), body);
        assert(components(s) =~= d);
    } else if h == seq!['/', '/'] {
        assert(s =~= seq!['/'].push('/') + body);
        lemma_components_behind(seq!['/'], body);
        assert(seq!['/'] =~= Seq::<char>::empty().push('/') + Seq::empty());
        lemma_components_behind(Seq::empty(), Seq::empty());
        assert(components(s) =~= d);
        assert(s.skip(2) =~= body);
    } else {
        let x = h.take(2);
        assert(!x.contains('/'));
        lemma_one_component(x);
        assert(s =~= x.push('/') + body);
        lemma_components_behind(x, body);
        assert(components(s) =~= seq![x] + d);
        if d.len() > 0 {
            lemma_join_behind(x, d);
        } else {
            assert(seq![x] + d =~= seq![x]);
            assert(s =~= x.push('/'));
        }
    }
}

/// A path in its normal form is a head with components behind it.
proof fn lemma_head_and_parts(n: Seq<char>) -> (r: (Seq<char>, Seq<Seq<char>>))
    requires
        tidy(n) == n,
        rooted(n),
        !n.contains('\\'),
    ensures
        is_head(r.0),
        all_components(r.1),
        forall|i: int| 0 <= i < r.1.len() ==> !(#[trigger] r.1[i]).contains('\\'),
        n == r.0 + crate::text::join(r.1, '/'),
        on_drive(n) ==> r.0 == n.take(3) && r.1 == components(n.skip(3)),
        !on_drive(n) && on_share(n) ==> r.0 == n.take(2) && r.1 == components(n.skip(2)),
        !on_drive(n) && !on_share(n) ==> r.0 == top() && r.1 == components(n),
{
    if on_drive(n) {
        lemma_drive_parts(n);
        lemma_components_plain(n.skip(3), '\\');
        (n.take(3), components(n.skip(3)))
    } else {
        let c = components(n);
        lemma_nothing_to_replace(n);
        lemma_components(n);
        lemma_components_plain(n, '\\');
        if on_share(n) {
            assert(n.take(2) =~= seq!['/', '/']);
            assert(n.skip(2) =~= crate::text::join(c, '/'));
            law_components_join_back(c);
            (n.take(2), c)
        } else {
            (top(), c)
        }
    }
}

proof fn lemma_last_slash(x: Seq<char>, y: Seq<char>)
    requires
        !y.contains('/'),
    ensures
        crate::text::last_index(x.push('/') + y, '/') == x.len(),
{
    let s = x.push('/') + y;
    crate::text::lemma_last_index(s, '/');
    let at = crate::text::last_index(s, '/');
    assert(s[x.len() as int] == '/');
    if at > x.len() {
        assert(y[at - x.len() - 1] == '/');
        assert(y.contains('/'));
    }
}

/// The folder around some components behind a head is one component shorter.
proof fn lemma_parent_of_parts(h: Seq<char>, d: Seq<Seq<char>>)
    requires
        is_head(h),
        all_components(d),
        forall|i: int| 0 <= i < d.len() ==> !(#[trigger] d[i]).contains('\\'),
        d.len() > 0,
        h == seq!['/', '/'] ==> d.len() > 2,
        h == seq!['/'] ==> d[0] != seq![':'],
    ensures
        parent_of(h + crate::text::join(d, '/')) == h + crate::text::join(d.drop_last(), '/'),
{
    let front = d.drop_last();
    let s = h + crate::text::join(d, '/');
    let up = crate::text::join(front, '/');
    lemma_tidy_parts(h, d);
    assert(is_component(d[d.len() - 1]));
    if d.len() == 1 {
        let x = h.drop_last();
        assert(h =~= x.push('/'));
        assert(s =~= x.push('/') + d.last());
        lemma_last_slash(x, d.last());
        assert(h + up =~= h);
        if h == seq!['/'] {
            assert(s.len() > 1);
        } else {
            assert(s.take(2) =~= x);
            assert(is_drive_name(x));
        }
    } else {
        let x = h + up;
        assert(s =~= x.push('/') + d.last());
        lemma_last_slash(x, d.last());
        assert(s.take(x.len() as int) =~= x);
        assert forall|i: int| 0 <= i < front.len() implies is_component(#[trigger] front[i]) by {
            assert(front[i] == d[i]);
        }
        lemma_join_start(front);
        assert(front[0] == d[0]);
        assert(d[0].len() > 0);
        if is_drive_name(x) {
            assert(h == seq!['/']);
            assert(up.len() == 1);
            assert(d[0].len() == 1);
            assert(up.take(1)[0] == up[0]);
            assert(x[1] == up[0]);
            assert(d[0] =~= seq![':']);
        }
        assert(s.len() > 3);
    }
}

/// The folders above an absolute path are the chain of its parents: from the top, which is its
/// own parent, down to the path in its normal form. A share has to be named with its server,
/// and a Unix path must not begin with a folder called `:`, which reads as a drive.
pub proof fn law_ancestors_are_the_chain_of_parents(path: Seq<char>)
    requires
        rooted(tidy(path)),
        on_share(tidy(path)) ==> components(tidy(path).skip(2)).len() >= 2,
        components(tidy(path)).len() == 0 || components(tidy(path))[0] != seq![':'],
    ensures
        ancestors_of(path).len() > 0,
        ancestors_of(path)[0] == top(),
        ancestors_of(path).last() == tidy(path),
        parent_of(top()) == top(),
        forall|i: int|
            0 < i < ancestors_of(path).len() ==> parent_of(#[trigger] ancestors_of(path)[i])
                == ancestors_of(path)[i - 1],
{
    let n = tidy(path);
    let a = ancestors_of(path);
    law_tidy_is_settled(path);
    lemma_tidy_plain(path);
    let (h, d) = lemma_head_and_parts(n);
    let none = Seq::<Seq<char>>::empty();
    lemma_tidy_parts(top(), none);
    assert(top() + crate::text::join(none, '/') =~= top());
    let from: nat = if on_share(n) {
        2
    } else {
        1
    };
    let extra: int = if on_drive(n) {
        2
    } else {
        1
    };
    assert(d.take(d.len() as int) =~= d);
    assert(d.take(0) =~= none);
    assert(h + crate::text::join(none, '/') =~= h);
    assert forall|i: int| 0 < i < a.len() implies parent_of(#[trigger] a[i]) == a[i - 1] by {
        if on_drive(n) && i == 1 {
            lemma_tidy_parts(h, none);
        } else {
            let k = from + i - extra;
            let e = d.take(k);
            assert(a[i] == h + crate::text::join(e, '/'));
            assert forall|j: int| 0 <= j < e.len() implies is_component(#[trigger] e[j]) by {
                assert(e[j] == d[j]);
            }
            assert forall|j: int| 0 <= j < e.len() implies !(#[trigger] e[j]).contains('\\') by {
                assert(e[j] == d[j]);
            }
            lemma_tidy_parts(h, e);
            if on_share(n) && k == 2 {
                assert(is_volume(a[i]));
            } else {
                assert(e[0] == d[0]);
                lemma_parent_of_parts(h, e);
                assert(e.drop_last() =~= d.take(k - 1));
            }
        }
    }
    if on_drive(n) && d.len() == 0 {
        assert(a.last() == n.take(3));
        assert(d =~= none);
    } else if d.len() == 0 {
        assert(d =~= none);
        assert(a.last() == top());
    } else {
        assert(a[a.len() - 1] == h + crate::text::join(d.take(d.len() as int), '/'));
    }
}

/// The folder around an absolute path is in its normal form, and absolute again; a share in it
/// is named with its server. The path must not begin with a folder called `:`.
pub proof fn law_parents_are_settled(path: Seq<char>)
    requires
        rooted(tidy(path)),
        components(tidy(path)).len() == 0 || components(tidy(path))[0] != seq![':'],
    ensures
        tidy(parent_of(tidy(path))) == parent_of(tidy(path)),
        rooted(parent_of(tidy(path))),
        on_share(parent_of(tidy(path))) ==> components(parent_of(tidy(path)).skip(2)).len() >= 2,
        components(parent_of(tidy(path))).len() == 0 || components(parent_of(tidy(path)))[0]
            != seq![':'],
{
    let n = tidy(path);
    let up = parent_of(n);
    law_tidy_is_settled(path);
    lemma_tidy_plain(path);
    let (h, d) = lemma_head_and_parts(n);
    let none = Seq::<Seq<char>>::empty();
    lemma_tidy_parts(top(), none);
    assert(top() + crate::text::join(none, '/') =~= top());
    lemma_components_of_head(top(), none);
    crate::text::lemma_last_index(n, '/');
    if d.len() == 0 {
        assert(d =~= none);
        assert(n =~= h);
        if h == seq!['/', '/'] {
            assert(n[1] == '/');
            assert(n.take(1) =~= top());
        }
        assert(up == top());
    } else if h == seq!['/', '/'] && d.len() == 2 {
        assert(on_share(n) && !on_drive(n));
        assert(is_volume(n));
        assert(up == top());
    } else if h == seq!['/', '/'] && d.len() == 1 {
        assert(is_component(d[0]));
        assert(crate::text::join(d, '/') == d[0]);
        assert(n =~= seq!['/'].push('/') + d[0]);
        lemma_last_slash(seq!['/'], d[0]);
        assert(n.take(1) =~= top());
        assert(up == top());
    } else {
        let front = d.drop_last();
        lemma_components_of_head(h, d);
        lemma_parent_of_parts(h, d);
        assert forall|j: int| 0 <= j < front.len() implies is_component(#[trigger] front[j]) by {
            assert(front[j] == d[j]);
        }
        assert forall|j: int| 0 <= j < front.len() implies !(#[trigger] front[j]).contains(
            '\\',
        ) by {
            assert(front[j] == d[j]);
        }
        lemma_tidy_parts(h, front);
        lemma_components_of_head(h, front);
        assert(up == h + crate::text::join(front, '/'));
        if on_drive(h) {
            assert(components(up)[0].len() == 2);
        } else if front.len() > 0 {
            assert(components(up)[0] == d[0]);
        }
    }
}

/// The components of a head and some more.
proof fn lemma_components_of_head(h: Seq<char>, d: Seq<Seq<char>>)
    requires
        is_head(h),
        all_components(d),
    ensures
        components(h + crate::text::join(d, '/')) == if on_drive(h) {
            seq![h.take(2)] + d
        } else {
            d
        },
{
    let body = crate::text::join(d, '/');
    let none = Seq::<char>::empty();
    law_components_join_back(d);
    lemma_no_components(none);
    if on_drive(h) {
        let x = h.take(2);
        assert(!x.contains('/'));
        lemma_one_component(x);
        assert(h + body =~= x.push('/') + body);
        lemma_components_behind(x, body);
    } else if h == seq!['/'] {
        assert(h + body =~= none.push('/') + body);
        lemma_components_behind(none, body);
        assert(components(h + body) =~= d);
    } else {
        let one = none.push('/');
        assert(h + body =~= one.push('/') + body);
        lemma_components_behind(one, body);
        assert(one =~= none.push('/') + none);
        lemma_components_behind(none, none);
        assert(components(h + body) =~= d);
    }
}

proof fn lemma_join_parts(a: Seq<Seq<char>>, b: Seq<Seq<char>>)
    requires
        a.len() > 0,
        b.len() > 0,
    ensures
        crate::text::join(a + b, '/') == crate::text::join(a, '/').push('/') + crate::text::join(
            b,
            '/',
        ),
    decreases b.len(),
{
    let whole = a + b;
    assert(whole.last() == b.last());
    if b.len() == 1 {
        assert(whole.drop_last() =~= a);
    } else {
        lemma_join_parts(a, b.drop_last());
        assert(whole.drop_last() =~= a + b.drop_last());
        assert(crate::text::join(whole, '/') =~= crate::text::join(a, '/').push('/')
            + crate::text::join(b, '/'));
    }
}

/// The folders above a Unix path are the top and those that it begins with, up to a slash.
pub proof fn law_folders_above_are_what_a_path_begins_with(p: Seq<char>, d: Seq<char>)
    requires
        tidy(p) == p,
        tidy(d) == d,
        p.len() > 0 && p[0] == '/' && !on_share(p) && !p.contains('\\'),
        d.len() > 0 && d[0] == '/' && !on_share(d) && !d.contains('\\'),
        d != top(),
    ensures
        ancestors_of(p).contains(top()),
        ancestors_of(p).contains(d) <==> d == p || d.push('/').is_prefix_of(p),
{
    let (h, c) = lemma_head_and_parts(p);
    let (g, e) = lemma_head_and_parts(d);
    let all = ancestors_of(p);
    let none = Seq::<Seq<char>>::empty();
    assert(all[0] == top());
    assert(!on_drive(p) && !on_drive(d));
    assert forall|k: int| 1 <= k <= c.len() implies #[trigger] all[k] == top() + crate::text::join(
        c.take(k),
        '/',
    ) by {}
    assert(c.take(c.len() as int) =~= c);
    if all.contains(d) {
        let k = all.index_of(d);
        assert(k >= 1);
        if k < c.len() {
            let (a, b) = (c.take(k), c.skip(k));
            lemma_join_parts(a, b);
            assert(a + b =~= c);
            let rest = crate::text::join(b, '/');
            assert(p =~= d.push('/') + rest);
            assert(p.subrange(0, (d.len() + 1) as int) =~= d.push('/'));
        }
    }
    if d == p || d.push('/').is_prefix_of(p) {
        if e.len() == 0 {
            assert(e =~= none);
            assert(d =~= top());
        }
        if d == p {
            assert(all[c.len() as int] == p);
        } else {
            let rest = p.skip((d.len() + 1) as int);
            assert(p =~= d.push('/') + rest) by {
                assert(p.subrange(0, (d.len() + 1) as int) =~= d.push('/'));
            }
            lemma_components_behind(d, rest);
            assert(c =~= e + components(rest));
            assert(c.take(e.len() as int) =~= e);
            assert(all[e.len() as int] == d);
        }
    }
}

/// Without backslashes both separators split alike.
proof fn lemma_split_alike(s: Seq<char>)
    requires
        !s.contains('\\'),
    ensures
        crate::text::split(s, Separator::Slash) == crate::text::split(s, Separator::Char('/')),
    decreases s.len(),
{
    if s.len() > 0 {
        let front = s.drop_last();
        assert(!front.contains('\\')) by {
            if front.contains('\\') {
                let k = front.index_of('\\');
                assert(s[k] == '\\');
            }
        }
        assert(s.contains(s[s.len() - 1]));
        lemma_split_alike(front);
    }
}

/// None of some names is `.` or `..`.
pub open spec fn undotted(c: Seq<Seq<char>>) -> bool {
    forall|i: int| 0 <= i < c.len() ==> !crate::scope::is_dots(#[trigger] c[i])
}

/// A path has no dots where its components are none.
proof fn lemma_dots_are_components(s: Seq<char>)
    requires
        !s.contains('\\'),
    ensures
        crate::scope::no_dots(s) == undotted(components(s)),
{
    let parts = crate::text::split(s, Separator::Char('/'));
    let keep = |x: Seq<char>| x.len() > 0;
    let c = components(s);
    lemma_split_alike(s);
    assert(c == parts.filter(keep));
    if crate::scope::no_dots(s) {
        assert forall|i: int| 0 <= i < c.len() implies !crate::scope::is_dots(#[trigger] c[i]) by {
            assert(c.contains(c[i]));
            parts.lemma_filter_contains_rev(keep, c[i]);
            let k = parts.index_of(c[i]);
            assert(!crate::scope::is_dots(parts[k]));
        }
    }
    if undotted(c) {
        assert forall|i: int| 0 <= i < parts.len() implies !crate::scope::is_dots(
            #[trigger] parts[i],
        ) by {
            if crate::scope::is_dots(parts[i]) {
                assert(keep(parts[i]));
                parts.lemma_filter_contains(keep, i);
                let k = c.index_of(parts[i]);
                assert(!crate::scope::is_dots(c[k]));
            }
        }
    }
}

/// A drive stays at the front.
proof fn lemma_drive_stays(path: Seq<char>)
    requires
        on_drive(crate::text::replace_char(path, '\\', '/')),
    ensures
        on_drive(tidy(path)),
{
    let r = crate::text::replace_char(path, '\\', '/');
    let x = r.take(2);
    let rest = r.skip(3);
    let d = components(rest);
    assert(!x.contains('/'));
    lemma_one_component(x);
    assert(r =~= x.push('/') + rest);
    lemma_components_behind(x, rest);
    assert(components(r) =~= seq![x] + d);
    if d.len() > 0 {
        lemma_join_behind(x, d);
    } else {
        assert(seq![x] + d =~= seq![x]);
        assert(crate::text::join(components(r), '/') == x);
    }
}

/// The normal form of a path is its own normal form.
pub proof fn law_normal_forms_are_settled(path: Seq<char>)
    requires
        normal_form(path) is Some,
    ensures
        normal_form(tidy(path)) == Some(tidy(path)),
{
    let r = crate::text::replace_char(path, '\\', '/');
    let n = tidy(path);
    assert(!r.contains('\\'));
    law_tidy_is_settled(path);
    lemma_tidy_plain(path);
    lemma_nothing_to_replace(n);
    lemma_dots_are_components(r);
    lemma_dots_are_components(n);
    if on_drive(r) {
        lemma_drive_stays(path);
    }
}

/// The folders above a path hold no character that the path does not hold, but slashes.
proof fn lemma_ancestor_keeps_out(path: Seq<char>, x: char, i: int)
    requires
        x != '/',
        !crate::text::replace_char(path, '\\', '/').contains(x),
        0 <= i < ancestors_of(path).len(),
    ensures
        !ancestors_of(path)[i].contains(x),
{
    let n = tidy(path);
    lemma_tidy_keeps_out(path, x);
    let (head, c, from, extra) = if on_drive(n) {
        (n.take(3), components(n.skip(3)), 1nat, 2int)
    } else if on_share(n) {
        (n.take(2), components(n.skip(2)), 2nat, 1int)
    } else {
        (top(), components(n), 1nat, 1int)
    };
    let rest = if on_drive(n) {
        n.skip(3)
    } else if on_share(n) {
        n.skip(2)
    } else {
        n
    };
    assert(!rest.contains(x)) by {
        if rest.contains(x) {
            let k = rest.index_of(x);
            assert(n[n.len() - rest.len() + k] == x);
        }
    }
    lemma_components_plain(rest, x);
    assert(!head.contains(x)) by {
        if head.contains(x) {
            let k = head.index_of(x);
            if on_drive(n) || on_share(n) {
                assert(n[k] == x);
            }
        }
    }
    if i >= extra {
        let e = c.take(from + i - extra);
        assert forall|k: int| 0 <= k < e.len() implies !(#[trigger] e[k]).contains(x) by {
            assert(e[k] == c[k]);
        }
        lemma_join_plain(e, x);
        let body = crate::text::join(e, '/');
        assert(ancestors_of(path)[i] == head + body);
        if (head + body).contains(x) {
            let k = (head + body).index_of(x);
            if k < head.len() {
                assert(head[k] == x);
            } else {
                assert(body[k - head.len()] == x);
            }
        }
    }
}

/// The folders above a plain ASCII path are plain ASCII.
pub proof fn lemma_ancestors_ascii(path: Seq<char>, i: int)
    requires
        vstd::utf8::is_ascii_chars(path),
        0 <= i < ancestors_of(path).len(),
    ensures
        vstd::utf8::is_ascii_chars(ancestors_of(path)[i]),
{
    let a = ancestors_of(path)[i];
    assert forall|k: int| 0 <= k < a.len() implies '\0' <= #[trigger] a[k] <= '\u{7f}' by {
        if a[k] > '\u{7f}' {
            lemma_ascii_lacks(path, a[k]);
            lemma_ancestor_keeps_out(path, a[k], i);
            assert(a.contains(a[k]));
            assert(false);
        }
        lemma_lowest_char(a[k]);
    }
}

proof fn lemma_lowest_char(c: char)
    ensures
        '\0' <= c,
{
}

proof fn lemma_ascii_lacks(path: Seq<char>, x: char)
    requires
        vstd::utf8::is_ascii_chars(path),
        x > '\u{7f}',
    ensures
        !crate::text::replace_char(path, '\\', '/').contains(x),
{
    let r = crate::text::replace_char(path, '\\', '/');
    if r.contains(x) {
        let j = r.index_of(x);
        assert(r[j] == x);
        assert('\0' <= path[j] <= '\u{7f}');
    }
}

} // verus!
