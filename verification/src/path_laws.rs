//! What names, extensions and folders of paths are, said of how a path is written.

use crate::host::Host;
use crate::text::Separator;
use vstd::prelude::*;

verus! {

// ---------------------------------------------------------------------------
// Names

/// The name of a file is what follows the last slash of its path.
pub proof fn law_names_follow_the_last_slash(folder: Seq<char>, name: Seq<char>)
    requires
        !name.contains('/'),
    ensures
        crate::types::name_of(folder.push('/') + name) == name,
        crate::types::name_of(name) == name,
{
    let path = folder.push('/') + name;
    crate::text::lemma_last_index(path, '/');
    crate::text::lemma_last_index(name, '/');
    let at = crate::text::last_index(path, '/');
    assert(path[folder.len() as int] == '/');
    if at > folder.len() {
        assert(path[at] == name[at - folder.len() - 1]);
        assert(name.contains(name[at - folder.len() - 1]));
    }
    assert(path.skip(at + 1) =~= name);
    if crate::text::last_index(name, '/') >= 0 {
        assert(name.contains(name[crate::text::last_index(name, '/')]));
    }
    assert(name.skip(0) =~= name);
}

/// The extension of a name is what follows its last dot, unless that is in front or at the end.
pub proof fn law_extensions_follow_the_last_dot(stem: Seq<char>, e: Seq<char>)
    requires
        !e.contains('.'),
        e.len() > 0,
    ensures
        stem.len() > 0 ==> crate::types::raw_extension_of(stem.push('.') + e) == e,
        crate::types::raw_extension_of(seq!['.'] + e).len() == 0,
        crate::types::raw_extension_of(e).len() == 0,
        crate::types::raw_extension_of(stem.push('.')).len() == 0,
{
    let (a, b, c) = (stem.push('.') + e, seq!['.'] + e, stem.push('.'));
    crate::text::lemma_last_index(a, '.');
    crate::text::lemma_last_index(b, '.');
    crate::text::lemma_last_index(c, '.');
    crate::text::lemma_last_index(e, '.');
    let at = crate::text::last_index(a, '.');
    assert(a[stem.len() as int] == '.');
    if at > stem.len() {
        assert(a[at] == e[at - stem.len() - 1]);
        assert(e.contains(e[at - stem.len() - 1]));
    }
    assert(a.skip(at + 1) =~= e);
    let bt = crate::text::last_index(b, '.');
    assert(b[0] == '.');
    if bt > 0 {
        assert(b[bt] == e[bt - 1]);
        assert(e.contains(e[bt - 1]));
    }
    if crate::text::last_index(e, '.') >= 0 {
        assert(e.contains(e[crate::text::last_index(e, '.')]));
    }
    assert(c[stem.len() as int] == '.');
}

// ---------------------------------------------------------------------------
// Paths that are safe to index

proof fn lemma_split_at(a: Seq<char>, s: char, b: Seq<char>, sep: Separator)
    requires
        sep.has(s),
    ensures
        crate::text::split(a.push(s) + b, sep) == crate::text::split(a, sep) + crate::text::split(
            b,
            sep,
        ),
        crate::text::split(a, sep).len() > 0,
    decreases b.len(),
{
    let whole = a.push(s) + b;
    let front = crate::text::split(a, sep);
    crate::text::lemma_split_not_empty(a, sep);
    crate::text::lemma_split_not_empty(b, sep);
    if b.len() == 0 {
        assert(whole =~= a.push(s));
        assert(whole.drop_last() =~= a);
        assert(crate::text::split(whole, sep) =~= front + crate::text::split(b, sep));
    } else {
        let less = b.drop_last();
        lemma_split_at(a, s, less, sep);
        crate::text::lemma_split_not_empty(less, sep);
        assert(whole.drop_last() =~= a.push(s) + less);
        assert(whole.last() == b.last());
        assert(crate::text::split(whole, sep) =~= front + crate::text::split(b, sep));
    }
}

proof fn lemma_split_solid(a: Seq<char>, sep: Separator)
    requires
        forall|i: int| 0 <= i < a.len() ==> !sep.has(#[trigger] a[i]),
    ensures
        crate::text::split(a, sep) == seq![a],
    decreases a.len(),
{
    if a.len() > 0 {
        let less = a.drop_last();
        assert forall|i: int| 0 <= i < less.len() implies !sep.has(#[trigger] less[i]) by {
            assert(less[i] == a[i]);
        }
        lemma_split_solid(less, sep);
        assert(!sep.has(a[a.len() - 1]));
        assert(less.push(a.last()) =~= a);
        assert(crate::text::split(a, sep) =~= seq![a]);
    } else {
        assert(a =~= Seq::empty());
    }
}

/// No path is indexed that holds a zero byte, that is not absolute, or that goes up or stays in
/// place anywhere, whichever way its slashes lean.
pub proof fn law_unsafe_paths_are_refused(a: Seq<char>, b: Seq<char>, s: char, t: char, dots: Seq<char>)
    requires
        s == '/' || s == '\\',
        t == '/' || t == '\\',
        dots == seq!['.'] || dots == seq!['.', '.'],
    ensures
        !crate::scope::safe_path(a.push(s) + (dots.push(t) + b)),
        !crate::scope::safe_path(a.push(s) + dots),
        a.contains('\0') ==> !crate::scope::safe_path(a),
        a.len() == 0 ==> !crate::scope::safe_path(a),
        a.len() > 0 && a[0] != '/' && a[0] != '\\' && (a.len() < 2 || a[1] != ':')
            ==> !crate::scope::safe_path(a),
{
    let sep = Separator::Slash;
    lemma_split_solid(dots, sep);
    lemma_split_at(dots, t, b, sep);
    lemma_split_at(a, s, dots.push(t) + b, sep);
    lemma_split_at(a, s, dots, sep);
    let n = crate::text::split(a, sep).len() as int;
    let one = crate::text::split(a.push(s) + (dots.push(t) + b), sep);
    let two = crate::text::split(a.push(s) + dots, sep);
    assert(one[n] == dots);
    assert(two[n] == dots);
    assert(crate::scope::is_dots(one[n]));
    assert(crate::scope::is_dots(two[n]));
}

/// What lies in a folder that is safe to index is so too.
#[verifier::rlimit(40)]
pub proof fn law_names_in_safe_folders_are_safe(folder: Seq<char>, name: Seq<char>)
    requires
        crate::scope::safe_path(folder),
        !name.contains('\0') && !name.contains('/') && !name.contains('\\'),
        name != seq!['.'] && name != seq!['.', '.'],
    ensures
        crate::scope::safe_path(folder.push('/') + name),
        crate::scope::safe_path(seq!['/'] + name),
{
    let sep = Separator::Slash;
    let none = Seq::<char>::empty();
    assert forall|i: int| 0 <= i < name.len() implies !sep.has(#[trigger] name[i]) by {
        assert(name.contains(name[i]));
    }
    lemma_split_solid(name, sep);
    lemma_split_at(folder, '/', name, sep);
    lemma_split_solid(none, sep);
    lemma_split_at(none, '/', name, sep);
    let path = folder.push('/') + name;
    let top = seq!['/'] + name;
    assert(none.push('/') + name =~= top);
    let parts = crate::text::split(path, sep);
    let front = crate::text::split(folder, sep);
    assert forall|i: int| 0 <= i < parts.len() implies !crate::scope::is_dots(
        #[trigger] parts[i],
    ) by {
        if i < front.len() {
            assert(parts[i] == front[i]);
        } else {
            assert(parts[i] == name);
        }
    }
    let tops = crate::text::split(top, sep);
    assert forall|i: int| 0 <= i < tops.len() implies !crate::scope::is_dots(
        #[trigger] tops[i],
    ) by {
        if i == 0 {
            assert(tops[i] == none);
        } else {
            assert(tops[i] == name);
        }
    }
    if path.contains('\0') {
        let i = path.index_of('\0');
        if i < folder.len() {
            assert(folder[i] == '\0');
        } else if i > folder.len() {
            assert(name[i - folder.len() - 1] == '\0');
        }
    }
    if top.contains('\0') {
        let i = top.index_of('\0');
        if i > 0 {
            assert(name[i - 1] == '\0');
        }
    }
    if crate::scope::has_drive(folder) {
        assert(path[0] == folder[0] && path[1] == folder[1] && path[2] == folder[2]);
    } else {
        assert(path[0] == folder[0]);
        if folder[0] != '/' {
            assert(path[1] == folder[1]);
        }
    }
}

// ---------------------------------------------------------------------------
// Folders and names of files, on Unix

/// A name of a file or folder.
pub open spec fn plain_name(n: Seq<char>) -> bool {
    n.len() > 0 && !n.contains('/') && n != seq!['.'] && n != seq!['.', '.']
}

/// A folder that does not end in a slash or a lone dot.
pub open spec fn plain_folder(f: Seq<char>) -> bool {
    f.len() > 0 && crate::files::to_last_name(f, Separator::Char('/')) == f
}

proof fn lemma_ends_in_name(f: Seq<char>, n: Seq<char>)
    requires
        plain_name(n),
    ensures
        ({
            let slash = Separator::Char('/');
            let p = f.push('/') + n;
            &&& crate::files::to_last_name(p, slash) == p
            &&& crate::files::name_start(p, slash) == f.len() + 1
        }),
{
    let slash = Separator::Char('/');
    let p = f.push('/') + n;
    assert(n.contains(n[n.len() - 1]));
    assert(p.last() == n[n.len() - 1]);
    if p.last() == '.' && p[p.len() - 2] == '/' {
        if n.len() == 1 {
            assert(n =~= seq!['.']);
        } else {
            assert(n.contains(n[n.len() - 2]));
        }
    }
    lemma_start(f, n);
}

proof fn lemma_start(f: Seq<char>, n: Seq<char>)
    requires
        !n.contains('/'),
    ensures
        crate::files::name_start(f.push('/') + n, Separator::Char('/')) == f.len() + 1,
    decreases n.len(),
{
    let p = f.push('/') + n;
    if n.len() == 0 {
        assert(p =~= f.push('/'));
    } else {
        let less = n.drop_last();
        assert(!less.contains('/')) by {
            if less.contains('/') {
                let i = less.index_of('/');
                assert(n[i] == '/');
            }
        }
        assert(n.contains(n[n.len() - 1]));
        assert(p.last() == n.last());
        assert(p.drop_last() =~= f.push('/') + less);
        lemma_start(f, less);
    }
}

proof fn lemma_no_prefix(p: Seq<char>)
    ensures
        crate::host::written_prefix(Host::Linux, p) == Seq::<char>::empty(),
        crate::host::unprefixed(Host::Linux, p) == p,
        crate::host::separator_of(Host::Linux, p) == Separator::Char('/'),
        crate::host::joint(Host::Linux) == '/',
{
    assert(crate::host::written_prefix(Host::Linux, p) =~= Seq::empty());
}

/// The folder of a file is what stands in front of its name, and is what is shown where the
/// file is to be revealed.
pub proof fn law_folders_stand_in_front_of_names(f: Seq<char>, n: Seq<char>)
    requires
        plain_folder(f),
        plain_name(n),
    ensures
        crate::launch::folder_above(f.push('/') + n) == f,
        crate::launch::folder_above(seq!['/'] + n) == seq!['/'],
        crate::launch::opener(Host::Linux, true, f.push('/') + n).1 == seq![f],
        crate::launch::opener(Host::Linux, false, f.push('/') + n).1 == seq![f.push('/') + n],
        crate::launch::opener(Host::MacOs, true, f.push('/') + n).1 == seq![
            "-R"@,
            f.push('/') + n,
        ],
{
    let slash = Separator::Char('/');
    let none = Seq::<char>::empty();
    let p = f.push('/') + n;
    lemma_ends_in_name(f, n);
    lemma_ends_in_name(none, n);
    assert(p.take((f.len() + 1) as int) =~= f.push('/'));
    assert(f.push('/').drop_last() =~= f);
    assert(crate::files::to_last_name(f.push('/'), slash) == crate::files::to_last_name(f, slash));
    let q = seq!['/'] + n;
    assert(none.push('/') + n =~= q);
    assert(q.take(1) =~= seq!['/']);
    assert(seq!['/'].drop_last() =~= none);
    assert(crate::files::to_last_name(seq!['/'], slash) == crate::files::to_last_name(none, slash));
    reveal_strlit("/");
    assert("/"@ =~= seq!['/']);
}

/// Another last name stands in the same folder.
pub proof fn law_renamed_files_stay_in_their_folder(f: Seq<char>, n: Seq<char>, other: Seq<char>)
    requires
        plain_folder(f),
        plain_name(n),
    ensures
        crate::launch::with_file_name(Host::Linux, f.push('/') + n, other) == f.push('/') + other,
{
    let slash = Separator::Char('/');
    let p = f.push('/') + n;
    lemma_no_prefix(p);
    lemma_ends_in_name(f, n);
    assert(p.skip((f.len() + 1) as int) =~= n);
    assert(p.take((f.len() + 1) as int) =~= f.push('/'));
    assert(f.push('/').drop_last() =~= f);
    assert(crate::files::to_last_name(f.push('/'), slash) == crate::files::to_last_name(f, slash));
    let none = Seq::<char>::empty();
    assert(none + (f.push('/') + other) =~= f.push('/') + other);
}

/// Another extension takes the place of the one that a name has, or is put behind a name that
/// has none; a dot in front of a name begins none.
#[verifier::rlimit(40)]
pub proof fn law_extensions_are_replaced(
    f: Seq<char>,
    stem: Seq<char>,
    e: Seq<char>,
    extension: Seq<char>,
)
    requires
        plain_name(stem),
        !e.contains('.') && !e.contains('/'),
        !stem.drop_first().contains('.'),
        stem[0] != '.' || stem.len() > 1,
    ensures
        crate::files::with_extension(
            Host::Linux,
            f.push('/') + (stem.push('.') + e),
            extension,
        ) == f.push('/') + (stem.push('.') + extension),
        crate::files::with_extension(Host::Linux, f.push('/') + stem, extension) == f.push('/') + (
        stem.push('.') + extension),
{
    let slash = Separator::Char('/');
    let none = Seq::<char>::empty();
    let whole = stem.push('.') + e;
    let p = f.push('/') + whole;
    let q = f.push('/') + stem;
    assert(plain_name(whole)) by {
        assert(whole[stem.len() as int] == '.');
        if whole.contains('/') {
            let i = whole.index_of('/');
            if i < stem.len() {
                assert(stem[i] == '/');
            } else if i > stem.len() {
                assert(e[i - stem.len() - 1] == '/');
            }
        }
        if whole == seq!['.'] {
            assert(stem.len() == 0);
        }
        if whole == seq!['.', '.'] {
            assert(whole[0] == stem[0]);
            assert(stem.len() == 1);
            assert(stem =~= seq!['.']);
        }
    }
    lemma_no_prefix(p);
    lemma_no_prefix(q);
    lemma_ends_in_name(f, whole);
    lemma_ends_in_name(f, stem);
    assert(p.skip((f.len() + 1) as int) =~= whole);
    assert(q.skip((f.len() + 1) as int) =~= stem);
    crate::text::lemma_last_index(whole, '.');
    crate::text::lemma_last_index(stem, '.');
    let dot = crate::text::last_index(whole, '.');
    assert(whole[stem.len() as int] == '.');
    if dot > stem.len() {
        assert(whole[dot] == e[dot - stem.len() - 1]);
        assert(e.contains(e[dot - stem.len() - 1]));
    }
    assert(dot == stem.len());
    let at = crate::text::last_index(stem, '.');
    if at > 0 {
        assert(stem.drop_first()[at - 1] == '.');
    }
    assert(p.take(f.len() + 1 + dot) =~= f.push('/') + stem);
    assert((f.push('/') + stem).push('.') + extension =~= f.push('/') + (stem.push('.')
        + extension));
    assert(none + (f.push('/') + (stem.push('.') + extension)) =~= f.push('/') + (stem.push('.')
        + extension));
}

/// The components of a Unix path are the top and its names, in order.
#[verifier::rlimit(40)]
pub proof fn law_components_are_the_names(f: Seq<char>, n: Seq<char>)
    requires
        n.len() > 0,
        !n.contains('/'),
        n != seq!['.'],
    ensures
        crate::host::path_parts(Host::Linux, seq!['/'] + n) == seq![seq!['/'], n],
        f.len() > 0 && f[0] == '/' ==> crate::host::path_parts(Host::Linux, f.push('/') + n)
            == crate::host::path_parts(Host::Linux, f).push(n),
        f.len() > 0 && f[0] == '/' ==> crate::host::path_parts(Host::Linux, f.push('/'))
            == crate::host::path_parts(Host::Linux, f),
{
    let sep = Separator::Char('/');
    let none = Seq::<char>::empty();
    assert forall|i: int| 0 <= i < n.len() implies !sep.has(#[trigger] n[i]) by {
        assert(n.contains(n[i]));
    }
    lemma_split_solid(n, sep);
    lemma_split_solid(none, sep);
    lemma_split_at(f, '/', n, sep);
    lemma_split_at(f, '/', none, sep);
    lemma_split_at(none, '/', n, sep);
    assert(none.push('/') + n =~= seq!['/'] + n);
    assert(f.push('/') + none =~= f.push('/'));
    let parts = crate::text::split(f, sep);
    let more = crate::text::split(f.push('/') + n, sep);
    let ended = crate::text::split(f.push('/'), sep);
    let top = crate::text::split(seq!['/'] + n, sep);
    assert(more =~= parts.push(n));
    assert(ended =~= parts.push(none));
    assert(top =~= seq![none, n]);
    assert(parts.push(n).drop_last() =~= parts);
    assert(parts.push(none).drop_last() =~= parts);
    assert(seq![none, n].drop_last() =~= seq![none]);
    assert(seq![none].drop_last() =~= Seq::empty());
    assert(crate::host::named(parts.push(n)) == crate::host::named(parts).push(n));
    assert(crate::host::named(parts.push(none)) == crate::host::named(parts));
    reveal_with_fuel(crate::host::named, 3);
    assert(crate::host::named(seq![none, n]) =~= seq![n]);
    assert(crate::host::path_parts(Host::Linux, seq!['/'] + n) =~= seq![seq!['/'], n]);
    if f.len() > 0 && f[0] == '/' {
        assert((f.push('/') + n)[0] == '/');
        assert(f.push('/')[0] == '/');
        assert(crate::host::path_parts(Host::Linux, f.push('/') + n) =~= crate::host::path_parts(
            Host::Linux,
            f,
        ).push(n));
    }
}

// ---------------------------------------------------------------------------
// Places of files

/// The index that is opened is the one asked for; where none is, the one that the settings
/// name; where they name none, the one built last; and else the default.
pub proof fn law_the_nearest_wish_decides(
    explicit: Option<Seq<char>>,
    configured: Option<Seq<char>>,
    remembered: Option<Seq<char>>,
    default: Seq<char>,
)
    ensures
        ({
            let r = crate::paths::resolved(explicit, configured, remembered, default);
            &&& explicit is Some ==> r == explicit->0
            &&& explicit is None && configured is Some ==> r == configured->0
            &&& explicit is None && configured is None && remembered is Some ==> r == remembered->0
            &&& explicit is None && configured is None && remembered is None ==> r == default
        }),
{
}

/// The first of two settings names the index, the older one where it is not set; an empty one
/// names none.
pub proof fn law_settings_name_the_index(setting: Option<Seq<char>>, older: Option<Seq<char>>)
    ensures
        ({
            let r = crate::paths::configured_index(setting, older);
            &&& setting is Some && setting->0.len() > 0 ==> r == setting
            &&& setting is Some && setting->0.len() == 0 ==> r is None
            &&& setting is None && older is Some && older->0.len() > 0 ==> r == older
            &&& setting is None && (older is None || older->0.len() == 0) ==> r is None
        }),
{
}

/// A file of the program lies where the user or the system keeps such files, else below the
/// home of the user, and else among temporary files; folders that are not absolute do not
/// count.
pub proof fn law_files_lie_where_the_user_keeps_them(
    preferred: Option<Seq<char>>,
    home: Option<Seq<char>>,
    temporary: Seq<char>,
    below_home: Seq<char>,
    name: Seq<char>,
)
    ensures
        ({
            let host = Host::Linux;
            let r = crate::paths::file_place(host, preferred, home, temporary, below_home, name);
            let first = preferred is Some && preferred->0.len() > 0 && preferred->0[0] == '/';
            let second = home is Some && home->0.len() > 0 && home->0[0] == '/';
            &&& first && preferred->0.last() != '/' ==> r == preferred->0 + seq!['/'] + name
            &&& !first && second && home->0.last() != '/' && below_home.len() > 0
                && below_home.last() != '/' ==> r == home->0 + seq!['/'] + below_home + seq!['/']
                + name
            &&& !first && !second && temporary.len() > 0 && temporary.last() != '/' ==> r
                == temporary + seq!['/'] + name
        }),
{
    let host = Host::Linux;
    let first = preferred is Some && preferred->0.len() > 0 && preferred->0[0] == '/';
    let second = home is Some && home->0.len() > 0 && home->0[0] == '/';
    if first && preferred->0.last() != '/' {
        assert(preferred->0.push('/') + name =~= preferred->0 + seq!['/'] + name);
    }
    if second && home->0.last() != '/' && below_home.len() > 0 && below_home.last() != '/' {
        let h = home->0;
        let folder = h.push('/') + below_home;
        assert(folder.last() == below_home.last());
        assert(folder.push('/') + name =~= h + seq!['/'] + below_home + seq!['/'] + name);
    }
    if temporary.len() > 0 && temporary.last() != '/' {
        assert(temporary.push('/') + name =~= temporary + seq!['/'] + name);
    }
}

/// The files that the writer of an index changes beside it, and that a watch leaves out: the
/// index, its log and the lock of that, and what is staged or marked while it is replaced.
pub proof fn law_own_files_are_left_out(host: Host, base: Seq<char>)
    ensures
        ({
            let own = crate::files::own_files(host, base);
            let log = crate::files::with_extension(host, base, "delta"@);
            &&& own.contains(base)
            &&& own.contains(log)
            &&& own.contains(log + ".lock"@)
            &&& own.contains(base + ".new"@)
            &&& own.contains(base + ".compact"@)
            &&& own.contains(base + ".compact"@ + ".new"@)
            &&& own.contains(base + ".compacting"@)
            &&& own.contains(base + ".compacting.new"@)
            &&& own.contains(base + ".stale"@)
            &&& own.contains(base + ".stale"@ + ".new"@)
        }),
{
    let own = crate::files::own_files(host, base);
    let log = crate::files::with_extension(host, base, "delta"@);
    assert(own[0] == base);
    assert(own[1] == log);
    assert(own[2] == log + ".lock"@);
    assert(own[3] == base + ".new"@);
    assert(own[4] == base + ".compact"@);
    assert(own[5] == base + ".compact"@ + ".new"@);
    assert(own[6] == base + ".compacting"@);
    assert(own[7] == base + ".compacting.new"@);
    assert(own[8] == base + ".stale"@);
    assert(own[9] == base + ".stale"@ + ".new"@);
}

} // verus!
