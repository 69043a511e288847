//! Where the program keeps its files, and which index it opens.

use crate::host::Host;
use crate::text::Separator;
use vstd::prelude::*;

verus! {

// ---------------------------------------------------------------------------
// Places

/// What the environment says of places.
pub struct Places {
    /// Where the system or the user keeps such files.
    pub preferred: Option<String>,
    pub home: Option<String>,
    pub temporary: String,
}

/// A name in a folder. In a verbatim folder of Windows only backslashes separate.
pub open spec fn below(host: Host, folder: Seq<char>, name: Seq<char>) -> Seq<char> {
    let sep = crate::host::separator_of(host, folder);
    let tail = if sep.is_verbatim() {
        crate::text::replace_char(name, '/', '\\')
    } else {
        name
    };
    if folder.len() == 0 || sep.has(folder.last()) || is_bare_drive(host, folder) {
        folder + tail
    } else {
        folder.push(crate::host::joint(host)) + tail
    }
}

/// A drive of Windows without the top behind it.
pub open spec fn is_bare_drive(host: Host, p: Seq<char>) -> bool {
    host == Host::Windows && p.len() == 2 && crate::text::is_letter(p[0]) && p[1] == ':'
}

/// Puts a name in a folder.
pub fn place_below(host: Host, folder: &str, name: &str) -> (r: String)
    ensures
        r@ == below(host, folder@, name@),
{
    let mut chars = crate::text::chars_of(folder);
    let n: usize = chars.len();
    let (front, rest, sep): (Vec<char>, Vec<char>, Separator) = crate::host::without_prefix(
        host,
        chars.as_slice(),
    );
    let bare: bool = host == Host::Windows && n == 2 && crate::text::letter(chars[0]) && chars[1]
        == ':';
    if n > 0 && !sep.test(chars[n - 1]) && !bare {
        chars.push(crate::host::joint_of(host));
    }
    let given = crate::text::chars_of(name);
    let tail = if sep.verbatim() {
        crate::text::replaced(given.as_slice(), '/', '\\')
    } else {
        given
    };
    crate::text::push_all(&mut chars, tail.as_slice());
    assert(chars@ =~= below(host, folder@, name@));
    crate::text::string_of(chars.as_slice())
}

/// A file of the program: in the preferred folder where that is absolute, else in a folder
/// below home where that is absolute, else among temporary files.
pub open spec fn file_place(
    host: Host,
    preferred: Option<Seq<char>>,
    home: Option<Seq<char>>,
    temporary: Seq<char>,
    below_home: Seq<char>,
    name: Seq<char>,
) -> Seq<char> {
    if preferred is Some && crate::host::host_absolute(host, preferred->0) {
        below(host, preferred->0, name)
    } else if home is Some && crate::host::host_absolute(host, home->0) {
        below(host, below(host, home->0, below_home), name)
    } else {
        below(host, temporary, name)
    }
}

/// Finds the place of a file of the program.
pub fn place_of_file(host: Host, p: &Places, below_home: &str, name: &str) -> (r: String)
    ensures
        r@ == file_place(
            host,
            crate::launch::some_text(p.preferred),
            crate::launch::some_text(p.home),
            p.temporary@,
            below_home@,
            name@,
        ),
{
    if let Some(x) = &p.preferred {
        let chars = crate::text::chars_of(x.as_str());
        if crate::host::is_absolute(host, chars.as_slice()) {
            return place_below(host, x.as_str(), name);
        }
    }
    if let Some(x) = &p.home {
        let chars = crate::text::chars_of(x.as_str());
        if crate::host::is_absolute(host, chars.as_slice()) {
            let folder = place_below(host, x.as_str(), below_home);
            return place_below(host, folder.as_str(), name);
        }
    }
    place_below(host, p.temporary.as_str(), name)
}

/// The files that the program keeps.
#[derive(Debug, Clone, Copy, PartialEq, Eq, Structural)]
pub enum ProgramFile {
    /// The durable index.
    Index,
    /// The place of the index that was built last.
    Pointer,
    /// The settings of the window.
    Settings,
    /// The cache that the window once kept.
    Cache,
}

/// The name of a file of the program.
pub open spec fn file_name_of(file: ProgramFile) -> Seq<char> {
    match file {
        ProgramFile::Index => "index.nsx"@,
        ProgramFile::Pointer => "last-index.bin"@,
        ProgramFile::Settings => "gui-settings.json"@,
        ProgramFile::Cache => "index.bin"@,
    }
}

/// Where a file of the program lies. Windows knows no folder below home, macOS no preferred
/// one.
pub open spec fn program_place(host: Host, file: ProgramFile, p: Places) -> Seq<char> {
    let preferred = crate::launch::some_text(p.preferred);
    let home = crate::launch::some_text(p.home);
    match host {
        Host::Windows => file_place(
            host,
            preferred,
            None,
            p.temporary@,
            ""@,
            "Neutrasearch/"@ + file_name_of(file),
        ),
        Host::MacOs => file_place(
            host,
            None,
            home,
            p.temporary@,
            if file == ProgramFile::Cache {
                "Library/Caches"@
            } else {
                "Library/Application Support"@
            },
            "Neutrasearch/"@ + file_name_of(file),
        ),
        Host::Linux => file_place(
            host,
            preferred,
            home,
            p.temporary@,
            match file {
                ProgramFile::Index => ".local/share"@,
                ProgramFile::Cache => ".cache"@,
                _ => ".config"@,
            },
            "neutrasearch/"@ + file_name_of(file),
        ),
    }
}

/// Finds where a file of the program lies.
pub fn program_file(host: Host, file: ProgramFile, p: &Places) -> (r: String)
    ensures
        r@ == program_place(host, file, *p),
{
    let name = match file {
        ProgramFile::Index => "index.nsx",
        ProgramFile::Pointer => "last-index.bin",
        ProgramFile::Settings => "gui-settings.json",
        ProgramFile::Cache => "index.bin",
    };
    match host {
        Host::Windows => {
            let q = Places {
                preferred: p.preferred.clone(),
                home: None,
                temporary: p.temporary.clone(),
            };
            assert(crate::launch::some_text(q.preferred) == crate::launch::some_text(p.preferred));
            let full = crate::text::joined("Neutrasearch/", name);
            place_of_file(host, &q, "", full.as_str())
        },
        Host::MacOs => {
            let q = Places { preferred: None, home: p.home.clone(), temporary: p.temporary.clone() };
            assert(crate::launch::some_text(q.home) == crate::launch::some_text(p.home));
            let full = crate::text::joined("Neutrasearch/", name);
            let folder = if file == ProgramFile::Cache {
                "Library/Caches"
            } else {
                "Library/Application Support"
            };
            place_of_file(host, &q, folder, full.as_str())
        },
        Host::Linux => {
            let full = crate::text::joined("neutrasearch/", name);
            let folder = match file {
                ProgramFile::Index => ".local/share",
                ProgramFile::Cache => ".cache",
                _ => ".config",
            };
            place_of_file(host, p, folder, full.as_str())
        },
    }
}

/// The index where nothing else was chosen.
pub fn default_index_path(host: Host, p: &Places) -> (r: String)
    ensures
        r@ == program_place(host, ProgramFile::Index, *p),
{
    program_file(host, ProgramFile::Index, p)
}

/// A file of the window: the configured index in its place, where there is one.
pub open spec fn cache_place(
    host: Host,
    file: ProgramFile,
    configured: Option<String>,
    p: Places,
) -> Seq<char> {
    match configured {
        Some(c) => c@,
        None => program_place(host, file, p),
    }
}

/// The index that the window opens: the configured one, or the durable one of the user.
pub fn compact_cache_path(host: Host, configured: Option<String>, p: &Places) -> (r: String)
    ensures
        r@ == cache_place(host, ProgramFile::Index, configured, *p),
{
    match configured {
        Some(c) => c,
        None => program_file(host, ProgramFile::Index, p),
    }
}

/// The cache that an older window kept: in the configured place, or among the user's caches.
pub fn legacy_cache_path(host: Host, configured: Option<String>, p: &Places) -> (r: String)
    ensures
        r@ == cache_place(host, ProgramFile::Cache, configured, *p),
{
    match configured {
        Some(c) => c,
        None => program_file(host, ProgramFile::Cache, p),
    }
}

/// The settings of the window.
pub fn gui_settings_path(host: Host, p: &Places) -> (r: String)
    ensures
        r@ == program_place(host, ProgramFile::Settings, *p),
{
    program_file(host, ProgramFile::Settings, p)
}

/// The folders of the whole machine. On Windows these are the drives; where none was found,
/// the system drive.
pub fn default_system_roots(host: Host, drives: Vec<String>) -> (r: Vec<String>)
    ensures
        crate::text::strings(r@) == if host == Host::Windows {
            if drives@.len() > 0 {
                crate::text::strings(drives@)
            } else {
                seq!["C:\\"@]
            }
        } else {
            seq!["/"@]
        },
{
    let mut one: Vec<String> = Vec::new();
    if host == Host::Windows {
        if drives.len() > 0 {
            return drives;
        }
        one.push("C:\\".to_owned());
        assert(crate::text::strings(one@) =~= seq!["C:\\"@]);
    } else {
        one.push("/".to_owned());
        assert(crate::text::strings(one@) =~= seq!["/"@]);
    }
    one
}

// ---------------------------------------------------------------------------
// Which index is opened

/// The first text that is there.
pub open spec fn either(a: Option<Seq<char>>, b: Option<Seq<char>>) -> Option<Seq<char>> {
    if a is Some {
        a
    } else {
        b
    }
}

/// The index that the settings name: the first of the two settings, unless it is empty.
pub open spec fn configured_index(
    setting: Option<Seq<char>>,
    older: Option<Seq<char>>,
) -> Option<Seq<char>> {
    match either(setting, older) {
        Some(t) if t.len() > 0 => Some(t),
        _ => None,
    }
}

/// Finds the index that the settings name.
pub fn configured_index_path(setting: Option<String>, older: Option<String>) -> (r: Option<String>)
    ensures
        crate::launch::some_text(r) == configured_index(
            crate::launch::some_text(setting),
            crate::launch::some_text(older),
        ),
{
    let chosen = match setting {
        Some(t) => Some(t),
        None => older,
    };
    match chosen {
        Some(t) => {
            let chars = crate::text::chars_of(t.as_str());
            if chars.len() > 0 {
                Some(t)
            } else {
                None
            }
        },
        None => None,
    }
}

/// `bincode::deserialize` of a text: eight bytes of length, little-endian, and so many bytes
/// of UTF-8; what follows is not looked at. Anything else is an error.
#[verifier::external_body]
fn parse_text(bytes: &[u8]) -> (r: Option<String>)
    ensures
        match r {
            Some(t) => match crate::reader::text(bytes@, 0) {
                Some((x, _)) => t@ == x,
                None => false,
            },
            None => crate::reader::text(bytes@, 0) is None,
        },
{
    bincode::deserialize::<String>(bytes).ok()
}

/// `bincode::serialize` of a text, which never fails: eight bytes of length, little-endian,
/// and its UTF-8.
#[verifier::external_body]
fn print_text(text: &str) -> (r: Option<Vec<u8>>)
    ensures
        match r {
            Some(b) => b@ == crate::codec::text_bytes(text@),
            None => false,
        },
{
    bincode::serialize(text).ok()
}

/// The place in such a file; none where it is not an absolute path.
pub open spec fn pointed_at(host: Host, file: Option<Seq<u8>>) -> Option<Seq<char>> {
    match file {
        None => None,
        Some(b) => match crate::reader::text(b, 0) {
            Some((p, _)) if crate::host::host_absolute(host, p) => Some(p),
            _ => None,
        },
    }
}

/// The bytes of a file that may be missing.
pub open spec fn some_bytes(b: Option<Vec<u8>>) -> Option<Seq<u8>> {
    match b {
        Some(v) => Some(v@),
        None => None,
    }
}

/// The index that was built last, from the file that holds its place.
pub fn last_index_path(host: Host, pointer: Option<Vec<u8>>) -> (r: Option<String>)
    ensures
        crate::launch::some_text(r) == pointed_at(host, some_bytes(pointer)),
{
    match pointer {
        None => None,
        Some(b) => match parse_text(b.as_slice()) {
            None => None,
            Some(t) => {
                let chars = crate::text::chars_of(t.as_str());
                if crate::host::is_absolute(host, chars.as_slice()) {
                    Some(t)
                } else {
                    None
                }
            },
        },
    }
}

/// What to write so that an index, which is resolved already, is found again; nothing where
/// it would be found as it is.
pub enum Remembering {
    Kept,
    Write(Vec<u8>),
}

/// Remembers an index that was built.
pub fn remember_index_path(host: Host, index: &str, pointer: Option<Vec<u8>>) -> (r: Remembering)
    ensures
        ({
            let last = pointed_at(host, some_bytes(pointer));
            let same = last is Some && crate::host::same_path(host, last->0, index@);
            &&& r is Kept <==> same
            &&& r matches Remembering::Write(b) ==> b@ == crate::codec::text_bytes(index@)
        }),
{
    if let Some(last) = last_index_path(host, pointer) {
        if crate::host::same(host, last.as_str(), index) {
            return Remembering::Kept;
        }
    }
    match print_text(index) {
        Some(b) => Remembering::Write(b),
        None => Remembering::Kept,
    }
}

/// The index that is opened: the one asked for, the configured one, the one built last, or
/// the default, in this order.
pub open spec fn resolved(
    explicit: Option<Seq<char>>,
    configured: Option<Seq<char>>,
    remembered: Option<Seq<char>>,
    default: Seq<char>,
) -> Seq<char> {
    match either(either(explicit, configured), remembered) {
        Some(p) => p,
        None => default,
    }
}

/// Chooses the index that is opened.
pub fn resolve_index_path_from(
    explicit: Option<String>,
    configured: Option<String>,
    remembered: Option<String>,
    default: String,
) -> (r: String)
    ensures
        r@ == resolved(
            crate::launch::some_text(explicit),
            crate::launch::some_text(configured),
            crate::launch::some_text(remembered),
            default@,
        ),
{
    if let Some(p) = explicit {
        return p;
    }
    if let Some(p) = configured {
        return p;
    }
    match remembered {
        Some(p) => p,
        None => default,
    }
}

/// Chooses the index that is opened from the settings, the file that holds the place of the
/// index built last, and the places for files.
pub fn resolve_index_path(
    host: Host,
    explicit: Option<String>,
    setting: Option<String>,
    older: Option<String>,
    pointer: Option<Vec<u8>>,
    p: &Places,
) -> (r: String)
    ensures
        r@ == resolved(
            crate::launch::some_text(explicit),
            configured_index(crate::launch::some_text(setting), crate::launch::some_text(older)),
            pointed_at(host, some_bytes(pointer)),
            program_place(host, ProgramFile::Index, *p),
        ),
{
    let configured = configured_index_path(setting, older);
    let remembered = last_index_path(host, pointer);
    let default = default_index_path(host, p);
    resolve_index_path_from(explicit, configured, remembered, default)
}

/// A place that was written down is found again.
pub proof fn law_pointers_are_read_back(host: Host, path: Seq<char>)
    requires
        crate::host::host_absolute(host, path),
        crate::codec::text_bytes(path).len() <= usize::MAX,
    ensures
        pointed_at(host, Some(crate::codec::text_bytes(path))) == Some(path),
{
    let b = crate::codec::text_bytes(path);
    assert(b.subrange(0, b.len() as int) =~= b);
    crate::reader::lemma_text_there(b, 0, path);
}

} // verus!
