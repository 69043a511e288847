//! Which programs and files the privileged Windows service trusts.
//!
//! The service runs from Program Files, and serves only the window that is installed beside
//! it. Nobody but the system and its administrators may be able to change either.

use crate::proto::HelperMsg;
use crate::text::Separator;
use vstd::prelude::*;

verus! {

/// The name of the service.
pub const SERVICE_NAME: &'static str = "NeutrasearchHelper";

/// A text without a prefix, however often it stands there.
pub open spec fn without_prefix(s: Seq<char>, prefix: Seq<char>) -> Seq<char>
    decreases s.len(),
{
    if prefix.len() > 0 && prefix.is_prefix_of(s) {
        without_prefix(s.skip(prefix.len() as int), prefix)
    } else {
        s
    }
}

/// A Windows path as it is held against another: no extended prefix, backslashes, none at the
/// end, lower case.
pub open spec fn windows_form(path: Seq<char>) -> Seq<char> {
    crate::text::lowercase(
        crate::text::trim_end(
            crate::text::replace_char(without_prefix(path, "\\\\?\\"@), '/', '\\'),
            Separator::Char('\\'),
        ),
    )
}

/// Brings a Windows path into the form in which it is held against another.
pub fn normalize_windows_path(path: &str) -> (r: String)
    ensures
        r@ == windows_form(path@),
{
    let chars = crate::text::chars_of(path);
    let n: usize = chars.len();
    let mut from: usize = 0;
    assert(chars@.skip(0) =~= chars@);
    while n - from >= 4 && chars[from] == '\\' && chars[from + 1] == '\\' && chars[from + 2] == '?'
        && chars[from + 3] == '\\'
        invariant
            from <= n == chars@.len(),
            without_prefix(chars@.skip(from as int), "\\\\?\\"@) == without_prefix(
                chars@,
                "\\\\?\\"@,
            ),
        decreases n - from,
    {
        proof {
            reveal_strlit("\\\\?\\");
            let s = chars@.skip(from as int);
            assert("\\\\?\\"@ =~= s.take(4));
            assert(s.skip(4) =~= chars@.skip(from + 4));
        }
        from += 4;
    }
    let bare = crate::text::part(chars.as_slice(), from, n);
    proof {
        reveal_strlit("\\\\?\\");
        let s = chars@.skip(from as int);
        assert(bare@ =~= s);
        if "\\\\?\\"@.is_prefix_of(s) {
            let p = "\\\\?\\"@;
            assert(p[0] == s[0] && p[1] == s[1] && p[2] == s[2] && p[3] == s[3]);
            assert(s[0] == chars@[from as int] && s[3] == chars@[from + 3]);
        }
    }
    let slashed = crate::text::replaced(bare.as_slice(), '/', '\\');
    let keep: usize = crate::text::end_run(slashed.as_slice(), Separator::Char('\\'));
    let cut = crate::text::part(slashed.as_slice(), 0, keep);
    assert(cut@ =~= crate::text::trim_end(slashed@, Separator::Char('\\')));
    let text = crate::text::string_of(cut.as_slice());
    crate::text::to_lowercase(text.as_str())
}

/// Two paths name the same place.
pub open spec fn same_place(a: Seq<char>, b: Seq<char>) -> bool {
    windows_form(a) == windows_form(b)
}

/// Whether two paths name the same place.
pub fn windows_path_eq(left: &str, right: &str) -> (r: bool)
    ensures
        r == same_place(left@, right@),
{
    let a = normalize_windows_path(left);
    let b = normalize_windows_path(right);
    crate::text::same_text(a.as_str(), b.as_str())
}

/// A path lies below a root.
pub open spec fn is_below(path: Seq<char>, root: Seq<char>) -> bool {
    let p = windows_form(path);
    let r = windows_form(root);
    r.is_prefix_of(p) && p.len() > r.len() && p[r.len() as int] == '\\'
}

/// Whether a path lies below a root.
pub fn windows_path_is_under(path: &str, root: &str) -> (out: bool)
    ensures
        out == is_below(path@, root@),
{
    let a = normalize_windows_path(path);
    let b = normalize_windows_path(root);
    let p = crate::text::chars_of(a.as_str());
    let r = crate::text::chars_of(b.as_str());
    let n: usize = r.len();
    crate::text::starts_with(p.as_slice(), r.as_slice()) && p.len() > n && p[n] == '\\'
}

// ---------------------------------------------------------------------------
// Clients

/// A separator of Windows paths.
pub open spec fn is_separator(c: char) -> bool {
    c == '\\' || c == '/'
}

/// A path without separators at its end.
pub open spec fn ended(path: Seq<char>) -> Seq<char> {
    crate::text::trim_end(path, Separator::Slash)
}

/// Where the name at the end of a path begins: behind the last separator, or behind the drive.
pub open spec fn name_start(path: Seq<char>) -> int
    decreases path.len(),
{
    if path.len() == 0 || is_separator(path.last()) || (path.len() == 2 && path[1] == ':'
        && crate::text::is_letter(path[0])) {
        path.len() as int
    } else {
        name_start(path.drop_last())
    }
}

/// The name at the end of a path; empty where there is none.
pub open spec fn last_name(path: Seq<char>) -> Seq<char> {
    ended(path).skip(name_start(ended(path)))
}

/// The folder of a path; none where the path is only a root.
pub open spec fn folder_of(path: Seq<char>) -> Option<Seq<char>> {
    if last_name(path).len() == 0 {
        None
    } else {
        Some(ended(path).take(name_start(ended(path))))
    }
}

/// Why a client is refused.
pub open spec fn client_fault(helper: Seq<char>, client: Seq<char>) -> Option<Seq<char>> {
    if folder_of(helper) is None {
        Some("installed helper has no parent directory"@)
    } else if folder_of(client) is None {
        Some("pipe client has no parent directory"@)
    } else if crate::text::ascii_lower_all(last_name(client)) != "neutrasearch.exe"@ || !same_place(
        folder_of(helper)->0,
        folder_of(client)->0,
    ) {
        Some(
            "client must be the installed Neutrasearch GUI beside the service helper (got "@
                + client + ")"@,
        )
    } else {
        None
    }
}

fn taken_apart(path: &str) -> (r: (String, String))
    ensures
        r.0@ == ended(path@).take(name_start(ended(path@))),
        r.1@ == last_name(path@),
{
    let chars = crate::text::chars_of(path);
    let keep: usize = crate::text::end_run(chars.as_slice(), Separator::Slash);
    let bare = crate::text::part(chars.as_slice(), 0, keep);
    assert(bare@ =~= ended(path@));
    let n: usize = bare.len();
    let mut at: usize = n;
    assert(bare@.take(at as int) =~= bare@);
    while at > 0 && bare[at - 1] != '\\' && bare[at - 1] != '/' && !(at == 2 && bare[1] == ':'
        && crate::text::letter(bare[0]))
        invariant
            at <= n == bare@.len(),
            name_start(bare@.take(at as int)) == name_start(bare@),
        decreases at,
    {
        assert(bare@.take(at as int).drop_last() =~= bare@.take(at - 1));
        assert(bare@.take(at as int).last() == bare@[at - 1]);
        at -= 1;
    }
    proof {
        let t = bare@.take(at as int);
        if at > 0 {
            assert(t.last() == bare@[at - 1]);
        }
        assert(name_start(bare@) == at);
    }
    let folder = crate::text::part(bare.as_slice(), 0, at);
    let name = crate::text::part(bare.as_slice(), at, n);
    assert(folder@ =~= bare@.take(at as int));
    assert(name@ =~= bare@.skip(at as int));
    (crate::text::string_of(folder.as_slice()), crate::text::string_of(name.as_slice()))
}

/// Refuses a client that is not the installed window beside the helper.
pub fn validate_client_path(helper: &str, client: &str) -> (r: Result<(), String>)
    ensures
        match r {
            Ok(_) => client_fault(helper@, client@) is None,
            Err(e) => client_fault(helper@, client@) == Some(e@),
        },
{
    let (expected, helper_name): (String, String) = taken_apart(helper);
    let (folder, name): (String, String) = taken_apart(client);
    let helper_chars = crate::text::chars_of(helper_name.as_str());
    if helper_chars.len() == 0 {
        return Err("installed helper has no parent directory".to_owned());
    }
    let chars = crate::text::chars_of(name.as_str());
    if chars.len() == 0 {
        return Err("pipe client has no parent directory".to_owned());
    }
    let low = crate::text::lowered(chars.as_slice());
    let low_text = crate::text::string_of(low.as_slice());
    if !crate::text::same_text(low_text.as_str(), "neutrasearch.exe") || !windows_path_eq(
        expected.as_str(),
        folder.as_str(),
    ) {
        return Err(
            crate::text::joined3(
                "client must be the installed Neutrasearch GUI beside the service helper (got ",
                client,
                ")",
            ),
        );
    }
    Ok(())
}

/// A client that is served is called as the window is, and lies in the folder of the helper.
pub proof fn law_only_the_installed_window_is_served(helper: Seq<char>, client: Seq<char>)
    requires
        client_fault(helper, client) is None,
    ensures
        crate::text::ascii_lower_all(last_name(client)) == "neutrasearch.exe"@,
        windows_form(folder_of(client)->0) == windows_form(folder_of(helper)->0),
{
}

// ---------------------------------------------------------------------------
// The pipe of the service

/// What the system answers where there is no such pipe.
pub const PIPE_NOT_FOUND: i32 = 2;

/// What the system answers where another client holds the pipe.
pub const PIPE_BUSY: i32 = 231;

/// What the window does after the pipe of the service could not be opened.
pub enum PipeStep {
    /// Try again in a moment.
    Wait,
    /// No service is installed: scan without it.
    NotInstalled,
    /// Give up, and say this.
    Refused(String),
}

/// What to do after the pipe of the service could not be opened. `code` is the system's number
/// of the error and `error` its words; `timed_out` says that the time to wait is over, and
/// `installed` that the system knows the service.
pub fn pipe_step(code: Option<i32>, error: &str, timed_out: bool, installed: bool) -> (r: PipeStep)
    ensures
        r is Wait <==> !timed_out && (code == Some(PIPE_NOT_FOUND) || code == Some(PIPE_BUSY)),
        r is NotInstalled <==> timed_out && code == Some(PIPE_NOT_FOUND) && !installed,
        r matches PipeStep::Refused(e) ==> e@ == (if code == Some(PIPE_NOT_FOUND) {
            "the installed scanner service is unavailable; repair or restart the NeutrasearchHelper service"@
        } else if code == Some(PIPE_BUSY) {
            "the installed scanner service is busy with another scan; wait a moment and try again"@
        } else {
            "cannot connect to the installed scanner service: "@ + error@
                + "; repair the Neutrasearch installation"@
        }),
{
    let missing: bool = match code {
        Some(c) => c == PIPE_NOT_FOUND,
        None => false,
    };
    let busy: bool = match code {
        Some(c) => c == PIPE_BUSY,
        None => false,
    };
    if (missing || busy) && !timed_out {
        PipeStep::Wait
    } else if missing {
        if installed {
            PipeStep::Refused(
                "the installed scanner service is unavailable; repair or restart the NeutrasearchHelper service".to_owned(),
            )
        } else {
            PipeStep::NotInstalled
        }
    } else if busy {
        PipeStep::Refused(
            "the installed scanner service is busy with another scan; wait a moment and try again".to_owned(),
        )
    } else {
        PipeStep::Refused(
            crate::text::joined3(
                "cannot connect to the installed scanner service: ",
                error,
                "; repair the Neutrasearch installation",
            ),
        )
    }
}

/// What is wrong with the first answer of the service. `shown` is how the answer reads.
pub open spec fn greeting_fault(
    first: Option<crate::proto::AnswerView>,
    shown: Seq<char>,
) -> Option<Seq<char>> {
    match first {
        None => Some("the installed scanner service closed during handshake"@),
        Some(crate::proto::AnswerView::Hello { proto, .. }) => if proto
            == crate::proto::PROTO_VERSION {
            None
        } else {
            Some(
                "scanner service protocol mismatch: GUI="@ + crate::text::decimal(
                    crate::proto::PROTO_VERSION as nat,
                ) + ", service="@ + crate::text::decimal(proto as nat)
                    + "; repair the installation"@,
            )
        },
        Some(_) => Some("scanner service returned an invalid handshake: "@ + shown),
    }
}

/// Takes the first answer of the service: a greeting in the protocol that the window speaks.
/// `shown` is how the answer reads, for the refusal of anything else.
pub fn service_greeting(first: Option<HelperMsg>, shown: &str) -> (r: Result<HelperMsg, String>)
    ensures
        match r {
            Ok(m) => first == Some(m) && greeting_fault(Some(m@), shown@) is None,
            Err(e) => greeting_fault(
                match first {
                    Some(m) => Some(m@),
                    None => None,
                },
                shown@,
            ) == Some(e@),
        },
{
    match first {
        None => Err("the installed scanner service closed during handshake".to_owned()),
        Some(m) => {
            let spoken: Option<u32> = match &m {
                HelperMsg::Hello { proto, .. } => Some(*proto),
                _ => None,
            };
            match spoken {
                Some(proto) => {
                    if proto == crate::proto::PROTO_VERSION {
                        return Ok(m);
                    }
                    let own = crate::text::decimal_text(crate::proto::PROTO_VERSION as u64);
                    let other = crate::text::decimal_text(proto as u64);
                    let head = crate::text::joined3(
                        "scanner service protocol mismatch: GUI=",
                        own.as_str(),
                        ", service=",
                    );
                    Err(
                        crate::text::joined3(
                            head.as_str(),
                            other.as_str(),
                            "; repair the installation",
                        ),
                    )
                },
                None => Err(
                    crate::text::joined("scanner service returned an invalid handshake: ", shown),
                ),
            }
        },
    }
}

// ---------------------------------------------------------------------------
// Files

/// What a file of the installation is.
#[derive(Debug, Clone, Copy, PartialEq, Eq, Structural)]
pub enum Nature {
    File,
    Folder,
    /// Neither, or a reparse point.
    Other,
}

/// A path of the installation and what is there.
pub struct Installed {
    pub path: String,
    pub nature: Nature,
}

/// What is wrong with the installation. `folders` go from that of the helper upwards to
/// Program Files.
pub open spec fn install_fault(
    directory: Seq<char>,
    program_files: Seq<char>,
    files: Seq<Installed>,
    folders: Seq<Installed>,
) -> Option<Seq<char>> {
    if !is_below(directory, program_files) {
        Some("privileged scanner is outside Program Files: "@ + directory)
    } else if first_not(files, Nature::File) is Some {
        Some(
            "privileged scanner file must be regular and not a reparse point: "@ + first_not(
                files,
                Nature::File,
            )->0,
        )
    } else if first_not(folders, Nature::Folder) is Some {
        Some(
            "privileged scanner directory must not contain reparse points: "@ + first_not(
                folders,
                Nature::Folder,
            )->0,
        )
    } else {
        None
    }
}

/// The first path that is not what it should be.
pub open spec fn first_not(s: Seq<Installed>, nature: Nature) -> Option<Seq<char>>
    decreases s.len(),
{
    if s.len() == 0 {
        None
    } else if s[0].nature != nature {
        Some(s[0].path@)
    } else {
        first_not(s.drop_first(), nature)
    }
}

fn find_not(s: &Vec<Installed>, nature: Nature) -> (r: Option<String>)
    ensures
        match r {
            Some(p) => first_not(s@, nature) == Some(p@),
            None => first_not(s@, nature) is None,
        },
{
    let mut i: usize = 0;
    assert(s@.skip(0) =~= s@);
    while i < s.len()
        invariant
            i <= s@.len(),
            first_not(s@.skip(i as int), nature) == first_not(s@, nature),
        decreases s@.len() - i,
    {
        assert(s@.skip(i as int)[0] == s@[i as int]);
        assert(s@.skip(i as int).drop_first() =~= s@.skip(i + 1));
        if s[i].nature != nature {
            return Some(s[i].path.clone());
        }
        i += 1;
    }
    None
}

/// Refuses an installation outside Program Files, or one that a link leads out of.
pub fn validate_installed_files(
    directory: &str,
    program_files: &str,
    files: &Vec<Installed>,
    folders: &Vec<Installed>,
) -> (r: Result<(), String>)
    ensures
        match r {
            Ok(_) => install_fault(directory@, program_files@, files@, folders@) is None,
            Err(e) => install_fault(directory@, program_files@, files@, folders@) == Some(e@),
        },
{
    if !windows_path_is_under(directory, program_files) {
        return Err(
            crate::text::joined("privileged scanner is outside Program Files: ", directory),
        );
    }
    if let Some(p) = find_not(files, Nature::File) {
        return Err(
            crate::text::joined(
                "privileged scanner file must be regular and not a reparse point: ",
                p.as_str(),
            ),
        );
    }
    if let Some(p) = find_not(folders, Nature::Folder) {
        return Err(
            crate::text::joined(
                "privileged scanner directory must not contain reparse points: ",
                p.as_str(),
            ),
        );
    }
    Ok(())
}

// ---------------------------------------------------------------------------
// Rights

/// The rights with which a file or folder can be changed: to write or append data, to write
/// attributes, to delete it or what it holds, to change its owner or its rights, and the
/// generic rights that imply these.
pub const WRITE_MASK: u32 = 0x500d_0156;

/// An entry of an access list.
pub struct Ace {
    /// 0 is an ordinary permission.
    pub kind: u8,
    pub mask: u32,
    pub sid: String,
}

/// The system or its administrators.
pub open spec fn is_administrator(sid: Seq<char>) -> bool {
    sid == "S-1-5-18"@ || sid == "S-1-5-32-544"@
}

/// What is wrong with an entry: only ordinary permissions are understood, and only
/// administrators may change anything.
pub open spec fn ace_fault(path: Seq<char>, a: Ace) -> Option<Seq<char>> {
    if a.kind != 0 {
        Some("unexpected ACL entry type on "@ + path)
    } else if a.mask & WRITE_MASK != 0 && !is_administrator(a.sid@) {
        Some(
            "non-administrator SID "@ + a.sid@ + " can modify privileged scanner path "@ + path,
        )
    } else {
        None
    }
}

/// What is wrong with the first wrong entry of a list; no list at all protects nothing.
pub open spec fn acl_fault(path: Seq<char>, acl: Option<Seq<Ace>>) -> Option<Seq<char>> {
    match acl {
        None => Some("refusing unprotected null DACL on "@ + path),
        Some(list) => first_fault(path, list),
    }
}

/// What is wrong with the first wrong entry.
pub open spec fn first_fault(path: Seq<char>, list: Seq<Ace>) -> Option<Seq<char>>
    decreases list.len(),
{
    if list.len() == 0 {
        None
    } else if ace_fault(path, list[0]) is Some {
        ace_fault(path, list[0])
    } else {
        first_fault(path, list.drop_first())
    }
}

/// A list that may be missing.
pub open spec fn some_list(acl: Option<&Vec<Ace>>) -> Option<Seq<Ace>> {
    match acl {
        Some(v) => Some(v@),
        None => None,
    }
}

/// Refuses a path that others than administrators can change.
pub fn reject_non_admin_write_acl(path: &str, acl: Option<&Vec<Ace>>) -> (r: Result<(), String>)
    ensures
        match r {
            Ok(_) => acl_fault(path@, some_list(acl)) is None,
            Err(e) => acl_fault(path@, some_list(acl)) == Some(e@),
        },
{
    let list = match acl {
        None => {
            return Err(crate::text::joined("refusing unprotected null DACL on ", path));
        },
        Some(v) => v,
    };
    let mut i: usize = 0;
    assert(list@.skip(0) =~= list@);
    while i < list.len()
        invariant
            i <= list@.len(),
            some_list(acl) == Some(list@),
            first_fault(path@, list@.skip(i as int)) == first_fault(path@, list@),
        decreases list@.len() - i,
    {
        assert(list@.skip(i as int)[0] == list@[i as int]);
        assert(list@.skip(i as int).drop_first() =~= list@.skip(i + 1));
        let ace = &list[i];
        if ace.kind != 0 {
            return Err(crate::text::joined("unexpected ACL entry type on ", path));
        }
        if ace.mask & WRITE_MASK != 0 {
            if !crate::text::same_text(ace.sid.as_str(), "S-1-5-18") && !crate::text::same_text(
                ace.sid.as_str(),
                "S-1-5-32-544",
            ) {
                let head = crate::text::joined3(
                    "non-administrator SID ",
                    ace.sid.as_str(),
                    " can modify privileged scanner path ",
                );
                return Err(crate::text::joined(head.as_str(), path));
            }
        }
        i += 1;
    }
    Ok(())
}

/// Where a path is accepted, every entry that can change it belongs to an administrator.
pub proof fn law_only_administrators_can_change(path: Seq<char>, list: Seq<Ace>, i: int)
    requires
        acl_fault(path, Some(list)) is None,
        0 <= i < list.len(),
        list[i].mask & WRITE_MASK != 0,
    ensures
        is_administrator(list[i].sid@),
    decreases list.len(),
{
    if i > 0 {
        assert(list.drop_first()[i - 1] == list[i]);
        law_only_administrators_can_change(path, list.drop_first(), i - 1);
    }
}

} // verus!
