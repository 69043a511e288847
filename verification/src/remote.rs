//! Servers of network mounts.
//!
//! A network mount has no index of its own, and it is never walked from the client: the
//! matching helper is installed on the server over SSH, and speaks the framed protocol.

use crate::mounts::{MountInfo, MountSource, MountView};
use crate::pathmap::PathMap;
use crate::text::Separator;
use vstd::prelude::*;

verus! {

/// The operating system of a server.
#[derive(Debug, Clone, Copy, PartialEq, Eq, Structural)]
pub enum RemoteOs {
    Linux,
    Windows,
    Macos,
}

/// What a server runs.
#[derive(Debug)]
pub struct RemotePlatform {
    pub os: RemoteOs,
    pub arch: String,
}

/// The same as a mathematical value.
#[verifier::ext_equal]
pub struct PlatformView {
    pub os: RemoteOs,
    pub arch: Seq<char>,
}

impl View for RemotePlatform {
    type V = PlatformView;

    open spec fn view(&self) -> PlatformView {
        PlatformView { os: self.os, arch: self.arch@ }
    }
}

/// Installs and starts helpers on servers.
#[derive(Debug)]
pub struct Provisioner {
    /// The folder with the prebuilt helpers, named by `artifact_name`.
    pub artifacts: String,
    pub connect_timeout_secs: u32,
}

/// Why a server cannot be used.
#[derive(Debug)]
pub enum RemoteError {
    UnsafeHost,
    UnsupportedOs(String),
    NoShell(String),
    NotRemote,
    MissingHelper { artifact: String, host: String },
    NoChecksum(String),
    EmptyChecksum,
    InvalidChecksum(String),
    ChecksumMismatch(String),
}

/// The same as a mathematical value.
#[verifier::ext_equal]
pub enum RemoteFault {
    UnsafeHost,
    UnsupportedOs(Seq<char>),
    NoShell(Seq<char>),
    NotRemote,
    MissingHelper { artifact: Seq<char>, host: Seq<char> },
    NoChecksum(Seq<char>),
    EmptyChecksum,
    InvalidChecksum(Seq<char>),
    ChecksumMismatch(Seq<char>),
}

impl View for RemoteError {
    type V = RemoteFault;

    open spec fn view(&self) -> RemoteFault {
        match self {
            RemoteError::UnsafeHost => RemoteFault::UnsafeHost,
            RemoteError::UnsupportedOs(o) => RemoteFault::UnsupportedOs(o@),
            RemoteError::NoShell(h) => RemoteFault::NoShell(h@),
            RemoteError::NotRemote => RemoteFault::NotRemote,
            RemoteError::MissingHelper { artifact, host } => RemoteFault::MissingHelper {
                artifact: artifact@,
                host: host@,
            },
            RemoteError::NoChecksum(p) => RemoteFault::NoChecksum(p@),
            RemoteError::EmptyChecksum => RemoteFault::EmptyChecksum,
            RemoteError::InvalidChecksum(p) => RemoteFault::InvalidChecksum(p@),
            RemoteError::ChecksumMismatch(p) => RemoteFault::ChecksumMismatch(p@),
        }
    }
}

/// What an error says.
pub open spec fn fault_text(f: RemoteFault) -> Seq<char> {
    match f {
        RemoteFault::UnsafeHost => "unsafe SSH host value"@,
        RemoteFault::UnsupportedOs(o) => "unsupported remote OS "@ + o,
        RemoteFault::NoShell(h) =>
            "SSH works neither as Unix shell nor Windows OpenSSH on "@ + h,
        RemoteFault::NotRemote => "mount is not a remote source"@,
        RemoteFault::MissingHelper { artifact, host } => "missing prebuilt helper "@ + artifact
            + " for "@ + host,
        RemoteFault::NoChecksum(p) => "read helper checksum "@ + p,
        RemoteFault::EmptyChecksum => "helper checksum file is empty"@,
        RemoteFault::InvalidChecksum(p) => "invalid SHA-256 in "@ + p,
        RemoteFault::ChecksumMismatch(p) => "helper checksum mismatch for "@ + p,
    }
}

impl RemoteError {
    /// What the error says.
    pub fn message(&self) -> (r: String)
        ensures
            r@ == fault_text(self@),
    {
        match self {
            RemoteError::UnsafeHost => "unsafe SSH host value".to_owned(),
            RemoteError::UnsupportedOs(o) => crate::text::joined(
                "unsupported remote OS ",
                o.as_str(),
            ),
            RemoteError::NoShell(h) => crate::text::joined(
                "SSH works neither as Unix shell nor Windows OpenSSH on ",
                h.as_str(),
            ),
            RemoteError::NotRemote => "mount is not a remote source".to_owned(),
            RemoteError::MissingHelper { artifact, host } => {
                let head = crate::text::joined3(
                    "missing prebuilt helper ",
                    artifact.as_str(),
                    " for ",
                );
                crate::text::joined(head.as_str(), host.as_str())
            },
            RemoteError::NoChecksum(p) => crate::text::joined("read helper checksum ", p.as_str()),
            RemoteError::EmptyChecksum => "helper checksum file is empty".to_owned(),
            RemoteError::InvalidChecksum(p) => crate::text::joined(
                "invalid SHA-256 in ",
                p.as_str(),
            ),
            RemoteError::ChecksumMismatch(p) => crate::text::joined(
                "helper checksum mismatch for ",
                p.as_str(),
            ),
        }
    }
}

// ---------------------------------------------------------------------------
// Hosts

/// An ASCII letter or digit, or one of `._-`.
pub open spec fn is_plain(c: char) -> bool {
    crate::text::is_letter(c) || ('0' <= c && c <= '9') || c == '.' || c == '_' || c == '-'
}

/// A hexadecimal digit.
pub open spec fn is_hex(c: char) -> bool {
    ('0' <= c && c <= '9') || ('a' <= c && c <= 'f') || ('A' <= c && c <= 'F')
}

/// A user or host name that is neither empty nor an option, and holds nothing that a shell
/// or a path could be read from.
pub open spec fn is_plain_name(s: Seq<char>) -> bool {
    &&& s.len() > 0
    &&& s[0] != '-'
    &&& forall|i: int| 0 <= i < s.len() ==> is_plain(#[trigger] s[i])
}

/// An address in square brackets.
pub open spec fn is_bracketed(s: Seq<char>) -> bool {
    s.len() > 2 && s[0] == '[' && s.last() == ']'
}

/// What stands in the brackets is an address: hexadecimal digits, colons and dots, and a
/// colon among them.
pub open spec fn is_address(s: Seq<char>) -> bool {
    &&& s.contains(':')
    &&& forall|i: int|
        0 <= i < s.len() ==> is_hex(#[trigger] s[i]) || s[i] == ':' || s[i] == '.'
}

/// The host name can be handed to SSH.
pub open spec fn is_hostname(s: Seq<char>) -> bool {
    if is_bracketed(s) {
        is_address(s.subrange(1, s.len() - 1))
    } else {
        is_plain_name(s)
    }
}

/// The host, with or without a user, can be handed to SSH.
pub open spec fn is_safe_host(host: Seq<char>) -> bool {
    let at = crate::text::first_index(host, Separator::Char('@'));
    if at < host.len() {
        let user = host.take(at);
        let name = host.skip(at + 1);
        !name.contains('@') && is_plain_name(user) && is_hostname(name)
    } else {
        is_hostname(host)
    }
}

fn plain(c: char) -> (r: bool)
    ensures
        r == is_plain(c),
{
    crate::text::letter(c) || ('0' <= c && c <= '9') || c == '.' || c == '_' || c == '-'
}

fn hex(c: char) -> (r: bool)
    ensures
        r == is_hex(c),
{
    ('0' <= c && c <= '9') || ('a' <= c && c <= 'f') || ('A' <= c && c <= 'F')
}

fn plain_name(s: &[char]) -> (r: bool)
    ensures
        r == is_plain_name(s@),
{
    if s.len() == 0 || s[0] == '-' {
        return false;
    }
    let mut i: usize = 0;
    while i < s.len()
        invariant
            i <= s@.len(),
            forall|k: int| 0 <= k < i ==> is_plain(#[trigger] s@[k]),
        decreases s@.len() - i,
    {
        if !plain(s[i]) {
            return false;
        }
        i += 1;
    }
    true
}

fn address(s: &[char]) -> (r: bool)
    ensures
        r == is_address(s@),
{
    if !crate::text::has_char(s, ':') {
        return false;
    }
    let mut i: usize = 0;
    while i < s.len()
        invariant
            i <= s@.len(),
            forall|k: int|
                0 <= k < i ==> is_hex(#[trigger] s@[k]) || s@[k] == ':' || s@[k] == '.',
        decreases s@.len() - i,
    {
        if !hex(s[i]) && s[i] != ':' && s[i] != '.' {
            return false;
        }
        i += 1;
    }
    true
}

fn hostname(s: &[char]) -> (r: bool)
    ensures
        r == is_hostname(s@),
{
    let n: usize = s.len();
    if n > 2 && s[0] == '[' && s[n - 1] == ']' {
        let inside = crate::text::part(s, 1, n - 1);
        assert(inside@ =~= s@.subrange(1, n - 1));
        return address(inside.as_slice());
    }
    plain_name(s)
}

/// Refuses a host that SSH or a shell could read as something else.
pub fn validate_host(host: &str) -> (r: Result<(), RemoteError>)
    ensures
        match r {
            Ok(_) => is_safe_host(host@),
            Err(e) => !is_safe_host(host@) && e@ is UnsafeHost,
        },
{
    let chars = crate::text::chars_of(host);
    let n: usize = chars.len();
    let at: usize = crate::text::find_first(chars.as_slice(), Separator::Char('@'));
    let safe: bool = if at < n {
        let user = crate::text::part(chars.as_slice(), 0, at);
        let name = crate::text::part(chars.as_slice(), at + 1, n);
        assert(user@ =~= host@.take(at as int));
        assert(name@ =~= host@.skip(at + 1));
        !crate::text::has_char(name.as_slice(), '@') && plain_name(user.as_slice()) && hostname(
            name.as_slice(),
        )
    } else {
        hostname(chars.as_slice())
    };
    if safe {
        Ok(())
    } else {
        Err(RemoteError::UnsafeHost)
    }
}

/// A safe host is never read as an option, holds no path and no space, and nothing that a
/// shell takes apart.
pub proof fn law_safe_hosts_are_words(host: Seq<char>, i: int)
    requires
        is_safe_host(host),
        0 <= i < host.len(),
    ensures
        host[0] != '-',
        is_plain(host[i]) || host[i] == '@' || host[i] == '[' || host[i] == ']' || host[i] == ':',
{
    let at = crate::text::first_index(host, Separator::Char('@'));
    crate::text::lemma_first_index(host, Separator::Char('@'));
    let name = if at < host.len() {
        host.skip(at + 1)
    } else {
        host
    };
    let from = if at < host.len() {
        at + 1
    } else {
        0
    };
    if at < host.len() {
        let user = host.take(at);
        assert(user[0] == host[0]);
        if i < at {
            assert(user[i] == host[i]);
        }
    }
    if i >= from {
        assert(name[i - from] == host[i]);
        if is_bracketed(name) {
            let inside = name.subrange(1, name.len() - 1);
            if 0 < i - from < name.len() - 1 {
                assert(inside[i - from - 1] == name[i - from]);
            }
        }
    }
}

// ---------------------------------------------------------------------------
// Platforms

/// The usual name of a processor.
pub open spec fn usual_arch(s: Seq<char>) -> Seq<char> {
    let t = crate::text::ascii_lower_all(crate::text::trim(s));
    if t == "x86_64"@ || t == "amd64"@ || t == "x64"@ {
        "x86_64"@
    } else if t == "aarch64"@ || t == "arm64"@ {
        "aarch64"@
    } else {
        t
    }
}

/// Gives a processor its usual name.
pub fn normalize_arch(s: &str) -> (r: String)
    ensures
        r@ == usual_arch(s@),
{
    let chars = crate::text::chars_of(s);
    let bare = crate::text::trimmed(chars.as_slice());
    let low = crate::text::lowered(bare.as_slice());
    let t = crate::text::string_of(low.as_slice());
    if crate::text::same_text(t.as_str(), "x86_64") || crate::text::same_text(t.as_str(), "amd64")
        || crate::text::same_text(t.as_str(), "x64") {
        return "x86_64".to_owned();
    }
    if crate::text::same_text(t.as_str(), "aarch64") || crate::text::same_text(
        t.as_str(),
        "arm64",
    ) {
        return "aarch64".to_owned();
    }
    t
}

/// A line of an output, empty where there are fewer.
pub open spec fn line_of(s: Seq<char>, i: int) -> Seq<char> {
    if i < crate::text::lines(s).len() {
        crate::text::lines(s)[i]
    } else {
        ""@
    }
}

/// What a server runs, from the output of `uname -s; uname -m`, or, where that is no Unix
/// shell, of the processor query of PowerShell.
pub open spec fn platform_of(host: Seq<char>, unix: Option<Seq<u8>>, windows: Option<Seq<u8>>) -> Result<
    PlatformView,
    RemoteFault,
> {
    if !is_safe_host(host) {
        Err(RemoteFault::UnsafeHost)
    } else if unix is Some {
        let s = crate::text::lossy_text(unix->0);
        let name = crate::text::trim(line_of(s, 0));
        let arch = usual_arch(line_of(s, 1));
        if name == "Linux"@ {
            Ok(PlatformView { os: RemoteOs::Linux, arch })
        } else if name == "Darwin"@ {
            Ok(PlatformView { os: RemoteOs::Macos, arch })
        } else {
            Err(RemoteFault::UnsupportedOs(name))
        }
    } else if windows is Some {
        Ok(
            PlatformView {
                os: RemoteOs::Windows,
                arch: usual_arch(crate::text::lossy_text(windows->0)),
            },
        )
    } else {
        Err(RemoteFault::NoShell(host))
    }
}

/// Bytes that may be missing.
pub open spec fn answer(b: Option<&[u8]>) -> Option<Seq<u8>> {
    match b {
        Some(x) => Some(x@),
        None => None,
    }
}

fn line_text(lines: &Vec<Vec<char>>, i: usize) -> (r: String)
    ensures
        r@ == if i < lines@.len() {
            lines@[i as int]@
        } else {
            ""@
        },
{
    if i < lines.len() {
        crate::text::string_of(lines[i].as_slice())
    } else {
        "".to_owned()
    }
}

impl Provisioner {
    /// What a server runs. The outputs are there where their commands succeeded; PowerShell
    /// is asked only where the Unix shell failed.
    pub fn detect(&self, host: &str, unix: Option<&[u8]>, windows: Option<&[u8]>) -> (r: Result<
        RemotePlatform,
        RemoteError,
    >)
        ensures
            match r {
                Ok(p) => platform_of(host@, answer(unix), answer(windows)) == Ok::<
                    PlatformView,
                    RemoteFault,
                >(p@),
                Err(e) => platform_of(host@, answer(unix), answer(windows)) == Err::<
                    PlatformView,
                    RemoteFault,
                >(e@),
            },
    {
        if let Err(e) = validate_host(host) {
            return Err(e);
        }
        if let Some(out) = unix {
            let s = crate::text::text_from_utf8_lossy(out);
            let chars = crate::text::chars_of(s.as_str());
            let lines = crate::text::split_lines(chars.as_slice());
            assert(crate::text::texts(lines@).len() == lines@.len());
            let first = line_text(&lines, 0);
            let second = line_text(&lines, 1);
            assert(first@ == line_of(s@, 0));
            assert(second@ == line_of(s@, 1));
            let first_chars = crate::text::chars_of(first.as_str());
            let bare = crate::text::trimmed(first_chars.as_slice());
            let name = crate::text::string_of(bare.as_slice());
            let arch = normalize_arch(second.as_str());
            if crate::text::same_text(name.as_str(), "Linux") {
                return Ok(RemotePlatform { os: RemoteOs::Linux, arch });
            }
            if crate::text::same_text(name.as_str(), "Darwin") {
                return Ok(RemotePlatform { os: RemoteOs::Macos, arch });
            }
            return Err(RemoteError::UnsupportedOs(name));
        }
        if let Some(out) = windows {
            let s = crate::text::text_from_utf8_lossy(out);
            return Ok(
                RemotePlatform { os: RemoteOs::Windows, arch: normalize_arch(s.as_str()) },
            );
        }
        Err(RemoteError::NoShell(host.to_owned()))
    }

    /// The server of a network mount.
    pub fn provision_mount(&self, mount: &MountInfo) -> (r: Result<String, RemoteError>)
        ensures
            match r {
                Ok(h) => mount@.host == Some(h@) && h@.len() > 0,
                Err(e) => e@ is NotRemote && (mount@.host is None || mount@.host->0.len() == 0),
            },
    {
        match &mount.source {
            MountSource::Remote { host } => {
                let chars = crate::text::chars_of(host.as_str());
                if chars.len() > 0 {
                    Ok(host.clone())
                } else {
                    Err(RemoteError::NotRemote)
                }
            },
            MountSource::Local => Err(RemoteError::NotRemote),
        }
    }

    /// The options that SSH and SCP are started with: never ask for a password, and give up
    /// in time.
    pub fn ssh_options(&self) -> (r: Vec<String>)
        ensures
            crate::text::strings(r@) == options_of(self.connect_timeout_secs),
    {
        let n = crate::text::decimal_text(self.connect_timeout_secs as u64);
        let mut r: Vec<String> = Vec::new();
        r.push("-o".to_owned());
        r.push("BatchMode=yes".to_owned());
        r.push("-o".to_owned());
        r.push(crate::text::joined("ConnectTimeout=", n.as_str()));
        assert(crate::text::strings(r@) =~= options_of(self.connect_timeout_secs));
        r
    }
}

/// The options that SSH and SCP are started with.
pub open spec fn options_of(seconds: u32) -> Seq<Seq<char>> {
    seq![
        "-o"@,
        "BatchMode=yes"@,
        "-o"@,
        "ConnectTimeout="@ + crate::text::decimal(seconds as nat),
    ]
}

// ---------------------------------------------------------------------------
// Commands

/// The name of a prebuilt helper.
pub open spec fn artifact_of(p: PlatformView) -> Seq<char> {
    "neutrasearch-helper-"@ + (match p.os {
        RemoteOs::Linux => "linux"@,
        RemoteOs::Windows => "windows"@,
        RemoteOs::Macos => "macos"@,
    }) + "-"@ + p.arch + (if p.os == RemoteOs::Windows {
        ".exe"@
    } else {
        ""@
    })
}

/// The name of the prebuilt helper for a platform.
pub fn artifact_name(p: &RemotePlatform) -> (r: String)
    ensures
        r@ == artifact_of(p@),
{
    let os = match p.os {
        RemoteOs::Linux => "linux",
        RemoteOs::Windows => "windows",
        RemoteOs::Macos => "macos",
    };
    let ext = match p.os {
        RemoteOs::Windows => ".exe",
        _ => "",
    };
    let head = crate::text::joined3("neutrasearch-helper-", os, "-");
    crate::text::joined3(head.as_str(), p.arch.as_str(), ext)
}

/// A PowerShell script as one command.
pub open spec fn powershell(script: Seq<char>) -> Seq<char> {
    "powershell -NoProfile -NonInteractive -Command \""@ + script + "\""@
}

/// Makes a command of a PowerShell script.
pub fn windows_command(script: &str) -> (r: String)
    ensures
        r@ == powershell(script@),
{
    crate::text::joined3("powershell -NoProfile -NonInteractive -Command \"", script, "\"")
}

/// The command that asks an installed helper for its build.
pub open spec fn build_check_of(os: RemoteOs) -> Seq<char> {
    if os == RemoteOs::Windows {
        powershell(
            "& (Join-Path $env:LOCALAPPDATA 'Neutrasearch\\neutrasearch-helper.exe') --build"@,
        )
    } else {
        "~/.local/lib/neutrasearch/neutrasearch-helper --build"@
    }
}

/// The command that asks an installed helper for its build. The remote shell expands the
/// path, which is why it is not quoted.
pub fn build_check_command(p: &RemotePlatform) -> (r: String)
    ensures
        r@ == build_check_of(p.os),
{
    match p.os {
        RemoteOs::Windows => windows_command(
            "& (Join-Path $env:LOCALAPPDATA 'Neutrasearch\\neutrasearch-helper.exe') --build",
        ),
        _ => "~/.local/lib/neutrasearch/neutrasearch-helper --build".to_owned(),
    }
}

/// The command that starts an installed helper.
pub open spec fn connect_of(os: RemoteOs) -> Seq<char> {
    if os == RemoteOs::Windows {
        powershell("& (Join-Path $env:LOCALAPPDATA 'Neutrasearch\\neutrasearch-helper.exe')"@)
    } else {
        "~/.local/lib/neutrasearch/neutrasearch-helper"@
    }
}

/// The command that starts an installed helper.
pub fn connect_command(p: &RemotePlatform) -> (r: String)
    ensures
        r@ == connect_of(p.os),
{
    match p.os {
        RemoteOs::Windows => windows_command(
            "& (Join-Path $env:LOCALAPPDATA 'Neutrasearch\\neutrasearch-helper.exe')",
        ),
        _ => "~/.local/lib/neutrasearch/neutrasearch-helper".to_owned(),
    }
}

/// The command that installs an uploaded helper on a Unix server, once its digest was seen
/// to be right there.
pub open spec fn unix_install_of(digest: Seq<char>, os: RemoteOs) -> Seq<char> {
    "actual=$("@ + (if os == RemoteOs::Macos {
        "shasum -a 256"@
    } else {
        "sha256sum"@
    })
        + " ~/.local/lib/neutrasearch/neutrasearch-helper.new | cut -d' ' -f1); test \"$actual\" = '"@
        + digest
        + "' && chmod 700 ~/.local/lib/neutrasearch/neutrasearch-helper.new && mv ~/.local/lib/neutrasearch/neutrasearch-helper.new ~/.local/lib/neutrasearch/neutrasearch-helper"@
}

/// The command that installs an uploaded helper on a Unix server.
pub fn unix_install_command(expected_sha256: &str, os: RemoteOs) -> (r: String)
    requires
        os != RemoteOs::Windows,
    ensures
        r@ == unix_install_of(expected_sha256@, os),
{
    let hash = match os {
        RemoteOs::Macos => "shasum -a 256",
        _ => "sha256sum",
    };
    let head = crate::text::joined3(
        "actual=$(",
        hash,
        " ~/.local/lib/neutrasearch/neutrasearch-helper.new | cut -d' ' -f1); test \"$actual\" = '",
    );
    crate::text::joined3(
        head.as_str(),
        expected_sha256,
        "' && chmod 700 ~/.local/lib/neutrasearch/neutrasearch-helper.new && mv ~/.local/lib/neutrasearch/neutrasearch-helper.new ~/.local/lib/neutrasearch/neutrasearch-helper",
    )
}

/// The command that installs an uploaded helper on a Windows server, once its digest was
/// seen to be right there.
pub open spec fn windows_install_of(digest: Seq<char>) -> Seq<char> {
    powershell(
        "$source = Join-Path $HOME 'neutrasearch-helper.exe.new'; $actual = (Get-FileHash -LiteralPath $source -Algorithm SHA256).Hash.ToLowerInvariant(); if ($actual -ne '"@
            + digest
            + "') { Remove-Item -LiteralPath $source -Force; exit 42 }; Move-Item -LiteralPath $source -Destination (Join-Path $env:LOCALAPPDATA 'Neutrasearch\\neutrasearch-helper.exe') -Force"@,
    )
}

/// The command that installs an uploaded helper on a Windows server.
pub fn windows_install_command(expected_sha256: &str) -> (r: String)
    ensures
        r@ == windows_install_of(expected_sha256@),
{
    let script = crate::text::joined3(
        "$source = Join-Path $HOME 'neutrasearch-helper.exe.new'; $actual = (Get-FileHash -LiteralPath $source -Algorithm SHA256).Hash.ToLowerInvariant(); if ($actual -ne '",
        expected_sha256,
        "') { Remove-Item -LiteralPath $source -Force; exit 42 }; Move-Item -LiteralPath $source -Destination (Join-Path $env:LOCALAPPDATA 'Neutrasearch\\neutrasearch-helper.exe') -Force",
    );
    windows_command(script.as_str())
}

// ---------------------------------------------------------------------------
// Installing

/// The installed helper is this build: the command succeeded and gave its number.
pub open spec fn is_current(check: Option<Seq<u8>>) -> bool {
    check is Some && crate::text::trim(crate::text::lossy_text(check->0)) == crate::text::decimal(
        crate::proto::HELPER_BUILD as nat,
    )
}

/// Whether the installed helper is this build.
pub fn helper_is_current(check: Option<&[u8]>) -> (r: bool)
    ensures
        r == is_current(answer(check)),
{
    match check {
        None => false,
        Some(out) => {
            let s = crate::text::text_from_utf8_lossy(out);
            let chars = crate::text::chars_of(s.as_str());
            let bare = crate::text::trimmed(chars.as_slice());
            let want = crate::text::decimal_chars(crate::proto::HELPER_BUILD as u64);
            crate::text::same_chars(bare.as_slice(), want.as_slice())
        },
    }
}

/// A step of an installation.
pub struct Install {
    /// Copy the file with SCP to `target` in place of running a command.
    pub upload: bool,
    /// The command on the server, or the target of the copy.
    pub text: String,
    pub what: String,
}

/// A step as a mathematical value.
#[verifier::ext_equal]
pub struct InstallView {
    pub upload: bool,
    pub text: Seq<char>,
    pub what: Seq<char>,
}

impl View for Install {
    type V = InstallView;

    open spec fn view(&self) -> InstallView {
        InstallView { upload: self.upload, text: self.text@, what: self.what@ }
    }
}

/// Steps as mathematical values.
pub open spec fn install_views(s: Seq<Install>) -> Seq<InstallView> {
    Seq::new(s.len(), |i: int| s[i]@)
}

/// The steps that install a helper: make its folder, copy it beside the old one, and put it
/// in place once its digest is right there.
pub open spec fn steps_of(host: Seq<char>, os: RemoteOs, digest: Seq<char>) -> Seq<InstallView> {
    if os == RemoteOs::Windows {
        seq![
            InstallView {
                upload: false,
                text: powershell(
                    "New-Item -ItemType Directory -Force -Path $env:LOCALAPPDATA\\Neutrasearch | Out-Null"@,
                ),
                what: "create remote Windows helper dir"@,
            },
            InstallView {
                upload: true,
                text: host + ":neutrasearch-helper.exe.new"@,
                what: "scp Windows helper"@,
            },
            InstallView {
                upload: false,
                text: windows_install_of(digest),
                what: "verify and install Windows helper"@,
            },
        ]
    } else {
        seq![
            InstallView {
                upload: false,
                text: "mkdir -p ~/.local/lib/neutrasearch"@,
                what: "create remote helper dir"@,
            },
            InstallView {
                upload: true,
                text: host + ":~/.local/lib/neutrasearch/neutrasearch-helper.new"@,
                what: "scp helper"@,
            },
            InstallView {
                upload: false,
                text: unix_install_of(digest, os),
                what: "verify and install helper"@,
            },
        ]
    }
}

fn step(upload: bool, text: String, what: &str) -> (r: Install)
    ensures
        r@ == (InstallView { upload, text: text@, what: what@ }),
{
    Install { upload, text, what: what.to_owned() }
}

impl Provisioner {
    /// The steps that install a helper on a server. An upload cannot expand the variables of
    /// PowerShell, so on Windows it goes to the home folder first.
    pub fn install_steps(&self, host: &str, p: &RemotePlatform, digest: &str) -> (r: Vec<Install>)
        ensures
            install_views(r@) == steps_of(host@, p.os, digest@),
    {
        let mut r: Vec<Install> = Vec::new();
        if p.os == RemoteOs::Windows {
            r.push(
                step(
                    false,
                    windows_command(
                        "New-Item -ItemType Directory -Force -Path $env:LOCALAPPDATA\\Neutrasearch | Out-Null",
                    ),
                    "create remote Windows helper dir",
                ),
            );
            r.push(
                step(
                    true,
                    crate::text::joined(host, ":neutrasearch-helper.exe.new"),
                    "scp Windows helper",
                ),
            );
            r.push(
                step(false, windows_install_command(digest), "verify and install Windows helper"),
            );
        } else {
            r.push(
                step(
                    false,
                    "mkdir -p ~/.local/lib/neutrasearch".to_owned(),
                    "create remote helper dir",
                ),
            );
            r.push(
                step(
                    true,
                    crate::text::joined(
                        host,
                        ":~/.local/lib/neutrasearch/neutrasearch-helper.new",
                    ),
                    "scp helper",
                ),
            );
            r.push(step(false, unix_install_command(digest, p.os), "verify and install helper"));
        }
        assert(install_views(r@) =~= steps_of(host@, p.os, digest@));
        r
    }
}

// ---------------------------------------------------------------------------
// Checksums

/// The digest that a checksum file states: its first word.
pub open spec fn stated_digest(file: Seq<char>) -> Option<Seq<char>> {
    let w = crate::text::words(file, Separator::Space);
    if w.len() == 0 {
        None
    } else {
        Some(crate::text::ascii_lower_all(w[0]))
    }
}

/// The text has the form of a digest.
pub open spec fn is_digest(s: Seq<char>) -> bool {
    s.len() == 64 && forall|i: int| 0 <= i < s.len() ==> is_hex(#[trigger] s[i])
}

/// The name of the file with the digest of another.
pub open spec fn checksum_name(path: Seq<char>) -> Seq<char> {
    path + ".sha256"@
}

/// What a checksum file and the digest of a helper say of it; `file` is missing where it
/// cannot be read.
pub open spec fn verdict(path: Seq<char>, file: Option<Seq<char>>, actual: Seq<char>) -> Option<
    RemoteFault,
> {
    match file {
        None => Some(RemoteFault::NoChecksum(checksum_name(path))),
        Some(f) => match stated_digest(f) {
            None => Some(RemoteFault::EmptyChecksum),
            Some(d) => if !is_digest(d) {
                Some(RemoteFault::InvalidChecksum(checksum_name(path)))
            } else if d != actual {
                Some(RemoteFault::ChecksumMismatch(path))
            } else {
                None
            },
        },
    }
}

fn digest_form(s: &[char]) -> (r: bool)
    ensures
        r == is_digest(s@),
{
    if s.len() != 64 {
        return false;
    }
    let mut i: usize = 0;
    while i < s.len()
        invariant
            i <= s@.len(),
            forall|k: int| 0 <= k < i ==> is_hex(#[trigger] s@[k]),
        decreases s@.len() - i,
    {
        if !hex(s[i]) {
            return false;
        }
        i += 1;
    }
    true
}

/// Text that may be missing.
pub open spec fn given_text(t: Option<&str>) -> Option<Seq<char>> {
    match t {
        Some(x) => Some(x@),
        None => None,
    }
}

/// Holds the digest of a helper against its checksum file.
pub fn check_digest(path: &str, file: Option<&str>, actual: &str) -> (r: Option<RemoteError>)
    ensures
        match r {
            Some(e) => verdict(path@, given_text(file), actual@) == Some(e@),
            None => verdict(path@, given_text(file), actual@) is None,
        },
{
    let name = crate::text::joined(path, ".sha256");
    let f = match file {
        None => {
            return Some(RemoteError::NoChecksum(name));
        },
        Some(f) => f,
    };
    let chars = crate::text::chars_of(f);
    let words = crate::text::split_words(chars.as_slice(), Separator::Space);
    assert(crate::text::texts(words@).len() == words@.len());
    if words.len() == 0 {
        return Some(RemoteError::EmptyChecksum);
    }
    assert(crate::text::texts(words@)[0] == words@[0]@);
    let low = crate::text::lowered(words[0].as_slice());
    if !digest_form(low.as_slice()) {
        return Some(RemoteError::InvalidChecksum(name));
    }
    let want = crate::text::chars_of(actual);
    if !crate::text::same_chars(low.as_slice(), want.as_slice()) {
        return Some(RemoteError::ChecksumMismatch(path.to_owned()));
    }
    None
}

/// Checks a prebuilt helper against its checksum file before it is sent anywhere; gives its
/// digest.
pub fn verify_local_artifact(path: &str, file: Option<&str>, bytes: &[u8]) -> (r: Result<
    String,
    RemoteError,
>)
    ensures
        match r {
            Ok(d) => d@ == crate::checksum::sha256_of(bytes@) && verdict(
                path@,
                given_text(file),
                crate::checksum::sha256_of(bytes@),
            ) is None,
            Err(e) => verdict(
                path@,
                given_text(file),
                crate::checksum::sha256_of(bytes@),
            ) == Some(e@),
        },
{
    let actual = crate::checksum::sha256(bytes);
    match check_digest(path, file, actual.as_str()) {
        Some(e) => Err(e),
        None => Ok(actual),
    }
}

/// Only a helper whose digest is the one that its checksum file states is ever installed.
pub proof fn law_installed_helpers_have_the_stated_digest(
    path: Seq<char>,
    file: Option<Seq<char>>,
    actual: Seq<char>,
)
    requires
        verdict(path, file, actual) is None,
    ensures
        file is Some,
        stated_digest(file->0) == Some(actual),
        is_digest(actual),
{
}

// ---------------------------------------------------------------------------
// New mounts

/// What a network mount is told apart by.
pub open spec fn identity(m: MountView) -> Seq<char> {
    m.device + ":"@ + m.mountpoint
}

/// The network mounts that were not seen before, and what was seen then.
pub open spec fn new_among(ms: Seq<MountView>, seen: Set<Seq<char>>) -> (
    Seq<MountView>,
    Set<Seq<char>>,
)
    decreases ms.len(),
{
    if ms.len() == 0 {
        (Seq::empty(), seen)
    } else {
        let (found, known) = new_among(ms.drop_last(), seen);
        let m = ms.last();
        if m.host is Some && !known.contains(identity(m)) {
            (found.push(m), known.insert(identity(m)))
        } else {
            (found, known)
        }
    }
}

/// Mounts behind references as mathematical values.
pub open spec fn referred(ms: Seq<&MountInfo>) -> Seq<MountView> {
    Seq::new(ms.len(), |i: int| ms[i]@)
}

/// The network mounts that were not seen before; nothing is read from them.
pub fn new_network_mounts<'a>(mounts: &'a [MountInfo], seen: &mut PathMap<String>) -> (r: Vec<
    &'a MountInfo,
>)
    requires
        old(seen).wf(),
    ensures
        final(seen).wf(),
        new_among(crate::mounts::mount_views(mounts@), old(seen).entries().dom()) == (
            referred(r@),
            final(seen).entries().dom(),
        ),
{
    let ghost views = crate::mounts::mount_views(mounts@);
    let ghost start = seen.entries().dom();
    let mut r: Vec<&'a MountInfo> = Vec::new();
    let mut i: usize = 0;
    proof {
        assert(views.take(0) =~= Seq::empty());
        assert(referred(r@) =~= Seq::empty());
    }
    while i < mounts.len()
        invariant
            i <= mounts@.len(),
            views == crate::mounts::mount_views(mounts@),
            start == old(seen).entries().dom(),
            seen.wf(),
            new_among(views.take(i as int), start) == (referred(r@), seen.entries().dom()),
        decreases mounts@.len() - i,
    {
        let m = &mounts[i];
        let ghost had = referred(r@);
        proof {
            assert(views[i as int] == m@);
            assert(views.take(i + 1).drop_last() =~= views.take(i as int));
        }
        let remote: bool = match m.source {
            MountSource::Remote { .. } => true,
            MountSource::Local => false,
        };
        if remote {
            let id = crate::text::joined3(m.device.as_str(), ":", m.mountpoint.as_str());
            if !seen.contains(id.as_str()) {
                let ghost known = seen.entries();
                seen.insert(id);
                assert(seen.entries().dom() =~= known.dom().insert(id@));
                r.push(m);
                assert(referred(r@) =~= had.push(m@));
            }
        }
        i += 1;
    }
    assert(views.take(i as int) =~= views);
    r
}

} // verus!
