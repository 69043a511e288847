//! The command line.

use crate::host::Host;
use crate::index::{Index, IndexView};
use crate::proto::{AnswerView, HelperMsg};
use vstd::prelude::*;

verus! {

/// What a command line asks for.
pub enum Command {
    Search,
    Index,
    Serve,
    Mcp,
}

/// What follows a command line.
pub enum Action {
    /// Open the window.
    Gui,
    /// Say something and leave: to the output where the code is 0, else to the errors.
    Exit(i32, String),
    /// Run a command with the arguments behind it.
    Run(Command, Vec<String>),
}

/// What is said of the program.
pub open spec fn help_text() -> Seq<char> {
    "Neutrasearch \u{2014} fast indexed filename search\n\nUsage:\n  neutrasearch [gui]\n  neutrasearch search QUERY [--index INDEX.nsx] [--scope ROOT] [--limit N] [--json|--json-paths]\n  neutrasearch index [--output INDEX.nsx]\n  neutrasearch serve [--index INDEX.nsx] [--watch MOUNT]\n  neutrasearch mcp [--index INDEX.nsx]\n\nCommands:\n  gui      Open the desktop application (default)\n  search   Search the last index, building it when missing\n  index    Fully index all supported local filesystems\n  serve    Run the framed index service on stdin/stdout\n  mcp      Run the MCP server on stdin/stdout"@
}

/// A text is one of two.
pub open spec fn one_of(t: Seq<char>, a: Seq<char>, b: Seq<char>) -> bool {
    t == a || t == b
}

/// The command that a word names.
pub open spec fn command_of(word: Seq<char>) -> Option<Command> {
    if word == "search"@ {
        Some(Command::Search)
    } else if word == "index"@ {
        Some(Command::Index)
    } else if word == "serve"@ {
        Some(Command::Serve)
    } else if word == "mcp"@ {
        Some(Command::Mcp)
    } else {
        None
    }
}

/// What is said where a command line is wrong.
pub open spec fn usage_text(message: Seq<char>) -> Seq<char> {
    "neutrasearch: "@ + message + "\nRun 'neutrasearch help' for usage."@
}

/// What follows a command line.
pub open spec fn acts(args: Seq<Seq<char>>, version: Seq<char>, r: Action) -> bool {
    if args.len() == 0 {
        r is Gui
    } else {
        let word = args[0];
        if word == "gui"@ {
            if args.len() == 1 {
                r is Gui
            } else {
                r matches Action::Exit(code, t) && code == 2 && t@ == usage_text(
                    "gui does not accept arguments"@,
                )
            }
        } else if command_of(word) is Some {
            r matches Action::Run(c, rest) && Some(c) == command_of(word)
                && crate::text::strings(rest@) == args.skip(1)
        } else if word == "help"@ || word == "--help"@ || word == "-h"@ {
            r matches Action::Exit(code, t) && code == 0 && t@ == help_text()
        } else if word == "version"@ || word == "--version"@ || word == "-V"@ {
            r matches Action::Exit(code, t) && code == 0 && t@ == "neutrasearch "@ + version
        } else {
            r matches Action::Exit(code, t) && code == 2 && t@ == usage_text(
                "unknown command '"@ + word + "'"@,
            )
        }
    }
}

fn named(word: &str) -> (r: Option<Command>)
    ensures
        r == command_of(word@),
{
    if crate::text::same_text(word, "search") {
        Some(Command::Search)
    } else if crate::text::same_text(word, "index") {
        Some(Command::Index)
    } else if crate::text::same_text(word, "serve") {
        Some(Command::Serve)
    } else if crate::text::same_text(word, "mcp") {
        Some(Command::Mcp)
    } else {
        None
    }
}

fn usage_error(message: &str) -> (r: Action)
    ensures
        r matches Action::Exit(code, t) && code == 2 && t@ == usage_text(message@),
{
    let t = crate::text::joined3(
        "neutrasearch: ",
        message,
        "\nRun 'neutrasearch help' for usage.",
    );
    Action::Exit(2, t)
}

/// What follows the arguments of the program.
pub fn action(args: Vec<String>, version: &str) -> (r: Action)
    ensures
        acts(crate::text::strings(args@), version@, r),
{
    let ghost views = crate::text::strings(args@);
    assert(views.len() == args@.len());
    if args.len() == 0 {
        return Action::Gui;
    }
    assert(views[0] == args@[0]@);
    let mut args = args;
    let count: usize = args.len();
    let word = args.remove(0);
    assert(crate::text::strings(args@) =~= views.skip(1));
    if crate::text::same_text(word.as_str(), "gui") {
        if count == 1 {
            return Action::Gui;
        }
        return usage_error("gui does not accept arguments");
    }
    if let Some(c) = named(word.as_str()) {
        return Action::Run(c, args);
    }
    if crate::text::same_text(word.as_str(), "help") || crate::text::same_text(
        word.as_str(),
        "--help",
    ) || crate::text::same_text(word.as_str(), "-h") {
        return Action::Exit(
            0,
            "Neutrasearch \u{2014} fast indexed filename search\n\nUsage:\n  neutrasearch [gui]\n  neutrasearch search QUERY [--index INDEX.nsx] [--scope ROOT] [--limit N] [--json|--json-paths]\n  neutrasearch index [--output INDEX.nsx]\n  neutrasearch serve [--index INDEX.nsx] [--watch MOUNT]\n  neutrasearch mcp [--index INDEX.nsx]\n\nCommands:\n  gui      Open the desktop application (default)\n  search   Search the last index, building it when missing\n  index    Fully index all supported local filesystems\n  serve    Run the framed index service on stdin/stdout\n  mcp      Run the MCP server on stdin/stdout".to_owned(),
        );
    }
    if crate::text::same_text(word.as_str(), "version") || crate::text::same_text(
        word.as_str(),
        "--version",
    ) || crate::text::same_text(word.as_str(), "-V") {
        return Action::Exit(0, crate::text::joined("neutrasearch ", version));
    }
    let message = crate::text::joined3("unknown command '", word.as_str(), "'");
    usage_error(message.as_str())
}

/// Help is asked for among the arguments.
pub open spec fn wants_help(args: Seq<Seq<char>>) -> bool {
    exists|i: int| 0 <= i < args.len() && one_of(#[trigger] args[i], "--help"@, "-h"@)
}

/// Whether help is asked for among the arguments.
pub fn help_asked(args: &Vec<String>) -> (r: bool)
    ensures
        r == wants_help(crate::text::strings(args@)),
{
    let ghost views = crate::text::strings(args@);
    let mut i: usize = 0;
    while i < args.len()
        invariant
            i <= args@.len(),
            views == crate::text::strings(args@),
            forall|k: int| 0 <= k < i ==> !one_of(#[trigger] views[k], "--help"@, "-h"@),
        decreases args@.len() - i,
    {
        assert(views[i as int] == args@[i as int]@);
        if crate::text::same_text(args[i].as_str(), "--help") || crate::text::same_text(
            args[i].as_str(),
            "-h",
        ) {
            assert(one_of(views[i as int], "--help"@, "-h"@));
            return true;
        }
        i += 1;
    }
    false
}

// ---------------------------------------------------------------------------
// index

/// The output that the first `n` arguments of `index` name, or what is wrong with them.
pub open spec fn index_output(args: Seq<Seq<char>>, at: int, seen: Option<Seq<char>>) -> Result<
    Option<Seq<char>>,
    Seq<char>,
>
    decreases args.len() - at,
{
    if at < 0 || at >= args.len() {
        Ok(seen)
    } else if one_of(args[at], "--output"@, "-o"@) {
        if at + 1 >= args.len() {
            Err("--output requires a path"@)
        } else if seen is Some {
            Err("--output may be specified only once"@)
        } else {
            index_output(args, at + 2, Some(args[at + 1]))
        }
    } else {
        Err(
            "unknown index option "@ + args[at]
                + "; indexing always covers the full machine"@,
        )
    }
}

/// Reads the arguments of `index`: at most an output.
pub fn parse_index(args: &Vec<String>) -> (r: Result<Option<String>, String>)
    ensures
        ({
            let want = index_output(crate::text::strings(args@), 0, None);
            match r {
                Ok(o) => want == Ok::<Option<Seq<char>>, Seq<char>>(crate::launch::some_text(o)),
                Err(e) => want == Err::<Option<Seq<char>>, Seq<char>>(e@),
            }
        }),
{
    let ghost views = crate::text::strings(args@);
    let mut output: Option<String> = None;
    let mut at: usize = 0;
    let n: usize = args.len();
    while at < n
        invariant
            at <= n == args@.len(),
            views == crate::text::strings(args@),
            index_output(views, at as int, crate::launch::some_text(output)) == index_output(
                views,
                0,
                None,
            ),
        decreases n - at,
    {
        assert(views[at as int] == args@[at as int]@);
        let word = args[at].as_str();
        if crate::text::same_text(word, "--output") || crate::text::same_text(word, "-o") {
            if n - at < 2 {
                return Err("--output requires a path".to_owned());
            }
            if output.is_some() {
                return Err("--output may be specified only once".to_owned());
            }
            assert(views[at + 1] == args@[at + 1]@);
            output = Some(args[at + 1].clone());
            at += 2;
        } else {
            return Err(
                crate::text::joined3(
                    "unknown index option ",
                    word,
                    "; indexing always covers the full machine",
                ),
            );
        }
    }
    Ok(output)
}

// ---------------------------------------------------------------------------
// search

/// The index that the arguments of `search` name from `at` on, or what is wrong with them.
pub open spec fn named_index(args: Seq<Seq<char>>, at: int, seen: Option<Seq<char>>) -> Result<
    Option<Seq<char>>,
    Seq<char>,
>
    decreases args.len() - at,
{
    if at < 0 || at >= args.len() {
        Ok(seen)
    } else if args[at] == "--index"@ {
        if at + 1 >= args.len() {
            Err("--index requires a path"@)
        } else if seen is Some {
            Err("--index may be specified only once"@)
        } else {
            named_index(args, at + 2, Some(args[at + 1]))
        }
    } else {
        named_index(args, at + 1, seen)
    }
}

/// Finds the index that the arguments of `search` name.
pub fn index_override(args: &Vec<String>) -> (r: Result<Option<String>, String>)
    ensures
        ({
            let want = named_index(crate::text::strings(args@), 0, None);
            match r {
                Ok(o) => want == Ok::<Option<Seq<char>>, Seq<char>>(crate::launch::some_text(o)),
                Err(e) => want == Err::<Option<Seq<char>>, Seq<char>>(e@),
            }
        }),
{
    let ghost views = crate::text::strings(args@);
    let mut index: Option<String> = None;
    let mut at: usize = 0;
    let n: usize = args.len();
    while at < n
        invariant
            at <= n == args@.len(),
            views == crate::text::strings(args@),
            named_index(views, at as int, crate::launch::some_text(index)) == named_index(
                views,
                0,
                None,
            ),
        decreases n - at,
    {
        assert(views[at as int] == args@[at as int]@);
        if crate::text::same_text(args[at].as_str(), "--index") {
            if n - at < 2 {
                return Err("--index requires a path".to_owned());
            }
            if index.is_some() {
                return Err("--index may be specified only once".to_owned());
            }
            assert(views[at + 1] == args@[at + 1]@);
            index = Some(args[at + 1].clone());
            at += 2;
        } else {
            at += 1;
        }
    }
    Ok(index)
}

// ---------------------------------------------------------------------------
// serve

/// What `serve` is asked for.
#[verifier::ext_equal]
pub struct Serving {
    pub index: Option<Seq<char>>,
    pub watch: Option<Seq<char>>,
    pub source: Option<u32>,
}

/// What the arguments of `serve` ask for from `at` on, or what is wrong with them.
pub open spec fn serving(args: Seq<Seq<char>>, at: int, seen: Serving) -> Result<
    Serving,
    Seq<char>,
>
    decreases args.len() - at,
{
    if at < 0 || at >= args.len() {
        Ok(seen)
    } else if args[at] == "--index"@ || args[at] == "--watch"@ || args[at] == "--source"@ {
        if at + 1 >= args.len() {
            Err(args[at] + " requires a value"@)
        } else if args[at] == "--index"@ {
            serving(args, at + 2, Serving { index: Some(args[at + 1]), ..seen })
        } else if args[at] == "--watch"@ {
            serving(args, at + 2, Serving { watch: Some(args[at + 1]), ..seen })
        } else {
            match crate::text::parsed_number(args[at + 1], u32::MAX as nat) {
                Some(n) => serving(args, at + 2, Serving { source: Some(n as u32), ..seen }),
                None => Err("--source requires an unsigned integer"@),
            }
        }
    } else {
        Err("unknown serve option "@ + args[at])
    }
}

/// What `serve` runs with: the index, the mount to watch, and the source that its records
/// belong to.
pub open spec fn serve_plan(args: Seq<Seq<char>>, otherwise: Seq<char>) -> Result<
    (Seq<char>, Option<Seq<char>>, u32),
    Seq<char>,
> {
    match serving(args, 0, Serving { index: None, watch: None, source: None }) {
        Err(e) => Err(e),
        Ok(s) => if s.source is Some && s.watch is None {
            Err("--source requires --watch MOUNT"@)
        } else {
            Ok(
                (
                    match s.index {
                        Some(i) => i,
                        None => otherwise,
                    },
                    s.watch,
                    match s.source {
                        Some(n) => n,
                        None => 0,
                    },
                ),
            )
        },
    }
}

/// Reads the arguments of `serve`. `otherwise` is the index where none is named.
#[verifier::rlimit(40)]
pub fn parse_serve(args: &Vec<String>, otherwise: String) -> (r: Result<
    (String, Option<String>, u32),
    String,
>)
    ensures
        match r {
            Ok((index, watch, source)) => serve_plan(crate::text::strings(args@), otherwise@)
                == Ok::<(Seq<char>, Option<Seq<char>>, u32), Seq<char>>(
                (index@, crate::launch::some_text(watch), source),
            ),
            Err(e) => serve_plan(crate::text::strings(args@), otherwise@) == Err::<
                (Seq<char>, Option<Seq<char>>, u32),
                Seq<char>,
            >(e@),
        },
{
    let ghost views = crate::text::strings(args@);
    let ghost none = Serving { index: None, watch: None, source: None };
    let mut index: Option<String> = None;
    let mut watch: Option<String> = None;
    let mut source: Option<u32> = None;
    let mut at: usize = 0;
    let n: usize = args.len();
    while at < n
        invariant
            at <= n == args@.len(),
            views == crate::text::strings(args@),
            none == (Serving { index: None, watch: None, source: None }),
            serving(
                views,
                at as int,
                Serving {
                    index: crate::launch::some_text(index),
                    watch: crate::launch::some_text(watch),
                    source,
                },
            ) == serving(views, 0, none),
        decreases n - at,
    {
        assert(views[at as int] == args@[at as int]@);
        let word = args[at].as_str();
        let is_index: bool = crate::text::same_text(word, "--index");
        let is_watch: bool = crate::text::same_text(word, "--watch");
        let is_source: bool = crate::text::same_text(word, "--source");
        if !is_index && !is_watch && !is_source {
            return Err(crate::text::joined("unknown serve option ", word));
        }
        if n - at < 2 {
            return Err(crate::text::joined(word, " requires a value"));
        }
        assert(views[at + 1] == args@[at + 1]@);
        if is_index {
            index = Some(args[at + 1].clone());
        } else if is_watch {
            watch = Some(args[at + 1].clone());
        } else {
            let chars = crate::text::chars_of(args[at + 1].as_str());
            match crate::text::parse_number(chars.as_slice(), u32::MAX as u64) {
                Some(number) => {
                    source = Some(number as u32);
                },
                None => {
                    return Err("--source requires an unsigned integer".to_owned());
                },
            }
        }
        at += 2;
    }
    if source.is_some() && watch.is_none() {
        return Err("--source requires --watch MOUNT".to_owned());
    }
    let chosen = match index {
        Some(i) => i,
        None => otherwise,
    };
    let number: u32 = match source {
        Some(x) => x,
        None => 0,
    };
    Ok((chosen, watch, number))
}

/// The arguments that the helper is started with.
pub fn helper_arguments(index: String, watch: Option<String>, source: u32) -> (r: Vec<String>)
    ensures
        crate::text::strings(r@) == match watch {
            Some(m) => seq![
                "--watch-index"@,
                index@,
                m@,
                crate::text::decimal(source as nat),
            ],
            None => seq!["--serve-index"@, index@],
        },
{
    let mut r: Vec<String> = Vec::new();
    match watch {
        Some(m) => {
            r.push("--watch-index".to_owned());
            r.push(index);
            r.push(m);
            r.push(crate::text::decimal_text(source as u64));
            assert(crate::text::strings(r@) =~= seq![
                "--watch-index"@,
                index@,
                m@,
                crate::text::decimal(source as nat),
            ]);
        },
        None => {
            r.push("--serve-index".to_owned());
            r.push(index);
            assert(crate::text::strings(r@) =~= seq!["--serve-index"@, index@]);
        },
    }
    r
}

// ---------------------------------------------------------------------------
// mcp and companions

/// Reads the arguments of a command that takes at most an index.
pub fn only_index(args: &Vec<String>, command: &str) -> (r: Result<Option<String>, String>)
    ensures
        ({
            let a = crate::text::strings(args@);
            match r {
                Ok(None) => a.len() == 0,
                Ok(Some(i)) => a.len() == 2 && a[0] == "--index"@ && i@ == a[1],
                Err(e) => a.len() != 0 && !(a.len() == 2 && a[0] == "--index"@) && e@ == command@
                    + " accepts only [--index INDEX.nsx]"@,
            }
        }),
{
    let ghost a = crate::text::strings(args@);
    assert(a.len() == args@.len());
    if args.len() == 0 {
        return Ok(None);
    }
    assert(a[0] == args@[0]@);
    if args.len() == 2 && crate::text::same_text(args[0].as_str(), "--index") {
        assert(a[1] == args@[1]@);
        return Ok(Some(args[1].clone()));
    }
    Err(crate::text::joined(command, " accepts only [--index INDEX.nsx]"))
}

/// The file name of a program.
pub open spec fn program_name(host: Host, binary: Seq<char>) -> Seq<char> {
    if host == Host::Windows {
        binary + ".exe"@
    } else {
        binary
    }
}

/// The file name of a program.
pub fn executable_name(host: Host, binary: &str) -> (r: String)
    ensures
        r@ == program_name(host, binary@),
{
    if host == Host::Windows {
        crate::text::joined(binary, ".exe")
    } else {
        binary.to_owned()
    }
}

/// Where a companion would lie beside this program.
pub fn beside(host: Host, current: &str, binary: &str) -> (r: String)
    ensures
        r@ == crate::launch::with_file_name(host, current@, program_name(host, binary@)),
{
    let name = executable_name(host, binary);
    crate::launch::set_file_name(host, current, name.as_str())
}

/// The companion that is run: the configured one, the one beside this program where it is a
/// file, or whichever is found by its name.
pub fn companion(host: Host, configured: Option<String>, beside: Option<String>, binary: &str) -> (r:
    String)
    ensures
        r@ == match configured {
            Some(p) => p@,
            None => match beside {
                Some(p) => p@,
                None => program_name(host, binary@),
            },
        },
{
    if let Some(p) = configured {
        return p;
    }
    match beside {
        Some(p) => p,
        None => executable_name(host, binary),
    }
}

/// What is said before the machine is indexed because there is no usable index. `why` is what
/// is wrong with the one that is there.
pub fn missing_index(path: &str, why: Option<&str>) -> (r: String)
    ensures
        r@ == match why {
            Some(e) => "neutrasearch: index at "@ + path@ + " is not usable ("@ + e@
                + "); indexing the full machine first"@,
            None => "neutrasearch: no usable index exists at "@ + path@
                + "; indexing the full machine first"@,
        },
{
    match why {
        Some(e) => {
            let head = crate::text::joined3(
                "neutrasearch: index at ",
                path,
                " is not usable (",
            );
            crate::text::joined3(head.as_str(), e, "); indexing the full machine first")
        },
        None => crate::text::joined3(
            "neutrasearch: no usable index exists at ",
            path,
            "; indexing the full machine first",
        ),
    }
}

// ---------------------------------------------------------------------------
// Indexing the machine

/// What a scan sends.
pub enum ScanEvent {
    Message(HelperMsg),
    Fatal(String),
    /// The scanner is gone.
    Closed,
}

/// What follows an event of a scan.
pub enum BuildStep {
    /// Go on, after saying this.
    Go(Option<String>),
    /// Give up.
    Fail(String),
    /// Publish what was found.
    Publish,
}

/// The same as a mathematical value.
#[verifier::ext_equal]
pub enum BuildView {
    Go(Option<Seq<char>>),
    Fail(Seq<char>),
    Publish,
}

impl View for BuildStep {
    type V = BuildView;

    open spec fn view(&self) -> BuildView {
        match self {
            BuildStep::Go(t) => BuildView::Go(crate::launch::some_text(*t)),
            BuildStep::Fail(e) => BuildView::Fail(e@),
            BuildStep::Publish => BuildView::Publish,
        }
    }
}

/// The end of a scan of the machine: what was found is published where a lane was reached and
/// there is something.
pub open spec fn scan_verdict(found: nat, mounts: u32, errors: u32) -> BuildView {
    if !crate::launch::some_lane_reached(mounts, errors) {
        BuildView::Fail(
            "no native filesystem completed successfully ("@ + crate::text::decimal(errors as nat)
                + " error(s))"@,
        )
    } else if found == 0 {
        BuildView::Fail("native scanners returned no files; the previous index was kept"@)
    } else {
        BuildView::Publish
    }
}

/// What an event of a scan makes of what was found, and what follows.
pub open spec fn build_step(
    host: Host,
    roots: Seq<Seq<char>>,
    found: IndexView,
    e: ScanEvent,
) -> (IndexView, BuildView) {
    match e {
        ScanEvent::Fatal(t) => (found, BuildView::Fail(t@)),
        ScanEvent::Closed => (
            found,
            BuildView::Fail("native scanner stopped before completing"@),
        ),
        ScanEvent::Message(m) => match m@ {
            AnswerView::ScanBegin { mount } => (
                found,
                BuildView::Go(Some("neutrasearch: indexing "@ + mount.mountpoint)),
            ),
            AnswerView::Records(rs) => (
                IndexView {
                    records: found.records + crate::desktop::in_roots(host, roots, rs),
                    generation: (found.generation + 1) as u64,
                },
                BuildView::Go(None),
            ),
            AnswerView::ScanDone { mount, stats } => (
                found,
                BuildView::Go(
                    Some(
                        "neutrasearch: indexed "@ + crate::text::decimal(stats.records as nat)
                            + " records from "@ + mount.mountpoint + " in "@
                            + crate::text::decimal(stats.wall_ms as nat) + " ms"@,
                    ),
                ),
            ),
            AnswerView::ScanError { mount, error } => (
                found,
                BuildView::Go(Some("neutrasearch: skipped "@ + mount.mountpoint + ": "@ + error)),
            ),
            AnswerView::ScanComplete { mounts, errors } => (
                found,
                scan_verdict(found.records.len(), mounts, errors),
            ),
            AnswerView::Error(e) => (found, BuildView::Fail(e)),
            _ => (found, BuildView::Go(None)),
        },
    }
}

fn judge(found: usize, mounts: u32, errors: u32) -> (r: BuildStep)
    ensures
        r@ == scan_verdict(found as nat, mounts, errors),
{
    if !crate::launch::scan_has_reachable_lane(mounts, errors) {
        let n = crate::text::decimal_text(errors as u64);
        return BuildStep::Fail(
            crate::text::joined3(
                "no native filesystem completed successfully (",
                n.as_str(),
                " error(s))",
            ),
        );
    }
    if found == 0 {
        return BuildStep::Fail(
            "native scanners returned no files; the previous index was kept".to_owned(),
        );
    }
    BuildStep::Publish
}

/// Takes an event of a scan of the machine. Only records in `roots` are kept.
#[verifier::rlimit(40)]
pub fn take_scan_event(host: Host, roots: &Vec<String>, found: &mut Index, e: ScanEvent) -> (r:
    BuildStep)
    requires
        old(found)@.generation < u64::MAX,
    ensures
        (final(found)@, r@) == build_step(host, crate::text::strings(roots@), old(found)@, e),
{
    match e {
        ScanEvent::Fatal(t) => BuildStep::Fail(t),
        ScanEvent::Closed => BuildStep::Fail("native scanner stopped before completing".to_owned()),
        ScanEvent::Message(m) => match m {
            HelperMsg::ScanBegin { mount } => BuildStep::Go(
                Some(crate::text::joined("neutrasearch: indexing ", mount.mountpoint.as_str())),
            ),
            HelperMsg::Records(records) => {
                let kept = crate::desktop::keep_in_roots(host, roots, records);
                found.extend(kept);
                BuildStep::Go(None)
            },
            HelperMsg::ScanDone { mount, stats } => {
                let n = crate::text::decimal_text(stats.records);
                let ms = crate::text::decimal_text(stats.wall_ms);
                let a = crate::text::joined3(
                    "neutrasearch: indexed ",
                    n.as_str(),
                    " records from ",
                );
                let b = crate::text::joined3(a.as_str(), mount.mountpoint.as_str(), " in ");
                BuildStep::Go(Some(crate::text::joined3(b.as_str(), ms.as_str(), " ms")))
            },
            HelperMsg::ScanError { mount, error } => {
                let a = crate::text::joined3(
                    "neutrasearch: skipped ",
                    mount.mountpoint.as_str(),
                    ": ",
                );
                BuildStep::Go(Some(crate::text::joined(a.as_str(), error.as_str())))
            },
            HelperMsg::ScanComplete { mounts, errors } => judge(found.len(), mounts, errors),
            HelperMsg::Error(t) => BuildStep::Fail(t),
            _ => BuildStep::Go(None),
        },
    }
}

/// A scan that reached no lane, or found nothing, is never published.
pub proof fn law_failed_scans_are_not_published(found: nat, mounts: u32, errors: u32)
    ensures
        scan_verdict(found, mounts, errors) is Publish <==> crate::launch::some_lane_reached(
            mounts,
            errors,
        ) && found > 0,
{
}

} // verus!
