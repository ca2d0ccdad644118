//! Command-line decisions: which command runs, how its arguments are read,
//! which entries a listing shows, and which entry a restore targets.

use vstd::prelude::*;
use crate::args::{has_flag, is_option, is_option_spec, RangeSelection};
use crate::constants::DEFAULT_MIME;
use crate::text::{
    chars_of, lowercase_of, parse_i64_chars, parse_i64_spec, parse_usize_chars, parse_usize_spec,
    str_eq, string_of, to_lowercase, trim, trimmed,
};

verus! {

/// The command an invocation asks for.
#[derive(Debug, Clone, Copy, PartialEq, Eq, Structural)]
pub enum Command {
    Help,
    Version,
    /// The first argument is an option where a command belongs.
    InvalidFormat,
    Daemon,
    List,
    Search,
    Show,
    CopyTo,
    Store,
    Delete,
    Wipe,
    PasteFrom,
    /// The first argument names no command.
    Unrecognized,
}

pub open spec fn arg_views(args: Seq<String>) -> Seq<Seq<char>> {
    Seq::new(args.len(), |k: int| args[k]@)
}

/// Some argument equals `long` or `short`.
pub open spec fn flag_present(args: Seq<Seq<char>>, long: Seq<char>, short: Seq<char>) -> bool {
    exists|i: int| 0 <= i < args.len() && (#[trigger] args[i] == long || args[i] == short)
}

/// The command named by `cmd`.
pub open spec fn command_named(cmd: Seq<char>) -> Command {
    if cmd == "daemon"@ {
        Command::Daemon
    } else if cmd == "list"@ {
        Command::List
    } else if cmd == "search"@ {
        Command::Search
    } else if cmd == "show"@ {
        Command::Show
    } else if cmd == "copy-to"@ {
        Command::CopyTo
    } else if cmd == "store"@ {
        Command::Store
    } else if cmd == "delete"@ {
        Command::Delete
    } else if cmd == "wipe"@ {
        Command::Wipe
    } else if cmd == "paste-from"@ {
        Command::PasteFrom
    } else if cmd == "help"@ {
        Command::Help
    } else if cmd == "version"@ {
        Command::Version
    } else {
        Command::Unrecognized
    }
}

/// The command that the arguments (program name first) select.
pub open spec fn route(args: Seq<Seq<char>>) -> Command {
    if args.len() < 2 || flag_present(args, "--help"@, "-h"@) {
        Command::Help
    } else if flag_present(args, "--version"@, "-V"@) {
        Command::Version
    } else if is_option_spec(args[1]) {
        Command::InvalidFormat
    } else {
        command_named(args[1])
    }
}

fn command_of(cmd: &str) -> (r: Command)
    ensures
        r == command_named(cmd@),
{
    if str_eq(cmd, "daemon") {
        Command::Daemon
    } else if str_eq(cmd, "list") {
        Command::List
    } else if str_eq(cmd, "search") {
        Command::Search
    } else if str_eq(cmd, "show") {
        Command::Show
    } else if str_eq(cmd, "copy-to") {
        Command::CopyTo
    } else if str_eq(cmd, "store") {
        Command::Store
    } else if str_eq(cmd, "delete") {
        Command::Delete
    } else if str_eq(cmd, "wipe") {
        Command::Wipe
    } else if str_eq(cmd, "paste-from") {
        Command::PasteFrom
    } else if str_eq(cmd, "help") {
        Command::Help
    } else if str_eq(cmd, "version") {
        Command::Version
    } else {
        Command::Unrecognized
    }
}

proof fn lemma_flag_views(args: Seq<String>, long: Seq<char>, short: Seq<char>)
    ensures
        flag_present(arg_views(args), long, short) == exists|i: int|
            0 <= i < args.len() && (#[trigger] args[i]@ == long || args[i]@ == short),
{
    let v = arg_views(args);
    if flag_present(v, long, short) {
        let i = choose|i: int| 0 <= i < v.len() && (#[trigger] v[i] == long || v[i] == short);
        assert(args[i]@ == v[i]);
    }
    if exists|i: int| 0 <= i < args.len() && (#[trigger] args[i]@ == long || args[i]@ == short) {
        let i = choose|i: int| 0 <= i < args.len() && (#[trigger] args[i]@ == long || args[i]@ == short);
        assert(v[i] == args[i]@);
    }
}

/// Routes an invocation to its command.
pub fn route_command(args: &[String]) -> (r: Command)
    ensures
        r == route(arg_views(args@)),
{
    proof {
        lemma_flag_views(args@, "--help"@, "-h"@);
        lemma_flag_views(args@, "--version"@, "-V"@);
    }
    if args.len() < 2 || has_flag(args, "--help", "-h") {
        return Command::Help;
    }
    if has_flag(args, "--version", "-V") {
        return Command::Version;
    }
    let cmd = args[1].as_str();
    assert(arg_views(args@)[1] == cmd@);
    if is_option(cmd) {
        return Command::InvalidFormat;
    }
    command_of(cmd)
}

/// How an argument after the command is read.
#[derive(Debug, Clone, Copy, PartialEq, Eq, Structural)]
pub enum ArgKind {
    Raw,
    Full,
    Force,
    Verbose,
    UseId,
    Positional,
    Unknown,
}

pub open spec fn arg_kind(a: Seq<char>) -> ArgKind {
    if a == "--raw"@ || a == "-R"@ {
        ArgKind::Raw
    } else if a == "--full"@ || a == "-A"@ {
        ArgKind::Full
    } else if a == "--force"@ || a == "-f"@ {
        ArgKind::Force
    } else if a == "--verbose"@ || a == "-v"@ {
        ArgKind::Verbose
    } else if a == "--id"@ || a == "-i"@ {
        ArgKind::UseId
    } else if is_option_spec(a) {
        ArgKind::Unknown
    } else {
        ArgKind::Positional
    }
}

fn kind_of(a: &str) -> (r: ArgKind)
    ensures
        r == arg_kind(a@),
{
    if str_eq(a, "--raw") || str_eq(a, "-R") {
        ArgKind::Raw
    } else if str_eq(a, "--full") || str_eq(a, "-A") {
        ArgKind::Full
    } else if str_eq(a, "--force") || str_eq(a, "-f") {
        ArgKind::Force
    } else if str_eq(a, "--verbose") || str_eq(a, "-v") {
        ArgKind::Verbose
    } else if str_eq(a, "--id") || str_eq(a, "-i") {
        ArgKind::UseId
    } else if is_option(a) {
        ArgKind::Unknown
    } else {
        ArgKind::Positional
    }
}

/// The arguments of `s` of kind `k`, in order.
pub open spec fn of_kind(s: Seq<Seq<char>>, k: ArgKind) -> Seq<Seq<char>>
    decreases s.len(),
{
    if s.len() == 0 {
        Seq::empty()
    } else if arg_kind(s.last()) == k {
        of_kind(s.drop_last(), k).push(s.last())
    } else {
        of_kind(s.drop_last(), k)
    }
}

/// Some argument of `s` is of kind `k`.
pub open spec fn any_of_kind(s: Seq<Seq<char>>, k: ArgKind) -> bool {
    exists|i: int| 0 <= i < s.len() && arg_kind(#[trigger] s[i]) == k
}

/// Arguments after the command, sorted into flags, positional arguments and
/// unknown options.
pub struct ArgContext {
    pub raw: bool,
    pub full: bool,
    pub force: bool,
    pub verbose: bool,
    pub use_id: bool,
    pub positionals: Vec<String>,
    pub unknown_flags: Vec<String>,
}

/// `ctx` is what `ArgContext::parse` reads from the arguments `rest` that
/// follow the command.
pub open spec fn context_of(ctx: ArgContext, rest: Seq<Seq<char>>) -> bool {
    &&& ctx.raw == any_of_kind(rest, ArgKind::Raw)
    &&& ctx.full == any_of_kind(rest, ArgKind::Full)
    &&& ctx.force == any_of_kind(rest, ArgKind::Force)
    &&& ctx.verbose == any_of_kind(rest, ArgKind::Verbose)
    &&& ctx.use_id == any_of_kind(rest, ArgKind::UseId)
    &&& arg_views(ctx.positionals@) == of_kind(rest, ArgKind::Positional)
    &&& arg_views(ctx.unknown_flags@) == of_kind(rest, ArgKind::Unknown)
}

/// The arguments after the program name and the command.
pub open spec fn after_command(args: Seq<String>) -> Seq<Seq<char>> {
    if args.len() <= 2 {
        Seq::empty()
    } else {
        arg_views(args).skip(2)
    }
}

impl ArgContext {
    /// Reads the arguments that follow the command (`args[2..]`).
    pub fn parse(args: &[String]) -> (r: ArgContext)
        ensures
            context_of(r, after_command(args@)),
    {
        let ghost rest = after_command(args@);
        let mut ctx = ArgContext {
            raw: false,
            full: false,
            force: false,
            verbose: false,
            use_id: false,
            positionals: Vec::new(),
            unknown_flags: Vec::new(),
        };
        assert(arg_views(ctx.positionals@) =~= Seq::<Seq<char>>::empty());
        assert(arg_views(ctx.unknown_flags@) =~= Seq::<Seq<char>>::empty());
        if args.len() <= 2 {
            return ctx;
        }
        let mut i: usize = 2;
        assert(rest.take(0) =~= Seq::<Seq<char>>::empty());
        while i < args.len()
            invariant
                args@.len() > 2,
                rest == arg_views(args@).skip(2),
                2 <= i <= args@.len(),
                context_of(ctx, rest.take(i - 2)),
            decreases args@.len() - i,
        {
            let a = &args[i];
            let k = kind_of(a.as_str());
            let ghost pre = rest.take(i - 2);
            let ghost post = rest.take(i - 1);
            proof {
                assert(post.drop_last() =~= pre);
                assert(post.last() == a@);
                assert forall|kk: ArgKind| any_of_kind(post, kk) == (any_of_kind(pre, kk) || arg_kind(a@) == kk) by {
                    if any_of_kind(post, kk) {
                        let j = choose|j: int| 0 <= j < post.len() && arg_kind(#[trigger] post[j]) == kk;
                        if j < pre.len() {
                            assert(pre[j] == post[j]);
                        }
                    }
                    if any_of_kind(pre, kk) {
                        let j = choose|j: int| 0 <= j < pre.len() && arg_kind(#[trigger] pre[j]) == kk;
                        assert(post[j] == pre[j]);
                    }
                    if arg_kind(a@) == kk {
                        assert(post[post.len() - 1] == a@);
                    }
                }
            }
            match k {
                ArgKind::Raw => {
                    ctx.raw = true;
                },
                ArgKind::Full => {
                    ctx.full = true;
                },
                ArgKind::Force => {
                    ctx.force = true;
                },
                ArgKind::Verbose => {
                    ctx.verbose = true;
                },
                ArgKind::UseId => {
                    ctx.use_id = true;
                },
                ArgKind::Positional => {
                    let ghost before = ctx.positionals@;
                    ctx.positionals.push(a.clone());
                    assert(arg_views(ctx.positionals@) =~= arg_views(before).push(a@));
                },
                ArgKind::Unknown => {
                    let ghost before = ctx.unknown_flags@;
                    ctx.unknown_flags.push(a.clone());
                    assert(arg_views(ctx.unknown_flags@) =~= arg_views(before).push(a@));
                },
            }
            i += 1;
        }
        assert(rest.take(i - 2) =~= rest);
        ctx
    }
}

/// The half-open window `[start, end)` of a listing of `len` entries that a
/// `list` command shows.
pub open spec fn window(len: nat, sel: RangeSelection, full: bool) -> (nat, nat) {
    if full {
        (0, len)
    } else {
        match sel {
            RangeSelection::Single(n) => if n < len {
                (n as nat, (n + 1) as nat)
            } else {
                (0, 0)
            },
            RangeSelection::Range(s, e) => if len == 0 {
                (0, 0)
            } else {
                let s2: nat = if s < len - 1 { s as nat } else { (len - 1) as nat };
                let e2: nat = if e < len - 1 { e as nat } else { (len - 1) as nat };
                if s2 <= e2 {
                    (s2, e2 + 1)
                } else {
                    (0, 0)
                }
            },
            RangeSelection::Latest(l) => (0, if l < len { l as nat } else { len }),
        }
    }
}

/// Which entries of a listing of `len` entries to show.
pub fn list_window(len: usize, sel: RangeSelection, full: bool) -> (r: (usize, usize))
    ensures
        (r.0 as nat, r.1 as nat) == window(len as nat, sel, full),
        r.0 <= r.1 <= len,
{
    if full {
        return (0, len);
    }
    match sel {
        RangeSelection::Single(n) => if n < len {
            (n, n + 1)
        } else {
            (0, 0)
        },
        RangeSelection::Range(start, end) => if len == 0 {
            (0, 0)
        } else {
            let s = if start < len - 1 {
                start
            } else {
                len - 1
            };
            let e = if end < len - 1 {
                end
            } else {
                len - 1
            };
            if s <= e {
                (s, e + 1)
            } else {
                (0, 0)
            }
        },
        RangeSelection::Latest(limit) => (0, if limit < len {
            limit
        } else {
            len
        }),
    }
}

/// Which entry a `copy-to` command puts back on the clipboard.
#[derive(Debug, Clone, Copy, PartialEq, Eq, Structural)]
pub enum CopyTarget {
    /// No identifier was given.
    MissingId,
    /// The identifier names no entry.
    Invalid,
    /// The entry with this database id.
    Entry(i64),
}

/// The target of `copy-to`: the identifier is read as an `i64` (`-1` when
/// it does not parse); with `--id` it is the database id, otherwise a
/// position in the listing `ids`; `-1` stands for no entry.
pub open spec fn copy_target_spec(positional: Option<Seq<char>>, use_id: bool, ids: Seq<i64>) -> CopyTarget {
    match positional {
        None => CopyTarget::MissingId,
        Some(p) => {
            let val: i64 = match parse_i64_spec(p) {
                Some(v) => v,
                None => -1i64,
            };
            let target_id: i64 = if use_id {
                val
            } else if ((val as usize) as int) < ids.len() {
                ids[(val as usize) as int]
            } else {
                -1i64
            };
            if target_id == -1 {
                CopyTarget::Invalid
            } else {
                CopyTarget::Entry(target_id)
            }
        },
    }
}

pub open spec fn opt_string_view(o: Option<&String>) -> Option<Seq<char>> {
    match o {
        Some(s) => Some(s@),
        None => None,
    }
}

/// Resolves the entry that `copy-to` targets, given the ids of the listing.
pub fn resolve_copy_target(positional: Option<&String>, use_id: bool, ids: &[i64]) -> (r: CopyTarget)
    ensures
        r == copy_target_spec(opt_string_view(positional), use_id, ids@),
{
    let p = match positional {
        Some(p) => p,
        None => {
            return CopyTarget::MissingId;
        },
    };
    let pc = chars_of(p.as_str());
    let val: i64 = match parse_i64_chars(pc.as_slice()) {
        Some(v) => v,
        None => -1,
    };
    let target_id: i64 = if use_id {
        val
    } else {
        let ix = val as usize;
        if ix < ids.len() {
            ids[ix]
        } else {
            -1
        }
    };
    if target_id == -1 {
        CopyTarget::Invalid
    } else {
        CopyTarget::Entry(target_id)
    }
}

/// Reads the entry id sent to the daemon over its socket.
pub fn parse_ipc_id(message: &str) -> (r: Option<i64>)
    ensures
        r == parse_i64_spec(trim(message@)),
{
    let c = chars_of(message);
    let t = trimmed(c.as_slice());
    parse_i64_chars(t.as_slice())
}

/// Reads a listing position.
pub fn parse_index(s: &str) -> (r: Option<usize>)
    ensures
        r == parse_usize_spec(s@),
{
    let c = chars_of(s);
    parse_usize_chars(c.as_slice())
}

/// The argument after the command, when there is one and it is not an option.
pub open spec fn positional_arg(args: Seq<String>) -> Option<Seq<char>> {
    if args.len() > 2 && !is_option_spec(args[2]@) {
        Some(args[2]@)
    } else {
        None
    }
}

/// How the position argument of `delete` reads.
#[derive(Debug, Clone, Copy, PartialEq, Eq, Structural)]
pub enum IndexArg {
    Missing,
    Invalid,
    Index(usize),
}

pub open spec fn index_arg_spec(args: Seq<String>) -> IndexArg {
    match positional_arg(args) {
        None => IndexArg::Missing,
        Some(a) => match parse_usize_spec(a) {
            Some(n) => IndexArg::Index(n),
            None => IndexArg::Invalid,
        },
    }
}

/// Reads the position argument of `delete`.
pub fn index_arg(args: &[String]) -> (r: IndexArg)
    ensures
        r == index_arg_spec(args@),
{
    if args.len() > 2 && !is_option(args[2].as_str()) {
        match parse_index(args[2].as_str()) {
            Some(n) => IndexArg::Index(n),
            None => IndexArg::Invalid,
        }
    } else {
        IndexArg::Missing
    }
}

/// Reads the keyword of `search`: the argument after the command, trimmed,
/// when it is not an option and not blank.
pub fn search_query(args: &[String]) -> (r: Option<String>)
    ensures
        match positional_arg(args@) {
            Some(a) if trim(a).len() > 0 => r matches Some(q) && q@ == trim(a),
            _ => r is None,
        },
{
    if args.len() > 2 && !is_option(args[2].as_str()) {
        let c = chars_of(args[2].as_str());
        let t = trimmed(c.as_slice());
        if t.len() > 0 {
            return Some(string_of(t.as_slice()));
        }
    }
    None
}

/// The MIME type argument of `store` and `paste-from`, `DEFAULT_MIME` when
/// there is none.
pub fn mime_arg(args: &[String]) -> (r: String)
    ensures
        match positional_arg(args@) {
            Some(a) => r@ == a,
            None => r@ == DEFAULT_MIME@,
        },
{
    if args.len() > 2 && !is_option(args[2].as_str()) {
        args[2].clone()
    } else {
        DEFAULT_MIME.to_owned()
    }
}

/// The already lower-cased answer is a yes.
pub open spec fn yes_word(lowered: Seq<char>) -> bool {
    lowered == "y"@ || lowered == "yes"@
}

/// Whether an already trimmed and lower-cased answer is a yes.
pub fn is_yes(lowered: &str) -> (r: bool)
    ensures
        r == yes_word(lowered@),
{
    str_eq(lowered, "y") || str_eq(lowered, "yes")
}

/// Whether an answer to the wipe confirmation agrees: trimmed and lower-cased,
/// it is `y` or `yes`.
pub fn is_affirmative(answer: &str) -> (r: bool)
    ensures
        r == yes_word(lowercase_of(trim(answer@))),
{
    let c = chars_of(answer);
    let t = string_of(trimmed(c.as_slice()).as_slice());
    let lowered = to_lowercase(t.as_str());
    is_yes(lowered.as_str())
}

/// `show` prints the content as text for MIME types holding `text` or `UTF8`.
pub fn shows_as_text(mime: &str) -> (r: bool)
    ensures
        r == (crate::text::has_infix(mime@, "text"@) || crate::text::has_infix(mime@, "UTF8"@)),
{
    crate::text::str_contains(mime, "text") || crate::text::str_contains(mime, "UTF8")
}

/// `--help` or `-h` anywhere asks for help; otherwise `--version` or `-V`
/// anywhere asks for the version; a first argument that is an option is a
/// format error; and a bare program name asks for help.
pub proof fn law_route_flags(args: Seq<Seq<char>>, i: int)
    requires
        0 <= i < args.len(),
    ensures
        args[i] == "--help"@ ==> route(args) == Command::Help,
        args[i] == "-h"@ ==> route(args) == Command::Help,
        args.len() >= 2 && (args[i] == "--version"@ || args[i] == "-V"@) && !flag_present(args, "--help"@, "-h"@) ==> route(
            args,
        ) == Command::Version,
        args.len() >= 2 && !flag_present(args, "--help"@, "-h"@) && !flag_present(
            args,
            "--version"@,
            "-V"@,
        ) && is_option_spec(args[1]) ==> route(args) == Command::InvalidFormat,
{
    assert(args[i] == args[i]);
}

/// A program name alone asks for help.
pub proof fn law_route_empty(args: Seq<Seq<char>>)
    requires
        args.len() < 2,
    ensures
        route(args) == Command::Help,
{
}

/// Each command word selects its own command, and any other word none.
pub proof fn law_command_names()
    ensures
        command_named("daemon"@) == Command::Daemon,
        command_named("list"@) == Command::List,
        command_named("search"@) == Command::Search,
        command_named("show"@) == Command::Show,
        command_named("copy-to"@) == Command::CopyTo,
        command_named("store"@) == Command::Store,
        command_named("delete"@) == Command::Delete,
        command_named("wipe"@) == Command::Wipe,
        command_named("paste-from"@) == Command::PasteFrom,
        command_named("help"@) == Command::Help,
        command_named("version"@) == Command::Version,
        command_named("serve-internal"@) == Command::Unrecognized,
        command_named(Seq::empty()) == Command::Unrecognized,
{
    reveal_strlit("daemon");
    reveal_strlit("list");
    reveal_strlit("search");
    reveal_strlit("show");
    reveal_strlit("copy-to");
    reveal_strlit("store");
    reveal_strlit("delete");
    reveal_strlit("wipe");
    reveal_strlit("paste-from");
    reveal_strlit("help");
    reveal_strlit("version");
    reveal_strlit("serve-internal");
    assert("list"@.len() != "daemon"@.len());
    assert("search"@[0] != "daemon"@[0]);
    assert("search"@.len() != "list"@.len());
    assert("show"@.len() != "daemon"@.len());
    assert("show"@[0] != "list"@[0]);
    assert("show"@.len() != "search"@.len());
    assert("copy-to"@.len() != "daemon"@.len());
    assert("copy-to"@.len() != "list"@.len());
    assert("copy-to"@.len() != "search"@.len());
    assert("copy-to"@.len() != "show"@.len());
    assert("store"@.len() != "daemon"@.len());
    assert("store"@.len() != "list"@.len());
    assert("store"@.len() != "search"@.len());
    assert("store"@.len() != "show"@.len());
    assert("store"@.len() != "copy-to"@.len());
    assert("delete"@[1] != "daemon"@[1]);
    assert("delete"@.len() != "list"@.len());
    assert("delete"@[0] != "search"@[0]);
    assert("delete"@.len() != "show"@.len());
    assert("delete"@.len() != "copy-to"@.len());
    assert("delete"@.len() != "store"@.len());
    assert("wipe"@.len() != "daemon"@.len());
    assert("wipe"@[0] != "list"@[0]);
    assert("wipe"@.len() != "search"@.len());
    assert("wipe"@[0] != "show"@[0]);
    assert("wipe"@.len() != "copy-to"@.len());
    assert("wipe"@.len() != "store"@.len());
    assert("wipe"@.len() != "delete"@.len());
    assert("paste-from"@.len() != "daemon"@.len());
    assert("paste-from"@.len() != "list"@.len());
    assert("paste-from"@.len() != "search"@.len());
    assert("paste-from"@.len() != "show"@.len());
    assert("paste-from"@.len() != "copy-to"@.len());
    assert("paste-from"@.len() != "store"@.len());
    assert("paste-from"@.len() != "delete"@.len());
    assert("paste-from"@.len() != "wipe"@.len());
    assert("help"@.len() != "daemon"@.len());
    assert("help"@[0] != "list"@[0]);
    assert("help"@.len() != "search"@.len());
    assert("help"@[0] != "show"@[0]);
    assert("help"@.len() != "copy-to"@.len());
    assert("help"@.len() != "store"@.len());
    assert("help"@.len() != "delete"@.len());
    assert("help"@[0] != "wipe"@[0]);
    assert("help"@.len() != "paste-from"@.len());
    assert("version"@.len() != "daemon"@.len());
    assert("version"@.len() != "list"@.len());
    assert("version"@.len() != "search"@.len());
    assert("version"@.len() != "show"@.len());
    assert("version"@[0] != "copy-to"@[0]);
    assert("version"@.len() != "store"@.len());
    assert("version"@.len() != "delete"@.len());
    assert("version"@.len() != "wipe"@.len());
    assert("version"@.len() != "paste-from"@.len());
    assert("version"@.len() != "help"@.len());
    assert("serve-internal"@.len() != "daemon"@.len());
    assert("serve-internal"@.len() != "list"@.len());
    assert("serve-internal"@.len() != "search"@.len());
    assert("serve-internal"@.len() != "show"@.len());
    assert("serve-internal"@.len() != "copy-to"@.len());
    assert("serve-internal"@.len() != "store"@.len());
    assert("serve-internal"@.len() != "delete"@.len());
    assert("serve-internal"@.len() != "wipe"@.len());
    assert("serve-internal"@.len() != "paste-from"@.len());
    assert("serve-internal"@.len() != "help"@.len());
    assert("serve-internal"@.len() != "version"@.len());
    assert(Seq::<char>::empty().len() != "daemon"@.len());
    assert(Seq::<char>::empty().len() != "list"@.len());
    assert(Seq::<char>::empty().len() != "search"@.len());
    assert(Seq::<char>::empty().len() != "show"@.len());
    assert(Seq::<char>::empty().len() != "copy-to"@.len());
    assert(Seq::<char>::empty().len() != "store"@.len());
    assert(Seq::<char>::empty().len() != "delete"@.len());
    assert(Seq::<char>::empty().len() != "wipe"@.len());
    assert(Seq::<char>::empty().len() != "paste-from"@.len());
    assert(Seq::<char>::empty().len() != "help"@.len());
    assert(Seq::<char>::empty().len() != "version"@.len());
}

/// A listing window: a range `s-e` shows positions `s` through `e`, both
/// included, so `e - s + 1` entries; a range running past the end shows
/// through the last entry; a single position shows that one entry; the
/// `--full` flag shows everything; the default shows the `l` most recent
/// entries, or all when fewer are stored.
pub proof fn law_window(len: nat, s: usize, e: usize, n: usize, l: usize, sel: RangeSelection)
    ensures
        s <= e < len ==> window(len, RangeSelection::Range(s, e), false) == (s as nat, (e + 1) as nat)
            && window(len, RangeSelection::Range(s, e), false).1 - window(len, RangeSelection::Range(s, e), false).0 == e - s + 1,
        s < len <= e ==> window(len, RangeSelection::Range(s, e), false) == (s as nat, len),
        0 < len <= s && len <= e ==> window(len, RangeSelection::Range(s, e), false) == ((len - 1) as nat, len),
        e < s ==> window(len, RangeSelection::Range(s, e), false) == (0nat, 0nat) || s >= len,
        n < len ==> window(len, RangeSelection::Single(n), false) == (n as nat, (n + 1) as nat),
        n >= len ==> window(len, RangeSelection::Single(n), false) == (0nat, 0nat),
        window(len, sel, true) == (0nat, len),
        l <= len ==> window(len, RangeSelection::Latest(l), false) == (0nat, l as nat),
        l > len ==> window(len, RangeSelection::Latest(l), false) == (0nat, len),
        len == 0 ==> window(len, sel, false).1 == 0,
{
}

/// Each option word reads as its own flag, in long and short form; any other
/// word starting with `-` is an unknown option; anything else is positional.
pub proof fn law_arg_kinds(a: Seq<char>)
    ensures
        arg_kind("--raw"@) == ArgKind::Raw,
        arg_kind("-R"@) == ArgKind::Raw,
        arg_kind("--full"@) == ArgKind::Full,
        arg_kind("-A"@) == ArgKind::Full,
        arg_kind("--force"@) == ArgKind::Force,
        arg_kind("-f"@) == ArgKind::Force,
        arg_kind("--verbose"@) == ArgKind::Verbose,
        arg_kind("-v"@) == ArgKind::Verbose,
        arg_kind("--id"@) == ArgKind::UseId,
        arg_kind("-i"@) == ArgKind::UseId,
        arg_kind("-x"@) == ArgKind::Unknown,
        arg_kind("list"@) == ArgKind::Positional,
        a.len() == 0 ==> arg_kind(a) == ArgKind::Positional,
        a.len() > 0 && a[0] != '-' ==> arg_kind(a) == ArgKind::Positional,
{
    reveal_strlit("--raw");
    reveal_strlit("-R");
    reveal_strlit("--full");
    reveal_strlit("-A");
    reveal_strlit("--force");
    reveal_strlit("-f");
    reveal_strlit("--verbose");
    reveal_strlit("-v");
    reveal_strlit("--id");
    reveal_strlit("-i");
    reveal_strlit("-x");
    reveal_strlit("list");
    assert("-R"@.len() != "--raw"@.len());
    assert("--full"@.len() != "--raw"@.len());
    assert("--full"@.len() != "-R"@.len());
    assert("-A"@.len() != "--raw"@.len());
    assert("-A"@[1] != "-R"@[1]);
    assert("-A"@.len() != "--full"@.len());
    assert("--force"@.len() != "--raw"@.len());
    assert("--force"@.len() != "-R"@.len());
    assert("--force"@.len() != "--full"@.len());
    assert("--force"@.len() != "-A"@.len());
    assert("-f"@.len() != "--raw"@.len());
    assert("-f"@[1] != "-R"@[1]);
    assert("-f"@.len() != "--full"@.len());
    assert("-f"@[1] != "-A"@[1]);
    assert("-f"@.len() != "--force"@.len());
    assert("--verbose"@.len() != "--raw"@.len());
    assert("--verbose"@.len() != "-R"@.len());
    assert("--verbose"@.len() != "--full"@.len());
    assert("--verbose"@.len() != "-A"@.len());
    assert("--verbose"@.len() != "--force"@.len());
    assert("--verbose"@.len() != "-f"@.len());
    assert("-v"@.len() != "--raw"@.len());
    assert("-v"@[1] != "-R"@[1]);
    assert("-v"@.len() != "--full"@.len());
    assert("-v"@[1] != "-A"@[1]);
    assert("-v"@.len() != "--force"@.len());
    assert("-v"@[1] != "-f"@[1]);
    assert("-v"@.len() != "--verbose"@.len());
    assert("--id"@.len() != "--raw"@.len());
    assert("--id"@.len() != "-R"@.len());
    assert("--id"@.len() != "--full"@.len());
    assert("--id"@.len() != "-A"@.len());
    assert("--id"@.len() != "--force"@.len());
    assert("--id"@.len() != "-f"@.len());
    assert("--id"@.len() != "--verbose"@.len());
    assert("--id"@.len() != "-v"@.len());
    assert("-i"@.len() != "--raw"@.len());
    assert("-i"@[1] != "-R"@[1]);
    assert("-i"@.len() != "--full"@.len());
    assert("-i"@[1] != "-A"@[1]);
    assert("-i"@.len() != "--force"@.len());
    assert("-i"@[1] != "-f"@[1]);
    assert("-i"@.len() != "--verbose"@.len());
    assert("-i"@[1] != "-v"@[1]);
    assert("-i"@.len() != "--id"@.len());
    assert("-x"@.len() != "--raw"@.len());
    assert("-x"@[1] != "-R"@[1]);
    assert("-x"@.len() != "--full"@.len());
    assert("-x"@[1] != "-A"@[1]);
    assert("-x"@.len() != "--force"@.len());
    assert("-x"@[1] != "-f"@[1]);
    assert("-x"@.len() != "--verbose"@.len());
    assert("-x"@[1] != "-v"@[1]);
    assert("-x"@.len() != "--id"@.len());
    assert("-x"@[1] != "-i"@[1]);
    assert("list"@.len() != "--raw"@.len());
    assert("list"@.len() != "-R"@.len());
    assert("list"@.len() != "--full"@.len());
    assert("list"@.len() != "-A"@.len());
    assert("list"@.len() != "--force"@.len());
    assert("list"@.len() != "-f"@.len());
    assert("list"@.len() != "--verbose"@.len());
    assert("list"@.len() != "-v"@.len());
    assert("list"@[0] != "--id"@[0]);
    assert("list"@.len() != "-i"@.len());
    if a.len() == 0 || a[0] != '-' {
        assert(!is_option_spec(a));
        assert(a.len() == 0 || a[0] != "--raw"@[0]);
        assert(a.len() == 0 || a[0] != "-R"@[0]);
        assert(a.len() == 0 || a[0] != "--full"@[0]);
        assert(a.len() == 0 || a[0] != "-A"@[0]);
        assert(a.len() == 0 || a[0] != "--force"@[0]);
        assert(a.len() == 0 || a[0] != "-f"@[0]);
        assert(a.len() == 0 || a[0] != "--verbose"@[0]);
        assert(a.len() == 0 || a[0] != "-v"@[0]);
        assert(a.len() == 0 || a[0] != "--id"@[0]);
        assert(a.len() == 0 || a[0] != "-i"@[0]);
        assert(a != "--raw"@);
        assert(a != "-R"@);
        assert(a != "--full"@);
        assert(a != "-A"@);
        assert(a != "--force"@);
        assert(a != "-f"@);
        assert(a != "--verbose"@);
        assert(a != "-v"@);
        assert(a != "--id"@);
        assert(a != "-i"@);
    }
}

/// Sorting arguments by kind keeps exactly those of the kind asked for: every
/// argument kept has that kind, some is kept exactly when some argument has
/// it, and none is kept from arguments without it.
pub proof fn law_of_kind(s: Seq<Seq<char>>, k: ArgKind)
    ensures
        forall|j: int| 0 <= j < of_kind(s, k).len() ==> arg_kind(#[trigger] of_kind(s, k)[j]) == k,
        of_kind(s, k).len() <= s.len(),
        (of_kind(s, k).len() > 0) == any_of_kind(s, k),
        (forall|i: int| 0 <= i < s.len() ==> arg_kind(#[trigger] s[i]) == k) ==> of_kind(s, k) == s,
    decreases s.len(),
{
    if s.len() > 0 {
        let d = s.drop_last();
        law_of_kind(d, k);
        if any_of_kind(s, k) {
            let i = choose|i: int| 0 <= i < s.len() && arg_kind(#[trigger] s[i]) == k;
            if i < s.len() - 1 {
                assert(d[i] == s[i]);
            }
        }
        if any_of_kind(d, k) {
            let i = choose|i: int| 0 <= i < d.len() && arg_kind(#[trigger] d[i]) == k;
            assert(s[i] == d[i]);
        }
        if forall|i: int| 0 <= i < s.len() ==> arg_kind(#[trigger] s[i]) == k {
            assert forall|i: int| 0 <= i < d.len() implies arg_kind(#[trigger] d[i]) == k by {
                assert(d[i] == s[i]);
            }
            assert(s =~= d.push(s.last()));
        }
        if arg_kind(s.last()) == k {
            let o = of_kind(s, k);
            assert forall|j: int| 0 <= j < o.len() implies arg_kind(#[trigger] o[j]) == k by {
                if j < o.len() - 1 {
                    assert(o[j] == of_kind(d, k)[j]);
                }
            }
        }
    }
}

/// Decimal digits read back as the number they spell, both as a listing
/// position and as an entry id.
pub proof fn law_digits_parse(n: nat)
    ensures
        n <= usize::MAX ==> parse_usize_spec(crate::listing::nat_digits(n)) == Some(n as usize),
        n <= i64::MAX ==> parse_i64_spec(crate::listing::nat_digits(n)) == Some(n as i64),
{
    crate::listing::lemma_nat_digits(n);
    let d = crate::listing::nat_digits(n);
    assert(crate::text::is_digit(d[0]));
}

/// `copy-to` resolves its argument: without one it reports a missing id;
/// with `--id`, an id that reads as a number other than -1 selects that id and
/// anything else is invalid; without `--id`, a position `i` within the
/// listing selects the id listed there.
pub proof fn law_copy_target(p: Seq<char>, ids: Seq<i64>, v: i64, i: nat)
    ensures
        copy_target_spec(None, false, ids) == CopyTarget::MissingId,
        copy_target_spec(None, true, ids) == CopyTarget::MissingId,
        parse_i64_spec(p) == Some(v) && v != -1 ==> copy_target_spec(Some(p), true, ids) == CopyTarget::Entry(v),
        parse_i64_spec(p) is None ==> copy_target_spec(Some(p), true, ids) == CopyTarget::Invalid,
        i < ids.len() && i <= i64::MAX && i <= usize::MAX && ids[i as int] != -1 ==> copy_target_spec(
            Some(crate::listing::nat_digits(i)),
            false,
            ids,
        ) == CopyTarget::Entry(ids[i as int]),
{
    if i <= i64::MAX && i <= usize::MAX {
        law_digits_parse(i);
        let w = i as i64;
        assert((w as usize) as int == i);
    }
}

/// `delete` reads its position: none after the command is missing, a number
/// is that position, any other word is invalid.
pub proof fn law_index_arg(args: Seq<String>, n: nat)
    ensures
        args.len() <= 2 ==> index_arg_spec(args) == IndexArg::Missing,
        args.len() > 2 && args[2]@ == crate::listing::nat_digits(n) && n <= usize::MAX ==> index_arg_spec(args)
            == IndexArg::Index(n as usize),
        args.len() > 2 && !is_option_spec(args[2]@) && parse_usize_spec(args[2]@) is None ==> index_arg_spec(args)
            == IndexArg::Invalid,
        args.len() > 2 && is_option_spec(args[2]@) ==> index_arg_spec(args) == IndexArg::Missing,
{
    if args.len() > 2 && args[2]@ == crate::listing::nat_digits(n) && n <= usize::MAX {
        law_digits_parse(n);
        crate::listing::lemma_nat_digits(n);
        let d = crate::listing::nat_digits(n);
        assert(crate::text::is_digit(d[0]));
        assert(!is_option_spec(d));
    }
}

/// A wipe goes ahead on `y` or `yes` only.
pub proof fn law_yes_words()
    ensures
        yes_word("y"@),
        yes_word("yes"@),
        !yes_word("n"@),
        !yes_word("no"@),
        !yes_word(Seq::empty()),
{
    reveal_strlit("y");
    reveal_strlit("yes");
    reveal_strlit("n");
    reveal_strlit("no");
    assert("n"@[0] != "y"@[0]);
    assert("no"@.len() != "y"@.len());
    assert("no"@[1] != "yes"@[1] || "no"@.len() != "yes"@.len());
    assert("n"@.len() != "yes"@.len());
}

} // verus!
