use vstd::prelude::*;
use crate::text::str_equal;

verus! {

pub const CMD_INIT: &'static str = "init";
pub const CMD_UPDATE: &'static str = "update";
pub const CMD_SOURCE: &'static str = "source";
pub const CMD_APPENDRC: &'static str = "appendrc";
pub const CMD_FILES: &'static str = "files";
pub const CMD_CONFIG: &'static str = "config";
pub const CMD_HELP: &'static str = "help";
pub const FLAG_HELP: &'static str = "--help";
pub const FLAG_HELP_SHORT: &'static str = "-h";
pub const FLAG_VERSION: &'static str = "--version";
pub const FLAG_VERSION_SHORT: &'static str = "-V";
pub const SUB_PRINT: &'static str = "print";
pub const SUB_EVAL: &'static str = "eval";
pub const SUB_SHELL: &'static str = "shell";
pub const FLAG_FAST: &'static str = "--fast";

/// What `bfcli source <subcommand>` asks for.
#[derive(PartialEq, Eq, Structural, Debug, Clone, Copy)]
pub enum SourceCommand {
    /// Update `.bflist` and print the script.
    Print,
    /// Update `.bflist` and print the script, for `eval`.
    Eval,
    /// Print the rc line.
    Shell,
    /// No subcommand: print the help of `source`.
    Help,
    /// An unknown subcommand: report it, print the help, fail.
    Unknown,
}

/// What `bfcli appendrc <subcommand>` asks for.
#[derive(PartialEq, Eq, Structural, Debug, Clone, Copy)]
pub enum AppendRcCommand {
    /// Show which rc file would get which line.
    Shell,
    /// Append the rc line; with `fast` (`--fast`), without looking for it first.
    Eval(bool),
    /// No subcommand: print the help of `appendrc`.
    Help,
    /// An unknown subcommand: report it, print the help, fail.
    Unknown,
}

/// What a `bfcli` command line asks for.
#[derive(PartialEq, Eq, Structural, Debug, Clone, Copy)]
pub enum Command {
    Init,
    Update,
    Source(SourceCommand),
    AppendRc(AppendRcCommand),
    Files,
    Config,
    /// No command, `help`, `--help` or `-h`: print the help.
    Help,
    /// `--version` or `-V`.
    Version,
    /// An unknown command: report it and fail.
    Unknown,
}

/// The view of an optional string.
pub open spec fn opt_view(s: Option<&str>) -> Option<Seq<char>> {
    match s {
        Some(t) => Some(t@),
        None => None,
    }
}

/// The `source` subcommand named by `sub`.
pub open spec fn source_command_for(sub: Option<Seq<char>>) -> SourceCommand {
    match sub {
        None => SourceCommand::Help,
        Some(s) => if s == SUB_PRINT@ {
            SourceCommand::Print
        } else if s == SUB_EVAL@ {
            SourceCommand::Eval
        } else if s == SUB_SHELL@ {
            SourceCommand::Shell
        } else {
            SourceCommand::Unknown
        },
    }
}

/// The `appendrc` subcommand named by `sub`, with the `--fast` flag `fast`.
pub open spec fn appendrc_command_for(sub: Option<Seq<char>>, fast: bool) -> AppendRcCommand {
    match sub {
        None => AppendRcCommand::Help,
        Some(s) => if s == SUB_SHELL@ {
            AppendRcCommand::Shell
        } else if s == SUB_EVAL@ {
            AppendRcCommand::Eval(fast)
        } else {
            AppendRcCommand::Unknown
        },
    }
}

/// Decides `bfcli source <subcommand>`.
pub fn cmd_source(subcommand: Option<&str>) -> (cmd: SourceCommand)
    ensures
        cmd == source_command_for(opt_view(subcommand)),
{
    match subcommand {
        None => SourceCommand::Help,
        Some(s) => if str_equal(s, SUB_PRINT) {
            SourceCommand::Print
        } else if str_equal(s, SUB_EVAL) {
            SourceCommand::Eval
        } else if str_equal(s, SUB_SHELL) {
            SourceCommand::Shell
        } else {
            SourceCommand::Unknown
        },
    }
}

/// Decides `bfcli appendrc <subcommand> [--fast]`.
pub fn cmd_appendrc(subcommand: Option<&str>, fast: bool) -> (cmd: AppendRcCommand)
    ensures
        cmd == appendrc_command_for(opt_view(subcommand), fast),
{
    match subcommand {
        None => AppendRcCommand::Help,
        Some(s) => if str_equal(s, SUB_SHELL) {
            AppendRcCommand::Shell
        } else if str_equal(s, SUB_EVAL) {
            AppendRcCommand::Eval(fast)
        } else {
            AppendRcCommand::Unknown
        },
    }
}

/// Whether `--fast` is among the arguments after the subcommand.
pub open spec fn has_fast_flag(args: Seq<Seq<char>>) -> bool {
    exists|i: int| 3 <= i < args.len() && #[trigger] args[i] == FLAG_FAST@
}

/// The command that the arguments (program name first) ask for.
pub open spec fn command_for(args: Seq<Seq<char>>) -> Command {
    if args.len() < 2 {
        Command::Help
    } else {
        let c = args[1];
        let sub = if args.len() >= 3 {
            Some(args[2])
        } else {
            None
        };
        if c == CMD_INIT@ {
            Command::Init
        } else if c == CMD_UPDATE@ {
            Command::Update
        } else if c == CMD_SOURCE@ {
            Command::Source(source_command_for(sub))
        } else if c == CMD_APPENDRC@ {
            Command::AppendRc(appendrc_command_for(sub, has_fast_flag(args)))
        } else if c == CMD_FILES@ {
            Command::Files
        } else if c == CMD_CONFIG@ {
            Command::Config
        } else if c == CMD_HELP@ || c == FLAG_HELP@ || c == FLAG_HELP_SHORT@ {
            Command::Help
        } else if c == FLAG_VERSION@ || c == FLAG_VERSION_SHORT@ {
            Command::Version
        } else {
            Command::Unknown
        }
    }
}

/// Reads the command line (program name first).
pub fn parse_command(args: &[String]) -> (cmd: Command)
    ensures
        cmd == command_for(args.deep_view()),
{
    let ghost a = args.deep_view();
    if args.len() < 2 {
        return Command::Help;
    }
    let c = args[1].as_str();
    assert(c@ == a[1]);
    let sub: Option<&str> = if args.len() >= 3 {
        Some(args[2].as_str())
    } else {
        None
    };
    assert(opt_view(sub) == (if a.len() >= 3 {
        Some(a[2])
    } else {
        None
    }));
    let mut fast = false;
    let n = args.len();
    let mut i: usize = 3;
    while i < n
        invariant
            n == a.len(),
            3 <= i,
            a == args.deep_view(),
            fast == exists|j: int| 3 <= j < i && j < n && #[trigger] a[j] == FLAG_FAST@,
        decreases n - i,
    {
        if str_equal(args[i].as_str(), FLAG_FAST) {
            assert(a[i as int] == FLAG_FAST@);
            fast = true;
        }
        i = i + 1;
    }
    assert(fast == has_fast_flag(a));
    if str_equal(c, CMD_INIT) {
        Command::Init
    } else if str_equal(c, CMD_UPDATE) {
        Command::Update
    } else if str_equal(c, CMD_SOURCE) {
        Command::Source(cmd_source(sub))
    } else if str_equal(c, CMD_APPENDRC) {
        Command::AppendRc(cmd_appendrc(sub, fast))
    } else if str_equal(c, CMD_FILES) {
        Command::Files
    } else if str_equal(c, CMD_CONFIG) {
        Command::Config
    } else if str_equal(c, CMD_HELP) || str_equal(c, FLAG_HELP) || str_equal(c, FLAG_HELP_SHORT) {
        Command::Help
    } else if str_equal(c, FLAG_VERSION) || str_equal(c, FLAG_VERSION_SHORT) {
        Command::Version
    } else {
        Command::Unknown
    }
}

} // verus!

verus! {

/// `bfcli appendrc eval ...` asks to append the rc line, fast exactly when
/// `--fast` is among the arguments after `eval` (right after it included).
pub proof fn law_appendrc_eval_fast_flag(args: Seq<Seq<char>>)
    requires
        args.len() >= 3,
        args[1] == seq!['a', 'p', 'p', 'e', 'n', 'd', 'r', 'c'],
        args[2] == seq!['e', 'v', 'a', 'l'],
    ensures
        command_for(args) == Command::AppendRc(
            AppendRcCommand::Eval(
                exists|j: int| 3 <= j < args.len() && #[trigger] args[j] == seq!['-', '-', 'f', 'a', 's', 't'],
            ),
        ),
{
    reveal_strlit("init");
    reveal_strlit("update");
    reveal_strlit("source");
    reveal_strlit("appendrc");
    reveal_strlit("shell");
    reveal_strlit("eval");
    reveal_strlit("--fast");
    assert(CMD_INIT@.len() == 4);
    assert(CMD_UPDATE@.len() == 6);
    assert(CMD_SOURCE@.len() == 6);
    assert(CMD_APPENDRC@ =~= args[1]);
    assert(SUB_SHELL@.len() == 5);
    assert(SUB_EVAL@ =~= args[2]);
    assert(FLAG_FAST@ =~= seq!['-', '-', 'f', 'a', 's', 't']);
}

} // verus!

verus! {

proof fn lemma_command_words()
    ensures
        CMD_INIT@ == seq!['i', 'n', 'i', 't'],
        CMD_UPDATE@ == seq!['u', 'p', 'd', 'a', 't', 'e'],
        CMD_SOURCE@ == seq!['s', 'o', 'u', 'r', 'c', 'e'],
        CMD_APPENDRC@ == seq!['a', 'p', 'p', 'e', 'n', 'd', 'r', 'c'],
        CMD_FILES@ == seq!['f', 'i', 'l', 'e', 's'],
        CMD_CONFIG@ == seq!['c', 'o', 'n', 'f', 'i', 'g'],
        CMD_HELP@ == seq!['h', 'e', 'l', 'p'],
        FLAG_HELP@ == seq!['-', '-', 'h', 'e', 'l', 'p'],
        FLAG_HELP_SHORT@ == seq!['-', 'h'],
        FLAG_VERSION@ == seq!['-', '-', 'v', 'e', 'r', 's', 'i', 'o', 'n'],
        FLAG_VERSION_SHORT@ == seq!['-', 'V'],
        SUB_PRINT@ == seq!['p', 'r', 'i', 'n', 't'],
        SUB_EVAL@ == seq!['e', 'v', 'a', 'l'],
        SUB_SHELL@ == seq!['s', 'h', 'e', 'l', 'l'],
{
    reveal_strlit("init");
    reveal_strlit("update");
    reveal_strlit("source");
    reveal_strlit("appendrc");
    reveal_strlit("files");
    reveal_strlit("config");
    reveal_strlit("help");
    reveal_strlit("--help");
    reveal_strlit("-h");
    reveal_strlit("--version");
    reveal_strlit("-V");
    reveal_strlit("print");
    reveal_strlit("eval");
    reveal_strlit("shell");
    assert(CMD_INIT@ =~= seq!['i', 'n', 'i', 't']);
    assert(CMD_UPDATE@ =~= seq!['u', 'p', 'd', 'a', 't', 'e']);
    assert(CMD_SOURCE@ =~= seq!['s', 'o', 'u', 'r', 'c', 'e']);
    assert(CMD_APPENDRC@ =~= seq!['a', 'p', 'p', 'e', 'n', 'd', 'r', 'c']);
    assert(CMD_FILES@ =~= seq!['f', 'i', 'l', 'e', 's']);
    assert(CMD_CONFIG@ =~= seq!['c', 'o', 'n', 'f', 'i', 'g']);
    assert(CMD_HELP@ =~= seq!['h', 'e', 'l', 'p']);
    assert(FLAG_HELP@ =~= seq!['-', '-', 'h', 'e', 'l', 'p']);
    assert(FLAG_HELP_SHORT@ =~= seq!['-', 'h']);
    assert(FLAG_VERSION@ =~= seq!['-', '-', 'v', 'e', 'r', 's', 'i', 'o', 'n']);
    assert(FLAG_VERSION_SHORT@ =~= seq!['-', 'V']);
    assert(SUB_PRINT@ =~= seq!['p', 'r', 'i', 'n', 't']);
    assert(SUB_EVAL@ =~= seq!['e', 'v', 'a', 'l']);
    assert(SUB_SHELL@ =~= seq!['s', 'h', 'e', 'l', 'l']);
}

/// Each command word selects its command; `bfcli` alone, `help`, `--help`
/// and `-h` select the help, and `--version` and `-V` the version.
pub proof fn law_command_words(args: Seq<Seq<char>>)
    ensures
        args.len() < 2 ==> command_for(args) == Command::Help,
        args.len() >= 2 ==> {
            let c = args[1];
            &&& c == seq!['i', 'n', 'i', 't'] ==> command_for(args) == Command::Init
            &&& c == seq!['u', 'p', 'd', 'a', 't', 'e'] ==> command_for(args) == Command::Update
            &&& c == seq!['s', 'o', 'u', 'r', 'c', 'e'] ==> command_for(args) is Source
            &&& c == seq!['a', 'p', 'p', 'e', 'n', 'd', 'r', 'c'] ==> command_for(args) is AppendRc
            &&& c == seq!['f', 'i', 'l', 'e', 's'] ==> command_for(args) == Command::Files
            &&& c == seq!['c', 'o', 'n', 'f', 'i', 'g'] ==> command_for(args) == Command::Config
            &&& (c == seq!['h', 'e', 'l', 'p'] || c == seq!['-', '-', 'h', 'e', 'l', 'p'] || c == seq![
                '-',
                'h',
            ]) ==> command_for(args) == Command::Help
            &&& (c == seq!['-', '-', 'v', 'e', 'r', 's', 'i', 'o', 'n'] || c == seq!['-', 'V'])
                ==> command_for(args) == Command::Version
        },
{
    lemma_command_words();
    if args.len() >= 2 {
        let c = args[1];
        if c == seq!['-', 'h'] {
            assert(c.len() == 2);
        }
        if c == seq!['-', 'V'] {
            assert(c[1] == 'V');
            assert(FLAG_HELP_SHORT@[1] == 'h');
        }
        if c == seq!['f', 'i', 'l', 'e', 's'] {
            assert(c[0] == 'f');
        }
        if c == seq!['c', 'o', 'n', 'f', 'i', 'g'] {
            assert(c[0] == 'c');
        }
        if c == seq!['h', 'e', 'l', 'p'] {
            assert(c[0] == 'h');
        }
        if c == seq!['u', 'p', 'd', 'a', 't', 'e'] {
            assert(c[0] == 'u');
        }
        if c == seq!['s', 'o', 'u', 'r', 'c', 'e'] {
            assert(c[0] == 's');
        }
        if c == seq!['-', '-', 'h', 'e', 'l', 'p'] {
            assert(c[0] == '-');
        }
        if c == seq!['-', '-', 'v', 'e', 'r', 's', 'i', 'o', 'n'] {
            assert(c[2] == 'v');
        }
    }
}

/// `bfcli source` selects its subcommand by the next word: `print`, `eval`
/// or `shell`; none gives the help, any other word is unknown.
pub proof fn law_source_subcommands(sub: Seq<char>)
    ensures
        source_command_for(None) == SourceCommand::Help,
        sub == seq!['p', 'r', 'i', 'n', 't'] ==> source_command_for(Some(sub)) == SourceCommand::Print,
        sub == seq!['e', 'v', 'a', 'l'] ==> source_command_for(Some(sub)) == SourceCommand::Eval,
        sub == seq!['s', 'h', 'e', 'l', 'l'] ==> source_command_for(Some(sub)) == SourceCommand::Shell,
        sub != seq!['p', 'r', 'i', 'n', 't'] && sub != seq!['e', 'v', 'a', 'l'] && sub != seq![
            's',
            'h',
            'e',
            'l',
            'l',
        ] ==> source_command_for(Some(sub)) == SourceCommand::Unknown,
        sub == seq!['s', 'h', 'e', 'l', 'l'] ==> appendrc_command_for(Some(sub), true)
            == AppendRcCommand::Shell,
        appendrc_command_for(None, true) == AppendRcCommand::Help,
        sub != seq!['e', 'v', 'a', 'l'] && sub != seq!['s', 'h', 'e', 'l', 'l']
            ==> appendrc_command_for(Some(sub), true) == AppendRcCommand::Unknown,
{
    lemma_command_words();
    if sub == seq!['p', 'r', 'i', 'n', 't'] {
        assert(sub[0] == 'p');
    }
    if sub == seq!['s', 'h', 'e', 'l', 'l'] {
        assert(sub[0] == 's');
    }
}

} // verus!
