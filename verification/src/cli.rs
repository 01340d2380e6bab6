//! The command line: which command to run, on which files, with which flags.

use vstd::prelude::*;

use crate::text::{self, copy_list, copy_of, same_text, starts_with, strip_prefix};

verus! {

/// Parsed command line.
#[derive(Debug)]
pub struct Cli {
    /// Override config path.
    pub config: Option<String>,
    /// Parsed command.
    pub command: CliCommand,
}

/// What the command line asks for.
#[derive(Debug)]
pub enum CliCommand {
    /// Format files.
    Fmt { stdin: Option<String>, files: Vec<String>, flags: Vec<String> },
    /// Check if files are formatted.
    Check { files: Vec<String>, flags: Vec<String> },
    /// Show resolved config for a file.
    Config { file: Option<String> },
    /// List files that would be formatted.
    OutputFilePaths,
    /// Start LSP server.
    Lsp,
    /// Generate shell completions (patched with dprintx extras).
    Completions { shell: String },
    /// Passthrough to real dprint (unknown command or --help etc).
    Passthrough { args: Vec<String> },
}

/// A command as the text it is made of.
pub enum Command {
    Fmt { stdin: Option<Seq<char>>, files: Seq<Seq<char>>, flags: Seq<Seq<char>> },
    Check { files: Seq<Seq<char>>, flags: Seq<Seq<char>> },
    Config { file: Option<Seq<char>> },
    OutputFilePaths,
    Lsp,
    Completions { shell: Seq<char> },
    Passthrough { args: Seq<Seq<char>> },
}

impl View for CliCommand {
    type V = Command;

    open spec fn view(&self) -> Command {
        match *self {
            CliCommand::Fmt { stdin, files, flags } => Command::Fmt {
                stdin: text::text_option(stdin),
                files: text::texts(files@),
                flags: text::texts(flags@),
            },
            CliCommand::Check { files, flags } => Command::Check {
                files: text::texts(files@),
                flags: text::texts(flags@),
            },
            CliCommand::Config { file } => Command::Config { file: text::text_option(file) },
            CliCommand::OutputFilePaths => Command::OutputFilePaths,
            CliCommand::Lsp => Command::Lsp,
            CliCommand::Completions { shell } => Command::Completions { shell: shell@ },
            CliCommand::Passthrough { args } => Command::Passthrough { args: text::texts(args@) },
        }
    }
}

/// Whether an argument is a flag rather than a path: it starts with a dash and
/// is more than that dash.
pub open spec fn flag(arg: Seq<char>) -> bool {
    "-"@.is_prefix_of(arg) && arg != "-"@
}

/// The config path that the arguments name. The last one named wins.
pub open spec fn config_named(args: Seq<Seq<char>>) -> Option<Seq<char>>
    decreases args.len(),
{
    if args.len() == 0 {
        None
    } else if args[0] == "--config"@ && args.len() > 1 {
        match config_named(args.skip(2)) {
            Some(later) => Some(later),
            None => Some(args[1]),
        }
    } else if args[0] != "--config"@ && text::after_prefix(args[0], "--config="@) is Some {
        match config_named(args.skip(1)) {
            Some(later) => Some(later),
            None => text::after_prefix(args[0], "--config="@),
        }
    } else {
        config_named(args.skip(1))
    }
}

/// The arguments that are left when those naming a config path are taken out.
pub open spec fn without_config(args: Seq<Seq<char>>) -> Seq<Seq<char>>
    decreases args.len(),
{
    if args.len() == 0 {
        Seq::empty()
    } else if args[0] == "--config"@ && args.len() > 1 {
        without_config(args.skip(2))
    } else if args[0] != "--config"@ && text::after_prefix(args[0], "--config="@) is Some {
        without_config(args.skip(1))
    } else {
        seq![args[0]] + without_config(args.skip(1))
    }
}

/// What the arguments of `fmt` and `check` come to.
pub struct Scan {
    /// Help was asked for; what stands behind does not matter then.
    pub help: bool,
    /// The value of the last `--stdin`.
    pub stdin: Option<Seq<char>>,
    pub files: Seq<Seq<char>>,
    pub flags: Seq<Seq<char>>,
}

/// Reads arguments in order. Behind `--`, when `positional` holds, each of them
/// is a file. `--stdin` takes the next argument as its value where
/// `takes_stdin` holds; as the last argument it counts for nothing.
pub open spec fn scan(args: Seq<Seq<char>>, positional: bool, takes_stdin: bool) -> Scan
    decreases args.len(),
{
    if args.len() == 0 {
        Scan { help: false, stdin: None, files: Seq::empty(), flags: Seq::empty() }
    } else if positional {
        let rest = scan(args.skip(1), true, takes_stdin);
        Scan { files: seq![args[0]] + rest.files, ..rest }
    } else if takes_stdin && args[0] == "--stdin"@ {
        if args.len() > 1 {
            let rest = scan(args.skip(2), false, takes_stdin);
            Scan {
                stdin: if rest.stdin is Some {
                    rest.stdin
                } else {
                    Some(args[1])
                },
                ..rest
            }
        } else {
            scan(args.skip(1), false, takes_stdin)
        }
    } else if args[0] == "-h"@ || args[0] == "--help"@ {
        Scan { help: true, stdin: None, files: Seq::empty(), flags: Seq::empty() }
    } else if args[0] == "--"@ {
        scan(args.skip(1), true, takes_stdin)
    } else if flag(args[0]) {
        let rest = scan(args.skip(1), false, takes_stdin);
        Scan { flags: seq![args[0]] + rest.flags, ..rest }
    } else {
        let rest = scan(args.skip(1), false, takes_stdin);
        Scan { files: seq![args[0]] + rest.files, ..rest }
    }
}

/// The command that the arguments of `fmt` ask for.
pub open spec fn fmt_command(args: Seq<Seq<char>>) -> Command {
    let s = scan(args, false, true);
    if s.help {
        Command::Passthrough { args: seq!["fmt"@] + args }
    } else {
        Command::Fmt { stdin: s.stdin, files: s.files, flags: s.flags }
    }
}

/// The command that the arguments of `check` ask for.
pub open spec fn check_command(args: Seq<Seq<char>>) -> Command {
    let s = scan(args, false, false);
    if s.help {
        Command::Passthrough { args: seq!["check"@] + args }
    } else {
        Command::Check { files: s.files, flags: s.flags }
    }
}

/// The command that a command line without its config path asks for. What is
/// not one of ours goes to dprint as it is.
pub open spec fn command_of(args: Seq<Seq<char>>) -> Command {
    let rest = args.skip(1);
    if args.len() == 0 {
        Command::Passthrough { args }
    } else if args[0] == "fmt"@ {
        fmt_command(rest)
    } else if args[0] == "check"@ {
        check_command(rest)
    } else if args[0] == "config"@ {
        Command::Config {
            file: if rest.len() > 0 {
                Some(rest[0])
            } else {
                None
            },
        }
    } else if args[0] == "output-file-paths"@ {
        Command::OutputFilePaths
    } else if args[0] == "lsp"@ {
        Command::Lsp
    } else if args[0] == "completions"@ {
        Command::Completions {
            shell: if rest.len() > 0 {
                rest[0]
            } else {
                "zsh"@
            },
        }
    } else {
        Command::Passthrough { args }
    }
}

/// The arguments behind the first.
fn tail_of(args: &Vec<String>) -> (rest: Vec<String>)
    requires
        args@.len() > 0,
    ensures
        rest@ == args@.skip(1),
{
    let mut rest: Vec<String> = Vec::new();
    let mut i: usize = 1;
    while i < args.len()
        invariant
            1 <= i <= args@.len(),
            rest@ == args@.subrange(1, i as int),
        decreases args@.len() - i,
    {
        rest.push(args[i].clone());
        assert(args@.subrange(1, i as int).push(args@[i as int]) =~= args@.subrange(1, i + 1));
        i += 1;
    }
    assert(args@.subrange(1, i as int) =~= args@.skip(1));
    rest
}

/// `word` followed by `args`.
fn with_word(word: &str, args: &[String]) -> (out: Vec<String>)
    ensures
        text::texts(out@) == seq![word@] + text::texts(args@),
{
    let mut out: Vec<String> = Vec::new();
    out.push(copy_of(word));
    let mut more = copy_list(args);
    out.append(&mut more);
    assert(text::texts(out@) =~= seq![word@] + text::texts(args@));
    out
}

/// What [`scan`] says, as texts.
struct Scanned {
    help: bool,
    stdin: Option<String>,
    files: Vec<String>,
    flags: Vec<String>,
}

fn scan_args(args: &[String], takes_stdin: bool) -> (out: Scanned)
    ensures
        out.help == scan(text::texts(args@), false, takes_stdin).help,
        !out.help ==> {
            &&& text::text_option(out.stdin) == scan(text::texts(args@), false, takes_stdin).stdin
            &&& text::texts(out.files@) == scan(text::texts(args@), false, takes_stdin).files
            &&& text::texts(out.flags@) == scan(text::texts(args@), false, takes_stdin).flags
        },
{
    let mut stdin: Option<String> = None;
    let mut files: Vec<String> = Vec::new();
    let mut flags: Vec<String> = Vec::new();
    let mut positional_only = false;
    let ghost all = text::texts(args@);
    let ghost total = scan(all, false, takes_stdin);
    assert(all.skip(0) =~= all);
    assert(text::texts(files@) =~= Seq::empty());
    assert(text::texts(flags@) =~= Seq::empty());
    assert(text::texts(files@) + total.files =~= total.files);
    assert(text::texts(flags@) + total.flags =~= total.flags);
    let mut i: usize = 0;
    while i < args.len()
        invariant
            i <= args@.len(),
            all == text::texts(args@),
            total == scan(all, false, takes_stdin),
            ({
                let rest = scan(all.skip(i as int), positional_only, takes_stdin);
                &&& total.help == rest.help
                &&& !total.help ==> {
                    &&& total.stdin == (if rest.stdin is Some {
                        rest.stdin
                    } else {
                        text::text_option(stdin)
                    })
                    &&& total.files == text::texts(files@) + rest.files
                    &&& total.flags == text::texts(flags@) + rest.flags
                }
            }),
        decreases args@.len() - i,
    {
        let arg = args[i].as_str();
        let ghost here = all.skip(i as int);
        let ghost files_before = text::texts(files@);
        let ghost flags_before = text::texts(flags@);
        assert(here[0] == arg@);
        assert(here.skip(1) =~= all.skip(i + 1));
        assert(i + 1 < args@.len() ==> here.skip(2) =~= all.skip(i + 2));
        if !positional_only && takes_stdin && same_text(arg, "--stdin") {
            if i + 1 < args.len() {
                stdin = Some(args[i + 1].clone());
                assert(here[1] == args@[i + 1]@);
                i += 2;
                continue ;
            }
        } else if !positional_only && (same_text(arg, "-h") || same_text(arg, "--help")) {
            return Scanned { help: true, stdin: None, files: Vec::new(), flags: Vec::new() };
        } else if !positional_only && same_text(arg, "--") {
            positional_only = true;
        } else if !positional_only && is_flag(arg) {
            let ghost later = scan(all.skip(i + 1), false, takes_stdin).flags;
            flags.push(copy_of(arg));
            assert(text::texts(flags@) =~= flags_before.push(arg@));
            assert(flags_before + (seq![arg@] + later) =~= text::texts(flags@) + later);
        } else {
            let ghost later = scan(all.skip(i + 1), positional_only, takes_stdin).files;
            files.push(copy_of(arg));
            assert(text::texts(files@) =~= files_before.push(arg@));
            assert(files_before + (seq![arg@] + later) =~= text::texts(files@) + later);
        }
        i += 1;
    }
    assert(all.skip(i as int).len() == 0);
    assert(text::texts(files@) + Seq::<Seq<char>>::empty() =~= text::texts(files@));
    assert(text::texts(flags@) + Seq::<Seq<char>>::empty() =~= text::texts(flags@));
    Scanned { help: false, stdin, files, flags }
}

impl Cli {
    /// Parses the arguments behind the program's name.
    ///
    /// `--config <path>` and `--config=<path>` are taken from anywhere among
    /// them. Known commands are parsed here; everything else is passthrough.
    pub fn parse_from(args: &[String]) -> (cli: Self)
        ensures
            text::text_option(cli.config) == config_named(text::texts(args@)),
            cli.command@ == command_of(without_config(text::texts(args@))),
    {
        let mut config: Option<String> = None;
        let mut rest: Vec<String> = Vec::new();
        let ghost all = text::texts(args@);
        assert(all.skip(0) =~= all);
        assert(text::texts(rest@) =~= Seq::empty());
        assert(text::texts(rest@) + without_config(all) =~= without_config(all));
        let mut i: usize = 0;
        while i < args.len()
            invariant
                i <= args@.len(),
                all == text::texts(args@),
                config_named(all) == (match config_named(all.skip(i as int)) {
                    Some(later) => Some(later),
                    None => text::text_option(config),
                }),
                without_config(all) == text::texts(rest@) + without_config(all.skip(i as int)),
            decreases args@.len() - i,
        {
            let arg = args[i].as_str();
            let ghost here = all.skip(i as int);
            let ghost before = text::texts(rest@);
            assert(here[0] == arg@);
            assert(here.skip(1) =~= all.skip(i + 1));
            assert(i + 1 < args@.len() ==> here.skip(2) =~= all.skip(i + 2));
            if same_text(arg, "--config") {
                if i + 1 < args.len() {
                    config = Some(args[i + 1].clone());
                    assert(here[1] == args@[i + 1]@);
                    i += 2;
                    continue ;
                }
            } else if let Some(value) = strip_prefix(arg, "--config=") {
                config = Some(value);
                i += 1;
                continue ;
            }
            rest.push(copy_of(arg));
            assert(text::texts(rest@) =~= before.push(arg@));
            assert(before + (seq![arg@] + without_config(here.skip(1))) =~= text::texts(rest@)
                + without_config(here.skip(1)));
            i += 1;
        }
        assert(all.skip(i as int).len() == 0);
        assert(text::texts(rest@) + Seq::<Seq<char>>::empty() =~= text::texts(rest@));

        if rest.len() == 0 {
            return Cli { config, command: CliCommand::Passthrough { args: rest } };
        }
        let sub_args = tail_of(&rest);
        assert(text::texts(sub_args@) =~= text::texts(rest@).skip(1));
        let word = rest[0].as_str();
        let command = if same_text(word, "fmt") {
            Self::parse_fmt(sub_args.as_slice())
        } else if same_text(word, "check") {
            Self::parse_check(sub_args.as_slice())
        } else if same_text(word, "config") {
            CliCommand::Config {
                file: if sub_args.len() > 0 {
                    Some(sub_args[0].clone())
                } else {
                    None
                },
            }
        } else if same_text(word, "output-file-paths") {
            CliCommand::OutputFilePaths
        } else if same_text(word, "lsp") {
            CliCommand::Lsp
        } else if same_text(word, "completions") {
            CliCommand::Completions {
                shell: if sub_args.len() > 0 {
                    sub_args[0].clone()
                } else {
                    copy_of("zsh")
                },
            }
        } else {
            CliCommand::Passthrough { args: rest }
        };
        Cli { config, command }
    }

    /// Parses the arguments of `fmt`.
    pub fn parse_fmt(args: &[String]) -> (command: CliCommand)
        ensures
            command@ == fmt_command(text::texts(args@)),
    {
        let found = scan_args(args, true);
        if found.help {
            CliCommand::Passthrough { args: with_word("fmt", args) }
        } else {
            CliCommand::Fmt { stdin: found.stdin, files: found.files, flags: found.flags }
        }
    }

    /// Parses the arguments of `check`.
    pub fn parse_check(args: &[String]) -> (command: CliCommand)
        ensures
            command@ == check_command(text::texts(args@)),
    {
        let found = scan_args(args, false);
        if found.help {
            CliCommand::Passthrough { args: with_word("check", args) }
        } else {
            CliCommand::Check { files: found.files, flags: found.flags }
        }
    }
}

/// Whether an argument is a flag rather than a path.
///
/// A bare `-` is a path by convention (stdin), and dprint has no single-dash
/// flag that takes a separate value, so every other leading dash is dprint's
/// to interpret.
pub fn is_flag(arg: &str) -> (yes: bool)
    ensures
        yes == flag(arg@),
{
    starts_with(arg, "-") && !same_text(arg, "-")
}

/// Whether the arguments end in a `--config` that still waits for its path.
pub open spec fn config_waits(args: Seq<Seq<char>>) -> bool
    decreases args.len(),
{
    if args.len() == 0 {
        false
    } else if args[0] == "--config"@ {
        args.len() == 1 || config_waits(args.skip(2))
    } else {
        config_waits(args.skip(1))
    }
}

proof fn config_splits(before: Seq<Seq<char>>, after: Seq<Seq<char>>)
    requires
        !config_waits(before),
    ensures
        without_config(before + after) == without_config(before) + without_config(after),
        config_named(before + after) == (match config_named(after) {
            Some(later) => Some(later),
            None => config_named(before),
        }),
    decreases before.len(),
{
    let all = before + after;
    if before.len() == 0 {
        assert(all =~= after);
        assert(without_config(before) + without_config(after) =~= without_config(after));
    } else if before[0] == "--config"@ {
        assert(all.skip(2) =~= before.skip(2) + after);
        config_splits(before.skip(2), after);
    } else {
        assert(all.skip(1) =~= before.skip(1) + after);
        config_splits(before.skip(1), after);
        let head = seq![before[0]];
        assert(head + (without_config(before.skip(1)) + without_config(after)) =~= (head
            + without_config(before.skip(1))) + without_config(after));
    }
}

/// `--config <path>` is found anywhere among the arguments: it is taken out, the
/// rest stays in order, and it names the config unless a later one does.
pub proof fn law_config_is_found_anywhere(
    before: Seq<Seq<char>>,
    path: Seq<char>,
    after: Seq<Seq<char>>,
)
    requires
        !config_waits(before),
    ensures
        without_config(before + seq!["--config"@, path] + after) == without_config(before)
            + without_config(after),
        config_named(before + seq!["--config"@, path] + after) == (match config_named(after) {
            Some(later) => Some(later),
            None => Some(path),
        }),
{
    let pair = seq!["--config"@, path];
    assert(before + pair + after =~= before + (pair + after));
    config_splits(before, pair + after);
    assert((pair + after).skip(2) =~= after);
}

/// `--config=<path>` says the same as `--config <path>`.
pub proof fn law_config_equals_form(
    before: Seq<Seq<char>>,
    path: Seq<char>,
    after: Seq<Seq<char>>,
)
    requires
        !config_waits(before),
    ensures
        without_config(before + seq!["--config="@ + path] + after) == without_config(
            before + seq!["--config"@, path] + after,
        ),
        config_named(before + seq!["--config="@ + path] + after) == config_named(
            before + seq!["--config"@, path] + after,
        ),
{
    reveal_strlit("--config");
    reveal_strlit("--config=");
    let one = seq!["--config="@ + path];
    let arg = one[0];
    law_config_is_found_anywhere(before, path, after);
    assert(before + one + after =~= before + (one + after));
    config_splits(before, one + after);
    assert((one + after).skip(1) =~= after);
    assert(arg.subrange(0, "--config="@.len() as int) =~= "--config="@);
    assert(arg.skip("--config="@.len() as int) =~= path);
    assert(arg.len() != "--config"@.len());
}

/// Only flags are counted as flags, and without `--` no flag is counted as a
/// file.
pub proof fn law_no_flag_is_a_file(args: Seq<Seq<char>>, takes_stdin: bool)
    ensures
        forall|i: int|
            0 <= i < scan(args, false, takes_stdin).flags.len() ==> flag(
                #[trigger] scan(args, false, takes_stdin).flags[i],
            ),
        !args.contains("--"@) ==> forall|i: int|
            0 <= i < scan(args, false, takes_stdin).files.len() ==> !flag(
                #[trigger] scan(args, false, takes_stdin).files[i],
            ),
    decreases args.len(),
{
    if args.len() > 0 {
        positional_has_no_flags(args.skip(1), takes_stdin);
        law_no_flag_is_a_file(args.skip(1), takes_stdin);
        if args.len() > 1 {
            law_no_flag_is_a_file(args.skip(2), takes_stdin);
            assert(forall|i: int| 0 <= i < args.skip(2).len() ==> args.skip(2)[i] == args[i + 2]);
        }
        assert(forall|i: int| 0 <= i < args.skip(1).len() ==> args.skip(1)[i] == args[i + 1]);
        assert(args.contains(args[0]));
    }
}

proof fn positional_has_no_flags(args: Seq<Seq<char>>, takes_stdin: bool)
    ensures
        scan(args, true, takes_stdin) == (Scan {
            help: false,
            stdin: None,
            files: args,
            flags: Seq::empty(),
        }),
    decreases args.len(),
{
    if args.len() > 0 {
        positional_has_no_flags(args.skip(1), takes_stdin);
        assert(seq![args[0]] + args.skip(1) =~= args);
    } else {
        assert(args =~= Seq::empty());
    }
}

/// Whether an argument stands for itself: it neither asks for help, nor takes
/// the next argument, nor ends the flags.
pub open spec fn ordinary(arg: Seq<char>) -> bool {
    arg != "--stdin"@ && arg != "-h"@ && arg != "--help"@ && arg != "--"@
}

/// Ordinary arguments are each counted once, in order: the flags among them as
/// flags, the others as files.
pub proof fn law_arguments_are_sorted(args: Seq<Seq<char>>, takes_stdin: bool)
    requires
        forall|i: int| 0 <= i < args.len() ==> ordinary(#[trigger] args[i]),
    ensures
        scan(args, false, takes_stdin) == (Scan {
            help: false,
            stdin: None,
            files: args.filter(|a: Seq<char>| !flag(a)),
            flags: args.filter(|a: Seq<char>| flag(a)),
        }),
    decreases args.len(),
{
    let none = Seq::<Seq<char>>::empty();
    let is_file = |a: Seq<char>| !flag(a);
    let is_flag = |a: Seq<char>| flag(a);
    reveal(Seq::filter);
    if args.len() == 0 {
        assert(args.filter(is_file) =~= none);
        assert(args.filter(is_flag) =~= none);
    } else {
        let rest = args.skip(1);
        assert(forall|i: int| 0 <= i < rest.len() ==> rest[i] == args[i + 1]);
        law_arguments_are_sorted(rest, takes_stdin);
        let head = seq![args[0]];
        assert(args =~= head + rest);
        Seq::filter_distributes_over_add(head, rest, is_file);
        Seq::filter_distributes_over_add(head, rest, is_flag);
        assert(head.drop_last() =~= none);
        assert(none.filter(is_file) =~= none);
        assert(none.filter(is_flag) =~= none);
        assert(none.push(args[0]) =~= head);
        assert(ordinary(args[0]));
        assert(none + rest.filter(is_file) =~= rest.filter(is_file));
        assert(none + rest.filter(is_flag) =~= rest.filter(is_flag));
    }
}

/// Behind `--` everything is a file, whatever it looks like.
pub proof fn law_double_dash_forces_files(
    before: Seq<Seq<char>>,
    after: Seq<Seq<char>>,
    takes_stdin: bool,
)
    requires
        forall|i: int| 0 <= i < before.len() ==> ordinary(#[trigger] before[i]),
    ensures
        scan(before + seq!["--"@] + after, false, takes_stdin) == (Scan {
            help: false,
            stdin: None,
            files: scan(before, false, takes_stdin).files + after,
            flags: scan(before, false, takes_stdin).flags,
        }),
{
    words_differ();
    let rest = seq!["--"@] + after;
    let all = before + seq!["--"@] + after;
    assert(all =~= before + rest);
    assert(rest[0] == "--"@);
    assert(rest.skip(1) =~= after);
    positional_has_no_flags(after, takes_stdin);
    let later = scan(rest, false, takes_stdin);
    assert(later == scan(after, true, takes_stdin));
    ordinary_arguments_stand_first(before, rest, takes_stdin);
    let whole = scan(all, false, takes_stdin);
    let own = scan(before, false, takes_stdin);
    assert(whole.files == own.files + after);
    assert(whole.flags =~= own.flags);
}

/// Whether a word names a command of ours.
pub open spec fn known(word: Seq<char>) -> bool {
    word == "fmt"@ || word == "check"@ || word == "config"@ || word == "output-file-paths"@ || word
        == "lsp"@ || word == "completions"@
}

/// A command line that does not start with a command of ours goes to dprint as
/// it is, but for the config path.
pub proof fn law_unknown_commands_pass_through(args: Seq<Seq<char>>)
    requires
        without_config(args).len() > 0 ==> !known(without_config(args)[0]),
    ensures
        command_of(without_config(args)) == (Command::Passthrough { args: without_config(args) }),
{
}

/// Asking for help on a command of ours hands the whole command to dprint.
pub proof fn law_help_goes_to_dprint(args: Seq<Seq<char>>)
    ensures
        scan(args, false, true).help ==> command_of(seq!["fmt"@] + args) == (Command::Passthrough {
            args: seq!["fmt"@] + args,
        }),
        scan(args, false, false).help ==> command_of(seq!["check"@] + args) == (
        Command::Passthrough { args: seq!["check"@] + args }),
{
    reveal_strlit("fmt");
    reveal_strlit("check");
    assert("fmt"@.len() == 3 && "check"@.len() == 5);
    assert((seq!["fmt"@] + args).skip(1) =~= args);
    assert((seq!["check"@] + args).skip(1) =~= args);
}

/// An argument is a flag where it starts with a dash and something follows that
/// dash.
pub proof fn law_flags_start_with_a_dash(arg: Seq<char>)
    ensures
        flag(arg) <==> arg.len() >= 2 && arg[0] == '-',
{
    reveal_strlit("-");
    let dash = "-"@;
    assert(dash =~= seq!['-']);
    if dash.is_prefix_of(arg) {
        assert(dash[0] == arg.subrange(0, 1)[0]);
        if arg.len() == 1 {
            assert(arg =~= dash);
        }
    }
    if arg.len() >= 2 && arg[0] == '-' {
        assert(dash =~= arg.subrange(0, 1));
    }
}

/// Ordinary arguments leave what stands behind them as it is, and come before
/// it.
proof fn ordinary_arguments_stand_first(
    before: Seq<Seq<char>>,
    rest: Seq<Seq<char>>,
    takes_stdin: bool,
)
    requires
        forall|i: int| 0 <= i < before.len() ==> ordinary(#[trigger] before[i]),
    ensures
        ({
            let all = scan(before + rest, false, takes_stdin);
            let own = scan(before, false, takes_stdin);
            let later = scan(rest, false, takes_stdin);
            &&& all.help == later.help
            &&& all.stdin == later.stdin
            &&& !later.help ==> all.files == own.files + later.files
            &&& !later.help ==> all.flags == own.flags + later.flags
        }),
    decreases before.len(),
{
    let whole = before + rest;
    let all = scan(whole, false, takes_stdin);
    let own = scan(before, false, takes_stdin);
    let later = scan(rest, false, takes_stdin);
    if before.len() == 0 {
        assert(whole =~= rest);
        assert(own.files + later.files =~= later.files);
        assert(own.flags + later.flags =~= later.flags);
    } else {
        assert(ordinary(before[0]));
        let tail = before.skip(1);
        assert(forall|i: int| 0 <= i < tail.len() ==> tail[i] == before[i + 1]);
        assert(whole.skip(1) =~= tail + rest);
        assert(whole[0] == before[0]);
        ordinary_arguments_stand_first(tail, rest, takes_stdin);
        let head = seq![before[0]];
        let middle = scan(tail, false, takes_stdin);
        assert(head + (middle.files + later.files) =~= (head + middle.files) + later.files);
        assert(head + (middle.flags + later.flags) =~= (head + middle.flags) + later.flags);
    }
}

proof fn words_differ()
    ensures
        "--stdin"@ != "-h"@ && "--stdin"@ != "--help"@ && "--stdin"@ != "--"@,
        "-h"@ != "--"@ && "--help"@ != "--"@,
        flag("--stdin"@),
        "fmt"@ != "check"@,
{
    reveal_strlit("--stdin");
    reveal_strlit("-h");
    reveal_strlit("--help");
    reveal_strlit("--");
    reveal_strlit("fmt");
    reveal_strlit("check");
    assert("--stdin"@.len() == 7 && "-h"@.len() == 2 && "--help"@.len() == 6 && "--"@.len() == 2);
    assert("--"@[1] != "-h"@[1]);
    assert("fmt"@.len() == 3 && "check"@.len() == 5);
    law_flags_start_with_a_dash("--stdin"@);
}

/// `fmt` formats standard input under the name that follows `--stdin`, whatever
/// that name looks like. The pair is no file and no flag: the other arguments
/// count as they would without it.
pub proof fn law_stdin_takes_the_next_argument(
    before: Seq<Seq<char>>,
    name: Seq<char>,
    after: Seq<Seq<char>>,
)
    requires
        forall|i: int| 0 <= i < before.len() ==> ordinary(#[trigger] before[i]),
        forall|i: int| 0 <= i < after.len() ==> ordinary(#[trigger] after[i]),
    ensures
        fmt_command(before + seq!["--stdin"@, name] + after) == (Command::Fmt {
            stdin: Some(name),
            files: (before + after).filter(|arg: Seq<char>| !flag(arg)),
            flags: (before + after).filter(|arg: Seq<char>| flag(arg)),
        }),
        command_of(seq!["fmt"@] + (before + seq!["--stdin"@, name] + after)) == fmt_command(
            before + seq!["--stdin"@, name] + after,
        ),
{
    words_differ();
    let pair = seq!["--stdin"@, name];
    let args = before + pair + after;
    let rest = pair + after;
    assert(args =~= before + rest);
    assert(rest.skip(2) =~= after);
    assert(rest[0] == "--stdin"@ && rest[1] == name);
    law_arguments_are_sorted(after, true);
    ordinary_arguments_stand_first(before, rest, true);
    ordinary_arguments_stand_first(before, after, true);
    let others = before + after;
    assert forall|i: int| 0 <= i < others.len() implies ordinary(#[trigger] others[i]) by {
        if i < before.len() {
            assert(others[i] == before[i]);
        } else {
            assert(others[i] == after[i - before.len()]);
        }
    }
    law_arguments_are_sorted(others, true);
    assert((seq!["fmt"@] + args).skip(1) =~= args);
}

/// Where `--stdin` is given more than once, the last name counts.
pub proof fn law_last_stdin_wins(
    before: Seq<Seq<char>>,
    first: Seq<char>,
    between: Seq<Seq<char>>,
    last: Seq<char>,
    after: Seq<Seq<char>>,
)
    requires
        forall|i: int| 0 <= i < before.len() ==> ordinary(#[trigger] before[i]),
        forall|i: int| 0 <= i < between.len() ==> ordinary(#[trigger] between[i]),
        forall|i: int| 0 <= i < after.len() ==> ordinary(#[trigger] after[i]),
    ensures
        fmt_command(before + seq!["--stdin"@, first] + between + seq!["--stdin"@, last] + after)
            == (Command::Fmt {
            stdin: Some(last),
            files: (before + between + after).filter(|arg: Seq<char>| !flag(arg)),
            flags: (before + between + after).filter(|arg: Seq<char>| flag(arg)),
        }),
{
    words_differ();
    let one = seq!["--stdin"@, first];
    let two = seq!["--stdin"@, last];
    let tail = two + after;
    let rest = one + (between + tail);
    assert(before + one + between + two + after =~= before + rest);
    assert(rest.skip(2) =~= between + tail);
    assert(rest[0] == "--stdin"@ && rest[1] == first);
    assert(tail.skip(2) =~= after);
    assert(tail[0] == "--stdin"@ && tail[1] == last);
    law_arguments_are_sorted(after, true);
    ordinary_arguments_stand_first(between, tail, true);
    ordinary_arguments_stand_first(before, rest, true);
    let others = before + between + after;
    assert forall|i: int| 0 <= i < others.len() implies ordinary(#[trigger] others[i]) by {
        if i < before.len() {
            assert(others[i] == before[i]);
        } else if i < before.len() + between.len() {
            assert(others[i] == between[i - before.len()]);
        } else {
            assert(others[i] == after[i - before.len() - between.len()]);
        }
    }
    law_arguments_are_sorted(others, true);
    assert(others =~= before + (between + after));
    ordinary_arguments_stand_first(before, between + after, true);
    ordinary_arguments_stand_first(between, after, true);
}

/// A `--stdin` that nothing follows counts for nothing.
pub proof fn law_stdin_without_a_name_is_dropped(args: Seq<Seq<char>>)
    requires
        forall|i: int| 0 <= i < args.len() ==> ordinary(#[trigger] args[i]),
    ensures
        fmt_command(args.push("--stdin"@)) == fmt_command(args),
        fmt_command(args) is Fmt,
        fmt_command(args)->Fmt_stdin is None,
{
    words_differ();
    let last = seq!["--stdin"@];
    assert(args.push("--stdin"@) =~= args + last);
    assert(last.skip(1) =~= Seq::empty());
    ordinary_arguments_stand_first(args, last, true);
    law_arguments_are_sorted(args, true);
    let own = scan(args, false, true);
    let none = Seq::<Seq<char>>::empty();
    assert(scan(last, false, true) == scan(none, false, true));
    assert(own.files + none =~= own.files);
    assert(own.flags + none =~= own.flags);
}

/// `fmt` and `check` sort their arguments: the flags among them are flags, the
/// others files, each once and in order. To `check`, `--stdin` is a flag like
/// others.
pub proof fn law_commands_sort_their_arguments(args: Seq<Seq<char>>)
    ensures
        (forall|i: int| 0 <= i < args.len() ==> ordinary(#[trigger] args[i])) ==> command_of(
            seq!["fmt"@] + args,
        ) == (Command::Fmt {
            stdin: None,
            files: args.filter(|arg: Seq<char>| !flag(arg)),
            flags: args.filter(|arg: Seq<char>| flag(arg)),
        }),
        (forall|i: int|
            0 <= i < args.len() ==> {
                &&& #[trigger] args[i] != "-h"@
                &&& args[i] != "--help"@
                &&& args[i] != "--"@
            }) ==> command_of(seq!["check"@] + args) == (Command::Check {
            files: args.filter(|arg: Seq<char>| !flag(arg)),
            flags: args.filter(|arg: Seq<char>| flag(arg)),
        }),
{
    words_differ();
    assert((seq!["fmt"@] + args).skip(1) =~= args);
    assert((seq!["check"@] + args).skip(1) =~= args);
    if forall|i: int| 0 <= i < args.len() ==> ordinary(#[trigger] args[i]) {
        law_arguments_are_sorted(args, true);
    }
    if forall|i: int|
        0 <= i < args.len() ==> {
            &&& #[trigger] args[i] != "-h"@
            &&& args[i] != "--help"@
            &&& args[i] != "--"@
        } {
        check_sorts(args);
    }
}

proof fn check_sorts(args: Seq<Seq<char>>)
    requires
        forall|i: int|
            0 <= i < args.len() ==> {
                &&& #[trigger] args[i] != "-h"@
                &&& args[i] != "--help"@
                &&& args[i] != "--"@
            },
    ensures
        !scan(args, false, false).help,
        scan(args, false, false).files == args.filter(|arg: Seq<char>| !flag(arg)),
        scan(args, false, false).flags == args.filter(|arg: Seq<char>| flag(arg)),
    decreases args.len(),
{
    let none = Seq::<Seq<char>>::empty();
    let is_file = |arg: Seq<char>| !flag(arg);
    let is_flag = |arg: Seq<char>| flag(arg);
    reveal(Seq::filter);
    if args.len() == 0 {
        assert(args.filter(is_file) =~= none);
        assert(args.filter(is_flag) =~= none);
    } else {
        let rest = args.skip(1);
        assert(forall|i: int| 0 <= i < rest.len() ==> rest[i] == args[i + 1]);
        check_sorts(rest);
        let head = seq![args[0]];
        assert(args =~= head + rest);
        Seq::filter_distributes_over_add(head, rest, is_file);
        Seq::filter_distributes_over_add(head, rest, is_flag);
        assert(head.drop_last() =~= none);
        assert(none.filter(is_file) =~= none);
        assert(none.filter(is_flag) =~= none);
        assert(none.push(args[0]) =~= head);
        assert(none + rest.filter(is_file) =~= rest.filter(is_file));
        assert(none + rest.filter(is_flag) =~= rest.filter(is_flag));
    }
}

/// Help that is asked for before any `--` is dprint's to give: the command goes
/// there whole, word for word.
pub proof fn law_help_is_found_anywhere(
    before: Seq<Seq<char>>,
    word: Seq<char>,
    after: Seq<Seq<char>>,
)
    requires
        forall|i: int| 0 <= i < before.len() ==> ordinary(#[trigger] before[i]),
        word == "-h"@ || word == "--help"@,
    ensures
        command_of(seq!["fmt"@] + (before + seq![word] + after)) == (Command::Passthrough {
            args: seq!["fmt"@] + (before + seq![word] + after),
        }),
        command_of(seq!["check"@] + (before + seq![word] + after)) == (Command::Passthrough {
            args: seq!["check"@] + (before + seq![word] + after),
        }),
{
    words_differ();
    let args = before + seq![word] + after;
    let rest = seq![word] + after;
    assert(args =~= before + rest);
    assert(rest[0] == word);
    ordinary_arguments_stand_first(before, rest, true);
    ordinary_arguments_stand_first(before, rest, false);
    law_help_goes_to_dprint(args);
}

/// Behind `--` `fmt` and `check` take every argument for a file, even one that
/// asks for help or names standard input.
pub proof fn law_files_follow_a_double_dash(before: Seq<Seq<char>>, after: Seq<Seq<char>>)
    requires
        forall|i: int| 0 <= i < before.len() ==> ordinary(#[trigger] before[i]),
    ensures
        command_of(seq!["fmt"@] + (before + seq!["--"@] + after)) == (Command::Fmt {
            stdin: None,
            files: before.filter(|arg: Seq<char>| !flag(arg)) + after,
            flags: before.filter(|arg: Seq<char>| flag(arg)),
        }),
        command_of(seq!["check"@] + (before + seq!["--"@] + after)) == (Command::Check {
            files: before.filter(|arg: Seq<char>| !flag(arg)) + after,
            flags: before.filter(|arg: Seq<char>| flag(arg)),
        }),
{
    words_differ();
    let args = before + seq!["--"@] + after;
    assert((seq!["fmt"@] + args).skip(1) =~= args);
    assert((seq!["check"@] + args).skip(1) =~= args);
    law_double_dash_forces_files(before, after, true);
    law_double_dash_forces_files(before, after, false);
    law_arguments_are_sorted(before, true);
    law_arguments_are_sorted(before, false);
}

/// The first word picks the command: `config` is about the first argument behind
/// it, `completions` are for the shell that is named there, or for zsh, and
/// `output-file-paths` and `lsp` take none.
pub proof fn law_words_pick_commands(first: Seq<char>, more: Seq<Seq<char>>)
    ensures
        command_of(seq!["config"@]) == (Command::Config { file: None }),
        command_of(seq!["config"@, first] + more) == (Command::Config { file: Some(first) }),
        command_of(seq!["output-file-paths"@] + more) == Command::OutputFilePaths,
        command_of(seq!["lsp"@] + more) == Command::Lsp,
        command_of(seq!["completions"@]) == (Command::Completions { shell: "zsh"@ }),
        command_of(seq!["completions"@, first] + more) == (Command::Completions { shell: first }),
        command_of(Seq::empty()) == (Command::Passthrough { args: Seq::empty() }),
{
    reveal_strlit("fmt");
    reveal_strlit("check");
    reveal_strlit("config");
    reveal_strlit("output-file-paths");
    reveal_strlit("lsp");
    reveal_strlit("completions");
    assert("fmt"@.len() == 3 && "check"@.len() == 5 && "config"@.len() == 6
        && "output-file-paths"@.len() == 17 && "lsp"@.len() == 3 && "completions"@.len() == 11);
    assert("fmt"@[0] == 'f' && "lsp"@[0] == 'l');
    let named = seq!["config"@, first] + more;
    assert(named[0] == "config"@ && named.skip(1)[0] == first);
    let shell = seq!["completions"@, first] + more;
    assert(shell[0] == "completions"@ && shell.skip(1)[0] == first);
    assert((seq!["output-file-paths"@] + more)[0] == "output-file-paths"@);
    assert((seq!["lsp"@] + more)[0] == "lsp"@);
}

/// A command line that names no config keeps all its arguments, and one that
/// ends in a `--config` without a path keeps that word too.
pub proof fn law_other_arguments_are_kept(args: Seq<Seq<char>>)
    requires
        forall|i: int|
            0 <= i < args.len() ==> {
                &&& #[trigger] args[i] != "--config"@
                &&& !"--config="@.is_prefix_of(args[i])
            },
    ensures
        config_named(args) is None,
        without_config(args) == args,
        config_named(args.push("--config"@)) is None,
        without_config(args.push("--config"@)) == args.push("--config"@),
    decreases args.len(),
{
    let longer = args.push("--config"@);
    let last = seq!["--config"@];
    if args.len() == 0 {
        assert(without_config(args) =~= args);
        assert(longer =~= last);
        reveal_with_fuel(without_config, 2);
        reveal_with_fuel(config_named, 2);
        assert(longer.skip(1) =~= Seq::empty());
        assert(without_config(longer) =~= longer);
    } else {
        let rest = args.skip(1);
        assert(forall|i: int| 0 <= i < rest.len() ==> rest[i] == args[i + 1]);
        law_other_arguments_are_kept(rest);
        assert(args[0] != "--config"@ && !"--config="@.is_prefix_of(args[0]));
        assert(longer[0] == args[0]);
        assert(longer.skip(1) =~= rest.push("--config"@));
        assert(seq![args[0]] + rest =~= args);
        assert(seq![args[0]] + rest.push("--config"@) =~= longer);
    }
}

/// `--stdin <name>` leaves everything else as it is, whatever stands behind it:
/// help stays help, and otherwise the files and flags are those of the other
/// arguments. A later `--stdin` outweighs it.
pub proof fn law_stdin_leaves_the_rest(
    before: Seq<Seq<char>>,
    name: Seq<char>,
    rest: Seq<Seq<char>>,
)
    requires
        forall|i: int| 0 <= i < before.len() ==> ordinary(#[trigger] before[i]),
    ensures
        match fmt_command(before + rest) {
            Command::Fmt { stdin, files, flags } => fmt_command(
                before + (seq!["--stdin"@, name] + rest),
            ) == (Command::Fmt {
                stdin: if stdin is Some {
                    stdin
                } else {
                    Some(name)
                },
                files,
                flags,
            }),
            _ => fmt_command(before + (seq!["--stdin"@, name] + rest)) == (Command::Passthrough {
                args: seq!["fmt"@] + (before + (seq!["--stdin"@, name] + rest)),
            }),
        },
{
    words_differ();
    let pair = seq!["--stdin"@, name] + rest;
    assert(pair.skip(2) =~= rest);
    assert(pair[0] == "--stdin"@ && pair[1] == name);
    ordinary_arguments_stand_first(before, rest, true);
    ordinary_arguments_stand_first(before, pair, true);
}

} // verus!
