use dprintx::cli::{is_flag, Cli, CliCommand};

fn args(s: &str) -> Vec<String> {
    s.split_whitespace().map(String::from).collect()
}

#[test]
fn test_fmt_stdin() {
    let cli = Cli::parse_from(&args("fmt --stdin test.yaml"));
    assert!(matches!(
        cli.command,
        CliCommand::Fmt { stdin: Some(_), .. }
    ));
}

#[test]
fn test_fmt_files() {
    let cli = Cli::parse_from(&args("fmt a.go b.go"));
    if let CliCommand::Fmt {
        stdin,
        files,
        flags,
    } = &cli.command
    {
        assert!(stdin.is_none());
        assert_eq!(files, &["a.go", "b.go"]);
        assert!(flags.is_empty());
    } else {
        panic!("expected Fmt");
    }
}

#[test]
fn test_check_files() {
    let cli = Cli::parse_from(&args("check a.yaml"));
    if let CliCommand::Check { files, flags } = &cli.command {
        assert_eq!(files, &["a.yaml"]);
        assert!(flags.is_empty());
    } else {
        panic!("expected Check");
    }
}

#[test]
fn test_unknown_passthrough() {
    let cli = Cli::parse_from(&args("license"));
    assert!(matches!(cli.command, CliCommand::Passthrough { .. }));
}

#[test]
fn test_help_passthrough() {
    let cli = Cli::parse_from(&args("--help"));
    assert!(matches!(cli.command, CliCommand::Passthrough { .. }));
}

#[test]
fn test_version_passthrough() {
    let cli = Cli::parse_from(&args("-V"));
    assert!(matches!(cli.command, CliCommand::Passthrough { .. }));
}

#[test]
fn test_config_extracted() {
    let cli = Cli::parse_from(&args("--config /tmp/test.jsonc fmt a.go"));
    assert_eq!(cli.config.as_deref(), Some("/tmp/test.jsonc"));
    assert!(matches!(cli.command, CliCommand::Fmt { .. }));
}

#[test]
fn test_config_equals() {
    let cli = Cli::parse_from(&args("--config=/tmp/test.jsonc check"));
    assert_eq!(cli.config.as_deref(), Some("/tmp/test.jsonc"));
    assert!(matches!(cli.command, CliCommand::Check { .. }));
}

#[test]
fn test_no_args_passthrough() {
    let cli = Cli::parse_from(&args(""));
    assert!(matches!(cli.command, CliCommand::Passthrough { .. }));
}

// A flag counted as a file is not merely dropped later: with no path left that
// matches a profile, dprint is handed the caller's cwd and formats the tree it
// happens to be standing in.
#[test]
fn test_fmt_flag_is_not_a_file() {
    let cli = Cli::parse_from(&args("fmt --allow-no-files a.go"));
    if let CliCommand::Fmt { files, flags, .. } = &cli.command {
        assert_eq!(files, &["a.go"]);
        assert_eq!(flags, &["--allow-no-files"]);
    } else {
        panic!("expected Fmt");
    }
}

#[test]
fn test_check_flag_is_not_a_file() {
    let cli = Cli::parse_from(&args("check --incremental a.yaml"));
    if let CliCommand::Check { files, flags } = &cli.command {
        assert_eq!(files, &["a.yaml"]);
        assert_eq!(flags, &["--incremental"]);
    } else {
        panic!("expected Check");
    }
}

#[test]
fn test_short_flag_is_not_a_file() {
    let cli = Cli::parse_from(&args("fmt -L a.go"));
    if let CliCommand::Fmt { files, flags, .. } = &cli.command {
        assert_eq!(files, &["a.go"]);
        assert_eq!(flags, &["-L"]);
    } else {
        panic!("expected Fmt");
    }
}

// `--` is how a path that looks like a flag gets through.
#[test]
fn test_double_dash_forces_files() {
    let cli = Cli::parse_from(&args("fmt --allow-no-files -- --weird.go"));
    if let CliCommand::Fmt { files, flags, .. } = &cli.command {
        assert_eq!(files, &["--weird.go"]);
        assert_eq!(flags, &["--allow-no-files"]);
    } else {
        panic!("expected Fmt");
    }
}

// A lone dash means stdin to every tool that reads paths, so it stays a file.
#[test]
fn test_bare_dash_is_a_file() {
    let cli = Cli::parse_from(&args("fmt -"));
    if let CliCommand::Fmt { files, flags, .. } = &cli.command {
        assert_eq!(files, &["-"]);
        assert!(flags.is_empty());
    } else {
        panic!("expected Fmt");
    }
}

#[test]
fn test_fmt_help_passthrough() {
    let cli = Cli::parse_from(&args("fmt --help"));
    assert!(matches!(cli.command, CliCommand::Passthrough { .. }));
}

fn list(items: &[&str]) -> Vec<String> {
    items.iter().map(|s| s.to_string()).collect()
}

#[test]
fn config_flag_at_the_end_is_not_an_option() {
    let cli = Cli::parse_from(&args("fmt a.go --config"));
    assert_eq!(cli.config, None);
    if let CliCommand::Fmt { files, flags, .. } = &cli.command {
        assert_eq!(files, &["a.go"]);
        assert_eq!(flags, &["--config"]);
    } else {
        panic!("expected Fmt");
    }
}

#[test]
fn last_config_counts() {
    let cli = Cli::parse_from(&args("--config a --config=b check --config c"));
    assert_eq!(cli.config.as_deref(), Some("c"));
    assert!(matches!(cli.command, CliCommand::Check { .. }));
}

#[test]
fn config_inside_arguments_is_taken_out() {
    let cli = Cli::parse_from(&args("license --config x --all"));
    assert_eq!(cli.config.as_deref(), Some("x"));
    if let CliCommand::Passthrough { args } = &cli.command {
        assert_eq!(args, &["license", "--all"]);
    } else {
        panic!("expected Passthrough");
    }
}

#[test]
fn other_commands_are_recognised() {
    assert!(matches!(
        Cli::parse_from(&args("output-file-paths")).command,
        CliCommand::OutputFilePaths
    ));
    assert!(matches!(Cli::parse_from(&args("lsp")).command, CliCommand::Lsp));
    if let CliCommand::Config { file } = Cli::parse_from(&args("config a.go b.go")).command {
        assert_eq!(file.as_deref(), Some("a.go"));
    } else {
        panic!("expected Config");
    }
    assert!(matches!(
        Cli::parse_from(&args("config")).command,
        CliCommand::Config { file: None }
    ));
    if let CliCommand::Completions { shell } = Cli::parse_from(&args("completions fish")).command {
        assert_eq!(shell, "fish");
    } else {
        panic!("expected Completions");
    }
    if let CliCommand::Completions { shell } = Cli::parse_from(&args("completions")).command {
        assert_eq!(shell, "zsh");
    } else {
        panic!("expected Completions");
    }
}

#[test]
fn help_hands_over_all_arguments() {
    if let CliCommand::Passthrough { args } = Cli::parse_check(&list(&["a.go", "-h", "--x"])) {
        assert_eq!(args, ["check", "a.go", "-h", "--x"]);
    } else {
        panic!("expected Passthrough");
    }
    if let CliCommand::Passthrough { args } = Cli::parse_fmt(&list(&["--help"])) {
        assert_eq!(args, ["fmt", "--help"]);
    } else {
        panic!("expected Passthrough");
    }
}

#[test]
fn help_behind_double_dash_is_a_file() {
    if let CliCommand::Check { files, flags } = Cli::parse_check(&list(&["--", "-h", "--"])) {
        assert_eq!(files, ["-h", "--"]);
        assert!(flags.is_empty());
    } else {
        panic!("expected Check");
    }
}

#[test]
fn stdin_without_a_name_counts_for_nothing() {
    if let CliCommand::Fmt { stdin, files, flags } = Cli::parse_fmt(&list(&["a", "--stdin"])) {
        assert_eq!(stdin, None);
        assert_eq!(files, ["a"]);
        assert!(flags.is_empty());
    } else {
        panic!("expected Fmt");
    }
}

#[test]
fn flags_start_with_a_dash() {
    assert!(is_flag("-x"));
    assert!(is_flag("--"));
    assert!(!is_flag("-"));
    assert!(!is_flag(""));
    assert!(!is_flag("a-b"));
}
