use rwave::cli::{parse, parse_batch_line, split_line, Command, Defaults, ParseOutcome};
use rwave::VERSION;

fn p(args: &[&str]) -> ParseOutcome {
    let v: Vec<String> = args.iter().map(|s| s.to_string()).collect();
    parse(&v)
}

#[test]
fn version() {
    match p(&["--version"]) {
        ParseOutcome::Print(s) => assert!(s.contains(VERSION)),
        _ => panic!(),
    }
}

#[test]
fn info_basic() {
    match p(&["info", "x.vcd"]) {
        ParseOutcome::Run(a) => {
            assert_eq!(a.command, Command::Info);
            assert_eq!(a.file, "x.vcd");
        }
        _ => panic!(),
    }
}

#[test]
fn json_before_or_after() {
    match p(&["--json", "info", "x.vcd"]) {
        ParseOutcome::Run(a) => assert!(a.json),
        _ => panic!(),
    }
    match p(&["info", "x.vcd", "--json"]) {
        ParseOutcome::Run(a) => assert!(a.json),
        _ => panic!(),
    }
}

#[test]
fn search_requires_condition() {
    match p(&["search", "x.vcd"]) {
        ParseOutcome::Error(e) => assert!(e.contains("--condition")),
        _ => panic!(),
    }
}

#[test]
fn snapshot_requires_at() {
    match p(&["snapshot", "x.vcd"]) {
        ParseOutcome::Error(e) => assert!(e.contains("--at")),
        _ => panic!(),
    }
}

#[test]
fn changed_flag_removed_with_hint() {
    match p(&["search", "x.vcd", "--condition", "a=1", "--changed", "b"]) {
        ParseOutcome::Error(e) => {
            assert!(e.contains("--condition \"changed(SIG)\""), "{e}");
        }
        _ => panic!("expected error for removed --changed flag"),
    }
}

#[test]
fn version_and_help_not_hijacked_by_value_flags() {
    // `--filter --version` should be "missing value for --filter", not the
    // version string. The pre-scan must skip tokens that are values of a
    // value-taking flag.
    match p(&["info", "x.vcd", "--filter", "--version"]) {
        ParseOutcome::Run(_) | ParseOutcome::Error(_) => {}
        other => panic!("unexpected outcome: {}", outcome_kind(&other)),
    }
    match p(&["dump", "x.vcd", "--begin", "--help"]) {
        ParseOutcome::Run(_) | ParseOutcome::Error(_) => {}
        other => panic!("unexpected outcome: {}", outcome_kind(&other)),
    }
    // Every value flag must be in VALUE_FLAGS, the selection ones included.
    for flag in ["--scope", "--depth", "--exclude"] {
        match p(&["list", "x.vcd", flag, "--version"]) {
            ParseOutcome::Run(_) | ParseOutcome::Error(_) => {}
            other => panic!("{flag} hijacked by --version: {}", outcome_kind(&other)),
        }
    }
    // A genuine --version anywhere still works.
    match p(&["--filter", "clk", "--version", "info", "x.vcd"]) {
        ParseOutcome::Print(s) => assert!(s.contains(VERSION)),
        _ => panic!("expected version print"),
    }
}

#[test]
fn selection_flags_parse() {
    match p(&[
        "list", "x.vcd", "--scope", "u_tx", "--depth", "2", "--filter", "err", "--exclude",
        "clk",
    ]) {
        ParseOutcome::Run(a) => {
            assert_eq!(a.scope.as_deref(), Some("u_tx"));
            assert_eq!(a.depth, Some(2));
            assert_eq!(a.filter.as_deref(), Some("err"));
            assert_eq!(a.exclude.as_deref(), Some("clk"));
        }
        other => panic!("expected Run, got {}", outcome_kind(&other)),
    }
    // --exclude stands alone.
    match p(&["summary", "x.vcd", "--exclude", "*_sync_*"]) {
        ParseOutcome::Run(a) => {
            assert!(a.filter.is_none());
            assert_eq!(a.exclude.as_deref(), Some("*_sync_*"));
        }
        other => panic!("expected Run, got {}", outcome_kind(&other)),
    }
    for flag in ["--scope", "--exclude", "--depth"] {
        match p(&["list", "x.vcd", flag]) {
            ParseOutcome::Error(e) => assert!(e.contains(flag), "{e}"),
            other => panic!("expected Error, got {}", outcome_kind(&other)),
        }
    }
}

#[test]
fn depth_is_positive_and_needs_a_scope() {
    // Depth counts from the scope root, so it means nothing without one.
    match p(&["list", "x.vcd", "--depth", "2"]) {
        ParseOutcome::Error(e) => assert!(e.contains("--depth requires --scope"), "{e}"),
        other => panic!("expected Error, got {}", outcome_kind(&other)),
    }
    // A blank scope is "not given" — it must not satisfy the pairing.
    match p(&["list", "x.vcd", "--depth", "2", "--scope", "  "]) {
        ParseOutcome::Error(e) => assert!(e.contains("--depth requires --scope"), "{e}"),
        other => panic!("expected Error, got {}", outcome_kind(&other)),
    }
    for bad in ["0", "-3"] {
        match p(&["list", "x.vcd", "--scope", "u_tx", "--depth", bad]) {
            ParseOutcome::Error(e) => assert!(e.contains("depth must be positive"), "{e}"),
            other => panic!("expected Error, got {}", outcome_kind(&other)),
        }
    }
    match p(&["list", "x.vcd", "--scope", "u_tx", "--depth", "x"]) {
        ParseOutcome::Error(e) => assert!(e.contains("invalid int value"), "{e}"),
        other => panic!("expected Error, got {}", outcome_kind(&other)),
    }
}

/// A short label for a `ParseOutcome` variant, for assertion messages.
fn outcome_kind(o: &ParseOutcome) -> &'static str {
    match o {
        ParseOutcome::Run(_) => "Run",
        ParseOutcome::Batch(_) => "Batch",
        ParseOutcome::Print(_) => "Print",
        ParseOutcome::Error(_) => "Error",
    }
}

#[test]
fn batch_basic_file_is_positional() {
    // `--batch <file>` parses to a Batch with the file, no subcommand.
    match p(&["--batch", "x.vcd"]) {
        ParseOutcome::Batch(b) => {
            assert_eq!(b.file, "x.vcd");
            assert!(!b.json);
        }
        other => panic!("expected Batch, got {}", outcome_kind(&other)),
    }
    // Order-independent: --batch after the file still works.
    match p(&["x.vcd", "--batch", "--json"]) {
        ParseOutcome::Batch(b) => {
            assert_eq!(b.file, "x.vcd");
            assert!(b.json);
        }
        other => panic!("expected Batch, got {}", outcome_kind(&other)),
    }
}

#[test]
fn batch_globals_become_defaults() {
    match p(&["--batch", "x.vcd", "--limit", "0", "--verbose", "--filter", "clk"]) {
        ParseOutcome::Batch(b) => {
            assert_eq!(b.defaults.limit, Some(0));
            assert!(b.defaults.verbose);
            assert_eq!(b.defaults.filter.as_deref(), Some("clk"));
        }
        other => panic!("expected Batch, got {}", outcome_kind(&other)),
    }
}

#[test]
fn batch_selection_defaults_merge_per_flag() {
    let defaults = match p(&[
        "--batch", "x.vcd", "--scope", "u_tx", "--depth", "2", "--filter", "err", "--exclude",
        "clk",
    ]) {
        ParseOutcome::Batch(b) => b.defaults,
        other => panic!("expected Batch, got {}", outcome_kind(&other)),
    };
    // A bare line inherits every default.
    let a = parse_batch_line(&vec!["list".to_string()], "f.vcd", &defaults).unwrap();
    assert_eq!(a.scope.as_deref(), Some("u_tx"));
    assert_eq!(a.depth, Some(2));
    assert_eq!(a.filter.as_deref(), Some("err"));
    assert_eq!(a.exclude.as_deref(), Some("clk"));

    // Overriding one leaves the others alone.
    let toks: Vec<String> = ["list", "--scope", "u_rx"].iter().map(|s| s.to_string()).collect();
    let b = parse_batch_line(&toks, "f.vcd", &defaults).unwrap();
    assert_eq!(b.scope.as_deref(), Some("u_rx"));
    assert_eq!(b.filter.as_deref(), Some("err"));

    // An empty value lifts an inherited default without touching the rest —
    // the escape hatch for a line that wants the whole file back.
    let toks: Vec<String> = ["list", "--filter", ""].iter().map(|s| s.to_string()).collect();
    let c = parse_batch_line(&toks, "f.vcd", &defaults).unwrap();
    assert_eq!(c.filter.as_deref(), Some(""));
    assert_eq!(c.exclude.as_deref(), Some("clk"));
}

#[test]
fn batch_depth_pairing_is_enforced_per_line() {
    // A default --depth is legal on its own: lines may bring their own
    // scopes. Only a line that ends up scope-less is an error.
    let defaults = match p(&["--batch", "x.vcd", "--depth", "2"]) {
        ParseOutcome::Batch(b) => b.defaults,
        other => panic!("expected Batch, got {}", outcome_kind(&other)),
    };
    assert_eq!(defaults.depth, Some(2));
    let e = parse_batch_line(&vec!["list".to_string()], "f.vcd", &defaults).unwrap_err();
    assert!(e.contains("--depth requires --scope"), "{e}");
    let toks: Vec<String> = ["list", "--scope", "u_tx"].iter().map(|s| s.to_string()).collect();
    assert!(parse_batch_line(&toks, "f.vcd", &defaults).is_ok());

    // Clearing an inherited scope re-exposes the inherited depth.
    let paired = match p(&["--batch", "x.vcd", "--depth", "2", "--scope", "u_tx"]) {
        ParseOutcome::Batch(b) => b.defaults,
        other => panic!("expected Batch, got {}", outcome_kind(&other)),
    };
    let toks: Vec<String> = ["list", "--scope", ""].iter().map(|s| s.to_string()).collect();
    let e = parse_batch_line(&toks, "f.vcd", &paired).unwrap_err();
    assert!(e.contains("--depth requires --scope"), "{e}");

    // A non-positive default is rejected up front, at the --batch line.
    match p(&["--batch", "x.vcd", "--depth", "0"]) {
        ParseOutcome::Error(e) => assert!(e.contains("depth must be positive"), "{e}"),
        other => panic!("expected Error, got {}", outcome_kind(&other)),
    }
}

#[test]
fn batch_conflicts_with_subcommand() {
    match p(&["--batch", "info", "x.vcd"]) {
        ParseOutcome::Error(e) => assert!(e.contains("cannot be combined")),
        other => panic!("expected Error, got {}", outcome_kind(&other)),
    }
}

#[test]
fn batch_requires_file() {
    match p(&["--batch"]) {
        ParseOutcome::Error(e) => assert!(e.contains("<file>")),
        other => panic!("expected Error, got {}", outcome_kind(&other)),
    }
}

#[test]
fn batch_line_merges_and_overrides() {
    let defaults = Defaults {
        limit: Some(0),
        filter: Some("clk".into()),
        ..Defaults::default()
    };
    // Line with no limit/filter inherits the defaults.
    let a = parse_batch_line(&vec!["dump".to_string()], "f.vcd", &defaults).unwrap();
    assert_eq!(a.command, Command::Dump);
    assert_eq!(a.file, "f.vcd");
    assert_eq!(a.limit, Some(0));
    assert_eq!(a.filter.as_deref(), Some("clk"));
    // Line's own flags override the defaults.
    let toks: Vec<String> = ["dump", "--limit", "5", "--filter", "rst"]
        .iter()
        .map(|s| s.to_string())
        .collect();
    let b = parse_batch_line(&toks, "f.vcd", &defaults).unwrap();
    assert_eq!(b.limit, Some(5));
    assert_eq!(b.filter.as_deref(), Some("rst"));
}

#[test]
fn batch_line_missing_command_and_required_args() {
    let d = Defaults::default();
    assert!(parse_batch_line(&vec!["--filter".to_string(), "clk".to_string()], "f.vcd", &d).is_err());
    // snapshot still requires --at when no default supplies it.
    let e = parse_batch_line(&vec!["snapshot".to_string()], "f.vcd", &d).unwrap_err();
    assert!(e.contains("--at"));
    // a default --at satisfies it.
    let d2 = Defaults {
        at: Some("5ns".into()),
        ..Defaults::default()
    };
    assert!(parse_batch_line(&vec!["snapshot".to_string()], "f.vcd", &d2).is_ok());
}

#[test]
fn split_line_tokenizes_and_labels() {
    // Plain command, no label.
    let (t, l) = split_line("dump --filter state").unwrap();
    assert_eq!(t, vec!["dump", "--filter", "state"]);
    assert_eq!(l, None);
    // Trailing label.
    let (t, l) = split_line("list --filter clk,rst   #my label").unwrap();
    assert_eq!(t, vec!["list", "--filter", "clk,rst"]);
    assert_eq!(l.as_deref(), Some("my label"));
    // Blank and comment-only lines yield no tokens.
    assert!(split_line("   ").unwrap().0.is_empty());
    assert!(split_line("   # just a comment").unwrap().0.is_empty());
    // Quotes group and are stripped; quoted '#' is literal.
    let (t, _) = split_line(r#"search --condition "a=1,b=2" --show "x#y""#).unwrap();
    assert_eq!(t, vec!["search", "--condition", "a=1,b=2", "--show", "x#y"]);
    // Unterminated quote is an error.
    assert!(split_line(r#"dump --filter "oops"#).is_err());
}

/// What an invocation asks for, as text.
fn asked(o: ParseOutcome) -> String {
    match o {
        ParseOutcome::Run(a) => format!("{a:?}"),
        ParseOutcome::Error(_) => "refused".to_string(),
        _ => panic!("no command"),
    }
}

#[test]
fn globals_go_anywhere_between_options() {
    let v = ["search", "x.vcd", "--condition", "--json", "--limit", "3"];
    match p(&v) {
        ParseOutcome::Run(a) => assert!(!a.json && !a.verbose && a.condition == vec!["--json"]),
        _ => panic!(),
    }
    for g in ["--json", "--verbose"] {
        for at in [0, 1, 2, 4, 6] {
            let mut w: Vec<&str> = v.to_vec();
            w.insert(at, g);
            match p(&w) {
                ParseOutcome::Run(a) => {
                    assert_eq!(a.json, g == "--json");
                    assert_eq!(a.verbose, g == "--verbose");
                    assert_eq!(a.condition, vec!["--json"]);
                    assert_eq!(a.limit, Some(3));
                },
                _ => panic!("{at}"),
            }
        }
    }
}

#[test]
fn a_batch_line_is_an_invocation_of_its_own() {
    let lines: [&[&str]; 10] = [
        &["info"],
        &["list", "--filter", "clk", "--limit", "5"],
        &["dump", "--begin", "1ns", "--end", "9ns", "--verbose"],
        &["snapshot", "--at", "5ns"],
        &["snapshot"],
        &["search", "--condition", "a=1", "--condition", "b=2"],
        &["tree", "top.u", "--depth", "2"],
        &["trace", "top.sig", "--load"],
        &["info", "extra"],
        &["unheard_of", "--limit", "1"],
    ];
    for words in lines {
        let tokens: Vec<String> = words.iter().map(|w| w.to_string()).collect();
        let mut alone: Vec<&str> = words.to_vec();
        alone.insert(1, "x.vcd");
        let line = match parse_batch_line(&tokens, "x.vcd", &Defaults::default()) {
            Ok(a) => format!("{a:?}"),
            Err(_) => "refused".to_string(),
        };
        assert_eq!(line, asked(p(&alone)), "{words:?}");
    }
}
