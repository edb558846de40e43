use sanemark::cli::{format_action, format_status, lint_status, parse_invocation, FormatAction, Invocation};
use sanemark::config::FormattingConfig;
use sanemark::features::formatting::format_document;

fn args(v: &[&str]) -> Vec<String> {
    v.iter().map(|s| s.to_string()).collect()
}

#[test]
fn format_via_cli_helper_moves_references() {
    let cfg = FormattingConfig {
        move_references_to_bottom: true,
        format_tables: true,
        ..FormattingConfig::default()
    };
    let out = format_document("[x](https://a.com)\n", true, &cfg);
    assert!(out.contains("[x][1]"));
    assert!(out.contains("[1]: https://a.com"));
}

#[test]
fn format_via_cli_helper_formats_tables() {
    let cfg = FormattingConfig::default();
    let out = format_document("a | b | c\n", true, &cfg);
    assert!(out.contains("| a"));
    assert!(out.contains("| ---"));
}

#[test]
fn format_flags_are_parsed() {
    match parse_invocation(&args(&["format", "-w", "--no-tables", "-r", "a.md", "-"])) {
        Invocation::Format(o) => {
            assert!(o.write && !o.check && o.move_references && !o.tables && o.lists);
            assert_eq!(o.files, vec!["a.md".to_string(), "-".to_string()]);
            assert_eq!(o.heading, "References");
        }
        _ => panic!("expected format"),
    }
}

#[test]
fn heading_takes_a_value() {
    match parse_invocation(&args(&["inline", "--references-heading", "Links"])) {
        Invocation::Inline(o) => assert_eq!(o.heading, "Links"),
        _ => panic!("expected inline"),
    }
    match parse_invocation(&args(&["inline", "--references-heading"])) {
        Invocation::Error { message } => {
            assert_eq!(message, "--references-heading requires a value")
        }
        _ => panic!("expected an error"),
    }
}

#[test]
fn unknown_options_and_subcommands() {
    match parse_invocation(&args(&["lint", "--write", "x.md"])) {
        Invocation::Error { message } => assert_eq!(message, "lint: unknown option '--write'"),
        _ => panic!("expected an error"),
    }
    assert!(matches!(parse_invocation(&args(&["frobnicate"])), Invocation::Help { code: 2 }));
    assert!(matches!(parse_invocation(&args(&[])), Invocation::Help { code: 2 }));
    assert!(matches!(parse_invocation(&args(&["format", "--help"])), Invocation::Help { code: 0 }));
    assert!(matches!(parse_invocation(&args(&["config"])), Invocation::Config));
    assert!(matches!(parse_invocation(&args(&["readme"])), Invocation::Readme));
}

#[test]
fn lint_needs_files_and_takes_a_root() {
    match parse_invocation(&args(&["check"])) {
        Invocation::Error { message } => assert_eq!(message, "lint: no files given"),
        _ => panic!("expected an error"),
    }
    match parse_invocation(&args(&["lint", "--root", "/w", "--no-images", "a.md"])) {
        Invocation::Lint(o) => {
            assert_eq!(o.root.as_deref(), Some("/w"));
            assert!(!o.images);
            assert_eq!(o.files, vec!["a.md".to_string()]);
        }
        _ => panic!("expected lint"),
    }
}

#[test]
fn exit_statuses() {
    assert_eq!(format_status(false, true, true), 1);
    assert_eq!(format_status(false, false, true), 0);
    assert_eq!(format_status(true, false, false), 1);
    assert_eq!(lint_status(false, 0), 0);
    assert_eq!(lint_status(false, 2), 1);
}

#[test]
fn format_actions_follow_the_flags() {
    assert_eq!(format_action(true, false, true), FormatAction::Report);
    assert_eq!(format_action(true, true, false), FormatAction::Nothing);
    assert_eq!(format_action(false, true, true), FormatAction::Rewrite);
    assert_eq!(format_action(false, true, false), FormatAction::Nothing);
    assert_eq!(format_action(false, false, false), FormatAction::Print);
}

#[test]
fn check_is_another_name_for_lint() {
    for name in ["check", "lint"] {
        match parse_invocation(&args(&[name, "a.md", "--no-images", "--root", "/w"])) {
            Invocation::Lint(o) => {
                assert_eq!(o.files, vec!["a.md".to_string()]);
                assert!(!o.images);
                assert_eq!(o.root.as_deref(), Some("/w"));
            }
            _ => panic!("expected lint for {name}"),
        }
    }
    assert!(matches!(parse_invocation(&args(&["frobnicate"])), Invocation::Help { code: 2 }));
    assert!(matches!(parse_invocation(&args(&[])), Invocation::Help { code: 2 }));
}
