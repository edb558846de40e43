use sanemark::analysis::analyze;
use sanemark::cli::lint_source;
use sanemark::config::DiagnosticsConfig;
use ropey::Rope;
use sanemark::encoding::{range_from_bytes, Position, PositionEncoding, Range};
use sanemark::features::diagnostics::{
    any_overlapping, file_name, fix_candidate, link_checks, quick_fixes, FileCandidate, LinkCheck,
};

const FILES: [&str; 3] = ["/w/docs/guide book.md", "/w/photo.png", "/w/index.md"];

fn missing(text: &str) -> Vec<LinkCheck> {
    let a = analyze(text, 1);
    link_checks(&a, &DiagnosticsConfig::default(), Some("/w"), Some("/w"))
        .into_iter()
        .filter(|c| !FILES.contains(&c.resolved.as_str()))
        .collect()
}

fn first_fix(text: &str) -> Option<String> {
    let a = analyze(text, 1);
    let rope = Rope::from_str(text);
    let ranges: Vec<Range> = missing(text)
        .iter()
        .map(|c| range_from_bytes(&rope, c.start_byte, c.end_byte, PositionEncoding::Utf16))
        .collect();
    let request = Range {
        start: Position { line: 0, character: 0 },
        end: Position { line: 10, character: 0 },
    };
    if !any_overlapping(&ranges, request) {
        return None;
    }
    let files: Vec<FileCandidate> = FILES.iter().map(|p| fix_candidate(p, "/w", "/w")).collect();
    let fixes = quick_fixes(&a, &rope, PositionEncoding::Utf16, &ranges, request, &files);
    fixes.into_iter().find(|f| !f.fixes.is_empty()).map(|f| f.fixes[0].replacement.clone())
}

#[test]
fn broken_link_fixes_keep_queries_fragments_and_style() {
    for (text, expected) in [
        ("😀 [guide](./old/guide%20bok.md?raw=1#intro)", Some("./docs/guide%20book.md?raw=1#intro")),
        ("[guide](</docs/guide bok.md#intro>)", Some("/docs/guide%20book.md#intro")),
        ("[guide][g]\n\n[g]: ./guide%20bok.md \"Title\"", Some("./docs/guide%20book.md")),
        ("![photo](./phoot.png)", Some("./photo.png")),
        ("[exists](./photo.png)", None),
        ("[external](https://example.com/missing.md)", None),
        ("[unrelated](./zzzzzzzzzz.md)", None),
    ] {
        assert_eq!(first_fix(text).as_deref(), expected, "{text}");
    }
}

#[test]
fn fixes_only_for_diagnostics_in_the_requested_range() {
    let text = "[a](./phoot.png)\n\n[b](./photoo.png)\n";
    let a = analyze(text, 1);
    let rope = Rope::from_str(text);
    let ranges: Vec<Range> = missing(text)
        .iter()
        .map(|c| range_from_bytes(&rope, c.start_byte, c.end_byte, PositionEncoding::Utf16))
        .collect();
    assert_eq!(ranges.len(), 2);
    let request = Range {
        start: Position { line: 2, character: 0 },
        end: Position { line: 2, character: 10 },
    };
    let files: Vec<FileCandidate> = FILES.iter().map(|p| fix_candidate(p, "/w", "/w")).collect();
    let fixes = quick_fixes(&a, &rope, PositionEncoding::Utf16, &ranges, request, &files);
    assert_eq!(fixes.len(), 1);
    assert_eq!(fixes[0].diagnostic, 1);
    assert_eq!(fixes[0].fixes[0].title, "Replace with ./photo.png");
}

#[test]
fn file_names_follow_path_components() {
    assert_eq!(file_name("docs/Guide.MD").as_deref(), Some("Guide.MD"));
    assert_eq!(file_name("a/b/").as_deref(), Some("b"));
    assert_eq!(file_name("a/.").as_deref(), Some("a"));
    assert_eq!(file_name("a/.."), None);
    assert_eq!(file_name("/"), None);
    assert_eq!(file_name("."), None);
    let c = fix_candidate("/w/docs/Guide.MD", "/w/notes", "/w");
    assert_eq!(c.name, "guide.md");
    assert_eq!(c.from_root.as_deref(), Some("docs/Guide.MD"));
    assert_eq!(c.from_doc.as_deref(), Some("../docs/Guide.MD"));
}

#[test]
fn lint_reports_one_based_byte_positions() {
    let text = "é [a](./gone.md)\n\n  ![b](img/x.png)\n";
    let issues = lint_source(text, &missing(text));
    assert_eq!(issues.len(), 2);
    assert_eq!((issues[0].line, issues[0].column), (1, 8));
    assert_eq!(issues[0].message, "File does not exist: ./gone.md");
    assert_eq!((issues[1].line, issues[1].column), (3, 8));
    assert_eq!(issues[1].message, "File does not exist: img/x.png");
}

#[test]
fn stems_extensions_and_markdown_files() {
    assert_eq!(sanemark::features::snippets::link_text("notes.md"), "notes");
    assert_eq!(sanemark::features::snippets::link_text("archive.tar.gz"), "archive.tar");
    assert_eq!(sanemark::features::snippets::link_text(".bashrc"), ".bashrc");
    assert_eq!(sanemark::features::snippets::link_text("README"), "README");
    assert_eq!(sanemark::features::snippets::link_text(".."), "..");
    assert!(sanemark::cli::is_markdown("docs/Guide.MD"));
    assert!(sanemark::cli::is_markdown("a/b.markdown"));
    assert!(!sanemark::cli::is_markdown("a/.md"));
    assert!(!sanemark::cli::is_markdown("notes.mdx"));
    assert!(!sanemark::cli::is_markdown("md"));
}
