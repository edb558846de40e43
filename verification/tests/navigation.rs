use sanemark::analysis::analyze;
use ropey::Rope;
use sanemark::encoding::{byte_to_position, PositionEncoding};
use sanemark::features::navigation::{
    definition_jump, heading_line, reference_spans, resolve_path, slug, within, Jump,
};

fn byte_of(text: &str, needle: &str) -> usize {
    text.find(needle).unwrap()
}

fn line_of_byte(text: &str, b: usize) -> u32 {
    byte_to_position(&Rope::from_str(text), b, PositionEncoding::Utf16).line
}

#[test]
fn reference_link_jumps_to_definition() {
    let text = "See [one][a] and more.\n\n[a]: https://example.com\n";
    let analysis = analyze(text, 1);
    let jump = definition_jump(&analysis, byte_of(text, "[one]"), Some("/tmp"), None).unwrap();
    match jump {
        // Definition is on line 2.
        Jump::Span { start, .. } => assert_eq!(line_of_byte(text, start), 2),
        _ => panic!("expected a span"),
    }
}

#[test]
fn anchor_jumps_within_document() {
    let text = "[go](#my-heading)\n\n# My Heading\n\ntext\n";
    let analysis = analyze(text, 1);
    let jump = definition_jump(&analysis, byte_of(text, "#my-heading"), Some("/tmp"), None).unwrap();
    match jump {
        Jump::Line(l) => assert_eq!(l, 2),
        _ => panic!("expected a line"),
    }
}

#[test]
fn references_of_identifier() {
    let text = "[one][a] and [two][a].\n\n[a]: https://example.com\n";
    let analysis = analyze(text, 1);
    let spans = reference_spans(&analysis, byte_of(text, "[one]"), true, Some("/tmp"), None).unwrap();
    // Two usages + the declaration.
    assert_eq!(spans.len(), 3);
    let without = reference_spans(&analysis, byte_of(text, "[one]"), false, Some("/tmp"), None).unwrap();
    assert_eq!(without.len(), 2);
}

#[test]
fn file_links_jump_to_the_resolved_path() {
    let text = "see [a](./a.md#my-section) here";
    let analysis = analyze(text, 1);
    match definition_jump(&analysis, byte_of(text, "a.md"), Some("/w"), Some("/w")).unwrap() {
        Jump::File { path, fragment } => {
            assert_eq!(path, "/w/a.md");
            assert_eq!(fragment, "my-section");
        }
        _ => panic!("expected a file"),
    }
}

#[test]
fn references_of_a_file_link_count_links_to_the_same_file() {
    let text = "[first](./a.md) then [second](./a.md) and [other](./b.md)";
    let analysis = analyze(text, 1);
    let spans = reference_spans(&analysis, byte_of(text, "./a.md"), true, Some("/w"), Some("/w")).unwrap();
    assert_eq!(spans.len(), 2);
}

#[test]
fn slugs_and_heading_lines() {
    assert_eq!(slug("My Section"), "my-section");
    assert_eq!(slug("Hello, World!"), "hello-world");
    assert_eq!(slug("a_b c"), "a_b-c");
    let text = "# Intro\n\n## My Section\n\ntext\n";
    let analysis = analyze(text, 1);
    assert_eq!(heading_line(&analysis, "my-section"), Some(2));
    assert_eq!(heading_line(&analysis, "missing"), None);
}

#[test]
fn resolving_paths() {
    assert_eq!(resolve_path("./a.md", Some("/w/docs"), Some("/w")).as_deref(), Some("/w/docs/a.md"));
    assert_eq!(resolve_path("/a.md", Some("/w/docs"), Some("/w")).as_deref(), Some("/w/a.md"));
    assert_eq!(resolve_path("https://x.org", Some("/w"), None), None);
    assert!(within(3, 1, 4));
    assert!(!within(4, 1, 4));
}
