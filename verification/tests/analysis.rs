use sanemark::analysis::{analyze, BlockKind};

#[test]
fn headings_have_levels_and_text() {
    let a = analyze("# Title\n\n## Sub\n", 1);
    assert_eq!(a.headings.len(), 2);
    assert_eq!(a.headings[0].level, 1);
    assert_eq!(a.headings[0].text, "Title");
    assert_eq!(a.headings[1].level, 2);
    assert_eq!(a.headings[1].text, "Sub");
}

#[test]
fn code_block_is_a_block() {
    let a = analyze("```rust\nfn main() {}\n```\n", 1);
    assert!(a.blocks.iter().any(|b| b.kind == BlockKind::Code));
}

#[test]
fn link_url_span_points_at_url() {
    let text = "see [x](./a.md) here";
    let a = analyze(text, 1);
    assert_eq!(a.link_targets.len(), 1);
    let t = &a.link_targets[0];
    assert_eq!(&text[t.start_byte..t.end_byte], "./a.md");
}

#[test]
fn definition_url_span() {
    let text = "[id]: ./target.md\n";
    let a = analyze(text, 1);
    let t = a
        .link_targets
        .iter()
        .find(|t| t.url == "./target.md")
        .unwrap();
    assert_eq!(&text[t.start_byte..t.end_byte], "./target.md");
}

#[test]
fn captures_reference_usages_and_definitions() {
    let text = "See [one][a] and [two][a].\n\n[a]: https://example.com\n";
    let a = analyze(text, 1);
    assert_eq!(a.references.len(), 2);
    assert!(a.references.iter().all(|r| r.identifier == "a"));
    assert_eq!(a.definitions.len(), 1);
    let def = &a.definitions[0];
    assert_eq!(def.identifier, "a");
    assert_eq!(def.url, "https://example.com");
    assert_eq!(&text[def.url_start..def.url_end], "https://example.com");
}

#[test]
fn link_node_span_covers_whole_link() {
    let text = "see [x](./a.md) here";
    let a = analyze(text, 1);
    let t = &a.link_targets[0];
    assert_eq!(&text[t.node_start..t.node_end], "[x](./a.md)");
}
