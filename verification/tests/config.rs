use sanemark::config::commented_config;

#[test]
fn sections_get_their_comments() {
    let json = "{\n  \"folding\": {\n    \"headings\": true\n  },\n  \"completion\": {\n    \"pathStyle\": \"auto\",\n    \"x\": 1\n  },\n  \"journal\": {}\n}";
    assert_eq!(
        commented_config(json),
        "{\n  // Structural ranges exposed to editor folding.\n  \"folding\": {\n    \"headings\": true\n  },\n  // Link/image path completion and workspace search.\n  \"completion\": {\n    // auto: hybrid in Git work trees, relative elsewhere.\n    // Also accepts relative, absolute, or hybrid.\n    \"pathStyle\": \"auto\",\n    \"x\": 1\n  },\n  \"journal\": {}\n}"
    );
}

#[test]
fn other_lines_are_kept_and_the_final_newline_dropped() {
    assert_eq!(commented_config("{\n  \"a\": 1\n}\n"), "{\n  \"a\": 1\n}");
    assert_eq!(commented_config(""), "");
    assert_eq!(
        commented_config("  \"snippets\": {\n  \"diagnostics\": {\n  \"formatting\": {"),
        "  // Quick insert menu opened by / or @.\n  \"snippets\": {\n  // Validation of local link and image targets.\n  \"diagnostics\": {\n  // Changes made by document formatting.\n  \"formatting\": {"
    );
}
