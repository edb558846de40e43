use sanemark::analysis::analyze;
use sanemark::config::DiagnosticsConfig;
use sanemark::features::diagnostics::{edit_distance, link_checks, rank_fixes, FileCandidate, LinkCheck};

fn run(text: &str, config: &DiagnosticsConfig) -> Vec<LinkCheck> {
    let a = analyze(text, 1);
    link_checks(&a, config, Some("/w"), Some("/w"))
}

#[test]
fn ignores_external_and_anchor() {
    let text = "[a](https://x.com) [b](#frag) [c](mailto:x@y.z)";
    assert!(run(text, &DiagnosticsConfig::default()).is_empty());
}

#[test]
fn respects_ignore_globs() {
    let text = "[a](./missing.md)";
    let cfg = DiagnosticsConfig {
        ignore: vec!["**/missing.md".to_string()],
        ..DiagnosticsConfig::default()
    };
    assert!(run(text, &cfg).is_empty());
    assert_eq!(run(text, &DiagnosticsConfig::default()).len(), 1);
}

#[test]
fn image_check_toggle() {
    let text = "![alt](./missing.png)";
    let off = DiagnosticsConfig { check_images: false, ..DiagnosticsConfig::default() };
    assert!(run(text, &off).is_empty());
    assert_eq!(run(text, &DiagnosticsConfig::default()).len(), 1);
}

#[test]
fn checks_carry_path_span_and_message() {
    let text = "[a](./exists.md) and [b](docs/missing%20file.md#top)";
    let checks = run(text, &DiagnosticsConfig::default());
    assert_eq!(checks.len(), 2);
    assert_eq!(checks[0].resolved, "/w/exists.md");
    assert_eq!(&text[checks[0].start_byte..checks[0].end_byte], "./exists.md");
    assert_eq!(checks[1].local, "docs/missing file.md");
    assert_eq!(checks[1].resolved, "/w/docs/missing file.md");
    assert_eq!(checks[1].message, "File does not exist: docs/missing file.md");
    let off = DiagnosticsConfig { broken_links: false, ..DiagnosticsConfig::default() };
    assert!(run(text, &off).is_empty());
}

#[test]
fn edit_distances() {
    assert_eq!(edit_distance("kitten", "sitting"), 3);
    assert_eq!(edit_distance("", "abc"), 3);
    assert_eq!(edit_distance("same", "same"), 0);
    assert_eq!(edit_distance("ab", "ba"), 2);
    assert_eq!(edit_distance(&"a".repeat(257), "a"), usize::MAX);
}

fn cand(name: &str, from_root: &str, from_doc: &str) -> FileCandidate {
    FileCandidate {
        name: name.to_string(),
        from_root: Some(from_root.to_string()),
        from_doc: Some(from_doc.to_string()),
    }
}

#[test]
fn fixes_rank_close_names_and_keep_fragments() {
    let files = vec![
        cand("guide.md", "docs/guide.md", "docs/guide.md"),
        cand("gide.md", "gide.md", "gide.md"),
        cand("unrelated.txt", "unrelated.txt", "unrelated.txt"),
    ];
    let fixes = rank_fixes("./gude.md#intro", "./gude.md", "gude.md", &files);
    let titles: Vec<&str> = fixes.iter().map(|f| f.title.as_str()).collect();
    // Both are one edit away; the fuzzy match ranks the first ahead.
    assert_eq!(titles, vec!["Replace with ./docs/guide.md", "Replace with ./gide.md"]);
    assert_eq!(fixes[0].replacement, "./docs/guide.md#intro");
}

#[test]
fn absolute_destinations_get_root_paths_encoded() {
    let files = vec![cand("my file.md", "a b/my file.md", "../a b/my file.md")];
    let fixes = rank_fixes("/my%20fle.md", "/my fle.md", "my fle.md", &files);
    assert_eq!(fixes.len(), 1);
    assert_eq!(fixes[0].title, "Replace with /a b/my file.md");
    assert_eq!(fixes[0].replacement, "/a%20b/my%20file.md");
}
