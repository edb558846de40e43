use sanemark::links::{has_scheme, is_external_or_anchor, local_target};

#[test]
fn schemes() {
    assert!(has_scheme("https://example.com"));
    assert!(has_scheme("mailto:a@b.com"));
    assert!(!has_scheme("./relative.md"));
    assert!(!has_scheme("/abs/path.md"));
    assert!(!has_scheme("no-scheme/here"));
}

#[test]
fn local_targets() {
    assert_eq!(local_target("./a.md"), Some("./a.md".to_string()));
    assert_eq!(
        local_target("../b/c.md#frag"),
        Some("../b/c.md".to_string())
    );
    assert_eq!(local_target("my%20file.md"), Some("my file.md".to_string()));
    assert_eq!(local_target("https://x.com"), None);
    assert_eq!(local_target("#section"), None);
    assert_eq!(local_target(""), None);
    assert_eq!(local_target("//cdn/x"), None);
}

#[test]
fn external_and_anchor_destinations() {
    assert!(is_external_or_anchor("https://x.com"));
    assert!(is_external_or_anchor("#top"));
    assert!(is_external_or_anchor("//cdn/x"));
    assert!(!is_external_or_anchor("./a.md"));
}

#[test]
fn query_is_dropped_and_escapes_decoded() {
    assert_eq!(local_target("a.md?x=1"), Some("a.md".to_string()));
    assert_eq!(local_target("caf%C3%A9.md"), Some("café.md".to_string()));
}
