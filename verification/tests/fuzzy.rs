use sanemark::fuzzy::{fuzzy_match, PathMatcher};

#[test]
fn empty_query_matches() {
    assert_eq!(fuzzy_match("", "anything"), Some(0));
}

#[test]
fn subsequence_matches_and_nonmatch() {
    assert!(fuzzy_match("k", "test/k.md").is_some());
    assert!(fuzzy_match("kmd", "k.md").is_some());
    assert!(fuzzy_match("tkmd", "test/k.md").is_some());
    assert!(fuzzy_match("xyz", "k.md").is_none());
    assert!(fuzzy_match("md", "k.m").is_none());
}

#[test]
fn boundary_after_slash_ranks_higher() {
    // Path-aware config: a match right after `/` beats a mid-word match.
    let boundary = fuzzy_match("k", "test/k.md").unwrap();
    let midword = fuzzy_match("k", "broken.md").unwrap();
    assert!(boundary > midword, "{boundary} !> {midword}");
}

#[test]
fn consecutive_beats_scattered() {
    let consecutive = fuzzy_match("abc", "abc.md").unwrap();
    let scattered = fuzzy_match("abc", "a1b2c3.md").unwrap();
    assert!(consecutive > scattered, "{consecutive} !> {scattered}");
}

#[test]
fn case_insensitive() {
    assert!(fuzzy_match("KMD", "k.md").is_some());
    assert!(fuzzy_match("kmd", "K.MD").is_some());
}

#[test]
fn reuse_matcher_across_candidates() {
    let m = PathMatcher::new("k");
    assert!(m.score("test/k.md").is_some());
    assert!(m.score("k.md").is_some());
    assert!(m.score("zzz.md").is_none());
}

#[test]
fn blank_query_is_empty_matcher() {
    assert!(PathMatcher::new("  ").is_empty());
    assert_eq!(PathMatcher::new(" ").score("x"), Some(0));
    assert!(!PathMatcher::new("a").is_empty());
}
