use sanemark::features::lists::format_lists;

fn fmt(input: &str) -> String {
    format_lists(input, true)
}

#[test]
fn star_and_plus_bullets_become_dash() {
    assert_eq!(fmt("* one\n* two\n* three\n"), "- one\n- two\n- three\n");
    assert_eq!(fmt("+ one\n+ two\n"), "- one\n- two\n");
}

#[test]
fn ordered_lists_are_renumbered_incrementally() {
    assert_eq!(fmt("1. a\n1. b\n1. c\n"), "1. a\n2. b\n3. c\n");
    assert_eq!(fmt("2. a\n5. b\n1. c\n"), "2. a\n3. b\n4. c\n");
}

#[test]
fn ordered_list_start_is_preserved() {
    assert_eq!(fmt("3. start\n4. next\n"), "3. start\n4. next\n");
}

#[test]
fn digit_width_change_reindents() {
    assert_eq!(fmt("9. a\n9. b\n9. c\n"), "9. a\n10. b\n11. c\n");
}

#[test]
fn marker_gap_collapses_to_one_space() {
    assert_eq!(fmt("-   spaced\n-   spaced2\n"), "- spaced\n- spaced2\n");
    assert_eq!(fmt("1.   a\n2.   b\n"), "1. a\n2. b\n");
}

#[test]
fn ordinal_delimiter_is_preserved() {
    assert_eq!(fmt("1) a\n1) b\n"), "1) a\n2) b\n");
}

#[test]
fn nested_markers_reanchor_to_parent() {
    assert_eq!(
        fmt("- top\n  * nested\n  * nested2\n- top2\n"),
        "- top\n  - nested\n  - nested2\n- top2\n"
    );
}

#[test]
fn nested_ordered_is_renumbered() {
    assert_eq!(
        fmt("1. a\n   1. sub\n   2. sub2\n2. b\n"),
        "1. a\n   1. sub\n   2. sub2\n2. b\n"
    );
}

#[test]
fn gap_collapse_reindents_continuation() {
    assert_eq!(
        fmt("-   item\n\n    continuation\n-   item2\n"),
        "- item\n\n  continuation\n- item2\n"
    );
}

#[test]
fn gap_collapse_reindents_deeply_nested() {
    assert_eq!(
        fmt("-   a\n    -   b\n        -   c\n"),
        "- a\n  - b\n    - c\n"
    );
}

#[test]
fn gap_collapse_reindents_code_block() {
    assert_eq!(
        fmt("-   a\n\n    ```\n    code\n    ```\n"),
        "- a\n\n  ```\n  code\n  ```\n"
    );
}

#[test]
fn task_markers_are_left_intact() {
    assert_eq!(fmt("- [ ] todo\n- [x] done\n"), "- [ ] todo\n- [x] done\n");
}

#[test]
fn simple_lists_are_unchanged() {
    let input = "- a\n- b\n- c\n";
    assert_eq!(fmt(input), input);
}

#[test]
fn non_list_text_is_untouched() {
    let input = "# Heading\n\nSome text with 1. not a list here.\n";
    assert_eq!(fmt(input), input);
}

#[test]
fn lists_in_block_quotes_keep_their_quote_markers() {
    assert_eq!(format_lists("> - a\n> - b\n", true), "> - a\n> - b\n");
    assert_eq!(format_lists("> * a\n> * b\n", true), "> - a\n> - b\n");
    assert_eq!(format_lists("> 1. a\n> 1. b\n", true), "> 1. a\n> 2. b\n");
}

#[test]
fn list_formatting_keeps_the_line_count() {
    for doc in ["* a\n*   b\n\n1. x\n1. y\n   more\n", "- a\n  * nested\n    text\n", "> 3) q\n> 3) r\n"] {
        let out = format_lists(doc, true);
        assert_eq!(out.matches('\n').count(), doc.matches('\n').count(), "{out:?}");
    }
}
