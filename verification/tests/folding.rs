use ropey::Rope;
use sanemark::analysis::analyze;
use sanemark::config::FoldingConfig;
use sanemark::features::folding::{folding_ranges, last_content_line};

fn folds(text: &str) -> Vec<(u32, u32)> {
    let a = analyze(text, 1);
    let mut f: Vec<(u32, u32)> = folding_ranges(&a, &Rope::from_str(text), &FoldingConfig::default())
        .into_iter()
        .map(|r| (r.start_line as u32, r.end_line as u32))
        .collect();
    f.sort();
    f
}

#[test]
fn nested_heading_sections() {
    let text = "\
# A
text under a

## B
text under b

# C
end";
    let f = folds(text);
    // A spans until C (line 6); B spans until blank before C.
    assert!(f.contains(&(0, 5)));
    assert!(f.contains(&(3, 5)));
}

#[test]
fn code_block_folds() {
    let text = "```\nline1\nline2\n```\n";
    assert!(folds(text).contains(&(0, 3)));
}

#[test]
fn list_item_folds_only_its_own_children() {
    let text = "\
- abc
   - xyz
- dbe";
    // Folding `abc` hides `xyz` and leaves the sibling `dbe` visible.
    assert_eq!(folds(text), vec![(0, 1)]);
}

#[test]
fn leaf_list_item_does_not_fold_its_siblings() {
    let text = "\
- abc
  - xyz
  - pqr
- dbe";
    assert_eq!(folds(text), vec![(0, 2)]);
}

#[test]
fn task_list_item_folds_only_its_own_children() {
    let text = "\
- [ ] abc
  - [x] xyz
- [ ] dbe";
    assert_eq!(folds(text), vec![(0, 1)]);
}

#[test]
fn list_item_folds_continuation_lines() {
    let text = "\
1. abc
   more abc
2. dbe";
    assert_eq!(folds(text), vec![(0, 1)]);
}

#[test]
fn single_line_list_items_have_nothing_to_fold() {
    assert!(folds("- one\n- two\n- three\n").is_empty());
}

#[test]
fn one_range_per_start_line() {
    // The block quote and the list it contains both start on line 0.
    assert_eq!(folds("> - a\n> - b\n"), vec![(0, 1)]);
}

#[test]
fn respects_config_toggle() {
    let text = "```\na\nb\n```\n";
    let a = analyze(text, 1);
    let cfg = FoldingConfig {
        code_blocks: false,
        ..FoldingConfig::default()
    };
    assert!(folding_ranges(&a, &Rope::from_str(text), &cfg).is_empty());
}

#[test]
fn last_content_line_skips_trailing_blank_lines() {
    assert_eq!(last_content_line(&Rope::from_str("a\n\nb  \n\n  \n")), 2);
    assert_eq!(last_content_line(&Rope::from_str("x\r\ny\r\n\r\n")), 1);
    assert_eq!(last_content_line(&Rope::from_str(" \n\t\n")), 0);
    assert_eq!(last_content_line(&Rope::from_str("")), 0);
}
