use sanemark::analysis::analyze;
use sanemark::features::symbols::{outline_parents, symbol_name};

#[test]
fn nests_by_level() {
    let text = "# A\n\n## B\n\n## C\n\n# D\n";
    let a = analyze(text, 1);
    let parents = outline_parents(&a);
    let names: Vec<String> = a.headings.iter().map(|h| symbol_name(&h.text)).collect();
    let roots: Vec<usize> = (0..parents.len()).filter(|&i| parents[i].is_none()).collect();
    assert_eq!(roots.len(), 2); // A, D
    assert_eq!(names[roots[0]], "A");
    let a_children: Vec<usize> = (0..parents.len()).filter(|&i| parents[i] == Some(roots[0])).collect();
    assert_eq!(a_children.len(), 2); // B, C
    assert_eq!(names[a_children[0]], "B");
    assert_eq!(names[roots[1]], "D");
}

#[test]
fn skipped_levels_attach_to_the_nearest_shallower_heading() {
    let text = "# A\n\n### B\n\n## C\n\n#### D\n\n## E\n";
    let a = analyze(text, 1);
    assert_eq!(outline_parents(&a), vec![None, Some(0), Some(0), Some(2), Some(0)]);
}

#[test]
fn blank_headings_are_untitled() {
    assert_eq!(symbol_name("   "), "(untitled)");
    assert_eq!(symbol_name("Title"), "Title");
}
