use sanemark::analysis::{analyze, analyze_tree};
use sanemark::features::formatting::{
    inline_links_in_range, inline_links_in_range_of_tree, to_inline_links, to_inline_links_of_tree,
    to_reference_links, to_reference_links_of_tree,
};
use sanemark::features::lists::{format_lists, format_lists_of_tree};
use sanemark::mdast::parse_markdown;

const DOC: &str = "# T\n\n* one [a](https://a.example)\n* two [b][x]\n\n[x]: https://x.example\n";

#[test]
fn tree_entry_points_agree_with_the_parsing_ones() {
    let ns = parse_markdown(DOC, true);
    assert_eq!(format_lists_of_tree(DOC, &ns), format_lists(DOC, true));
    assert_eq!(
        to_reference_links_of_tree(DOC, &ns, true, "References"),
        to_reference_links(DOC, true, true, "References")
    );
    assert_eq!(to_inline_links_of_tree(DOC, &ns, "References"), to_inline_links(DOC, true, "References"));
    assert_eq!(
        inline_links_in_range_of_tree(DOC, &ns, "References", 0, DOC.len()),
        inline_links_in_range(DOC, true, "References", 0, DOC.len())
    );
    let a = analyze_tree(DOC, &ns, 3);
    let b = analyze(DOC, 3);
    assert_eq!(a.headings.len(), b.headings.len());
    assert_eq!(a.link_targets.len(), b.link_targets.len());
    assert_eq!(a.definitions.len(), 1);
}

#[test]
fn an_empty_tree_leaves_lists_alone() {
    assert_eq!(format_lists_of_tree("* a\n* b\n", &Vec::new()), "* a\n* b\n");
}

#[test]
fn whole_range_inlining_matches_the_document_conversion() {
    let r = inline_links_in_range(DOC, true, "References", 0, DOC.len());
    assert_eq!(r.trim_end().to_string() + "\n", to_inline_links(DOC, true, "References"));
}

#[test]
fn references_without_definitions_are_kept() {
    assert_eq!(to_inline_links("See [x][nope] here.  \n\n", true, "References"), "See [x][nope] here.\n");
}

#[test]
fn reference_section_lists_numbers_first_then_names() {
    let doc = "[z](https://z) [k][key] [y](https://y)\n\n[key]: https://k\n";
    let out = to_reference_links(doc, true, true, "References");
    let section = out.split("\n\n# References\n\n").nth(1).unwrap();
    let ids: Vec<&str> = section.lines().map(|l| &l[1..l.find(']').unwrap()]).collect();
    assert_eq!(ids, vec!["1", "2", "key"], "{out}");
    assert!(out.ends_with('\n'));
}
