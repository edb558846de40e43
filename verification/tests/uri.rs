use sanemark::uri::normalize;

#[test]
fn normalize_resolves_dots() {
    assert_eq!(normalize("/a/b/../c/./d"), "/a/c/d");
}

#[test]
fn normalize_keeps_relative_parents() {
    assert_eq!(normalize("../x/./y"), "../x/y");
    assert_eq!(normalize("a//b/"), "a/b");
}

#[test]
fn unresolvable_parent_components_are_all_kept() {
    assert_eq!(normalize("../../b"), "../../b");
    assert_eq!(normalize("a/../../b"), "../b");
    assert_eq!(normalize("../x/../../y"), "../../y");
    assert_eq!(normalize("/../a"), "/../a");
}
