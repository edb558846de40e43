use sanemark::clipboard::{copy_next, tool_args, tool_name, CopyStep};

#[test]
fn tools_are_tried_in_order_until_one_succeeds() {
    let names: Vec<String> = (0..4).map(tool_name).collect();
    assert_eq!(names, vec!["wl-copy", "xclip", "xsel", "pbcopy"]);
    assert_eq!(tool_args(1), vec!["-selection", "clipboard"]);
    assert_eq!(tool_args(2), vec!["--clipboard", "--input"]);
    assert!(tool_args(0).is_empty() && tool_args(3).is_empty());
    assert!(matches!(copy_next(0, Err("not found".to_string())), CopyStep::Try(1)));
    assert!(matches!(copy_next(2, Err("x".to_string())), CopyStep::Try(3)));
    assert!(matches!(copy_next(1, Ok(())), CopyStep::Copied(1)));
}

#[test]
fn the_last_failure_is_reported() {
    match copy_next(3, Err("No such file or directory".to_string())) {
        CopyStep::Failed(m) => assert_eq!(m, "pbcopy: No such file or directory"),
        _ => panic!("expected a failure"),
    }
}
