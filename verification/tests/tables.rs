use sanemark::features::tables::format_tables;

#[test]
fn single_line_becomes_full_table() {
    let out = format_tables("asdf | asdf| asdf| asdf\n");
    assert_eq!(
        out,
        "\
| asdf | asdf | asdf | asdf |
| ---- | ---- | ---- | ---- |
|      |      |      |      |
"
    );
}

#[test]
fn adds_missing_pipes_and_aligns() {
    let input = "| name | value |\n|-|-|\n| a | 100 |\n| bb | 2 |\n";
    let out = format_tables(input);
    assert_eq!(
        out,
        "\
| name | value |
| ---- | ----- |
| a    | 100   |
| bb   | 2     |
"
    );
}

#[test]
fn stray_pipe_after_table_becomes_empty_row() {
    let input = "| a | b |\n| - | - |\n| 1 | 2 |\n|\n";
    let out = format_tables(input);
    // Columns pad to a minimum width of 3 so the `---` separator is valid.
    assert_eq!(
        out,
        "\
| a   | b   |
| --- | --- |
| 1   | 2   |
|     |     |
"
    );
}

#[test]
fn extra_header_cell_becomes_new_column() {
    let input = "| a | b | c\n| - | - |\n| 1 | 2 |\n";
    let out = format_tables(input);
    assert_eq!(
        out,
        "\
| a   | b   | c   |
| --- | --- | --- |
| 1   | 2   |     |
"
    );
}

#[test]
fn preserves_alignment_markers() {
    let input = "| a | b | c |\n| :- | :-: | -: |\n| 1 | 2 | 3 |\n";
    let out = format_tables(input);
    assert_eq!(
        out,
        "\
| a   |  b  |   c |
| :-- | :-: | --: |
| 1   |  2  |   3 |
"
    );
}

#[test]
fn leaves_non_tables_untouched() {
    let input = "# Heading | with pipe\n\nSome text.\n\n- a | b | c\n";
    assert_eq!(format_tables(input), input);
}

#[test]
fn ignores_pipes_in_code_fence() {
    let input = "```\na | b | c\n```\n";
    assert_eq!(format_tables(input), input);
}

#[test]
fn single_pipe_prose_untouched() {
    let input = "this | that\n";
    assert_eq!(format_tables(input), input);
}

#[test]
fn one_group_formats_to_an_aligned_table() {
    let group: Vec<Vec<char>> =
        vec!["  | a | bb |".chars().collect(), "  |-|:-:|".chars().collect()];
    let rows = sanemark::features::tables::format_group(&group).unwrap();
    let rows: Vec<String> = rows.into_iter().map(|r| r.into_iter().collect()).collect();
    assert_eq!(rows.len(), 3, "{rows:?}");
    for r in &rows {
        assert!(r.starts_with("  |") && r.ends_with('|'), "{r:?}");
        assert_eq!(r.chars().count(), rows[0].chars().count());
    }
    assert!(rows[1][2..].chars().all(|c| matches!(c, ' ' | '-' | ':' | '|')));
    let single: Vec<Vec<char>> = vec!["just text".chars().collect()];
    assert!(sanemark::features::tables::format_group(&single).is_none());
}

#[test]
fn text_without_pipes_is_left_alone() {
    let doc = "# Title\n\n- a\n- b\n\nplain  text   \n\tindented\n";
    assert_eq!(format_tables(doc), doc);
}
