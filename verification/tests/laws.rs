use sanemark::analysis::analyze;
use sanemark::config::{CompletionConfig, FoldingConfig};
use sanemark::document::Document;
use sanemark::features::completion::completion_request;
use ropey::Rope;
use sanemark::encoding::{char_to_position, position_to_char, Position, PositionEncoding, Range};
use sanemark::features::diagnostics::{rank_fixes, FileCandidate};
use sanemark::features::folding::folding_ranges;
use sanemark::features::lists::format_lists;
use sanemark::features::tables::format_tables;
use sanemark::fuzzy::fuzzy_match;

#[test]
fn positions_round_trip_for_every_character() {
    let text = "a😀b\r\nsecond é line\n\u{2028}last";
    let rope = Rope::from_str(text);
    let n = text.chars().count();
    for enc in [PositionEncoding::Utf8, PositionEncoding::Utf16] {
        for c in 0..=n {
            let p = char_to_position(&rope, c, enc);
            assert_eq!(position_to_char(&rope, p, enc), c, "char {c} in {enc:?}");
        }
    }
}

#[test]
fn text_without_lists_keeps_its_layout() {
    let text = "# Title\n\nA paragraph\nwith two lines.\n\n> quote\n";
    assert_eq!(format_lists(text, true), text);
}

#[test]
fn text_without_tables_is_unchanged() {
    let text = "# Title\n\nno pipes here\n\n```\ncode\n```\n";
    assert_eq!(format_tables(text), text);
}

#[test]
fn folding_ranges_are_ordered_and_multiline() {
    let text = "# A\ntext\n\n- item\n  more\n- two\n  more\n\n## B\n```\ncode\n```\n";
    let a = analyze(text, 1);
    let spans = folding_ranges(&a, &Rope::from_str(text), &FoldingConfig::default());
    assert!(!spans.is_empty());
    for w in spans.windows(2) {
        assert!(w[0].start_line < w[1].start_line);
    }
    for s in &spans {
        assert!(s.start_line < s.end_line);
    }
}

#[test]
fn at_most_five_fixes_keep_the_fragment() {
    let files: Vec<FileCandidate> = (0..8)
        .map(|i| FileCandidate {
            name: format!("note{i}.md"),
            from_root: Some(format!("note{i}.md")),
            from_doc: Some(format!("note{i}.md")),
        })
        .collect();
    let fixes = rank_fixes("note.md?x=1#top", "note.md", "note.md", &files);
    assert_eq!(fixes.len(), 5);
    for f in &fixes {
        assert!(f.replacement.ends_with("?x=1#top"), "{}", f.replacement);
    }
}

#[test]
fn blank_query_matches_everything() {
    assert_eq!(fuzzy_match("", "anything/at/all.md"), Some(0));
    assert_eq!(fuzzy_match("   ", "x"), Some(0));
}

#[test]
fn formatted_tables_are_aligned() {
    let text = "| a | b |\n|--|:-:|\n| long cell | x |\n| 1 |\n";
    let out = format_tables(text);
    let lens: Vec<usize> = out.lines().map(|l| l.chars().count()).collect();
    assert_eq!(lens.len(), 4, "{out}");
    assert!(lens.iter().all(|&l| l == lens[0]), "{out}");
}

#[test]
fn a_change_over_the_whole_document_replaces_it() {
    let text = "first\r\nsecond 😀\nthird";
    let end = char_to_position(&Rope::from_str(text), text.chars().count(), PositionEncoding::Utf16);
    let mut doc = Document::new(text, 4);
    doc.apply_change(
        Some(Range { start: Position { line: 0, character: 0 }, end }),
        "new body",
        PositionEncoding::Utf16,
    );
    assert_eq!(doc.text(), "new body");
}

#[test]
fn completion_replaces_exactly_the_typed_destination() {
    let text = "x\n  see [a](<./no";
    let cursor = Position { line: 1, character: 15 };
    let req = completion_request(&Rope::from_str(text), cursor, PositionEncoding::Utf16, &CompletionConfig::default(), true, true, false)
        .unwrap();
    assert_eq!(req.query, "./no");
    assert_eq!(req.replace_start, Position { line: 1, character: 11 });
}
