use sanemark::document::Document;
use sanemark::encoding::{Position, PositionEncoding, Range};

fn range(l1: u32, c1: u32, l2: u32, c2: u32) -> Range {
    Range {
        start: Position { line: l1, character: c1 },
        end: Position { line: l2, character: c2 },
    }
}

#[test]
fn incremental_insert() {
    let mut doc = Document::new("hello world", 1);
    doc.apply_change(Some(range(0, 5, 0, 5)), ",", PositionEncoding::Utf16);
    assert_eq!(doc.text(), "hello, world");
}

#[test]
fn incremental_replace() {
    let mut doc = Document::new("hello world", 1);
    doc.apply_change(Some(range(0, 6, 0, 11)), "there", PositionEncoding::Utf16);
    assert_eq!(doc.text(), "hello there");
}

#[test]
fn full_replace() {
    let mut doc = Document::new("old", 1);
    doc.apply_change(None, "brand new", PositionEncoding::Utf16);
    assert_eq!(doc.text(), "brand new");
}

#[test]
fn multiline_delete() {
    let mut doc = Document::new("a\nb\nc\n", 1);
    doc.apply_change(Some(range(0, 1, 2, 0)), "", PositionEncoding::Utf16);
    assert_eq!(doc.text(), "ac\n");
}

#[test]
fn reversed_range_inserts_at_start() {
    let mut doc = Document::new("abc", 3);
    doc.apply_change(Some(range(0, 2, 0, 1)), "X", PositionEncoding::Utf16);
    assert_eq!(doc.text(), "abXc");
    assert_eq!(doc.version, 3);
}

#[test]
fn utf16_columns_count_surrogate_pairs() {
    let mut doc = Document::new("😀x", 1);
    doc.apply_change(Some(range(0, 2, 0, 3)), "y", PositionEncoding::Utf16);
    assert_eq!(doc.text(), "😀y");
}
