use ropey::Rope;
use sanemark::encoding::{
    byte_to_position, char_to_position, line_before, position_to_char, range_from_bytes, Position,
    PositionEncoding,
};
use sanemark::features::navigation::{cursor_byte, line_range};

fn char_at(text: &str, c: usize) -> char {
    text.chars().nth(c).unwrap()
}

#[test]
fn ascii_roundtrip() {
    let text = "hello\nworld\n";
    let rope = Rope::from_str(text);
    let pos = Position { line: 1, character: 3 };
    let c = position_to_char(&rope, pos, PositionEncoding::Utf16);
    assert_eq!(char_at(text, c), 'l'); // "wor|ld"
    assert_eq!(char_to_position(&rope, c, PositionEncoding::Utf16), pos);
}

#[test]
fn multibyte_utf16_vs_utf8() {
    // "😀" is one char, 2 UTF-16 code units, 4 UTF-8 bytes.
    let rope = Rope::from_str("a😀b");
    let b_char = 2;
    let p16 = char_to_position(&rope, b_char, PositionEncoding::Utf16);
    assert_eq!(p16, Position { line: 0, character: 3 });
    let p8 = char_to_position(&rope, b_char, PositionEncoding::Utf8);
    assert_eq!(p8, Position { line: 0, character: 5 });

    assert_eq!(position_to_char(&rope, p16, PositionEncoding::Utf16), b_char);
    assert_eq!(position_to_char(&rope, p8, PositionEncoding::Utf8), b_char);
}

#[test]
fn crlf_lines() {
    let text = "a\r\nb\r\n";
    let rope = Rope::from_str(text);
    let pos = Position { line: 1, character: 0 };
    let c = position_to_char(&rope, pos, PositionEncoding::Utf16);
    assert_eq!(char_at(text, c), 'b');
}

#[test]
fn out_of_range_is_clamped() {
    let text = "hi\n";
    let rope = Rope::from_str(text);
    let pos = Position { line: 99, character: 99 };
    let c = position_to_char(&rope, pos, PositionEncoding::Utf16);
    assert_eq!(c, text.chars().count());
}

#[test]
fn byte_offsets_map_to_positions() {
    let text = "é\nab";
    let rope = Rope::from_str(text);
    // 'é' is two bytes; byte 3 is 'a' on line 1.
    assert_eq!(
        byte_to_position(&rope, 3, PositionEncoding::Utf16),
        Position { line: 1, character: 0 }
    );
    // Byte 1 lies inside 'é': the position of 'é' itself.
    assert_eq!(
        byte_to_position(&rope, 1, PositionEncoding::Utf8),
        Position { line: 0, character: 0 }
    );
    // Past the end: the end of the text.
    assert_eq!(
        byte_to_position(&rope, 99, PositionEncoding::Utf16),
        Position { line: 1, character: 2 }
    );
    assert_eq!(cursor_byte(&rope, Position { line: 1, character: 1 }, PositionEncoding::Utf16), 4);
    let r = range_from_bytes(&rope, 0, 2, PositionEncoding::Utf8);
    assert_eq!(r.start, Position { line: 0, character: 0 });
    assert_eq!(r.end, Position { line: 0, character: 2 });
}

#[test]
fn column_past_line_end_stops_after_the_line_break() {
    let text = "ab\ncd";
    let rope = Rope::from_str(text);
    let c = position_to_char(&rope, Position { line: 0, character: 10 }, PositionEncoding::Utf16);
    assert_eq!(c, 3);
}

#[test]
fn column_inside_a_character_names_that_character() {
    // "😀" takes UTF-16 columns 1 and 2 and UTF-8 columns 1 to 4.
    let rope = Rope::from_str("a😀b");
    let at = |col: u32, enc| position_to_char(&rope, Position { line: 0, character: col }, enc);
    assert_eq!(at(2, PositionEncoding::Utf16), 1);
    assert_eq!(at(3, PositionEncoding::Utf16), 2);
    assert_eq!(at(3, PositionEncoding::Utf8), 1);
    assert_eq!(at(5, PositionEncoding::Utf8), 2);
}

#[test]
fn line_text_before_the_cursor() {
    let rope = Rope::from_str("one\r\ntwo three\n");
    assert_eq!(line_before(&rope, 9), "two ");
    assert_eq!(line_before(&rope, 3), "one");
    assert_eq!(line_before(&rope, 99), "");
}

#[test]
fn line_ranges_clamp_to_the_last_line() {
    let rope = Rope::from_str("a\nb\nc");
    let r = line_range(&rope, 1, PositionEncoding::Utf16);
    assert_eq!(r.start, Position { line: 1, character: 0 });
    assert_eq!(r.end, r.start);
    assert_eq!(line_range(&rope, 40, PositionEncoding::Utf8).start, Position { line: 2, character: 0 });
}
