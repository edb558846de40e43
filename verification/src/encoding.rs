//! Positions in a document held in a rope: conversions between byte
//! offsets, character indices and editor positions (zero-based line, and
//! column counted in UTF-8 bytes or UTF-16 code units). Lines end at LF,
//! CRLF, lone CR, VT, FF, NEL, LS and PS, as the rope counts them.
//!
//! Every conversion takes any input: a position past the end of its line or
//! of the document is clamped to it, as editors send such positions during
//! rapid edits.

use vstd::prelude::*;
use ropey::Rope;
use crate::features::folding::breaks_before;
use crate::offsets::{char_floor, char_width, utf8_len};
use crate::rope::{
    rope_byte_to_char, rope_char_to_byte, rope_char_to_line, rope_char_to_utf16_cu,
    rope_len_bytes, rope_len_chars, rope_len_lines, rope_line_to_char, rope_slice_string, rope_text,
    rope_utf16_cu_to_char,
};

verus! {

/// How editor columns are counted.
#[derive(Debug, Clone, Copy, PartialEq, Eq, Structural)]
pub enum PositionEncoding {
    Utf8,
    Utf16,
}

/// An editor position: zero-based line and column.
#[derive(Debug, Clone, Copy, PartialEq, Eq, Structural)]
pub struct Position {
    pub line: u32,
    pub character: u32,
}

/// A span between two positions.
#[derive(Debug, Clone, Copy, PartialEq, Eq, Structural)]
pub struct Range {
    pub start: Position,
    pub end: Position,
}

/// The width of `c` in columns of encoding `enc`.
pub open spec fn unit_width(c: char, enc: PositionEncoding) -> nat {
    match enc {
        PositionEncoding::Utf8 => char_width(c),
        PositionEncoding::Utf16 => if (c as u32) > 0xffff {
            2
        } else {
            1
        },
    }
}

/// The width of `s` in columns of encoding `enc`.
pub open spec fn units(s: Seq<char>, enc: PositionEncoding) -> nat
    decreases s.len(),
{
    if s.len() == 0 {
        0
    } else {
        units(s.drop_last(), enc) + unit_width(s.last(), enc)
    }
}

/// The first position from `p` before which there are at least `k` line
/// breaks (the end of the text when there is none).
pub open spec fn start_after_breaks(s: Seq<char>, k: nat, p: int) -> int
    decreases s.len() - p,
{
    if p >= s.len() || breaks_before(s, p) >= k {
        if p > s.len() {
            s.len() as int
        } else {
            p
        }
    } else {
        start_after_breaks(s, k, p + 1)
    }
}

/// The character index where line `line` starts.
pub open spec fn line_start_char(s: Seq<char>, line: nat) -> int {
    start_after_breaks(s, line, 0)
}

/// The number of lines (one more than the number of line breaks).
pub open spec fn line_count(s: Seq<char>) -> nat {
    breaks_before(s, s.len() as int) + 1
}

/// The editor position of character index `c` (clamped to the text).
pub open spec fn position_of_char(s: Seq<char>, c: int, enc: PositionEncoding) -> (nat, nat) {
    let c2 = if c < s.len() {
        c
    } else {
        s.len() as int
    };
    let line = breaks_before(s, c2);
    let start = line_start_char(s, line);
    (line, units(s.subrange(start, c2), enc))
}

/// The number of characters from `p` whose columns fit in `budget`.
pub open spec fn chars_within(s: Seq<char>, p: int, e: int, budget: int, enc: PositionEncoding) -> int
    decreases e - p,
{
    if p >= e || p < 0 || p >= s.len() || unit_width(s[p], enc) > budget {
        p
    } else {
        chars_within(s, p + 1, e, budget - unit_width(s[p], enc), enc)
    }
}

/// The character index of an editor position: past the last line, the end
/// of the text; otherwise the first character of the line whose column range
/// holds the position's column, clamped to the end of the line (its line
/// break included).
pub open spec fn char_of_position(s: Seq<char>, line: nat, col: nat, enc: PositionEncoding) -> int {
    if line >= line_count(s) {
        s.len() as int
    } else {
        let start = line_start_char(s, line);
        let end = line_start_char(s, line + 1);
        chars_within(s, start, end, col as int, enc)
    }
}

/// The characters from the start of the line holding character `c` (clamped
/// to the text) up to `c`.
pub open spec fn line_prefix(s: Seq<char>, c: int) -> Seq<char> {
    let c2 = if c < s.len() {
        c
    } else {
        s.len() as int
    };
    s.subrange(line_start_char(s, breaks_before(s, c2)), c2)
}

/// The number of leading characters of `s` whose columns end at or before
/// column `u`: the character index of the boundary at or before `u`.
pub open spec fn unit_floor(s: Seq<char>, u: int, enc: PositionEncoding) -> nat
    decreases s.len(),
{
    if s.len() == 0 {
        0
    } else if units(s, enc) <= u {
        s.len()
    } else {
        unit_floor(s.drop_last(), u, enc)
    }
}

/// The character index of an editor position (see [`char_of_position`]):
/// the column is taken within the line, line break included, and a column
/// inside a character names that character.
pub fn position_to_char(rope: &Rope, pos: Position, enc: PositionEncoding) -> (r: usize)
    ensures
        r == char_of_position(rope_text(*rope), pos.line as nat, pos.character as nat, enc),
{
    let ghost s = rope_text(*rope);
    let line = pos.line as usize;
    if line >= rope_len_lines(rope) {
        return rope_len_chars(rope);
    }
    let start = rope_line_to_char(rope, line);
    let end = rope_line_to_char(rope, line + 1);
    let col = pos.character as usize;
    proof {
        lemma_start_after_breaks_le(s, line as nat, 0);
        lemma_start_after_breaks_le(s, (line + 1) as nat, 0);
        lemma_start_after_breaks_mono(s, line as nat, (line + 1) as nat, 0);
        lemma_target_floor(s, start as int, end as int, col as int, enc);
        lemma_units_take_mono(s, start as int, end as int, enc);
        lemma_units_take_mono(s, end as int, s.len() as int, enc);
        assert(s.take(s.len() as int) =~= s);
    }
    match enc {
        PositionEncoding::Utf8 => {
            let lo = rope_char_to_byte(rope, start);
            let hi = rope_char_to_byte(rope, end);
            proof {
                lemma_units_utf8(s.take(start as int));
                lemma_units_utf8(s.take(end as int));
                lemma_units_utf8(s);
            }
            let target = if hi - lo < col {
                hi
            } else {
                lo + col
            };
            proof {
                lemma_char_floor_is_unit_floor(s, target as int);
            }
            rope_byte_to_char(rope, target)
        },
        PositionEncoding::Utf16 => {
            let lo = rope_char_to_utf16_cu(rope, start);
            let hi = rope_char_to_utf16_cu(rope, end);
            let target = if hi - lo < col {
                hi
            } else {
                lo + col
            };
            rope_utf16_cu_to_char(rope, target)
        },
    }
}

/// The editor position of character index `c` (see [`position_of_char`]);
/// both parts are truncated to 32 bits.
pub fn char_to_position(rope: &Rope, c: usize, enc: PositionEncoding) -> (r: Position)
    ensures
        r.line == (position_of_char(rope_text(*rope), c as int, enc).0 as u32),
        r.character == (position_of_char(rope_text(*rope), c as int, enc).1 as u32),
{
    let ghost s = rope_text(*rope);
    let n = rope_len_chars(rope);
    let c2 = if c < n {
        c
    } else {
        n
    };
    let line = rope_char_to_line(rope, c2);
    proof {
        lemma_breaks_monotone(s, c2 as int, s.len() as int);
        lemma_line_start_before(s, c2 as int);
    }
    let start = rope_line_to_char(rope, line);
    proof {
        lemma_units_take_split(s, start as int, c2 as int, enc);
    }
    let col = match enc {
        PositionEncoding::Utf8 => {
            proof {
                lemma_units_utf8(s.take(start as int));
                lemma_units_utf8(s.take(c2 as int));
            }
            rope_char_to_byte(rope, c2) - rope_char_to_byte(rope, start)
        },
        PositionEncoding::Utf16 => rope_char_to_utf16_cu(rope, c2) - rope_char_to_utf16_cu(
            rope,
            start,
        ),
    };
    Position { line: line as u32, character: col as u32 }
}

/// The editor position of byte offset `b`, clamped to the text: the
/// position of the character holding that byte.
pub fn byte_to_position(rope: &Rope, b: usize, enc: PositionEncoding) -> (r: Position)
    ensures
        r.line == (position_of_char(
            rope_text(*rope),
            char_floor(rope_text(*rope), b as int) as int,
            enc,
        ).0 as u32),
        r.character == (position_of_char(
            rope_text(*rope),
            char_floor(rope_text(*rope), b as int) as int,
            enc,
        ).1 as u32),
{
    let n = rope_len_bytes(rope);
    let b2 = if b < n {
        b
    } else {
        n
    };
    let c = rope_byte_to_char(rope, b2);
    char_to_position(rope, c, enc)
}

/// The editor range of the byte span `[start, end)`.
pub fn range_from_bytes(rope: &Rope, start: usize, end: usize, enc: PositionEncoding) -> (r: Range)
    ensures
        r.start == ({
            let p = position_of_char(
                rope_text(*rope),
                char_floor(rope_text(*rope), start as int) as int,
                enc,
            );
            Position { line: p.0 as u32, character: p.1 as u32 }
        }),
        r.end == ({
            let p = position_of_char(
                rope_text(*rope),
                char_floor(rope_text(*rope), end as int) as int,
                enc,
            );
            Position { line: p.0 as u32, character: p.1 as u32 }
        }),
{
    Range { start: byte_to_position(rope, start, enc), end: byte_to_position(rope, end, enc) }
}

/// The text of the line holding character `c` (clamped to the text), up to
/// `c` (see [`line_prefix`]).
pub fn line_before(rope: &Rope, c: usize) -> (r: String)
    ensures
        r@ == line_prefix(rope_text(*rope), c as int),
{
    let ghost s = rope_text(*rope);
    let n = rope_len_chars(rope);
    let c2 = if c < n {
        c
    } else {
        n
    };
    let line = rope_char_to_line(rope, c2);
    proof {
        lemma_breaks_monotone(s, c2 as int, s.len() as int);
        lemma_line_start_before(s, c2 as int);
    }
    let start = rope_line_to_char(rope, line);
    rope_slice_string(rope, start, c2)
}

/// The start of the line holding character `c` is not after `c`.
proof fn lemma_line_start_before(s: Seq<char>, c: int)
    requires
        0 <= c <= s.len(),
    ensures
        line_start_char(s, breaks_before(s, c)) <= c,
{
    lemma_start_after_breaks_bound(s, breaks_before(s, c), 0, c);
}

proof fn lemma_start_after_breaks_bound(s: Seq<char>, k: nat, p: int, c: int)
    requires
        0 <= p <= c <= s.len(),
        breaks_before(s, c) >= k,
    ensures
        start_after_breaks(s, k, p) <= c,
    decreases c - p,
{
    if p < c && breaks_before(s, p) < k {
        lemma_start_after_breaks_bound(s, k, p + 1, c);
    }
}

/// There are no more line breaks than characters.
proof fn lemma_breaks_bound(s: Seq<char>, p: int)
    ensures
        breaks_before(s, p) <= if p < 0 {
            0
        } else {
            p
        },
    decreases p,
{
    if p > 0 {
        lemma_breaks_bound(s, p - 1);
    }
}

/// A line past the number of characters starts at the end of the text.
proof fn lemma_no_such_line(s: Seq<char>, k: nat, p: int)
    requires
        k > s.len(),
        0 <= p,
    ensures
        start_after_breaks(s, k, p) == s.len(),
    decreases s.len() - p,
{
    lemma_breaks_bound(s, p);
    if p < s.len() {
        lemma_no_such_line(s, k, p + 1);
    }
}

/// Turning a character index into an editor position and that position back
/// into a character index gives the index again, for every index from the
/// start to the end of the text and in both encodings.
pub proof fn lemma_position_roundtrip(s: Seq<char>, c: int, enc: PositionEncoding)
    requires
        0 <= c <= s.len(),
    ensures
        ({
            let p = position_of_char(s, c, enc);
            char_of_position(s, p.0, p.1, enc) == c
        }),
{
    let line = breaks_before(s, c);
    lemma_breaks_monotone(s, c, s.len() as int);
    assert(line < line_count(s));
    let start = line_start_char(s, line);
    lemma_line_start_before(s, c);
    lemma_start_after_breaks_ge(s, line, 0);
    let end = line_start_char(s, line + 1);
    lemma_start_after_breaks_reaches(s, line + 1, 0, c);
    assert(start <= c <= end);
    lemma_walk_to(s, start, c, end, enc);
}

/// Line breaks only accumulate.
proof fn lemma_breaks_monotone(s: Seq<char>, a: int, b: int)
    requires
        a <= b,
    ensures
        breaks_before(s, a) <= breaks_before(s, b),
    decreases b - a,
{
    if a < b {
        lemma_breaks_monotone(s, a, b - 1);
    }
}

/// The line start searched for from `p` is not before `p`.
proof fn lemma_start_after_breaks_ge(s: Seq<char>, k: nat, p: int)
    requires
        0 <= p <= s.len(),
    ensures
        start_after_breaks(s, k, p) >= p,
    decreases s.len() - p,
{
    if p < s.len() && breaks_before(s, p) < k {
        lemma_start_after_breaks_ge(s, k, p + 1);
    }
}

/// A line that needs more breaks than lie before `c` starts at `c` or later.
proof fn lemma_start_after_breaks_reaches(s: Seq<char>, k: nat, p: int, c: int)
    requires
        0 <= p <= c <= s.len(),
        breaks_before(s, c) < k,
    ensures
        start_after_breaks(s, k, p) >= c,
    decreases c - p,
{
    if p == c {
        lemma_start_after_breaks_ge(s, k, p);
    } else {
        lemma_breaks_monotone(s, p, c);
        lemma_start_after_breaks_reaches(s, k, p + 1, c);
    }
}

/// The columns of a non-empty text: its first character's, then the rest.
proof fn lemma_units_front(t: Seq<char>, enc: PositionEncoding)
    requires
        t.len() > 0,
    ensures
        units(t, enc) == unit_width(t[0], enc) + units(t.drop_first(), enc),
    decreases t.len(),
{
    if t.len() > 1 {
        lemma_units_front(t.drop_last(), enc);
        assert(t.drop_last().drop_first() =~= t.drop_first().drop_last());
    } else {
        assert(t.drop_first() =~= Seq::<char>::empty());
        assert(t.drop_last() =~= Seq::<char>::empty());
    }
}

/// Walking from `p` with the columns of the characters up to `c` as budget
/// stops exactly at `c`.
proof fn lemma_walk_to(s: Seq<char>, p: int, c: int, e: int, enc: PositionEncoding)
    requires
        0 <= p <= c <= e,
        c <= s.len(),
    ensures
        chars_within(s, p, e, units(s.subrange(p, c), enc) as int, enc) == c,
    decreases c - p,
{
    if p == c {
        assert(s.subrange(p, c) =~= Seq::<char>::empty());
        if p < e && p < s.len() {
            assert(unit_width(s[p], enc) >= 1);
        }
    } else {
        let t = s.subrange(p, c);
        lemma_units_front(t, enc);
        assert(t.drop_first() =~= s.subrange(p + 1, c));
        lemma_walk_to(s, p + 1, c, e, enc);
    }
}

/// An editor position names a character index within the text, its end
/// included.
pub(crate) proof fn lemma_char_of_position_in_text(s: Seq<char>, line: nat, col: nat, enc: PositionEncoding)
    ensures
        0 <= char_of_position(s, line, col, enc) <= s.len(),
{
    if line < line_count(s) {
        lemma_start_after_breaks_ge(s, line, 0);
        lemma_start_after_breaks_le(s, line, 0);
        let start = line_start_char(s, line);
        let end = line_start_char(s, line + 1);
        lemma_chars_within_bounds(s, start, end, col as int, enc);
    }
}

proof fn lemma_start_after_breaks_le(s: Seq<char>, k: nat, p: int)
    requires
        0 <= p <= s.len(),
    ensures
        start_after_breaks(s, k, p) <= s.len(),
    decreases s.len() - p,
{
    if p < s.len() && breaks_before(s, p) < k {
        lemma_start_after_breaks_le(s, k, p + 1);
    }
}

proof fn lemma_chars_within_bounds(s: Seq<char>, p: int, e: int, budget: int, enc: PositionEncoding)
    requires
        0 <= p <= s.len(),
    ensures
        p <= chars_within(s, p, e, budget, enc) <= s.len(),
    decreases e - p,
{
    if !(p >= e || p < 0 || p >= s.len() || unit_width(s[p], enc) > budget) {
        lemma_chars_within_bounds(s, p + 1, e, budget - unit_width(s[p], enc), enc);
    }
}

/// The text of the line up to `c` is what lies just before `c`.
pub(crate) proof fn lemma_line_prefix_before(s: Seq<char>, c: int)
    requires
        0 <= c <= s.len(),
    ensures
        line_prefix(s, c).len() <= c,
        s.subrange(c - line_prefix(s, c).len(), c) == line_prefix(s, c),
{
    lemma_line_start_before(s, c);
    lemma_start_after_breaks_ge(s, breaks_before(s, c), 0);
}

/// Later lines start no earlier.
proof fn lemma_start_after_breaks_mono(s: Seq<char>, k1: nat, k2: nat, p: int)
    requires
        k1 <= k2,
        0 <= p <= s.len(),
    ensures
        start_after_breaks(s, k1, p) <= start_after_breaks(s, k2, p),
    decreases s.len() - p,
{
    if p < s.len() && breaks_before(s, p) < k2 {
        lemma_start_after_breaks_ge(s, k2, p + 1);
        if breaks_before(s, p) < k1 {
            lemma_start_after_breaks_mono(s, k1, k2, p + 1);
        }
    }
}

/// The columns of a concatenation are the sum of the columns of its parts.
proof fn lemma_units_concat(a: Seq<char>, b: Seq<char>, enc: PositionEncoding)
    ensures
        units(a + b, enc) == units(a, enc) + units(b, enc),
    decreases b.len(),
{
    if b.len() == 0 {
        assert(a + b =~= a);
    } else {
        assert((a + b).drop_last() =~= a + b.drop_last());
        lemma_units_concat(a, b.drop_last(), enc);
    }
}

/// The columns of the first `c` characters are those of the first `a` and
/// those between `a` and `c`.
proof fn lemma_units_take_split(s: Seq<char>, a: int, c: int, enc: PositionEncoding)
    requires
        0 <= a <= c <= s.len(),
    ensures
        units(s.take(c), enc) == units(s.take(a), enc) + units(s.subrange(a, c), enc),
{
    assert(s.take(c) =~= s.take(a) + s.subrange(a, c));
    lemma_units_concat(s.take(a), s.subrange(a, c), enc);
}

/// Columns counted in UTF-8 are the UTF-8 length.
proof fn lemma_units_utf8(s: Seq<char>)
    ensures
        units(s, PositionEncoding::Utf8) == utf8_len(s),
    decreases s.len(),
{
    if s.len() > 0 {
        let one = seq![s.last()];
        assert(s =~= s.drop_last() + one);
        crate::offsets::lemma_utf8_len_concat(s.drop_last(), one);
        assert(one.drop_first() =~= Seq::<char>::empty());
        assert(utf8_len(one) == char_width(s.last()) + utf8_len(Seq::<char>::empty()));
        lemma_units_utf8(s.drop_last());
        assert(utf8_len(s) == utf8_len(s.drop_last() + one));
    }
}

/// Extending a prefix by one character adds that character's columns.
proof fn lemma_units_take_step(s: Seq<char>, p: int, enc: PositionEncoding)
    requires
        0 <= p < s.len(),
    ensures
        units(s.take(p + 1), enc) == units(s.take(p), enc) + unit_width(s[p], enc),
{
    assert(s.take(p + 1).drop_last() =~= s.take(p));
}

/// Prefix columns grow strictly with the prefix.
proof fn lemma_units_take_mono(s: Seq<char>, i: int, j: int, enc: PositionEncoding)
    requires
        0 <= i <= j <= s.len(),
    ensures
        units(s.take(i), enc) + (j - i) <= units(s.take(j), enc),
    decreases j - i,
{
    if i < j {
        lemma_units_take_step(s, j - 1, enc);
        lemma_units_take_mono(s, i, j - 1, enc);
    }
}

/// `unit_floor` is the longest prefix whose columns fit in `u`.
proof fn lemma_unit_floor(s: Seq<char>, u: int, enc: PositionEncoding)
    requires
        u >= 0,
    ensures
        unit_floor(s, u, enc) <= s.len(),
        units(s.take(unit_floor(s, u, enc) as int), enc) <= u,
        unit_floor(s, u, enc) < s.len() ==> units(s.take(unit_floor(s, u, enc) + 1int), enc) > u,
    decreases s.len(),
{
    if s.len() == 0 {
        assert(s.take(0) =~= Seq::<char>::empty());
    } else if units(s, enc) <= u {
        assert(s.take(s.len() as int) =~= s);
    } else {
        let d = s.drop_last();
        lemma_unit_floor(d, u, enc);
        let f = unit_floor(d, u, enc) as int;
        assert(d.take(f) =~= s.take(f));
        if f + 1 < s.len() {
            assert(d.take(f + 1) =~= s.take(f + 1));
        } else {
            assert(s.take(f + 1) =~= s);
        }
    }
}

/// A prefix that fits in `u` columns and cannot grow by a character
/// without passing `u` is the floor of `u`.
proof fn lemma_floor_unique(s: Seq<char>, u: int, p: int, enc: PositionEncoding)
    requires
        u >= 0,
        0 <= p <= s.len(),
        units(s.take(p), enc) <= u,
        p < s.len() ==> units(s.take(p + 1), enc) > u,
    ensures
        unit_floor(s, u, enc) == p,
{
    lemma_unit_floor(s, u, enc);
    let f = unit_floor(s, u, enc) as int;
    if f < p {
        lemma_units_take_mono(s, f + 1, p, enc);
    } else if p < f {
        lemma_units_take_mono(s, p + 1, f, enc);
    }
}

/// The UTF-8 floor is the floor of UTF-8 columns.
proof fn lemma_char_floor_is_unit_floor(s: Seq<char>, u: int)
    ensures
        char_floor(s, u) == unit_floor(s, u, PositionEncoding::Utf8),
    decreases s.len(),
{
    if s.len() > 0 {
        lemma_units_utf8(s);
        lemma_char_floor_is_unit_floor(s.drop_last(), u);
    }
}

/// Walking from `p` with `budget` columns stops at a character boundary
/// within `[p, e]` whose columns fit, and that cannot grow before `e`
/// without passing the budget.
proof fn lemma_chars_within_floor(s: Seq<char>, p: int, e: int, budget: int, enc: PositionEncoding)
    requires
        0 <= p <= e <= s.len(),
        budget >= 0,
    ensures
        p <= chars_within(s, p, e, budget, enc) <= e,
        units(s.take(chars_within(s, p, e, budget, enc)), enc) <= units(s.take(p), enc) + budget,
        chars_within(s, p, e, budget, enc) < e ==> units(
            s.take(chars_within(s, p, e, budget, enc) + 1),
            enc,
        ) > units(s.take(p), enc) + budget,
    decreases e - p,
{
    if p < e {
        lemma_units_take_step(s, p, enc);
        if unit_width(s[p], enc) <= budget {
            lemma_chars_within_floor(s, p + 1, e, budget - unit_width(s[p], enc), enc);
        }
    }
}

/// The floor of a column within line `[start, end)` (clamped to the line's
/// end) is the character the walk over the line stops at.
proof fn lemma_target_floor(s: Seq<char>, start: int, end: int, col: int, enc: PositionEncoding)
    requires
        0 <= start <= end <= s.len(),
        col >= 0,
    ensures
        ({
            let lo = units(s.take(start), enc) as int;
            let hi = units(s.take(end), enc) as int;
            let t = if hi - lo < col {
                hi
            } else {
                lo + col
            };
            unit_floor(s, t, enc) == chars_within(s, start, end, col, enc)
        }),
{
    let lo = units(s.take(start), enc) as int;
    let hi = units(s.take(end), enc) as int;
    let t = if hi - lo < col {
        hi
    } else {
        lo + col
    };
    lemma_units_take_mono(s, start, end, enc);
    lemma_chars_within_floor(s, start, end, col, enc);
    let q = chars_within(s, start, end, col, enc);
    lemma_units_take_mono(s, q, end, enc);
    if q < s.len() && q == end {
        lemma_units_take_step(s, q, enc);
    }
    lemma_floor_unique(s, t, q, enc);
}

/// From `p`, where at most `k` line breaks lie behind, the start of the
/// line after `k` breaks has exactly `k` behind it.
proof fn lemma_breaks_at_line_start(s: Seq<char>, k: nat, p: int)
    requires
        0 <= p <= s.len(),
        breaks_before(s, p) <= k,
        k <= breaks_before(s, s.len() as int),
    ensures
        breaks_before(s, start_after_breaks(s, k, p)) == k,
    decreases s.len() - p,
{
    if p < s.len() && breaks_before(s, p) < k {
        lemma_breaks_at_line_start(s, k, p + 1);
    }
}

/// The start of an existing line is a character boundary at column 0 of
/// that line: its byte offset names it again, and its editor position is
/// the line and column 0.
pub(crate) proof fn lemma_line_start_position(s: Seq<char>, l: nat, enc: PositionEncoding)
    requires
        l < line_count(s),
    ensures
        char_floor(s, utf8_len(s.take(line_start_char(s, l))) as int) == line_start_char(s, l),
        position_of_char(s, line_start_char(s, l), enc) == (l, 0nat),
{
    let p = line_start_char(s, l);
    lemma_start_after_breaks_le(s, l, 0);
    lemma_start_after_breaks_ge(s, l, 0);
    lemma_breaks_at_line_start(s, l, 0);
    let u = utf8_len(s.take(p)) as int;
    lemma_units_utf8(s.take(p));
    if p < s.len() {
        lemma_units_take_step(s, p, PositionEncoding::Utf8);
        lemma_units_utf8(s.take(p + 1));
    }
    lemma_floor_unique(s, u, p, PositionEncoding::Utf8);
    lemma_char_floor_is_unit_floor(s, u);
    assert(s.subrange(p, p) =~= Seq::<char>::empty());
}

} // verus!
