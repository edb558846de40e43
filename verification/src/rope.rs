//! The document text held in a `ropey::Rope`, and the rope operations the
//! position conversions and incremental edits use. Each states what ropey's
//! documentation says of it, over the characters the rope holds; lines end
//! where ropey ends them (LF, CRLF, lone CR, VT, FF, NEL, LS and PS).

use vstd::prelude::*;
use ropey::Rope;
use crate::encoding::{line_count, line_start_char, unit_floor, units, PositionEncoding};
use crate::features::folding::breaks_before;
use crate::offsets::{char_floor, utf8_len};

verus! {

/// `ropey::Rope`, a text buffer.
#[verifier::external_type_specification]
#[verifier::external_body]
pub struct ExRope(Rope);

/// The characters a rope holds.
pub uninterp spec fn rope_text(r: Rope) -> Seq<char>;

/// `Rope::from_str`. Claimed: the rope holds the characters of `s`.
#[verifier::external_body]
pub(crate) fn rope_from_str(s: &str) -> (r: Rope)
    ensures
        rope_text(r) == s@,
{
    Rope::from_str(s)
}

/// `Rope::len_chars`. Claimed: the number of characters held.
#[verifier::external_body]
pub(crate) fn rope_len_chars(r: &Rope) -> (n: usize)
    ensures
        n == rope_text(*r).len(),
{
    r.len_chars()
}

/// `Rope::len_bytes`. Claimed: the UTF-8 length of the characters held.
#[verifier::external_body]
pub(crate) fn rope_len_bytes(r: &Rope) -> (n: usize)
    ensures
        n == utf8_len(rope_text(*r)),
{
    r.len_bytes()
}

/// `Rope::len_lines`. Claimed: one more than the number of line breaks.
#[verifier::external_body]
pub(crate) fn rope_len_lines(r: &Rope) -> (n: usize)
    ensures
        n == line_count(rope_text(*r)),
{
    r.len_lines()
}

/// `Rope::char_to_line`. Claimed: the number of line breaks before
/// character `c`.
#[verifier::external_body]
pub(crate) fn rope_char_to_line(r: &Rope, c: usize) -> (l: usize)
    requires
        c <= rope_text(*r).len(),
    ensures
        l == breaks_before(rope_text(*r), c as int),
{
    r.char_to_line(c)
}

/// `Rope::line_to_char`. Claimed: the character index where line `l`
/// starts (the end of the text for one past the last line).
#[verifier::external_body]
pub(crate) fn rope_line_to_char(r: &Rope, l: usize) -> (c: usize)
    requires
        l <= line_count(rope_text(*r)),
    ensures
        c == line_start_char(rope_text(*r), l as nat),
{
    r.line_to_char(l)
}

/// `Rope::line_to_byte`. Claimed: the UTF-8 length of the characters
/// before line `l` starts.
#[verifier::external_body]
pub(crate) fn rope_line_to_byte(r: &Rope, l: usize) -> (b: usize)
    requires
        l <= line_count(rope_text(*r)),
    ensures
        b == utf8_len(rope_text(*r).take(line_start_char(rope_text(*r), l as nat))),
{
    r.line_to_byte(l)
}

/// `Rope::char_to_byte`. Claimed: the UTF-8 length of the first `c`
/// characters.
#[verifier::external_body]
pub(crate) fn rope_char_to_byte(r: &Rope, c: usize) -> (b: usize)
    requires
        c <= rope_text(*r).len(),
    ensures
        b == utf8_len(rope_text(*r).take(c as int)),
{
    r.char_to_byte(c)
}

/// `Rope::byte_to_char`. Claimed: the character holding byte `b` (the
/// end for one past the last byte).
#[verifier::external_body]
pub(crate) fn rope_byte_to_char(r: &Rope, b: usize) -> (c: usize)
    requires
        b <= utf8_len(rope_text(*r)),
    ensures
        c == char_floor(rope_text(*r), b as int),
{
    r.byte_to_char(b)
}

/// `Rope::char_to_utf16_cu`. Claimed: the UTF-16 length of the first `c`
/// characters.
#[verifier::external_body]
pub(crate) fn rope_char_to_utf16_cu(r: &Rope, c: usize) -> (u: usize)
    requires
        c <= rope_text(*r).len(),
    ensures
        u == units(rope_text(*r).take(c as int), PositionEncoding::Utf16),
{
    r.char_to_utf16_cu(c)
}

/// `Rope::utf16_cu_to_char`. Claimed: the character holding UTF-16 code
/// unit `u` (the end for one past the last unit).
#[verifier::external_body]
pub(crate) fn rope_utf16_cu_to_char(r: &Rope, u: usize) -> (c: usize)
    requires
        u <= units(rope_text(*r), PositionEncoding::Utf16),
    ensures
        c == unit_floor(rope_text(*r), u as int, PositionEncoding::Utf16),
{
    r.utf16_cu_to_char(u)
}

/// The rope's text as a `String` (its `Display`). Claimed: the characters
/// held.
#[verifier::external_body]
pub(crate) fn rope_to_string(r: &Rope) -> (s: String)
    ensures
        s@ == rope_text(*r),
{
    r.to_string()
}

/// `Rope::remove` of the characters `[a, b)`. Claimed: those characters
/// are gone and the rest keep their order.
#[verifier::external_body]
pub(crate) fn rope_remove(r: &mut Rope, a: usize, b: usize)
    requires
        a <= b <= rope_text(*old(r)).len(),
    ensures
        rope_text(*final(r)) == rope_text(*old(r)).take(a as int) + rope_text(*old(r)).skip(b as int),
{
    r.remove(a..b)
}

/// `Rope::insert` of `s` at character `a`. Claimed: the characters of `s`
/// now stand at `a`, the rest around them.
#[verifier::external_body]
pub(crate) fn rope_insert(r: &mut Rope, a: usize, s: &str)
    requires
        a <= rope_text(*old(r)).len(),
    ensures
        rope_text(*final(r)) == rope_text(*old(r)).take(a as int) + s@ + rope_text(*old(r)).skip(a as int),
{
    r.insert(a, s)
}

/// `Rope::slice` of the characters `[a, b)`, as a string. Claimed: those
/// characters.
#[verifier::external_body]
pub(crate) fn rope_slice_string(r: &Rope, a: usize, b: usize) -> (s: String)
    requires
        a <= b <= rope_text(*r).len(),
    ensures
        s@ == rope_text(*r).subrange(a as int, b as int),
{
    r.slice(a..b).to_string()
}

} // verus!
