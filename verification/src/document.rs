//! An open document and the edits an editor sends for it.

use vstd::prelude::*;
use ropey::Rope;
use crate::encoding::{char_of_position, position_of_char, position_to_char, Position, PositionEncoding, Range};
use crate::rope::{rope_from_str, rope_insert, rope_len_chars, rope_remove, rope_text, rope_to_string};

verus! {

/// An open document: its text, held in a rope for cheap edits, and the
/// last version the editor reported.
pub struct Document {
    pub rope: Rope,
    pub version: i32,
}

/// The text after replacing the span between two positions of `s` by `new`:
/// both ends clamped to the text, the end not before the start.
pub open spec fn replaced(s: Seq<char>, range: Range, new: Seq<char>, enc: PositionEncoding) -> Seq<
    char,
> {
    let a0 = char_of_position(s, range.start.line as nat, range.start.character as nat, enc);
    let a = if a0 < s.len() {
        a0
    } else {
        s.len() as int
    };
    let b0 = char_of_position(s, range.end.line as nat, range.end.character as nat, enc);
    let b1 = if b0 < s.len() {
        b0
    } else {
        s.len() as int
    };
    let b = if b1 < a {
        a
    } else {
        b1
    };
    s.subrange(0, a) + new + s.subrange(b, s.len() as int)
}

impl Document {
    /// A document holding `text` at `version`.
    pub fn new(text: &str, version: i32) -> (r: Document)
        ensures
            rope_text(r.rope) == text@,
            r.version == version,
    {
        Document { rope: rope_from_str(text), version }
    }

    /// The document's text.
    pub fn text(&self) -> (r: String)
        ensures
            r@ == rope_text(self.rope),
    {
        rope_to_string(&self.rope)
    }

    /// Applies one content change: the span `range` replaced by `new_text`,
    /// or the whole text when there is no range.
    pub fn apply_change(&mut self, range: Option<Range>, new_text: &str, enc: PositionEncoding)
        ensures
            final(self).version == old(self).version,
            rope_text(final(self).rope) == match range {
                Some(r) => replaced(rope_text(old(self).rope), r, new_text@, enc),
                None => new_text@,
            },
    {
        match range {
            None => {
                self.rope = rope_from_str(new_text);
            },
            Some(r) => {
                let ghost s = rope_text(self.rope);
                let n = rope_len_chars(&self.rope);
                let a0 = position_to_char(&self.rope, r.start, enc);
                let a = if a0 < n {
                    a0
                } else {
                    n
                };
                let b0 = position_to_char(&self.rope, r.end, enc);
                let b1 = if b0 < n {
                    b0
                } else {
                    n
                };
                let b = if b1 < a {
                    a
                } else {
                    b1
                };
                rope_remove(&mut self.rope, a, b);
                rope_insert(&mut self.rope, a, new_text);
                proof {
                    assert(s.take(a as int) + s.skip(b as int) =~= s.subrange(0, a as int) + s.subrange(b as int, s.len() as int));
                    let t = s.subrange(0, a as int) + s.subrange(b as int, s.len() as int);
                    assert(t.take(a as int) =~= s.subrange(0, a as int));
                    assert(t.skip(a as int) =~= s.subrange(b as int, s.len() as int));
                }
            },
        }
    }
}

/// A change whose range runs from the start of the document to its end
/// replaces the whole text, as a change without a range does. The end's
/// line and column fit the 32 bits an editor position has.
pub proof fn lemma_full_range_replaces_all(s: Seq<char>, new: Seq<char>, enc: PositionEncoding)
    requires
        position_of_char(s, s.len() as int, enc).0 <= u32::MAX,
        position_of_char(s, s.len() as int, enc).1 <= u32::MAX,
    ensures
        ({
            let end = position_of_char(s, s.len() as int, enc);
            let range = Range {
                start: Position { line: 0, character: 0 },
                end: Position { line: end.0 as u32, character: end.1 as u32 },
            };
            replaced(s, range, new, enc) == new
        }),
{
    crate::encoding::lemma_position_roundtrip(s, s.len() as int, enc);
    crate::encoding::lemma_position_roundtrip(s, 0, enc);
    assert(s.subrange(0, 0) + new + s.subrange(s.len() as int, s.len() as int) =~= new);
}

} // verus!
