//! Byte offsets and character indices.
//!
//! The Markdown parser reports positions as byte offsets into the UTF-8
//! encoding of the source, while the formatters edit the source as a sequence
//! of characters. This module relates the two: the UTF-8 length of a character
//! sequence, and the character index of the boundary at (or just before) a
//! byte offset.

use vstd::prelude::*;
use vstd::string::StringSliceAdditionalSpecFns;
use vstd::utf8::*;

verus! {

broadcast use vstd::utf8::char_is_scalar;

/// Number of bytes in the UTF-8 encoding of `c`.
pub open spec fn char_width(c: char) -> nat {
    let u = c as u32;
    if u <= 0x7f {
        1
    } else if u <= 0x7ff {
        2
    } else if u <= 0xffff {
        3
    } else {
        4
    }
}

/// Number of bytes in the UTF-8 encoding of `s`.
pub open spec fn utf8_len(s: Seq<char>) -> nat
    decreases s.len(),
{
    if s.len() == 0 {
        0
    } else {
        char_width(s[0]) + utf8_len(s.drop_first())
    }
}

/// The number of leading characters of `s` whose encoding ends at or before
/// byte `off`: the character index of the boundary at or before `off`.
pub open spec fn char_floor(s: Seq<char>, off: int) -> nat
    decreases s.len(),
{
    if s.len() == 0 {
        0
    } else if utf8_len(s) <= off {
        s.len()
    } else {
        char_floor(s.drop_last(), off)
    }
}

/// The UTF-8 length of a concatenation is the sum of the lengths.
pub proof fn lemma_utf8_len_concat(a: Seq<char>, b: Seq<char>)
    ensures
        utf8_len(a + b) == utf8_len(a) + utf8_len(b),
    decreases a.len(),
{
    if a.len() > 0 {
        assert((a + b).drop_first() =~= a.drop_first() + b);
        lemma_utf8_len_concat(a.drop_first(), b);
    } else {
        assert(a + b =~= b);
    }
}

/// Extending a prefix by one character adds that character's width.
pub proof fn lemma_utf8_len_take(s: Seq<char>, k: int)
    requires
        0 <= k < s.len(),
    ensures
        utf8_len(s.take(k + 1)) == utf8_len(s.take(k)) + char_width(s[k]),
{
    assert(s.take(k + 1) =~= s.take(k) + seq![s[k]]);
    lemma_utf8_len_concat(s.take(k), seq![s[k]]);
    assert(seq![s[k]].drop_first() =~= Seq::<char>::empty());
    assert(utf8_len(seq![s[k]]) == char_width(s[k]) + utf8_len(Seq::<char>::empty()));
}

/// Prefix lengths grow strictly with the prefix.
pub proof fn lemma_utf8_len_take_mono(s: Seq<char>, i: int, j: int)
    requires
        0 <= i <= j <= s.len(),
    ensures
        utf8_len(s.take(i)) + (j - i) <= utf8_len(s.take(j)),
    decreases j - i,
{
    if i < j {
        lemma_utf8_len_take(s, j - 1);
        lemma_utf8_len_take_mono(s, i, j - 1);
    }
}

/// `utf8_len` is the length of vstd's UTF-8 encoding.
pub proof fn lemma_utf8_len_encode(s: Seq<char>)
    ensures
        utf8_len(s) == encode_utf8(s).len(),
    decreases s.len(),
{
    if s.len() > 0 {
        lemma_utf8_len_encode(s.drop_first());
        char_is_scalar(s[0]);
    }
}

/// `char_floor` is the largest prefix whose encoding fits in `off` bytes.
pub proof fn lemma_char_floor(s: Seq<char>, off: int)
    requires
        off >= 0,
    ensures
        char_floor(s, off) <= s.len(),
        utf8_len(s.take(char_floor(s, off) as int)) <= off,
        char_floor(s, off) < s.len() ==> utf8_len(s.take(char_floor(s, off) + 1int)) > off,
    decreases s.len(),
{
    if s.len() == 0 {
        assert(s.take(0) =~= Seq::<char>::empty());
    } else if utf8_len(s) <= off {
        assert(s.take(s.len() as int) =~= s);
    } else {
        let t = s.drop_last();
        lemma_char_floor(t, off);
        let r = char_floor(t, off) as int;
        assert(t.take(r) =~= s.take(r));
        if r + 1 < s.len() {
            assert(t.take(r + 1) =~= s.take(r + 1));
        } else {
            assert(s.take(r + 1) =~= s);
        }
    }
}

/// `offs` holds the byte offset of every character boundary of `s`.
pub open spec fn are_boundary_offsets(s: Seq<char>, offs: Seq<usize>) -> bool {
    &&& offs.len() == s.len() + 1
    &&& forall|k: int| 0 <= k <= s.len() ==> #[trigger] offs[k] == utf8_len(s.take(k))
}

/// The UTF-8 byte offset of every character boundary of `s`:
/// `r[k]` is the length of the encoding of the first `k` characters.
pub fn boundary_offsets(s: &[char]) -> (r: Vec<usize>)
    requires
        utf8_len(s@) <= usize::MAX,
    ensures
        r@.len() == s@.len() + 1,
        forall|k: int| 0 <= k <= s@.len() ==> #[trigger] r@[k] == utf8_len(s@.take(k)),
{
    let mut r: Vec<usize> = Vec::new();
    r.push(0);
    assert(s@.take(0) =~= Seq::<char>::empty());
    let mut acc: usize = 0;
    let mut i: usize = 0;
    while i < s.len()
        invariant
            i <= s@.len(),
            utf8_len(s@) <= usize::MAX,
            r@.len() == i + 1,
            acc == utf8_len(s@.take(i as int)),
            forall|k: int| 0 <= k <= i ==> #[trigger] r@[k] == utf8_len(s@.take(k)),
        decreases s@.len() - i,
    {
        let c = s[i];
        let u = c as u32;
        let w: usize = if u <= 0x7f {
            1
        } else if u <= 0x7ff {
            2
        } else if u <= 0xffff {
            3
        } else {
            4
        };
        proof {
            lemma_utf8_len_take(s@, i as int);
            lemma_utf8_len_take_mono(s@, i + 1, s@.len() as int);
            assert(s@.take(s@.len() as int) =~= s@);
        }
        acc = acc + w;
        r.push(acc);
        i += 1;
    }
    r
}

/// The characters of `source` and the byte offset of each boundary.
pub fn chars_and_offsets(source: &str) -> (r: (Vec<char>, Vec<usize>))
    ensures
        r.0@ == source@,
        r.1@.len() == source@.len() + 1,
        forall|k: int| 0 <= k <= source@.len() ==> #[trigger] r.1@[k] == utf8_len(source@.take(k)),
        utf8_len(source@) == source.spec_bytes().len(),
{
    let chars = crate::text::chars_of(source);
    let bytes = source.as_bytes();
    let n = bytes.len();
    proof {
        lemma_utf8_len_encode(source@);
        assert(n == utf8_len(source@));
    }
    let offs = boundary_offsets(chars.as_slice());
    (chars, offs)
}

/// The character index of the boundary at or before byte `off`, given the
/// boundary offsets of `s`.
pub(crate) fn floor_index(offs: &[usize], off: usize, Ghost(s): Ghost<Seq<char>>) -> (r: usize)
    requires
        are_boundary_offsets(s, offs@),
    ensures
        r == char_floor(s, off as int),
        r <= s.len(),
{
    proof {
        lemma_char_floor(s, off as int);
    }
    let ghost f = char_floor(s, off as int) as int;
    // Invariant: offs[lo] <= off, and hi is either past the end or offs[hi] > off.
    let mut lo: usize = 0;
    let mut hi: usize = offs.len();
    assert(s.take(0) =~= Seq::<char>::empty());
    while lo + 1 < hi
        invariant
            offs@.len() == s.len() + 1,
            forall|k: int| 0 <= k <= s.len() ==> #[trigger] offs@[k] == utf8_len(s.take(k)),
            0 <= lo < hi <= offs@.len(),
            offs@[lo as int] <= off,
            hi < offs@.len() ==> offs@[hi as int] > off,
            0 <= f <= s.len(),
            utf8_len(s.take(f)) <= off,
            f < s.len() ==> utf8_len(s.take(f + 1)) > off,
        decreases hi - lo,
    {
        let mid = lo + (hi - lo) / 2;
        if offs[mid] <= off {
            lo = mid;
        } else {
            hi = mid;
        }
    }
    proof {
        // offs[lo] <= off < offs[lo + 1] (or lo is the last index); f is the
        // unique such index because the offsets are strictly increasing.
        if f < lo {
            lemma_utf8_len_take_mono(s, f + 1, lo as int);
        }
        if lo < f {
            lemma_utf8_len_take_mono(s, lo + 1, f);
        }
    }
    lo
}

} // verus!
