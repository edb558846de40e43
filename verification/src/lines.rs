//! Lines of a character sequence: where the line holding a position starts
//! and ends, and runs of spaces and tabs.

use vstd::prelude::*;

verus! {

/// The start of the line holding position `p`: just after the last `'\n'`
/// before `p`, or 0.
pub open spec fn line_start(s: Seq<char>, p: int) -> int
    decreases p,
{
    if p <= 0 {
        0
    } else if p <= s.len() && s[p - 1] == '\n' {
        p
    } else {
        line_start(s, p - 1)
    }
}

/// The position of the first `'\n'` at or after `p`, or the end of `s`.
pub open spec fn line_end(s: Seq<char>, p: int) -> int
    decreases s.len() - p,
{
    if p >= s.len() {
        s.len() as int
    } else if s[p] == '\n' {
        p
    } else {
        line_end(s, p + 1)
    }
}

/// A space or a tab.
pub open spec fn is_blank(c: char) -> bool {
    c == ' ' || c == '\t'
}

/// The end of the run of spaces and tabs that starts at `p`.
pub open spec fn blank_end(s: Seq<char>, p: int) -> int
    decreases s.len() - p,
{
    if 0 <= p < s.len() && is_blank(s[p]) {
        blank_end(s, p + 1)
    } else {
        p
    }
}

pub proof fn lemma_line_start(s: Seq<char>, p: int)
    requires
        0 <= p <= s.len(),
    ensures
        0 <= line_start(s, p) <= p,
        line_start(s, p) == 0 || s[line_start(s, p) - 1] == '\n',
        forall|k: int| line_start(s, p) <= k < p ==> s[k] != '\n',
    decreases p,
{
    if p > 0 && s[p - 1] != '\n' {
        lemma_line_start(s, p - 1);
    }
}

pub proof fn lemma_line_end(s: Seq<char>, p: int)
    requires
        0 <= p <= s.len(),
    ensures
        p <= line_end(s, p) <= s.len(),
        line_end(s, p) == s.len() || s[line_end(s, p)] == '\n',
        forall|k: int| p <= k < line_end(s, p) ==> s[k] != '\n',
    decreases s.len() - p,
{
    if p < s.len() && s[p] != '\n' {
        lemma_line_end(s, p + 1);
    }
}

pub proof fn lemma_blank_end(s: Seq<char>, p: int)
    requires
        0 <= p <= s.len(),
    ensures
        p <= blank_end(s, p) <= s.len(),
        forall|k: int| p <= k < blank_end(s, p) ==> is_blank(#[trigger] s[k]),
        blank_end(s, p) < s.len() ==> !is_blank(s[blank_end(s, p)]),
    decreases s.len() - p,
{
    if p < s.len() && is_blank(s[p]) {
        lemma_blank_end(s, p + 1);
    }
}

/// The start of the line holding position `p`.
pub fn find_line_start(s: &[char], p: usize) -> (r: usize)
    requires
        p <= s@.len(),
    ensures
        r == line_start(s@, p as int),
{
    let mut q = p;
    while q > 0 && s[q - 1] != '\n'
        invariant
            q <= p <= s@.len(),
            line_start(s@, q as int) == line_start(s@, p as int),
        decreases q,
    {
        q -= 1;
    }
    q
}

/// The position of the first `'\n'` at or after `p`, or the end of `s`.
pub fn find_line_end(s: &[char], p: usize) -> (r: usize)
    requires
        p <= s@.len(),
    ensures
        r == line_end(s@, p as int),
{
    let mut q = p;
    while q < s.len() && s[q] != '\n'
        invariant
            p <= q <= s@.len(),
            line_end(s@, q as int) == line_end(s@, p as int),
        decreases s@.len() - q,
    {
        q += 1;
    }
    q
}

/// The end of the run of spaces and tabs that starts at `p`.
pub fn skip_blanks(s: &[char], p: usize) -> (r: usize)
    requires
        p <= s@.len(),
    ensures
        r == blank_end(s@, p as int),
{
    let mut q = p;
    while q < s.len() && (s[q] == ' ' || s[q] == '\t')
        invariant
            p <= q <= s@.len(),
            blank_end(s@, q as int) == blank_end(s@, p as int),
        decreases s@.len() - q,
    {
        q += 1;
    }
    q
}

/// The start of the run of spaces and tabs that ends at `p`, not before
/// `from`.
pub open spec fn blank_start(s: Seq<char>, from: int, p: int) -> int
    decreases p - from,
{
    if p > from && 0 < p <= s.len() && is_blank(s[p - 1]) {
        blank_start(s, from, p - 1)
    } else {
        p
    }
}

/// The start of the run of spaces and tabs that ends at `p`, not before
/// `from` (see [`blank_start`]).
pub fn skip_blanks_back(s: &[char], from: usize, p: usize) -> (r: usize)
    requires
        from <= p <= s@.len(),
    ensures
        r == blank_start(s@, from as int, p as int),
        from <= r <= p,
{
    let mut q = p;
    while q > from && (s[q - 1] == ' ' || s[q - 1] == '\t')
        invariant
            from <= q <= p <= s@.len(),
            blank_start(s@, from as int, q as int) == blank_start(s@, from as int, p as int),
        decreases q,
    {
        q -= 1;
    }
    q
}

} // verus!
