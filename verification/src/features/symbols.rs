//! The document outline: headings nested under the nearest shallower heading
//! above them.

use vstd::prelude::*;
use crate::analysis::{Analysis, HeadingV, headings_view};
use crate::text::trim;

verus! {

/// The latest heading before `i` (from `j - 1` down) whose level is lower
/// than `i`'s.
pub open spec fn parent_from(hs: Seq<HeadingV>, i: int, j: int) -> Option<usize>
    decreases j,
{
    if j <= 0 {
        None
    } else if hs[j - 1].level < hs[i].level {
        Some((j - 1) as usize)
    } else {
        parent_from(hs, i, j - 1)
    }
}

/// The parent of heading `i` in the outline: the latest heading above it of
/// a lower level (none for a top-level heading).
pub open spec fn outline_parent(hs: Seq<HeadingV>, i: int) -> Option<usize> {
    parent_from(hs, i, i)
}

/// The outline parent of every heading (see [`outline_parent`]).
pub fn outline_parents(analysis: &Analysis) -> (r: Vec<Option<usize>>)
    ensures
        r@.len() == analysis.headings@.len(),
        forall|i: int|
            0 <= i < r@.len() ==> #[trigger] r@[i] == outline_parent(
                headings_view(analysis.headings@),
                i,
            ),
{
    let ghost hv = headings_view(analysis.headings@);
    let hs = &analysis.headings;
    let mut out: Vec<Option<usize>> = Vec::new();
    let mut i: usize = 0;
    while i < hs.len()
        invariant
            i <= hs@.len(),
            hv == headings_view(hs@),
            hv == headings_view(analysis.headings@),
            out@.len() == i,
            forall|k: int| 0 <= k < i ==> #[trigger] out@[k] == outline_parent(hv, k),
        decreases hs@.len() - i,
    {
        let mut j = i;
        let mut p: Option<usize> = None;
        while j > 0
            invariant_except_break
                p is None,
            invariant
                j <= i < hs@.len(),
                hv == headings_view(hs@),
                parent_from(hv, i as int, j as int) == outline_parent(hv, i as int),
            ensures
                p == outline_parent(hv, i as int),
            decreases j,
        {
            if hs[j - 1].level < hs[i].level {
                p = Some(j - 1);
                break;
            }
            j -= 1;
        }
        out.push(p);
        i += 1;
    }
    out
}

/// The name an outline entry shows: the heading text, or `(untitled)` when it
/// is blank.
pub open spec fn symbol_name_of(text: Seq<char>) -> Seq<char> {
    if trim(text).len() == 0 {
        "(untitled)"@
    } else {
        text
    }
}

/// The name an outline entry shows (see [`symbol_name_of`]).
pub fn symbol_name(text: &str) -> (r: String)
    ensures
        r@ == symbol_name_of(text@),
{
    let c = crate::text::chars_of(text);
    let t = crate::text::trim_vec(c.as_slice());
    if t.len() == 0 {
        "(untitled)".to_owned()
    } else {
        text.to_owned()
    }
}

/// A heading nests under the nearest heading above it of a lower level:
/// its parent comes before it with a lower level and every heading between
/// them is at least as deep as it; a heading without a parent has no
/// heading of a lower level above it.
pub proof fn lemma_outline_parent(hs: Seq<HeadingV>, i: int)
    requires
        0 <= i < hs.len() <= usize::MAX,
    ensures
        match outline_parent(hs, i) {
            Some(p) => {
                &&& p < i
                &&& hs[p as int].level < hs[i].level
                &&& forall|k: int| p < k < i ==> (#[trigger] hs[k]).level >= hs[i].level
            },
            None => forall|k: int| 0 <= k < i ==> (#[trigger] hs[k]).level >= hs[i].level,
        },
{
    lemma_parent_from(hs, i, i);
}

proof fn lemma_parent_from(hs: Seq<HeadingV>, i: int, j: int)
    requires
        0 <= j <= i < hs.len() <= usize::MAX,
    ensures
        match parent_from(hs, i, j) {
            Some(p) => {
                &&& p < j
                &&& hs[p as int].level < hs[i].level
                &&& forall|k: int| p < k < j ==> (#[trigger] hs[k]).level >= hs[i].level
            },
            None => forall|k: int| 0 <= k < j ==> (#[trigger] hs[k]).level >= hs[i].level,
        },
    decreases j,
{
    if j > 0 && !(hs[j - 1].level < hs[i].level) {
        lemma_parent_from(hs, i, j - 1);
    }
}

} // verus!
