//! Folding ranges for headings (sections), list items, code blocks, block
//! quotes, tables and front matter, at most one per start line.

use vstd::prelude::*;
use crate::analysis::{Analysis, BlockInfo, BlockKind, HeadingV, headings_view, line_index};
use crate::config::FoldingConfig;
use ropey::Rope;
use crate::rope::{rope_char_to_line, rope_text, rope_to_string};
use crate::text::is_ws;

verus! {

/// A foldable region: zero-based first and last line.
#[derive(Debug, Clone, Copy, PartialEq, Eq, Structural)]
pub struct FoldSpan {
    pub start_line: usize,
    pub end_line: usize,
}

/// A line break as a rope counts them: LF, VT, FF, NEL, LS, PS, and CR when
/// it does not start a CRLF pair.
pub open spec fn breaks_at(s: Seq<char>, k: int) -> bool {
    let c = s[k];
    ||| c == '\n'
    ||| c == '\u{b}'
    ||| c == '\u{c}'
    ||| c == '\u{85}'
    ||| c == '\u{2028}'
    ||| c == '\u{2029}'
    ||| (c == '\r' && !(k + 1 < s.len() && s[k + 1] == '\n'))
}

/// The number of line breaks among the first `n` characters of `s`.
pub open spec fn breaks_before(s: Seq<char>, n: int) -> nat
    decreases n,
{
    if n <= 0 {
        0
    } else {
        breaks_before(s, n - 1) + if breaks_at(s, n - 1) {
            1nat
        } else {
            0nat
        }
    }
}

/// The position of the last non-whitespace character among the first `n`.
pub open spec fn last_visible(s: Seq<char>, n: int) -> Option<int>
    decreases n,
{
    if n <= 0 {
        None
    } else if !is_ws(s[n - 1]) {
        Some(n - 1)
    } else {
        last_visible(s, n - 1)
    }
}

/// The zero-based index of the last line holding non-whitespace text (0 when
/// there is none).
pub open spec fn last_content(s: Seq<char>) -> nat {
    match last_visible(s, s.len() as int) {
        Some(p) => breaks_before(s, p),
        None => 0,
    }
}

/// The first heading after `i` whose level is not deeper than `i`'s, from `j`
/// on.
pub open spec fn next_section(hs: Seq<HeadingV>, i: int, j: int) -> Option<int>
    decreases hs.len() - j,
{
    if j >= hs.len() || j < 0 {
        None
    } else if hs[j].level <= hs[i].level {
        Some(j)
    } else {
        next_section(hs, i, j + 1)
    }
}

/// The last line of heading `i`'s section: the line before the next heading
/// of the same or a higher level, or `last`.
pub open spec fn section_end(hs: Seq<HeadingV>, i: int, last: int) -> int {
    match next_section(hs, i, i + 1) {
        Some(j) => line_index(hs[j].start_line) as int,
        None => last,
    }
}

/// The section spans of the first `n` headings that span more than a line.
pub open spec fn section_spans(hs: Seq<HeadingV>, last: int, n: int) -> Seq<FoldSpan>
    decreases n,
{
    if n <= 0 {
        Seq::empty()
    } else {
        let i = n - 1;
        let e = section_end(hs, i, last);
        section_spans(hs, last, i) + if e > hs[i].start_line {
            seq![FoldSpan { start_line: hs[i].start_line, end_line: e as usize }]
        } else {
            Seq::empty()
        }
    }
}

/// Whether blocks of `kind` fold under `cfg`. Lists never fold themselves
/// (their first line is also their first item's); their items do.
pub open spec fn block_enabled(kind: BlockKind, cfg: FoldingConfig) -> bool {
    match kind {
        BlockKind::List => false,
        BlockKind::ListItem => cfg.lists,
        BlockKind::Code => cfg.code_blocks,
        BlockKind::BlockQuote => cfg.block_quotes,
        BlockKind::Table => cfg.tables,
        BlockKind::FrontMatter => cfg.front_matter,
    }
}

/// The spans of the first `n` blocks that are enabled and span more than a
/// line.
pub open spec fn block_spans(bs: Seq<BlockInfo>, cfg: FoldingConfig, n: int) -> Seq<FoldSpan>
    decreases n,
{
    if n <= 0 {
        Seq::empty()
    } else {
        let b = bs[n - 1];
        block_spans(bs, cfg, n - 1) + if block_enabled(b.kind, cfg) && b.end_line
            > b.start_line {
            seq![FoldSpan { start_line: b.start_line, end_line: b.end_line }]
        } else {
            Seq::empty()
        }
    }
}

/// `a` sorts before `b`: by start line, then end line.
pub open spec fn span_less(a: FoldSpan, b: FoldSpan) -> bool {
    a.start_line < b.start_line || (a.start_line == b.start_line && a.end_line < b.end_line)
}

/// Inserts `x` into the ordered `s` after every span not sorting after it.
pub open spec fn insert_span(s: Seq<FoldSpan>, x: FoldSpan) -> Seq<FoldSpan>
    decreases s.len(),
{
    if s.len() == 0 {
        seq![x]
    } else if span_less(x, s[0]) {
        seq![x] + s
    } else {
        seq![s[0]] + insert_span(s.drop_first(), x)
    }
}

/// `s` sorted by (start, end).
pub open spec fn sort_spans(s: Seq<FoldSpan>) -> Seq<FoldSpan>
    decreases s.len(),
{
    if s.len() == 0 {
        Seq::empty()
    } else {
        insert_span(sort_spans(s.drop_last()), s.last())
    }
}

/// `s` keeping only the first span of each run with the same start line.
pub open spec fn dedup_starts(s: Seq<FoldSpan>) -> Seq<FoldSpan>
    decreases s.len(),
{
    if s.len() == 0 {
        Seq::empty()
    } else {
        let d = dedup_starts(s.drop_last());
        if d.len() > 0 && d.last().start_line == s.last().start_line {
            d
        } else {
            d.push(s.last())
        }
    }
}

/// The folding ranges of a document with analysis `a`, last content line
/// `last` and configuration `cfg`: the innermost range of each start line.
pub open spec fn fold_spans_of(
    hs: Seq<HeadingV>,
    bs: Seq<BlockInfo>,
    last: int,
    cfg: FoldingConfig,
) -> Seq<FoldSpan> {
    dedup_starts(sort_spans(fold_candidates(hs, bs, last, cfg)))
}

/// The index of the last line with non-whitespace text (see
/// [`last_content`]).
pub fn last_content_line(rope: &Rope) -> (r: usize)
    ensures
        r == last_content(rope_text(*rope)),
{
    let text = rope_to_string(rope);
    let s = crate::text::chars_of(text.as_str());
    let mut p: usize = s.len();
    while p > 0 && crate::text::is_whitespace(s[p - 1])
        invariant
            p <= s@.len(),
            last_visible(s@, s@.len() as int) == last_visible(s@, p as int),
        decreases p,
    {
        p -= 1;
    }
    if p == 0 {
        0
    } else {
        rope_char_to_line(rope, p - 1)
    }
}

/// The first heading after `i` of the same or a higher level (see
/// [`next_section`]).
fn find_next_section(hs: &Vec<crate::analysis::HeadingInfo>, i: usize) -> (r: Option<usize>)
    requires
        i < hs@.len(),
    ensures
        match r {
            Some(j) => next_section(headings_view(hs@), i as int, i + 1) == Some(j as int),
            None => next_section(headings_view(hs@), i as int, i + 1) is None,
        },
        r matches Some(j) ==> i < j < hs@.len(),
{
    let ghost hv = headings_view(hs@);
    let n = hs.len();
    let mut j = i + 1;
    while j < hs.len()
        invariant
            i < j <= hs@.len(),
            hv == headings_view(hs@),
            next_section(hv, i as int, j as int) == next_section(hv, i as int, i + 1),
        decreases hs@.len() - j,
    {
        if hs[j].level <= hs[i].level {
            return Some(j);
        }
        j += 1;
    }
    None
}

/// Inserts `x` into the ordered `v` (see [`insert_span`]).
fn insert_sorted(v: &mut Vec<FoldSpan>, x: FoldSpan)
    ensures
        final(v)@ == insert_span(old(v)@, x),
{
    let ghost cur = v@;
    let mut i: usize = 0;
    while i < v.len()
        invariant
            i <= v@.len(),
            cur == v@,
            forall|j: int| 0 <= j < i ==> !span_less(x, #[trigger] cur[j]),
        ensures
            i <= v@.len(),
            forall|j: int| 0 <= j < i ==> !span_less(x, #[trigger] cur[j]),
            i < v@.len() ==> span_less(x, cur[i as int]),
        decreases v@.len() - i,
    {
        let y = v[i];
        if x.start_line < y.start_line || (x.start_line == y.start_line && x.end_line < y.end_line) {
            break;
        }
        i += 1;
    }
    proof {
        lemma_insert_span_at(cur, x, i as int);
    }
    v.insert(i, x);
}

proof fn lemma_insert_span_at(s: Seq<FoldSpan>, x: FoldSpan, i: int)
    requires
        0 <= i <= s.len(),
        forall|j: int| 0 <= j < i ==> !span_less(x, #[trigger] s[j]),
        i < s.len() ==> span_less(x, s[i]),
    ensures
        insert_span(s, x) == s.insert(i, x),
    decreases s.len(),
{
    if s.len() == 0 {
        assert(s.insert(i, x) =~= seq![x]);
    } else if i == 0 {
        assert(s.insert(i, x) =~= seq![x] + s);
    } else {
        let t = s.drop_first();
        assert forall|j: int| 0 <= j < i - 1 implies !span_less(x, #[trigger] t[j]) by {
            assert(t[j] == s[j + 1]);
        }
        lemma_insert_span_at(t, x, i - 1);
        assert(s.insert(i, x) =~= seq![s[0]] + t.insert(i - 1, x));
    }
}

/// Sorting a concatenation inserts the second part's spans one by one.
proof fn lemma_sort_push(s: Seq<FoldSpan>, x: FoldSpan)
    ensures
        sort_spans(s.push(x)) == insert_span(sort_spans(s), x),
{
    assert(s.push(x).drop_last() =~= s);
}

/// Computes the folding ranges (see [`fold_spans_of`]), `rope` holding the
/// document the analysis was made of.
pub fn folding_ranges(analysis: &Analysis, rope: &Rope, config: &FoldingConfig) -> (r: Vec<FoldSpan>)
    ensures
        r@ == fold_spans_of(
            headings_view(analysis.headings@),
            analysis.blocks@,
            last_content(rope_text(*rope)) as int,
            *config,
        ),
{
    let last = last_content_line(rope);
    let ghost hv = headings_view(analysis.headings@);
    let ghost bv = analysis.blocks@;
    let ghost cfg = *config;
    // All candidate spans, kept sorted as they are added.
    let mut sorted: Vec<FoldSpan> = Vec::new();
    let ghost mut all: Seq<FoldSpan> = Seq::empty();
    if config.headings {
        let hs = &analysis.headings;
        let mut i: usize = 0;
        while i < hs.len()
            invariant
                i <= hs@.len(),
                hv == headings_view(hs@),
                all == section_spans(hv, last as int, i as int),
                sorted@ == sort_spans(all),
            decreases hs@.len() - i,
        {
            let nxt = find_next_section(hs, i);
            let end: usize = match nxt {
                Some(j) => {
                    assert(hv[j as int].start_line == hs@[j as int].start_line);
                    if hs[j].start_line == 0 {
                        0
                    } else {
                        hs[j].start_line - 1
                    }
                },
                None => last,
            };
            assert(end as int == section_end(hv, i as int, last as int));
            let ghost prev = all;
            if end > hs[i].start_line {
                let x = FoldSpan { start_line: hs[i].start_line, end_line: end };
                proof {
                    lemma_sort_push(all, x);
                    all = all.push(x);
                }
                insert_sorted(&mut sorted, x);
            }
            assert(all =~= section_spans(hv, last as int, i + 1));
            i += 1;
        }
    } else {
        assert(all =~= Seq::<FoldSpan>::empty());
    }
    let ghost sections = all;
    let bs = &analysis.blocks;
    let mut k: usize = 0;
    assert(all =~= sections + block_spans(bv, cfg, 0));
    while k < bs.len()
        invariant
            k <= bs@.len(),
            bv == bs@,
            cfg == *config,
            all == sections + block_spans(bv, cfg, k as int),
            sorted@ == sort_spans(all),
        decreases bs@.len() - k,
    {
        let b = bs[k];
        let enabled = match b.kind {
            BlockKind::List => false,
            BlockKind::ListItem => config.lists,
            BlockKind::Code => config.code_blocks,
            BlockKind::BlockQuote => config.block_quotes,
            BlockKind::Table => config.tables,
            BlockKind::FrontMatter => config.front_matter,
        };
        if enabled && b.end_line > b.start_line {
            let x = FoldSpan { start_line: b.start_line, end_line: b.end_line };
            proof {
                lemma_sort_push(all, x);
                all = all.push(x);
            }
            insert_sorted(&mut sorted, x);
        }
        k += 1;
        assert(all =~= sections + block_spans(bv, cfg, k as int));
    }
    // Keep the first (innermost) span of each start line.
    let mut out: Vec<FoldSpan> = Vec::new();
    let mut m: usize = 0;
    assert(sorted@.take(0) =~= Seq::<FoldSpan>::empty());
    while m < sorted.len()
        invariant
            m <= sorted@.len(),
            out@ == dedup_starts(sorted@.take(m as int)),
        decreases sorted@.len() - m,
    {
        let x = sorted[m];
        assert(sorted@.take(m + 1).drop_last() =~= sorted@.take(m as int));
        let n = out.len();
        if !(n > 0 && out[n - 1].start_line == x.start_line) {
            out.push(x);
        }
        m += 1;
    }
    assert(sorted@.take(sorted@.len() as int) =~= sorted@);
    out
}

/// Every span of `s` covers more than one line.
pub open spec fn spans_multiline(s: Seq<FoldSpan>) -> bool {
    forall|k: int| 0 <= k < s.len() ==> (#[trigger] s[k]).start_line < s[k].end_line
}

/// The spans of `s` come by start line, never decreasing.
pub open spec fn starts_sorted(s: Seq<FoldSpan>) -> bool {
    forall|i: int, j: int| 0 <= i < j < s.len() ==> (#[trigger] s[i]).start_line <= (#[trigger] s[j]).start_line
}

/// The folding ranges of a document come ordered by start line, with at
/// most one range starting on any line, and each range covers more than one
/// line.
pub proof fn lemma_fold_spans_ordered(hs: Seq<HeadingV>, bs: Seq<BlockInfo>, last: int, cfg: FoldingConfig)
    requires
        0 <= last <= usize::MAX,
    ensures
        ({
            let r = fold_spans_of(hs, bs, last, cfg);
            &&& spans_multiline(r)
            &&& forall|i: int, j: int|
                0 <= i < j < r.len() ==> (#[trigger] r[i]).start_line < (#[trigger] r[j]).start_line
        }),
{
    let sections = if cfg.headings {
        section_spans(hs, last, hs.len() as int)
    } else {
        Seq::empty()
    };
    if cfg.headings {
        lemma_section_spans_multiline(hs, last, hs.len() as int);
    }
    lemma_block_spans_multiline(bs, cfg, bs.len() as int);
    let all = sections + block_spans(bs, cfg, bs.len() as int);
    assert(spans_multiline(all)) by {
        assert forall|k: int| 0 <= k < all.len() implies (#[trigger] all[k]).start_line < all[k].end_line by {
            if k < sections.len() {
                assert(all[k] == sections[k]);
            } else {
                assert(all[k] == block_spans(bs, cfg, bs.len() as int)[k - sections.len()]);
            }
        }
    }
    lemma_sort_spans_props(all);
    lemma_dedup_props(sort_spans(all));
}

/// Whether `a` comes no later than `b` by (start line, end line).
pub open spec fn span_le(a: FoldSpan, b: FoldSpan) -> bool {
    a.start_line < b.start_line || (a.start_line == b.start_line && a.end_line <= b.end_line)
}

/// Whether `s` is ordered by (start line, end line).
pub open spec fn spans_ordered(s: Seq<FoldSpan>) -> bool {
    forall|i: int, j: int| 0 <= i < j < s.len() ==> span_le(#[trigger] s[i], #[trigger] s[j])
}

proof fn lemma_insert_span_keeps(s: Seq<FoldSpan>, x: FoldSpan)
    requires
        spans_ordered(s),
    ensures
        spans_ordered(insert_span(s, x)),
        forall|y: FoldSpan| #[trigger] insert_span(s, x).contains(y) <==> (y == x || s.contains(y)),
    decreases s.len(),
{
    let r = insert_span(s, x);
    if s.len() == 0 {
        assert forall|y: FoldSpan| #[trigger] r.contains(y) <==> (y == x || s.contains(y)) by {
            if y == x {
                assert(r[0] == x);
            }
        }
    } else if span_less(x, s[0]) {
        assert(r =~= seq![x] + s);
        assert forall|i: int, j: int| 0 <= i < j < r.len() implies span_le(
            #[trigger] r[i],
            #[trigger] r[j],
        ) by {
            if i == 0 {
                assert(r[j] == s[j - 1]);
                if j > 1 {
                    assert(span_le(s[0], s[j - 1]));
                }
            } else {
                assert(r[i] == s[i - 1] && r[j] == s[j - 1]);
            }
        }
        assert forall|y: FoldSpan| #[trigger] r.contains(y) <==> (y == x || s.contains(y)) by {
            if y == x {
                assert(r[0] == x);
            }
            if s.contains(y) {
                let k = choose|k: int| 0 <= k < s.len() && s[k] == y;
                assert(r[k + 1] == y);
            }
            if r.contains(y) {
                let k = choose|k: int| 0 <= k < r.len() && r[k] == y;
                if k > 0 {
                    assert(s[k - 1] == y);
                }
            }
        }
    } else {
        let t = s.drop_first();
        assert forall|i: int, j: int| 0 <= i < j < t.len() implies span_le(
            #[trigger] t[i],
            #[trigger] t[j],
        ) by {
            assert(t[i] == s[i + 1] && t[j] == s[j + 1]);
        }
        lemma_insert_span_keeps(t, x);
        let u = insert_span(t, x);
        assert(r =~= seq![s[0]] + u);
        assert(span_le(s[0], x));
        assert forall|i: int, j: int| 0 <= i < j < r.len() implies span_le(
            #[trigger] r[i],
            #[trigger] r[j],
        ) by {
            assert(r[j] == u[j - 1]);
            if i == 0 {
                assert(u.contains(u[j - 1]));
                if u[j - 1] != x {
                    let k = choose|k: int| 0 <= k < t.len() && t[k] == u[j - 1];
                    assert(s[k + 1] == t[k]);
                    assert(span_le(s[0], s[k + 1]));
                }
            } else {
                assert(r[i] == u[i - 1]);
            }
        }
        assert forall|y: FoldSpan| #[trigger] r.contains(y) <==> (y == x || s.contains(y)) by {
            if r.contains(y) {
                let k = choose|k: int| 0 <= k < r.len() && r[k] == y;
                if k > 0 {
                    assert(u[k - 1] == y);
                    assert(u.contains(y));
                    if y != x {
                        let m = choose|m: int| 0 <= m < t.len() && t[m] == y;
                        assert(s[m + 1] == y);
                    }
                }
            }
            if y == x {
                assert(u.contains(x));
                let k = choose|k: int| 0 <= k < u.len() && u[k] == x;
                assert(r[k + 1] == x);
            }
            if s.contains(y) {
                let k = choose|k: int| 0 <= k < s.len() && s[k] == y;
                if k == 0 {
                    assert(r[0] == y);
                } else {
                    assert(t[k - 1] == y);
                    assert(t.contains(y));
                    assert(u.contains(y));
                    let m = choose|m: int| 0 <= m < u.len() && u[m] == y;
                    assert(r[m + 1] == y);
                }
            }
        }
    }
}

proof fn lemma_sort_spans_keeps(s: Seq<FoldSpan>)
    ensures
        spans_ordered(sort_spans(s)),
        forall|y: FoldSpan| #[trigger] sort_spans(s).contains(y) <==> s.contains(y),
    decreases s.len(),
{
    if s.len() > 0 {
        let p = s.drop_last();
        let x = s.last();
        lemma_sort_spans_keeps(p);
        lemma_insert_span_keeps(sort_spans(p), x);
        assert forall|y: FoldSpan| #[trigger] sort_spans(s).contains(y) <==> s.contains(y) by {
            if s.contains(y) {
                let k = choose|k: int| 0 <= k < s.len() && s[k] == y;
                if k < p.len() {
                    assert(p[k] == y);
                    assert(p.contains(y));
                }
            }
            if p.contains(y) {
                let k = choose|k: int| 0 <= k < p.len() && p[k] == y;
                assert(s[k] == y);
            }
            if y == x {
                assert(s[s.len() - 1] == y);
            }
        }
    }
}

proof fn lemma_dedup_first_of_start(s: Seq<FoldSpan>)
    requires
        spans_ordered(s),
    ensures
        ({
            let d = dedup_starts(s);
            &&& forall|y: FoldSpan| #[trigger] d.contains(y) ==> s.contains(y)
            &&& forall|i: int, k: int|
                0 <= i < d.len() && 0 <= k < s.len() && (#[trigger] s[k]).start_line == (
                #[trigger] d[i]).start_line ==> d[i].end_line <= s[k].end_line
            &&& forall|k: int|
                0 <= k < s.len() ==> exists|i: int|
                    0 <= i < d.len() && (#[trigger] d[i]).start_line == (#[trigger] s[k]).start_line
            &&& s.len() > 0 ==> d.len() > 0 && d.last().start_line == s.last().start_line
        }),
    decreases s.len(),
{
    if s.len() > 0 {
        let p = s.drop_last();
        let x = s.last();
        let n = s.len() - 1;
        assert(x == s[n]);
        assert forall|i: int, j: int| 0 <= i < j < p.len() implies span_le(
            #[trigger] p[i],
            #[trigger] p[j],
        ) by {
            assert(p[i] == s[i] && p[j] == s[j]);
        }
        lemma_dedup_first_of_start(p);
        let d0 = dedup_starts(p);
        let d = dedup_starts(s);
        assert forall|k: int| 0 <= k < p.len() implies #[trigger] p[k] == s[k] by {}
        if d0.len() > 0 && d0.last().start_line == x.start_line {
            assert(d == d0);
            assert forall|y: FoldSpan| #[trigger] d.contains(y) implies s.contains(y) by {
                assert(p.contains(y));
                let m = choose|m: int| 0 <= m < p.len() && p[m] == y;
                assert(s[m] == y);
            }
            assert forall|i: int, k: int|
                0 <= i < d.len() && 0 <= k < s.len() && (#[trigger] s[k]).start_line == (
                #[trigger] d[i]).start_line implies d[i].end_line <= s[k].end_line by {
                if k == n {
                    assert(d0.contains(d0[i]));
                    let m = choose|m: int| 0 <= m < p.len() && p[m] == d0[i];
                    assert(span_le(s[m], s[n]));
                } else {
                    assert(s[k] == p[k]);
                }
            }
            assert forall|k: int| 0 <= k < s.len() implies exists|i: int|
                0 <= i < d.len() && (#[trigger] d[i]).start_line == (#[trigger] s[k]).start_line by {
                if k == n {
                    assert(d[d.len() - 1].start_line == s[k].start_line);
                } else {
                    assert(s[k] == p[k]);
                }
            }
        } else {
            assert(d == d0.push(x));
            assert(p.len() > 0 ==> p.last() == s[n - 1]);
            assert forall|k: int| 0 <= k < p.len() implies (#[trigger] s[k]).start_line
                < x.start_line by {
                if k < n - 1 {
                    assert(span_le(s[k], s[n - 1]));
                }
                assert(span_le(s[n - 1], s[n]));
            }
            assert forall|y: FoldSpan| #[trigger] d.contains(y) implies s.contains(y) by {
                let q = choose|q: int| 0 <= q < d.len() && d[q] == y;
                if q < d0.len() {
                    assert(d0[q] == y);
                    assert(d0.contains(y));
                    let m = choose|m: int| 0 <= m < p.len() && p[m] == y;
                    assert(s[m] == y);
                } else {
                    assert(s[n] == y);
                }
            }
            assert forall|i: int, k: int|
                0 <= i < d.len() && 0 <= k < s.len() && (#[trigger] s[k]).start_line == (
                #[trigger] d[i]).start_line implies d[i].end_line <= s[k].end_line by {
                if i < d0.len() {
                    assert(d[i] == d0[i]);
                    assert(d0.contains(d0[i]));
                    let m = choose|m: int| 0 <= m < p.len() && p[m] == d0[i];
                    assert(s[m] == p[m]);
                    if k == n {
                        assert(s[m].start_line < x.start_line);
                    } else {
                        assert(s[k] == p[k]);
                    }
                } else {
                    assert(d[i] == x);
                    if k < n {
                        assert(s[k].start_line < x.start_line);
                    }
                }
            }
            assert forall|k: int| 0 <= k < s.len() implies exists|i: int|
                0 <= i < d.len() && (#[trigger] d[i]).start_line == (#[trigger] s[k]).start_line by {
                if k == n {
                    assert(d[d.len() - 1] == s[k]);
                } else {
                    assert(s[k] == p[k]);
                    let i = choose|i: int|
                        0 <= i < d0.len() && (#[trigger] d0[i]).start_line == (
                        #[trigger] p[k]).start_line;
                    assert(d[i] == d0[i]);
                }
            }
        }
    }
}

/// The candidate folding spans of a document: the heading sections (when
/// enabled) followed by the spans of the enabled blocks.
pub open spec fn fold_candidates(
    hs: Seq<HeadingV>,
    bs: Seq<BlockInfo>,
    last: int,
    cfg: FoldingConfig,
) -> Seq<FoldSpan> {
    let sections = if cfg.headings {
        section_spans(hs, last, hs.len() as int)
    } else {
        Seq::empty()
    };
    sections + block_spans(bs, cfg, bs.len() as int)
}

/// The innermost range of each start line is kept: every folding range is
/// one of the candidate spans, it ends no later than any candidate starting
/// on the same line, and every line on which a candidate starts has a range.
pub proof fn lemma_fold_spans_innermost(
    hs: Seq<HeadingV>,
    bs: Seq<BlockInfo>,
    last: int,
    cfg: FoldingConfig,
)
    ensures
        ({
            let all = fold_candidates(hs, bs, last, cfg);
            let r = fold_spans_of(hs, bs, last, cfg);
            &&& forall|i: int| 0 <= i < r.len() ==> all.contains(#[trigger] r[i])
            &&& forall|i: int, k: int|
                0 <= i < r.len() && 0 <= k < all.len() && (#[trigger] all[k]).start_line == (
                #[trigger] r[i]).start_line ==> r[i].end_line <= all[k].end_line
            &&& forall|k: int|
                0 <= k < all.len() ==> exists|i: int|
                    0 <= i < r.len() && (#[trigger] r[i]).start_line == (#[trigger] all[k]).start_line
        }),
{
    let all = fold_candidates(hs, bs, last, cfg);
    let s = sort_spans(all);
    let r = fold_spans_of(hs, bs, last, cfg);
    assert(r == dedup_starts(s));
    lemma_sort_spans_keeps(all);
    lemma_dedup_first_of_start(s);
    assert forall|i: int| 0 <= i < r.len() implies all.contains(#[trigger] r[i]) by {
        assert(r.contains(r[i]));
        assert(s.contains(r[i]));
    }
    assert forall|i: int, k: int|
        0 <= i < r.len() && 0 <= k < all.len() && (#[trigger] all[k]).start_line == (
        #[trigger] r[i]).start_line implies r[i].end_line <= all[k].end_line by {
        assert(all.contains(all[k]));
        assert(s.contains(all[k]));
        let m = choose|m: int| 0 <= m < s.len() && s[m] == all[k];
        assert(s[m].start_line == r[i].start_line);
    }
    assert forall|k: int| 0 <= k < all.len() implies exists|i: int|
        0 <= i < r.len() && (#[trigger] r[i]).start_line == (#[trigger] all[k]).start_line by {
        assert(all.contains(all[k]));
        assert(s.contains(all[k]));
        let m = choose|m: int| 0 <= m < s.len() && s[m] == all[k];
        let i = choose|i: int| 0 <= i < r.len() && (#[trigger] r[i]).start_line == (#[trigger] s[m]).start_line;
        assert(r[i].start_line == all[k].start_line);
    }
}

proof fn lemma_section_spans_multiline(hs: Seq<HeadingV>, last: int, n: int)
    requires
        0 <= last <= usize::MAX,
    ensures
        spans_multiline(section_spans(hs, last, n)),
    decreases n,
{
    if n > 0 {
        lemma_section_spans_multiline(hs, last, n - 1);
        let prev = section_spans(hs, last, n - 1);
        let i = n - 1;
        let e = section_end(hs, i, last);
        let tail = if e > hs[i].start_line {
            seq![FoldSpan { start_line: hs[i].start_line, end_line: e as usize }]
        } else {
            Seq::empty()
        };
        let r = prev + tail;
        assert forall|k: int| 0 <= k < r.len() implies (#[trigger] r[k]).start_line < r[k].end_line by {
            if k < prev.len() {
                assert(r[k] == prev[k]);
            } else {
                assert(r[k] == tail[k - prev.len()]);
            }
        }
    }
}

proof fn lemma_block_spans_multiline(bs: Seq<BlockInfo>, cfg: FoldingConfig, n: int)
    ensures
        spans_multiline(block_spans(bs, cfg, n)),
    decreases n,
{
    if n > 0 {
        lemma_block_spans_multiline(bs, cfg, n - 1);
        let prev = block_spans(bs, cfg, n - 1);
        let b = bs[n - 1];
        let tail = if block_enabled(b.kind, cfg) && b.end_line > b.start_line {
            seq![FoldSpan { start_line: b.start_line, end_line: b.end_line }]
        } else {
            Seq::empty()
        };
        let r = prev + tail;
        assert forall|k: int| 0 <= k < r.len() implies (#[trigger] r[k]).start_line < r[k].end_line by {
            if k < prev.len() {
                assert(r[k] == prev[k]);
            } else {
                assert(r[k] == tail[k - prev.len()]);
            }
        }
    }
}

/// Inserting a span puts it before the first span it sorts before.
proof fn lemma_insert_span_position(s: Seq<FoldSpan>, x: FoldSpan) -> (i: int)
    ensures
        0 <= i <= s.len(),
        insert_span(s, x) == s.insert(i, x),
        forall|j: int| 0 <= j < i ==> !span_less(x, #[trigger] s[j]),
        i < s.len() ==> span_less(x, s[i]),
    decreases s.len(),
{
    if s.len() == 0 {
        assert(s.insert(0, x) =~= seq![x]);
        0
    } else if span_less(x, s[0]) {
        assert(s.insert(0, x) =~= seq![x] + s);
        0
    } else {
        let t = s.drop_first();
        let i = lemma_insert_span_position(t, x);
        assert(s.insert(i + 1, x) =~= seq![s[0]] + t.insert(i, x));
        assert forall|j: int| 0 <= j < i + 1 implies !span_less(x, #[trigger] s[j]) by {
            if j > 0 {
                assert(s[j] == t[j - 1]);
            }
        }
        if i + 1 < s.len() {
            assert(s[i + 1] == t[i]);
        }
        i + 1
    }
}

proof fn lemma_sort_spans_props(s: Seq<FoldSpan>)
    requires
        spans_multiline(s),
    ensures
        spans_multiline(sort_spans(s)),
        starts_sorted(sort_spans(s)),
    decreases s.len(),
{
    if s.len() > 0 {
        let p = s.drop_last();
        assert(spans_multiline(p)) by {
            assert forall|k: int| 0 <= k < p.len() implies (#[trigger] p[k]).start_line < p[k].end_line by {
                assert(p[k] == s[k]);
            }
        }
        lemma_sort_spans_props(p);
        let q = sort_spans(p);
        let x = s.last();
        assert(x == s[s.len() - 1]);
        let i = lemma_insert_span_position(q, x);
        let r = q.insert(i, x);
        assert(spans_multiline(r)) by {
            assert forall|k: int| 0 <= k < r.len() implies (#[trigger] r[k]).start_line < r[k].end_line by {
                if k < i {
                    assert(r[k] == q[k]);
                } else if k > i {
                    assert(r[k] == q[k - 1]);
                }
            }
        }
        assert(starts_sorted(r)) by {
            assert forall|a: int, b: int| 0 <= a < b < r.len() implies (#[trigger] r[a]).start_line
                <= (#[trigger] r[b]).start_line by {
                if b < i {
                    assert(r[a] == q[a] && r[b] == q[b]);
                } else if b == i {
                    assert(r[a] == q[a]);
                    assert(!span_less(x, q[a]));
                } else if a > i {
                    assert(r[a] == q[a - 1] && r[b] == q[b - 1]);
                } else if a == i {
                    assert(r[b] == q[b - 1]);
                    assert(span_less(x, q[i]));
                    assert(q[i].start_line <= q[b - 1].start_line);
                } else {
                    assert(r[a] == q[a] && r[b] == q[b - 1]);
                }
            }
        }
    }
}

proof fn lemma_dedup_props(s: Seq<FoldSpan>)
    requires
        spans_multiline(s),
        starts_sorted(s),
    ensures
        ({
            let d = dedup_starts(s);
            &&& spans_multiline(d)
            &&& forall|i: int, j: int|
                0 <= i < j < d.len() ==> (#[trigger] d[i]).start_line < (#[trigger] d[j]).start_line
            &&& s.len() > 0 ==> d.len() > 0 && d.last().start_line == s.last().start_line
        }),
    decreases s.len(),
{
    if s.len() > 0 {
        let p = s.drop_last();
        assert(spans_multiline(p)) by {
            assert forall|k: int| 0 <= k < p.len() implies (#[trigger] p[k]).start_line < p[k].end_line by {
                assert(p[k] == s[k]);
            }
        }
        assert(starts_sorted(p)) by {
            assert forall|a: int, b: int| 0 <= a < b < p.len() implies (#[trigger] p[a]).start_line
                <= (#[trigger] p[b]).start_line by {
                assert(p[a] == s[a] && p[b] == s[b]);
            }
        }
        lemma_dedup_props(p);
        let d0 = dedup_starts(p);
        let x = s.last();
        assert(x == s[s.len() - 1]);
        if d0.len() > 0 && d0.last().start_line == x.start_line {
        } else {
            let d = d0.push(x);
            if p.len() > 0 {
                assert(p.last() == s[s.len() - 2]);
                assert(d0.last().start_line < x.start_line);
                assert forall|k: int| 0 <= k < d0.len() implies (#[trigger] d0[k]).start_line
                    <= d0.last().start_line by {
                    if k < d0.len() - 1 {
                        assert(d0[k].start_line < d0[d0.len() - 1].start_line);
                    }
                }
            }
            assert(spans_multiline(d)) by {
                assert forall|k: int| 0 <= k < d.len() implies (#[trigger] d[k]).start_line < d[k].end_line by {
                    if k < d0.len() {
                        assert(d[k] == d0[k]);
                    }
                }
            }
            assert forall|a: int, b: int| 0 <= a < b < d.len() implies (#[trigger] d[a]).start_line
                < (#[trigger] d[b]).start_line by {
                assert(d[a] == d0[a]);
                if b < d0.len() {
                    assert(d[b] == d0[b]);
                }
            }
        }
    }
}

} // verus!
