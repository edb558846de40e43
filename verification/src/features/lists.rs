//! List normalisation, as minimal text edits.
//!
//! * every unordered bullet (`*`, `+`) becomes `-`;
//! * ordered lists are renumbered to increment from their first item's
//!   number, keeping the delimiter (`.` or `)`);
//! * the gap between a marker and its content collapses to one space, and the
//!   item's continuation lines and nested lists are re-indented to match.
//!
//! Top-level indentation, lazy continuations and all other text are left as
//! they are. The edits are computed from the flattened parse tree (see
//! [`crate::mdast`]) and applied with [`crate::edits`].

use vstd::prelude::*;
use crate::edits::{
    all_keep_lines, apply_edits, apply_edits_spec, edits_view, keeps_lines, EditV, TextEdit,
};
use crate::lines::{
    blank_start, blank_end, find_line_end, find_line_start, is_blank, lemma_blank_end, lemma_line_end,
    lemma_line_start, line_end, line_start, skip_blanks,
};
use crate::mdast::{nodes_view, subtree_end, subtree_end_of, MdKind, MdNode, MdNodeV};
use crate::offsets::{are_boundary_offsets, char_floor, floor_index};
use crate::text::{decimal, digit_char, push_decimal, rep};

verus! {

/// The character index of byte offset `off` of `s`.
pub open spec fn cix(s: Seq<char>, off: usize) -> int {
    char_floor(s, off as int) as int
}

/// An ASCII digit.
pub open spec fn is_digit(c: char) -> bool {
    '0' <= c <= '9'
}

/// The end of the run of ASCII digits that starts at `p`.
pub open spec fn digits_end(s: Seq<char>, p: int) -> int
    decreases s.len() - p,
{
    if 0 <= p < s.len() && is_digit(s[p]) {
        digits_end(s, p + 1)
    } else {
        p
    }
}

/// The list marker starting at `ms`: the position just past it and its
/// normalised form (`-`, or `number` followed by the original delimiter).
/// `None` when no marker of the list's kind starts there.
pub open spec fn marker_token(s: Seq<char>, ms: int, ordered: bool, number: u64) -> Option<
    (int, Seq<char>),
> {
    if ordered {
        let i = digits_end(s, ms);
        if i == ms || i >= s.len() {
            None
        } else if s[i] == '.' || s[i] == ')' {
            Some((i + 1, decimal(number as nat).push(s[i])))
        } else {
            None
        }
    } else if 0 <= ms < s.len() && (s[ms] == '-' || s[ms] == '*' || s[ms] == '+') {
        Some((ms + 1, seq!['-']))
    } else {
        None
    }
}

/// What the formatter decides for one list item.
pub struct ItemPlan {
    /// Start of the marker's line.
    pub line: int,
    /// Start of the spaces and tabs just before the marker: what lies
    /// before it on the line (such as a block quote's `>`) is kept.
    pub lead: int,
    /// Just past the marker.
    pub token_end: int,
    /// The normalised marker.
    pub marker: Seq<char>,
    /// The marker's new column.
    pub col: int,
    /// Start of what follows the gap after the marker.
    pub rest: int,
    /// Whether content follows the marker on its line.
    pub content_here: bool,
}

/// The column at which the item's content starts after normalisation.
pub open spec fn content_col(p: ItemPlan) -> int {
    p.col + p.marker.len() + 1
}

/// The plan for item `j` (which has a position), numbered `number`, with its
/// marker forced to column `target` when given.
pub open spec fn item_plan(
    s: Seq<char>,
    ns: Seq<MdNodeV>,
    j: int,
    target: Option<int>,
    ordered: bool,
    number: u64,
) -> Option<ItemPlan> {
    let start = cix(s, ns[j].pos.unwrap().start);
    let line = line_start(s, start);
    let ms = blank_end(s, start);
    match marker_token(s, ms, ordered, number) {
        None => None,
        Some(t) => {
            let rest = blank_end(s, t.0);
            Some(
                ItemPlan {
                    line,
                    lead: blank_start(s, line, ms),
                    token_end: t.0,
                    marker: t.1,
                    col: match target {
                        Some(c) => c,
                        None => ms - line,
                    },
                    rest,
                    content_here: rest < s.len() && s[rest] != '\n' && s[rest] != '\r',
                },
            )
        },
    }
}

/// The edit that rewrites an item's indentation and marker (and the gap, when
/// content follows on the same line).
pub open spec fn marker_edit(p: ItemPlan) -> EditV {
    if p.content_here {
        EditV { start: p.lead, end: p.rest, new: rep(' ', lead_pad(p)) + p.marker + seq![' '] }
    } else {
        EditV { start: p.lead, end: p.token_end, new: rep(' ', lead_pad(p)) + p.marker }
    }
}

/// The spaces written before the marker so that it stands at column
/// `p.col`, after the kept text before it (none when that text already
/// reaches past the column).
pub open spec fn lead_pad(p: ItemPlan) -> nat {
    if p.col > p.lead - p.line {
        (p.col - (p.lead - p.line)) as nat
    } else {
        0
    }
}

/// How far the item's content moves: from the old content column to
/// [`content_col`]. With nothing after the marker, the old column is that of
/// the item's first child (0 shift when it has none).
pub open spec fn item_delta(s: Seq<char>, ns: Seq<MdNodeV>, j: int, jend: int, p: ItemPlan) -> int {
    if p.content_here {
        content_col(p) - (p.rest - p.line)
    } else if j + 1 < jend && ns[j + 1].pos is Some {
        let q = cix(s, ns[j + 1].pos.unwrap().start);
        content_col(p) - (q - line_start(s, q))
    } else {
        0
    }
}

/// The start of the last line of a span that begins on line `first` and ends
/// at `end`; an end just after a newline belongs to the line before.
pub open spec fn span_last_line(s: Seq<char>, first: int, end: int) -> int {
    let e = line_start(s, end);
    if end > 0 && s[end - 1] == '\n' && e > first {
        line_start(s, e - 1)
    } else {
        e
    }
}

/// The line spans (first and last line starts) of the lists among the
/// children `[k, jend)` of an item.
pub open spec fn nested_ranges(s: Seq<char>, ns: Seq<MdNodeV>, k: int, jend: int) -> Seq<
    (int, int),
>
    decreases jend - k,
{
    if k < 0 || k >= jend {
        Seq::empty()
    } else {
        let here = if ns[k].kind == MdKind::List && ns[k].pos is Some {
            let p = ns[k].pos.unwrap();
            let a = line_start(s, cix(s, p.start));
            seq![(a, span_last_line(s, a, cix(s, p.end)))]
        } else {
            Seq::empty()
        };
        here + nested_ranges(s, ns, subtree_end(ns, k, jend), jend)
    }
}

/// Line `l` lies in one of the spans `rs`.
pub open spec fn in_ranges(l: int, rs: Seq<(int, int)>) -> bool {
    exists|i: int| 0 <= i < rs.len() && (#[trigger] rs[i]).0 <= l <= rs[i].1
}

/// `t` without its trailing line breaks and carriage returns.
pub open spec fn trim_newlines(t: Seq<char>) -> Seq<char>
    decreases t.len(),
{
    if t.len() > 0 && (t.last() == '\n' || t.last() == '\r') {
        trim_newlines(t.drop_last())
    } else {
        t
    }
}

/// Every character of `t` is a space.
pub open spec fn all_spaces(t: Seq<char>) -> bool {
    forall|i: int| 0 <= i < t.len() ==> t[i] == ' '
}

/// The start of the line after the one starting at `l`.
pub open spec fn next_line(s: Seq<char>, l: int) -> int {
    line_end(s, l) + 1
}

/// Re-indents the line starting at `l` by `delta` columns (not below zero),
/// with spaces. Blank lines, and lines whose indentation would not change and
/// is already spaces, are left alone.
pub open spec fn shift_edit(s: Seq<char>, l: int, delta: int) -> Seq<EditV> {
    let nl = if line_end(s, l) < s.len() {
        line_end(s, l) + 1
    } else {
        s.len() as int
    };
    let ws = blank_end(s, l) - l;
    let visible = trim_newlines(s.subrange(l, nl)).len();
    let new_len = if ws + delta > 0 {
        ws + delta
    } else {
        0
    };
    if ws == visible {
        Seq::empty()
    } else if new_len == ws && all_spaces(s.subrange(l, l + ws)) {
        Seq::empty()
    } else {
        seq![EditV { start: l, end: l + ws, new: rep(' ', new_len as nat) }]
    }
}

/// Re-indents the lines starting at `l` up to the line starting at `last`,
/// skipping those in the spans `rs`.
pub open spec fn shift_lines(
    s: Seq<char>,
    l: int,
    last: int,
    rs: Seq<(int, int)>,
    delta: int,
) -> Seq<EditV>
    decreases s.len() + 1 - l,
{
    if l < 0 || l > last || l > s.len() {
        Seq::empty()
    } else {
        proof {
            crate::lines::lemma_line_end(s, l);
        }
        let here = if in_ranges(l, rs) {
            Seq::empty()
        } else {
            shift_edit(s, l, delta)
        };
        here + shift_lines(s, next_line(s, l), last, rs, delta)
    }
}

/// `o + 1`, saturating.
pub open spec fn sat_inc(o: u64) -> u64 {
    if o == u64::MAX {
        o
    } else {
        (o + 1) as u64
    }
}

/// The edits for the list whose node is `li` (its subtree clipped to `lim`),
/// its markers forced to column `target` when given.
pub open spec fn list_edits(
    s: Seq<char>,
    ns: Seq<MdNodeV>,
    li: int,
    lim: int,
    target: Option<int>,
) -> Seq<EditV>
    decreases lim - li, 0int,
{
    if li < 0 || li >= lim {
        Seq::empty()
    } else {
        let start: u64 = match ns[li].start_number {
            Some(n) => n as u64,
            None => 1,
        };
        items_edits(s, ns, li + 1, subtree_end(ns, li, lim), ns[li].ordered, start, target)
    }
}

/// The edits for the children `[j, end)` of a list, the next item being
/// numbered `ordinal`.
pub open spec fn items_edits(
    s: Seq<char>,
    ns: Seq<MdNodeV>,
    j: int,
    end: int,
    ordered: bool,
    ordinal: u64,
    target: Option<int>,
) -> Seq<EditV>
    decreases end - j, 3int,
{
    if j < 0 || j >= end {
        Seq::empty()
    } else {
        let jend = subtree_end(ns, j, end);
        if ns[j].kind != MdKind::ListItem || ns[j].pos is None {
            items_edits(s, ns, jend, end, ordered, ordinal, target)
        } else {
            item_edits(s, ns, j, jend, ordered, ordinal, target) + items_edits(
                s,
                ns,
                jend,
                end,
                ordered,
                sat_inc(ordinal),
                target,
            )
        }
    }
}

/// The edits for item `j` (subtree `[j, jend)`): its marker, its nested lists,
/// then its own continuation lines.
pub open spec fn item_edits(
    s: Seq<char>,
    ns: Seq<MdNodeV>,
    j: int,
    jend: int,
    ordered: bool,
    number: u64,
    target: Option<int>,
) -> Seq<EditV>
    decreases jend - j, 2int,
{
    if j < 0 || j >= jend {
        Seq::empty()
    } else {
        match item_plan(s, ns, j, target, ordered, number) {
            None => Seq::empty(),
            Some(p) => {
                let delta = item_delta(s, ns, j, jend, p);
                let last = span_last_line(s, p.line, cix(s, ns[j].pos.unwrap().end));
                let shifts = if delta != 0 {
                    shift_lines(
                        s,
                        next_line(s, p.line),
                        last,
                        nested_ranges(s, ns, j + 1, jend),
                        delta,
                    )
                } else {
                    Seq::empty()
                };
                seq![marker_edit(p)] + nested_edits(s, ns, j + 1, jend, content_col(p)) + shifts
            },
        }
    }
}

/// The edits for the lists among the children `[k, jend)` of an item, their
/// markers anchored at column `col`.
pub open spec fn nested_edits(s: Seq<char>, ns: Seq<MdNodeV>, k: int, jend: int, col: int) -> Seq<
    EditV,
>
    decreases jend - k, 1int,
{
    if k < 0 || k >= jend {
        Seq::empty()
    } else {
        let here = if ns[k].kind == MdKind::List {
            list_edits(s, ns, k, jend, Some(col))
        } else {
            Seq::empty()
        };
        here + nested_edits(s, ns, subtree_end(ns, k, jend), jend, col)
    }
}

/// The edits for every list not nested in another list, from node `i` on.
pub open spec fn top_lists(s: Seq<char>, ns: Seq<MdNodeV>, i: int) -> Seq<EditV>
    decreases ns.len() - i,
{
    if i < 0 || i >= ns.len() {
        Seq::empty()
    } else if ns[i].kind == MdKind::List {
        list_edits(s, ns, i, ns.len() as int, None) + top_lists(
            s,
            ns,
            subtree_end(ns, i, ns.len() as int),
        )
    } else {
        top_lists(s, ns, i + 1)
    }
}

/// `s` with its lists normalised, `ns` being its flattened parse tree.
pub open spec fn lists_formatted(s: Seq<char>, ns: Seq<MdNodeV>) -> Seq<char> {
    apply_edits_spec(s, top_lists(s, ns, 0))
}

/// The character index of byte offset `off`.
fn char_index(s: &Vec<char>, offs: &Vec<usize>, off: usize) -> (r: usize)
    requires
        are_boundary_offsets(s@, offs@),
    ensures
        r == cix(s@, off),
        r <= s@.len(),
{
    floor_index(offs.as_slice(), off, Ghost(s@))
}

/// Appends `n` spaces to `out`.
fn push_spaces(out: &mut Vec<char>, n: u128)
    ensures
        final(out)@ == old(out)@ + rep(' ', n as nat),
{
    let mut i: u128 = 0;
    while i < n
        invariant
            i <= n,
            out@ == old(out)@ + rep(' ', i as nat),
        decreases n - i,
    {
        out.push(' ');
        i += 1;
        assert(out@ =~= old(out)@ + rep(' ', i as nat));
    }
}

/// The list marker starting at `ms` (see [`marker_token`]).
fn find_marker(s: &Vec<char>, ms: usize, ordered: bool, number: u64) -> (r: Option<
    (usize, Vec<char>),
>)
    requires
        ms <= s@.len(),
    ensures
        match marker_token(s@, ms as int, ordered, number) {
            None => r is None,
            Some(t) => r matches Some(x) && x.0 == t.0 && x.1@ == t.1,
        },
        r matches Some(x) ==> x.1@.len() <= 21 && ms < x.0 <= s@.len(),
{
    if ordered {
        let mut i = ms;
        while i < s.len() && '0' <= s[i] && s[i] <= '9'
            invariant
                ms <= i <= s@.len(),
                digits_end(s@, i as int) == digits_end(s@, ms as int),
            decreases s@.len() - i,
        {
            i += 1;
        }
        if i == ms || i >= s.len() {
            return None;
        }
        let delim = s[i];
        if delim != '.' && delim != ')' {
            return None;
        }
        let mut m: Vec<char> = Vec::new();
        push_decimal(&mut m, number as u128);
        m.push(delim);
        proof {
            crate::text::lemma_decimal_len_u64(number);
        }
        Some((i + 1, m))
    } else if ms < s.len() && (s[ms] == '-' || s[ms] == '*' || s[ms] == '+') {
        let mut m: Vec<char> = Vec::new();
        m.push('-');
        assert(m@ =~= seq!['-']);
        Some((ms + 1, m))
    } else {
        None
    }
}

/// The executable form of an [`ItemPlan`].
struct Plan {
    line: usize,
    lead: usize,
    token_end: usize,
    marker: Vec<char>,
    col: u128,
    rest: usize,
    content_here: bool,
}

impl View for Plan {
    type V = ItemPlan;

    closed spec fn view(&self) -> ItemPlan {
        ItemPlan {
            line: self.line as int,
            lead: self.lead as int,
            token_end: self.token_end as int,
            marker: self.marker@,
            col: self.col as int,
            rest: self.rest as int,
            content_here: self.content_here,
        }
    }
}

/// An optional column, as an integer.
pub open spec fn col_of(t: Option<u128>) -> Option<int> {
    match t {
        Some(c) => Some(c as int),
        None => None,
    }
}

/// The plan for item `j` (see [`item_plan`]).
fn plan_item(
    s: &Vec<char>,
    offs: &Vec<usize>,
    ns: &Vec<MdNode>,
    j: usize,
    target: Option<u128>,
    ordered: bool,
    number: u64,
) -> (r: Option<Plan>)
    requires
        are_boundary_offsets(s@, offs@),
        j < ns@.len(),
        ns@[j as int].pos is Some,
    ensures
        match item_plan(s@, nodes_view(ns@), j as int, col_of(target), ordered, number) {
            None => r is None,
            Some(p) => r matches Some(x) && x@ == p,
        },
        r matches Some(x) ==> {
            &&& x.line <= x.lead <= x.token_end <= x.rest <= s@.len()
            &&& x.marker@.len() <= 21
            &&& x.col <= (match target {
                Some(c) => c,
                None => s@.len() as u128,
            })
        },
{
    let pos = ns[j].pos.unwrap();
    let start = char_index(s, offs, pos.start);
    let line = find_line_start(s.as_slice(), start);
    let ms = skip_blanks(s.as_slice(), start);
    proof {
        lemma_line_start(s@, start as int);
        lemma_blank_end(s@, start as int);
    }
    match find_marker(s, ms, ordered, number) {
        None => None,
        Some((te, marker)) => {
            let rest = skip_blanks(s.as_slice(), te);
            proof {
                lemma_blank_end(s@, te as int);
            }
            let col: u128 = match target {
                Some(c) => c,
                None => (ms - line) as u128,
            };
            let content_here = rest < s.len() && s[rest] != '\n' && s[rest] != '\r';
            let lead = crate::lines::skip_blanks_back(s.as_slice(), line, ms);
            Some(Plan { line, lead, token_end: te, marker, col, rest, content_here })
        },
    }
}

/// Integer views of line spans.
pub open spec fn spans_view(v: Seq<(usize, usize)>) -> Seq<(int, int)> {
    Seq::new(v.len(), |i: int| (v[i].0 as int, v[i].1 as int))
}

/// Whether line `l` lies in one of the spans `rs`.
fn in_spans(l: usize, rs: &Vec<(usize, usize)>) -> (r: bool)
    ensures
        r == in_ranges(l as int, spans_view(rs@)),
{
    let mut i: usize = 0;
    while i < rs.len()
        invariant
            i <= rs@.len(),
            forall|q: int|
                0 <= q < i ==> !((#[trigger] rs@[q]).0 <= l && l <= rs@[q].1),
        decreases rs@.len() - i,
    {
        if rs[i].0 <= l && l <= rs[i].1 {
            assert(spans_view(rs@)[i as int].0 <= l <= spans_view(rs@)[i as int].1);
            return true;
        }
        i += 1;
    }
    assert forall|q: int| 0 <= q < spans_view(rs@).len() implies !((
    #[trigger] spans_view(rs@)[q]).0 <= l <= spans_view(rs@)[q].1) by {
        assert(rs@[q].0 == spans_view(rs@)[q].0);
    }
    false
}

/// Appends the re-indentation of the line starting at `l` (see [`shift_edit`]).
fn push_shift(s: &Vec<char>, l: usize, delta: i128, edits: &mut Vec<TextEdit>)
    requires
        l <= s@.len(),
        -0x1_0000_0000_0000_0000_0000 <= delta <= 0x1_0000_0000_0000_0000_0000,
    ensures
        edits_view(final(edits)@) == edits_view(old(edits)@) + shift_edit(s@, l as int, delta as int),
{
    proof {
        lemma_line_end(s@, l as int);
        lemma_blank_end(s@, l as int);
    }
    let le = find_line_end(s.as_slice(), l);
    let nl = if le < s.len() {
        le + 1
    } else {
        s.len()
    };
    let be = skip_blanks(s.as_slice(), l);
    let ws = be - l;
    // The visible end: `nl` with trailing line breaks and carriage returns dropped.
    let mut q = nl;
    while q > l && (s[q - 1] == '\n' || s[q - 1] == '\r')
        invariant
            l <= q <= nl <= s@.len(),
            trim_newlines(s@.subrange(l as int, q as int)) == trim_newlines(
                s@.subrange(l as int, nl as int),
            ),
        decreases q,
    {
        assert(s@.subrange(l as int, q as int).drop_last() =~= s@.subrange(
            l as int,
            (q - 1) as int,
        ));
        q -= 1;
    }
    proof {
        let t = s@.subrange(l as int, q as int);
        assert(!(t.len() > 0 && (t.last() == '\n' || t.last() == '\r')));
        assert(trim_newlines(t) == t);
    }
    let visible = q - l;
    assert(be <= le) by {
        if be > le {
            assert(is_blank(s@[le as int]));
        }
    }
    if ws == visible {
        assert(edits_view(edits@) =~= edits_view(old(edits)@) + shift_edit(
            s@,
            l as int,
            delta as int,
        ));
        return;
    }
    let shifted: i128 = ws as i128 + delta;
    let new_len: u128 = if shifted > 0 {
        shifted as u128
    } else {
        0
    };
    if new_len == ws as u128 {
        let mut k = l;
        while k < be && s[k] == ' '
            invariant
                l <= k <= be <= s@.len(),
                forall|x: int| l <= x < k ==> s@[x] == ' ',
            decreases be - k,
        {
            k += 1;
        }
        if k == be {
            assert(all_spaces(s@.subrange(l as int, (l + ws) as int)));
            assert(edits_view(edits@) =~= edits_view(old(edits)@) + shift_edit(
                s@,
                l as int,
                delta as int,
            ));
            return;
        }
        assert(!all_spaces(s@.subrange(l as int, (l + ws) as int))) by {
            assert(s@.subrange(l as int, (l + ws) as int)[k - l] != ' ');
        }
    }
    let mut new: Vec<char> = Vec::new();
    push_spaces(&mut new, new_len);
    edits.push(TextEdit { start: l, end: be, new });
    assert(edits_view(edits@) =~= edits_view(old(edits)@) + shift_edit(
        s@,
        l as int,
        delta as int,
    ));
}

/// Appends the re-indentation of the lines from `l0` to `last` (see
/// [`shift_lines`]).
fn push_shifts(
    s: &Vec<char>,
    l0: usize,
    last: usize,
    rs: &Vec<(usize, usize)>,
    delta: i128,
    edits: &mut Vec<TextEdit>,
)
    requires
        l0 <= s@.len(),
        -0x1_0000_0000_0000_0000_0000 <= delta <= 0x1_0000_0000_0000_0000_0000,
    ensures
        edits_view(final(edits)@) == edits_view(old(edits)@) + shift_lines(
            s@,
            l0 as int,
            last as int,
            spans_view(rs@),
            delta as int,
        ),
{
    let ghost rv = spans_view(rs@);
    let mut l = l0;
    while l <= last
        invariant
            l <= s@.len(),
            rv == spans_view(rs@),
            -0x1_0000_0000_0000_0000_0000 <= delta <= 0x1_0000_0000_0000_0000_0000,
            edits_view(edits@) + shift_lines(s@, l as int, last as int, rv, delta as int)
                == edits_view(old(edits)@) + shift_lines(
                s@,
                l0 as int,
                last as int,
                rv,
                delta as int,
            ),
        decreases s@.len() - l,
    {
        let ghost before = edits_view(edits@);
        if !in_spans(l, rs) {
            push_shift(s, l, delta, edits);
        }
        proof {
            lemma_line_end(s@, l as int);
        }
        let le = find_line_end(s.as_slice(), l);
        let ghost here = if in_ranges(l as int, rv) {
            Seq::<EditV>::empty()
        } else {
            shift_edit(s@, l as int, delta as int)
        };
        assert(edits_view(edits@) =~= before + here);
        assert(shift_lines(s@, l as int, last as int, rv, delta as int) == here + shift_lines(
            s@,
            next_line(s@, l as int),
            last as int,
            rv,
            delta as int,
        ));
        if le >= s.len() {
            assert(shift_lines(s@, next_line(s@, l as int), last as int, rv, delta as int)
                =~= Seq::<EditV>::empty());
            assert(edits_view(edits@) =~= edits_view(edits@) + Seq::<EditV>::empty());
            return;
        }
        l = le + 1;
    }
}

/// The start of the last line of a span (see [`span_last_line`]).
fn last_line_of(s: &Vec<char>, first: usize, end: usize) -> (r: usize)
    requires
        end <= s@.len(),
    ensures
        r == span_last_line(s@, first as int, end as int),
        r <= end,
{
    let e = find_line_start(s.as_slice(), end);
    proof {
        lemma_line_start(s@, end as int);
    }
    if end > 0 && s[end - 1] == '\n' && e > first {
        proof {
            lemma_line_start(s@, e - 1);
        }
        find_line_start(s.as_slice(), e - 1)
    } else {
        e
    }
}

/// The line spans of the lists among the children `[k0, jend)` of an item
/// (see [`nested_ranges`]).
fn nested_spans(
    s: &Vec<char>,
    offs: &Vec<usize>,
    ns: &Vec<MdNode>,
    k0: usize,
    jend: usize,
) -> (r: Vec<(usize, usize)>)
    requires
        are_boundary_offsets(s@, offs@),
        jend <= ns@.len(),
    ensures
        spans_view(r@) == nested_ranges(s@, nodes_view(ns@), k0 as int, jend as int),
{
    let ghost nv = nodes_view(ns@);
    let mut r: Vec<(usize, usize)> = Vec::new();
    let mut k = k0;
    while k < jend
        invariant
            jend <= ns@.len(),
            nv == nodes_view(ns@),
            are_boundary_offsets(s@, offs@),
            spans_view(r@) + nested_ranges(s@, nv, k as int, jend as int) == nested_ranges(
                s@,
                nv,
                k0 as int,
                jend as int,
            ),
        decreases jend - k,
    {
        let ghost before = spans_view(r@);
        let kend = subtree_end_of(ns, k, jend);
        if ns[k].kind == MdKind::List && ns[k].pos.is_some() {
            let p = ns[k].pos.unwrap();
            let a0 = char_index(s, offs, p.start);
            let a = find_line_start(s.as_slice(), a0);
            let e0 = char_index(s, offs, p.end);
            let b = last_line_of(s, a, e0);
            r.push((a, b));
        }
        let ghost ki = k as int;
        assert(spans_view(r@) =~= before + (if nv[ki].kind == MdKind::List && nv[ki].pos is Some {
            let p = nv[ki].pos.unwrap();
            let a = line_start(s@, cix(s@, p.start));
            seq![(a, span_last_line(s@, a, cix(s@, p.end)))]
        } else {
            Seq::<(int, int)>::empty()
        }));
        k = kend;
    }
    assert(spans_view(r@) =~= spans_view(r@) + Seq::<(int, int)>::empty());
    r
}

/// Appends the edits of the list at node `li` (see [`list_edits`]).
fn push_list(
    s: &Vec<char>,
    offs: &Vec<usize>,
    ns: &Vec<MdNode>,
    li: usize,
    lim: usize,
    target: Option<u128>,
    edits: &mut Vec<TextEdit>,
)
    requires
        are_boundary_offsets(s@, offs@),
        li < lim <= ns@.len(),
        target matches Some(c) ==> c <= s@.len() + 22 * li,
    ensures
        edits_view(final(edits)@) == edits_view(old(edits)@) + list_edits(
            s@,
            nodes_view(ns@),
            li as int,
            lim as int,
            col_of(target),
        ),
    decreases lim - li, 0int,
{
    let end = subtree_end_of(ns, li, lim);
    let start: u64 = match ns[li].start_number {
        Some(n) => n as u64,
        None => 1,
    };
    push_items(s, offs, ns, li + 1, end, ns[li].ordered, start, target, edits);
}

/// Appends the edits of the children `[j0, end)` of a list (see
/// [`items_edits`]).
fn push_items(
    s: &Vec<char>,
    offs: &Vec<usize>,
    ns: &Vec<MdNode>,
    j0: usize,
    end: usize,
    ordered: bool,
    ordinal0: u64,
    target: Option<u128>,
    edits: &mut Vec<TextEdit>,
)
    requires
        are_boundary_offsets(s@, offs@),
        j0 <= end <= ns@.len(),
        target matches Some(c) ==> c + 22 <= s@.len() + 22 * j0,
    ensures
        edits_view(final(edits)@) == edits_view(old(edits)@) + items_edits(
            s@,
            nodes_view(ns@),
            j0 as int,
            end as int,
            ordered,
            ordinal0,
            col_of(target),
        ),
    decreases end - j0, 3int,
{
    let ghost nv = nodes_view(ns@);
    let ghost tg = col_of(target);
    let mut j = j0;
    let mut ordinal = ordinal0;
    while j < end
        invariant
            are_boundary_offsets(s@, offs@),
            j0 <= j <= end <= ns@.len(),
            nv == nodes_view(ns@),
            tg == col_of(target),
            target matches Some(c) ==> c + 22 <= s@.len() + 22 * j0,
            edits_view(edits@) + items_edits(s@, nv, j as int, end as int, ordered, ordinal, tg)
                == edits_view(old(edits)@) + items_edits(
                s@,
                nv,
                j0 as int,
                end as int,
                ordered,
                ordinal0,
                tg,
            ),
        decreases end - j,
    {
        let ghost before = edits_view(edits@);
        let jend = subtree_end_of(ns, j, end);
        if ns[j].kind == MdKind::ListItem && ns[j].pos.is_some() {
            push_item(s, offs, ns, j, jend, ordered, ordinal, target, edits);
            let ghost item = item_edits(s@, nv, j as int, jend as int, ordered, ordinal, tg);
            assert(edits_view(edits@) =~= before + item);
            ordinal = if ordinal == u64::MAX {
                ordinal
            } else {
                ordinal + 1
            };
        }
        j = jend;
    }
    assert(edits_view(edits@) =~= edits_view(edits@) + Seq::<EditV>::empty());
}

/// How far item `j`'s content moves (see [`item_delta`]).
fn item_shift(
    s: &Vec<char>,
    offs: &Vec<usize>,
    ns: &Vec<MdNode>,
    j: usize,
    jend: usize,
    p: &Plan,
) -> (r: i128)
    requires
        are_boundary_offsets(s@, offs@),
        j < jend <= ns@.len(),
        p.line <= p.rest <= s@.len(),
        p.col + p.marker@.len() + 1 <= 0x1_0000_0000_0000_0000_0000,
    ensures
        r == item_delta(s@, nodes_view(ns@), j as int, jend as int, p@),
        -0x1_0000_0000_0000_0000_0000 <= r <= 0x1_0000_0000_0000_0000_0000,
{
    let cc: u128 = p.col + p.marker.len() as u128 + 1;
    if p.content_here {
        cc as i128 - (p.rest - p.line) as i128
    } else if j + 1 < jend && ns[j + 1].pos.is_some() {
        let q = char_index(s, offs, ns[j + 1].pos.unwrap().start);
        let ql = find_line_start(s.as_slice(), q);
        proof {
            lemma_line_start(s@, q as int);
        }
        cc as i128 - (q - ql) as i128
    } else {
        0
    }
}

/// The edit that rewrites an item's marker (see [`marker_edit`]).
fn marker_text_edit(p: &Plan) -> (r: TextEdit)
    requires
        p.line <= p.lead,
    ensures
        r@ == marker_edit(p@),
{
    let mut new: Vec<char> = Vec::new();
    let kept = (p.lead - p.line) as u128;
    let pad: u128 = if p.col > kept {
        p.col - kept
    } else {
        0
    };
    push_spaces(&mut new, pad);
    crate::text::extend(&mut new, p.marker.as_slice());
    let mut edit_end = p.token_end;
    if p.content_here {
        new.push(' ');
        edit_end = p.rest;
    }
    let me = TextEdit { start: p.lead, end: edit_end, new };
    assert(me@ == marker_edit(p@)) by {
        if p.content_here {
            assert(me.new@ =~= rep(' ', lead_pad(p@)) + p@.marker + seq![' ']);
        } else {
            assert(me.new@ =~= rep(' ', lead_pad(p@)) + p@.marker);
        }
    }
    me
}

/// Appends the re-indentation of item `j`'s own continuation lines, those
/// after its marker line up to `last` outside its nested lists.
fn push_item_shifts(
    s: &Vec<char>,
    offs: &Vec<usize>,
    ns: &Vec<MdNode>,
    j: usize,
    jend: usize,
    line: usize,
    last: usize,
    delta: i128,
    edits: &mut Vec<TextEdit>,
)
    requires
        are_boundary_offsets(s@, offs@),
        j < jend <= ns@.len(),
        line <= s@.len(),
        -0x1_0000_0000_0000_0000_0000 <= delta <= 0x1_0000_0000_0000_0000_0000,
    ensures
        edits_view(final(edits)@) == edits_view(old(edits)@) + shift_lines(
            s@,
            next_line(s@, line as int),
            last as int,
            nested_ranges(s@, nodes_view(ns@), j + 1, jend as int),
            delta as int,
        ),
{
    let rs = nested_spans(s, offs, ns, j + 1, jend);
    proof {
        lemma_line_end(s@, line as int);
    }
    let le = find_line_end(s.as_slice(), line);
    if le < s.len() {
        push_shifts(s, le + 1, last, &rs, delta, edits);
    } else {
        assert(shift_lines(
            s@,
            next_line(s@, line as int),
            last as int,
            spans_view(rs@),
            delta as int,
        ) =~= Seq::<EditV>::empty());
        assert(edits_view(edits@) =~= edits_view(edits@) + Seq::<EditV>::empty());
    }
}

/// Appends the edits of item `j` (see [`item_edits`]).
#[verifier::rlimit(50)]
fn push_item(
    s: &Vec<char>,
    offs: &Vec<usize>,
    ns: &Vec<MdNode>,
    j: usize,
    jend: usize,
    ordered: bool,
    number: u64,
    target: Option<u128>,
    edits: &mut Vec<TextEdit>,
)
    requires
        are_boundary_offsets(s@, offs@),
        j < jend <= ns@.len(),
        ns@[j as int].pos is Some,
        target matches Some(c) ==> c + 22 <= s@.len() + 22 * j,
    ensures
        edits_view(final(edits)@) == edits_view(old(edits)@) + item_edits(
            s@,
            nodes_view(ns@),
            j as int,
            jend as int,
            ordered,
            number,
            col_of(target),
        ),
    decreases jend - j, 2int,
{
    let ghost nv = nodes_view(ns@);
    let plan = plan_item(s, offs, ns, j, target, ordered, number);
    match plan {
        None => {
            assert(edits_view(edits@) =~= edits_view(old(edits)@) + Seq::<EditV>::empty());
        },
        Some(p) => {
            let ghost pv = p@;
            let slen = s.len();
            assert(p.col <= slen + 22 * j);
            let cc: u128 = p.col + p.marker.len() as u128 + 1;
            let delta = item_shift(s, offs, ns, j, jend, &p);
            let e0 = char_index(s, offs, ns[j].pos.unwrap().end);
            let last = last_line_of(s, p.line, e0);
            edits.push(marker_text_edit(&p));
            let ghost after_marker = edits_view(edits@);
            assert(after_marker =~= edits_view(old(edits)@) + seq![marker_edit(pv)]);
            push_nested(s, offs, ns, j + 1, jend, cc, edits);
            let ghost after_nested = edits_view(edits@);
            if delta != 0 {
                push_item_shifts(s, offs, ns, j, jend, p.line, last, delta, edits);
            } else {
                assert(edits_view(edits@) =~= edits_view(edits@) + Seq::<EditV>::empty());
            }
            assert(edits_view(edits@) =~= edits_view(old(edits)@) + item_edits(
                s@,
                nv,
                j as int,
                jend as int,
                ordered,
                number,
                col_of(target),
            ));
        },
    }
}

/// Appends the edits of the lists among the children `[k0, jend)` of an item
/// (see [`nested_edits`]).
fn push_nested(
    s: &Vec<char>,
    offs: &Vec<usize>,
    ns: &Vec<MdNode>,
    k0: usize,
    jend: usize,
    col: u128,
    edits: &mut Vec<TextEdit>,
)
    requires
        are_boundary_offsets(s@, offs@),
        jend <= ns@.len(),
        col <= s@.len() + 22 * k0,
    ensures
        edits_view(final(edits)@) == edits_view(old(edits)@) + nested_edits(
            s@,
            nodes_view(ns@),
            k0 as int,
            jend as int,
            col as int,
        ),
    decreases jend - k0, 1int,
{
    let ghost nv = nodes_view(ns@);
    let mut k = k0;
    while k < jend
        invariant
            are_boundary_offsets(s@, offs@),
            k0 <= k,
            jend <= ns@.len(),
            nv == nodes_view(ns@),
            col <= s@.len() + 22 * k0,
            edits_view(edits@) + nested_edits(s@, nv, k as int, jend as int, col as int)
                == edits_view(old(edits)@) + nested_edits(
                s@,
                nv,
                k0 as int,
                jend as int,
                col as int,
            ),
        decreases jend - k,
    {
        let ghost before = edits_view(edits@);
        let kend = subtree_end_of(ns, k, jend);
        if ns[k].kind == MdKind::List {
            push_list(s, offs, ns, k, jend, Some(col), edits);
        }
        assert(edits_view(edits@) =~= before + (if nv[k as int].kind == MdKind::List {
            list_edits(s@, nv, k as int, jend as int, Some(col as int))
        } else {
            Seq::<EditV>::empty()
        }));
        k = kend;
    }
    assert(edits_view(edits@) =~= edits_view(edits@) + Seq::<EditV>::empty());
}

/// The edits for every list of the document (see [`top_lists`]).
fn all_list_edits(s: &Vec<char>, offs: &Vec<usize>, ns: &Vec<MdNode>) -> (r: Vec<TextEdit>)
    requires
        are_boundary_offsets(s@, offs@),
    ensures
        edits_view(r@) == top_lists(s@, nodes_view(ns@), 0),
{
    let ghost nv = nodes_view(ns@);
    let mut edits: Vec<TextEdit> = Vec::new();
    let mut i: usize = 0;
    assert(edits_view(edits@) =~= Seq::<EditV>::empty());
    while i < ns.len()
        invariant
            are_boundary_offsets(s@, offs@),
            nv == nodes_view(ns@),
            edits_view(edits@) + top_lists(s@, nv, i as int) == top_lists(s@, nv, 0),
        decreases ns@.len() - i,
    {
        let ghost before = edits_view(edits@);
        if ns[i].kind == MdKind::List {
            push_list(s, offs, ns, i, ns.len(), None, &mut edits);
            assert(edits_view(edits@) =~= before + list_edits(
                s@,
                nv,
                i as int,
                ns@.len() as int,
                None,
            ));
            i = subtree_end_of(ns, i, ns.len());
        } else {
            i += 1;
        }
    }
    assert(edits_view(edits@) =~= edits_view(edits@) + Seq::<EditV>::empty());
    edits
}

/// The text of `source` with its lists normalised (see the module
/// documentation). The tree is parsed with GFM constructs when `gfm`.
pub fn format_lists(source: &str, gfm: bool) -> (r: String)
    ensures
        r@ == lists_formatted(source@, crate::mdast::parsed(source@, gfm)),
{
    let ns = crate::mdast::parse_markdown(source, gfm);
    format_lists_of_tree(source, &ns)
}

/// The text of `source` with its lists normalised, `ns` being its
/// flattened parse tree.
pub fn format_lists_of_tree(source: &str, ns: &Vec<MdNode>) -> (r: String)
    ensures
        r@ == lists_formatted(source@, nodes_view(ns@)),
{
    let (chars, offs) = crate::offsets::chars_and_offsets(source);
    let edits = all_list_edits(&chars, &offs, ns);
    let out = apply_edits(&chars, &edits);
    crate::text::string_of(out.as_slice())
}

/// A document without lists is left unchanged by list formatting.
pub proof fn lemma_no_lists_unchanged(s: Seq<char>, ns: Seq<MdNodeV>)
    requires
        forall|i: int| 0 <= i < ns.len() ==> #[trigger] ns[i].kind != MdKind::List,
    ensures
        lists_formatted(s, ns) == s,
{
    lemma_top_lists_none(s, ns, 0);
    crate::edits::lemma_apply_no_edits(s);
}

proof fn lemma_top_lists_none(s: Seq<char>, ns: Seq<MdNodeV>, i: int)
    requires
        forall|j: int| 0 <= j < ns.len() ==> #[trigger] ns[j].kind != MdKind::List,
    ensures
        top_lists(s, ns, i) == Seq::<EditV>::empty(),
    decreases ns.len() - i,
{
    if 0 <= i < ns.len() {
        assert(ns[i].kind != MdKind::List);
        lemma_top_lists_none(s, ns, i + 1);
    }
}

/// How a list item's marker is normalised: the item's first edit rewrites
/// its marker; a bullet becomes `-`, an ordered marker becomes the item's
/// number followed by the delimiter it had (`.` or `)`); the edit starts
/// after what precedes the marker's indentation on its line (such as a block
/// quote's `>`), which is kept; when content follows on the marker's line,
/// the whole gap up to it becomes one space.
/// Each item after the first of its list is numbered one more than the one
/// before it.
pub proof fn lemma_list_markers_normalised(
    s: Seq<char>,
    ns: Seq<MdNodeV>,
    j: int,
    jend: int,
    ordered: bool,
    number: u64,
    target: Option<int>,
)
    requires
        0 <= j < jend,
        0 <= j < ns.len(),
        ns[j].pos is Some,
    ensures
        match item_plan(s, ns, j, target, ordered, number) {
            Some(p) => {
                &&& item_edits(s, ns, j, jend, ordered, number, target)[0] == marker_edit(p)
                &&& marker_edit(p).start == p.lead
                &&& !ordered ==> p.marker == seq!['-']
                &&& ordered ==> (p.marker == decimal(number as nat).push(s[p.token_end - 1]) && (
                s[p.token_end - 1] == '.' || s[p.token_end - 1] == ')'))
                &&& p.content_here ==> marker_edit(p).new == rep(' ', lead_pad(p)) + p.marker
                    + seq![' '] && marker_edit(p).end == p.rest && blank_end(s, p.token_end)
                    == p.rest
            },
            None => item_edits(s, ns, j, jend, ordered, number, target).len() == 0,
        },
        ns[j].kind == MdKind::ListItem ==> items_edits(s, ns, j, jend, ordered, number, target)
            == item_edits(s, ns, j, subtree_end(ns, j, jend), ordered, number, target)
            + items_edits(s, ns, subtree_end(ns, j, jend), jend, ordered, sat_inc(number), target),
{
}

proof fn lemma_digit_char_not_nl(d: nat)
    requires
        d < 10,
    ensures
        digit_char(d) != '\n',
{
    let b = (48 + d) as u8;
    assert(b == 48 + d);
    assert((b as char) as u32 == b as u32);
}

proof fn lemma_decimal_no_nl(n: nat)
    ensures
        forall|k: int| 0 <= k < decimal(n).len() ==> decimal(n)[k] != '\n',
    decreases n,
{
    if n < 10 {
        lemma_digit_char_not_nl(n);
    } else {
        lemma_decimal_no_nl(n / 10);
        lemma_digit_char_not_nl(n % 10);
        let d = decimal(n / 10);
        assert forall|k: int| 0 <= k < decimal(n).len() implies decimal(n)[k] != '\n' by {
            if k < d.len() {
                assert(decimal(n)[k] == d[k]);
            }
        }
    }
}

proof fn lemma_blank_start(s: Seq<char>, from: int, p: int)
    requires
        0 <= from <= p <= s.len(),
    ensures
        from <= blank_start(s, from, p) <= p,
        forall|k: int| blank_start(s, from, p) <= k < p ==> is_blank(#[trigger] s[k]),
    decreases p - from,
{
    if p > from && 0 < p <= s.len() && is_blank(s[p - 1]) {
        lemma_blank_start(s, from, p - 1);
    }
}

proof fn lemma_digits_end(s: Seq<char>, p: int)
    requires
        0 <= p <= s.len(),
    ensures
        p <= digits_end(s, p) <= s.len(),
        forall|k: int| p <= k < digits_end(s, p) ==> is_digit(#[trigger] s[k]),
    decreases s.len() - p,
{
    if 0 <= p < s.len() && is_digit(s[p]) {
        lemma_digits_end(s, p + 1);
    }
}

proof fn lemma_keep_concat(s: Seq<char>, a: Seq<EditV>, b: Seq<EditV>)
    requires
        all_keep_lines(s, a),
        all_keep_lines(s, b),
    ensures
        all_keep_lines(s, a + b),
{
    assert forall|k: int| 0 <= k < (a + b).len() implies keeps_lines(s, #[trigger] (a + b)[k]) by {
        if k < a.len() {
            assert((a + b)[k] == a[k]);
        } else {
            assert((a + b)[k] == b[k - a.len()]);
        }
    }
}

proof fn lemma_rep_no_nl(c: char, n: nat)
    requires
        c != '\n',
    ensures
        forall|k: int| 0 <= k < rep(c, n).len() ==> rep(c, n)[k] != '\n',
{
}

/// An item's marker edit neither removes nor writes a line break.
proof fn lemma_marker_edit_keeps(
    s: Seq<char>,
    ns: Seq<MdNodeV>,
    j: int,
    target: Option<int>,
    ordered: bool,
    number: u64,
)
    requires
        0 <= j < ns.len(),
        item_plan(s, ns, j, target, ordered, number) is Some,
    ensures
        keeps_lines(s, marker_edit(item_plan(s, ns, j, target, ordered, number).unwrap())),
{
    let p = item_plan(s, ns, j, target, ordered, number).unwrap();
    let start = cix(s, ns[j].pos.unwrap().start);
    crate::offsets::lemma_char_floor(s, ns[j].pos.unwrap().start as int);
    let line = line_start(s, start);
    lemma_line_start(s, start);
    let ms = blank_end(s, start);
    lemma_blank_end(s, start);
    lemma_blank_start(s, line, ms);
    let t = marker_token(s, ms, ordered, number).unwrap();
    if ordered {
        lemma_digits_end(s, ms);
        lemma_decimal_no_nl(number as nat);
    }
    lemma_blank_end(s, t.0);
    lemma_rep_no_nl(' ', lead_pad(p));
    let e = marker_edit(p);
    assert forall|k: int| e.start <= k < e.end && k < s.len() implies s[k] != '\n' by {
        if k < ms {
            assert(is_blank(s[k]));
        } else if k < t.0 {
            if ordered && k < t.0 - 1 {
                assert(is_digit(s[k]));
            }
        } else {
            assert(is_blank(s[k]));
        }
    }
    assert forall|k: int| 0 <= k < e.new.len() implies e.new[k] != '\n' by {
        let pad = rep(' ', lead_pad(p));
        if k < pad.len() {
            assert(e.new[k] == pad[k]);
        } else if k < pad.len() + p.marker.len() {
            assert(e.new[k] == p.marker[k - pad.len()]);
            if ordered {
                let dm = decimal(number as nat);
                if k - pad.len() < dm.len() {
                    assert(p.marker[k - pad.len()] == dm[k - pad.len()]);
                }
            }
        }
    }
}

proof fn lemma_shift_edit_keeps(s: Seq<char>, l: int, delta: int)
    requires
        0 <= l <= s.len(),
    ensures
        all_keep_lines(s, shift_edit(s, l, delta)),
{
    lemma_blank_end(s, l);
    let es = shift_edit(s, l, delta);
    if es.len() > 0 {
        let e = es[0];
        lemma_rep_no_nl(' ', e.new.len());
        assert forall|k: int| e.start <= k < e.end && k < s.len() implies s[k] != '\n' by {
            assert(is_blank(s[k]));
        }
        assert(keeps_lines(s, e));
    }
}

proof fn lemma_shift_lines_keeps(s: Seq<char>, l: int, last: int, rs: Seq<(int, int)>, delta: int)
    ensures
        all_keep_lines(s, shift_lines(s, l, last, rs, delta)),
    decreases s.len() + 1 - l,
{
    if !(l < 0 || l > last || l > s.len()) {
        lemma_line_end(s, l);
        let here = if in_ranges(l, rs) {
            Seq::empty()
        } else {
            shift_edit(s, l, delta)
        };
        lemma_shift_edit_keeps(s, l, delta);
        lemma_shift_lines_keeps(s, next_line(s, l), last, rs, delta);
        lemma_keep_concat(s, here, shift_lines(s, next_line(s, l), last, rs, delta));
    }
}

proof fn lemma_top_keeps(s: Seq<char>, ns: Seq<MdNodeV>, i: int)
    ensures
        all_keep_lines(s, top_lists(s, ns, i)),
    decreases ns.len() - i,
{
    if !(i < 0 || i >= ns.len()) {
        if ns[i].kind == MdKind::List {
            let e = subtree_end(ns, i, ns.len() as int);
            lemma_list_keeps(s, ns, i, ns.len() as int, None);
            lemma_top_keeps(s, ns, e);
            lemma_keep_concat(s, list_edits(s, ns, i, ns.len() as int, None), top_lists(s, ns, e));
        } else {
            lemma_top_keeps(s, ns, i + 1);
        }
    }
}

proof fn lemma_list_keeps(s: Seq<char>, ns: Seq<MdNodeV>, li: int, lim: int, target: Option<int>)
    requires
        lim <= ns.len(),
    ensures
        all_keep_lines(s, list_edits(s, ns, li, lim, target)),
    decreases lim - li, 0int,
{
    if !(li < 0 || li >= lim) {
        let start: u64 = match ns[li].start_number {
            Some(n) => n as u64,
            None => 1,
        };
        lemma_items_keeps(
            s,
            ns,
            li + 1,
            subtree_end(ns, li, lim),
            ns[li].ordered,
            start,
            target,
        );
    }
}

proof fn lemma_items_keeps(
    s: Seq<char>,
    ns: Seq<MdNodeV>,
    j: int,
    end: int,
    ordered: bool,
    ordinal: u64,
    target: Option<int>,
)
    requires
        end <= ns.len(),
    ensures
        all_keep_lines(s, items_edits(s, ns, j, end, ordered, ordinal, target)),
    decreases end - j, 3int,
{
    if !(j < 0 || j >= end) {
        let jend = subtree_end(ns, j, end);
        if ns[j].kind != MdKind::ListItem || ns[j].pos is None {
            lemma_items_keeps(s, ns, jend, end, ordered, ordinal, target);
        } else {
            lemma_item_keeps(s, ns, j, jend, ordered, ordinal, target);
            lemma_items_keeps(s, ns, jend, end, ordered, sat_inc(ordinal), target);
            lemma_keep_concat(
                s,
                item_edits(s, ns, j, jend, ordered, ordinal, target),
                items_edits(s, ns, jend, end, ordered, sat_inc(ordinal), target),
            );
        }
    }
}

proof fn lemma_item_keeps(
    s: Seq<char>,
    ns: Seq<MdNodeV>,
    j: int,
    jend: int,
    ordered: bool,
    number: u64,
    target: Option<int>,
)
    requires
        jend <= ns.len(),
    ensures
        all_keep_lines(s, item_edits(s, ns, j, jend, ordered, number, target)),
    decreases jend - j, 2int,
{
    if !(j < 0 || j >= jend) {
        match item_plan(s, ns, j, target, ordered, number) {
            None => {},
            Some(p) => {
                let delta = item_delta(s, ns, j, jend, p);
                let last = span_last_line(s, p.line, cix(s, ns[j].pos.unwrap().end));
                let shifts = if delta != 0 {
                    shift_lines(
                        s,
                        next_line(s, p.line),
                        last,
                        nested_ranges(s, ns, j + 1, jend),
                        delta,
                    )
                } else {
                    Seq::empty()
                };
                lemma_marker_edit_keeps(s, ns, j, target, ordered, number);
                lemma_nested_keeps(s, ns, j + 1, jend, content_col(p));
                lemma_shift_lines_keeps(
                    s,
                    next_line(s, p.line),
                    last,
                    nested_ranges(s, ns, j + 1, jend),
                    delta,
                );
                let m = seq![marker_edit(p)];
                assert(all_keep_lines(s, m));
                lemma_keep_concat(s, m, nested_edits(s, ns, j + 1, jend, content_col(p)));
                lemma_keep_concat(
                    s,
                    m + nested_edits(s, ns, j + 1, jend, content_col(p)),
                    shifts,
                );
            },
        }
    }
}

proof fn lemma_nested_keeps(s: Seq<char>, ns: Seq<MdNodeV>, k: int, jend: int, col: int)
    requires
        jend <= ns.len(),
    ensures
        all_keep_lines(s, nested_edits(s, ns, k, jend, col)),
    decreases jend - k, 1int,
{
    if !(k < 0 || k >= jend) {
        let here = if ns[k].kind == MdKind::List {
            list_edits(s, ns, k, jend, Some(col))
        } else {
            Seq::empty()
        };
        if ns[k].kind == MdKind::List {
            lemma_list_keeps(s, ns, k, jend, Some(col));
        }
        let e = subtree_end(ns, k, jend);
        lemma_nested_keeps(s, ns, e, jend, col);
        lemma_keep_concat(s, here, nested_edits(s, ns, e, jend, col));
    }
}

/// List formatting keeps the lines as they are: the result has exactly as
/// many line breaks as the text, since markers, gaps and indentation are
/// only ever rewritten within a line.
pub proof fn lemma_lists_keep_line_count(s: Seq<char>, ns: Seq<MdNodeV>)
    ensures
        crate::edits::count_nl(lists_formatted(s, ns)) == crate::edits::count_nl(s),
{
    lemma_top_keeps(s, ns, 0);
    crate::edits::lemma_apply_keeps_line_count(s, top_lists(s, ns, 0));
}

} // verus!
