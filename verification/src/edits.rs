//! Position-based text edits.
//!
//! The formatters never re-serialise a document: they collect replacements of
//! `[start, end)` character ranges and apply them right to left, so that text
//! they do not touch stays exactly as it was. Edits are ordered by start, then
//! end, both descending, keeping the collection order among equal keys; an
//! edit that would reach into text already rewritten (its end past the start
//! of the previously applied edit) is skipped.

use vstd::prelude::*;

verus! {

/// A replacement of the characters `[start, end)` by `new`.
pub struct TextEdit {
    pub start: usize,
    pub end: usize,
    pub new: Vec<char>,
}

/// The mathematical value of a [`TextEdit`].
pub struct EditV {
    pub start: int,
    pub end: int,
    pub new: Seq<char>,
}

impl View for TextEdit {
    type V = EditV;

    open spec fn view(&self) -> EditV {
        EditV { start: self.start as int, end: self.end as int, new: self.new@ }
    }
}

/// The views of a vector of edits.
pub open spec fn edits_view(v: Seq<TextEdit>) -> Seq<EditV> {
    Seq::new(v.len(), |i: int| v[i]@)
}

/// `a` is applied strictly before `b`: a later start, or the same start and a
/// later end.
pub open spec fn goes_before(a: EditV, b: EditV) -> bool {
    a.start > b.start || (a.start == b.start && a.end > b.end)
}

/// Inserts `e` into the ordered `s`, after every edit that does not go after it.
pub open spec fn insert_ordered(s: Seq<EditV>, e: EditV) -> Seq<EditV>
    decreases s.len(),
{
    if s.len() == 0 {
        seq![e]
    } else if goes_before(e, s[0]) {
        seq![e] + s
    } else {
        seq![s[0]] + insert_ordered(s.drop_first(), e)
    }
}

/// The edits in application order: a stable sort by (start, end), descending.
pub open spec fn order_edits(es: Seq<EditV>) -> Seq<EditV>
    decreases es.len(),
{
    if es.len() == 0 {
        Seq::empty()
    } else {
        insert_ordered(order_edits(es.drop_last()), es.last())
    }
}

/// Applies the ordered edits `es` to `text`; `boundary` is the start of the
/// last applied edit (initially the end of the text).
pub open spec fn apply_ordered(text: Seq<char>, es: Seq<EditV>, boundary: int) -> Seq<char>
    decreases es.len(),
{
    if es.len() == 0 {
        text
    } else {
        let e = es[0];
        if e.start > e.end || e.end > boundary {
            apply_ordered(text, es.drop_first(), boundary)
        } else {
            apply_ordered(
                text.subrange(0, e.start) + e.new + text.subrange(e.end, text.len() as int),
                es.drop_first(),
                e.start,
            )
        }
    }
}

/// The text after applying the edits `es` to `text`.
pub open spec fn apply_edits_spec(text: Seq<char>, es: Seq<EditV>) -> Seq<char> {
    apply_ordered(text, order_edits(es), text.len() as int)
}

/// Inserting `e` at the first position whose edit goes after it is
/// `insert_ordered`.
proof fn lemma_insert_at(s: Seq<EditV>, e: EditV, i: int)
    requires
        0 <= i <= s.len(),
        forall|j: int| 0 <= j < i ==> !goes_before(e, #[trigger] s[j]),
        i < s.len() ==> goes_before(e, s[i]),
    ensures
        insert_ordered(s, e) == s.insert(i, e),
    decreases s.len(),
{
    if s.len() == 0 {
        assert(s.insert(i, e) =~= seq![e]);
    } else if i == 0 {
        assert(s.insert(i, e) =~= seq![e] + s);
    } else {
        let t = s.drop_first();
        assert forall|j: int| 0 <= j < i - 1 implies !goes_before(e, #[trigger] t[j]) by {
            assert(t[j] == s[j + 1]);
        }
        lemma_insert_at(t, e, i - 1);
        assert(s.insert(i, e) =~= seq![s[0]] + t.insert(i - 1, e));
    }
}

/// Applying no edits leaves the text unchanged.
pub proof fn lemma_apply_no_edits(text: Seq<char>)
    ensures
        apply_edits_spec(text, Seq::empty()) == text,
{
}

/// The application order of the edits, as indices into `edits`.
fn edit_order(edits: &Vec<TextEdit>) -> (ord: Vec<usize>)
    ensures
        ord@.len() == edits@.len(),
        forall|k: int| 0 <= k < ord@.len() ==> #[trigger] ord@[k] < edits@.len(),
        Seq::new(ord@.len(), |k: int| edits@[ord@[k] as int]@) == order_edits(
            edits_view(edits@),
        ),
{
    let ghost es = edits_view(edits@);
    let mut ord: Vec<usize> = Vec::new();
    let mut n: usize = 0;
    assert(es.take(0) =~= Seq::<EditV>::empty());
    assert(Seq::new(0, |k: int| edits@[ord@[k] as int]@) =~= Seq::<EditV>::empty());
    while n < edits.len()
        invariant
            es == edits_view(edits@),
            n <= edits@.len(),
            ord@.len() == n,
            forall|k: int| 0 <= k < ord@.len() ==> #[trigger] ord@[k] < n,
            Seq::new(ord@.len(), |k: int| edits@[ord@[k] as int]@) == order_edits(
                es.take(n as int),
            ),
        decreases edits@.len() - n,
    {
        let ghost cur = Seq::new(ord@.len(), |k: int| edits@[ord@[k] as int]@);
        let e = &edits[n];
        let mut i: usize = 0;
        while i < ord.len()
            invariant
                i <= ord@.len(),
                ord@.len() == n,
                n < edits@.len(),
                forall|k: int| 0 <= k < ord@.len() ==> #[trigger] ord@[k] < n,
                cur == Seq::new(ord@.len(), |k: int| edits@[ord@[k] as int]@),
                *e == edits@[n as int],
                forall|j: int| 0 <= j < i ==> !goes_before(e@, #[trigger] cur[j]),
            ensures
                i <= ord@.len(),
                forall|j: int| 0 <= j < i ==> !goes_before(e@, #[trigger] cur[j]),
                i < ord@.len() ==> goes_before(e@, cur[i as int]),
            decreases ord@.len() - i,
        {
            let x = &edits[ord[i]];
            if e.start > x.start || (e.start == x.start && e.end > x.end) {
                break;
            }
            i += 1;
        }
        proof {
            lemma_insert_at(cur, e@, i as int);
            assert(es.take(n + 1).drop_last() =~= es.take(n as int));
            assert(es.take(n + 1).last() == e@);
        }
        ord.insert(i, n);
        n += 1;
        assert(Seq::new(ord@.len(), |k: int| edits@[ord@[k] as int]@) =~= cur.insert(
            i as int,
            edits@[(n - 1) as int]@,
        ));
    }
    assert(es.take(n as int) =~= es);
    ord
}

/// `text[..start] + new + text[end..]`.
pub fn splice(text: &Vec<char>, start: usize, end: usize, new: &Vec<char>) -> (r: Vec<char>)
    requires
        start <= end <= text@.len(),
    ensures
        r@ == text@.subrange(0, start as int) + new@ + text@.subrange(
            end as int,
            text@.len() as int,
        ),
{
    let mut out: Vec<char> = Vec::new();
    let mut i: usize = 0;
    while i < start
        invariant
            i <= start <= end <= text@.len(),
            out@ == text@.subrange(0, i as int),
        decreases start - i,
    {
        out.push(text[i]);
        i += 1;
        assert(out@ =~= text@.subrange(0, i as int));
    }
    crate::text::extend(&mut out, new.as_slice());
    let mut j: usize = end;
    let ghost base = out@;
    while j < text.len()
        invariant
            end <= j <= text@.len(),
            out@ == base + text@.subrange(end as int, j as int),
        decreases text@.len() - j,
    {
        out.push(text[j]);
        j += 1;
        assert(out@ =~= base + text@.subrange(end as int, j as int));
    }
    out
}

/// Applies `edits` to `text` (see the module documentation).
pub fn apply_edits(text: &Vec<char>, edits: &Vec<TextEdit>) -> (r: Vec<char>)
    ensures
        r@ == apply_edits_spec(text@, edits_view(edits@)),
{
    let ord = edit_order(edits);
    let ghost sorted = order_edits(edits_view(edits@));
    let mut out: Vec<char> = text.clone();
    let mut boundary: usize = text.len();
    let mut k: usize = 0;
    assert(sorted.skip(0) =~= sorted);
    while k < ord.len()
        invariant
            ord@.len() == edits@.len(),
            forall|q: int| 0 <= q < ord@.len() ==> #[trigger] ord@[q] < edits@.len(),
            Seq::new(ord@.len(), |q: int| edits@[ord@[q] as int]@) == sorted,
            k <= ord@.len(),
            boundary <= out@.len(),
            apply_ordered(out@, sorted.skip(k as int), boundary as int) == apply_ordered(
                text@,
                sorted,
                text@.len() as int,
            ),
        decreases ord@.len() - k,
    {
        let e = &edits[ord[k]];
        assert(sorted[k as int] == e@);
        assert(sorted.skip(k as int).drop_first() =~= sorted.skip(k + 1));
        if e.start <= e.end && e.end <= boundary {
            out = splice(&out, e.start, e.end, &e.new);
            boundary = e.start;
        }
        k += 1;
    }
    out
}

/// The number of line breaks (`\n`) in `t`.
pub open spec fn count_nl(t: Seq<char>) -> nat
    decreases t.len(),
{
    if t.len() == 0 {
        0
    } else {
        count_nl(t.drop_last()) + if t.last() == '\n' {
            1nat
        } else {
            0nat
        }
    }
}

pub proof fn lemma_count_nl_concat(a: Seq<char>, b: Seq<char>)
    ensures
        count_nl(a + b) == count_nl(a) + count_nl(b),
    decreases b.len(),
{
    if b.len() == 0 {
        assert(a + b =~= a);
    } else {
        assert((a + b).drop_last() =~= a + b.drop_last());
        lemma_count_nl_concat(a, b.drop_last());
    }
}

pub proof fn lemma_count_nl_none(t: Seq<char>)
    requires
        forall|k: int| 0 <= k < t.len() ==> t[k] != '\n',
    ensures
        count_nl(t) == 0,
    decreases t.len(),
{
    if t.len() > 0 {
        lemma_count_nl_none(t.drop_last());
    }
}

/// Edit `e` neither removes a line break of `s` nor writes one.
pub open spec fn keeps_lines(s: Seq<char>, e: EditV) -> bool {
    &&& 0 <= e.start
    &&& forall|k: int| e.start <= k < e.end && k < s.len() ==> s[k] != '\n'
    &&& forall|k: int| 0 <= k < e.new.len() ==> e.new[k] != '\n'
}

/// Every edit of `es` keeps the line breaks of `s`.
pub open spec fn all_keep_lines(s: Seq<char>, es: Seq<EditV>) -> bool {
    forall|k: int| 0 <= k < es.len() ==> keeps_lines(s, #[trigger] es[k])
}

proof fn lemma_insert_ordered_keeps(s: Seq<char>, es: Seq<EditV>, e: EditV)
    requires
        all_keep_lines(s, es),
        keeps_lines(s, e),
    ensures
        all_keep_lines(s, insert_ordered(es, e)),
    decreases es.len(),
{
    if es.len() > 0 && !goes_before(e, es[0]) {
        let t = es.drop_first();
        assert forall|k: int| 0 <= k < t.len() implies keeps_lines(s, #[trigger] t[k]) by {
            assert(t[k] == es[k + 1]);
        }
        lemma_insert_ordered_keeps(s, t, e);
        let r = seq![es[0]] + insert_ordered(t, e);
        assert forall|k: int| 0 <= k < r.len() implies keeps_lines(s, #[trigger] r[k]) by {
            if k > 0 {
                assert(r[k] == insert_ordered(t, e)[k - 1]);
            }
        }
    } else if es.len() > 0 {
        let r = seq![e] + es;
        assert forall|k: int| 0 <= k < r.len() implies keeps_lines(s, #[trigger] r[k]) by {
            if k > 0 {
                assert(r[k] == es[k - 1]);
            }
        }
    }
}

proof fn lemma_order_keeps(s: Seq<char>, es: Seq<EditV>)
    requires
        all_keep_lines(s, es),
    ensures
        all_keep_lines(s, order_edits(es)),
    decreases es.len(),
{
    if es.len() > 0 {
        let d = es.drop_last();
        assert forall|k: int| 0 <= k < d.len() implies keeps_lines(s, #[trigger] d[k]) by {
            assert(d[k] == es[k]);
        }
        lemma_order_keeps(s, d);
        assert(keeps_lines(s, es[es.len() - 1]));
        lemma_insert_ordered_keeps(s, order_edits(d), es.last());
    }
}

proof fn lemma_apply_ordered_keeps(orig: Seq<char>, cur: Seq<char>, es: Seq<EditV>, boundary: int)
    requires
        all_keep_lines(orig, es),
        0 <= boundary <= cur.len(),
        boundary <= orig.len(),
        cur.subrange(0, boundary) == orig.subrange(0, boundary),
    ensures
        count_nl(apply_ordered(cur, es, boundary)) == count_nl(cur),
    decreases es.len(),
{
    if es.len() > 0 {
        let e = es[0];
        let t = es.drop_first();
        assert forall|k: int| 0 <= k < t.len() implies keeps_lines(orig, #[trigger] t[k]) by {
            assert(t[k] == es[k + 1]);
        }
        assert(keeps_lines(orig, es[0]));
        if e.start > e.end || e.end > boundary {
            lemma_apply_ordered_keeps(orig, cur, t, boundary);
        } else {
            let pre = cur.subrange(0, e.start);
            let mid = cur.subrange(e.start, e.end);
            let post = cur.subrange(e.end, cur.len() as int);
            let next = pre + e.new + post;
            assert forall|k: int| 0 <= k < mid.len() implies mid[k] != '\n' by {
                let j = e.start + k;
                assert(mid[k] == cur[j]);
                assert(cur.subrange(0, boundary)[j] == orig.subrange(0, boundary)[j]);
                assert(cur[j] == cur.subrange(0, boundary)[j]);
                assert(orig[j] == orig.subrange(0, boundary)[j]);
                assert(e.start <= j < e.end && j < orig.len());
                assert(orig[j] != '\n');
            }
            lemma_count_nl_none(mid);
            lemma_count_nl_none(e.new);
            assert(cur =~= pre + mid + post);
            lemma_count_nl_concat(pre + mid, post);
            lemma_count_nl_concat(pre, mid);
            lemma_count_nl_concat(pre + e.new, post);
            lemma_count_nl_concat(pre, e.new);
            assert(next.subrange(0, e.start) =~= pre);
            assert(next.subrange(0, e.start) =~= orig.subrange(0, e.start)) by {
                assert forall|k: int| 0 <= k < e.start implies next[k] == orig[k] by {
                    assert(next[k] == cur[k]);
                    assert(cur.subrange(0, boundary)[k] == orig.subrange(0, boundary)[k]);
                }
            }
            lemma_apply_ordered_keeps(orig, next, t, e.start);
        }
    }
}

/// Edits that neither remove nor write a line break leave the number of
/// line breaks as it was.
pub proof fn lemma_apply_keeps_line_count(text: Seq<char>, es: Seq<EditV>)
    requires
        all_keep_lines(text, es),
    ensures
        count_nl(apply_edits_spec(text, es)) == count_nl(text),
{
    lemma_order_keeps(text, es);
    assert(text.subrange(0, text.len() as int) =~= text);
    lemma_apply_ordered_keeps(text, text, order_edits(es), text.len() as int);
}

} // verus!
