//! Reference-link formatting and the document formatter.
//!
//! * [`to_reference_links`] rewrites inline links `[t](url)` into reference
//!   links `[t][id]` and gathers every used definition under a heading at the
//!   bottom of the file;
//! * [`to_inline_links`] is its inverse, and [`inline_links_in_range`] does the
//!   same for a selection only;
//! * [`format_document`] runs table formatting, list normalisation and the
//!   reference-link move, each as configured.
//!
//! Like the list formatter they work as position-based edits, so untouched
//! text stays exactly as it was.

use vstd::prelude::*;
use crate::analysis::{label_end, visible_text};
use crate::edits::{apply_edits, apply_edits_spec, edits_view, EditV, TextEdit};
use crate::features::lists::cix;
use crate::lines::{line_end, line_start};
use crate::mdast::{nodes_view, parsed, subtree_end, MdKind, MdNode, MdNodeV, MdPos};
use crate::offsets::char_floor;
use crate::text::{decimal, ends_with, lowercase, parse_u64, seq_less, trim, trim_end};

verus! {

/// The value stored under the first entry with key `k`.
pub open spec fn lookup(m: Seq<(Seq<char>, Seq<char>)>, k: Seq<char>) -> Option<Seq<char>>
    decreases m.len(),
{
    if m.len() == 0 {
        None
    } else if m[0].0 == k {
        Some(m[0].1)
    } else {
        lookup(m.drop_first(), k)
    }
}

/// `m` with `(k, v)` added unless `k` already has an entry.
pub open spec fn put_first(m: Seq<(Seq<char>, Seq<char>)>, k: Seq<char>, v: Seq<char>) -> Seq<
    (Seq<char>, Seq<char>),
> {
    if lookup(m, k) is Some {
        m
    } else {
        m.push((k, v))
    }
}

/// `set` with `x` added unless present.
pub open spec fn set_add(set: Seq<Seq<char>>, x: Seq<char>) -> Seq<Seq<char>> {
    if set.contains(x) {
        set
    } else {
        set.push(x)
    }
}

/// The edit removing the whole lines spanned by a node (trailing newline
/// included).
pub open spec fn remove_lines_edit(s: Seq<char>, p: MdPos) -> EditV {
    let a = line_start(s, cix(s, p.start));
    let e = line_end(s, cix(s, p.end));
    EditV {
        start: a,
        end: if e < s.len() {
            e + 1
        } else {
            s.len() as int
        },
        new: Seq::empty(),
    }
}

/// An edit that does not end before it starts (one that does would be
/// skipped when the edits are applied).
pub open spec fn spans_forward(e: EditV) -> bool {
    e.start <= e.end
}

/// A heading whose visible text matches `target` (both trimmed and
/// lowercased).
pub open spec fn is_section_heading(ns: Seq<MdNodeV>, i: int, target: Seq<char>) -> bool {
    ns[i].kind == MdKind::Heading && lowercase(trim(visible_text(ns, i))) == lowercase(
        trim(target),
    )
}

/// The removals of the headings among the first `n` nodes that match
/// `target`, when `keep` accepts their span.
pub open spec fn heading_removals(
    s: Seq<char>,
    ns: Seq<MdNodeV>,
    target: Seq<char>,
    keep: spec_fn(int, int) -> bool,
    n: int,
) -> Seq<EditV>
    decreases n,
{
    if n <= 0 {
        Seq::empty()
    } else {
        let i = n - 1;
        heading_removals(s, ns, target, keep, i) + if is_section_heading(ns, i, target)
            && ns[i].pos is Some && keep(
            cix(s, ns[i].pos.unwrap().start),
            cix(s, ns[i].pos.unwrap().end),
        ) && spans_forward(remove_lines_edit(s, ns[i].pos.unwrap())) {
            seq![remove_lines_edit(s, ns[i].pos.unwrap())]
        } else {
            Seq::empty()
        }
    }
}

/// Where a link's label ends: the end of its last child, or just after its
/// opening bracket.
pub open spec fn label_close(s: Seq<char>, ns: Seq<MdNodeV>, i: int, p: MdPos) -> int {
    match label_end(ns, i) {
        Some(e) => cix(s, e),
        None => cix(
            s,
            if p.start < usize::MAX {
                (p.start + 1) as usize
            } else {
                p.start
            },
        ),
    }
}

/// A `<url>` or GFM literal autolink: a link whose only child is text equal to
/// its destination.
pub open spec fn is_autolink(ns: Seq<MdNodeV>, i: int) -> bool {
    let e = subtree_end(ns, i, ns.len() as int);
    &&& i + 1 < e
    &&& subtree_end(ns, i + 1, e) == e
    &&& ns[i + 1].kind == MdKind::Text
    &&& ns[i + 1].value == ns[i].url
}

/// What [`to_reference_links`] has gathered so far.
pub struct RefState {
    /// Identifier to destination, first definition winning.
    pub id_to_url: Seq<(Seq<char>, Seq<char>)>,
    /// Destination to identifier, first definition winning.
    pub url_to_id: Seq<(Seq<char>, Seq<char>)>,
    /// Every identifier in use or taken.
    pub ids: Seq<Seq<char>>,
    /// Identifiers referenced by the text.
    pub used: Seq<Seq<char>>,
    /// Next number to try for a new identifier.
    pub counter: nat,
    pub edits: Seq<EditV>,
}

/// After the first `n` nodes: definitions recorded and their lines removed.
pub open spec fn defs_pass(s: Seq<char>, ns: Seq<MdNodeV>, n: int) -> RefState
    decreases n,
{
    if n <= 0 {
        RefState {
            id_to_url: Seq::empty(),
            url_to_id: Seq::empty(),
            ids: Seq::empty(),
            used: Seq::empty(),
            counter: 1,
            edits: Seq::empty(),
        }
    } else {
        let st = defs_pass(s, ns, n - 1);
        let i = n - 1;
        if ns[i].kind == MdKind::Definition {
            let id = ns[i].identifier;
            let url = ns[i].url;
            RefState {
                ids: set_add(st.ids, id),
                id_to_url: put_first(st.id_to_url, id, url),
                url_to_id: put_first(st.url_to_id, url, id),
                edits: match ns[i].pos {
                    Some(p) => st.edits.push(remove_lines_edit(s, p)),
                    None => st.edits,
                },
                ..st
            }
        } else {
            st
        }
    }
}

/// After the first `n` nodes: the identifiers of existing references marked
/// used.
pub open spec fn refs_pass(ns: Seq<MdNodeV>, st: RefState, n: int) -> RefState
    decreases n,
{
    if n <= 0 {
        st
    } else {
        let prev = refs_pass(ns, st, n - 1);
        let i = n - 1;
        if ns[i].kind == MdKind::LinkReference || ns[i].kind == MdKind::ImageReference {
            RefState { used: set_add(prev.used, ns[i].identifier), ..prev }
        } else {
            prev
        }
    }
}

/// The first number from `c` (below `limit`) whose decimal form is not in
/// `ids`; `limit` itself when all are taken.
pub open spec fn fresh_number(ids: Seq<Seq<char>>, c: nat, limit: nat) -> nat
    decreases limit - c,
{
    if c >= limit || !ids.contains(decimal(c)) {
        c
    } else {
        fresh_number(ids, c + 1, limit)
    }
}

/// The state after turning inline link `i` (if it is one) into a reference.
pub open spec fn link_step(s: Seq<char>, ns: Seq<MdNodeV>, st: RefState, i: int) -> RefState {
    if ns[i].kind == MdKind::Link && ns[i].pos is Some && !is_autolink(ns, i) {
        let p = ns[i].pos.unwrap();
        let url = ns[i].url;
        let (id, st2) = match lookup(st.url_to_id, url) {
            Some(x) => (x, st),
            None => {
                let c = fresh_number(st.ids, st.counter, st.counter + st.ids.len());
                let id = decimal(c);
                (
                    id,
                    RefState {
                        ids: st.ids.push(id),
                        url_to_id: st.url_to_id.push((url, id)),
                        id_to_url: st.id_to_url.push((id, url)),
                        counter: c + 1,
                        ..st
                    },
                )
            },
        };
        RefState {
            used: set_add(st2.used, id),
            edits: st2.edits.push(
                EditV {
                    start: label_close(s, ns, i, p),
                    end: cix(s, p.end),
                    new: seq![']', '['] + id + seq![']'],
                },
            ),
            ..st2
        }
    } else {
        st
    }
}

/// After the first `n` nodes: inline links turned into references.
pub open spec fn links_pass(s: Seq<char>, ns: Seq<MdNodeV>, st: RefState, n: int) -> RefState
    decreases n,
{
    if n <= 0 {
        st
    } else {
        link_step(s, ns, links_pass(s, ns, st, n - 1), n - 1)
    }
}

/// The state once all three passes have run over the document.
pub open spec fn reference_state(s: Seq<char>, ns: Seq<MdNodeV>) -> RefState {
    let n = ns.len() as int;
    links_pass(s, ns, refs_pass(ns, defs_pass(s, ns, n), n), n)
}

/// `a` sorts before `b`: numeric identifiers first, by value, then the others
/// lexicographically.
pub open spec fn id_less(a: Seq<char>, b: Seq<char>) -> bool {
    match (parse_u64(a), parse_u64(b)) {
        (Some(x), Some(y)) => x < y,
        (Some(_), None) => true,
        (None, Some(_)) => false,
        (None, None) => seq_less(a, b),
    }
}

/// Inserts `d` into the ordered `s` after every entry not sorting after it.
pub open spec fn insert_by_id(s: Seq<(Seq<char>, Seq<char>)>, d: (Seq<char>, Seq<char>)) -> Seq<
    (Seq<char>, Seq<char>),
>
    decreases s.len(),
{
    if s.len() == 0 {
        seq![d]
    } else if id_less(d.0, s[0].0) {
        seq![d] + s
    } else {
        seq![s[0]] + insert_by_id(s.drop_first(), d)
    }
}

/// `ds` stably sorted by identifier.
pub open spec fn sort_by_id(ds: Seq<(Seq<char>, Seq<char>)>) -> Seq<(Seq<char>, Seq<char>)>
    decreases ds.len(),
{
    if ds.len() == 0 {
        Seq::empty()
    } else {
        insert_by_id(sort_by_id(ds.drop_last()), ds.last())
    }
}

/// The used identifiers among the first `n` that have a definition, with
/// their destinations.
pub open spec fn used_defs(used: Seq<Seq<char>>, id_to_url: Seq<(Seq<char>, Seq<char>)>, n: int) -> Seq<
    (Seq<char>, Seq<char>),
>
    decreases n,
{
    if n <= 0 {
        Seq::empty()
    } else {
        used_defs(used, id_to_url, n - 1) + match lookup(id_to_url, used[n - 1]) {
            Some(u) => seq![(used[n - 1], u)],
            None => Seq::empty(),
        }
    }
}

/// The definition lines `[id]: url`, one per line.
pub open spec fn definition_lines(ds: Seq<(Seq<char>, Seq<char>)>) -> Seq<char>
    decreases ds.len(),
{
    if ds.len() == 0 {
        Seq::empty()
    } else {
        definition_lines(ds.drop_last()) + seq!['['] + ds.last().0 + seq![']', ':', ' ']
            + ds.last().1 + seq!['\n']
    }
}

/// `t` with a final newline added when it lacks one.
pub open spec fn with_final_newline(t: Seq<char>) -> Seq<char> {
    if ends_with(t, seq!['\n']) {
        t
    } else {
        t.push('\n')
    }
}

/// The document body of [`to_reference_links`]: the links rewritten, the old
/// definitions (and with `move_to_end` the old references heading) removed,
/// trimmed at its end.
pub open spec fn reference_body(
    s: Seq<char>,
    ns: Seq<MdNodeV>,
    move_to_end: bool,
    heading: Seq<char>,
) -> Seq<char> {
    let st = reference_state(s, ns);
    let removals = if move_to_end {
        heading_removals(s, ns, heading, |a: int, b: int| true, ns.len() as int)
    } else {
        Seq::empty()
    };
    trim_end(apply_edits_spec(s, st.edits + removals))
}

/// The result of [`to_reference_links`] on `s` with tree `ns`.
pub open spec fn reference_links_of(
    s: Seq<char>,
    ns: Seq<MdNodeV>,
    move_to_end: bool,
    heading: Seq<char>,
) -> Seq<char> {
    let st = reference_state(s, ns);
    let body = reference_body(s, ns, move_to_end, heading);
    let defs = sort_by_id(used_defs(st.used, st.id_to_url, st.used.len() as int));
    let full = if defs.len() > 0 {
        body + seq!['\n', '\n', '#', ' '] + trim(heading) + seq!['\n', '\n'] + definition_lines(
            defs,
        )
    } else {
        body
    };
    with_final_newline(full)
}

/// Identifier to destination for the first `n` nodes, first definition
/// winning.
pub open spec fn definition_urls(ns: Seq<MdNodeV>, n: int) -> Seq<(Seq<char>, Seq<char>)>
    decreases n,
{
    if n <= 0 {
        Seq::empty()
    } else {
        let m = definition_urls(ns, n - 1);
        if ns[n - 1].kind == MdKind::Definition {
            put_first(m, ns[n - 1].identifier, ns[n - 1].url)
        } else {
            m
        }
    }
}

/// The first position in `[p, e)` holding `c`.
pub open spec fn find_char(s: Seq<char>, c: char, p: int, e: int) -> Option<int>
    decreases e - p,
{
    if p >= e || p < 0 || p >= s.len() {
        None
    } else if s[p] == c {
        Some(p)
    } else {
        find_char(s, c, p + 1, e)
    }
}

/// `](url)`.
pub open spec fn inline_tail(url: Seq<char>) -> Seq<char> {
    seq![']', '('] + url + seq![')']
}

/// The edit that inlines reference node `i`, if it is one with a known
/// definition whose span `keep` accepts.
pub open spec fn inline_edit_at(
    s: Seq<char>,
    ns: Seq<MdNodeV>,
    urls: Seq<(Seq<char>, Seq<char>)>,
    keep: spec_fn(int, int) -> bool,
    i: int,
) -> Seq<EditV> {
    let k = ns[i].kind;
    if (k == MdKind::LinkReference || k == MdKind::ImageReference) && lookup(
        urls,
        ns[i].identifier,
    ) is Some && ns[i].pos is Some {
        let url = lookup(urls, ns[i].identifier).unwrap();
        let p = ns[i].pos.unwrap();
        let a = cix(s, p.start);
        let b = cix(s, p.end);
        if !keep(a, b) {
            Seq::empty()
        } else if k == MdKind::LinkReference {
            if label_close(s, ns, i, p) <= b {
                seq![EditV { start: label_close(s, ns, i, p), end: b, new: inline_tail(url) }]
            } else {
                Seq::empty()
            }
        } else {
            match find_char(s, ']', a, b) {
                Some(q) => seq![EditV { start: q, end: b, new: inline_tail(url) }],
                None => Seq::empty(),
            }
        }
    } else {
        Seq::empty()
    }
}

/// The inlining edits of the first `n` nodes.
pub open spec fn inline_edits_upto(
    s: Seq<char>,
    ns: Seq<MdNodeV>,
    urls: Seq<(Seq<char>, Seq<char>)>,
    keep: spec_fn(int, int) -> bool,
    n: int,
) -> Seq<EditV>
    decreases n,
{
    if n <= 0 {
        Seq::empty()
    } else {
        inline_edits_upto(s, ns, urls, keep, n - 1) + inline_edit_at(s, ns, urls, keep, n - 1)
    }
}

/// The removals of the definitions among the first `n` nodes whose span
/// `keep` accepts.
pub open spec fn definition_removals(
    s: Seq<char>,
    ns: Seq<MdNodeV>,
    keep: spec_fn(int, int) -> bool,
    n: int,
) -> Seq<EditV>
    decreases n,
{
    if n <= 0 {
        Seq::empty()
    } else {
        let i = n - 1;
        definition_removals(s, ns, keep, i) + if ns[i].kind == MdKind::Definition
            && ns[i].pos is Some && keep(
            cix(s, ns[i].pos.unwrap().start),
            cix(s, ns[i].pos.unwrap().end),
        ) && spans_forward(remove_lines_edit(s, ns[i].pos.unwrap())) {
            seq![remove_lines_edit(s, ns[i].pos.unwrap())]
        } else {
            Seq::empty()
        }
    }
}

/// All the edits that inline references (and drop the definitions and the
/// references heading) for the nodes whose span `keep` accepts.
pub open spec fn inline_edits(
    s: Seq<char>,
    ns: Seq<MdNodeV>,
    heading: Seq<char>,
    keep: spec_fn(int, int) -> bool,
) -> Seq<EditV> {
    let n = ns.len() as int;
    let urls = definition_urls(ns, n);
    inline_edits_upto(s, ns, urls, keep, n) + definition_removals(s, ns, keep, n)
        + heading_removals(s, ns, heading, keep, n)
}

/// The result of [`to_inline_links`] on `s` with tree `ns`.
pub open spec fn inline_links_of(s: Seq<char>, ns: Seq<MdNodeV>, heading: Seq<char>) -> Seq<char> {
    with_final_newline(
        trim_end(apply_edits_spec(s, inline_edits(s, ns, heading, |a: int, b: int| true))),
    )
}

/// The edits of `es` lying within `[a, b)`, moved to start at `a` (an edit
/// ending before it starts is never applied, so it is dropped here too).
pub open spec fn rebase(es: Seq<EditV>, a: int, b: int) -> Seq<EditV>
    decreases es.len(),
{
    if es.len() == 0 {
        Seq::empty()
    } else {
        let e = es.last();
        rebase(es.drop_last(), a, b) + if e.start >= a && e.end <= b && e.start <= e.end {
            seq![EditV { start: e.start - a, end: e.end - a, new: e.new }]
        } else {
            Seq::empty()
        }
    }
}

/// The smallest character index whose byte offset is at least `off`.
pub open spec fn char_ceil(s: Seq<char>, off: int) -> int {
    let f = char_floor(s, off) as int;
    if crate::offsets::utf8_len(s.take(f)) >= off {
        f
    } else {
        f + 1
    }
}

/// The selection `[start, end)` (bytes) as character indices: the start
/// rounded down and the end rounded up to a character boundary, both within
/// the text, the end not before the start.
pub open spec fn selection(s: Seq<char>, start: usize, end: usize) -> (int, int) {
    let blen = crate::offsets::utf8_len(s);
    let a = char_floor(s, if start < blen {
        start as int
    } else {
        blen as int
    }) as int;
    let b0 = char_ceil(s, if end < blen {
        end as int
    } else {
        blen as int
    });
    (a, if b0 < a {
        a
    } else {
        b0
    })
}

/// The result of [`inline_links_in_range`] on `s` with tree `ns`.
pub open spec fn inline_range_of(
    s: Seq<char>,
    ns: Seq<MdNodeV>,
    heading: Seq<char>,
    start: usize,
    end: usize,
) -> Seq<char> {
    let (a, b) = selection(s, start, end);
    let es = inline_edits(s, ns, heading, |x: int, y: int| x >= a && y <= b);
    apply_edits_spec(s.subrange(a, b), rebase(es, a, b))
}

/// Views of a vector of key-value pairs of character vectors.
pub open spec fn pairs_view(v: Seq<(Vec<char>, Vec<char>)>) -> Seq<(Seq<char>, Seq<char>)> {
    Seq::new(v.len(), |i: int| (v[i].0@, v[i].1@))
}

/// Views of a vector of character vectors.
pub open spec fn strs_view(v: Seq<Vec<char>>) -> Seq<Seq<char>> {
    Seq::new(v.len(), |i: int| v[i]@)
}

/// The index of the first entry of `m` with key `k`.
fn find_key(m: &Vec<(Vec<char>, Vec<char>)>, k: &[char]) -> (r: Option<usize>)
    ensures
        match r {
            Some(i) => i < m@.len() && lookup(pairs_view(m@), k@) == Some(m@[i as int].1@),
            None => lookup(pairs_view(m@), k@) is None,
        },
{
    let ghost mv = pairs_view(m@);
    let mut i: usize = 0;
    assert(mv.skip(0) =~= mv);
    while i < m.len()
        invariant
            i <= m@.len(),
            mv == pairs_view(m@),
            lookup(mv, k@) == lookup(mv.skip(i as int), k@),
        decreases m@.len() - i,
    {
        assert(mv.skip(i as int)[0] == mv[i as int]);
        if crate::text::eq_chars(m[i].0.as_slice(), k) {
            return Some(i);
        }
        assert(mv.skip(i as int).drop_first() =~= mv.skip(i + 1));
        i += 1;
    }
    assert(mv.skip(i as int).len() == 0);
    None
}

/// Whether `set` holds `x`.
fn holds(set: &Vec<Vec<char>>, x: &[char]) -> (r: bool)
    ensures
        r == strs_view(set@).contains(x@),
{
    let ghost sv = strs_view(set@);
    let mut i: usize = 0;
    while i < set.len()
        invariant
            i <= set@.len(),
            sv == strs_view(set@),
            forall|j: int| 0 <= j < i ==> sv[j] != x@,
        decreases set@.len() - i,
    {
        if crate::text::eq_chars(set[i].as_slice(), x) {
            assert(sv[i as int] == x@);
            return true;
        }
        i += 1;
    }
    false
}

/// Adds `x` to `set` unless present (see [`set_add`]).
fn add_to(set: &mut Vec<Vec<char>>, x: Vec<char>)
    ensures
        strs_view(final(set)@) == set_add(strs_view(old(set)@), x@),
        final(set)@.len() <= old(set)@.len() + 1,
{
    if !holds(set, x.as_slice()) {
        let ghost xv = x@;
        set.push(x);
        assert(strs_view(set@) =~= strs_view(old(set)@).push(xv));
    }
}

/// Adds `(k, v)` to `m` unless `k` has an entry (see [`put_first`]).
fn put_if_absent(m: &mut Vec<(Vec<char>, Vec<char>)>, k: Vec<char>, v: Vec<char>)
    ensures
        pairs_view(final(m)@) == put_first(pairs_view(old(m)@), k@, v@),
{
    if find_key(m, k.as_slice()).is_none() {
        let ghost kv = (k@, v@);
        m.push((k, v));
        assert(pairs_view(m@) =~= pairs_view(old(m)@).push(kv));
    }
}

/// A copy of `v`.
fn copy_of(v: &Vec<char>) -> (r: Vec<char>)
    ensures
        r@ == v@,
{
    crate::text::slice_chars(v.as_slice(), 0, v.len())
}

/// The edit removing the lines of a node (see [`remove_lines_edit`]).
fn line_removal(s: &Vec<char>, offs: &Vec<usize>, p: MdPos) -> (r: TextEdit)
    requires
        crate::offsets::are_boundary_offsets(s@, offs@),
    ensures
        r@ == remove_lines_edit(s@, p),
{
    let a0 = crate::offsets::floor_index(offs.as_slice(), p.start, Ghost(s@));
    let b0 = crate::offsets::floor_index(offs.as_slice(), p.end, Ghost(s@));
    let a = crate::lines::find_line_start(s.as_slice(), a0);
    let e = crate::lines::find_line_end(s.as_slice(), b0);
    proof {
        crate::lines::lemma_line_end(s@, b0 as int);
    }
    let end = if e < s.len() {
        e + 1
    } else {
        s.len()
    };
    let r = TextEdit { start: a, end, new: Vec::new() };
    assert(r.new@ =~= Seq::<char>::empty());
    r
}

/// The lowercased, trimmed form of `t`.
fn folded(t: &[char]) -> (r: Vec<char>)
    ensures
        r@ == lowercase(trim(t@)),
{
    let tr = crate::text::trim_vec(t);
    let st = crate::text::string_of(tr.as_slice());
    let low = crate::text::to_lowercase(st.as_str());
    crate::text::chars_of(low.as_str())
}

/// Whether node `i` is a heading matching the folded target `target`
/// (see [`is_section_heading`]).
fn section_heading(ns: &Vec<MdNode>, i: usize, target: &Vec<char>, Ghost(heading): Ghost<Seq<char>>) -> (r: bool)
    requires
        i < ns@.len(),
        target@ == lowercase(trim(heading)),
    ensures
        r == is_section_heading(nodes_view(ns@), i as int, heading),
{
    if ns[i].kind != MdKind::Heading {
        return false;
    }
    let text = crate::analysis::node_text(ns, i);
    let tc = crate::text::chars_of(text.as_str());
    let f = folded(tc.as_slice());
    crate::text::eq_chars(f.as_slice(), target.as_slice())
}

/// The character index of byte offset `off`.
fn char_at(s: &Vec<char>, offs: &Vec<usize>, off: usize) -> (r: usize)
    requires
        crate::offsets::are_boundary_offsets(s@, offs@),
    ensures
        r == cix(s@, off),
        r <= s@.len(),
{
    crate::offsets::floor_index(offs.as_slice(), off, Ghost(s@))
}

/// Where the label of link `i` ends (see [`label_close`]).
fn label_close_of(s: &Vec<char>, offs: &Vec<usize>, ns: &Vec<MdNode>, i: usize, p: MdPos) -> (r: usize)
    requires
        crate::offsets::are_boundary_offsets(s@, offs@),
        i < ns@.len(),
    ensures
        r == label_close(s@, nodes_view(ns@), i as int, p),
{
    match crate::analysis::last_child_end(ns, i) {
        Some(e) => char_at(s, offs, e),
        None => {
            let b = if p.start < usize::MAX {
                p.start + 1
            } else {
                p.start
            };
            char_at(s, offs, b)
        },
    }
}

/// Whether two strings hold the same characters.
fn same_text(a: &str, b: &str) -> (r: bool)
    ensures
        r == (a@ == b@),
{
    let x = crate::text::chars_of(a);
    let y = crate::text::chars_of(b);
    crate::text::eq_chars(x.as_slice(), y.as_slice())
}

/// Whether link `i` is an autolink (see [`is_autolink`]).
fn autolink(ns: &Vec<MdNode>, i: usize) -> (r: bool)
    requires
        i < ns@.len(),
    ensures
        r == is_autolink(nodes_view(ns@), i as int),
{
    let e = crate::mdast::subtree_end_of(ns, i, ns.len());
    if i + 1 >= e {
        return false;
    }
    if crate::mdast::subtree_end_of(ns, i + 1, e) != e {
        return false;
    }
    ns[i + 1].kind == MdKind::Text && same_text(ns[i + 1].value.as_str(), ns[i].url.as_str())
}

/// The executable form of a [`RefState`].
struct RefAcc {
    id_to_url: Vec<(Vec<char>, Vec<char>)>,
    url_to_id: Vec<(Vec<char>, Vec<char>)>,
    ids: Vec<Vec<char>>,
    used: Vec<Vec<char>>,
    counter: u128,
    edits: Vec<TextEdit>,
}

impl View for RefAcc {
    type V = RefState;

    closed spec fn view(&self) -> RefState {
        RefState {
            id_to_url: pairs_view(self.id_to_url@),
            url_to_id: pairs_view(self.url_to_id@),
            ids: strs_view(self.ids@),
            used: strs_view(self.used@),
            counter: self.counter as nat,
            edits: edits_view(self.edits@),
        }
    }
}

/// Every number in `[1, c)` has its decimal form among `ids`.
pub open spec fn numbers_taken(ids: Seq<Seq<char>>, c: nat) -> bool {
    forall|k: nat| 1 <= k < c ==> ids.contains(#[trigger] decimal(k))
}

/// The definitions pass (see [`defs_pass`]).
fn collect_definitions(s: &Vec<char>, offs: &Vec<usize>, ns: &Vec<MdNode>) -> (r: RefAcc)
    requires
        crate::offsets::are_boundary_offsets(s@, offs@),
    ensures
        r@ == defs_pass(s@, nodes_view(ns@), ns@.len() as int),
        r.ids@.len() <= ns@.len(),
        r.counter == 1,
{
    let ghost nv = nodes_view(ns@);
    let mut acc = RefAcc {
        id_to_url: Vec::new(),
        url_to_id: Vec::new(),
        ids: Vec::new(),
        used: Vec::new(),
        counter: 1,
        edits: Vec::new(),
    };
    proof {
        assert(acc@.id_to_url =~= Seq::<(Seq<char>, Seq<char>)>::empty());
        assert(acc@.url_to_id =~= Seq::<(Seq<char>, Seq<char>)>::empty());
        assert(acc@.ids =~= Seq::<Seq<char>>::empty());
        assert(acc@.used =~= Seq::<Seq<char>>::empty());
        assert(acc@.edits =~= Seq::<EditV>::empty());
    }
    let mut i: usize = 0;
    while i < ns.len()
        invariant
            crate::offsets::are_boundary_offsets(s@, offs@),
            nv == nodes_view(ns@),
            i <= ns@.len(),
            acc@ == defs_pass(s@, nv, i as int),
            acc.ids@.len() <= i,
            acc.counter == 1,
        decreases ns@.len() - i,
    {
        if ns[i].kind == MdKind::Definition {
            let id = crate::text::chars_of(ns[i].identifier.as_str());
            let url = crate::text::chars_of(ns[i].url.as_str());
            add_to(&mut acc.ids, copy_of(&id));
            put_if_absent(&mut acc.id_to_url, copy_of(&id), copy_of(&url));
            put_if_absent(&mut acc.url_to_id, url, id);
            match ns[i].pos {
                Some(p) => {
                    let e = line_removal(s, offs, p);
                    let ghost ev = e@;
                    let ghost before = edits_view(acc.edits@);
                    acc.edits.push(e);
                    assert(edits_view(acc.edits@) =~= before.push(ev));
                },
                None => {},
            }
        }
        i += 1;
    }
    acc
}

/// The references pass (see [`refs_pass`]).
fn mark_references(ns: &Vec<MdNode>, acc: &mut RefAcc)
    ensures
        final(acc)@ == refs_pass(nodes_view(ns@), old(acc)@, ns@.len() as int),
        final(acc).ids@ == old(acc).ids@,
        final(acc).counter == old(acc).counter,
{
    let ghost nv = nodes_view(ns@);
    let mut i: usize = 0;
    while i < ns.len()
        invariant
            nv == nodes_view(ns@),
            i <= ns@.len(),
            acc@ == refs_pass(nv, old(acc)@, i as int),
            acc.ids@ == old(acc).ids@,
            acc.counter == old(acc).counter,
        decreases ns@.len() - i,
    {
        let k = ns[i].kind;
        if k == MdKind::LinkReference || k == MdKind::ImageReference {
            let id = crate::text::chars_of(ns[i].identifier.as_str());
            add_to(&mut acc.used, id);
        }
        i += 1;
    }
}

/// The decimal form of `n`.
fn decimal_chars(n: u128) -> (r: Vec<char>)
    ensures
        r@ == decimal(n as nat),
{
    let mut v: Vec<char> = Vec::new();
    crate::text::push_decimal(&mut v, n);
    assert(v@ =~= decimal(n as nat));
    v
}

/// The first free number from `counter` (see [`fresh_number`]).
fn fresh_id(ids: &Vec<Vec<char>>, counter: u128) -> (r: u128)
    requires
        counter >= 1,
        counter <= ids@.len() + 1,
        numbers_taken(strs_view(ids@), counter as nat),
    ensures
        r == fresh_number(strs_view(ids@), counter as nat, (counter + ids@.len()) as nat),
        r <= counter + ids@.len(),
        numbers_taken(strs_view(ids@), r as nat),
{
    let ghost iv = strs_view(ids@);
    let limit: u128 = counter + ids.len() as u128;
    let mut c = counter;
    while c < limit
        invariant
            counter <= c <= limit,
            limit == counter + ids@.len(),
            iv == strs_view(ids@),
            numbers_taken(iv, c as nat),
            fresh_number(iv, c as nat, limit as nat) == fresh_number(
                iv,
                counter as nat,
                limit as nat,
            ),
        decreases limit - c,
    {
        let d = decimal_chars(c);
        if !holds(ids, d.as_slice()) {
            return c;
        }
        c += 1;
    }
    c
}

/// `][id]`.
fn reference_tail(id: &Vec<char>) -> (r: Vec<char>)
    ensures
        r@ == seq![']', '['] + id@ + seq![']'],
{
    let mut v: Vec<char> = Vec::new();
    v.push(']');
    v.push('[');
    crate::text::extend(&mut v, id.as_slice());
    v.push(']');
    assert(v@ =~= seq![']', '['] + id@ + seq![']']);
    v
}

/// Turns link `i` into a reference, if it is an inline link (see
/// [`link_step`]).
fn convert_link(s: &Vec<char>, offs: &Vec<usize>, ns: &Vec<MdNode>, i: usize, acc: &mut RefAcc)
    requires
        crate::offsets::are_boundary_offsets(s@, offs@),
        i < ns@.len(),
        old(acc).counter >= 1,
        old(acc).counter <= old(acc).ids@.len() + 1,
        numbers_taken(strs_view(old(acc).ids@), old(acc).counter as nat),
    ensures
        final(acc)@ == link_step(s@, nodes_view(ns@), old(acc)@, i as int),
        final(acc).counter >= 1,
        final(acc).counter <= final(acc).ids@.len() + 1,
        numbers_taken(strs_view(final(acc).ids@), final(acc).counter as nat),
        final(acc).ids@.len() <= old(acc).ids@.len() + 1,
{
    let ghost nv = nodes_view(ns@);
    if !(ns[i].kind == MdKind::Link && ns[i].pos.is_some() && !autolink(ns, i)) {
        return;
    }
    let p = ns[i].pos.unwrap();
    let url = crate::text::chars_of(ns[i].url.as_str());
    let ghost st = acc@;
    let id: Vec<char> = match find_key(&acc.url_to_id, url.as_slice()) {
        Some(k) => copy_of(&acc.url_to_id[k].1),
        None => {
            let nids = acc.ids.len();
            let c = fresh_id(&acc.ids, acc.counter);
            let id = decimal_chars(c);
            let ghost ids0 = strs_view(acc.ids@);
            acc.ids.push(copy_of(&id));
            assert(strs_view(acc.ids@) =~= ids0.push(id@));
            let ghost u2i = pairs_view(acc.url_to_id@);
            acc.url_to_id.push((copy_of(&url), copy_of(&id)));
            assert(pairs_view(acc.url_to_id@) =~= u2i.push((url@, id@)));
            let ghost i2u = pairs_view(acc.id_to_url@);
            acc.id_to_url.push((copy_of(&id), copy_of(&url)));
            assert(pairs_view(acc.id_to_url@) =~= i2u.push((id@, url@)));
            acc.counter = c + 1;
            proof {
                let ids1 = strs_view(acc.ids@);
                assert forall|k: nat| 1 <= k < c + 1 implies ids1.contains(
                    #[trigger] decimal(k),
                ) by {
                    if k < c {
                        let j = choose|j: int| 0 <= j < ids0.len() && #[trigger] ids0[j] == decimal(k);
                        assert(ids1[j] == decimal(k));
                    } else {
                        assert(ids1[ids0.len() as int] == decimal(k));
                    }
                }
                crate::text::lemma_numbered_ids_bound(ids1, (c + 1) as nat);
            }
            id
        },
    };
    add_to(&mut acc.used, copy_of(&id));
    let start = label_close_of(s, offs, ns, i, p);
    let end = char_at(s, offs, p.end);
    let e = TextEdit { start, end, new: reference_tail(&id) };
    let ghost ev = e@;
    let ghost before = edits_view(acc.edits@);
    acc.edits.push(e);
    assert(edits_view(acc.edits@) =~= before.push(ev));
}

/// The links pass (see [`links_pass`]).
fn convert_links(s: &Vec<char>, offs: &Vec<usize>, ns: &Vec<MdNode>, acc: &mut RefAcc)
    requires
        crate::offsets::are_boundary_offsets(s@, offs@),
        old(acc).counter >= 1,
        old(acc).counter <= old(acc).ids@.len() + 1,
        numbers_taken(strs_view(old(acc).ids@), old(acc).counter as nat),
    ensures
        final(acc)@ == links_pass(s@, nodes_view(ns@), old(acc)@, ns@.len() as int),
{
    let ghost nv = nodes_view(ns@);
    let mut i: usize = 0;
    while i < ns.len()
        invariant
            crate::offsets::are_boundary_offsets(s@, offs@),
            nv == nodes_view(ns@),
            i <= ns@.len(),
            acc@ == links_pass(s@, nv, old(acc)@, i as int),
            acc.counter >= 1,
            acc.counter <= acc.ids@.len() + 1,
            numbers_taken(strs_view(acc.ids@), acc.counter as nat),
        decreases ns@.len() - i,
    {
        convert_link(s, offs, ns, i, acc);
        i += 1;
    }
}

/// The span filter of a selection: everything when `None`, else the spans
/// within `[a, b]`.
pub open spec fn keep_fn(r: Option<(usize, usize)>) -> spec_fn(int, int) -> bool {
    match r {
        None => |x: int, y: int| true,
        Some(ab) => |x: int, y: int| x >= ab.0 && y <= ab.1,
    }
}

/// Whether the span filter of `r` accepts `[x, y)`.
fn keeps(r: Option<(usize, usize)>, x: usize, y: usize) -> (b: bool)
    ensures
        b == keep_fn(r)(x as int, y as int),
{
    match r {
        None => true,
        Some((a, c)) => x >= a && y <= c,
    }
}

/// Appends the removals of the matching headings (see
/// [`heading_removals`]).
fn push_heading_removals(
    s: &Vec<char>,
    offs: &Vec<usize>,
    ns: &Vec<MdNode>,
    heading: &str,
    range: Option<(usize, usize)>,
    edits: &mut Vec<TextEdit>,
)
    requires
        crate::offsets::are_boundary_offsets(s@, offs@),
    ensures
        edits_view(final(edits)@) == edits_view(old(edits)@) + heading_removals(
            s@,
            nodes_view(ns@),
            heading@,
            keep_fn(range),
            ns@.len() as int,
        ),
{
    let ghost nv = nodes_view(ns@);
    let hc = crate::text::chars_of(heading);
    let target = folded(hc.as_slice());
    let mut i: usize = 0;
    while i < ns.len()
        invariant
            crate::offsets::are_boundary_offsets(s@, offs@),
            nv == nodes_view(ns@),
            i <= ns@.len(),
            target@ == lowercase(trim(heading@)),
            edits_view(edits@) == edits_view(old(edits)@) + heading_removals(
                s@,
                nv,
                heading@,
                keep_fn(range),
                i as int,
            ),
        decreases ns@.len() - i,
    {
        let ghost before = edits_view(edits@);
        if section_heading(ns, i, &target, Ghost(heading@)) && ns[i].pos.is_some() {
            let p = ns[i].pos.unwrap();
            if keeps(range, char_at(s, offs, p.start), char_at(s, offs, p.end)) {
                let e = line_removal(s, offs, p);
                if e.start <= e.end {
                    let ghost ev = e@;
                    edits.push(e);
                    assert(edits_view(edits@) =~= before.push(ev));
                }
            }
        }
        i += 1;
    }
}

/// Appends the removals of the definitions (see [`definition_removals`]).
fn push_definition_removals(
    s: &Vec<char>,
    offs: &Vec<usize>,
    ns: &Vec<MdNode>,
    range: Option<(usize, usize)>,
    edits: &mut Vec<TextEdit>,
)
    requires
        crate::offsets::are_boundary_offsets(s@, offs@),
    ensures
        edits_view(final(edits)@) == edits_view(old(edits)@) + definition_removals(
            s@,
            nodes_view(ns@),
            keep_fn(range),
            ns@.len() as int,
        ),
{
    let ghost nv = nodes_view(ns@);
    let mut i: usize = 0;
    while i < ns.len()
        invariant
            crate::offsets::are_boundary_offsets(s@, offs@),
            nv == nodes_view(ns@),
            i <= ns@.len(),
            edits_view(edits@) == edits_view(old(edits)@) + definition_removals(
                s@,
                nv,
                keep_fn(range),
                i as int,
            ),
        decreases ns@.len() - i,
    {
        let ghost before = edits_view(edits@);
        if ns[i].kind == MdKind::Definition && ns[i].pos.is_some() {
            let p = ns[i].pos.unwrap();
            if keeps(range, char_at(s, offs, p.start), char_at(s, offs, p.end)) {
                let e = line_removal(s, offs, p);
                if e.start <= e.end {
                    let ghost ev = e@;
                    edits.push(e);
                    assert(edits_view(edits@) =~= before.push(ev));
                }
            }
        }
        i += 1;
    }
}

/// Identifier to destination, first definition winning (see
/// [`definition_urls`]).
fn collect_definition_urls(ns: &Vec<MdNode>) -> (r: Vec<(Vec<char>, Vec<char>)>)
    ensures
        pairs_view(r@) == definition_urls(nodes_view(ns@), ns@.len() as int),
{
    let ghost nv = nodes_view(ns@);
    let mut m: Vec<(Vec<char>, Vec<char>)> = Vec::new();
    assert(pairs_view(m@) =~= Seq::<(Seq<char>, Seq<char>)>::empty());
    let mut i: usize = 0;
    while i < ns.len()
        invariant
            nv == nodes_view(ns@),
            i <= ns@.len(),
            pairs_view(m@) == definition_urls(nv, i as int),
        decreases ns@.len() - i,
    {
        if ns[i].kind == MdKind::Definition {
            let id = crate::text::chars_of(ns[i].identifier.as_str());
            let url = crate::text::chars_of(ns[i].url.as_str());
            put_if_absent(&mut m, id, url);
        }
        i += 1;
    }
    m
}

/// `](url)`.
fn inline_tail_of(url: &Vec<char>) -> (r: Vec<char>)
    ensures
        r@ == inline_tail(url@),
{
    let mut v: Vec<char> = Vec::new();
    v.push(']');
    v.push('(');
    crate::text::extend(&mut v, url.as_slice());
    v.push(')');
    assert(v@ =~= inline_tail(url@));
    v
}

/// The first `c` in `[p, e)` (see [`find_char`]).
fn first_char(s: &Vec<char>, c: char, p: usize, e: usize) -> (r: Option<usize>)
    ensures
        match r {
            Some(q) => find_char(s@, c, p as int, e as int) == Some(q as int),
            None => find_char(s@, c, p as int, e as int) is None,
        },
{
    let mut q = p;
    while q < e && q < s.len()
        invariant
            p <= q,
            find_char(s@, c, q as int, e as int) == find_char(s@, c, p as int, e as int),
        decreases e - q,
    {
        if s[q] == c {
            return Some(q);
        }
        q += 1;
    }
    None
}

/// The inlining edit of node `i` (see [`inline_edit_at`]).
fn push_inline_edit(
    s: &Vec<char>,
    offs: &Vec<usize>,
    ns: &Vec<MdNode>,
    urls: &Vec<(Vec<char>, Vec<char>)>,
    range: Option<(usize, usize)>,
    i: usize,
    edits: &mut Vec<TextEdit>,
)
    requires
        crate::offsets::are_boundary_offsets(s@, offs@),
        i < ns@.len(),
    ensures
        edits_view(final(edits)@) == edits_view(old(edits)@) + inline_edit_at(
            s@,
            nodes_view(ns@),
            pairs_view(urls@),
            keep_fn(range),
            i as int,
        ),
{
    let ghost nv = nodes_view(ns@);
    let k = ns[i].kind;
    if !(k == MdKind::LinkReference || k == MdKind::ImageReference) || ns[i].pos.is_none() {
        assert(edits_view(edits@) =~= edits_view(old(edits)@) + Seq::<EditV>::empty());
        return;
    }
    let id = crate::text::chars_of(ns[i].identifier.as_str());
    let found = find_key(urls, id.as_slice());
    if found.is_none() {
        assert(edits_view(edits@) =~= edits_view(old(edits)@) + Seq::<EditV>::empty());
        return;
    }
    let url = &urls[found.unwrap()].1;
    let p = ns[i].pos.unwrap();
    let a = char_at(s, offs, p.start);
    let b = char_at(s, offs, p.end);
    if !keeps(range, a, b) {
        assert(edits_view(edits@) =~= edits_view(old(edits)@) + Seq::<EditV>::empty());
        return;
    }
    if k == MdKind::LinkReference {
        let lc = label_close_of(s, offs, ns, i, p);
        if lc <= b {
            let e = TextEdit { start: lc, end: b, new: inline_tail_of(url) };
            let ghost ev = e@;
            edits.push(e);
            assert(edits_view(edits@) =~= edits_view(old(edits)@) + seq![ev]);
        } else {
            assert(edits_view(edits@) =~= edits_view(old(edits)@) + Seq::<EditV>::empty());
        }
    } else {
        match first_char(s, ']', a, b) {
            Some(q) => {
                let e = TextEdit { start: q, end: b, new: inline_tail_of(url) };
                let ghost ev = e@;
                edits.push(e);
                assert(edits_view(edits@) =~= edits_view(old(edits)@) + seq![ev]);
            },
            None => {
                assert(edits_view(edits@) =~= edits_view(old(edits)@) + Seq::<EditV>::empty());
            },
        }
    }
}

/// All the inlining edits (see [`inline_edits`]).
fn inlining_edits(
    s: &Vec<char>,
    offs: &Vec<usize>,
    ns: &Vec<MdNode>,
    heading: &str,
    range: Option<(usize, usize)>,
) -> (r: Vec<TextEdit>)
    requires
        crate::offsets::are_boundary_offsets(s@, offs@),
    ensures
        edits_view(r@) == inline_edits(s@, nodes_view(ns@), heading@, keep_fn(range)),
{
    let ghost nv = nodes_view(ns@);
    let urls = collect_definition_urls(ns);
    let mut edits: Vec<TextEdit> = Vec::new();
    assert(edits_view(edits@) =~= Seq::<EditV>::empty());
    let mut i: usize = 0;
    while i < ns.len()
        invariant
            crate::offsets::are_boundary_offsets(s@, offs@),
            nv == nodes_view(ns@),
            i <= ns@.len(),
            pairs_view(urls@) == definition_urls(nv, ns@.len() as int),
            edits_view(edits@) == inline_edits_upto(
                s@,
                nv,
                pairs_view(urls@),
                keep_fn(range),
                i as int,
            ),
        decreases ns@.len() - i,
    {
        push_inline_edit(s, offs, ns, &urls, range, i, &mut edits);
        i += 1;
    }
    push_definition_removals(s, offs, ns, range, &mut edits);
    push_heading_removals(s, offs, ns, heading, range, &mut edits);
    edits
}

/// A run of digits' value never exceeds that of the whole run.
proof fn lemma_digits_value_prefix(d: Seq<char>, j: int)
    requires
        0 <= j <= d.len(),
        crate::text::all_digits(d),
    ensures
        crate::text::digits_value(d.take(j)) <= crate::text::digits_value(d),
    decreases d.len() - j,
{
    if j < d.len() {
        lemma_digits_value_prefix(d, j + 1);
        assert(d.take(j + 1).drop_last() =~= d.take(j));
    } else {
        assert(d.take(j) =~= d);
    }
}

/// `str::parse::<u64>` (see [`parse_u64`]).
fn parse_number(s: &[char]) -> (r: Option<u64>)
    ensures
        match r {
            Some(v) => parse_u64(s@) == Some(v as nat),
            None => parse_u64(s@) is None,
        },
{
    let start: usize = if s.len() > 0 && s[0] == '+' {
        1
    } else {
        0
    };
    let ghost d = if s@.len() > 0 && s@[0] == '+' {
        s@.drop_first()
    } else {
        s@
    };
    assert(d =~= s@.subrange(start as int, s@.len() as int));
    if start >= s.len() {
        return None;
    }
    let mut val: u64 = 0;
    let mut k = start;
    assert(d.take(0) =~= Seq::<char>::empty());
    while k < s.len()
        invariant
            start <= k <= s@.len(),
            start < s@.len(),
            d == (if s@.len() > 0 && s@[0] == '+' {
                s@.drop_first()
            } else {
                s@
            }),
            d =~= s@.subrange(start as int, s@.len() as int),
            val == crate::text::digits_value(d.take(k - start)),
            forall|i: int| 0 <= i < k - start ==> crate::text::is_ascii_digit(#[trigger] d[i]),
        decreases s@.len() - k,
    {
        let c = s[k];
        if !('0' <= c && c <= '9') {
            assert(!crate::text::is_ascii_digit(d[k - start]));
            assert(!crate::text::all_digits(d));
            return None;
        }
        let dig = (c as u32 - 48) as u64;
        assert(d.take(k - start + 1).drop_last() =~= d.take(k - start));
        if val > (u64::MAX - dig) / 10 {
            proof {
                assert(val * 10 + dig > u64::MAX) by (nonlinear_arith)
                    requires
                        val > (u64::MAX - dig) / 10,
                        dig <= 9,
                ;
                if crate::text::all_digits(d) {
                    lemma_digits_value_prefix(d, k - start + 1);
                }
            }
            return None;
        }
        val = val * 10 + dig;
        k += 1;
    }
    assert(d.take(d.len() as int) =~= d);
    assert(crate::text::all_digits(d));
    Some(val)
}

/// Lexicographic order by code point (see [`seq_less`]).
fn chars_less(a: &[char], b: &[char]) -> (r: bool)
    ensures
        r == seq_less(a@, b@),
{
    let mut i: usize = 0;
    assert(a@.skip(0) =~= a@);
    assert(b@.skip(0) =~= b@);
    while i < a.len() && i < b.len()
        invariant
            i <= a@.len(),
            i <= b@.len(),
            seq_less(a@, b@) == seq_less(a@.skip(i as int), b@.skip(i as int)),
        decreases a@.len() - i,
    {
        let x = a[i] as u32;
        let y = b[i] as u32;
        if x < y {
            return true;
        }
        if x > y {
            return false;
        }
        assert(a@.skip(i as int).drop_first() =~= a@.skip(i + 1));
        assert(b@.skip(i as int).drop_first() =~= b@.skip(i + 1));
        i += 1;
    }
    i == a.len() && i < b.len()
}

/// The identifier order (see [`id_less`]).
fn ids_less(a: &[char], b: &[char]) -> (r: bool)
    ensures
        r == id_less(a@, b@),
{
    match (parse_number(a), parse_number(b)) {
        (Some(x), Some(y)) => x < y,
        (Some(_), None) => true,
        (None, Some(_)) => false,
        (None, None) => chars_less(a, b),
    }
}

/// Inserting `d` at the first position whose entry sorts after it is
/// `insert_by_id`.
proof fn lemma_insert_by_id_at(s: Seq<(Seq<char>, Seq<char>)>, d: (Seq<char>, Seq<char>), i: int)
    requires
        0 <= i <= s.len(),
        forall|j: int| 0 <= j < i ==> !id_less(d.0, (#[trigger] s[j]).0),
        i < s.len() ==> id_less(d.0, s[i].0),
    ensures
        insert_by_id(s, d) == s.insert(i, d),
    decreases s.len(),
{
    if s.len() == 0 {
        assert(s.insert(i, d) =~= seq![d]);
    } else if i == 0 {
        assert(s.insert(i, d) =~= seq![d] + s);
    } else {
        let t = s.drop_first();
        assert forall|j: int| 0 <= j < i - 1 implies !id_less(d.0, (#[trigger] t[j]).0) by {
            assert(t[j] == s[j + 1]);
        }
        lemma_insert_by_id_at(t, d, i - 1);
        assert(s.insert(i, d) =~= seq![s[0]] + t.insert(i - 1, d));
    }
}

/// The used identifiers that have a definition, with their destinations,
/// sorted by identifier (see [`used_defs`] and [`sort_by_id`]).
fn sorted_used_defs(used: &Vec<Vec<char>>, id_to_url: &Vec<(Vec<char>, Vec<char>)>) -> (r: Vec<
    (Vec<char>, Vec<char>),
>)
    ensures
        pairs_view(r@) == sort_by_id(
            used_defs(strs_view(used@), pairs_view(id_to_url@), used@.len() as int),
        ),
{
    let ghost uv = strs_view(used@);
    let ghost mv = pairs_view(id_to_url@);
    let mut out: Vec<(Vec<char>, Vec<char>)> = Vec::new();
    assert(pairs_view(out@) =~= Seq::<(Seq<char>, Seq<char>)>::empty());
    let mut n: usize = 0;
    while n < used.len()
        invariant
            n <= used@.len(),
            uv == strs_view(used@),
            mv == pairs_view(id_to_url@),
            pairs_view(out@) == sort_by_id(used_defs(uv, mv, n as int)),
        decreases used@.len() - n,
    {
        let ghost g = used_defs(uv, mv, n as int);
        match find_key(id_to_url, used[n].as_slice()) {
            Some(k) => {
                let id = copy_of(&used[n]);
                let url = copy_of(&id_to_url[k].1);
                let ghost d = (id@, url@);
                let ghost cur = pairs_view(out@);
                let mut i: usize = 0;
                while i < out.len()
                    invariant
                        i <= out@.len(),
                        cur == pairs_view(out@),
                        d == (id@, url@),
                        forall|j: int| 0 <= j < i ==> !id_less(d.0, (#[trigger] cur[j]).0),
                    ensures
                        i <= out@.len(),
                        forall|j: int| 0 <= j < i ==> !id_less(d.0, (#[trigger] cur[j]).0),
                        i < out@.len() ==> id_less(d.0, cur[i as int].0),
                    decreases out@.len() - i,
                {
                    if ids_less(id.as_slice(), out[i].0.as_slice()) {
                        break;
                    }
                    i += 1;
                }
                proof {
                    lemma_insert_by_id_at(cur, d, i as int);
                    assert((g + seq![d]).drop_last() =~= g);
                    assert(used_defs(uv, mv, n + 1) =~= g + seq![d]);
                }
                out.insert(i, (id, url));
                assert(pairs_view(out@) =~= cur.insert(i as int, d));
            },
            None => {
                assert(used_defs(uv, mv, n + 1) =~= g);
            },
        }
        n += 1;
    }
    out
}

/// Appends the definition lines of `ds` (see [`definition_lines`]).
fn push_definition_lines(out: &mut Vec<char>, ds: &Vec<(Vec<char>, Vec<char>)>)
    ensures
        final(out)@ == old(out)@ + definition_lines(pairs_view(ds@)),
{
    let ghost dv = pairs_view(ds@);
    let mut i: usize = 0;
    assert(dv.take(0) =~= Seq::<(Seq<char>, Seq<char>)>::empty());
    assert(out@ =~= old(out)@ + definition_lines(dv.take(0)));
    while i < ds.len()
        invariant
            i <= ds@.len(),
            dv == pairs_view(ds@),
            out@ == old(out)@ + definition_lines(dv.take(i as int)),
        decreases ds@.len() - i,
    {
        out.push('[');
        crate::text::extend(out, ds[i].0.as_slice());
        out.push(']');
        out.push(':');
        out.push(' ');
        crate::text::extend(out, ds[i].1.as_slice());
        out.push('\n');
        assert(dv.take(i + 1).drop_last() =~= dv.take(i as int));
        i += 1;
        assert(out@ =~= old(out)@ + definition_lines(dv.take(i as int)));
    }
    assert(dv.take(ds@.len() as int) =~= dv);
}

/// Adds a final newline when `out` lacks one (see [`with_final_newline`]).
fn end_with_newline(out: &mut Vec<char>)
    ensures
        final(out)@ == with_final_newline(old(out)@),
{
    let n = out.len();
    if n > 0 && out[n - 1] == '\n' {
        assert(out@.skip(n - 1) =~= seq!['\n']);
    } else {
        assert(!ends_with(out@, seq!['\n'])) by {
            if n > 0 {
                assert(out@.skip(n - 1)[0] == out@[n - 1]);
            }
        }
        out.push('\n');
    }
}

/// The trimmed-end text after applying `edits` to `s`.
fn apply_and_trim(s: &Vec<char>, edits: &Vec<TextEdit>) -> (r: Vec<char>)
    ensures
        r@ == trim_end(apply_edits_spec(s@, edits_view(edits@))),
{
    let body = apply_edits(s, edits);
    let n = crate::text::trim_end_len(body.as_slice());
    crate::text::slice_chars(body.as_slice(), 0, n)
}

/// Rewrites inline links as reference links `[text][id]`: a link to a
/// destination that already has a definition reuses its identifier, others
/// get the next free number. Autolinks are left alone. The definitions in use
/// (by these links and by existing references) are listed, numbers first, under
/// `# heading_text` at the bottom; old definition lines are removed, and with
/// `move_to_end` so is an old heading with the same text.
pub fn to_reference_links(source: &str, gfm: bool, move_to_end: bool, heading_text: &str) -> (r:
    String)
    ensures
        r@ == reference_links_of(source@, parsed(source@, gfm), move_to_end, heading_text@),
{
    let ns = crate::mdast::parse_markdown(source, gfm);
    to_reference_links_of_tree(source, &ns, move_to_end, heading_text)
}

/// [`to_reference_links`] on `source` whose flattened parse tree is `ns`.
pub fn to_reference_links_of_tree(
    source: &str,
    ns: &Vec<MdNode>,
    move_to_end: bool,
    heading_text: &str,
) -> (r: String)
    ensures
        r@ == reference_links_of(source@, nodes_view(ns@), move_to_end, heading_text@),
{
    let (s, offs) = crate::offsets::chars_and_offsets(source);
    let mut acc = collect_definitions(&s, &offs, ns);
    mark_references(ns, &mut acc);
    proof {
        assert(numbers_taken(strs_view(acc.ids@), 1));
    }
    convert_links(&s, &offs, ns, &mut acc);
    let ghost st = acc@;
    let RefAcc { id_to_url, url_to_id, ids, used, counter, edits } = acc;
    let mut edits = edits;
    let ghost nv = nodes_view(ns@);
    if move_to_end {
        push_heading_removals(&s, &offs, ns, heading_text, None, &mut edits);
        assert(keep_fn(None) =~= (|a: int, b: int| true));
    } else {
        assert(edits_view(edits@) =~= st.edits + Seq::<EditV>::empty());
    }
    let mut out = apply_and_trim(&s, &edits);
    let ghost body = out@;
    let defs = sorted_used_defs(&used, &id_to_url);
    let ghost dv = sort_by_id(used_defs(st.used, st.id_to_url, st.used.len() as int));
    assert(pairs_view(defs@) == dv);
    if defs.len() > 0 {
        out.push('\n');
        out.push('\n');
        out.push('#');
        out.push(' ');
        let hc = crate::text::chars_of(heading_text);
        let ht = crate::text::trim_vec(hc.as_slice());
        crate::text::extend(&mut out, ht.as_slice());
        out.push('\n');
        out.push('\n');
        let ghost mid = out@;
        push_definition_lines(&mut out, &defs);
        assert(out@ =~= body + seq!['\n', '\n', '#', ' '] + trim(heading_text@) + seq![
            '\n',
            '\n',
        ] + definition_lines(dv));
    }
    end_with_newline(&mut out);
    crate::text::string_of(out.as_slice())
}

/// Rewrites reference links back into inline links, dropping the definitions
/// and the references heading `heading_text`.
pub fn to_inline_links(source: &str, gfm: bool, heading_text: &str) -> (r: String)
    ensures
        r@ == inline_links_of(source@, parsed(source@, gfm), heading_text@),
{
    let ns = crate::mdast::parse_markdown(source, gfm);
    to_inline_links_of_tree(source, &ns, heading_text)
}

/// [`to_inline_links`] on `source` whose flattened parse tree is `ns`.
pub fn to_inline_links_of_tree(source: &str, ns: &Vec<MdNode>, heading_text: &str) -> (r: String)
    ensures
        r@ == inline_links_of(source@, nodes_view(ns@), heading_text@),
{
    let (s, offs) = crate::offsets::chars_and_offsets(source);
    let edits = inlining_edits(&s, &offs, ns, heading_text, None);
    assert(keep_fn(None) =~= (|a: int, b: int| true));
    let mut out = apply_and_trim(&s, &edits);
    end_with_newline(&mut out);
    crate::text::string_of(out.as_slice())
}

/// The character index of the boundary at or after byte `off` (see
/// [`char_ceil`]).
fn ceil_index(s: &Vec<char>, offs: &Vec<usize>, off: usize) -> (r: usize)
    requires
        crate::offsets::are_boundary_offsets(s@, offs@),
        off <= offs@[s@.len() as int],
    ensures
        r == char_ceil(s@, off as int),
        r <= s@.len(),
{
    let f = char_at(s, offs, off);
    proof {
        crate::offsets::lemma_char_floor(s@, off as int);
    }
    if offs[f] >= off {
        f
    } else {
        let n = s.len();
        assert(f < n);
        f + 1
    }
}

/// The edits of `es` within `[a, b)`, moved to start at `a` (see [`rebase`]).
fn rebased(es: &Vec<TextEdit>, a: usize, b: usize) -> (r: Vec<TextEdit>)
    ensures
        edits_view(r@) == rebase(edits_view(es@), a as int, b as int),
{
    let ghost ev = edits_view(es@);
    let mut out: Vec<TextEdit> = Vec::new();
    let mut i: usize = 0;
    assert(ev.take(0) =~= Seq::<EditV>::empty());
    assert(edits_view(out@) =~= rebase(ev.take(0), a as int, b as int));
    while i < es.len()
        invariant
            i <= es@.len(),
            ev == edits_view(es@),
            edits_view(out@) == rebase(ev.take(i as int), a as int, b as int),
        decreases es@.len() - i,
    {
        let e = &es[i];
        let ghost before = edits_view(out@);
        assert(ev.take(i + 1).drop_last() =~= ev.take(i as int));
        assert(ev.take(i + 1).last() == e@);
        if e.start >= a && e.end <= b && e.start <= e.end {
            let ne = TextEdit { start: e.start - a, end: e.end - a, new: copy_of(&e.new) };
            let ghost nev = ne@;
            out.push(ne);
            assert(edits_view(out@) =~= before + seq![nev]);
        } else {
            assert(edits_view(out@) =~= before + Seq::<EditV>::empty());
        }
        i += 1;
    }
    assert(ev.take(es@.len() as int) =~= ev);
    out
}

/// The selection `[start, end)` of `source` (byte offsets, rounded outward to
/// character boundaries and clamped to the text) with its reference links
/// inlined. References are resolved against the whole document; definition
/// lines and a references heading lying wholly inside the selection are
/// dropped, and removals that would reach outside it are skipped.
pub fn inline_links_in_range(
    source: &str,
    gfm: bool,
    heading_text: &str,
    start: usize,
    end: usize,
) -> (r: String)
    ensures
        r@ == inline_range_of(source@, parsed(source@, gfm), heading_text@, start, end),
{
    let ns = crate::mdast::parse_markdown(source, gfm);
    inline_links_in_range_of_tree(source, &ns, heading_text, start, end)
}

/// [`inline_links_in_range`] on `source` whose flattened parse tree is `ns`.
pub fn inline_links_in_range_of_tree(
    source: &str,
    ns: &Vec<MdNode>,
    heading_text: &str,
    start: usize,
    end: usize,
) -> (r: String)
    ensures
        r@ == inline_range_of(source@, nodes_view(ns@), heading_text@, start, end),
{
    let (s, offs) = crate::offsets::chars_and_offsets(source);
    let blen = offs[s.len()];
    proof {
        assert(s@.take(s@.len() as int) =~= s@);
    }
    let a = char_at(&s, &offs, if start < blen {
        start
    } else {
        blen
    });
    let b0 = ceil_index(&s, &offs, if end < blen {
        end
    } else {
        blen
    });
    let b = if b0 < a {
        a
    } else {
        b0
    };
    let edits = inlining_edits(&s, &offs, ns, heading_text, Some((a, b)));
    assert(keep_fn(Some((a, b))) =~= (|x: int, y: int| x >= a && y <= b));
    let moved = rebased(&edits, a, b);
    let slice = crate::text::slice_chars(s.as_slice(), a, b);
    let out = apply_edits(&slice, &moved);
    crate::text::string_of(out.as_slice())
}

/// The result of [`format_document`]: tables, then lists, then the reference
/// links, each step when enabled.
pub open spec fn formatted_document(
    s: Seq<char>,
    gfm: bool,
    tables: bool,
    lists: bool,
    references: bool,
    heading: Seq<char>,
) -> Seq<char> {
    let t = if tables {
        crate::features::tables::spec_format_tables(s)
    } else {
        s
    };
    let l = if lists {
        crate::features::lists::lists_formatted(t, parsed(t, gfm))
    } else {
        t
    };
    if references {
        reference_links_of(l, parsed(l, gfm), true, heading)
    } else {
        l
    }
}

/// Runs the document formatter: table normalisation, list normalisation and
/// the move of reference links to the bottom, each as `config` enables it.
pub fn format_document(source: &str, gfm: bool, config: &crate::config::FormattingConfig) -> (r:
    String)
    ensures
        r@ == formatted_document(
            source@,
            gfm,
            config.format_tables,
            config.format_lists,
            config.move_references_to_bottom,
            config.references_heading@,
        ),
{
    let mut out = if config.format_tables {
        crate::features::tables::format_tables(source)
    } else {
        source.to_owned()
    };
    if config.format_lists {
        out = crate::features::lists::format_lists(out.as_str(), gfm);
    }
    if config.move_references_to_bottom {
        out = to_reference_links(out.as_str(), gfm, true, config.references_heading.as_str());
    }
    out
}

/// A document without links, images by reference, reference definitions or
/// a heading like the reference section's is only trimmed at its end and
/// given a final newline by the conversion to reference links.
pub proof fn lemma_reference_links_without_links(
    s: Seq<char>,
    ns: Seq<MdNodeV>,
    move_to_end: bool,
    heading: Seq<char>,
)
    requires
        forall|i: int|
            0 <= i < ns.len() ==> {
                &&& (#[trigger] ns[i]).kind != MdKind::Link
                &&& ns[i].kind != MdKind::Definition
                &&& ns[i].kind != MdKind::LinkReference
                &&& ns[i].kind != MdKind::ImageReference
                &&& !is_section_heading(ns, i, heading)
            },
    ensures
        reference_links_of(s, ns, move_to_end, heading) == with_final_newline(trim_end(s)),
{
    let n = ns.len() as int;
    lemma_defs_pass_empty(s, ns, n);
    let st0 = defs_pass(s, ns, n);
    lemma_refs_pass_same(ns, st0, n);
    lemma_links_pass_same(s, ns, st0, n);
    lemma_heading_removals_empty(s, ns, heading, |a: int, b: int| true, n);
    let st = reference_state(s, ns);
    assert(st == st0);
    assert(st.edits + Seq::<EditV>::empty() =~= Seq::<EditV>::empty());
    crate::edits::lemma_apply_no_edits(s);
    assert(used_defs(st.used, st.id_to_url, 0) =~= Seq::<(Seq<char>, Seq<char>)>::empty());
}

proof fn lemma_defs_pass_empty(s: Seq<char>, ns: Seq<MdNodeV>, n: int)
    requires
        n <= ns.len(),
        forall|i: int| 0 <= i < ns.len() ==> (#[trigger] ns[i]).kind != MdKind::Definition,
    ensures
        defs_pass(s, ns, n) == defs_pass(s, ns, 0),
    decreases n,
{
    if n > 0 {
        assert(ns[n - 1].kind != MdKind::Definition);
        lemma_defs_pass_empty(s, ns, n - 1);
    }
}

proof fn lemma_refs_pass_same(ns: Seq<MdNodeV>, st: RefState, n: int)
    requires
        n <= ns.len(),
        forall|i: int|
            0 <= i < ns.len() ==> (#[trigger] ns[i]).kind != MdKind::LinkReference && ns[i].kind
                != MdKind::ImageReference,
    ensures
        refs_pass(ns, st, n) == st,
    decreases n,
{
    if n > 0 {
        assert(ns[n - 1].kind != MdKind::LinkReference);
        lemma_refs_pass_same(ns, st, n - 1);
    }
}

proof fn lemma_links_pass_same(s: Seq<char>, ns: Seq<MdNodeV>, st: RefState, n: int)
    requires
        n <= ns.len(),
        forall|i: int| 0 <= i < ns.len() ==> (#[trigger] ns[i]).kind != MdKind::Link,
    ensures
        links_pass(s, ns, st, n) == st,
    decreases n,
{
    if n > 0 {
        assert(ns[n - 1].kind != MdKind::Link);
        lemma_links_pass_same(s, ns, st, n - 1);
    }
}

proof fn lemma_heading_removals_empty(
    s: Seq<char>,
    ns: Seq<MdNodeV>,
    target: Seq<char>,
    keep: spec_fn(int, int) -> bool,
    n: int,
)
    requires
        n <= ns.len(),
        forall|i: int| 0 <= i < ns.len() ==> !#[trigger] is_section_heading(ns, i, target),
    ensures
        heading_removals(s, ns, target, keep, n) == Seq::<EditV>::empty(),
    decreases n,
{
    if n > 0 {
        assert(!is_section_heading(ns, n - 1, target));
        lemma_heading_removals_empty(s, ns, target, keep, n - 1);
        assert(Seq::<EditV>::empty() + Seq::<EditV>::empty() =~= Seq::<EditV>::empty());
    }
}




proof fn lemma_definition_removals_empty(
    s: Seq<char>,
    ns: Seq<MdNodeV>,
    keep: spec_fn(int, int) -> bool,
    n: int,
)
    requires
        n <= ns.len(),
        forall|i: int| 0 <= i < ns.len() ==> (#[trigger] ns[i]).kind != MdKind::Definition,
    ensures
        definition_removals(s, ns, keep, n) == Seq::<EditV>::empty(),
    decreases n,
{
    if n > 0 {
        assert(ns[n - 1].kind != MdKind::Definition);
        lemma_definition_removals_empty(s, ns, keep, n - 1);
        assert(Seq::<EditV>::empty() + Seq::<EditV>::empty() =~= Seq::<EditV>::empty());
    }
}

proof fn lemma_no_definition_urls(ns: Seq<MdNodeV>, n: int)
    requires
        n <= ns.len(),
        forall|i: int| 0 <= i < ns.len() ==> (#[trigger] ns[i]).kind != MdKind::Definition,
    ensures
        definition_urls(ns, n) == Seq::<(Seq<char>, Seq<char>)>::empty(),
    decreases n,
{
    if n > 0 {
        assert(ns[n - 1].kind != MdKind::Definition);
        lemma_no_definition_urls(ns, n - 1);
    }
}

proof fn lemma_inline_upto_unresolved(
    s: Seq<char>,
    ns: Seq<MdNodeV>,
    keep: spec_fn(int, int) -> bool,
    n: int,
)
    requires
        n <= ns.len(),
    ensures
        inline_edits_upto(s, ns, Seq::empty(), keep, n) == Seq::<EditV>::empty(),
    decreases n,
{
    if n > 0 {
        lemma_inline_upto_unresolved(s, ns, keep, n - 1);
        assert(lookup(Seq::<(Seq<char>, Seq<char>)>::empty(), ns[n - 1].identifier) is None);
        assert(Seq::<EditV>::empty() + Seq::<EditV>::empty() =~= Seq::<EditV>::empty());
    }
}

/// Without reference definitions and without a heading like the reference
/// section's, inlining changes nothing, whatever references the document
/// uses: they resolve to no destination. The whole document is only trimmed
/// at its end and given a final newline, and a copied selection is the
/// selected text itself.
pub proof fn lemma_inline_without_definitions(
    s: Seq<char>,
    ns: Seq<MdNodeV>,
    heading: Seq<char>,
    start: usize,
    end: usize,
)
    requires
        forall|i: int|
            0 <= i < ns.len() ==> {
                &&& (#[trigger] ns[i]).kind != MdKind::Definition
                &&& !is_section_heading(ns, i, heading)
            },
    ensures
        inline_links_of(s, ns, heading) == with_final_newline(trim_end(s)),
        inline_range_of(s, ns, heading, start, end) == ({
            let (a, b) = selection(s, start, end);
            s.subrange(a, b)
        }),
{
    let (a, b) = selection(s, start, end);
    let n = ns.len() as int;
    lemma_no_definition_urls(ns, n);
    assert forall|i: int| 0 <= i < ns.len() implies !#[trigger] is_section_heading(ns, i, heading) by {
        assert(!is_section_heading(ns, i, heading));
    }
    let k1 = |x: int, y: int| true;
    let k2 = |x: int, y: int| x >= a && y <= b;
    lemma_inline_upto_unresolved(s, ns, k1, n);
    lemma_inline_upto_unresolved(s, ns, k2, n);
    lemma_definition_removals_empty(s, ns, k1, n);
    lemma_definition_removals_empty(s, ns, k2, n);
    lemma_heading_removals_empty(s, ns, heading, k1, n);
    lemma_heading_removals_empty(s, ns, heading, k2, n);
    assert(inline_edits(s, ns, heading, k1) =~= Seq::<EditV>::empty());
    assert(inline_edits(s, ns, heading, k2) =~= Seq::<EditV>::empty());
    crate::edits::lemma_apply_no_edits(s);
    crate::edits::lemma_apply_no_edits(s.subrange(a, b));
    assert(rebase(Seq::<EditV>::empty(), a, b) == Seq::<EditV>::empty());
}

/// The span filter that accepts everything within the text.
pub open spec fn within_text(s: Seq<char>) -> spec_fn(int, int) -> bool {
    |x: int, y: int| x >= 0 && y <= s.len()
}

proof fn lemma_cix_bounds(s: Seq<char>, off: usize)
    ensures
        0 <= cix(s, off) <= s.len(),
{
    crate::offsets::lemma_char_floor(s, off as int);
}

proof fn lemma_upto_within_text(
    s: Seq<char>,
    ns: Seq<MdNodeV>,
    urls: Seq<(Seq<char>, Seq<char>)>,
    n: int,
)
    requires
        n <= ns.len(),
    ensures
        inline_edits_upto(s, ns, urls, within_text(s), n) == inline_edits_upto(
            s,
            ns,
            urls,
            |a: int, b: int| true,
            n,
        ),
    decreases n,
{
    if n > 0 {
        lemma_upto_within_text(s, ns, urls, n - 1);
        let i = n - 1;
        if ns[i].pos is Some {
            lemma_cix_bounds(s, ns[i].pos.unwrap().start);
            lemma_cix_bounds(s, ns[i].pos.unwrap().end);
        }
        assert(inline_edit_at(s, ns, urls, within_text(s), i) == inline_edit_at(
            s,
            ns,
            urls,
            |a: int, b: int| true,
            i,
        ));
    }
}

proof fn lemma_definitions_within_text(s: Seq<char>, ns: Seq<MdNodeV>, n: int)
    requires
        n <= ns.len(),
    ensures
        definition_removals(s, ns, within_text(s), n) == definition_removals(
            s,
            ns,
            |a: int, b: int| true,
            n,
        ),
    decreases n,
{
    if n > 0 {
        lemma_definitions_within_text(s, ns, n - 1);
        let i = n - 1;
        if ns[i].pos is Some {
            lemma_cix_bounds(s, ns[i].pos.unwrap().start);
            lemma_cix_bounds(s, ns[i].pos.unwrap().end);
        }
    }
}

proof fn lemma_headings_within_text(s: Seq<char>, ns: Seq<MdNodeV>, heading: Seq<char>, n: int)
    requires
        n <= ns.len(),
    ensures
        heading_removals(s, ns, heading, within_text(s), n) == heading_removals(
            s,
            ns,
            heading,
            |a: int, b: int| true,
            n,
        ),
    decreases n,
{
    if n > 0 {
        lemma_headings_within_text(s, ns, heading, n - 1);
        let i = n - 1;
        if ns[i].pos is Some {
            lemma_cix_bounds(s, ns[i].pos.unwrap().start);
            lemma_cix_bounds(s, ns[i].pos.unwrap().end);
        }
    }
}

/// Every edit of `es` lies within `[0, n]` and starts no later than it ends.
pub open spec fn edits_within(es: Seq<EditV>, n: int) -> bool {
    forall|k: int| 0 <= k < es.len() ==> 0 <= (#[trigger] es[k]).start <= es[k].end <= n
}

proof fn lemma_rebase_whole(es: Seq<EditV>, n: int)
    requires
        edits_within(es, n),
    ensures
        rebase(es, 0, n) == es,
    decreases es.len(),
{
    if es.len() > 0 {
        let e = es.last();
        assert(forall|k: int| 0 <= k < es.drop_last().len() ==> es.drop_last()[k] == es[k]);
        lemma_rebase_whole(es.drop_last(), n);
        assert(EditV { start: e.start - 0, end: e.end - 0, new: e.new } == e);
        assert(es.drop_last() + seq![e] =~= es);
    }
}

/// Inlining the whole document as a selection inlines exactly what the
/// whole-document conversion does, dropping the same definitions and
/// heading: trimmed at its end and given a final newline, the two agree.
/// The text's length in bytes fits a `usize`.
pub proof fn lemma_whole_range_inlines_like_document(
    s: Seq<char>,
    ns: Seq<MdNodeV>,
    heading: Seq<char>,
)
    requires
        crate::offsets::utf8_len(s) <= usize::MAX,
    ensures
        with_final_newline(
            trim_end(
                inline_range_of(s, ns, heading, 0, crate::offsets::utf8_len(s) as usize),
            ),
        ) == inline_links_of(s, ns, heading),
{
    let blen = crate::offsets::utf8_len(s);
    let n = s.len() as int;
    // The selection is the whole text.
    crate::offsets::lemma_char_floor(s, 0);
    crate::offsets::lemma_utf8_len_take_mono(s, 0, char_floor(s, 0) as int);
    assert(s.take(0) =~= Seq::<char>::empty());
    assert(char_floor(s, 0) == 0);
    crate::offsets::lemma_char_floor(s, blen as int);
    assert(s.take(n) =~= s);
    if char_floor(s, blen as int) < n {
        crate::offsets::lemma_utf8_len_take_mono(s, (char_floor(s, blen as int) + 1) as int, n);
    }
    assert(char_floor(s, blen as int) == n);
    assert(selection(s, 0, blen as usize) == (0int, n));
    // Within the text every span is kept.
    let k2 = |x: int, y: int| x >= 0 && y <= n;
    assert(k2 == within_text(s));
    let all = |a: int, b: int| true;
    let m = ns.len() as int;
    lemma_upto_within_text(s, ns, definition_urls(ns, m), m);
    lemma_definitions_within_text(s, ns, m);
    lemma_headings_within_text(s, ns, heading, m);
    let es = inline_edits(s, ns, heading, all);
    lemma_inline_edits_within(s, ns, heading, all);
    assert(inline_edits(s, ns, heading, k2) == es);
    lemma_rebase_whole(es, n);
    assert(s.subrange(0, n) =~= s);
}

proof fn lemma_id_less_asym(a: Seq<char>, b: Seq<char>)
    ensures
        id_less(a, b) ==> !id_less(b, a),
{
    crate::text::lemma_seq_less_asym(a, b);
}

/// Each entry does not sort before the one just above it.
pub open spec fn ids_in_order(ds: Seq<(Seq<char>, Seq<char>)>) -> bool {
    forall|i: int| 1 <= i < ds.len() ==> !id_less(#[trigger] ds[i].0, ds[i - 1].0)
}

proof fn lemma_insert_by_id_sorted(s: Seq<(Seq<char>, Seq<char>)>, d: (Seq<char>, Seq<char>))
    requires
        ids_in_order(s),
    ensures
        ids_in_order(insert_by_id(s, d)),
        insert_by_id(s, d).len() == s.len() + 1,
        insert_by_id(s, d)[0] == d || (s.len() > 0 && insert_by_id(s, d)[0] == s[0]),
    decreases s.len(),
{
    if s.len() == 0 {
    } else if id_less(d.0, s[0].0) {
        lemma_id_less_asym(d.0, s[0].0);
        let r = seq![d] + s;
        assert forall|i: int| 1 <= i < r.len() implies !id_less(#[trigger] r[i].0, r[i - 1].0) by {
            if i >= 2 {
                assert(r[i] == s[i - 1] && r[i - 1] == s[i - 2]);
                assert(!id_less(s[i - 1].0, s[i - 2].0));
            }
        }
    } else {
        let t = s.drop_first();
        assert forall|i: int| 1 <= i < t.len() implies !id_less(#[trigger] t[i].0, t[i - 1].0) by {
            assert(t[i] == s[i + 1] && t[i - 1] == s[i]);
            assert(!id_less(s[i + 1].0, s[i].0));
        }
        lemma_insert_by_id_sorted(t, d);
        let q = insert_by_id(t, d);
        let r = seq![s[0]] + q;
        assert forall|i: int| 1 <= i < r.len() implies !id_less(#[trigger] r[i].0, r[i - 1].0) by {
            if i == 1 {
                assert(r[1] == q[0] && r[0] == s[0]);
                if q[0] != d {
                    assert(q[0] == s[1]);
                    assert(!id_less(s[1].0, s[0].0));
                }
            } else {
                assert(r[i] == q[i - 1] && r[i - 1] == q[i - 2]);
                assert(!id_less(q[i - 1].0, q[i - 2].0));
            }
        }
    }
}

proof fn lemma_sort_by_id_sorted(ds: Seq<(Seq<char>, Seq<char>)>)
    ensures
        ids_in_order(sort_by_id(ds)),
        sort_by_id(ds).len() == ds.len(),
    decreases ds.len(),
{
    if ds.len() > 0 {
        lemma_sort_by_id_sorted(ds.drop_last());
        lemma_insert_by_id_sorted(sort_by_id(ds.drop_last()), ds.last());
    }
}

proof fn lemma_definition_lines_end(ds: Seq<(Seq<char>, Seq<char>)>)
    requires
        ds.len() > 0,
    ensures
        definition_lines(ds).len() > 0,
        definition_lines(ds).last() == '\n',
{
}

/// The references section of the conversion to reference links: the result
/// ends with a newline; when some used identifier has a destination, it
/// ends with the heading `# heading` (trimmed) after a blank line, a blank
/// line, and one `[id]: url` line per used definition (no identifier
/// twice), ordered with
/// numeric identifiers first by value and the others after them in
/// character order (no line's identifier sorts before the one above it);
/// otherwise no such section is added.
pub proof fn lemma_reference_section(
    s: Seq<char>,
    ns: Seq<MdNodeV>,
    move_to_end: bool,
    heading: Seq<char>,
)
    ensures
        ({
            let r = reference_links_of(s, ns, move_to_end, heading);
            let st = reference_state(s, ns);
            let defs = sort_by_id(used_defs(st.used, st.id_to_url, st.used.len() as int));
            &&& r.len() > 0 && r.last() == '\n'
            &&& ids_in_order(defs)
            &&& distinct_keys(defs)
            &&& defs.len() == used_defs(st.used, st.id_to_url, st.used.len() as int).len()
            &&& defs.len() > 0 ==> ends_with(
                r,
                seq!['\n', '\n', '#', ' '] + trim(heading) + seq!['\n', '\n'] + definition_lines(
                    defs,
                ),
            )
        }),
{
    let st = reference_state(s, ns);
    let ud = used_defs(st.used, st.id_to_url, st.used.len() as int);
    let defs = sort_by_id(ud);
    lemma_sort_by_id_sorted(ud);
    lemma_reference_section_distinct(s, ns);
    let body = reference_body(s, ns, move_to_end, heading);
    let tail = seq!['\n', '\n', '#', ' '] + trim(heading) + seq!['\n', '\n'] + definition_lines(defs);
    let r = reference_links_of(s, ns, move_to_end, heading);
    if defs.len() > 0 {
        lemma_definition_lines_end(defs);
        let full = body + tail;
        assert(full.last() == '\n');
        assert(ends_with(full, seq!['\n'])) by {
            assert(full.skip(full.len() - 1) =~= seq!['\n']);
        }
        let f2 = body + seq!['\n', '\n', '#', ' '] + trim(heading) + seq!['\n', '\n']
            + definition_lines(defs);
        assert(f2 =~= full);
        assert(r == full);
        assert(ends_with(full, tail)) by {
            assert(full.skip(full.len() - tail.len()) =~= tail);
        }
    } else {
        let full = body;
        assert(r == with_final_newline(full));
        if ends_with(full, seq!['\n']) {
            assert(full.len() >= 1);
            assert(full.skip(full.len() - 1)[0] == full[full.len() - 1]);
            assert(r.last() == '\n');
        } else {
            assert(r == full.push('\n'));
        }
    }
}

/// No identifier occurs twice.
pub open spec fn distinct_ids(u: Seq<Seq<char>>) -> bool {
    forall|i: int, j: int| 0 <= i < j < u.len() ==> u[i] != u[j]
}

/// No two entries share an identifier.
pub open spec fn distinct_keys(ds: Seq<(Seq<char>, Seq<char>)>) -> bool {
    forall|i: int, j: int| 0 <= i < j < ds.len() ==> ds[i].0 != ds[j].0
}

proof fn lemma_set_add_distinct(u: Seq<Seq<char>>, x: Seq<char>)
    requires
        distinct_ids(u),
    ensures
        distinct_ids(set_add(u, x)),
{
    if !u.contains(x) {
        let r = u.push(x);
        assert forall|i: int, j: int| 0 <= i < j < r.len() implies r[i] != r[j] by {
            if j == u.len() {
                assert(r[i] == u[i]);
                assert(u.contains(u[i]));
            } else {
                assert(r[i] == u[i] && r[j] == u[j]);
            }
        }
    }
}

proof fn lemma_defs_pass_unused(s: Seq<char>, ns: Seq<MdNodeV>, n: int)
    ensures
        defs_pass(s, ns, n).used == Seq::<Seq<char>>::empty(),
    decreases n,
{
    if n > 0 {
        lemma_defs_pass_unused(s, ns, n - 1);
    }
}

proof fn lemma_refs_pass_distinct(ns: Seq<MdNodeV>, st: RefState, n: int)
    requires
        distinct_ids(st.used),
    ensures
        distinct_ids(refs_pass(ns, st, n).used),
    decreases n,
{
    if n > 0 {
        lemma_refs_pass_distinct(ns, st, n - 1);
        lemma_set_add_distinct(refs_pass(ns, st, n - 1).used, ns[n - 1].identifier);
    }
}

proof fn lemma_links_pass_distinct(s: Seq<char>, ns: Seq<MdNodeV>, st: RefState, n: int)
    requires
        distinct_ids(st.used),
    ensures
        distinct_ids(links_pass(s, ns, st, n).used),
    decreases n,
{
    if n > 0 {
        lemma_links_pass_distinct(s, ns, st, n - 1);
        let prev = links_pass(s, ns, st, n - 1);
        let i = n - 1;
        if ns[i].kind == MdKind::Link && ns[i].pos is Some && !is_autolink(ns, i) {
            let url = ns[i].url;
            match lookup(prev.url_to_id, url) {
                Some(x) => lemma_set_add_distinct(prev.used, x),
                None => {
                    let c = fresh_number(prev.ids, prev.counter, prev.counter + prev.ids.len());
                    lemma_set_add_distinct(prev.used, decimal(c));
                },
            }
        }
    }
}

proof fn lemma_used_defs_keys(u: Seq<Seq<char>>, m: Seq<(Seq<char>, Seq<char>)>, n: int)
    requires
        0 <= n <= u.len(),
        distinct_ids(u),
    ensures
        distinct_keys(used_defs(u, m, n)),
        forall|i: int| 0 <= i < used_defs(u, m, n).len() ==> u.take(n).contains(
            #[trigger] used_defs(u, m, n)[i].0,
        ),
    decreases n,
{
    if n > 0 {
        lemma_used_defs_keys(u, m, n - 1);
        let prev = used_defs(u, m, n - 1);
        let cur = used_defs(u, m, n);
        assert forall|i: int| 0 <= i < prev.len() implies u.take(n).contains(#[trigger] prev[i].0) by {
            let k = choose|k: int| 0 <= k < u.take(n - 1).len() && #[trigger] u.take(n - 1)[k] == prev[i].0;
            assert(u.take(n)[k] == prev[i].0);
        }
        assert(!u.take(n - 1).contains(u[n - 1])) by {
            if u.take(n - 1).contains(u[n - 1]) {
                let k = choose|k: int| 0 <= k < u.take(n - 1).len() && #[trigger] u.take(n - 1)[k] == u[n - 1];
                assert(u[k] == u[n - 1]);
            }
        }
        assert(u.take(n)[n - 1] == u[n - 1]);
        assert forall|i: int| 0 <= i < cur.len() implies u.take(n).contains(#[trigger] cur[i].0) by {
            if i < prev.len() {
                assert(cur[i] == prev[i]);
            }
        }
        assert forall|i: int, j: int| 0 <= i < j < cur.len() implies cur[i].0 != cur[j].0 by {
            assert(cur[i] == prev[i]);
            if j < prev.len() {
                assert(cur[j] == prev[j]);
            } else {
                assert(u.take(n - 1).contains(prev[i].0));
            }
        }
    }
}

proof fn lemma_insert_by_id_members(s: Seq<(Seq<char>, Seq<char>)>, d: (Seq<char>, Seq<char>))
    requires
        distinct_keys(s),
        forall|k: int| 0 <= k < s.len() ==> (#[trigger] s[k]).0 != d.0,
    ensures
        distinct_keys(insert_by_id(s, d)),
        forall|i: int|
            0 <= i < insert_by_id(s, d).len() ==> #[trigger] insert_by_id(s, d)[i] == d
                || s.contains(insert_by_id(s, d)[i]),
    decreases s.len(),
{
    if s.len() == 0 {
    } else if id_less(d.0, s[0].0) {
        let r = seq![d] + s;
        assert forall|i: int| 0 <= i < r.len() implies #[trigger] r[i] == d || s.contains(r[i]) by {
            if i > 0 {
                assert(r[i] == s[i - 1]);
            }
        }
        assert forall|i: int, j: int| 0 <= i < j < r.len() implies r[i].0 != r[j].0 by {
            assert(r[j] == s[j - 1]);
            if i > 0 {
                assert(r[i] == s[i - 1]);
            }
        }
    } else {
        let t = s.drop_first();
        assert forall|i: int, j: int| 0 <= i < j < t.len() implies t[i].0 != t[j].0 by {
            assert(t[i] == s[i + 1] && t[j] == s[j + 1]);
        }
        assert forall|k: int| 0 <= k < t.len() implies (#[trigger] t[k]).0 != d.0 by {
            assert(t[k] == s[k + 1]);
        }
        lemma_insert_by_id_members(t, d);
        let q = insert_by_id(t, d);
        let r = seq![s[0]] + q;
        assert forall|i: int| 0 <= i < r.len() implies #[trigger] r[i] == d || s.contains(r[i]) by {
            if i == 0 {
                assert(s[0] == s[0]);
                assert(s.contains(s[0]));
            } else {
                assert(r[i] == q[i - 1]);
                if q[i - 1] != d {
                    assert(t.contains(q[i - 1]));
                    let k = choose|k: int| 0 <= k < t.len() && #[trigger] t[k] == q[i - 1];
                    assert(s[k + 1] == t[k]);
                }
            }
        }
        assert forall|i: int, j: int| 0 <= i < j < r.len() implies r[i].0 != r[j].0 by {
            assert(r[j] == q[j - 1]);
            if i > 0 {
                assert(r[i] == q[i - 1]);
            } else {
                assert(r[0] == s[0]);
                if q[j - 1] != d {
                    assert(t.contains(q[j - 1]));
                    let k = choose|k: int| 0 <= k < t.len() && #[trigger] t[k] == q[j - 1];
                    assert(s[k + 1] == t[k]);
                }
            }
        }
    }
}

proof fn lemma_sort_by_id_members(ds: Seq<(Seq<char>, Seq<char>)>)
    requires
        distinct_keys(ds),
    ensures
        distinct_keys(sort_by_id(ds)),
        forall|i: int| 0 <= i < sort_by_id(ds).len() ==> ds.contains(#[trigger] sort_by_id(ds)[i]),
    decreases ds.len(),
{
    if ds.len() > 0 {
        let d = ds.drop_last();
        assert forall|i: int, j: int| 0 <= i < j < d.len() implies d[i].0 != d[j].0 by {
            assert(d[i] == ds[i] && d[j] == ds[j]);
        }
        lemma_sort_by_id_members(d);
        let sd = sort_by_id(d);
        let x = ds.last();
        assert forall|k: int| 0 <= k < sd.len() implies (#[trigger] sd[k]).0 != x.0 by {
            assert(d.contains(sd[k]));
            let m = choose|m: int| 0 <= m < d.len() && #[trigger] d[m] == sd[k];
            assert(ds[m] == d[m]);
        }
        lemma_insert_by_id_members(sd, x);
        let r = insert_by_id(sd, x);
        assert forall|i: int| 0 <= i < r.len() implies ds.contains(#[trigger] r[i]) by {
            if r[i] == x {
                assert(ds[ds.len() - 1] == x);
            } else {
                assert(sd.contains(r[i]));
                let k = choose|k: int| 0 <= k < sd.len() && #[trigger] sd[k] == r[i];
                assert(d.contains(sd[k]));
                let m = choose|m: int| 0 <= m < d.len() && #[trigger] d[m] == sd[k];
                assert(ds[m] == d[m]);
            }
        }
    }
}

/// The references section lists each identifier once.
proof fn lemma_reference_section_distinct(s: Seq<char>, ns: Seq<MdNodeV>)
    ensures
        ({
            let st = reference_state(s, ns);
            distinct_keys(sort_by_id(used_defs(st.used, st.id_to_url, st.used.len() as int)))
        }),
{
    let n = ns.len() as int;
    lemma_defs_pass_unused(s, ns, n);
    let st0 = defs_pass(s, ns, n);
    lemma_refs_pass_distinct(ns, st0, n);
    let st1 = refs_pass(ns, st0, n);
    lemma_links_pass_distinct(s, ns, st1, n);
    let st = reference_state(s, ns);
    lemma_used_defs_keys(st.used, st.id_to_url, st.used.len() as int);
    lemma_sort_by_id_members(used_defs(st.used, st.id_to_url, st.used.len() as int));
}

proof fn lemma_find_char_range(s: Seq<char>, c: char, p: int, e: int)
    ensures
        match find_char(s, c, p, e) {
            Some(q) => p <= q < e && 0 <= q < s.len(),
            None => true,
        },
    decreases e - p,
{
    if !(p >= e || p < 0 || p >= s.len()) && s[p] != c {
        lemma_find_char_range(s, c, p + 1, e);
    }
}

proof fn lemma_removal_bounds(s: Seq<char>, p: MdPos)
    ensures
        0 <= remove_lines_edit(s, p).start,
        remove_lines_edit(s, p).end <= s.len(),
{
    lemma_cix_bounds(s, p.start);
    crate::lines::lemma_line_start(s, cix(s, p.start));
}

proof fn lemma_edits_within_concat(a: Seq<EditV>, b: Seq<EditV>, n: int)
    requires
        edits_within(a, n),
        edits_within(b, n),
    ensures
        edits_within(a + b, n),
{
    assert forall|k: int| 0 <= k < (a + b).len() implies 0 <= (#[trigger] (a + b)[k]).start
        <= (a + b)[k].end <= n by {
        if k < a.len() {
            assert((a + b)[k] == a[k]);
        } else {
            assert((a + b)[k] == b[k - a.len()]);
        }
    }
}

proof fn lemma_inline_upto_within(
    s: Seq<char>,
    ns: Seq<MdNodeV>,
    urls: Seq<(Seq<char>, Seq<char>)>,
    keep: spec_fn(int, int) -> bool,
    n: int,
)
    requires
        n <= ns.len(),
    ensures
        edits_within(inline_edits_upto(s, ns, urls, keep, n), s.len() as int),
    decreases n,
{
    if n > 0 {
        lemma_inline_upto_within(s, ns, urls, keep, n - 1);
        let i = n - 1;
        let here = inline_edit_at(s, ns, urls, keep, i);
        if ns[i].pos is Some {
            let p = ns[i].pos.unwrap();
            lemma_cix_bounds(s, p.start);
            lemma_cix_bounds(s, p.end);
            match label_end(ns, i) {
                Some(e) => lemma_cix_bounds(s, e),
                None => lemma_cix_bounds(s, if p.start < usize::MAX {
                    (p.start + 1) as usize
                } else {
                    p.start
                }),
            }
            lemma_find_char_range(s, ']', cix(s, p.start), cix(s, p.end));
        }
        assert(edits_within(here, s.len() as int));
        lemma_edits_within_concat(inline_edits_upto(s, ns, urls, keep, n - 1), here, s.len() as int);
    }
}

proof fn lemma_definition_removals_within(
    s: Seq<char>,
    ns: Seq<MdNodeV>,
    keep: spec_fn(int, int) -> bool,
    n: int,
)
    requires
        n <= ns.len(),
    ensures
        edits_within(definition_removals(s, ns, keep, n), s.len() as int),
    decreases n,
{
    if n > 0 {
        lemma_definition_removals_within(s, ns, keep, n - 1);
        if ns[n - 1].pos is Some {
            lemma_removal_bounds(s, ns[n - 1].pos.unwrap());
        }
        let i = n - 1;
        let here = if ns[i].kind == MdKind::Definition && ns[i].pos is Some && keep(
            cix(s, ns[i].pos.unwrap().start),
            cix(s, ns[i].pos.unwrap().end),
        ) && spans_forward(remove_lines_edit(s, ns[i].pos.unwrap())) {
            seq![remove_lines_edit(s, ns[i].pos.unwrap())]
        } else {
            Seq::empty()
        };
        assert(edits_within(here, s.len() as int));
        lemma_edits_within_concat(definition_removals(s, ns, keep, n - 1), here, s.len() as int);
    }
}

proof fn lemma_heading_removals_within(
    s: Seq<char>,
    ns: Seq<MdNodeV>,
    target: Seq<char>,
    keep: spec_fn(int, int) -> bool,
    n: int,
)
    requires
        n <= ns.len(),
    ensures
        edits_within(heading_removals(s, ns, target, keep, n), s.len() as int),
    decreases n,
{
    if n > 0 {
        lemma_heading_removals_within(s, ns, target, keep, n - 1);
        if ns[n - 1].pos is Some {
            lemma_removal_bounds(s, ns[n - 1].pos.unwrap());
        }
        let i = n - 1;
        let here = if is_section_heading(ns, i, target) && ns[i].pos is Some && keep(
            cix(s, ns[i].pos.unwrap().start),
            cix(s, ns[i].pos.unwrap().end),
        ) && spans_forward(remove_lines_edit(s, ns[i].pos.unwrap())) {
            seq![remove_lines_edit(s, ns[i].pos.unwrap())]
        } else {
            Seq::empty()
        };
        assert(edits_within(here, s.len() as int));
        lemma_edits_within_concat(heading_removals(s, ns, target, keep, n - 1), here, s.len() as int);
    }
}

/// Every inlining edit lies within the text and starts no later than it
/// ends.
proof fn lemma_inline_edits_within(
    s: Seq<char>,
    ns: Seq<MdNodeV>,
    heading: Seq<char>,
    keep: spec_fn(int, int) -> bool,
)
    ensures
        edits_within(inline_edits(s, ns, heading, keep), s.len() as int),
{
    let n = ns.len() as int;
    let urls = definition_urls(ns, n);
    lemma_inline_upto_within(s, ns, urls, keep, n);
    lemma_definition_removals_within(s, ns, keep, n);
    lemma_heading_removals_within(s, ns, heading, keep, n);
    lemma_edits_within_concat(
        inline_edits_upto(s, ns, urls, keep, n),
        definition_removals(s, ns, keep, n),
        s.len() as int,
    );
    lemma_edits_within_concat(
        inline_edits_upto(s, ns, urls, keep, n) + definition_removals(s, ns, keep, n),
        heading_removals(s, ns, heading, keep, n),
        s.len() as int,
    );
}

/// A selection is rounded outward to character boundaries and clamped to
/// the text, for any byte offsets (past the end, inside a character, or an
/// end before the start): its start is the boundary at or before the start
/// offset, its end the boundary at or after the end offset, but never
/// before the start; the result is that slice of the text with its
/// reference links inlined.
pub proof fn lemma_selection_rounds_outward(
    s: Seq<char>,
    ns: Seq<MdNodeV>,
    heading: Seq<char>,
    start: usize,
    end: usize,
)
    ensures
        ({
            let blen = crate::offsets::utf8_len(s) as int;
            let st = if start < blen {
                start as int
            } else {
                blen
            };
            let en = if end < blen {
                end as int
            } else {
                blen
            };
            let (a, b) = selection(s, start, end);
            let b0 = char_ceil(s, en);
            &&& 0 <= a <= b <= s.len()
            &&& crate::offsets::utf8_len(s.take(a)) <= st
            &&& a < s.len() ==> crate::offsets::utf8_len(s.take(a + 1)) > st
            &&& 0 <= b0 <= s.len()
            &&& crate::offsets::utf8_len(s.take(b0)) >= en
            &&& b0 > 0 ==> crate::offsets::utf8_len(s.take(b0 - 1)) < en
            &&& b == if b0 < a {
                a
            } else {
                b0
            }
            &&& inline_range_of(s, ns, heading, start, end) == apply_edits_spec(
                s.subrange(a, b),
                rebase(inline_edits(s, ns, heading, |x: int, y: int| x >= a && y <= b), a, b),
            )
        }),
{
    let blen = crate::offsets::utf8_len(s) as int;
    let st = if start < blen {
        start as int
    } else {
        blen
    };
    let en = if end < blen {
        end as int
    } else {
        blen
    };
    crate::offsets::lemma_char_floor(s, st);
    crate::offsets::lemma_char_floor(s, en);
    let f = char_floor(s, en) as int;
    assert(s.take(s.len() as int) =~= s);
    if f < s.len() {
        crate::offsets::lemma_utf8_len_take_mono(s, f + 1, s.len() as int);
    }
    if f > 0 {
        crate::offsets::lemma_utf8_len_take_mono(s, f - 1, f);
    }
}

} // verus!
