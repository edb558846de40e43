//! Go-to-definition and find-references for Markdown links, on byte offsets
//! of the document:
//!
//! * a reference usage (`[t][id]`, `[id]`) jumps to its definition, and its
//!   references are the usages of the identifier (with the definition when
//!   asked);
//! * a link, image or definition destination jumps to its file (a `#heading`
//!   fragment to that heading) or, for a `#anchor`, to the heading here; its
//!   references are the destinations in the document resolving to the same
//!   file.

use vstd::prelude::*;
use crate::analysis::{Analysis, AnalysisV, HeadingV, headings_view};
use crate::features::diagnostics::{opt_str, resolved_path};
use crate::links::spec_local_target;
use crate::text::{is_ws, trim, trim_end, trim_start};
use crate::encoding::{
    char_of_position, line_count, line_start_char, position_to_char, range_from_bytes, Position,
    PositionEncoding, Range,
};
use crate::offsets::utf8_len;
use crate::rope::{rope_char_to_byte, rope_len_lines, rope_line_to_byte, rope_text};
use ropey::Rope;

verus! {

/// The byte offset of the character at editor position `pos` (see
/// [`char_of_position`]).
pub fn cursor_byte(rope: &Rope, pos: Position, enc: PositionEncoding) -> (r: usize)
    ensures
        r == utf8_len(
            rope_text(*rope).take(
                char_of_position(rope_text(*rope), pos.line as nat, pos.character as nat, enc),
            ),
        ),
{
    let c = position_to_char(rope, pos, enc);
    proof {
        crate::encoding::lemma_char_of_position_in_text(
            rope_text(*rope),
            pos.line as nat,
            pos.character as nat,
            enc,
        );
    }
    rope_char_to_byte(rope, c)
}

/// A zero-width range at the start of `line`, or of the last line when
/// there are fewer lines.
pub fn line_range(rope: &Rope, line: usize, enc: PositionEncoding) -> (r: Range)
    ensures
        ({
            let last = (line_count(rope_text(*rope)) - 1) as nat;
            let l = if line < last {
                line as nat
            } else {
                last
            };
            &&& r.start == Position { line: l as u32, character: 0 }
            &&& r.end == r.start
        }),
{
    let n = rope_len_lines(rope);
    let last = n - 1;
    let l = if line < last {
        line
    } else {
        last
    };
    let byte = rope_line_to_byte(rope, l);
    proof {
        crate::encoding::lemma_line_start_position(rope_text(*rope), l as nat, enc);
    }
    range_from_bytes(rope, byte, byte, enc)
}

/// `byte` lies in `[start, end)`.
pub open spec fn spec_within(byte: usize, start: usize, end: usize) -> bool {
    byte >= start && byte < end
}

/// Whether `byte` lies in `[start, end)`.
pub fn within(byte: usize, start: usize, end: usize) -> (r: bool)
    ensures
        r == spec_within(byte, start, end),
{
    byte >= start && byte < end
}

/// Whether `c` is alphabetic or numeric, as `char::is_alphanumeric` decides.
pub uninterp spec fn alphanumeric(c: char) -> bool;

/// The lowercase mapping of `c`, as `char::to_lowercase` yields it.
pub uninterp spec fn char_lowercase(c: char) -> Seq<char>;

/// `char::is_alphanumeric`. Claimed: the answer is [`alphanumeric`] of `c`.
#[verifier::external_body]
pub(crate) fn is_alphanumeric(c: char) -> (r: bool)
    ensures
        r == alphanumeric(c),
{
    c.is_alphanumeric()
}

/// `char::to_lowercase`, collected. Claimed: the characters are
/// [`char_lowercase`] of `c`.
#[verifier::external_body]
fn lower_of(c: char) -> (r: Vec<char>)
    ensures
        r@ == char_lowercase(c),
{
    c.to_lowercase().collect()
}

/// The slug built from the first `n` characters of `t`, and whether it ends
/// with a dash that was just added.
pub open spec fn slug_prefix(t: Seq<char>, n: int) -> (Seq<char>, bool)
    decreases n,
{
    if n <= 0 {
        (Seq::empty(), false)
    } else {
        let (out, dash) = slug_prefix(t, n - 1);
        let c = t[n - 1];
        if alphanumeric(c) {
            (out + char_lowercase(c), false)
        } else if c == '_' {
            (out.push('_'), false)
        } else if (is_ws(c) || c == '-') && !dash && out.len() > 0 {
            (out.push('-'), true)
        } else {
            (out, dash)
        }
    }
}

/// `s` without its trailing dashes.
pub open spec fn trim_dashes(s: Seq<char>) -> Seq<char>
    decreases s.len(),
{
    if s.len() > 0 && s.last() == '-' {
        trim_dashes(s.drop_last())
    } else {
        s
    }
}

/// The GitHub-style slug of a heading text: the trimmed text with letters and
/// digits lowercased, underscores kept, each run of spaces and dashes after
/// some output turned into one dash, everything else dropped, and no
/// trailing dash.
pub open spec fn spec_slug(text: Seq<char>) -> Seq<char> {
    let t = trim(text);
    trim_dashes(slug_prefix(t, t.len() as int).0)
}

/// The slug of `text` (see [`spec_slug`]).
pub fn slug(text: &str) -> (r: String)
    ensures
        r@ == spec_slug(text@),
{
    let all = crate::text::chars_of(text);
    let t = crate::text::trim_vec(all.as_slice());
    let mut out: Vec<char> = Vec::new();
    let mut dash = false;
    let mut i: usize = 0;
    while i < t.len()
        invariant
            i <= t@.len(),
            t@ == trim(text@),
            (out@, dash) == slug_prefix(t@, i as int),
        decreases t@.len() - i,
    {
        let c = t[i];
        if is_alphanumeric(c) {
            let l = lower_of(c);
            crate::text::extend(&mut out, l.as_slice());
            dash = false;
        } else if c == '_' {
            out.push('_');
            dash = false;
        } else if (crate::text::is_whitespace(c) || c == '-') && !dash && out.len() > 0 {
            out.push('-');
            dash = true;
        }
        i += 1;
    }
    let mut n = out.len();
    assert(out@.take(n as int) =~= out@);
    while n > 0 && out[n - 1] == '-'
        invariant
            n <= out@.len(),
            trim_dashes(out@.take(n as int)) == trim_dashes(out@),
        decreases n,
    {
        assert(out@.take(n as int).drop_last() =~= out@.take(n - 1));
        n -= 1;
    }
    crate::text::string_of(crate::text::slice_chars(out.as_slice(), 0, n).as_slice())
}

/// `t` with each space turned into a dash and every other character into its
/// lowercase mapping.
pub open spec fn lowered_with_dashes(t: Seq<char>) -> Seq<char>
    decreases t.len(),
{
    if t.len() == 0 {
        Seq::empty()
    } else {
        let c = t.last();
        lowered_with_dashes(t.drop_last()) + (if c == ' ' {
            seq!['-']
        } else {
            char_lowercase(c)
        })
    }
}

proof fn lemma_slug_prefix_words(t: Seq<char>, n: int)
    requires
        0 <= n <= t.len(),
        !alphanumeric(' '),
        forall|k: int|
            0 <= k < t.len() ==> (t[k] == ' ' || (alphanumeric(t[k]) && char_lowercase(
                t[k],
            ).len() > 0)),
        forall|k: int| 0 <= k < t.len() - 1 ==> !(#[trigger] t[k] == ' ' && t[k + 1] == ' '),
        t.len() > 0 ==> t[0] != ' ',
    ensures
        slug_prefix(t, n) == (lowered_with_dashes(t.take(n)), n > 0 && t[n - 1] == ' '),
    decreases n,
{
    if n > 0 {
        lemma_slug_prefix_words(t, n - 1);
        assert(t.take(n).drop_last() =~= t.take(n - 1));
        assert(t.take(n).last() == t[n - 1]);
        if n > 1 {
            assert(t.take(n - 1).drop_last() =~= t.take(n - 2));
            assert(t.take(n - 1).last() == t[n - 2]);
        }
    }
}

/// Letters and digits alike are kept: the slug of a text made of
/// alphanumeric characters and single spaces, starting and ending with an
/// alphanumeric one, is the text lowercased with each space turned into a
/// dash (where, as `char::to_lowercase` gives them, the lowercase mappings
/// are not empty and hold no dash).
pub proof fn lemma_slug_of_words(text: Seq<char>)
    requires
        !alphanumeric(' '),
        forall|k: int|
            0 <= k < text.len() ==> (text[k] == ' ' || (alphanumeric(text[k]) && char_lowercase(
                text[k],
            ).len() > 0 && !char_lowercase(text[k]).contains('-'))),
        forall|k: int| 0 <= k < text.len() - 1 ==> !(#[trigger] text[k] == ' ' && text[k + 1] == ' '),
        text.len() > 0 ==> !is_ws(text[0]) && !is_ws(text.last()),
    ensures
        spec_slug(text) == lowered_with_dashes(text),
{
    if text.len() > 0 {
        assert(trim_start(text) == text);
        assert(trim_end(text) == text);
    }
    assert(trim(text) == text);
    lemma_slug_prefix_words(text, text.len() as int);
    assert(text.take(text.len() as int) =~= text);
    let l = lowered_with_dashes(text);
    if text.len() > 0 {
        assert(text.drop_last().len() < text.len());
        let lc = char_lowercase(text.last());
        assert(l == lowered_with_dashes(text.drop_last()) + lc);
        assert(l.last() == lc.last());
        assert(lc.contains(lc.last()));
    }
}

/// `s` with its dashes removed.
pub open spec fn without_dashes(s: Seq<char>) -> Seq<char>
    decreases s.len(),
{
    if s.len() == 0 {
        Seq::empty()
    } else if s.last() == '-' {
        without_dashes(s.drop_last())
    } else {
        without_dashes(s.drop_last()).push(s.last())
    }
}

/// The alphanumeric characters of `t`, each lowercased, and its underscores,
/// in their order.
pub open spec fn slug_letters(t: Seq<char>) -> Seq<char>
    decreases t.len(),
{
    if t.len() == 0 {
        Seq::empty()
    } else {
        let c = t.last();
        slug_letters(t.drop_last()) + (if alphanumeric(c) {
            char_lowercase(c)
        } else if c == '_' {
            seq!['_']
        } else {
            Seq::empty()
        })
    }
}

proof fn lemma_without_dashes_append(a: Seq<char>, b: Seq<char>)
    ensures
        without_dashes(a + b) == without_dashes(a) + without_dashes(b),
    decreases b.len(),
{
    if b.len() == 0 {
        assert(a + b =~= a);
        assert(without_dashes(a) + without_dashes(b) =~= without_dashes(a));
    } else {
        assert((a + b).drop_last() =~= a + b.drop_last());
        assert((a + b).last() == b.last());
        lemma_without_dashes_append(a, b.drop_last());
        if b.last() != '-' {
            assert(without_dashes(a) + without_dashes(b.drop_last()).push(b.last()) =~= (
            without_dashes(a) + without_dashes(b.drop_last())).push(b.last()));
        }
    }
}

proof fn lemma_without_dashes_none(s: Seq<char>)
    requires
        !s.contains('-'),
    ensures
        without_dashes(s) == s,
    decreases s.len(),
{
    if s.len() > 0 {
        assert(s.last() == s[s.len() - 1]);
        assert(!s.drop_last().contains('-')) by {
            if s.drop_last().contains('-') {
                let k = choose|k: int| 0 <= k < s.drop_last().len() && s.drop_last()[k] == '-';
                assert(s[k] == '-');
            }
        }
        lemma_without_dashes_none(s.drop_last());
        assert(s.drop_last().push(s.last()) =~= s);
    }
}

proof fn lemma_without_dashes_trim(s: Seq<char>)
    ensures
        without_dashes(trim_dashes(s)) == without_dashes(s),
    decreases s.len(),
{
    if s.len() > 0 && s.last() == '-' {
        lemma_without_dashes_trim(s.drop_last());
    }
}

proof fn lemma_slug_prefix_letters(t: Seq<char>, n: int)
    requires
        0 <= n <= t.len(),
        forall|k: int| 0 <= k < t.len() && alphanumeric(#[trigger] t[k]) ==> !char_lowercase(t[k]).contains('-'),
    ensures
        without_dashes(slug_prefix(t, n).0) == slug_letters(t.take(n)),
    decreases n,
{
    if n > 0 {
        lemma_slug_prefix_letters(t, n - 1);
        assert(t.take(n).drop_last() =~= t.take(n - 1));
        assert(t.take(n).last() == t[n - 1]);
        let out = slug_prefix(t, n - 1).0;
        let c = t[n - 1];
        if alphanumeric(c) {
            lemma_without_dashes_append(out, char_lowercase(c));
            lemma_without_dashes_none(char_lowercase(c));
        } else if c == '_' {
            assert(out.push('_').drop_last() =~= out);
            assert(without_dashes(out).push('_') =~= without_dashes(out) + seq!['_']);
        } else {
            assert(out.push('-').drop_last() =~= out);
            assert(without_dashes(out) + Seq::<char>::empty() =~= without_dashes(out));
        }
    }
}

/// Apart from its dashes, a slug is exactly the alphanumeric characters of
/// the trimmed text (digits included), each lowercased, and its
/// underscores, in their order (where the lowercase mappings, as
/// `char::to_lowercase` gives them, hold no dash).
pub proof fn lemma_slug_keeps_letters(text: Seq<char>)
    requires
        forall|k: int|
            0 <= k < trim(text).len() && alphanumeric(#[trigger] trim(text)[k])
                ==> !char_lowercase(trim(text)[k]).contains('-'),
    ensures
        without_dashes(spec_slug(text)) == slug_letters(trim(text)),
{
    let t = trim(text);
    lemma_slug_prefix_letters(t, t.len() as int);
    assert(t.take(t.len() as int) =~= t);
    lemma_without_dashes_trim(slug_prefix(t, t.len() as int).0);
}

/// The first of the headings from `k` on whose slug is `wanted`.
pub open spec fn heading_from(hs: Seq<HeadingV>, wanted: Seq<char>, k: int) -> Option<usize>
    decreases hs.len() - k,
{
    if k < 0 || k >= hs.len() {
        None
    } else if spec_slug(hs[k].text) == wanted {
        Some(hs[k].start_line)
    } else {
        heading_from(hs, wanted, k + 1)
    }
}

/// The line of the first heading whose slug is that of `anchor`.
pub open spec fn spec_heading_line(hs: Seq<HeadingV>, anchor: Seq<char>) -> Option<usize> {
    heading_from(hs, spec_slug(anchor), 0)
}

/// The (zero-based) line of the heading `anchor` names (see
/// [`spec_heading_line`]).
pub fn heading_line(analysis: &Analysis, anchor: &str) -> (r: Option<usize>)
    ensures
        r == spec_heading_line(headings_view(analysis.headings@), anchor@),
{
    let ghost hv = headings_view(analysis.headings@);
    let wanted = slug(anchor);
    let wc = crate::text::chars_of(wanted.as_str());
    let mut k: usize = 0;
    while k < analysis.headings.len()
        invariant
            k <= analysis.headings@.len(),
            hv == headings_view(analysis.headings@),
            wc@ == spec_slug(anchor@),
            heading_from(hv, wc@, k as int) == heading_from(hv, wc@, 0),
        decreases analysis.headings@.len() - k,
    {
        let h = &analysis.headings[k];
        let s = slug(h.text.as_str());
        let sc = crate::text::chars_of(s.as_str());
        if crate::text::eq_chars(sc.as_slice(), wc.as_slice()) {
            return Some(h.start_line);
        }
        k += 1;
    }
    None
}

/// Where the local destination of `url` resolves: from the workspace root
/// for `/…`, else from the document's directory; `None` for external and
/// anchor destinations or when that base is unknown.
pub open spec fn spec_resolve_path(
    url: Seq<char>,
    doc_dir: Option<Seq<char>>,
    root: Option<Seq<char>>,
) -> Option<Seq<char>> {
    match spec_local_target(url) {
        None => None,
        Some(local) => match (if local.len() > 0 && local[0] == '/' {
            root
        } else {
            doc_dir
        }) {
            None => None,
            Some(b) => Some(resolved_path(b, local)),
        },
    }
}

/// The path the destination `url` resolves to (see [`spec_resolve_path`]).
pub fn resolve_path(url: &str, doc_dir: Option<&str>, root: Option<&str>) -> (r: Option<String>)
    ensures
        crate::links::opt_chars(r) == spec_resolve_path(url@, opt_str(doc_dir), opt_str(root)),
{
    let local = match crate::links::local_target(url) {
        Some(l) => l,
        None => {
            return None;
        },
    };
    let lc = crate::text::chars_of(local.as_str());
    let base = if lc.len() > 0 && lc[0] == '/' {
        root
    } else {
        doc_dir
    };
    match base {
        None => None,
        Some(b) => {
            let rel = crate::features::diagnostics::strip_slashes(lc.as_slice());
            let joined = crate::features::diagnostics::join_to(b, rel.as_slice());
            let js = crate::text::string_of(joined.as_slice());
            Some(crate::uri::normalize(js.as_str()))
        },
    }
}

/// Where a go-to-definition leads.
pub enum Jump {
    /// A byte span of this document.
    Span { start: usize, end: usize },
    /// A (zero-based) line of this document.
    Line(usize),
    /// A file, and the heading fragment to look for in it (empty for none).
    File { path: String, fragment: String },
}

pub enum JumpV {
    Span { start: usize, end: usize },
    Line(usize),
    File { path: Seq<char>, fragment: Seq<char> },
}

impl View for Jump {
    type V = JumpV;

    open spec fn view(&self) -> JumpV {
        match self {
            Jump::Span { start, end } => JumpV::Span { start: *start, end: *end },
            Jump::Line(l) => JumpV::Line(*l),
            Jump::File { path, fragment } => JumpV::File { path: path@, fragment: fragment@ },
        }
    }
}

/// The first reference usage from `k` on containing `byte`.
pub open spec fn ref_at(a: AnalysisV, byte: usize, k: int) -> Option<int>
    decreases a.references.len() - k,
{
    if k < 0 || k >= a.references.len() {
        None
    } else if spec_within(byte, a.references[k].start_byte, a.references[k].end_byte) {
        Some(k)
    } else {
        ref_at(a, byte, k + 1)
    }
}

/// The first definition from `k` on with identifier `id`.
pub open spec fn def_named(a: AnalysisV, id: Seq<char>, k: int) -> Option<int>
    decreases a.definitions.len() - k,
{
    if k < 0 || k >= a.definitions.len() {
        None
    } else if a.definitions[k].identifier == id {
        Some(k)
    } else {
        def_named(a, id, k + 1)
    }
}

/// The first definition from `k` on whose node contains `byte`.
pub open spec fn def_at(a: AnalysisV, byte: usize, k: int) -> Option<int>
    decreases a.definitions.len() - k,
{
    if k < 0 || k >= a.definitions.len() {
        None
    } else if spec_within(byte, a.definitions[k].start_byte, a.definitions[k].end_byte) {
        Some(k)
    } else {
        def_at(a, byte, k + 1)
    }
}

/// The first destination from `k` on whose node contains `byte`.
pub open spec fn target_at(a: AnalysisV, byte: usize, k: int) -> Option<int>
    decreases a.link_targets.len() - k,
{
    if k < 0 || k >= a.link_targets.len() {
        None
    } else if spec_within(byte, a.link_targets[k].node_start, a.link_targets[k].node_end) {
        Some(k)
    } else {
        target_at(a, byte, k + 1)
    }
}

/// `s` after its first `#`, or empty.
pub open spec fn fragment_of(s: Seq<char>) -> Seq<char>
    decreases s.len(),
{
    if s.len() == 0 {
        Seq::empty()
    } else if s[0] == '#' {
        s.drop_first()
    } else {
        fragment_of(s.drop_first())
    }
}

/// Where the destination `url` leads: an anchor (`#…`) to its heading here, a
/// local path to that file and its fragment.
pub open spec fn url_jump(
    a: AnalysisV,
    url: Seq<char>,
    doc_dir: Option<Seq<char>>,
    root: Option<Seq<char>>,
) -> Option<JumpV> {
    let u = trim(url);
    if u.len() > 0 && u[0] == '#' {
        match spec_heading_line(a.headings, u.drop_first()) {
            Some(l) => Some(JumpV::Line(l)),
            None => None,
        }
    } else {
        match spec_resolve_path(u, doc_dir, root) {
            Some(p) => Some(JumpV::File { path: p, fragment: fragment_of(u) }),
            None => None,
        }
    }
}

/// Where go-to-definition at `byte` leads: from a reference usage to the
/// first definition of its identifier (nowhere without one); else from the
/// first destination under the cursor to its target.
pub open spec fn jump_of(
    a: AnalysisV,
    byte: usize,
    doc_dir: Option<Seq<char>>,
    root: Option<Seq<char>>,
) -> Option<JumpV> {
    match ref_at(a, byte, 0) {
        Some(r) => match def_named(a, a.references[r].identifier, 0) {
            Some(d) => Some(
                JumpV::Span { start: a.definitions[d].start_byte, end: a.definitions[d].end_byte },
            ),
            None => None,
        },
        None => match target_at(a, byte, 0) {
            Some(t) => url_jump(a, a.link_targets[t].url, doc_dir, root),
            None => None,
        },
    }
}

/// The first reference usage containing `byte` (see [`ref_at`]).
fn find_ref(a: &Analysis, byte: usize) -> (r: Option<usize>)
    ensures
        match r {
            Some(k) => ref_at(a@, byte, 0) == Some(k as int) && k < a.references@.len(),
            None => ref_at(a@, byte, 0) is None,
        },
{
    let mut k: usize = 0;
    while k < a.references.len()
        invariant
            k <= a.references@.len(),
            ref_at(a@, byte, k as int) == ref_at(a@, byte, 0),
        decreases a.references@.len() - k,
    {
        assert(a@.references[k as int] == a.references@[k as int]@);
        if within(byte, a.references[k].start_byte, a.references[k].end_byte) {
            return Some(k);
        }
        k += 1;
    }
    None
}

/// The first definition named `id` (see [`def_named`]).
fn find_def_named(a: &Analysis, id: &String) -> (r: Option<usize>)
    ensures
        match r {
            Some(k) => def_named(a@, id@, 0) == Some(k as int) && k < a.definitions@.len(),
            None => def_named(a@, id@, 0) is None,
        },
{
    let idc = crate::text::chars_of(id.as_str());
    let mut k: usize = 0;
    while k < a.definitions.len()
        invariant
            k <= a.definitions@.len(),
            idc@ == id@,
            def_named(a@, id@, k as int) == def_named(a@, id@, 0),
        decreases a.definitions@.len() - k,
    {
        assert(a@.definitions[k as int] == a.definitions@[k as int]@);
        let dc = crate::text::chars_of(a.definitions[k].identifier.as_str());
        if crate::text::eq_chars(dc.as_slice(), idc.as_slice()) {
            return Some(k);
        }
        k += 1;
    }
    None
}

/// The first definition containing `byte` (see [`def_at`]).
fn find_def_at(a: &Analysis, byte: usize) -> (r: Option<usize>)
    ensures
        match r {
            Some(k) => def_at(a@, byte, 0) == Some(k as int) && k < a.definitions@.len(),
            None => def_at(a@, byte, 0) is None,
        },
{
    let mut k: usize = 0;
    while k < a.definitions.len()
        invariant
            k <= a.definitions@.len(),
            def_at(a@, byte, k as int) == def_at(a@, byte, 0),
        decreases a.definitions@.len() - k,
    {
        assert(a@.definitions[k as int] == a.definitions@[k as int]@);
        if within(byte, a.definitions[k].start_byte, a.definitions[k].end_byte) {
            return Some(k);
        }
        k += 1;
    }
    None
}

/// The first destination containing `byte` (see [`target_at`]).
fn find_target(a: &Analysis, byte: usize) -> (r: Option<usize>)
    ensures
        match r {
            Some(k) => target_at(a@, byte, 0) == Some(k as int) && k < a.link_targets@.len(),
            None => target_at(a@, byte, 0) is None,
        },
{
    let mut k: usize = 0;
    while k < a.link_targets.len()
        invariant
            k <= a.link_targets@.len(),
            target_at(a@, byte, k as int) == target_at(a@, byte, 0),
        decreases a.link_targets@.len() - k,
    {
        assert(a@.link_targets[k as int] == a.link_targets@[k as int]@);
        if within(byte, a.link_targets[k].node_start, a.link_targets[k].node_end) {
            return Some(k);
        }
        k += 1;
    }
    None
}

/// Where the destination `url` leads (see [`url_jump`]).
fn jump_for_url(a: &Analysis, url: &str, doc_dir: Option<&str>, root: Option<&str>) -> (r: Option<
    Jump,
>)
    ensures
        match url_jump(a@, url@, opt_str(doc_dir), opt_str(root)) {
            Some(j) => r matches Some(x) && x@ == j,
            None => r is None,
        },
{
    let all = crate::text::chars_of(url);
    let u = crate::text::trim_vec(all.as_slice());
    if u.len() > 0 && u[0] == '#' {
        let rest = crate::text::slice_chars(u.as_slice(), 1, u.len());
        assert(rest@ =~= u@.drop_first());
        let anchor = crate::text::string_of(rest.as_slice());
        return match heading_line(a, anchor.as_str()) {
            Some(l) => Some(Jump::Line(l)),
            None => None,
        };
    }
    let us = crate::text::string_of(u.as_slice());
    match resolve_path(us.as_str(), doc_dir, root) {
        Some(path) => {
            let mut i: usize = 0;
            assert(u@.skip(0) =~= u@);
            while i < u.len() && u[i] != '#'
                invariant
                    i <= u@.len(),
                    fragment_of(u@.skip(i as int)) == fragment_of(u@),
                decreases u@.len() - i,
            {
                assert(u@.skip(i as int).drop_first() =~= u@.skip(i + 1));
                i += 1;
            }
            let frag = if i < u.len() {
                assert(u@.skip(i as int).drop_first() =~= u@.subrange(i + 1, u@.len() as int));
                crate::text::slice_chars(u.as_slice(), i + 1, u.len())
            } else {
                Vec::new()
            };
            proof {
                if i >= u@.len() {
                    assert(frag@ =~= Seq::<char>::empty());
                }
            }
            Some(Jump::File { path, fragment: crate::text::string_of(frag.as_slice()) })
        },
        None => None,
    }
}

/// Where go-to-definition at byte `byte` leads (see [`jump_of`]).
/// `doc_dir` is the document's directory and `root` the workspace root,
/// when known.
pub fn definition_jump(a: &Analysis, byte: usize, doc_dir: Option<&str>, root: Option<&str>) -> (r:
    Option<Jump>)
    ensures
        match jump_of(a@, byte, opt_str(doc_dir), opt_str(root)) {
            Some(j) => r matches Some(x) && x@ == j,
            None => r is None,
        },
{
    match find_ref(a, byte) {
        Some(k) => {
            assert(a@.references[k as int] == a.references@[k as int]@);
            match find_def_named(a, &a.references[k].identifier) {
                Some(d) => {
                    assert(a@.definitions[d as int] == a.definitions@[d as int]@);
                    Some(
                        Jump::Span {
                            start: a.definitions[d].start_byte,
                            end: a.definitions[d].end_byte,
                        },
                    )
                },
                None => None,
            }
        },
        None => match find_target(a, byte) {
            Some(t) => {
                assert(a@.link_targets[t as int] == a.link_targets@[t as int]@);
                jump_for_url(a, a.link_targets[t].url.as_str(), doc_dir, root)
            },
            None => None,
        },
    }
}

/// The spans of the first `n` usages named `id`.
pub open spec fn usages_named(a: AnalysisV, id: Seq<char>, n: int) -> Seq<(usize, usize)>
    decreases n,
{
    if n <= 0 {
        Seq::empty()
    } else {
        let r = a.references[n - 1];
        usages_named(a, id, n - 1) + if r.identifier == id {
            seq![(r.start_byte, r.end_byte)]
        } else {
            Seq::empty()
        }
    }
}

/// The spans of the first `n` definitions named `id`.
pub open spec fn definitions_named(a: AnalysisV, id: Seq<char>, n: int) -> Seq<(usize, usize)>
    decreases n,
{
    if n <= 0 {
        Seq::empty()
    } else {
        let d = a.definitions[n - 1];
        definitions_named(a, id, n - 1) + if d.identifier == id {
            seq![(d.start_byte, d.end_byte)]
        } else {
            Seq::empty()
        }
    }
}

/// Every usage of `id`, then (when asked) its definitions.
pub open spec fn identifier_spans(a: AnalysisV, id: Seq<char>, with_decl: bool) -> Seq<
    (usize, usize),
> {
    usages_named(a, id, a.references.len() as int) + if with_decl {
        definitions_named(a, id, a.definitions.len() as int)
    } else {
        Seq::empty()
    }
}

/// The destination spans among the first `n` that resolve to `wanted`.
pub open spec fn same_file_upto(
    a: AnalysisV,
    wanted: Seq<char>,
    doc_dir: Option<Seq<char>>,
    root: Option<Seq<char>>,
    n: int,
) -> Seq<(usize, usize)>
    decreases n,
{
    if n <= 0 {
        Seq::empty()
    } else {
        let t = a.link_targets[n - 1];
        same_file_upto(a, wanted, doc_dir, root, n - 1) + if spec_resolve_path(
            t.url,
            doc_dir,
            root,
        ) == Some(wanted) {
            seq![(t.start_byte, t.end_byte)]
        } else {
            Seq::empty()
        }
    }
}

/// The destinations of the document that resolve to the same file as `url`
/// (`None` when `url` is not local or none does).
pub open spec fn file_spans(
    a: AnalysisV,
    url: Seq<char>,
    doc_dir: Option<Seq<char>>,
    root: Option<Seq<char>>,
) -> Option<Seq<(usize, usize)>> {
    match spec_resolve_path(url, doc_dir, root) {
        None => None,
        Some(w) => {
            let s = same_file_upto(a, w, doc_dir, root, a.link_targets.len() as int);
            if s.len() == 0 {
                None
            } else {
                Some(s)
            }
        },
    }
}

/// The references of what lies at `byte`: for a usage, its identifier's
/// usages (and definitions when `with_decl`); for a definition, the same
/// file's destinations when on its URL and there are any, else its
/// identifier's; for another destination, the same file's destinations.
pub open spec fn references_of(
    a: AnalysisV,
    byte: usize,
    with_decl: bool,
    doc_dir: Option<Seq<char>>,
    root: Option<Seq<char>>,
) -> Option<Seq<(usize, usize)>> {
    match ref_at(a, byte, 0) {
        Some(r) => Some(identifier_spans(a, a.references[r].identifier, with_decl)),
        None => match def_at(a, byte, 0) {
            Some(d) => {
                let def = a.definitions[d];
                let files = if spec_within(byte, def.url_start, def.url_end) {
                    file_spans(a, def.url, doc_dir, root)
                } else {
                    None
                };
                match files {
                    Some(s) => Some(s),
                    None => Some(identifier_spans(a, def.identifier, with_decl)),
                }
            },
            None => match target_at(a, byte, 0) {
                Some(t) => file_spans(a, a.link_targets[t].url, doc_dir, root),
                None => None,
            },
        },
    }
}

/// Every usage of `id`, then (when asked) its definitions (see
/// [`identifier_spans`]).
fn spans_named(a: &Analysis, id: &String, with_decl: bool) -> (r: Vec<(usize, usize)>)
    ensures
        r@ == identifier_spans(a@, id@, with_decl),
{
    let idc = crate::text::chars_of(id.as_str());
    let mut out: Vec<(usize, usize)> = Vec::new();
    let mut k: usize = 0;
    while k < a.references.len()
        invariant
            k <= a.references@.len(),
            idc@ == id@,
            out@ == usages_named(a@, id@, k as int),
        decreases a.references@.len() - k,
    {
        assert(a@.references[k as int] == a.references@[k as int]@);
        let rc = crate::text::chars_of(a.references[k].identifier.as_str());
        if crate::text::eq_chars(rc.as_slice(), idc.as_slice()) {
            out.push((a.references[k].start_byte, a.references[k].end_byte));
        }
        k += 1;
        assert(out@ =~= usages_named(a@, id@, k as int));
    }
    let ghost usages = out@;
    if with_decl {
        let mut d: usize = 0;
        assert(out@ =~= usages + definitions_named(a@, id@, 0));
        while d < a.definitions.len()
            invariant
                d <= a.definitions@.len(),
                idc@ == id@,
                out@ == usages + definitions_named(a@, id@, d as int),
            decreases a.definitions@.len() - d,
        {
            assert(a@.definitions[d as int] == a.definitions@[d as int]@);
            let dc = crate::text::chars_of(a.definitions[d].identifier.as_str());
            if crate::text::eq_chars(dc.as_slice(), idc.as_slice()) {
                out.push((a.definitions[d].start_byte, a.definitions[d].end_byte));
            }
            d += 1;
            assert(out@ =~= usages + definitions_named(a@, id@, d as int));
        }
    } else {
        assert(out@ =~= usages + Seq::<(usize, usize)>::empty());
    }
    out
}

/// The destinations resolving to the same file as `url` (see
/// [`file_spans`]).
fn spans_of_file(a: &Analysis, url: &str, doc_dir: Option<&str>, root: Option<&str>) -> (r: Option<
    Vec<(usize, usize)>,
>)
    ensures
        match file_spans(a@, url@, opt_str(doc_dir), opt_str(root)) {
            Some(s) => r matches Some(x) && x@ == s,
            None => r is None,
        },
{
    let wanted = match resolve_path(url, doc_dir, root) {
        Some(w) => w,
        None => {
            return None;
        },
    };
    let wc = crate::text::chars_of(wanted.as_str());
    let mut out: Vec<(usize, usize)> = Vec::new();
    let mut k: usize = 0;
    while k < a.link_targets.len()
        invariant
            k <= a.link_targets@.len(),
            wc@ == wanted@,
            out@ == same_file_upto(a@, wanted@, opt_str(doc_dir), opt_str(root), k as int),
        decreases a.link_targets@.len() - k,
    {
        assert(a@.link_targets[k as int] == a.link_targets@[k as int]@);
        let t = &a.link_targets[k];
        match resolve_path(t.url.as_str(), doc_dir, root) {
            Some(p) => {
                let pc = crate::text::chars_of(p.as_str());
                if crate::text::eq_chars(pc.as_slice(), wc.as_slice()) {
                    out.push((t.start_byte, t.end_byte));
                }
            },
            None => {},
        }
        k += 1;
        assert(out@ =~= same_file_upto(a@, wanted@, opt_str(doc_dir), opt_str(root), k as int));
    }
    if out.len() == 0 {
        None
    } else {
        Some(out)
    }
}

/// The byte spans of the references of what lies at `byte` (see
/// [`references_of`]).
pub fn reference_spans(
    a: &Analysis,
    byte: usize,
    with_decl: bool,
    doc_dir: Option<&str>,
    root: Option<&str>,
) -> (r: Option<Vec<(usize, usize)>>)
    ensures
        match references_of(a@, byte, with_decl, opt_str(doc_dir), opt_str(root)) {
            Some(s) => r matches Some(x) && x@ == s,
            None => r is None,
        },
{
    match find_ref(a, byte) {
        Some(k) => {
            assert(a@.references[k as int] == a.references@[k as int]@);
            Some(spans_named(a, &a.references[k].identifier, with_decl))
        },
        None => match find_def_at(a, byte) {
            Some(d) => {
                assert(a@.definitions[d as int] == a.definitions@[d as int]@);
                let def = &a.definitions[d];
                if within(byte, def.url_start, def.url_end) {
                    match spans_of_file(a, def.url.as_str(), doc_dir, root) {
                        Some(s) => {
                            return Some(s);
                        },
                        None => {},
                    }
                }
                Some(spans_named(a, &def.identifier, with_decl))
            },
            None => match find_target(a, byte) {
                Some(t) => {
                    assert(a@.link_targets[t as int] == a.link_targets@[t as int]@);
                    spans_of_file(a, a.link_targets[t].url.as_str(), doc_dir, root)
                },
                None => None,
            },
        },
    }
}

} // verus!
