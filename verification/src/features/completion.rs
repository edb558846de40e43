//! Path completion inside link and image destinations: recognising that the
//! cursor is in a destination, presenting workspace entries as destinations
//! (relative, or absolute from the workspace root), and ranking them. Walking
//! the workspace is left to the caller, which hands over the entries found.

use vstd::prelude::*;
use crate::config::CompletionConfig;
use ropey::Rope;
use crate::encoding::{char_of_position, char_to_position, line_before, line_prefix, position_of_char, position_to_char, Position, PositionEncoding};
use crate::rope::rope_text;
use crate::links::spec_has_scheme;
use crate::text::{ends_with, is_ws, join, lowercase, seq_less, split_on, starts_with};

verus! {

broadcast use crate::lemmas::lemma_char_vec_deep_view;

/// How the user anchored the destination being typed.
#[derive(Debug, Clone, Copy, PartialEq, Eq, Structural)]
pub enum Mode {
    /// No `./` or `/` prefix: relative below the document, absolute above.
    Bare,
    /// Explicit `./`, `../`, `.` or `..`: everything relative.
    Relative,
    /// Explicit `/`: everything absolute (from the workspace root).
    Absolute,
}

/// The destination being typed: how it is anchored, and the text so far.
pub struct PathContext {
    pub mode: Mode,
    pub query: String,
}

/// The position of the last `](` in `s`.
pub open spec fn last_open(s: Seq<char>, k: int) -> Option<int>
    decreases k + 1,
{
    if k < 0 {
        None
    } else if k + 1 < s.len() && s[k] == ']' && s[k + 1] == '(' {
        Some(k)
    } else {
        last_open(s, k - 1)
    }
}

/// `s` contains `c`.
pub open spec fn has_char(s: Seq<char>, c: char) -> bool {
    exists|i: int| 0 <= i < s.len() && s[i] == c
}

/// `s` contains whitespace.
pub open spec fn has_ws(s: Seq<char>) -> bool {
    exists|i: int| 0 <= i < s.len() && is_ws(s[i])
}

/// `://` starts at position `i` of `s`.
pub open spec fn sep_at(s: Seq<char>, i: int) -> bool {
    0 <= i && i + 2 < s.len() && s[i] == ':' && s[i + 1] == '/' && s[i + 2] == '/'
}

/// `s` contains `://`.
pub open spec fn has_scheme_sep(s: Seq<char>) -> bool {
    exists|i: int| #[trigger] sep_at(s, i)
}

/// The destination context of the line text before the cursor `before`: the
/// text after the last `](` (without a leading `<`), when it holds no `)` or
/// whitespace and is not an anchor or an external URL; its mode from its
/// prefix.
pub open spec fn context_of(before: Seq<char>) -> Option<(Mode, Seq<char>)> {
    match last_open(before, before.len() - 2) {
        None => None,
        Some(o) => {
            let p0 = before.subrange(o + 2, before.len() as int);
            if has_char(p0, ')') || has_ws(p0) {
                None
            } else {
                let p = if p0.len() > 0 && p0[0] == '<' {
                    p0.drop_first()
                } else {
                    p0
                };
                if (p.len() > 0 && p[0] == '#') || has_scheme_sep(p) || spec_has_scheme(p) {
                    None
                } else {
                    let mode = if p.len() > 0 && p[0] == '/' {
                        Mode::Absolute
                    } else if starts_with(p, "./"@) || starts_with(p, "../"@) || p == "."@ || p
                        == ".."@ {
                        Mode::Relative
                    } else {
                        Mode::Bare
                    };
                    Some((mode, p))
                }
            }
        },
    }
}

/// Whether `c` occurs in `s`.
fn contains_char(s: &[char], c: char) -> (r: bool)
    ensures
        r == has_char(s@, c),
{
    let mut i: usize = 0;
    while i < s.len()
        invariant
            i <= s@.len(),
            forall|j: int| 0 <= j < i ==> s@[j] != c,
        decreases s@.len() - i,
    {
        if s[i] == c {
            return true;
        }
        i += 1;
    }
    false
}

/// Whether `s` holds whitespace.
fn contains_ws(s: &[char]) -> (r: bool)
    ensures
        r == has_ws(s@),
{
    let mut i: usize = 0;
    while i < s.len()
        invariant
            i <= s@.len(),
            forall|j: int| 0 <= j < i ==> !is_ws(s@[j]),
        decreases s@.len() - i,
    {
        if crate::text::is_whitespace(s[i]) {
            return true;
        }
        i += 1;
    }
    false
}

/// Whether `s` holds `://`.
fn contains_scheme_sep(s: &[char]) -> (r: bool)
    ensures
        r == has_scheme_sep(s@),
{
    let n = s.len();
    if n < 3 {
        assert forall|j: int| !#[trigger] sep_at(s@, j) by {}
        return false;
    }
    let mut i: usize = 0;
    while i < n - 2
        invariant
            n == s@.len(),
            n >= 3,
            forall|j: int| 0 <= j < i ==> !#[trigger] sep_at(s@, j),
        decreases n - i,
    {
        if s[i] == ':' && s[i + 1] == '/' && s[i + 2] == '/' {
            assert(sep_at(s@, i as int));
            return true;
        }
        i += 1;
    }
    assert forall|j: int| !#[trigger] sep_at(s@, j) by {
        if 0 <= j && j < i {
        }
    }
    false
}

/// The destination context of `before`, the line up to the cursor (see
/// [`context_of`]).
pub fn detect_context(before: &str) -> (r: Option<PathContext>)
    ensures
        match context_of(before@) {
            None => r is None,
            Some((m, q)) => r matches Some(c) && c.mode == m && c.query@ == q,
        },
{
    let s = crate::text::chars_of(before);
    let n = s.len();
    if n < 2 {
        assert(last_open(s@, n - 2) is None);
        return None;
    }
    let mut k: usize = n - 2;
    while !(s[k] == ']' && s[k + 1] == '(')
        invariant
            s@ == before@,
            n == s@.len(),
            n >= 2,
            k <= n - 2,
            last_open(s@, k as int) == last_open(s@, n - 2),
        decreases k,
    {
        if k == 0 {
            assert(last_open(s@, -1) is None);
            return None;
        }
        k -= 1;
    }
    let o = k;
    let p0 = crate::text::slice_chars(s.as_slice(), o + 2, n);
    if contains_char(p0.as_slice(), ')') || contains_ws(p0.as_slice()) {
        return None;
    }
    let p = if p0.len() > 0 && p0[0] == '<' {
        let q = crate::text::slice_chars(p0.as_slice(), 1, p0.len());
        assert(q@ =~= p0@.drop_first());
        q
    } else {
        p0
    };
    let ps = crate::text::string_of(p.as_slice());
    if (p.len() > 0 && p[0] == '#') || contains_scheme_sep(p.as_slice()) || crate::links::has_scheme(
        ps.as_str(),
    ) {
        return None;
    }
    let dot = crate::text::chars_of(".");
    let dotdot = crate::text::chars_of("..");
    let dot_slash = crate::text::chars_of("./");
    let up = crate::text::chars_of("../");
    let mode = if p.len() > 0 && p[0] == '/' {
        Mode::Absolute
    } else if crate::text::has_prefix(p.as_slice(), dot_slash.as_slice()) || crate::text::has_prefix(
        p.as_slice(),
        up.as_slice(),
    ) || crate::text::eq_chars(p.as_slice(), dot.as_slice()) || crate::text::eq_chars(
        p.as_slice(),
        dotdot.as_slice(),
    ) {
        Mode::Relative
    } else {
        Mode::Bare
    };
    Some(PathContext { mode, query: ps })
}

/// A component of a path, as `Path::components` yields it.
pub enum Comp {
    Root,
    Cur,
    Parent,
    Normal(Seq<char>),
}

/// The component of piece `k` (between slashes): empty pieces and `.` past
/// the first vanish.
pub open spec fn piece_comp(piece: Seq<char>, first: bool) -> Option<Comp> {
    if piece.len() == 0 {
        None
    } else if piece == "."@ {
        if first {
            Some(Comp::Cur)
        } else {
            None
        }
    } else if piece == ".."@ {
        Some(Comp::Parent)
    } else {
        Some(Comp::Normal(piece))
    }
}

/// The components of the pieces from `k` on.
pub open spec fn comps_from(pieces: Seq<Seq<char>>, k: int) -> Seq<Comp>
    decreases pieces.len() - k,
{
    if k < 0 || k >= pieces.len() {
        Seq::empty()
    } else {
        (match piece_comp(pieces[k], k == 0) {
            Some(c) => seq![c],
            None => Seq::empty(),
        }) + comps_from(pieces, k + 1)
    }
}

/// The components of the path `p`.
pub open spec fn components(p: Seq<char>) -> Seq<Comp> {
    (if p.len() > 0 && p[0] == '/' {
        seq![Comp::Root]
    } else {
        Seq::empty()
    }) + comps_from(split_on(p, '/'), 0)
}

/// The length of the common prefix of `f` and `t` from `i` on.
pub open spec fn common_len(f: Seq<Comp>, t: Seq<Comp>, i: int) -> int
    decreases f.len() - i,
{
    if i < 0 || i >= f.len() || i >= t.len() || f[i] != t[i] {
        i
    } else {
        common_len(f, t, i + 1)
    }
}

/// A `..` for each normal component of `f` from `i` on (`.` skipped); `None`
/// past a root or `..`.
pub open spec fn ups(f: Seq<Comp>, i: int) -> Option<Seq<Seq<char>>>
    decreases f.len() - i,
{
    if i < 0 || i >= f.len() {
        Some(Seq::empty())
    } else {
        match ups(f, i + 1) {
            None => None,
            Some(rest) => match f[i] {
                Comp::Normal(_) => Some(seq![".."@] + rest),
                Comp::Cur => Some(rest),
                _ => None,
            },
        }
    }
}

/// The normal components of `t` from `i` on (`.` skipped); `None` past a
/// root or `..`.
pub open spec fn downs(t: Seq<Comp>, i: int) -> Option<Seq<Seq<char>>>
    decreases t.len() - i,
{
    if i < 0 || i >= t.len() {
        Some(Seq::empty())
    } else {
        match downs(t, i + 1) {
            None => None,
            Some(rest) => match t[i] {
                Comp::Normal(s) => Some(seq![s] + rest),
                Comp::Cur => Some(rest),
                _ => None,
            },
        }
    }
}

/// The lexical path from `from` to `to` with `/` separators: `..` for each
/// remaining component of `from`, then the remaining components of `to`
/// (`.` when there are none); `None` when a root or `..` remains.
pub open spec fn spec_rel_path(from: Seq<char>, to: Seq<char>) -> Option<Seq<char>> {
    let f = components(from);
    let t = components(to);
    let i = common_len(f, t, 0);
    match (ups(f, i), downs(t, i)) {
        (Some(a), Some(b)) => if a.len() + b.len() == 0 {
            Some("."@)
        } else {
            Some(join(a + b, "/"@))
        },
        _ => None,
    }
}

/// The executable form of a [`Comp`].
pub enum CompX {
    Root,
    Cur,
    Parent,
    Normal(Vec<char>),
}

impl View for CompX {
    type V = Comp;

    open spec fn view(&self) -> Comp {
        match self {
            CompX::Root => Comp::Root,
            CompX::Cur => Comp::Cur,
            CompX::Parent => Comp::Parent,
            CompX::Normal(s) => Comp::Normal(s@),
        }
    }
}

/// The views of a vector of components.
pub open spec fn comps_view(v: Seq<CompX>) -> Seq<Comp> {
    Seq::new(v.len(), |i: int| v[i]@)
}

/// The components of `p` (see [`components`]).
fn path_components(p: &str) -> (r: Vec<CompX>)
    ensures
        comps_view(r@) == components(p@),
{
    let s = crate::text::chars_of(p);
    let pieces = crate::text::split_chars(s.as_slice(), '/');
    let ghost pv = split_on(s@, '/');
    let mut out: Vec<CompX> = Vec::new();
    let ghost lead: Seq<Comp> = if s@.len() > 0 && s@[0] == '/' {
        seq![Comp::Root]
    } else {
        Seq::empty()
    };
    if s.len() > 0 && s[0] == '/' {
        out.push(CompX::Root);
    }
    let dot = crate::text::chars_of(".");
    let dotdot = crate::text::chars_of("..");
    let mut k: usize = pieces.len();
    let mut tail: Vec<CompX> = Vec::new();
    assert(comps_view(tail@) =~= comps_from(pv, k as int));
    while k > 0
        invariant
            k <= pieces@.len(),
            pieces@.len() == pv.len(),
            forall|j: int| 0 <= j < pv.len() ==> #[trigger] pieces@[j]@ == pv[j],
            dot@ == "."@,
            dotdot@ == ".."@,
            comps_view(tail@) == comps_from(pv, k as int),
        decreases k,
    {
        k -= 1;
        let piece = &pieces[k];
        let ghost before = comps_view(tail@);
        let c: Option<CompX> = if piece.len() == 0 {
            None
        } else if crate::text::eq_chars(piece.as_slice(), dot.as_slice()) {
            if k == 0 {
                Some(CompX::Cur)
            } else {
                None
            }
        } else if crate::text::eq_chars(piece.as_slice(), dotdot.as_slice()) {
            Some(CompX::Parent)
        } else {
            let copy = crate::text::slice_chars(piece.as_slice(), 0, piece.len());
            assert(copy@ =~= piece@);
            Some(CompX::Normal(copy))
        };
        assert(pieces@[k as int]@ == pv[k as int]);
        assert(match c {
            Some(x) => piece_comp(pv[k as int], k == 0) == Some(x@),
            None => piece_comp(pv[k as int], k == 0) is None,
        });
        assert(comps_from(pv, k as int) == (match piece_comp(pv[k as int], k == 0) {
            Some(cc) => seq![cc],
            None => Seq::<Comp>::empty(),
        }) + comps_from(pv, k + 1));
        match c {
            Some(x) => {
                let ghost xv = x@;
                tail.insert(0, x);
                assert(comps_view(tail@) =~= seq![xv] + before);
            },
            None => {
                assert(comps_view(tail@) =~= Seq::<Comp>::empty() + before);
            },
        }
    }
    let ghost lv = comps_view(out@);
    assert(lv =~= lead);
    out.append(&mut tail);
    assert(comps_view(out@) =~= lead + comps_from(pv, 0));
    out
}

/// Once `ups` fails it fails from every earlier position.
proof fn lemma_ups_none(f: Seq<Comp>, i: int, k: int)
    requires
        0 <= i <= k,
        ups(f, k) is None,
    ensures
        ups(f, i) is None,
    decreases k - i,
{
    if i < k {
        lemma_ups_none(f, i + 1, k);
    }
}

/// Once `downs` fails it fails from every earlier position.
proof fn lemma_downs_none(t: Seq<Comp>, i: int, k: int)
    requires
        0 <= i <= k,
        downs(t, k) is None,
    ensures
        downs(t, i) is None,
    decreases k - i,
{
    if i < k {
        lemma_downs_none(t, i + 1, k);
    }
}

/// Whether two components are equal.
fn same_comp(a: &CompX, b: &CompX) -> (r: bool)
    ensures
        r == (a@ == b@),
{
    match (a, b) {
        (CompX::Root, CompX::Root) => true,
        (CompX::Cur, CompX::Cur) => true,
        (CompX::Parent, CompX::Parent) => true,
        (CompX::Normal(x), CompX::Normal(y)) => crate::text::eq_chars(x.as_slice(), y.as_slice()),
        _ => false,
    }
}

/// The lexical relative path from `from` to `to` (see [`spec_rel_path`]).
pub fn rel_path(from: &str, to: &str) -> (r: Option<String>)
    ensures
        crate::links::opt_chars(r) == spec_rel_path(from@, to@),
{
    let f = path_components(from);
    let t = path_components(to);
    let ghost fv = comps_view(f@);
    let ghost tv = comps_view(t@);
    let mut i: usize = 0;
    while i < f.len() && i < t.len() && same_comp(&f[i], &t[i])
        invariant
            i <= f@.len(),
            i <= t@.len(),
            fv == comps_view(f@),
            tv == comps_view(t@),
            common_len(fv, tv, i as int) == common_len(fv, tv, 0),
        decreases f@.len() - i,
    {
        i += 1;
    }
    assert(common_len(fv, tv, i as int) == i);
    let ghost ci = common_len(fv, tv, 0);
    // `..` for each remaining component of `from`, built from the back.
    let mut up: Vec<Vec<char>> = Vec::new();
    let mut j = f.len();
    assert(up.deep_view() =~= ups(fv, j as int).unwrap());
    while j > i
        invariant
            i <= j <= f@.len(),
            ci == i,
            ci == common_len(fv, tv, 0),
            fv == components(from@),
            tv == components(to@),
            fv == comps_view(f@),
            ups(fv, j as int) == Some(up.deep_view()),
        decreases j,
    {
        j -= 1;
        let ghost rest = up.deep_view();
        assert(fv[j as int] == f@[j as int]@);
        match &f[j] {
            CompX::Normal(_) => {
                up.insert(0, crate::text::chars_of(".."));
                assert(up.deep_view() =~= seq![".."@] + rest);
            },
            CompX::Cur => {},
            _ => {
                proof {
                    lemma_ups_none(fv, i as int, j as int);
                }
                return None;
            },
        }
    }
    let mut down: Vec<Vec<char>> = Vec::new();
    let mut k = t.len();
    assert(down.deep_view() =~= downs(tv, k as int).unwrap());
    while k > i
        invariant
            i <= k <= t@.len(),
            ci == i,
            ci == common_len(fv, tv, 0),
            fv == components(from@),
            tv == components(to@),
            tv == comps_view(t@),
            downs(tv, k as int) == Some(down.deep_view()),
        decreases k,
    {
        k -= 1;
        let ghost rest = down.deep_view();
        assert(tv[k as int] == t@[k as int]@);
        match &t[k] {
            CompX::Normal(s) => {
                let copy = crate::text::slice_chars(s.as_slice(), 0, s.len());
                assert(copy@ =~= s@);
                down.insert(0, copy);
                assert(down.deep_view() =~= seq![s@] + rest);
            },
            CompX::Cur => {},
            _ => {
                proof {
                    lemma_downs_none(tv, i as int, k as int);
                }
                return None;
            },
        }
    }
    let ghost a = up.deep_view();
    let ghost b = down.deep_view();
    up.append(&mut down);
    assert(up.deep_view() =~= a + b);
    if up.len() == 0 {
        return Some(".".to_owned());
    }
    let sep = crate::text::chars_of("/");
    let joined = crate::text::join_lines(&up, sep.as_slice());
    Some(crate::text::string_of(joined.as_slice()))
}

/// How a path relative to the document is shown: `./` added unless it climbs;
/// `/` appended for directories; nothing for the document's own directory.
pub open spec fn relative_shown(rel: Seq<char>, is_dir: bool) -> Option<Seq<char>> {
    if rel == "."@ {
        None
    } else {
        let base = if rel == ".."@ || starts_with(rel, "../"@) {
            rel
        } else {
            "./"@ + rel
        };
        Some(
            if is_dir {
                base.push('/')
            } else {
                base
            },
        )
    }
}

/// How `path` is shown from the workspace `root`: `/` and the relative path
/// (`/` appended for directories); nothing outside the root.
pub open spec fn absolute_shown(root: Seq<char>, path: Seq<char>, is_dir: bool) -> Option<
    Seq<char>,
> {
    match spec_rel_path(root, path) {
        None => None,
        Some(rel) => if rel == "."@ || starts_with(rel, ".."@) {
            None
        } else {
            let base = seq!['/'] + rel;
            Some(
                if is_dir {
                    base.push('/')
                } else {
                    base
                },
            )
        },
    }
}

/// The destination shown for `path` in `mode`, and whether it lies at or
/// below the document's directory: absolute mode shows it from the root;
/// relative mode from the document (from the root when it has no relative
/// path); bare mode relative below the document and absolute elsewhere.
pub open spec fn presented(
    path: Seq<char>,
    is_dir: bool,
    doc_dir: Option<Seq<char>>,
    root: Seq<char>,
    mode: Mode,
) -> Option<(Seq<char>, bool)> {
    let doc_rel = match doc_dir {
        Some(d) => spec_rel_path(d, path),
        None => None,
    };
    let is_down = match doc_rel {
        Some(r) => !starts_with(r, ".."@),
        None => false,
    };
    let display = match mode {
        Mode::Absolute => absolute_shown(root, path, is_dir),
        Mode::Relative => match doc_rel {
            Some(r) => relative_shown(r, is_dir),
            None => absolute_shown(root, path, is_dir),
        },
        Mode::Bare => if is_down {
            relative_shown(doc_rel.unwrap(), is_dir)
        } else {
            absolute_shown(root, path, is_dir)
        },
    };
    match display {
        Some(d) => Some((d, is_down)),
        None => None,
    }
}

/// `base`, with `/` appended for a directory.
fn with_dir_slash(mut base: Vec<char>, is_dir: bool) -> (r: Vec<char>)
    ensures
        r@ == (if is_dir {
            base@.push('/')
        } else {
            base@
        }),
{
    if is_dir {
        base.push('/');
    }
    base
}

/// How a path relative to the document is shown (see [`relative_shown`]).
fn relative_display(rel: &str, is_dir: bool) -> (r: Option<String>)
    ensures
        crate::links::opt_chars(r) == relative_shown(rel@, is_dir),
{
    let rc = crate::text::chars_of(rel);
    let dot = crate::text::chars_of(".");
    if crate::text::eq_chars(rc.as_slice(), dot.as_slice()) {
        return None;
    }
    let dotdot = crate::text::chars_of("..");
    let up = crate::text::chars_of("../");
    let base = if crate::text::eq_chars(rc.as_slice(), dotdot.as_slice()) || crate::text::has_prefix(
        rc.as_slice(),
        up.as_slice(),
    ) {
        rc
    } else {
        let mut b = crate::text::chars_of("./");
        crate::text::extend(&mut b, rc.as_slice());
        b
    };
    let shown = with_dir_slash(base, is_dir);
    Some(crate::text::string_of(shown.as_slice()))
}

/// How `path` is shown from the root (see [`absolute_shown`]).
fn absolute_display(root: &str, path: &str, is_dir: bool) -> (r: Option<String>)
    ensures
        crate::links::opt_chars(r) == absolute_shown(root@, path@, is_dir),
{
    let rel = match rel_path(root, path) {
        Some(r) => r,
        None => {
            return None;
        },
    };
    let rc = crate::text::chars_of(rel.as_str());
    let dot = crate::text::chars_of(".");
    let dotdot = crate::text::chars_of("..");
    if crate::text::eq_chars(rc.as_slice(), dot.as_slice()) || crate::text::has_prefix(
        rc.as_slice(),
        dotdot.as_slice(),
    ) {
        return None;
    }
    let mut base: Vec<char> = Vec::new();
    base.push('/');
    crate::text::extend(&mut base, rc.as_slice());
    let shown = with_dir_slash(base, is_dir);
    Some(crate::text::string_of(shown.as_slice()))
}

/// The destination shown for `path` (see [`presented`]).
pub fn present(path: &str, is_dir: bool, doc_dir: Option<&str>, root: &str, mode: Mode) -> (r:
    Option<(String, bool)>)
    ensures
        match presented(
            path@,
            is_dir,
            crate::features::diagnostics::opt_str(doc_dir),
            root@,
            mode,
        ) {
            Some((d, down)) => r matches Some(x) && x.0@ == d && x.1 == down,
            None => r is None,
        },
{
    let doc_rel: Option<String> = match doc_dir {
        Some(d) => rel_path(d, path),
        None => None,
    };
    let dotdot = crate::text::chars_of("..");
    let is_down = match &doc_rel {
        Some(r) => {
            let rc = crate::text::chars_of(r.as_str());
            !crate::text::has_prefix(rc.as_slice(), dotdot.as_slice())
        },
        None => false,
    };
    let display = match mode {
        Mode::Absolute => absolute_display(root, path, is_dir),
        Mode::Relative => match &doc_rel {
            Some(r) => relative_display(r.as_str(), is_dir),
            None => absolute_display(root, path, is_dir),
        },
        Mode::Bare => if is_down {
            match &doc_rel {
                Some(r) => relative_display(r.as_str(), is_dir),
                None => None,
            }
        } else {
            absolute_display(root, path, is_dir)
        },
    };
    match display {
        Some(d) => Some((d, is_down)),
        None => None,
    }
}

/// The mode of a bare query under the configured style: `auto` is hybrid
/// (bare) in a Git work tree and relative elsewhere.
pub open spec fn mode_for(style: crate::config::PathStyle, in_git: bool) -> Mode {
    match style {
        crate::config::PathStyle::Auto => if in_git {
            Mode::Bare
        } else {
            Mode::Relative
        },
        crate::config::PathStyle::Relative => Mode::Relative,
        crate::config::PathStyle::Absolute => Mode::Absolute,
        crate::config::PathStyle::Hybrid => Mode::Bare,
    }
}

/// The mode of a bare query (see [`mode_for`]); `in_git` tells whether the
/// workspace root lies in a Git work tree.
pub fn configured_mode(style: crate::config::PathStyle, in_git: bool) -> (r: Mode)
    ensures
        r == mode_for(style, in_git),
{
    match style {
        crate::config::PathStyle::Auto => if in_git {
            Mode::Bare
        } else {
            Mode::Relative
        },
        crate::config::PathStyle::Relative => Mode::Relative,
        crate::config::PathStyle::Absolute => Mode::Absolute,
        crate::config::PathStyle::Hybrid => Mode::Bare,
    }
}

/// The last `/`-separated segment of `q` starts with a dot.
pub open spec fn targets_hidden(q: Seq<char>) -> bool {
    let parts = split_on(q, '/');
    parts.last().len() > 0 && parts.last()[0] == '.'
}

/// Whether the query targets a hidden entry (its last segment starts with a
/// dot), which reveals hidden files.
pub fn query_shows_hidden(query: &str) -> (r: bool)
    ensures
        r == targets_hidden(query@),
{
    let q = crate::text::chars_of(query);
    let parts = crate::text::split_chars(q.as_slice(), '/');
    proof {
        crate::text::lemma_split_on_nonempty(q@, '/');
    }
    let last = &parts[parts.len() - 1];
    last.len() > 0 && last[0] == '.'
}

/// The views of a vector of strings.
pub open spec fn exts_view(v: Seq<String>) -> Seq<Seq<char>> {
    Seq::new(v.len(), |i: int| v[i]@)
}

/// Extension priority: 0 for a file with a prioritised extension (compared
/// lowercased), 1 for other files, 2 for directories.
pub open spec fn bucket_of(name: Seq<char>, is_dir: bool, exts: Seq<Seq<char>>) -> u8 {
    if is_dir {
        2
    } else if exists|i: int|
        0 <= i < exts.len() && ends_with(lowercase(name), #[trigger] lowercase(exts[i])) {
        0
    } else {
        1
    }
}

/// The extension priority of an entry (see [`bucket_of`]).
pub fn ext_bucket(name: &str, is_dir: bool, config: &CompletionConfig) -> (r: u8)
    ensures
        r == bucket_of(name@, is_dir, exts_view(config.prioritize_extensions@)),
{
    if is_dir {
        return 2;
    }
    let ghost ev = exts_view(config.prioritize_extensions@);
    let low = crate::text::to_lowercase(name);
    let lc = crate::text::chars_of(low.as_str());
    let exts = &config.prioritize_extensions;
    let mut i: usize = 0;
    while i < exts.len()
        invariant
            i <= exts@.len(),
            !is_dir,
            ev == exts_view(exts@),
            ev == exts_view(config.prioritize_extensions@),
            lc@ == lowercase(name@),
            forall|j: int| 0 <= j < i ==> !ends_with(lowercase(name@), #[trigger] lowercase(ev[j])),
        decreases exts@.len() - i,
    {
        let le = crate::text::to_lowercase(exts[i].as_str());
        let ec = crate::text::chars_of(le.as_str());
        assert(ev[i as int] == exts@[i as int]@);
        if crate::text::has_suffix(lc.as_slice(), ec.as_slice()) {
            assert(ends_with(lowercase(name@), lowercase(ev[i as int])));
            return 0;
        }
        i += 1;
    }
    1
}

/// An entry found by walking the workspace.
pub struct WalkEntry {
    /// Its full path.
    pub path: String,
    pub is_dir: bool,
    /// How deep below the walk's start it lies (0 for the start itself).
    pub depth: usize,
    /// Its file name.
    pub name: String,
}

/// A completion candidate.
pub struct Candidate {
    /// The destination to insert, e.g. `./test/c.md`, `../a.md` or `/x.md`.
    pub display: String,
    pub is_dir: bool,
    /// At or below the document's directory.
    pub is_down: bool,
    pub depth: usize,
    /// Fuzzy score (higher is better).
    pub score: u32,
    pub name: String,
}

pub struct CandidateV {
    pub display: Seq<char>,
    pub is_dir: bool,
    pub is_down: bool,
    pub depth: usize,
    pub score: u32,
    pub name: Seq<char>,
}

impl View for Candidate {
    type V = CandidateV;

    open spec fn view(&self) -> CandidateV {
        CandidateV {
            display: self.display@,
            is_dir: self.is_dir,
            is_down: self.is_down,
            depth: self.depth,
            score: self.score,
            name: self.name@,
        }
    }
}

/// `a` ranks before `b`: higher score, then below the document, shallower,
/// prioritised extension, shorter destination (in bytes), then name
/// (lowercased).
pub open spec fn cand_before(a: CandidateV, b: CandidateV, exts: Seq<Seq<char>>) -> bool {
    let ba = bucket_of(a.name, a.is_dir, exts);
    let bb = bucket_of(b.name, b.is_dir, exts);
    let la = vstd::utf8::encode_utf8(a.display).len();
    let lb = vstd::utf8::encode_utf8(b.display).len();
    ||| a.score > b.score
    ||| a.score == b.score && a.is_down && !b.is_down
    ||| a.score == b.score && a.is_down == b.is_down && a.depth < b.depth
    ||| a.score == b.score && a.is_down == b.is_down && a.depth == b.depth && ba < bb
    ||| a.score == b.score && a.is_down == b.is_down && a.depth == b.depth && ba == bb && la < lb
    ||| a.score == b.score && a.is_down == b.is_down && a.depth == b.depth && ba == bb && la == lb
        && seq_less(lowercase(a.name), lowercase(b.name))
}

/// Inserts `x` into the ordered `s` after every candidate not ranking after
/// it.
pub open spec fn insert_cand(s: Seq<CandidateV>, x: CandidateV, exts: Seq<Seq<char>>) -> Seq<
    CandidateV,
>
    decreases s.len(),
{
    if s.len() == 0 {
        seq![x]
    } else if cand_before(x, s[0], exts) {
        seq![x] + s
    } else {
        seq![s[0]] + insert_cand(s.drop_first(), x, exts)
    }
}

/// The candidate of entry `e`: not the walk's start, presentable in `mode`,
/// and matching the query.
pub open spec fn cand_of(
    e: WalkEntry,
    doc_dir: Option<Seq<char>>,
    root: Seq<char>,
    mode: Mode,
    query: Seq<char>,
) -> Option<CandidateV> {
    if e.depth == 0 {
        None
    } else {
        match presented(e.path@, e.is_dir, doc_dir, root, mode) {
            None => None,
            Some((d, down)) => match crate::fuzzy::spec_fuzzy_score(query, d) {
                None => None,
                Some(s) => Some(
                    CandidateV {
                        display: d,
                        is_dir: e.is_dir,
                        is_down: down,
                        depth: e.depth,
                        score: s,
                        name: e.name@,
                    },
                ),
            },
        }
    }
}

/// The candidates of the first `n` entries, ranked.
pub open spec fn ranked_cands(
    es: Seq<WalkEntry>,
    doc_dir: Option<Seq<char>>,
    root: Seq<char>,
    mode: Mode,
    query: Seq<char>,
    exts: Seq<Seq<char>>,
    n: int,
) -> Seq<CandidateV>
    decreases n,
{
    if n <= 0 {
        Seq::empty()
    } else {
        let prev = ranked_cands(es, doc_dir, root, mode, query, exts, n - 1);
        match cand_of(es[n - 1], doc_dir, root, mode, query) {
            Some(x) => insert_cand(prev, x, exts),
            None => prev,
        }
    }
}

proof fn lemma_insert_cand_at(s: Seq<CandidateV>, x: CandidateV, exts: Seq<Seq<char>>, i: int)
    requires
        0 <= i <= s.len(),
        forall|j: int| 0 <= j < i ==> !cand_before(x, #[trigger] s[j], exts),
        i < s.len() ==> cand_before(x, s[i], exts),
    ensures
        insert_cand(s, x, exts) == s.insert(i, x),
    decreases s.len(),
{
    if s.len() == 0 {
        assert(s.insert(i, x) =~= seq![x]);
    } else if i == 0 {
        assert(s.insert(i, x) =~= seq![x] + s);
    } else {
        let t = s.drop_first();
        assert forall|j: int| 0 <= j < i - 1 implies !cand_before(x, #[trigger] t[j], exts) by {
            assert(t[j] == s[j + 1]);
        }
        lemma_insert_cand_at(t, x, exts, i - 1);
        assert(s.insert(i, x) =~= seq![s[0]] + t.insert(i - 1, x));
    }
}

/// Whether `a` ranks before `b` (see [`cand_before`]).
fn ranks_ahead(a: &Candidate, b: &Candidate, config: &CompletionConfig) -> (r: bool)
    ensures
        r == cand_before(a@, b@, exts_view(config.prioritize_extensions@)),
{
    if a.score != b.score {
        return a.score > b.score;
    }
    if a.is_down != b.is_down {
        return a.is_down;
    }
    if a.depth != b.depth {
        return a.depth < b.depth;
    }
    let ba = ext_bucket(a.name.as_str(), a.is_dir, config);
    let bb = ext_bucket(b.name.as_str(), b.is_dir, config);
    if ba != bb {
        return ba < bb;
    }
    let la = a.display.as_str().as_bytes().len();
    let lb = b.display.as_str().as_bytes().len();
    if la != lb {
        return la < lb;
    }
    let na = crate::text::to_lowercase(a.name.as_str());
    let nb = crate::text::to_lowercase(b.name.as_str());
    let ca = crate::text::chars_of(na.as_str());
    let cb = crate::text::chars_of(nb.as_str());
    crate::features::diagnostics::chars_less_than(ca.as_slice(), cb.as_slice())
}

/// The views of a vector of candidates.
pub open spec fn cands_view(v: Seq<Candidate>) -> Seq<CandidateV> {
    Seq::new(v.len(), |i: int| v[i]@)
}

/// Ranks the walked `entries` as completions of `query` in `mode` (see
/// [`ranked_cands`]), best first, keeping at most `config.max_items`.
pub fn rank_entries(
    entries: &Vec<WalkEntry>,
    doc_dir: Option<&str>,
    root: &str,
    mode: Mode,
    query: &str,
    config: &CompletionConfig,
) -> (r: Vec<Candidate>)
    ensures
        cands_view(r@) == ({
            let all = ranked_cands(
                entries@,
                crate::features::diagnostics::opt_str(doc_dir),
                root@,
                mode,
                query@,
                exts_view(config.prioritize_extensions@),
                entries@.len() as int,
            );
            all.take(
                if all.len() < config.max_items {
                    all.len() as int
                } else {
                    config.max_items as int
                },
            )
        }),
        scores_descend(cands_view(r@)),
        best_first(cands_view(r@), exts_view(config.prioritize_extensions@)),
{
    let ghost dd = crate::features::diagnostics::opt_str(doc_dir);
    let ghost ev = exts_view(config.prioritize_extensions@);
    let matcher = crate::fuzzy::PathMatcher::new(query);
    let mut sorted: Vec<Candidate> = Vec::new();
    let mut n: usize = 0;
    assert(cands_view(sorted@) =~= ranked_cands(entries@, dd, root@, mode, query@, ev, 0));
    while n < entries.len()
        invariant
            n <= entries@.len(),
            matcher.query() == query@,
            dd == crate::features::diagnostics::opt_str(doc_dir),
            ev == exts_view(config.prioritize_extensions@),
            cands_view(sorted@) == ranked_cands(entries@, dd, root@, mode, query@, ev, n as int),
        decreases entries@.len() - n,
    {
        let e = &entries[n];
        let ghost cur = cands_view(sorted@);
        if e.depth > 0 {
            match present(e.path.as_str(), e.is_dir, doc_dir, root, mode) {
                Some((display, is_down)) => {
                    match matcher.score(display.as_str()) {
                        Some(score) => {
                            let x = Candidate {
                                display,
                                is_dir: e.is_dir,
                                is_down,
                                depth: e.depth,
                                score,
                                name: copy_str(&e.name),
                            };
                            let mut i: usize = 0;
                            while i < sorted.len()
                                invariant
                                    i <= sorted@.len(),
                                    cur == cands_view(sorted@),
                                    ev == exts_view(config.prioritize_extensions@),
                                    forall|j: int|
                                        0 <= j < i ==> !cand_before(x@, #[trigger] cur[j], ev),
                                ensures
                                    i <= sorted@.len(),
                                    forall|j: int|
                                        0 <= j < i ==> !cand_before(x@, #[trigger] cur[j], ev),
                                    i < sorted@.len() ==> cand_before(x@, cur[i as int], ev),
                                decreases sorted@.len() - i,
                            {
                                if ranks_ahead(&x, &sorted[i], config) {
                                    break;
                                }
                                i += 1;
                            }
                            proof {
                                lemma_insert_cand_at(cur, x@, ev, i as int);
                            }
                            let ghost xv = x@;
                            sorted.insert(i, x);
                            assert(cands_view(sorted@) =~= cur.insert(i as int, xv));
                        },
                        None => {},
                    }
                },
                None => {},
            }
        }
        n += 1;
    }
    let keep = if sorted.len() < config.max_items {
        sorted.len()
    } else {
        config.max_items
    };
    let ghost all = cands_view(sorted@);
    sorted.truncate(keep);
    assert(cands_view(sorted@) =~= all.take(keep as int));
    proof {
        lemma_completions_best_first(entries@, dd, root@, mode, query@, ev, entries@.len() as int);
        let kept = cands_view(sorted@);
        assert forall|i: int, j: int| 0 <= i < j < kept.len() implies #[trigger] kept[i].score
            >= #[trigger] kept[j].score by {
            assert(kept[i] == all[i] && kept[j] == all[j]);
        }
        assert forall|i: int, j: int| 0 <= i < j < kept.len() implies listed_no_later(
            #[trigger] kept[i],
            #[trigger] kept[j],
            ev,
        ) by {
            assert(kept[i] == all[i] && kept[j] == all[j]);
        }
    }
    sorted
}

/// Whether the candidates come by non-increasing fuzzy score.
pub open spec fn scores_descend(s: Seq<CandidateV>) -> bool {
    forall|i: int, j: int| 0 <= i < j < s.len() ==> #[trigger] s[i].score >= #[trigger] s[j].score
}

/// Whether `a` may be listed before `b`: a higher fuzzy score; or the same
/// score and below the document where `b` is not; or, tied so far, shallower;
/// or then a more prioritised extension; or then a shorter destination (in
/// bytes); or, tied on all of these, a lowercased name not sorting after
/// that of `b`.
pub open spec fn listed_no_later(a: CandidateV, b: CandidateV, exts: Seq<Seq<char>>) -> bool {
    let ba = bucket_of(a.name, a.is_dir, exts);
    let bb = bucket_of(b.name, b.is_dir, exts);
    let la = vstd::utf8::encode_utf8(a.display).len();
    let lb = vstd::utf8::encode_utf8(b.display).len();
    if a.score != b.score {
        a.score > b.score
    } else if a.is_down != b.is_down {
        a.is_down
    } else if a.depth != b.depth {
        a.depth < b.depth
    } else if ba != bb {
        ba < bb
    } else if la != lb {
        la < lb
    } else {
        !seq_less(lowercase(b.name), lowercase(a.name))
    }
}

/// Whether the candidates come best first (see [`listed_no_later`]).
pub open spec fn best_first(s: Seq<CandidateV>, exts: Seq<Seq<char>>) -> bool {
    forall|i: int, j: int| 0 <= i < j < s.len() ==> listed_no_later(#[trigger] s[i], #[trigger] s[j], exts)
}

proof fn lemma_listed_no_later_trans(a: CandidateV, b: CandidateV, c: CandidateV, exts: Seq<Seq<char>>)
    requires
        listed_no_later(a, b, exts),
        listed_no_later(b, c, exts),
    ensures
        listed_no_later(a, c, exts),
{
    crate::text::lemma_seq_less_split(lowercase(a.name), lowercase(b.name), lowercase(c.name));
}

proof fn lemma_insert_cand_keeps(s: Seq<CandidateV>, x: CandidateV, exts: Seq<Seq<char>>)
    requires
        best_first(s, exts),
    ensures
        best_first(insert_cand(s, x, exts), exts),
        forall|y: CandidateV| #[trigger]
            insert_cand(s, x, exts).contains(y) <==> (y == x || s.contains(y)),
    decreases s.len(),
{
    let r = insert_cand(s, x, exts);
    if s.len() == 0 {
        assert forall|y: CandidateV| #[trigger] r.contains(y) <==> (y == x || s.contains(y)) by {
            if y == x {
                assert(r[0] == x);
            }
        }
    } else if cand_before(x, s[0], exts) {
        assert(r =~= seq![x] + s);
        assert forall|i: int, j: int| 0 <= i < j < r.len() implies listed_no_later(
            #[trigger] r[i],
            #[trigger] r[j],
            exts,
        ) by {
            if i == 0 {
                assert(r[j] == s[j - 1]);
                crate::text::lemma_seq_less_asym(lowercase(x.name), lowercase(s[0].name));
                if j > 1 {
                    assert(listed_no_later(s[0], s[j - 1], exts));
                    lemma_listed_no_later_trans(x, s[0], s[j - 1], exts);
                }
            } else {
                assert(r[i] == s[i - 1] && r[j] == s[j - 1]);
            }
        }
        assert forall|y: CandidateV| #[trigger] r.contains(y) <==> (y == x || s.contains(y)) by {
            if y == x {
                assert(r[0] == x);
            }
            if s.contains(y) {
                let k = choose|k: int| 0 <= k < s.len() && s[k] == y;
                assert(r[k + 1] == y);
            }
            if r.contains(y) {
                let k = choose|k: int| 0 <= k < r.len() && r[k] == y;
                if k > 0 {
                    assert(s[k - 1] == y);
                }
            }
        }
    } else {
        let t = s.drop_first();
        assert forall|i: int, j: int| 0 <= i < j < t.len() implies listed_no_later(
            #[trigger] t[i],
            #[trigger] t[j],
            exts,
        ) by {
            assert(t[i] == s[i + 1] && t[j] == s[j + 1]);
        }
        lemma_insert_cand_keeps(t, x, exts);
        let u = insert_cand(t, x, exts);
        assert(r =~= seq![s[0]] + u);
        assert(listed_no_later(s[0], x, exts));
        assert forall|i: int, j: int| 0 <= i < j < r.len() implies listed_no_later(
            #[trigger] r[i],
            #[trigger] r[j],
            exts,
        ) by {
            assert(r[j] == u[j - 1]);
            if i == 0 {
                assert(u.contains(u[j - 1]));
                if u[j - 1] != x {
                    let k = choose|k: int| 0 <= k < t.len() && t[k] == u[j - 1];
                    assert(s[k + 1] == t[k]);
                    assert(listed_no_later(s[0], s[k + 1], exts));
                }
            } else {
                assert(r[i] == u[i - 1]);
            }
        }
        assert forall|y: CandidateV| #[trigger] r.contains(y) <==> (y == x || s.contains(y)) by {
            if r.contains(y) {
                let k = choose|k: int| 0 <= k < r.len() && r[k] == y;
                if k > 0 {
                    assert(u[k - 1] == y);
                    assert(u.contains(y));
                    if y != x {
                        let m = choose|m: int| 0 <= m < t.len() && t[m] == y;
                        assert(s[m + 1] == y);
                    }
                }
            }
            if y == x {
                assert(u.contains(x));
                let k = choose|k: int| 0 <= k < u.len() && u[k] == x;
                assert(r[k + 1] == x);
            }
            if s.contains(y) {
                let k = choose|k: int| 0 <= k < s.len() && s[k] == y;
                if k == 0 {
                    assert(r[0] == y);
                } else {
                    assert(t[k - 1] == y);
                    assert(t.contains(y));
                    assert(u.contains(y));
                    let m = choose|m: int| 0 <= m < u.len() && u[m] == y;
                    assert(r[m + 1] == y);
                }
            }
        }
    }
}

/// Completions come best first: the ranking of the walked entries is by
/// non-increasing fuzzy score, ties broken as [`listed_no_later`] says;
/// every candidate of an entry is in it, and each ranked item is the
/// candidate of one of the entries; so what `max_items` cuts never scores
/// higher than what is kept.
pub proof fn lemma_completions_best_first(
    es: Seq<WalkEntry>,
    doc_dir: Option<Seq<char>>,
    root: Seq<char>,
    mode: Mode,
    query: Seq<char>,
    exts: Seq<Seq<char>>,
    n: int,
)
    requires
        0 <= n <= es.len(),
    ensures
        scores_descend(ranked_cands(es, doc_dir, root, mode, query, exts, n)),
        best_first(ranked_cands(es, doc_dir, root, mode, query, exts, n), exts),
        forall|k: int|
            0 <= k < n && (#[trigger] cand_of(es[k], doc_dir, root, mode, query)).is_some()
                ==> ranked_cands(es, doc_dir, root, mode, query, exts, n).contains(
                cand_of(es[k], doc_dir, root, mode, query).unwrap(),
            ),
        forall|y: CandidateV|
            #[trigger] ranked_cands(es, doc_dir, root, mode, query, exts, n).contains(y) ==> exists|
                k: int,
            |
                0 <= k < n && #[trigger] cand_of(es[k], doc_dir, root, mode, query) == Some(y),
    decreases n,
{
    if n > 0 {
        lemma_completions_best_first(es, doc_dir, root, mode, query, exts, n - 1);
        let prev = ranked_cands(es, doc_dir, root, mode, query, exts, n - 1);
        if let Some(x) = cand_of(es[n - 1], doc_dir, root, mode, query) {
            lemma_insert_cand_keeps(prev, x, exts);
        }
    }
    let r = ranked_cands(es, doc_dir, root, mode, query, exts, n);
    assert forall|i: int, j: int| 0 <= i < j < r.len() implies #[trigger] r[i].score
        >= #[trigger] r[j].score by {
        assert(listed_no_later(r[i], r[j], exts));
    }
}

/// A copy of `s`.
fn copy_str(s: &String) -> (r: String)
    ensures
        r@ == s@,
{
    let mut out = String::new();
    crate::text::extend_string(&mut out, s.as_str());
    out
}

/// Where the workspace walk for a completion starts: the workspace root
/// (or, without one, the document's directory), or the document's directory.
#[derive(Debug, Clone, Copy, PartialEq, Eq, Structural)]
pub enum Scope {
    Root,
    DocDir,
}

/// What a completion request asks of the workspace walk: the destination's
/// mode and text, where the replaced text starts, and where and how deep to
/// walk.
pub struct CompletionRequest {
    pub mode: Mode,
    pub query: String,
    pub replace_start: Position,
    pub scope: Scope,
    pub max_depth: usize,
}

/// The walk starts at the root for deep completion, for absolute
/// destinations and when the document's directory is unknown.
pub open spec fn walk_scope(deep: bool, mode: Mode, doc_dir_known: bool) -> Scope {
    if deep || mode == Mode::Absolute || !doc_dir_known {
        Scope::Root
    } else {
        Scope::DocDir
    }
}

/// Deep completion walks `max` levels (at least one); otherwise one.
pub open spec fn walk_depth(deep: bool, max: usize) -> usize {
    if deep && max > 1 {
        max
    } else {
        1
    }
}

/// The request for a completion at `pos` in `text`, if the cursor is in a
/// link or image destination; see [`completion_request`].
pub open spec fn request_of(
    s: Seq<char>,
    pos: Position,
    enc: PositionEncoding,
    paths: bool,
    style: crate::config::PathStyle,
    deep: bool,
    max_depth: usize,
    doc_dir_known: bool,
    root_known: bool,
    in_git: bool,
) -> Option<(Mode, Seq<char>, (nat, nat), Scope, usize)> {
    let cursor = char_of_position(s, pos.line as nat, pos.character as nat, enc);
    match context_of(line_prefix(s, cursor)) {
        None => None,
        Some((m0, q)) => if !paths || !(doc_dir_known || root_known) {
            None
        } else {
            let mode = if m0 == Mode::Bare {
                mode_for(style, in_git)
            } else {
                m0
            };
            let start = if cursor < q.len() {
                0
            } else {
                cursor - q.len()
            };
            Some(
                (
                    mode,
                    q,
                    position_of_char(s, start, enc),
                    walk_scope(deep, mode, doc_dir_known),
                    walk_depth(deep, max_depth),
                ),
            )
        },
    }
}

/// Decides whether a completion at `pos` in the document held by `rope` is answered and what the
/// workspace walk is asked: `None` when path completion is off, when the
/// cursor is not in a local link or image destination, or when neither the
/// document's directory nor a workspace root is known. A bare destination
/// takes the configured style's mode (`in_git`: the root lies in a Git work
/// tree). The replaced text is the destination typed so far.
pub fn completion_request(
    rope: &Rope,
    pos: Position,
    enc: PositionEncoding,
    config: &CompletionConfig,
    doc_dir_known: bool,
    root_known: bool,
    in_git: bool,
) -> (r: Option<CompletionRequest>)
    ensures
        match request_of(
            rope_text(*rope),
            pos,
            enc,
            config.paths,
            config.path_style,
            config.deep_paths,
            config.deep_paths_max_depth,
            doc_dir_known,
            root_known,
            in_git,
        ) {
            None => r is None,
            Some((mode, q, p, scope, depth)) => r matches Some(req) && req.mode == mode
                && req.query@ == q && req.replace_start.line == p.0 as u32
                && req.replace_start.character == p.1 as u32 && req.scope == scope
                && req.max_depth == depth,
        },
{
    let cursor = position_to_char(rope, pos, enc);
    let before = line_before(rope, cursor);
    let ctx = match detect_context(before.as_str()) {
        None => return None,
        Some(c) => c,
    };
    if !config.paths || !(doc_dir_known || root_known) {
        return None;
    }
    let mode = if ctx.mode == Mode::Bare {
        configured_mode(config.path_style, in_git)
    } else {
        ctx.mode
    };
    let qlen = crate::text::chars_of(ctx.query.as_str()).len();
    let start = if cursor < qlen {
        0
    } else {
        cursor - qlen
    };
    let replace_start = char_to_position(rope, start, enc);
    let scope = if config.deep_paths || mode == Mode::Absolute || !doc_dir_known {
        Scope::Root
    } else {
        Scope::DocDir
    };
    let max_depth = if config.deep_paths && config.deep_paths_max_depth > 1 {
        config.deep_paths_max_depth
    } else {
        1
    };
    Some(CompletionRequest { mode, query: ctx.query, replace_start, scope, max_depth })
}

/// Accepting a path completion replaces exactly the destination typed so
/// far: the text from the start of the replaced span up to the cursor is
/// the query.
pub proof fn lemma_completion_replaces_query(s: Seq<char>, pos: Position, enc: PositionEncoding)
    ensures
        ({
            let cursor = char_of_position(s, pos.line as nat, pos.character as nat, enc);
            match context_of(line_prefix(s, cursor)) {
                Some((m, q)) => q.len() <= cursor && s.subrange(cursor - q.len(), cursor) == q,
                None => true,
            }
        }),
{
    let cursor = char_of_position(s, pos.line as nat, pos.character as nat, enc);
    crate::encoding::lemma_char_of_position_in_text(s, pos.line as nat, pos.character as nat, enc);
    crate::encoding::lemma_line_prefix_before(s, cursor);
    let before = line_prefix(s, cursor);
    let len = before.len() as int;
    lemma_last_open_bounds(before, len - 2);
    if let Some((m, q)) = context_of(before) {
        let o = last_open(before, len - 2).unwrap();
        let p0 = before.subrange(o + 2, len);
        assert(before.subrange(len - q.len(), len) =~= q) by {
            if p0.len() > 0 && p0[0] == '<' {
                assert(q =~= p0.drop_first());
            }
        }
        assert(s.subrange(cursor - q.len(), cursor) =~= before.subrange(len - q.len(), len));
    }
}

proof fn lemma_last_open_bounds(s: Seq<char>, k: int)
    ensures
        match last_open(s, k) {
            Some(o) => 0 <= o <= k && o + 1 < s.len(),
            None => true,
        },
    decreases k + 1,
{
    if k >= 0 && !(k + 1 < s.len() && s[k] == ']' && s[k + 1] == '(') {
        lemma_last_open_bounds(s, k - 1);
    }
}

} // verus!
