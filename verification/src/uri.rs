//! Lexical path normalisation for link resolution.

use vstd::prelude::*;
use crate::text::{chars_of, eq_chars, join, join_lines, split_chars, split_on, string_of};

verus! {

broadcast use crate::lemmas::lemma_char_vec_deep_view;

/// The path component `..`.
pub open spec fn dotdot() -> Seq<char> {
    seq!['.', '.']
}

/// One step of lexical normalisation over the components kept so far: `..`
/// drops the last kept component, or is kept itself when there is none or
/// the last kept one is a `..` that could not be resolved; empty and `.`
/// components vanish, and any other component is appended.
pub open spec fn norm_step(out: Seq<Seq<char>>, c: Seq<char>) -> Seq<Seq<char>> {
    if c == dotdot() {
        if out.len() > 0 && out.last() != dotdot() {
            out.drop_last()
        } else {
            out.push(dotdot())
        }
    } else if c.len() == 0 || c == seq!['.'] {
        out
    } else {
        out.push(c)
    }
}

/// The components kept after normalising the first `k` pieces.
pub open spec fn norm_fold(pieces: Seq<Seq<char>>, k: int) -> Seq<Seq<char>>
    decreases k,
{
    if k <= 0 {
        Seq::empty()
    } else {
        norm_step(norm_fold(pieces, k - 1), pieces[k - 1])
    }
}

/// `path` with `.` and `..` components resolved lexically, keeping a leading
/// `/`; `..` above the start of a relative path (or above the root) is kept.
pub open spec fn spec_normalize(path: Seq<char>) -> Seq<char> {
    let pieces = split_on(path, '/');
    let kept = join(norm_fold(pieces, pieces.len() as int), seq!['/']);
    if path.len() > 0 && path[0] == '/' {
        seq!['/'] + kept
    } else {
        kept
    }
}

/// Lexically normalize a path: resolve `.` and `..` components without touching
/// the filesystem. This keeps link resolution predictable even when the target
/// does not (yet) exist.
pub fn normalize(path: &str) -> (r: String)
    ensures
        r@ == spec_normalize(path@),
{
    let s = chars_of(path);
    let pieces = split_chars(&s, '/');
    let ghost pv = pieces.deep_view();
    let mut out: Vec<Vec<char>> = Vec::new();
    let dd: Vec<char> = vec!['.', '.'];
    let dot: Vec<char> = vec!['.'];
    assert(dd@ =~= dotdot());
    assert(dot@ =~= seq!['.']);
    let mut k: usize = 0;
    assert(out.deep_view() =~= norm_fold(pv, 0));
    while k < pieces.len()
        invariant
            k <= pieces@.len(),
            pv == pieces.deep_view(),
            dd@ == dotdot(),
            dot@ == seq!['.'],
            out.deep_view() == norm_fold(pv, k as int),
        decreases pieces@.len() - k,
    {
        let c = &pieces[k];
        let ghost before = out.deep_view();
        if eq_chars(c, &dd) {
            if out.len() > 0 && !eq_chars(&out[out.len() - 1], &dd) {
                out.pop();
                assert(out.deep_view() =~= before.drop_last());
            } else {
                proof {
                    if out@.len() > 0 {
                        assert(before.last() == out@[out@.len() - 1]@);
                    }
                }
                let d2: Vec<char> = vec!['.', '.'];
                assert(d2@ =~= dotdot());
                out.push(d2);
                assert(out.deep_view() =~= before.push(dotdot()));
            }
        } else if c.len() == 0 || eq_chars(c, &dot) {
        } else {
            let copy = crate::text::slice_chars(c, 0, c.len());
            assert(copy@ =~= c@);
            out.push(copy);
            assert(out.deep_view() =~= before.push(c@));
        }
        k += 1;
    }
    let slash: Vec<char> = vec!['/'];
    let kept = join_lines(&out, &slash);
    assert(slash@ =~= seq!['/']);
    if s.len() > 0 && s[0] == '/' {
        let mut all: Vec<char> = vec!['/'];
        crate::text::extend(&mut all, &kept);
        assert(all@ =~= seq!['/'] + kept@);
        string_of(&all)
    } else {
        string_of(&kept)
    }
}

} // verus!
