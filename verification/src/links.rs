//! URL classification shared by diagnostics, completion and navigation.

use vstd::prelude::*;
use crate::text::{chars_of, slice_chars, string_of, trim, trim_vec};

verus! {

/// Whether `c` is an ASCII letter.
pub open spec fn is_alpha(c: char) -> bool {
    ('a' <= c && c <= 'z') || ('A' <= c && c <= 'Z')
}

/// Whether `c` may appear in a URI scheme: ASCII letters, digits, `+`, `-`
/// and `.`.
pub open spec fn is_scheme_char(c: char) -> bool {
    is_alpha(c) || ('0' <= c && c <= '9') || c == '+' || c == '-' || c == '.'
}

/// `url` has an explicit URI scheme: it starts with an ASCII letter, and a
/// colon follows a non-empty run of scheme characters.
pub open spec fn spec_has_scheme(url: Seq<char>) -> bool {
    exists|k: int|
        0 < k < url.len() && #[trigger] url[k] == ':' && is_alpha(url[0]) && forall|j: int|
            0 <= j < k ==> is_scheme_char(#[trigger] url[j])
}

fn scheme_in(s: &[char]) -> (r: bool)
    ensures
        r == spec_has_scheme(s@),
{
    if s.len() == 0 {
        return false;
    }
    let c0 = s[0];
    if !(('a' <= c0 && c0 <= 'z') || ('A' <= c0 && c0 <= 'Z')) {
        return false;
    }
    let mut i: usize = 0;
    while i < s.len()
        invariant
            i <= s@.len(),
            s@.len() > 0,
            is_alpha(s@[0]),
            forall|j: int| 0 <= j < i ==> is_scheme_char(#[trigger] s@[j]),
        decreases s@.len() - i,
    {
        let c = s[i];
        if c == ':' {
            if i > 0 {
                assert(s@[i as int] == ':');
                return true;
            } else {
                assert(!is_scheme_char(s@[0]));
                return false;
            }
        }
        if !(('a' <= c && c <= 'z') || ('A' <= c && c <= 'Z') || ('0' <= c && c <= '9') || c == '+'
            || c == '-' || c == '.') {
            assert forall|k: int|
                0 < k < s@.len() && #[trigger] s@[k] == ':' implies !(forall|j: int|
                0 <= j < k ==> is_scheme_char(#[trigger] s@[j])) by {
                if k > i {
                    assert(!is_scheme_char(s@[i as int]));
                }
            }
            return false;
        }
        i += 1;
    }
    false
}

/// Returns `true` if `url` has an explicit URI scheme such as `https:`,
/// `mailto:`, or `tel:`. Windows drive letters (`C:\...`) are intentionally not
/// special-cased; Markdown links overwhelmingly use forward-slash relative
/// paths.
pub fn has_scheme(url: &str) -> (r: bool)
    ensures
        r == spec_has_scheme(url@),
{
    let s = chars_of(url);
    scheme_in(&s)
}

/// A URL that points somewhere other than the local filesystem: empty after
/// trimming, a pure `#anchor`, protocol-relative (`//host`), or with a scheme.
pub open spec fn spec_is_external_or_anchor(url: Seq<char>) -> bool {
    let u = trim(url);
    ||| u.len() == 0
    ||| u[0] == '#'
    ||| (u.len() >= 2 && u[0] == '/' && u[1] == '/')
    ||| spec_has_scheme(u)
}

fn external_or_anchor(u: &[char]) -> (r: bool)
    ensures
        r == spec_is_external_or_anchor(u@),
{
    let t = trim_vec(u);
    t.len() == 0 || t[0] == '#' || (t.len() >= 2 && t[0] == '/' && t[1] == '/') || scheme_in(&t)
}

/// Returns `true` for URLs that point somewhere other than the local
/// filesystem (external schemes, protocol-relative URLs, or pure anchors).
pub fn is_external_or_anchor(url: &str) -> (r: bool)
    ensures
        r == spec_is_external_or_anchor(url@),
{
    let s = chars_of(url);
    external_or_anchor(&s)
}

/// The result of percent-decoding `path` (`%XX` escapes become bytes) and
/// reading the bytes as UTF-8, with invalid sequences replaced.
pub uninterp spec fn percent_decoded(path: Seq<char>) -> Seq<char>;

/// Percent-decodes `path` with `percent_encoding::percent_decode_str` and
/// reads the bytes as UTF-8 lossily (`decode_utf8_lossy`). Claimed: the
/// result is [`percent_decoded`] of the path, and a path without `%` decodes
/// to itself.
#[verifier::external_body]
fn decode_percent(path: &str) -> (r: String)
    ensures
        r@ == percent_decoded(path@),
        (forall|i: int| 0 <= i < path@.len() ==> path@[i] != '%') ==> r@ == path@,
{
    percent_encoding::percent_decode_str(path).decode_utf8_lossy().into_owned()
}

/// Index of the first `#` or `?` in `s` (or its length).
pub open spec fn path_end(s: Seq<char>) -> int
    decreases s.len(),
{
    if s.len() == 0 {
        0
    } else if s[0] == '#' || s[0] == '?' {
        0
    } else {
        1 + path_end(s.drop_first())
    }
}

proof fn lemma_path_end(s: Seq<char>)
    ensures
        0 <= path_end(s) <= s.len(),
        forall|i: int| 0 <= i < path_end(s) ==> s[i] != '#' && s[i] != '?',
        path_end(s) < s.len() ==> (s[path_end(s)] == '#' || s[path_end(s)] == '?'),
    decreases s.len(),
{
    if s.len() > 0 && !(s[0] == '#' || s[0] == '?') {
        lemma_path_end(s.drop_first());
        assert forall|i: int| 0 <= i < path_end(s) implies s[i] != '#' && s[i] != '?' by {
            if i > 0 {
                assert(s[i] == s.drop_first()[i - 1]);
            }
        }
    }
}

/// The trimmed destination up to its first `#` or `?`, not yet decoded.
pub open spec fn path_part(url: Seq<char>) -> Seq<char> {
    trim(url).take(path_end(trim(url)))
}

/// The local, filesystem-checkable part of a link destination: `None` for
/// external URLs and anchors; otherwise the trimmed destination up to its
/// first `#` or `?`, percent-decoded, unless that is empty.
pub open spec fn spec_local_target(url: Seq<char>) -> Option<Seq<char>> {
    let path = path_part(url);
    if spec_is_external_or_anchor(url) || path.len() == 0 || percent_decoded(path).len() == 0 {
        None
    } else {
        Some(percent_decoded(path))
    }
}

/// The [`String`] value of an optional string, as characters.
pub open spec fn opt_chars(o: Option<String>) -> Option<Seq<char>> {
    match o {
        Some(s) => Some(s@),
        None => None,
    }
}

/// Extract the local, filesystem-checkable path portion of a link destination.
///
/// Returns [`None`] for external URLs, anchors, and empty destinations. The
/// fragment (`#...`) and query (`?...`) are stripped and the remainder is
/// percent-decoded.
pub fn local_target(url: &str) -> (r: Option<String>)
    ensures
        opt_chars(r) == spec_local_target(url@),
        !spec_is_external_or_anchor(url@) && path_part(url@).len() > 0 && (forall|i: int|
            0 <= i < path_part(url@).len() ==> path_part(url@)[i] != '%') ==> opt_chars(r) == Some(
            path_part(url@),
        ),
{
    let s = chars_of(url);
    if external_or_anchor(&s) {
        return None;
    }
    let u = trim_vec(&s);
    proof {
        lemma_path_end(u@);
    }
    let mut e: usize = 0;
    while e < u.len() && u[e] != '#' && u[e] != '?'
        invariant
            e <= u@.len(),
            e <= path_end(u@),
            0 <= path_end(u@) <= u@.len(),
            forall|i: int| 0 <= i < path_end(u@) ==> u@[i] != '#' && u@[i] != '?',
            path_end(u@) < u@.len() ==> (u@[path_end(u@)] == '#' || u@[path_end(u@)] == '?'),
        decreases u@.len() - e,
    {
        e += 1;
    }
    assert(e == path_end(u@));
    if e == 0 {
        return None;
    }
    let piece = slice_chars(&u, 0, e);
    assert(piece@ =~= u@.take(e as int));
    let path = string_of(&piece);
    let decoded = decode_percent(path.as_str());
    let d = chars_of(decoded.as_str());
    if d.len() == 0 {
        None
    } else {
        Some(decoded)
    }
}

} // verus!
