//! Hover over a destination: the destination as written and, for a local
//! one, the path it resolves to and whether that file exists. Looking the
//! file up is left to the caller.

use vstd::prelude::*;
use crate::analysis::Analysis;
use crate::features::diagnostics::opt_str;
use crate::features::navigation::spec_resolve_path;
use crate::links::spec_local_target;

verus! {

/// What a hover over a destination shows: the destination as written, its
/// byte span, and for a local destination with a base, the path it resolves
/// to.
pub struct HoverTarget {
    pub url: String,
    pub start_byte: usize,
    pub end_byte: usize,
    pub local: bool,
    pub resolved: Option<String>,
}

/// The first destination (`k` on) whose span holds `byte`.
pub open spec fn hovered_from(a: crate::analysis::AnalysisV, byte: usize, k: int) -> Option<int>
    decreases a.link_targets.len() - k,
{
    if k < 0 || k >= a.link_targets.len() {
        None
    } else if a.link_targets[k].start_byte <= byte < a.link_targets[k].end_byte {
        Some(k)
    } else {
        hovered_from(a, byte, k + 1)
    }
}

/// The destination hovered at `byte`: the first whose span holds it, with
/// whether it is local and the path it resolves to.
pub fn hover_target(analysis: &Analysis, byte: usize, doc_dir: Option<&str>, root: Option<&str>) -> (r:
    Option<HoverTarget>)
    ensures
        match hovered_from(analysis@, byte, 0) {
            None => r is None,
            Some(k) => {
                let t = analysis@.link_targets[k];
                r matches Some(h) && h.url@ == t.url && h.start_byte == t.start_byte && h.end_byte
                    == t.end_byte && h.local == spec_local_target(t.url) is Some
                    && crate::links::opt_chars(h.resolved) == spec_resolve_path(
                    t.url,
                    opt_str(doc_dir),
                    opt_str(root),
                )
            },
        },
{
    let ts = &analysis.link_targets;
    let mut k: usize = 0;
    while k < ts.len()
        invariant
            k <= ts@.len(),
            ts@ == analysis.link_targets@,
            hovered_from(analysis@, byte, k as int) == hovered_from(analysis@, byte, 0),
        decreases ts@.len() - k,
    {
        let t = &ts[k];
        assert(analysis@.link_targets[k as int] == t@);
        if t.start_byte <= byte && byte < t.end_byte {
            let local = crate::links::local_target(t.url.as_str()).is_some();
            let resolved = crate::features::navigation::resolve_path(t.url.as_str(), doc_dir, root);
            let mut url = String::new();
            crate::text::extend_string(&mut url, t.url.as_str());
            return Some(HoverTarget { url, start_byte: t.start_byte, end_byte: t.end_byte, local, resolved });
        }
        k += 1;
    }
    None
}

/// The hover text: for a local destination with a resolved path, the
/// destination in code, the path and `exists` or `**missing**`; for a local
/// one without, the destination in code; for an external one, a link to it.
pub open spec fn hover_text_of(url: Seq<char>, local: bool, resolved: Option<Seq<char>>, exists: bool) -> Seq<
    char,
> {
    if local {
        match resolved {
            Some(p) => "`"@ + url + "`\n\n"@ + p + " — "@ + (if exists {
                "exists"@
            } else {
                "**missing**"@
            }),
            None => "`"@ + url + "`"@,
        }
    } else {
        "["@ + url + "]("@ + url + ")"@
    }
}

/// The hover text (see [`hover_text_of`]); `exists` tells whether the
/// resolved file exists.
pub fn hover_text(target: &HoverTarget, exists: bool) -> (r: String)
    ensures
        r@ == hover_text_of(target.url@, target.local, crate::links::opt_chars(target.resolved), exists),
{
    let mut out = String::new();
    if target.local {
        match &target.resolved {
            Some(p) => {
                crate::text::extend_string(&mut out, "`");
                crate::text::extend_string(&mut out, target.url.as_str());
                crate::text::extend_string(&mut out, "`\n\n");
                crate::text::extend_string(&mut out, p.as_str());
                crate::text::extend_string(&mut out, " — ");
                if exists {
                    crate::text::extend_string(&mut out, "exists");
                } else {
                    crate::text::extend_string(&mut out, "**missing**");
                }
            },
            None => {
                crate::text::extend_string(&mut out, "`");
                crate::text::extend_string(&mut out, target.url.as_str());
                crate::text::extend_string(&mut out, "`");
            },
        }
    } else {
        crate::text::extend_string(&mut out, "[");
        crate::text::extend_string(&mut out, target.url.as_str());
        crate::text::extend_string(&mut out, "](");
        crate::text::extend_string(&mut out, target.url.as_str());
        crate::text::extend_string(&mut out, ")");
    }
    out
}

} // verus!
