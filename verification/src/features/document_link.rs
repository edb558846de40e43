//! Clickable destinations: which link, image and definition destinations
//! become document links, and what each opens (an external URL as written,
//! or the local file it resolves to). Whether that file exists, and turning
//! the target into a URI, is left to the caller.

use vstd::prelude::*;
use crate::analysis::{Analysis, LinkTargetV};
use crate::features::diagnostics::opt_str;
use crate::features::navigation::spec_resolve_path;
use crate::links::spec_is_external_or_anchor;
use crate::text::trim;

verus! {

/// What a clickable destination opens, with the byte span it covers.
pub enum LinkPlan {
    /// An external URL, opened as written (trimmed).
    External { url: String, start_byte: usize, end_byte: usize },
    /// A local file, opened when it exists.
    Local { path: String, start_byte: usize, end_byte: usize },
}

pub enum LinkPlanV {
    External { url: Seq<char>, start_byte: usize, end_byte: usize },
    Local { path: Seq<char>, start_byte: usize, end_byte: usize },
}

impl View for LinkPlan {
    type V = LinkPlanV;

    open spec fn view(&self) -> LinkPlanV {
        match self {
            LinkPlan::External { url, start_byte, end_byte } => LinkPlanV::External {
                url: url@,
                start_byte: *start_byte,
                end_byte: *end_byte,
            },
            LinkPlan::Local { path, start_byte, end_byte } => LinkPlanV::Local {
                path: path@,
                start_byte: *start_byte,
                end_byte: *end_byte,
            },
        }
    }
}

/// The plan for destination `t`: none for an empty or pure `#anchor`
/// destination; an external URL as written; otherwise the path it resolves
/// to (none when it has no base).
pub open spec fn plan_of(t: LinkTargetV, doc_dir: Option<Seq<char>>, root: Option<Seq<char>>) -> Option<
    LinkPlanV,
> {
    let u = trim(t.url);
    if u.len() == 0 || u[0] == '#' {
        None
    } else if spec_is_external_or_anchor(u) {
        Some(LinkPlanV::External { url: u, start_byte: t.start_byte, end_byte: t.end_byte })
    } else {
        match spec_resolve_path(u, doc_dir, root) {
            None => None,
            Some(p) => Some(
                LinkPlanV::Local { path: p, start_byte: t.start_byte, end_byte: t.end_byte },
            ),
        }
    }
}

/// The plans of the first `n` destinations, in document order.
pub open spec fn plans_upto(
    ts: Seq<LinkTargetV>,
    doc_dir: Option<Seq<char>>,
    root: Option<Seq<char>>,
    n: int,
) -> Seq<LinkPlanV>
    decreases n,
{
    if n <= 0 {
        Seq::empty()
    } else {
        let prev = plans_upto(ts, doc_dir, root, n - 1);
        match plan_of(ts[n - 1], doc_dir, root) {
            Some(p) => prev.push(p),
            None => prev,
        }
    }
}

/// The views of a vector of plans.
pub open spec fn plans_view(v: Seq<LinkPlan>) -> Seq<LinkPlanV> {
    Seq::new(v.len(), |i: int| v[i]@)
}

/// The clickable destinations of the document, in document order (see
/// [`plan_of`]). `doc_dir` is the document's directory and `root` the
/// workspace root, when known.
pub fn link_plans(analysis: &Analysis, doc_dir: Option<&str>, root: Option<&str>) -> (r: Vec<
    LinkPlan,
>)
    ensures
        plans_view(r@) == plans_upto(
            analysis@.link_targets,
            opt_str(doc_dir),
            opt_str(root),
            analysis@.link_targets.len() as int,
        ),
{
    let ts = &analysis.link_targets;
    let mut out: Vec<LinkPlan> = Vec::new();
    let mut k: usize = 0;
    while k < ts.len()
        invariant
            k <= ts@.len(),
            ts@ == analysis.link_targets@,
            plans_view(out@) == plans_upto(analysis@.link_targets, opt_str(doc_dir), opt_str(root), k as int),
        decreases ts@.len() - k,
    {
        let t = &ts[k];
        assert(analysis@.link_targets[k as int] == t@);
        let uc = crate::text::chars_of(t.url.as_str());
        let u = crate::text::trim_vec(uc.as_slice());
        if u.len() == 0 || u[0] == '#' {
        } else {
            let us = crate::text::string_of(u.as_slice());
            if crate::links::is_external_or_anchor(us.as_str()) {
                out.push(LinkPlan::External { url: us, start_byte: t.start_byte, end_byte: t.end_byte });
                assert(plans_view(out@) =~= plans_upto(analysis@.link_targets, opt_str(doc_dir), opt_str(root), k as int).push(
                    LinkPlanV::External { url: u@, start_byte: t.start_byte, end_byte: t.end_byte },
                ));
            } else {
                match crate::features::navigation::resolve_path(us.as_str(), doc_dir, root) {
                    Some(p) => {
                        let ghost pv = p@;
                        out.push(LinkPlan::Local { path: p, start_byte: t.start_byte, end_byte: t.end_byte });
                        assert(plans_view(out@) =~= plans_upto(analysis@.link_targets, opt_str(doc_dir), opt_str(root), k as int).push(
                            LinkPlanV::Local { path: pv, start_byte: t.start_byte, end_byte: t.end_byte },
                        ));
                    },
                    None => {},
                }
            }
        }
        k += 1;
    }
    out
}

} // verus!
