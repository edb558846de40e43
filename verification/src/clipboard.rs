//! Which clipboard tool to try next. Copying goes through the first tool
//! that succeeds, in the order `wl-copy` (Wayland), `xclip` and `xsel`
//! (X11), then `pbcopy` (macOS); running the tools is left to the caller.

use vstd::prelude::*;

verus! {

/// The number of clipboard tools.
pub const TOOL_COUNT: usize = 4;

/// The program of tool `i`, in the order they are tried.
pub open spec fn spec_tool_name(i: int) -> Seq<char> {
    if i == 0 {
        "wl-copy"@
    } else if i == 1 {
        "xclip"@
    } else if i == 2 {
        "xsel"@
    } else {
        "pbcopy"@
    }
}

/// The arguments of tool `i`.
pub open spec fn spec_tool_args(i: int) -> Seq<Seq<char>> {
    if i == 1 {
        seq!["-selection"@, "clipboard"@]
    } else if i == 2 {
        seq!["--clipboard"@, "--input"@]
    } else {
        Seq::empty()
    }
}

/// The program of tool `i` (see [`spec_tool_name`]).
pub fn tool_name(i: usize) -> (r: String)
    requires
        i < TOOL_COUNT,
    ensures
        r@ == spec_tool_name(i as int),
{
    let mut r = String::new();
    let name = if i == 0 {
        "wl-copy"
    } else if i == 1 {
        "xclip"
    } else if i == 2 {
        "xsel"
    } else {
        "pbcopy"
    };
    crate::text::extend_string(&mut r, name);
    r
}

/// The arguments of tool `i` (see [`spec_tool_args`]).
pub fn tool_args(i: usize) -> (r: Vec<String>)
    requires
        i < TOOL_COUNT,
    ensures
        r@.len() == spec_tool_args(i as int).len(),
        forall|k: int| 0 <= k < r@.len() ==> (#[trigger] r@[k])@ == spec_tool_args(i as int)[k],
{
    let mut r: Vec<String> = Vec::new();
    if i == 1 || i == 2 {
        let mut a = String::new();
        let mut b = String::new();
        if i == 1 {
            crate::text::extend_string(&mut a, "-selection");
            crate::text::extend_string(&mut b, "clipboard");
        } else {
            crate::text::extend_string(&mut a, "--clipboard");
            crate::text::extend_string(&mut b, "--input");
        }
        r.push(a);
        r.push(b);
    }
    r
}

/// What to do after trying a clipboard tool.
pub enum CopyStep {
    /// Try tool `i` next.
    Try(usize),
    /// Tool `i` copied the text.
    Copied(usize),
    /// Every tool failed; the message names the last one and its error.
    Failed(String),
}

/// The step after tool `tried` came back with `last`: the first success
/// wins; a failure moves on to the next tool, and after the last one the
/// copy fails with that tool's name and error.
pub fn copy_next(tried: usize, last: Result<(), String>) -> (r: CopyStep)
    requires
        tried < TOOL_COUNT,
    ensures
        last is Ok ==> r == CopyStep::Copied(tried),
        last is Err && tried + 1 < TOOL_COUNT ==> r == CopyStep::Try((tried + 1) as usize),
        last matches Err(e) ==> (tried + 1 == TOOL_COUNT ==> (r matches CopyStep::Failed(m)
            && m@ == spec_tool_name(tried as int) + ": "@ + e@ && m@.len() > 0)),
{
    match last {
        Ok(()) => CopyStep::Copied(tried),
        Err(e) => {
            if tried + 1 < TOOL_COUNT {
                CopyStep::Try(tried + 1)
            } else {
                let mut m = tool_name(tried);
                crate::text::extend_string(&mut m, ": ");
                crate::text::extend_string(&mut m, e.as_str());
                proof {
                    reveal_strlit("pbcopy");
                }
                CopyStep::Failed(m)
            }
        },
    }
}

} // verus!
