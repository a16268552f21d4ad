//! Helpers for the lines that a caller prints while a scan runs.

use vstd::prelude::*;
use vstd::string::StringExecFns;

verus! {

/// The marker that is repeated once for each level of depth.
pub const INDENT_MARKER: &'static str = "--|";

/// The indent of a line at `depth`: the marker, `depth` times.
pub open spec fn indent_of(depth: nat) -> Seq<char>
    decreases depth,
{
    if depth == 0 {
        Seq::empty()
    } else {
        indent_of((depth - 1) as nat) + INDENT_MARKER@
    }
}

/// Builds the indent of a line at `depth`.
pub fn indent(depth: usize) -> (text: String)
    ensures
        text@ == indent_of(depth as nat),
{
    let mut text = String::new();
    let mut level: usize = 0;
    while level < depth
        invariant
            level <= depth,
            text@ == indent_of(level as nat),
        decreases depth - level,
    {
        text.append(INDENT_MARKER);
        level = level + 1;
    }
    text
}

} // verus!
