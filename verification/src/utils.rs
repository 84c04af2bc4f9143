use vstd::prelude::*;

verus! {

use crate::text::str_eq;

/// The reserved marker that opens every unsolicited event frame.
pub open spec fn spec_event_marker() -> Seq<char> {
    "#M"@
}

/// Whether a frame's tag field is the reserved event marker.
pub fn is_event(part: &str) -> (r: bool)
    ensures
        r == (part@ == spec_event_marker()),
{
    str_eq(part, "#M")
}

} // verus!
