//! GICv3 interrupt controller: what the kernel decides about acknowledged
//! interrupt IDs (the controller's registers are programmed outside).
use vstd::prelude::*;

verus! {

/// INTIDs from this value up, as returned by an acknowledge, are spurious
/// (no real interrupt).
pub const SPURIOUS_MIN: u32 = 1020;

/// Whether `intid` (as returned by an acknowledge) is spurious.
pub fn is_spurious(intid: u32) -> (r: bool)
    ensures
        r == (intid >= SPURIOUS_MIN),
{
    intid >= SPURIOUS_MIN
}

} // verus!
