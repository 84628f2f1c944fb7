//! The decision core of a terminal beeper: how many bell characters one
//! byte of input calls for.

use vstd::prelude::*;

verus! {

/// The number of bells for one input byte: its digit value for an ASCII
/// digit, none for anything else.
pub open spec fn beeps_of(b: u8) -> nat {
    if 0x30 <= b <= 0x39 {
        (b - 0x30) as nat
    } else {
        0
    }
}

/// Decide how many bells to ring for one input byte.
pub fn beep_count(b: u8) -> (r: u8)
    ensures
        r as nat == beeps_of(b),
{
    if b >= 0x30 && b <= 0x39 {
        b - 0x30
    } else {
        0
    }
}

} // verus!
