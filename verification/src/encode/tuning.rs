//! Encoder constants. They are fixed: a payload must not depend on where it
//! was made.

use vstd::prelude::*;

verus! {

/// Whether unsigned BC4 and BC5 blocks get the wide endpoint sweep. It does not
/// repay its cost.
pub const BC45_UNSIGNED_WINDOW: bool = false;

/// Whether signed BC4 and BC5 blocks get the wide endpoint sweep. It costs
/// several times the encode for little.
pub const BC45_SIGNED_WINDOW: bool = false;

/// Whether blocks of a signedness get the wide endpoint sweep.
pub open spec fn sweeps(signed: bool) -> bool {
    if signed {
        BC45_SIGNED_WINDOW
    } else {
        BC45_UNSIGNED_WINDOW
    }
}

/// No block gets the wide endpoint sweep.
pub proof fn law_no_block_is_swept(signed: bool)
    ensures
        !sweeps(signed),
{
}

/// Whether blocks of a signedness get the wide endpoint sweep.
pub fn window_enabled(signed: bool) -> (r: bool)
    ensures
        r == sweeps(signed),
{
    if signed {
        BC45_SIGNED_WINDOW
    } else {
        BC45_UNSIGNED_WINDOW
    }
}

} // verus!
