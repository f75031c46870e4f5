//! Length classes and the table of checkpoint strides.

use vstd::prelude::*;

verus! {

/// The class of a point that closes a segment of minimum length, and of the anchor.
pub const MIN_STEP_E: u8 = 0;

/// The highest class: a segment that grew as far as it may, or the forced last point.
pub const MAX_STEP_E: u8 = 7;

/// The stride between the checkpoints of a candidate segment of the given class.
pub open spec fn substep_of(class: int) -> int {
    if class == 2 {
        2
    } else if class == 3 {
        4
    } else if class == 4 {
        5
    } else if class == 5 {
        8
    } else if class == 6 {
        11
    } else if class == 7 {
        16
    } else {
        1
    }
}

/// The stride between the checkpoints of a candidate segment of class `class`.
pub fn substep(class: u8) -> (stride: usize)
    requires
        class <= MAX_STEP_E,
    ensures
        stride == substep_of(class as int),
        1 <= stride <= 16,
{
    if class == 2 {
        2
    } else if class == 3 {
        4
    } else if class == 4 {
        5
    } else if class == 5 {
        8
    } else if class == 6 {
        11
    } else if class == 7 {
        16
    } else {
        1
    }
}

} // verus!
