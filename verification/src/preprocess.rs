//! The integer part of the preparation of a raw row: each sample is clamped
//! to the valid range and taken relative to the reference row. The caller
//! scales the differences into the domain of the samples.

use vstd::prelude::*;

verus! {

/// `value`, held to the range from `low` to `high`.
pub open spec fn clamped(value: int, low: int, high: int) -> int {
    if value < low {
        low
    } else if value > high {
        high
    } else {
        value
    }
}

/// The difference that stands for raw sample `raw` against reference sample `key`.
pub open spec fn difference(raw: i16, key: i16, low: i16, high: i16) -> int {
    clamped(raw as int, low as int, high as int) - key
}

/// Clamps each raw sample to the range from `low` to `high` and subtracts
/// the reference sample at the same index.
pub fn preprocess(row_in: &Vec<i16>, row_key: &Vec<i16>, low: i16, high: i16) -> (row_out: Vec<i32>)
    requires
        low <= high,
        row_in.len() <= row_key.len(),
    ensures
        row_out.len() == row_in.len(),
        forall|i: int|
            0 <= i < row_in.len() ==> #[trigger] row_out[i] == difference(
                row_in[i],
                row_key[i],
                low,
                high,
            ),
{
    let mut row_out: Vec<i32> = Vec::with_capacity(row_in.len());
    let mut i: usize = 0;
    while i < row_in.len()
        invariant
            i <= row_in.len() <= row_key.len(),
            low <= high,
            row_out.len() == i,
            forall|k: int|
                0 <= k < i ==> #[trigger] row_out[k] == difference(row_in[k], row_key[k], low, high),
        decreases row_in.len() - i,
    {
        let raw: i16 = row_in[i];
        let held: i16 = if raw < low {
            low
        } else if raw > high {
            high
        } else {
            raw
        };
        row_out.push(held as i32 - row_key[i] as i32);
        i = i + 1;
    }
    row_out
}

} // verus!
