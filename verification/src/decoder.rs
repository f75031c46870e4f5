//! Reading a stream back: each point with its class, the bits of its value,
//! and its place in the row. The classes alone say where the points lie, so
//! the stream needs no lengths beside them.

use vstd::prelude::*;
use crate::classes::MAX_STEP_E;
use crate::encoder::{decode, point_of, EncodedPoint};
use crate::preservation::{lemma_nominal_step, lemma_nominal_step_values};
use crate::state::{least, nominal_step};

verus! {

/// A point of the stream, placed in the row.
#[derive(Clone, Copy, Debug, PartialEq, Eq, Structural)]
pub struct Placed {
    /// The half-precision bits of the value, the three lowest cleared.
    pub half_bits: u16,
    /// The length class.
    pub class: u8,
    /// The index at which the point's segment starts.
    pub start: usize,
    /// The index of the sample that the value was taken from.
    pub index: usize,
    /// The number of samples by which the point moves the start of the next segment.
    pub length: usize,
}

/// The mathematical view of a placed point.
pub ghost struct Placement {
    /// The half-precision bits of the value, the three lowest cleared.
    pub half_bits: u16,
    /// The length class.
    pub class: int,
    /// The index at which the point's segment starts.
    pub start: int,
    /// The index of the sample that the value was taken from.
    pub index: int,
    /// The number of samples by which the point moves the start of the next segment.
    pub length: int,
}

impl View for Placed {
    type V = Placement;

    open spec fn view(&self) -> Placement {
        Placement {
            half_bits: self.half_bits,
            class: self.class as int,
            start: self.start as int,
            index: self.index as int,
            length: self.length as int,
        }
    }
}

/// The distance from the start of a segment to the sample that a point of
/// class `class` holds, where no row boundary cuts it short: one smallest
/// step for class 0, else the nominal step and one smallest step.
pub open spec fn nominal_reach(min_step: int, class: int) -> int {
    if class == 0 {
        min_step
    } else {
        nominal_step(min_step, class) + min_step
    }
}

/// The place of point `j` of the stream in a row whose last sample has index
/// `row_end`. The first point holds the first sample. Each further point's
/// segment starts where the point before it moved the start to; its length
/// and its sample follow from its class, cut to the row.
pub open spec fn placement(stream: Seq<u8>, min_step: int, row_end: int, j: int) -> Placement
    decreases j,
{
    let point = point_of(stream[2 * j], stream[2 * j + 1]);
    if j <= 0 {
        Placement {
            half_bits: point.half_bits,
            class: point.class as int,
            start: 0,
            index: 0,
            length: 0,
        }
    } else {
        let before = placement(stream, min_step, row_end, j - 1);
        let start = before.start + before.length;
        let left = row_end - start;
        Placement {
            half_bits: point.half_bits,
            class: point.class as int,
            start,
            index: start + least(nominal_reach(min_step, point.class as int), left),
            length: least(nominal_step(min_step, point.class as int), left),
        }
    }
}

/// The nominal step of class `class`, cut to `left`.
pub fn capped_step(min_step: usize, class: u8, left: usize) -> (step: usize)
    requires
        min_step >= 1,
        class <= MAX_STEP_E,
    ensures
        step == least(nominal_step(min_step as int, class as int), left as int),
{
    let mut step: usize = if min_step > left {
        left
    } else {
        min_step
    };
    let mut reached: u8 = 1;
    proof {
        lemma_nominal_step_values(min_step as int);
    }
    while reached < class
        invariant
            min_step >= 1,
            1 <= reached <= 7,
            class <= MAX_STEP_E,
            class >= 1 ==> reached <= class,
            class == 0 ==> reached == 1,
            step == least(nominal_step(min_step as int, reached as int), left as int),
        decreases class - reached,
    {
        proof {
            lemma_nominal_step(min_step as int, reached as int);
        }
        step = if step > left - step {
            left
        } else {
            2 * step
        };
        reached = reached + 1;
    }
    proof {
        lemma_nominal_step_values(min_step as int);
    }
    step
}

/// Reads the first `points` points of the stream and places them in a row
/// of `row_len` samples.
pub fn decode_stream(
    compressed: &Vec<u8>,
    points: usize,
    min_segment_length: usize,
    row_len: usize,
) -> (placed: Vec<Placed>)
    requires
        2 * points <= compressed.len(),
        min_segment_length >= 1,
        row_len >= 1,
    ensures
        placed.len() == points,
        forall|j: int|
            0 <= j < points ==> (#[trigger] placed[j])@ == placement(
                compressed@,
                min_segment_length as int,
                row_len - 1,
                j,
            ),
{
    let row_end: usize = row_len - 1;
    let mut placed: Vec<Placed> = Vec::with_capacity(points);
    let mut start: usize = 0;
    let mut j: usize = 0;
    while j < points
        invariant
            j <= points,
            2 * points <= compressed.len(),
            min_segment_length >= 1,
            row_end == row_len - 1,
            placed.len() == j,
            start <= row_end,
            j >= 1 ==> start == placed[j - 1].start + placed[j - 1].length,
            forall|k: int|
                0 <= k < j ==> (#[trigger] placed[k])@ == placement(
                    compressed@,
                    min_segment_length as int,
                    row_end as int,
                    k,
                ),
        decreases points - j,
    {
        let point: EncodedPoint = decode(compressed, 2 * j);
        let next: Placed = if j == 0 {
            Placed { half_bits: point.half_bits, class: point.class, start: 0, index: 0, length: 0 }
        } else {
            let left: usize = row_end - start;
            let length: usize = capped_step(min_segment_length, point.class, left);
            let reach: usize = if point.class == 0 {
                if min_segment_length > left {
                    left
                } else {
                    min_segment_length
                }
            } else if min_segment_length > left - length {
                left
            } else {
                length + min_segment_length
            };
            proof {
                lemma_nominal_step_values(min_segment_length as int);
                if point.class >= 1 {
                    lemma_nominal_step(min_segment_length as int, point.class as int);
                }
            }
            Placed {
                half_bits: point.half_bits,
                class: point.class,
                start,
                index: start + reach,
                length,
            }
        };
        placed.push(next);
        start = next.start + next.length;
        j = j + 1;
    }
    placed
}

} // verus!
