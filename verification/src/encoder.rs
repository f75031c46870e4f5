//! The byte layout of one encoded point.
//!
//! A point takes two bytes, low byte first. The low byte's three lowest bits
//! hold the length class; they replace the three lowest mantissa bits of the
//! half-precision value, which are lost.

use vstd::prelude::*;
use crate::classes::MAX_STEP_E;

verus! {

/// What is read back from the two bytes of a point.
#[derive(Clone, Copy, Debug, PartialEq, Eq, Structural)]
pub struct EncodedPoint {
    /// The half-precision bit pattern, with its three lowest bits cleared.
    pub half_bits: u16,
    /// The length class, 0 to 7.
    pub class: u8,
}

/// The low byte of a point: the value's low byte with the class in its three lowest bits.
pub open spec fn tagged_low(half_bits: u16, class: u8) -> u8 {
    (((half_bits & 0xff) as u8) & 0xf8u8) | class
}

/// The high byte of a point: the value's high byte.
pub open spec fn high_byte(half_bits: u16) -> u8 {
    (half_bits >> 8) as u8
}

/// The half-precision bit pattern that survives the tagging.
pub open spec fn masked(half_bits: u16) -> u16 {
    half_bits & 0xfff8u16
}

/// The point that two bytes stand for.
pub open spec fn point_of(low: u8, high: u8) -> EncodedPoint {
    EncodedPoint { half_bits: ((high as u16) << 8) | ((low & 0xf8u8) as u16), class: low & 0x07u8 }
}

/// Writes the point for `half_bits` and `class` at `index`, low byte first,
/// and returns the offset after it.
pub fn encode(half_bits: u16, class: u8, compressed: &mut Vec<u8>, index: usize) -> (next: usize)
    requires
        class <= MAX_STEP_E,
        index + 2 <= old(compressed).len(),
    ensures
        next == index + 2,
        final(compressed)@ == old(compressed)@.update(index as int, tagged_low(half_bits, class)).update(
            index + 1,
            high_byte(half_bits),
        ),
{
    let low: u8 = (half_bits & 0xff) as u8;
    let high: u8 = (half_bits >> 8) as u8;
    compressed.set(index, (low & 0xf8u8) | class);
    compressed.set(index + 1, high);
    index + 2
}

/// Reads the point at `index`.
pub fn decode(compressed: &Vec<u8>, index: usize) -> (point: EncodedPoint)
    requires
        index + 2 <= compressed.len(),
    ensures
        point == point_of(compressed@[index as int], compressed@[index + 1]),
        point.class <= MAX_STEP_E,
{
    let low: u8 = compressed[index];
    let high: u8 = compressed[index + 1];
    assert(low & 0x07u8 <= 7) by (bit_vector);
    EncodedPoint { half_bits: ((high as u16) << 8) | ((low & 0xf8u8) as u16), class: low & 0x07u8 }
}

/// Reading a point back gives the class that was written and the value
/// without its three lowest bits.
pub proof fn lemma_decode_of_encode(half_bits: u16, class: u8)
    requires
        class <= MAX_STEP_E,
    ensures
        point_of(tagged_low(half_bits, class), high_byte(half_bits)) == (EncodedPoint {
            half_bits: masked(half_bits),
            class,
        }),
{
    let low = tagged_low(half_bits, class);
    let high = high_byte(half_bits);
    assert(low & 0x07u8 == class) by (bit_vector)
        requires
            class <= 7,
            low == (((half_bits & 0xff) as u8) & 0xf8u8) | class,
    ;
    assert(((high as u16) << 8) | ((low & 0xf8u8) as u16) == half_bits & 0xfff8u16) by (bit_vector)
        requires
            class <= 7,
            low == (((half_bits & 0xff) as u8) & 0xf8u8) | class,
            high == (half_bits >> 8) as u8,
    ;
}

} // verus!
