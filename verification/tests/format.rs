use rowfit::classes::{substep, MAX_STEP_E, MIN_STEP_E};
use rowfit::compressor::buffer_capacity;
use rowfit::decoder::{capped_step, decode_stream};
use rowfit::encoder::{decode, encode, EncodedPoint};
use rowfit::preprocess::preprocess;

#[test]
fn encode_writes_low_byte_first_with_the_class_in_its_low_bits() {
    let mut buffer = vec![0xeeu8; 6];
    // 1.0 in half precision
    let next = encode(0x3c00, 3, &mut buffer, 2);
    assert_eq!(next, 4);
    assert_eq!(buffer, vec![0xee, 0xee, 0x03, 0x3c, 0xee, 0xee]);
    let next = encode(0xffff, 0, &mut buffer, 0);
    assert_eq!(next, 2);
    assert_eq!(buffer, vec![0xf8, 0xff, 0x03, 0x3c, 0xee, 0xee]);
    let next = encode(0x1234, 7, &mut buffer, 4);
    assert_eq!(next, 6);
    assert_eq!(buffer, vec![0xf8, 0xff, 0x03, 0x3c, 0x37, 0x12]);
}

#[test]
fn encode_matches_the_bytes_of_the_half_precision_value() {
    for value in [0.0f32, 1.0, -1.0, 255.0, 0.1, -73.25, 1024.5] {
        for class in 0..8u8 {
            let half = half::f16::from_f32(value);
            let bytes = half.to_le_bytes();
            let mut buffer = vec![0u8; 2];
            encode(half.to_bits(), class, &mut buffer, 0);
            assert_eq!(buffer[0], (bytes[0] & !0b111) | class);
            assert_eq!(buffer[1], bytes[1]);
        }
    }
}

#[test]
fn decode_gives_back_class_and_masked_value() {
    for bits in [0x0000u16, 0x3c00, 0xffff, 0x1234, 0x8007, 0x7bff] {
        for class in 0..8u8 {
            let mut buffer = vec![0u8; 4];
            encode(bits, class, &mut buffer, 2);
            assert_eq!(decode(&buffer, 2), EncodedPoint { half_bits: bits & 0xfff8, class });
        }
    }
}

#[test]
fn masking_costs_at_most_three_mantissa_bits() {
    for value in [1.0f32, 3.14159, 100.7, -255.0, 0.007] {
        let bits = half::f16::from_f32(value).to_bits();
        let mut buffer = vec![0u8; 2];
        encode(bits, 5, &mut buffer, 0);
        let read = half::f16::from_bits(decode(&buffer, 0).half_bits).to_f32();
        assert!((read - value).abs() <= value.abs() * (1.0 / 128.0 + 1.0 / 1024.0));
    }
}

#[test]
fn class_constants() {
    assert_eq!(MIN_STEP_E, 0);
    assert_eq!(MAX_STEP_E, 7);
}

#[test]
fn substep_table() {
    let strides: Vec<usize> = (0..8u8).map(substep).collect();
    assert_eq!(strides, vec![1, 1, 2, 4, 5, 8, 11, 16]);
}

#[test]
fn buffer_capacity_is_two_bytes_a_step_and_two() {
    assert_eq!(buffer_capacity(500, 2), Some(502));
    assert_eq!(buffer_capacity(10, 2), Some(12));
    assert_eq!(buffer_capacity(1, 1), Some(4));
    assert_eq!(buffer_capacity(7, 3), Some(6));
    assert_eq!(buffer_capacity(0, 5), Some(2));
    assert_eq!(buffer_capacity(usize::MAX, 1), None);
    assert_eq!(buffer_capacity(usize::MAX, 2), None);
    assert_eq!(buffer_capacity(usize::MAX, 3), Some(usize::MAX / 3 * 2 + 2));
}

#[test]
fn capped_step_doubles_from_class_to_class_up_to_what_is_left() {
    let steps: Vec<usize> = (0..8u8).map(|class| capped_step(2, class, 1000)).collect();
    assert_eq!(steps, vec![2, 2, 4, 8, 16, 32, 64, 128]);
    assert_eq!(capped_step(2, 7, 100), 100);
    assert_eq!(capped_step(3, 4, 23), 23);
    assert_eq!(capped_step(3, 4, 24), 24);
    assert_eq!(capped_step(3, 4, 25), 24);
    assert_eq!(capped_step(5, 0, 3), 3);
    assert_eq!(capped_step(usize::MAX, 7, usize::MAX), usize::MAX);
}

#[test]
fn decode_stream_places_points_by_their_classes() {
    // classes 0 (anchor), 2, 0, 1, 7 in a row of 20 samples, smallest step 2
    let mut stream = vec![0u8; 10];
    let mut at = 0;
    for (bits, class) in [(0x3c00u16, 0u8), (0x4000, 2), (0x4200, 0), (0x4400, 1), (0x4500, 7)] {
        at = encode(bits, class, &mut stream, at);
    }
    let placed = decode_stream(&stream, 5, 2, 20);
    let places: Vec<(usize, usize, usize)> =
        placed.iter().map(|p| (p.start, p.index, p.length)).collect();
    assert_eq!(places, vec![(0, 0, 0), (0, 6, 4), (4, 6, 2), (6, 10, 2), (8, 19, 11)]);
    let classes: Vec<u8> = placed.iter().map(|p| p.class).collect();
    assert_eq!(classes, vec![0, 2, 0, 1, 7]);
    assert_eq!(placed[3].half_bits, 0x4400);
    assert!(decode_stream(&stream, 0, 2, 20).is_empty());
}

#[test]
fn preprocess_clamps_then_subtracts_the_reference() {
    let raw = vec![100i16, 485, 2000, 3500, 4000, -5];
    let key = vec![485i16, 485, 1000, 500, 0, 10, 77];
    let out = preprocess(&raw, &key, 485, 3500);
    assert_eq!(out, vec![0, 0, 1000, 3000, 3500, 475]);
}

#[test]
fn preprocess_does_not_wrap_at_the_ends_of_the_range() {
    let out = preprocess(&vec![i16::MAX, i16::MIN], &vec![i16::MIN, i16::MAX], i16::MIN, i16::MAX);
    assert_eq!(out, vec![65535, -65535]);
    assert!(preprocess(&vec![], &vec![], 0, 0).is_empty());
}
