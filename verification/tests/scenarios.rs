use rowfit::compressor::{buffer_capacity, Compressor, Refusal};
use rowfit::decoder::decode_stream;
use rowfit::encoder::decode;
use rowfit::pass::compress as compress_asking;
use rowfit::state::{Action, Reply, Stage};
use std::cell::Cell;

/// What a pass over a row gave.
struct Outcome {
    stream: Vec<u8>,
    points: usize,
    emitted: Vec<(usize, u8)>,
    verdicts: Vec<(usize, usize, bool)>,
    reads: u128,
    replies: usize,
}

/// Runs a pass over `row`, doing the arithmetic on the samples that the pass asks for.
fn compress_into(row: &[f32], tolerance: f32, min_step: usize, buffer: Vec<u8>) -> Outcome {
    let mut pass = Compressor::new(min_step, row.len(), buffer);
    let mut emitted = Vec::new();
    let mut verdicts = Vec::new();
    let mut replies = 0;
    let mut fit = 0f32;
    let mut dy = 0f32;
    loop {
        match pass.action() {
            Action::Done => break,
            Action::Encode { index, class } => {
                emitted.push((index, class));
                pass.supply(half::f16::from_f32(row[index]).to_bits());
            }
            Action::Midpoint { from, mid, end, length, substep } => {
                let y_start = row[from];
                let reached = y_start + (row[end] - y_start) / (length as f32) * (substep as f32);
                let accepted = (reached - row[mid]).abs() < tolerance;
                verdicts.push((emitted.len(), mid, accepted));
                pass.answer(accepted);
            }
            Action::Probe { from, end, length, substep, index, first } => {
                if first {
                    fit = row[from];
                    dy = (row[end] - row[from]) / (length as f32) * (substep as f32);
                }
                fit += dy;
                let accepted = !((fit - row[index]).abs() > tolerance);
                verdicts.push((emitted.len(), index, accepted));
                pass.answer(accepted);
            }
        }
        replies += 1;
    }
    assert!(pass.is_done());
    let reads = pass.row_accesses();
    let (stream, points) = pass.into_stream();
    Outcome { stream, points, emitted, verdicts, reads, replies }
}

fn compress(row: &[f32], tolerance: f32, min_step: usize) -> Outcome {
    let capacity = buffer_capacity(row.len(), min_step).unwrap();
    compress_into(row, tolerance, min_step, vec![0u8; capacity])
}

fn put(y: f32, class: u8, out: &mut [u8], at: &mut usize) {
    let bytes = half::f16::from_f32(y).to_le_bytes();
    out[*at] = (bytes[0] & 0xf8) | class;
    out[*at + 1] = bytes[1];
    *at += 2;
}

/// The same pass written as one loop over the samples: the stream, the
/// number of points and the number of samples read.
fn single_pass(row: &[f32], tolerance: f32, min_step: usize) -> (Vec<u8>, usize, u128) {
    let table: [f32; 8] = [1., 1., 2., 4., 5., 8., 11., 16.];
    let mut out = vec![0u8; row.len() / min_step * 2 + 2];
    let mut at = 0;
    let mut reads: u128 = 0;
    let row_end = row.len() - 1;
    let mut index_start = 0;
    let mut index_end = index_start + 2 * min_step;
    let mut y_start = row[0];
    reads += 1;
    put(y_start, 0, &mut out, &mut at);
    while index_end <= row_end {
        let mut length_try = (2 * min_step) as f32;
        let mut step_valid = min_step;
        let mut y_end = row[index_end];
        let mut y_end_valid = y_end;
        let y_mid = row[index_start + min_step];
        reads += 2;
        let mut class_valid: u8;
        if (y_start + (y_end - y_start) / length_try * (min_step as f32) - y_mid).abs() < tolerance {
            class_valid = 1;
            while class_valid < 7 {
                index_end += step_valid;
                if index_end > row_end {
                    index_end = row_end;
                    length_try = (index_end - index_start) as f32;
                } else {
                    length_try *= 2.;
                }
                y_end_valid = y_end;
                y_end = row[index_end];
                reads += 1;
                let substep = table[(class_valid + 1) as usize];
                let dy = (y_end - y_start) / length_try * substep;
                let mut fit = y_start;
                let mut index_check = index_start + substep as usize;
                let mut rejected = false;
                while index_check <= index_end {
                    fit += dy;
                    reads += 1;
                    if (fit - row[index_check]).abs() > tolerance {
                        rejected = true;
                        break;
                    }
                    index_check += substep as usize;
                }
                if rejected {
                    break;
                }
                y_end_valid = y_end;
                step_valid *= 2;
                class_valid += 1;
            }
        } else {
            class_valid = 0;
            y_end_valid = y_mid;
        }
        put(y_end_valid, class_valid, &mut out, &mut at);
        y_start = y_end_valid;
        index_start += step_valid;
        index_end = index_start + 2 * min_step;
    }
    if index_start < row_end {
        reads += 1;
        put(row[row_end], 7, &mut out, &mut at);
    }
    out.truncate(at);
    (out, at / 2, reads)
}

/// A row that wanders: sums of steps drawn from a fixed sequence.
fn wandering_row(len: usize, seed: u64, spread: f32) -> Vec<f32> {
    let mut state = seed;
    let mut value = 0f32;
    let mut row = Vec::with_capacity(len);
    for _ in 0..len {
        state = state.wrapping_mul(6364136223846793005).wrapping_add(1442695040888963407);
        let unit = ((state >> 40) as f32) / ((1u64 << 24) as f32) - 0.5;
        value += unit * spread;
        row.push(value);
    }
    row
}

fn wave_row(len: usize, wavelength: f32, height: f32) -> Vec<f32> {
    (0..len).map(|i| ((i as f32) * 6.28318 / wavelength).sin() * height).collect()
}

#[test]
fn ramp_of_ten_is_anchor_and_one_full_class_point() {
    let row: Vec<f32> = (0..10).map(|i| i as f32).collect();
    let out = compress(&row, 5.0, 2);
    assert_eq!(out.points, 2);
    assert_eq!(out.emitted, vec![(0, 0), (9, 7)]);
    assert_eq!(decode(&out.stream, 0).class, 0);
    assert_eq!(decode(&out.stream, 2).class, 7);
    assert_eq!(out.reads, 16);
    // 9.0 is 0x4880 in half precision, 0.0 is 0x0000.
    assert_eq!(&out.stream[..4], &[0x00, 0x00, 0x87, 0x48]);
}

#[test]
fn jump_at_index_two_gives_class_zero_point_there() {
    let row: Vec<f32> = vec![0.0, 0.0, 100.0, 0.0, 0.0, 0.0, 0.0, 0.0, 0.0];
    let out = compress(&row, 5.0, 2);
    assert_eq!(out.emitted[0], (0, 0));
    assert_eq!(out.emitted[1], (2, 0));
    assert_eq!(out.verdicts[0], (1, 2, false));
    let placed = decode_stream(&out.stream, out.points, 2, row.len());
    assert_eq!(placed[1].class, 0);
    assert_eq!(placed[1].start, 0);
    assert_eq!(placed[1].index, 2);
    assert_eq!(placed[1].length, 2);
    // 100.0 is 0x5640 in half precision.
    assert_eq!(placed[1].half_bits, 0x5640);
}

#[test]
fn first_point_holds_the_first_sample() {
    for seed in 1..20u64 {
        let row = wandering_row(40, seed, 60.0);
        let out = compress(&row, 5.0, 2);
        let first = decode(&out.stream, 0);
        assert_eq!(first.class, 0);
        let exact = half::f16::from_f32(row[0]).to_bits();
        assert_eq!(first.half_bits, exact & 0xfff8);
        let read = half::f16::from_bits(first.half_bits).to_f32();
        assert!((read - row[0]).abs() <= row[0].abs() / 128.0 + 1e-3);
    }
}

#[test]
fn every_class_above_zero_was_accepted_at_each_checkpoint() {
    for seed in 1..40u64 {
        let row = wandering_row(300, seed, 6.0);
        let out = compress(&row, 5.0, 2);
        for (ordinal, &(_, class)) in out.emitted.iter().enumerate() {
            let rejected =
                out.verdicts.iter().filter(|v| v.0 == ordinal && !v.2).count();
            let asked = out.verdicts.iter().filter(|v| v.0 == ordinal).count();
            if class == 7 {
                assert_eq!(rejected, 0);
            } else if class >= 1 && asked > 0 {
                // one checkpoint of the next class failed, and it was the last asked
                assert_eq!(rejected, 1);
                let last = out.verdicts.iter().filter(|v| v.0 == ordinal).last().unwrap();
                assert!(!last.2);
            } else if asked > 0 {
                assert_eq!(asked, 1);
                assert_eq!(rejected, 1);
            }
        }
    }
}

#[test]
fn lengths_of_points_cover_the_row() {
    for len in 1..130usize {
        for min_step in 1..4usize {
            if min_step > len {
                continue;
            }
            let row = wandering_row(len, len as u64 * 7 + min_step as u64, 4.0);
            let out = compress(&row, 5.0, min_step);
            let placed = decode_stream(&out.stream, out.points, min_step, len);
            let covered: usize = placed.iter().map(|p| p.length).sum();
            assert_eq!(covered, len - 1);
            assert_eq!(placed.last().unwrap().index, len - 1);
            for (p, e) in placed.iter().zip(out.emitted.iter()) {
                assert_eq!((p.index, p.class), *e);
            }
        }
    }
}

#[test]
fn same_row_twice_gives_same_stream() {
    let row = wave_row(500, 100.0, 80.0);
    let first = compress(&row, 5.0, 2);
    let dirty = vec![0xa5u8; buffer_capacity(row.len(), 2).unwrap()];
    let second = compress_into(&row, 5.0, 2, dirty);
    assert_eq!(first.points, second.points);
    assert_eq!(first.stream[..2 * first.points], second.stream[..2 * second.points]);
    assert_eq!(first.reads, second.reads);
}

#[test]
fn row_lengths_off_the_powers_of_two_end_on_the_last_sample() {
    for len in [5usize, 6, 7, 9, 11, 13, 17, 31, 33, 63, 65, 67, 129, 131, 257, 259, 501] {
        let row = wave_row(len, 300.0, 20.0);
        let out = compress(&row, 5.0, 2);
        for &(index, class) in &out.emitted {
            assert!(index < len);
            assert!(class <= 7);
        }
        assert_eq!(out.emitted.last().unwrap().0, len - 1);
        assert!(2 * out.points <= buffer_capacity(len, 2).unwrap());
    }
}

#[test]
fn machine_and_single_loop_agree() {
    for min_step in 1..4usize {
        for len in min_step.max(1)..90usize {
            for (seed, spread, tolerance) in
                [(1u64, 3.0f32, 5.0f32), (2, 12.0, 5.0), (3, 40.0, 5.0), (4, 1.0, 0.5), (5, 200.0, 3.0)]
            {
                let row = wandering_row(len, seed * 1000 + len as u64, spread);
                let out = compress(&row, tolerance, min_step);
                let (stream, points, reads) = single_pass(&row, tolerance, min_step);
                assert_eq!(out.points, points, "len {} step {}", len, min_step);
                assert_eq!(&out.stream[..2 * points], &stream[..], "len {} step {}", len, min_step);
                assert_eq!(out.reads, reads, "len {} step {}", len, min_step);
            }
        }
    }
    for wavelength in [30.0f32, 100.0, 250.0] {
        let row = wave_row(500, wavelength, 120.0);
        let out = compress(&row, 5.0, 2);
        let (stream, points, reads) = single_pass(&row, 5.0, 2);
        assert_eq!(out.points, points);
        assert_eq!(&out.stream[..2 * points], &stream[..]);
        assert_eq!(out.reads, reads);
    }
}

#[test]
fn a_pass_ends_within_its_bound_of_replies() {
    for len in [1usize, 2, 3, 10, 100, 500] {
        let row = wandering_row(len, 99, 9.0);
        let out = compress(&row, 5.0, 1);
        assert!(out.replies <= 31 * len + 2);
        assert!(out.reads <= 1 + 30 * (len as u128 - 1));
    }
}

#[test]
fn row_of_one_sample_is_its_anchor() {
    let out = compress(&[3.5], 5.0, 1);
    assert_eq!(out.emitted, vec![(0, 0)]);
    assert_eq!(out.points, 1);
    assert_eq!(out.reads, 1);
    // 3.5 is 0x4300 in half precision.
    assert_eq!(out.stream, vec![0x00, 0x43, 0x00, 0x00]);
    let out = compress(&[3.5], 5.0, 2);
    assert_eq!(out.emitted, vec![(0, 0)]);
    assert_eq!(out.stream, vec![0x00, 0x43]);
}

#[test]
fn row_too_short_for_a_segment_is_anchor_and_forced_last_point() {
    for len in 2..5usize {
        let row: Vec<f32> = (0..len).map(|i| i as f32).collect();
        let out = compress(&row, 5.0, 2);
        assert_eq!(out.emitted, vec![(0, 0), (len - 1, 7)]);
        assert_eq!(out.reads, 2);
        assert!(out.verdicts.is_empty());
    }
}

#[test]
fn flat_row_grows_to_the_highest_class() {
    let row = vec![1.0f32; 200];
    let out = compress(&row, 5.0, 2);
    // class 7 advances by 64 smallest steps and holds the sample one step beyond
    assert_eq!(out.emitted[1], (130, 7));
    let placed = decode_stream(&out.stream, out.points, 2, row.len());
    assert_eq!(placed[1].length, 128);
    assert_eq!(placed[2].start, 128);
    assert_eq!(out.emitted.last().unwrap().0, 199);
}

#[test]
fn reply_of_the_wrong_kind_changes_nothing() {
    let mut pass = Compressor::new(2, 10, vec![0u8; 12]);
    assert_eq!(pass.stage(), Stage::Emit);
    assert!(!pass.reply(Reply::Fit(true)));
    assert_eq!(pass.action(), Action::Encode { index: 0, class: 0 });
    assert_eq!(pass.points(), 0);
    assert!(pass.reply(Reply::Bits(0x3c00)));
    assert_eq!(pass.points(), 1);
    assert_eq!(pass.stage(), Stage::Midpoint);
    assert!(!pass.reply(Reply::Bits(0)));
    assert_eq!(
        pass.action(),
        Action::Midpoint { from: 0, mid: 2, end: 4, length: 4, substep: 2 }
    );
    assert!(pass.reply(Reply::Fit(true)));
    assert_eq!(
        pass.action(),
        Action::Probe { from: 0, end: 6, length: 8, substep: 2, index: 2, first: true }
    );
    pass.answer(true);
    assert_eq!(
        pass.action(),
        Action::Probe { from: 0, end: 6, length: 8, substep: 2, index: 4, first: false }
    );
    pass.answer(false);
    assert_eq!(pass.action(), Action::Encode { index: 4, class: 1 });
    pass.supply(0);
    assert_eq!(
        pass.action(),
        Action::Midpoint { from: 4, mid: 4, end: 6, length: 4, substep: 2 }
    );
    assert_eq!(pass.row_accesses(), 1 + 2 + 1 + 2);
}

#[test]
fn a_pass_that_cannot_start_says_why() {
    assert_eq!(Compressor::try_new(0, 10, vec![0u8; 100]).err(), Some(Refusal::ZeroSegmentLength));
    assert_eq!(Compressor::try_new(0, 0, vec![]).err(), Some(Refusal::ZeroSegmentLength));
    assert_eq!(Compressor::try_new(3, 2, vec![0u8; 100]).err(), Some(Refusal::RowTooShort));
    assert_eq!(Compressor::try_new(1, 0, vec![0u8; 100]).err(), Some(Refusal::RowTooShort));
    assert!(Compressor::try_new(3, 1, vec![0u8; 2]).is_ok());
    assert!(Compressor::try_new(3, 3, vec![0u8; 4]).is_ok());
    assert_eq!(
        Compressor::try_new(2, usize::MAX / 2 + 1, vec![0u8; 100]).err(),
        Some(Refusal::RowTooLong)
    );
    assert_eq!(Compressor::try_new(2, 10, vec![0u8; 11]).err(), Some(Refusal::CapacityViolation));
    assert_eq!(
        Compressor::try_new(1, usize::MAX / 2, vec![0u8; 100]).err(),
        Some(Refusal::CapacityViolation)
    );
    let pass = Compressor::try_new(2, 10, vec![0u8; 12]).ok().unwrap();
    assert_eq!(pass.action(), Action::Encode { index: 0, class: 0 });
    assert_eq!(pass.points(), 0);
    assert_eq!(pass.row_accesses(), 0);
    assert!(!pass.is_done());
}

/// Answers the actions of a pass over `row` with the arithmetic on its samples.
fn answer_for<'a>(row: &'a [f32], tolerance: f32) -> impl Fn(Action) -> Reply + 'a {
    let fit = Cell::new(0f32);
    let dy = Cell::new(0f32);
    move |action: Action| match action {
        Action::Done => Reply::Fit(true),
        Action::Encode { index, .. } => Reply::Bits(half::f16::from_f32(row[index]).to_bits()),
        Action::Midpoint { from, mid, end, length, substep } => {
            let y_start = row[from];
            let reached = y_start + (row[end] - y_start) / (length as f32) * (substep as f32);
            Reply::Fit((reached - row[mid]).abs() < tolerance)
        }
        Action::Probe { from, end, length, substep, index, first } => {
            if first {
                fit.set(row[from]);
                dy.set((row[end] - row[from]) / (length as f32) * (substep as f32));
            }
            fit.set(fit.get() + dy.get());
            Reply::Fit(!((fit.get() - row[index]).abs() > tolerance))
        }
    }
}

#[test]
fn whole_pass_in_one_call_agrees_with_the_single_loop() {
    for len in [1usize, 2, 3, 4, 5, 10, 33, 100, 257, 500] {
        for (seed, spread) in [(11u64, 2.0f32), (12, 20.0), (13, 90.0)] {
            let row = wandering_row(len, seed + len as u64, spread);
            let buffer = vec![0x5au8; buffer_capacity(len, 2).unwrap()];
            let done = compress_asking(2, len, buffer, answer_for(&row, 5.0)).ok().unwrap();
            let (stream, points, reads) = single_pass(&row, 5.0, 2);
            assert_eq!(done.points, points);
            assert_eq!(&done.stream[..2 * points], &stream[..]);
            assert_eq!(done.row_accesses, reads);
        }
    }
}

#[test]
fn whole_pass_ramp_of_ten() {
    let row: Vec<f32> = (0..10).map(|i| i as f32).collect();
    let done = compress_asking(2, 10, vec![0u8; 12], answer_for(&row, 5.0)).ok().unwrap();
    assert_eq!(done.points, 2);
    assert_eq!(&done.stream[..4], &[0x00, 0x00, 0x87, 0x48]);
    assert_eq!(done.row_accesses, 16);
}

#[test]
fn whole_pass_says_why_it_cannot_start_or_go_on() {
    let row = vec![0f32; 10];
    let refused = compress_asking(2, 10, vec![0u8; 11], answer_for(&row, 5.0)).err();
    assert_eq!(refused, Some(Refusal::CapacityViolation));
    let refused = compress_asking(0, 10, vec![0u8; 12], answer_for(&row, 5.0)).err();
    assert_eq!(refused, Some(Refusal::ZeroSegmentLength));
    let refused = compress_asking(2, 0, vec![0u8; 12], answer_for(&row, 5.0)).err();
    assert_eq!(refused, Some(Refusal::RowTooShort));
    let refused = compress_asking(2, 10, vec![0u8; 12], |_| Reply::Fit(true)).err();
    assert_eq!(refused, Some(Refusal::MisplacedReply));
    let refused = compress_asking(2, 10, vec![0u8; 12], |_| Reply::Bits(0)).err();
    assert_eq!(refused, Some(Refusal::MisplacedReply));
}

#[test]
fn whole_pass_twice_leaves_equal_buffers_equal() {
    for (len, seed, spread) in [(10usize, 21u64, 3.0f32), (77, 22, 25.0), (500, 23, 70.0)] {
        let row = wandering_row(len, seed, spread);
        let capacity = buffer_capacity(len, 2).unwrap();
        let first = compress_asking(2, len, vec![0x11u8; capacity], answer_for(&row, 5.0));
        let first = first.ok().unwrap();
        let second = compress_asking(2, len, vec![0x11u8; capacity], answer_for(&row, 5.0));
        let second = second.ok().unwrap();
        assert_eq!(first.points, second.points);
        assert_eq!(first.row_accesses, second.row_accesses);
        assert_eq!(first.stream, second.stream);
        // bytes beyond the stream are left as they were
        assert!(first.stream[2 * first.points..].iter().all(|&byte| byte == 0x11));
    }
}

#[test]
fn whole_pass_gives_up_only_before_its_end() {
    // An oracle that answers in kind up to the last action is never refused.
    let row: Vec<f32> = (0..10).map(|i| i as f32).collect();
    let asked = Cell::new(0usize);
    let answers = answer_for(&row, 5.0);
    let counting = |action: Action| {
        asked.set(asked.get() + 1);
        answers(action)
    };
    let done = compress_asking(2, 10, vec![0u8; 12], counting).ok().unwrap();
    assert_eq!(done.points, 2);
    // two points, the midpoint and seven checkpoints (three, two, one, one,
    // none, none): nothing is asked once the row is covered
    assert_eq!(asked.get(), 10);
}
