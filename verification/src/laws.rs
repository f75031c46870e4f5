//! What holds of every pass, proved of the model.

use vstd::prelude::*;
use crate::classes::substep_of;
use crate::decoder::{placement, Placement};
use crate::encoder::{high_byte, lemma_decode_of_encode, masked, point_of, tagged_low, EncodedPoint};
use crate::preservation::{
    lemma_after_answer_inv, lemma_after_point_inv, lemma_charge, lemma_growth_step,
    lemma_initial_inv, lemma_mul_step, lemma_owed_point, lemma_room, lemma_stream_len,
};
use crate::state::{
    capacity_for, in_kind, in_row, max_row_len, row_fits, stream_of, total_length, Point, Reply,
    Stage, State,
};

verus! {

/// Every reply keeps the invariant.
pub proof fn lemma_after_inv(s: State, reply: Reply)
    requires
        s.inv(),
    ensures
        s.after(reply).inv(),
{
    if s.takes(reply) {
        match reply {
            Reply::Fit(accepted) => lemma_after_answer_inv(s, accepted),
            Reply::Bits(half_bits) => lemma_after_point_inv(s, half_bits),
        }
    }
}

/// Every state that a pass goes through keeps the invariant, whatever the
/// caller replies.
pub proof fn lemma_run_inv(min_step: int, row_len: int, buffer: Seq<u8>, replies: Seq<Reply>)
    requires
        row_fits(min_step, row_len),
        buffer.len() >= capacity_for(row_len, min_step),
    ensures
        State::initial(min_step, row_len, buffer).run(replies).inv(),
    decreases replies.len(),
{
    let start = State::initial(min_step, row_len, buffer);
    if replies.len() == 0 {
        lemma_initial_inv(min_step, row_len, buffer);
    } else {
        lemma_run_inv(min_step, row_len, buffer, replies.drop_last());
        lemma_after_inv(start.run(replies.drop_last()), replies.last());
    }
}

/// The lengths of the points add up to the start of the segment that is
/// open. When the pass is over they add up to the row's length less one: the
/// segments and the forced last point cover the row, and nothing twice.
pub proof fn lemma_coverage(s: State)
    requires
        s.inv(),
    ensures
        total_length(s.points) == s.index_start,
        0 <= s.index_start <= s.row_len - 1,
        s.stage == Stage::Done ==> total_length(s.points) == s.row_len - 1,
{
}

/// The class of a point gives its length and the sample that it holds: a
/// point moves the start by the nominal step of its class, cut to what is
/// left of the row, and holds the sample one smallest step beyond the
/// nominal step, cut to the last sample (for class 0, the midpoint).
pub proof fn lemma_class_gives_point(s: State, j: int)
    requires
        s.inv(),
        1 <= j < s.points.len(),
    ensures
        s.point_fits(total_length(s.points.take(j)), s.points[j]),
        0 <= s.points[j].class <= 7,
        0 <= s.points[j].index <= s.row_len - 1,
{
}

/// The pass asks for no sample outside the row.
pub proof fn lemma_in_bounds(s: State)
    requires
        s.inv(),
        s.row_len <= max_row_len(),
    ensures
        s.stage == Stage::Done || in_row(s.action(), s.row_len),
{
    if s.stage == Stage::Emit {
        lemma_owed_point(s);
    }
    if s.stage == Stage::Probe {
        lemma_growth_step(
            s,
            s.class_valid,
            s.step_valid,
            s.end_valid,
            s.slope_length(s.class_valid),
        );
    }
}

/// The pass takes a reply exactly if it is of the kind that its action asks for.
pub proof fn lemma_takes_in_kind(s: State, reply: Reply)
    ensures
        s.takes(reply) == in_kind(s.action(), reply),
{
}

/// When the pass is over, the start has reached the last sample, and the
/// last point holds it: no sample at the end of the row is left out,
/// whatever the row's length.
pub proof fn lemma_last_sample(s: State)
    requires
        s.inv(),
        s.stage == Stage::Done,
    ensures
        s.index_start == s.row_len - 1,
        s.points.len() >= 1,
        s.points.last().index == s.row_len - 1,
{
}

/// The two bytes that point `j` takes in the stream of `points`.
proof fn lemma_stream_at(points: Seq<Point>, j: int)
    requires
        0 <= j < points.len(),
    ensures
        stream_of(points).len() == 2 * points.len(),
        stream_of(points)[2 * j] == tagged_low(points[j].half_bits, points[j].class as u8),
        stream_of(points)[2 * j + 1] == high_byte(points[j].half_bits),
    decreases points.len(),
{
    lemma_stream_len(points);
    lemma_stream_len(points.drop_last());
    if j < points.len() - 1 {
        lemma_stream_at(points.drop_last(), j);
    }
}

/// Each point reads back from the stream with its class and with the bits
/// that the caller supplied, less the three lowest. The first point has
/// class 0 and holds the first sample.
pub proof fn lemma_points_read_back(s: State, j: int)
    requires
        s.inv(),
        0 <= j < s.points.len(),
    ensures
        s.stream().len() == 2 * s.points.len(),
        point_of(s.stream()[2 * j], s.stream()[2 * j + 1]) == (EncodedPoint {
            half_bits: masked(s.points[j].half_bits),
            class: s.points[j].class as u8,
        }),
        s.points[0].index == 0 && s.points[0].class == 0,
{
    lemma_stream_at(s.points, j);
    lemma_decode_of_encode(s.points[j].half_bits, s.points[j].class as u8);
}

/// The stream never outgrows the capacity that the buffer must have.
pub proof fn lemma_stream_fits(s: State)
    requires
        s.inv(),
    ensures
        2 * s.points.len() <= capacity_for(s.row_len, s.min_step) <= s.buffer.len(),
        s.points.len() <= s.row_len + 1,
{
    let count = s.points.len() as int;
    if count >= 1 {
        lemma_mul_step(count - 1, s.min_step);
        lemma_mul_step(count - 2, s.min_step);
        assert((count - 1) * s.min_step <= s.row_len);
        lemma_room(count - 1, s.min_step, s.row_len);
        assert(count - 1 <= s.row_len) by (nonlinear_arith)
            requires
                (count - 1) * s.min_step <= s.row_len,
                s.min_step >= 1,
                count >= 1,
        ;
    }
}

/// The number of samples read stays within thirty for each sample of the row.
pub proof fn lemma_reads_bounded(s: State)
    requires
        s.inv(),
    ensures
        0 <= s.accesses <= 1 + 30 * (s.row_len - 1),
{
    if s.stage == Stage::Probe {
        lemma_growth_step(
            s,
            s.class_valid,
            s.step_valid,
            s.end_valid,
            s.slope_length(s.class_valid),
        );
        lemma_charge(s.class_valid, s.step_valid, s.step_valid);
    }
    if s.stage == Stage::Emit {
        lemma_owed_point(s);
    }
}

/// A point that closes a segment carries a class only if the caller has
/// accepted every checkpoint of that class and of each class below it, the
/// midpoint among them; and no verdict against one of them stands in the log.
/// The forced last point and the first point close no segment.
pub proof fn lemma_tolerance(s: State, j: int, class: int, index: int)
    requires
        s.inv(),
        1 <= j < s.points.len(),
        total_length(s.points.take(j)) + 2 * s.min_step <= s.row_len - 1,
        1 <= class <= s.points[j].class,
        s.checkpoint(total_length(s.points.take(j)), class, index),
    ensures
        s.tested(j, class, index),
        forall|q: int|
            0 <= q < s.log.len() && (#[trigger] s.log[q]).point == j && s.log[q].class
                <= s.points[j].class ==> s.log[q].accepted,
{
    assert(s.points_tested());
    assert(s.log_sound());
}

/// Accepting a class forgets no read and touches neither points nor buffer.
proof fn lemma_grown_keeps(s: State, class: int, step: int, end: int, length: int)
    ensures
        s.grown(class, step, end, length).accesses >= s.accesses,
        s.grown(class, step, end, length).points == s.points,
        s.grown(class, step, end, length).buffer == s.buffer,
        s.grown(class, step, end, length).row_len == s.row_len,
    decreases 7 - class,
{
    if class < 7 {
        let clamped = end + step > s.row_end();
        let next_end = if clamped {
            s.row_end()
        } else {
            end + step
        };
        let next_length = if clamped {
            s.remaining()
        } else {
            2 * length
        };
        if s.index_start + substep_of(class + 1) > next_end {
            lemma_grown_keeps(
                State { accesses: s.accesses + 1, ..s },
                class + 1,
                s.doubled(step),
                next_end,
                next_length,
            );
        }
    }
}

/// Every reply that the pass takes adds a read or a point, and takes none away.
proof fn lemma_after_counts(s: State, reply: Reply)
    requires
        s.takes(reply),
    ensures
        s.after(reply).row_len == s.row_len,
        s.after(reply).accesses + s.after(reply).points.len() > s.accesses + s.points.len(),
{
    match reply {
        Reply::Fit(accepted) => {
            let read = s.heard(accepted);
            if s.stage == Stage::Midpoint {
                lemma_grown_keeps(
                    read,
                    1,
                    s.min_step,
                    s.index_start + 2 * s.min_step,
                    2 * s.min_step,
                );
            } else {
                lemma_grown_keeps(
                    read,
                    s.class_valid + 1,
                    s.doubled(s.step_valid),
                    s.index_end,
                    s.length,
                );
            }
        },
        Reply::Bits(half_bits) => {},
    }
}

/// Every reply that the pass takes brings its end nearer: a pass is over
/// after at most thirty-one replies for each sample of the row, and two.
pub proof fn lemma_progress(s: State, reply: Reply)
    requires
        s.inv(),
        s.takes(reply),
    ensures
        0 <= s.after(reply).steps_left() < s.steps_left(),
        s.after(reply).row_len == s.row_len,
{
    let r = s.after(reply);
    lemma_after_inv(s, reply);
    lemma_reads_bounded(r);
    lemma_stream_fits(r);
    lemma_after_counts(s, reply);
}

/// Accepting a class goes the same way in two states that differ only in their buffers.
proof fn lemma_grown_alike(a: State, b: State, class: int, step: int, end: int, length: int)
    requires
        a.alike(b),
    ensures
        a.grown(class, step, end, length).alike(b.grown(class, step, end, length)),
    decreases 7 - class,
{
    if class < 7 {
        let clamped = end + step > a.row_end();
        let next_end = if clamped {
            a.row_end()
        } else {
            end + step
        };
        let next_length = if clamped {
            a.remaining()
        } else {
            2 * length
        };
        if a.index_start + substep_of(class + 1) > next_end {
            lemma_grown_alike(
                State { accesses: a.accesses + 1, ..a },
                State { accesses: b.accesses + 1, ..b },
                class + 1,
                a.doubled(step),
                next_end,
                next_length,
            );
        }
    }
}

/// Two states that differ only in their buffers ask for the same, and still
/// differ only in their buffers after the same reply.
pub proof fn lemma_after_alike(a: State, b: State, reply: Reply)
    requires
        a.alike(b),
    ensures
        a.action() == b.action(),
        a.after(reply).alike(b.after(reply)),
{
    if a.takes(reply) {
        match reply {
            Reply::Fit(accepted) => {
                if a.stage == Stage::Midpoint {
                    lemma_grown_alike(
                        a.heard(accepted),
                        b.heard(accepted),
                        1,
                        a.min_step,
                        a.index_start + 2 * a.min_step,
                        2 * a.min_step,
                    );
                } else {
                    lemma_grown_alike(
                        a.heard(accepted),
                        b.heard(accepted),
                        a.class_valid + 1,
                        a.doubled(a.step_valid),
                        a.index_end,
                        a.length,
                    );
                }
            },
            Reply::Bits(half_bits) => {},
        }
    }
}

/// Two passes over rows of one length that get the same replies write the
/// same stream, byte for byte, whatever their buffers held before. So a row
/// compressed twice with one tolerance gives one stream.
pub proof fn lemma_same_replies_same_stream(
    min_step: int,
    row_len: int,
    first: Seq<u8>,
    second: Seq<u8>,
    replies: Seq<Reply>,
)
    requires
        row_fits(min_step, row_len),
        first.len() >= capacity_for(row_len, min_step),
        second.len() >= capacity_for(row_len, min_step),
    ensures
        State::initial(min_step, row_len, first).run(replies).alike(
            State::initial(min_step, row_len, second).run(replies),
        ),
        State::initial(min_step, row_len, first).run(replies).stream() == State::initial(
            min_step,
            row_len,
            second,
        ).run(replies).stream(),
    decreases replies.len(),
{
    let a = State::initial(min_step, row_len, first);
    let b = State::initial(min_step, row_len, second);
    lemma_run_inv(min_step, row_len, first, replies);
    lemma_run_inv(min_step, row_len, second, replies);
    if replies.len() > 0 {
        lemma_same_replies_same_stream(min_step, row_len, first, second, replies.drop_last());
        lemma_after_alike(a.run(replies.drop_last()), b.run(replies.drop_last()), replies.last());
    }
}

/// The lengths of the first points, one more at a time.
proof fn lemma_total_length_take(points: Seq<Point>, j: int)
    requires
        0 <= j < points.len(),
    ensures
        total_length(points.take(0)) == 0,
        total_length(points.take(j + 1)) == total_length(points.take(j)) + points[j].length,
{
    assert(points.take(0) =~= Seq::<Point>::empty());
    assert(points.take(j + 1).drop_last() =~= points.take(j));
    assert(points.take(j + 1).last() == points[j]);
}

/// The bytes that point `j` took in the buffer.
proof fn lemma_point_in_buffer(s: State, j: int)
    requires
        s.inv(),
        0 <= j < s.points.len(),
    ensures
        point_of(s.buffer[2 * j], s.buffer[2 * j + 1]) == (EncodedPoint {
            half_bits: masked(s.points[j].half_bits),
            class: s.points[j].class as u8,
        }),
{
    lemma_points_read_back(s, j);
    lemma_stream_fits(s);
    assert(s.buffer[2 * j] == s.stream()[2 * j]);
    assert(s.buffer[2 * j + 1] == s.stream()[2 * j + 1]);
}

/// A reader of the buffer finds each point where the pass emitted it: with
/// its class, the bits that the caller supplied less the three lowest, the
/// start of its segment, its sample and its length.
pub proof fn lemma_stream_places_points(s: State, j: int)
    requires
        s.inv(),
        0 <= j < s.points.len(),
    ensures
        placement(s.buffer, s.min_step, s.row_len - 1, j) == (Placement {
            half_bits: masked(s.points[j].half_bits),
            class: s.points[j].class,
            start: total_length(s.points.take(j)),
            index: s.points[j].index,
            length: s.points[j].length,
        }),
    decreases j,
{
    lemma_point_in_buffer(s, j);
    if j >= 1 {
        lemma_stream_places_points(s, j - 1);
        lemma_total_length_take(s.points, j - 1);
        lemma_class_gives_point(s, j);
    } else {
        lemma_total_length_take(s.points, 0);
    }
}

} // verus!
