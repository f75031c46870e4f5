//! The invariant of a pass is kept by every step.

use vstd::prelude::*;
use crate::classes::substep_of;
use crate::state::{
    capacity_for, charge, least, nominal_step, row_fits, stream_of, total_length, Point, Stage,
    State, Verdict,
};

verus! {

/// The nominal step is at least the smallest step, and doubles from class to class.
pub proof fn lemma_nominal_step(min_step: int, class: int)
    requires
        min_step >= 1,
        class >= 1,
    ensures
        nominal_step(min_step, class) >= min_step,
        nominal_step(min_step, class + 1) == 2 * nominal_step(min_step, class),
    decreases class,
{
    if class > 1 {
        lemma_nominal_step(min_step, class - 1);
    }
}

/// The nominal steps of the eight classes.
pub proof fn lemma_nominal_step_values(min_step: int)
    ensures
        nominal_step(min_step, 0) == min_step,
        nominal_step(min_step, 1) == min_step,
        nominal_step(min_step, 2) == 2 * min_step,
        nominal_step(min_step, 3) == 4 * min_step,
        nominal_step(min_step, 4) == 8 * min_step,
        nominal_step(min_step, 5) == 16 * min_step,
        nominal_step(min_step, 6) == 32 * min_step,
        nominal_step(min_step, 7) == 64 * min_step,
{
    reveal_with_fuel(nominal_step, 8);
}

/// As many points as smallest steps fit into the row leave room for one more point.
pub proof fn lemma_room(points: int, min_step: int, row_len: int)
    requires
        min_step >= 1,
        points >= 0,
        points * min_step <= row_len,
    ensures
        2 * points + 2 <= capacity_for(row_len, min_step),
{
    assert(points <= row_len / min_step) by (nonlinear_arith)
        requires
            min_step >= 1,
            points * min_step <= row_len,
    ;
}

/// One and two more smallest steps, multiplied out.
pub proof fn lemma_mul_step(count: int, min_step: int)
    ensures
        (count + 1) * min_step == count * min_step + min_step,
        (count + 2) * min_step == count * min_step + 2 * min_step,
{
    assert((count + 1) * min_step == count * min_step + min_step) by (nonlinear_arith);
    assert((count + 2) * min_step == count * min_step + 2 * min_step) by (nonlinear_arith);
}

/// The stream of the points holds two bytes for each of them.
pub proof fn lemma_stream_len(points: Seq<Point>)
    ensures
        stream_of(points).len() == 2 * points.len(),
    decreases points.len(),
{
    if points.len() > 0 {
        lemma_stream_len(points.drop_last());
    }
}

/// The first state of a pass keeps the invariant.
pub proof fn lemma_initial_inv(min_step: int, row_len: int, buffer: Seq<u8>)
    requires
        row_fits(min_step, row_len),
        buffer.len() >= capacity_for(row_len, min_step),
    ensures
        State::initial(min_step, row_len, buffer).inv(),
{
    let s = State::initial(min_step, row_len, buffer);
    assert(s.stream() =~= stream_of(s.points));
}

/// A verdict added to the log is in it, and so is every verdict that was.
proof fn lemma_push_contains(log: Seq<Verdict>, added: Verdict)
    ensures
        log.push(added).contains(added),
        forall|v: Verdict| log.contains(v) ==> #[trigger] log.push(added).contains(v),
{
    assert(log.push(added)[log.len() as int] == added);
    assert forall|v: Verdict| log.contains(v) implies #[trigger] log.push(added).contains(v) by {
        let at = choose|at: int| 0 <= at < log.len() && log[at] == v;
        assert(log.push(added)[at] == v);
    }
}

/// Between a multiple of a stride and the next one lies no other.
proof fn lemma_multiples(stride: int, low: int, high: int)
    requires
        stride >= 1,
        low % stride == 0,
        low <= high < low + stride,
    ensures
        high % stride == 0 ==> high == low,
{
    assert(high % stride == 0 ==> high == low) by (nonlinear_arith)
        requires
            stride >= 1,
            low % stride == 0,
            low <= high < low + stride,
    ;
}


/// A stride divides itself, and a multiple of it stays one when the stride is added.
proof fn lemma_stride(class: int, offset: int)
    requires
        1 <= class <= 7,
    ensures
        substep_of(class) % substep_of(class) == 0,
        offset % substep_of(class) == 0 ==> (offset + substep_of(class)) % substep_of(class) == 0,
{
    let stride = substep_of(class);
    assert(offset % stride == 0 ==> (offset + stride) % stride == 0) by (nonlinear_arith)
        requires
            stride >= 1,
    ;
}

/// The charge of a class grows with the step and from class to class.
pub proof fn lemma_charge(class: int, step: int, wider: int)
    requires
        1 <= class <= 7,
        0 <= step <= wider,
    ensures
        0 <= charge(class, step) <= charge(class, wider),
        charge(class + 1, wider) == charge(class, wider) + 1 + 3 * wider,
        charge(class, step) <= 6 * (1 + 3 * step),
        class <= 6 ==> charge(class, step) <= 5 * (1 + 3 * step),
        charge(1, step) == 0,
{
    assert(0 <= (class - 1) * (1 + 3 * step) <= (class - 1) * (1 + 3 * wider)) by (nonlinear_arith)
        requires
            1 <= class,
            0 <= step <= wider,
    ;
    assert((class + 1 - 1) * (1 + 3 * wider) == (class - 1) * (1 + 3 * wider) + 1 + 3 * wider)
        by (nonlinear_arith);
    assert((class - 1) * (1 + 3 * step) <= 6 * (1 + 3 * step)) by (nonlinear_arith)
        requires
            1 <= class <= 7,
            0 <= step,
    ;
    assert(class <= 6 ==> (class - 1) * (1 + 3 * step) <= 5 * (1 + 3 * step)) by (nonlinear_arith)
        requires
            1 <= class,
            0 <= step,
    ;
}

/// One step of growth: from an accepted class to the candidate after it. The
/// candidate's endpoint and slope length are those of its class, and so is
/// the doubled step once the candidate is accepted.
pub proof fn lemma_growth_step(s: State, class: int, step: int, end: int, length: int)
    requires
        s.bounds_ok(),
        s.segment_open(),
        1 <= class <= 6,
        s.fits_class(class, step, end),
        length == s.slope_length(class),
    ensures
        s.min_step <= step <= s.doubled(step) <= s.remaining(),
        s.index_start + 2 * s.min_step <= end <= s.row_end(),
        2 * s.min_step <= length <= 2 * s.row_end(),
        end + step > s.row_end() ==> s.fits_class(class + 1, s.doubled(step), s.row_end())
            && s.remaining() == s.slope_length(class + 1),
        end + step <= s.row_end() ==> s.fits_class(class + 1, s.doubled(step), end + step) && 2
            * length == s.slope_length(class + 1) && 2 * length <= 2 * s.row_end(),
        least(end + step, s.row_end()) - s.index_start <= 3 * step,
{
    lemma_nominal_step(s.min_step, class);
}

/// Accepting a class during a segment keeps what holds of positions, points and reads.
pub proof fn lemma_grown_frame(s: State, class: int, step: int, end: int, length: int)
    requires
        s.growing(class, step, end, length),
    ensures
        s.grown(class, step, end, length).frame(),
        s.grown(class, step, end, length).log == s.log,
        s.grown(class, step, end, length).points == s.points,
    decreases 7 - class,
{
    lemma_nominal_step(s.min_step, class);
    lemma_charge(class, step, step);
    let r = s.grown(class, step, end, length);
    if class < 7 {
        lemma_growth_step(s, class, step, end, length);
        lemma_charge(class, step, s.doubled(step));
        let clamped = end + step > s.row_end();
        let next_end = if clamped {
            s.row_end()
        } else {
            end + step
        };
        let next_length = if clamped {
            s.remaining()
        } else {
            2 * length
        };
        let stride = substep_of(class + 1);
        lemma_stride(class + 1, 0);
        if s.index_start + stride <= next_end {
            assert(r.stream() == s.stream());
            assert(r.candidate_ok());
        } else {
            let read = State { accesses: s.accesses + 1, ..s };
            assert(read.stream() == s.stream());
            lemma_grown_frame(read, class + 1, s.doubled(step), next_end, next_length);
        }
    } else {
        assert(r.stream() == s.stream());
    }
}

/// Accepting a class during a segment keeps what holds of the verdicts.
pub proof fn lemma_grown_log(s: State, class: int, step: int, end: int, length: int)
    requires
        s.growing(class, step, end, length),
        s.log_growing(class),
    ensures
        s.grown(class, step, end, length).log_ok(),
    decreases 7 - class,
{
    let r = s.grown(class, step, end, length);
    lemma_grown_frame(s, class, step, end, length);
    if class < 7 {
        lemma_growth_step(s, class, step, end, length);
        let clamped = end + step > s.row_end();
        let next_end = if clamped {
            s.row_end()
        } else {
            end + step
        };
        let next_length = if clamped {
            s.remaining()
        } else {
            2 * length
        };
        let stride = substep_of(class + 1);
        lemma_stride(class + 1, 0);
        if s.index_start + stride <= next_end {
            assert(r.log_sound());
            assert forall|c: int, i: int|
                1 <= c <= r.class_valid && r.checkpoint(r.index_start, c, i) implies #[trigger] r.tested(
                r.points.len() as int,
                c,
                i,
            ) by {
                assert(s.checkpoint(s.index_start, c, i));
                assert(s.tested(s.points.len() as int, c, i));
            }
            assert forall|i: int|
                i < r.index_check && r.checkpoint(
                    r.index_start,
                    r.class_valid + 1,
                    i,
                ) implies #[trigger] r.tested(r.points.len() as int, r.class_valid + 1, i) by {
                lemma_multiples(stride, 0, i - s.index_start);
            }
            assert forall|j: int, c: int, i: int|
                1 <= j < r.points.len() && total_length(r.points.take(j)) + 2 * r.min_step
                    <= r.row_end() && 1 <= c <= r.points[j].class && r.checkpoint(
                    total_length(r.points.take(j)),
                    c,
                    i,
                ) implies #[trigger] r.tested(j, c, i) by {
                assert(s.checkpoint(total_length(s.points.take(j)), c, i));
                assert(s.tested(j, c, i));
            }
        } else {
            let read = State { accesses: s.accesses + 1, ..s };
            assert(read.stream() == s.stream());
            lemma_charge(class, step, s.doubled(step));
            assert(read.growing(class + 1, s.doubled(step), next_end, next_length));
            assert forall|c: int, i: int|
                1 <= c <= class + 1 && read.checkpoint(
                    read.index_start,
                    c,
                    i,
                ) implies #[trigger] read.tested(read.points.len() as int, c, i) by {
                if c <= class {
                    assert(s.checkpoint(s.index_start, c, i));
                    assert(s.tested(s.points.len() as int, c, i));
                } else {
                    lemma_multiples(stride, 0, i - s.index_start);
                }
            }
            assert forall|j: int, c: int, i: int|
                1 <= j < read.points.len() && total_length(read.points.take(j)) + 2 * read.min_step
                    <= read.row_end() && 1 <= c <= read.points[j].class && read.checkpoint(
                    total_length(read.points.take(j)),
                    c,
                    i,
                ) implies #[trigger] read.tested(j, c, i) by {
                assert(s.checkpoint(total_length(s.points.take(j)), c, i));
                assert(s.tested(j, c, i));
            }
            assert(read.log_growing(class + 1));
            lemma_grown_log(read, class + 1, s.doubled(step), next_end, next_length);
        }
    } else {
        assert(r.log_sound());
        assert forall|c: int, i: int|
            1 <= c <= r.class_valid && r.checkpoint(r.index_start, c, i) implies #[trigger] r.tested(
            r.points.len() as int,
            c,
            i,
        ) by {
            assert(s.checkpoint(s.index_start, c, i));
            assert(s.tested(s.points.len() as int, c, i));
        }
        assert forall|j: int, c: int, i: int|
            1 <= j < r.points.len() && total_length(r.points.take(j)) + 2 * r.min_step
                <= r.row_end() && 1 <= c <= r.points[j].class && r.checkpoint(
                total_length(r.points.take(j)),
                c,
                i,
            ) implies #[trigger] r.tested(j, c, i) by {
            assert(s.checkpoint(total_length(s.points.take(j)), c, i));
            assert(s.tested(j, c, i));
        }
    }
}

/// A verdict keeps what holds of positions, points and reads.
pub proof fn lemma_after_answer_frame(s: State, accepted: bool)
    requires
        s.frame(),
        s.stage == Stage::Midpoint || s.stage == Stage::Probe,
    ensures
        s.after_answer(accepted).frame(),
        s.after_answer(accepted).points == s.points,
        s.after_answer(accepted).log == s.heard(accepted).log,
        accepted && s.stage == Stage::Midpoint ==> s.heard(accepted).growing(
            1,
            s.min_step,
            s.index_start + 2 * s.min_step,
            2 * s.min_step,
        ),
        accepted && s.stage == Stage::Probe && s.index_check + substep_of(s.class_valid + 1)
            > s.index_end ==> s.heard(accepted).growing(
            s.class_valid + 1,
            s.doubled(s.step_valid),
            s.index_end,
            s.length,
        ),
{
    let r = s.after_answer(accepted);
    let read = s.heard(accepted);
    assert(read.stream() == s.stream());
    if s.stage == Stage::Midpoint {
        lemma_charge(1, s.min_step, s.min_step);
        if accepted {
            lemma_nominal_step(s.min_step, 1);
            lemma_grown_frame(
                read,
                1,
                s.min_step,
                s.index_start + 2 * s.min_step,
                2 * s.min_step,
            );
        } else {
            assert(r.stream() == s.stream());
        }
    } else {
        let stride = substep_of(s.class_valid + 1);
        lemma_nominal_step(s.min_step, s.class_valid);
        lemma_growth_step(
            s,
            s.class_valid,
            s.step_valid,
            s.end_valid,
            s.slope_length(s.class_valid),
        );
        lemma_charge(s.class_valid, s.step_valid, s.doubled(s.step_valid));
        if !accepted {
            assert(r.stream() == s.stream());
        } else if s.index_check + stride <= s.index_end {
            lemma_stride(s.class_valid + 1, s.index_check - s.index_start);
            assert(r.stream() == s.stream());
        } else {
            lemma_grown_frame(
                read,
                s.class_valid + 1,
                s.doubled(s.step_valid),
                s.index_end,
                s.length,
            );
        }
    }
}

/// Counting and logging a verdict keeps what was accepted before, and no
/// verdict of an earlier segment changes.
proof fn lemma_heard(s: State, accepted: bool)
    requires
        s.inv(),
        s.stage == Stage::Midpoint || s.stage == Stage::Probe,
    ensures
        s.heard(accepted).points_tested(),
        s.heard(accepted).open_tested(if s.stage == Stage::Probe {
            s.class_valid
        } else {
            0
        }),
        s.heard(accepted).tested(
            s.points.len() as int,
            s.heard(accepted).log.last().class,
            s.heard(accepted).log.last().index,
        ) || !accepted,
        forall|i: int|
            s.stage == Stage::Probe && i < s.index_check && s.checkpoint(
                s.index_start,
                s.class_valid + 1,
                i,
            ) ==> #[trigger] s.heard(accepted).tested(s.points.len() as int, s.class_valid + 1, i),
        forall|q: int|
            0 <= q < s.log.len() ==> {
                let verdict = #[trigger] s.heard(accepted).log[q];
                &&& verdict == s.log[q]
                &&& 1 <= verdict.point <= s.points.len()
                &&& verdict.point < s.points.len() ==> verdict.accepted
                    || s.points[verdict.point].class < verdict.class
                &&& verdict.point == s.points.len() ==> verdict.accepted && s.stage == Stage::Probe
                    && verdict.class <= s.class_valid + 1
            },
{
    let read = s.heard(accepted);
    let added = read.log.last();
    lemma_push_contains(s.log, added);
    assert forall|j: int, c: int, i: int|
        1 <= j < read.points.len() && total_length(read.points.take(j)) + 2 * read.min_step
            <= read.row_end() && 1 <= c <= read.points[j].class && read.checkpoint(
            total_length(read.points.take(j)),
            c,
            i,
        ) implies #[trigger] read.tested(j, c, i) by {
        assert(s.checkpoint(total_length(s.points.take(j)), c, i));
        assert(s.tested(j, c, i));
    }
    if s.stage == Stage::Probe {
        assert forall|c: int, i: int|
            1 <= c <= s.class_valid && read.checkpoint(
                read.index_start,
                c,
                i,
            ) implies #[trigger] read.tested(read.points.len() as int, c, i) by {
            assert(s.checkpoint(s.index_start, c, i));
            assert(s.tested(s.points.len() as int, c, i));
        }
        assert forall|i: int|
            i < s.index_check && s.checkpoint(
                s.index_start,
                s.class_valid + 1,
                i,
            ) implies #[trigger] read.tested(s.points.len() as int, s.class_valid + 1, i) by {
            assert(s.tested(s.points.len() as int, s.class_valid + 1, i));
        }
    }
    assert forall|q: int| 0 <= q < s.log.len() implies {
        let verdict = #[trigger] read.log[q];
        &&& verdict == s.log[q]
        &&& 1 <= verdict.point <= s.points.len()
        &&& verdict.point < s.points.len() ==> verdict.accepted || s.points[verdict.point].class
            < verdict.class
        &&& verdict.point == s.points.len() ==> verdict.accepted && s.stage == Stage::Probe
            && verdict.class <= s.class_valid + 1
    } by {
        let verdict = s.log[q];
        assert(read.log[q] == verdict);
        assert(verdict.point == s.points.len() ==> s.open_verdict_ok(verdict));
    }
}

/// A verdict keeps what holds of the verdicts.
pub proof fn lemma_after_answer_log(s: State, accepted: bool)
    requires
        s.inv(),
        s.stage == Stage::Midpoint || s.stage == Stage::Probe,
    ensures
        s.after_answer(accepted).log_ok(),
{
    let r = s.after_answer(accepted);
    let read = s.heard(accepted);
    let count = s.points.len() as int;
    let added = read.log.last();
    lemma_after_answer_frame(s, accepted);
    lemma_heard(s, accepted);
    assert(read.log.len() == s.log.len() + 1);
    let class = if s.stage == Stage::Probe {
        s.class_valid + 1
    } else {
        1
    };
    let stride = substep_of(s.class_valid + 1);
    let grows = accepted && (s.stage == Stage::Midpoint || s.index_check + stride > s.index_end);
    if grows {
        // Every checkpoint of the class that the verdict completes has been accepted.
        assert forall|c: int, i: int|
            1 <= c <= class && read.checkpoint(
                read.index_start,
                c,
                i,
            ) implies #[trigger] read.tested(count, c, i) by {
            if c < class {
                assert(read.open_tested(class - 1));
            } else if s.stage == Stage::Probe {
                lemma_stride(class, 0);
                if i >= s.index_check {
                    lemma_multiples(stride, s.index_check - s.index_start, i - s.index_start);
                }
            }
        }
        assert forall|q: int| 0 <= q < read.log.len() implies {
            let verdict = #[trigger] read.log[q];
            &&& 1 <= verdict.point <= read.points.len()
            &&& verdict.point < read.points.len() ==> verdict.accepted
                || read.points[verdict.point].class < verdict.class
            &&& verdict.point == read.points.len() ==> verdict.accepted && verdict.class <= class
        } by {
            if q == s.log.len() {
                assert(read.log[q] == added);
            }
        }
        assert(read.log_growing(class));
        if s.stage == Stage::Midpoint {
            lemma_grown_log(
                read,
                1,
                s.min_step,
                s.index_start + 2 * s.min_step,
                2 * s.min_step,
            );
        } else {
            lemma_grown_log(
                read,
                s.class_valid + 1,
                s.doubled(s.step_valid),
                s.index_end,
                s.length,
            );
        }
    } else {
        assert(r.log == read.log);
        assert(r.points == s.points);
        assert forall|q: int| 0 <= q < r.log.len() implies {
            let verdict = #[trigger] r.log[q];
            &&& 1 <= verdict.point <= r.points.len()
            &&& verdict.point < r.points.len() ==> verdict.accepted
                || r.points[verdict.point].class < verdict.class
            &&& verdict.point == r.points.len() ==> r.open_verdict_ok(verdict)
        } by {
            if q == s.log.len() {
                assert(r.log[q] == added);
            } else {
                assert(r.log[q] == read.log[q]);
            }
        }
        assert forall|j: int, c: int, i: int|
            1 <= j < r.points.len() && total_length(r.points.take(j)) + 2 * r.min_step
                <= r.row_end() && 1 <= c <= r.points[j].class && r.checkpoint(
                total_length(r.points.take(j)),
                c,
                i,
            ) implies #[trigger] r.tested(j, c, i) by {
            assert(read.checkpoint(total_length(read.points.take(j)), c, i));
            assert(read.tested(j, c, i));
        }
        assert forall|c: int, i: int|
            1 <= c <= r.class_valid && r.checkpoint(r.index_start, c, i) implies #[trigger] r.tested(
            count,
            c,
            i,
        ) by {
            assert(read.checkpoint(read.index_start, c, i));
            assert(read.tested(count, c, i));
        }
        if accepted {
            assert forall|i: int|
                i < r.index_check && r.checkpoint(
                    r.index_start,
                    r.class_valid + 1,
                    i,
                ) implies #[trigger] r.tested(count, r.class_valid + 1, i) by {
                if i >= s.index_check {
                    lemma_multiples(stride, s.index_check - s.index_start, i - s.index_start);
                    assert(read.tested(count, class, s.index_check));
                } else {
                    assert(read.tested(count, s.class_valid + 1, i));
                }
            }
        }
    }
}

/// A verdict keeps the invariant.
pub proof fn lemma_after_answer_inv(s: State, accepted: bool)
    requires
        s.inv(),
        s.stage == Stage::Midpoint || s.stage == Stage::Probe,
    ensures
        s.after_answer(accepted).inv(),
{
    lemma_after_answer_frame(s, accepted);
    lemma_after_answer_log(s, accepted);
}

/// What the invariant says of the owed point: it fits into the buffer and
/// into the row, and it is the point that its class stands for.
pub proof fn lemma_owed_point(s: State)
    requires
        s.inv(),
        s.stage == Stage::Emit,
    ensures
        2 * s.points.len() + 2 <= s.buffer.len(),
        0 <= s.class_valid <= 7,
        0 <= s.step_valid <= s.remaining(),
        0 <= s.end_valid <= s.row_end(),
        s.step_valid == s.remaining() ==> s.end_valid == s.row_end(),
        s.points.len() == 0 ==> s.step_valid == 0 && s.end_valid == 0 && s.class_valid == 0,
        s.points.len() >= 1 ==> s.point_fits(
            s.index_start,
            Point { index: s.end_valid, class: s.class_valid, length: s.step_valid, half_bits: 0 },
        ),
        s.points.len() >= 1 ==> s.points.len() * s.min_step <= s.index_start + s.step_valid
            || s.remaining() < 2 * s.min_step,
        s.points.len() >= 1 && s.remaining() >= 2 * s.min_step ==> (s.points.len() + 1) * s.min_step
            <= s.row_end(),
        s.points.len() >= 1 && s.remaining() < 2 * s.min_step ==> s.points.len() * s.min_step
            <= s.row_len && s.step_valid == s.remaining(),
{
    let count = s.points.len() as int;
    lemma_mul_step(count - 1, s.min_step);
    lemma_nominal_step_values(s.min_step);
    if s.class_valid >= 1 {
        lemma_nominal_step(s.min_step, s.class_valid);
    }
    assert(count * s.min_step <= s.row_len) by {
        if count == 0 {
            assert(count * s.min_step == 0) by (nonlinear_arith)
                requires
                    count == 0,
            ;
        }
    }
    lemma_room(count, s.min_step, s.row_len);
}

proof fn lemma_after_point_stream(s: State, half_bits: u16)
    requires
        s.inv(),
        s.stage == Stage::Emit,
    ensures
        s.after_point(half_bits).stream() == stream_of(s.after_point(half_bits).points),
{
    let r = s.after_point(half_bits);
    lemma_owed_point(s);
    lemma_stream_len(s.points);
    assert(r.points.drop_last() =~= s.points);
    assert(r.stream() =~= stream_of(r.points));
}

proof fn lemma_after_point_points(s: State, half_bits: u16)
    requires
        s.inv(),
        s.stage == Stage::Emit,
    ensures
        s.after_point(half_bits).points_ok(),
{
    let r = s.after_point(half_bits);
    let count = s.points.len() as int;
    lemma_owed_point(s);
    assert(r.points.drop_last() =~= s.points);
    assert(total_length(r.points) == r.index_start);
    assert forall|j: int| 0 <= j < r.points.len() implies 0 <= (#[trigger] r.points[j]).index
        <= r.row_end() && 0 <= r.points[j].class <= 7 by {
        if j < count {
            assert(r.points[j] == s.points[j]);
        }
    }
    assert forall|j: int| 1 <= j < r.points.len() implies r.point_fits(
        total_length(r.points.take(j)),
        #[trigger] r.points[j],
    ) by {
        if j < count {
            assert(r.points.take(j) =~= s.points.take(j));
            assert(r.points[j] == s.points[j]);
            assert(s.point_fits(total_length(s.points.take(j)), s.points[j]));
        } else {
            assert(r.points.take(j) =~= s.points);
        }
    }
}

proof fn lemma_after_point_stage(s: State, half_bits: u16)
    requires
        s.inv(),
        s.stage == Stage::Emit,
    ensures
        s.after_point(half_bits).bounds_ok(),
        s.after_point(half_bits).stage_ok(),
        s.after_point(half_bits).reads_ok(),
{
    let count = s.points.len() as int;
    lemma_owed_point(s);
    lemma_mul_step(count - 1, s.min_step);
    lemma_mul_step(count, s.min_step);
}

proof fn lemma_after_point_log(s: State, half_bits: u16)
    requires
        s.inv(),
        s.stage == Stage::Emit,
    ensures
        s.after_point(half_bits).log_ok(),
{
    let r = s.after_point(half_bits);
    let count = s.points.len() as int;
    lemma_owed_point(s);
    assert(r.points.drop_last() =~= s.points);
    assert(r.points.take(count) =~= s.points);
    assert forall|q: int| 0 <= q < r.log.len() implies {
        let verdict = #[trigger] r.log[q];
        &&& 1 <= verdict.point <= r.points.len()
        &&& verdict.point < r.points.len() ==> verdict.accepted || r.points[verdict.point].class
            < verdict.class
        &&& verdict.point == r.points.len() ==> r.open_verdict_ok(verdict)
    } by {
        let verdict = s.log[q];
        assert(verdict.point == count ==> s.open_verdict_ok(verdict));
        if verdict.point < count {
            assert(r.points[verdict.point] == s.points[verdict.point]);
        }
    }
    assert forall|j: int, c: int, i: int|
        1 <= j < r.points.len() && total_length(r.points.take(j)) + 2 * r.min_step <= r.row_end()
            && 1 <= c <= r.points[j].class && r.checkpoint(
            total_length(r.points.take(j)),
            c,
            i,
        ) implies #[trigger] r.tested(j, c, i) by {
        if j < count {
            assert(r.points.take(j) =~= s.points.take(j));
            assert(r.points[j] == s.points[j]);
            assert(s.checkpoint(total_length(s.points.take(j)), c, i));
            assert(s.tested(j, c, i));
        } else {
            assert(s.checkpoint(s.index_start, c, i));
            assert(s.tested(count, c, i));
        }
    }
}

/// An emission keeps the invariant.
pub proof fn lemma_after_point_inv(s: State, half_bits: u16)
    requires
        s.inv(),
        s.stage == Stage::Emit,
    ensures
        s.after_point(half_bits).inv(),
{
    lemma_after_point_stream(s, half_bits);
    lemma_after_point_points(s, half_bits);
    lemma_after_point_stage(s, half_bits);
    lemma_after_point_log(s, half_bits);
}

} // verus!
