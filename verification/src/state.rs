//! The mathematical model of one compression pass.
//!
//! A pass is a sequence of questions to the caller, who alone can compute on
//! the samples. The model says which question comes next and what each reply
//! changes. All positions are indices into the row.

use vstd::prelude::*;
use crate::encoder::{high_byte, tagged_low};
use crate::classes::substep_of;

verus! {

/// What the pass waits for.
#[derive(Clone, Copy, Debug, PartialEq, Eq, Structural)]
pub enum Stage {
    /// The half-precision bits of the sample that is emitted next.
    Emit,
    /// The verdict on the midpoint of the shortest segment.
    Midpoint,
    /// The verdict on one checkpoint of a longer candidate segment.
    Probe,
    /// Nothing: the row is covered.
    Done,
}

/// What the caller is asked to do next. Every position is an index into the row.
#[derive(Clone, Copy, Debug, PartialEq, Eq, Structural)]
pub enum Action {
    /// Round sample `index` to half precision and supply its bits; the point
    /// is written with class `class`.
    Encode { index: usize, class: u8 },
    /// Draw the line from sample `from` to sample `end`, take its rise over
    /// `length`, and go `substep` along it from the value of `from`. Accept if
    /// sample `mid` is nearer to the value reached than the tolerance.
    Midpoint { from: usize, mid: usize, end: usize, length: usize, substep: usize },
    /// Draw the line from sample `from` to sample `end` and take its rise over
    /// `length`, times `substep`, as the increment. Where `first` holds, start
    /// from the value of `from`; else go on from the value reached at the
    /// checkpoint before. Add the increment once. Accept unless sample `index`
    /// is further from the value reached than the tolerance.
    Probe { from: usize, end: usize, length: usize, substep: usize, index: usize, first: bool },
    /// Nothing is left to do.
    Done,
}

/// What the caller hands back.
#[derive(Clone, Copy, Debug, PartialEq, Eq, Structural)]
pub enum Reply {
    /// The verdict on a test: whether the sample lies within the tolerance of the line.
    Fit(bool),
    /// The half-precision bits of the sample that is owed.
    Bits(u16),
}

/// The action is one that a pass over a row of `row_len` samples may ask
/// for: every sample that it names lies in the row, and its length and
/// stride are not zero.
pub open spec fn in_row(action: Action, row_len: int) -> bool {
    match action {
        Action::Encode { index, class } => index < row_len && class <= 7,
        Action::Midpoint { from, mid, end, length, substep } => from < row_len && mid < end
            < row_len && length >= 1 && substep >= 1,
        Action::Probe { from, end, length, substep, index, first } => from < row_len && index
            <= end < row_len && length >= 1 && substep >= 1,
        Action::Done => false,
    }
}

/// The reply is of the kind that the action asks for: bits for a sample to
/// encode, a verdict for a test.
pub open spec fn in_kind(action: Action, reply: Reply) -> bool {
    match action {
        Action::Encode { .. } => reply is Bits,
        Action::Midpoint { .. } => reply is Fit,
        Action::Probe { .. } => reply is Fit,
        Action::Done => false,
    }
}

/// One emitted point, as the model remembers it.
pub ghost struct Point {
    /// The index of the sample whose value the point holds.
    pub index: int,
    /// The length class that the point is tagged with.
    pub class: int,
    /// The number of samples by which the point moved the start of the next segment.
    pub length: int,
    /// The half-precision bits that the caller supplied for the sample.
    pub half_bits: u16,
}

/// One verdict of the caller, as the model remembers it.
pub ghost struct Verdict {
    /// The number of points emitted before the segment under test.
    pub point: int,
    /// The class that the test stood for: 1 for the midpoint test, else the candidate's.
    pub class: int,
    /// The index of the sample tested.
    pub index: int,
    /// Whether the sample lay within the tolerance of the line.
    pub accepted: bool,
}

/// The state of a pass.
pub ghost struct State {
    /// The smallest step by which a segment advances.
    pub min_step: int,
    /// The number of samples in the row.
    pub row_len: int,
    /// What the pass waits for.
    pub stage: Stage,
    /// The index at which the current segment starts.
    pub index_start: int,
    /// The index of the sample whose value the current segment starts from.
    pub anchor: int,
    /// The class accepted so far; while a point is owed, its class.
    pub class_valid: int,
    /// The step accepted so far, never more than what is left of the row;
    /// while a point is owed, the step that its emission takes.
    pub step_valid: int,
    /// The endpoint accepted so far; while a point is owed, the index of its sample.
    pub end_valid: int,
    /// The endpoint of the candidate under test.
    pub index_end: int,
    /// The length that the slope of the candidate is taken over.
    pub length: int,
    /// The checkpoint under test.
    pub index_check: int,
    /// The output buffer.
    pub buffer: Seq<u8>,
    /// The points emitted so far, oldest first.
    pub points: Seq<Point>,
    /// The number of samples read so far. The two samples of a midpoint test
    /// and the sample of a checkpoint count when the verdict comes in, the
    /// endpoint of a candidate when the candidate is formed, the first and the
    /// forced last sample when they are emitted.
    pub accesses: int,
    /// The verdicts given so far, oldest first.
    pub log: Seq<Verdict>,
}

/// The step of a segment of the given class that no row boundary cuts short:
/// the smallest step for class 1, doubled with each further class.
pub open spec fn nominal_step(min_step: int, class: int) -> int
    decreases class,
{
    if class <= 1 {
        min_step
    } else {
        2 * nominal_step(min_step, class - 1)
    }
}

/// The smaller of two integers.
pub open spec fn least(a: int, b: int) -> int {
    if a <= b {
        a
    } else {
        b
    }
}

/// The sum of the lengths of the given points.
pub open spec fn total_length(points: Seq<Point>) -> int
    decreases points.len(),
{
    if points.len() == 0 {
        0
    } else {
        total_length(points.drop_last()) + points.last().length
    }
}

/// The bytes that the given points take in the stream.
pub open spec fn stream_of(points: Seq<Point>) -> Seq<u8>
    decreases points.len(),
{
    if points.len() == 0 {
        Seq::<u8>::empty()
    } else {
        stream_of(points.drop_last()).push(
            tagged_low(points.last().half_bits, points.last().class as u8),
        ).push(high_byte(points.last().half_bits))
    }
}

/// The most samples that a segment has read once it has accepted class
/// `class` with step `step`, its midpoint test apart: for each class above the
/// first, an endpoint and at most three checkpoints for each sample of the step.
pub open spec fn charge(class: int, step: int) -> int {
    (class - 1) * (1 + 3 * step)
}

/// The longest row that a pass takes: twice its length must fit the machine's word.
pub open spec fn max_row_len() -> int {
    usize::MAX as int / 2
}

/// A pass takes the row: it is a single sample, or at least as long as the
/// smallest step. A row between the two could need more bytes than the
/// capacity allows for.
pub open spec fn row_fits(min_step: int, row_len: int) -> bool {
    1 <= min_step && 1 <= row_len && (row_len == 1 || min_step <= row_len)
}

/// The number of bytes that a buffer must hold for a row of `row_len` samples.
pub open spec fn capacity_for(row_len: int, min_step: int) -> int {
    (row_len / min_step) * 2 + 2
}

impl State {
    /// The index of the last sample.
    pub open spec fn row_end(self) -> int {
        self.row_len - 1
    }

    /// The number of samples between the start of the current segment and the last sample.
    pub open spec fn remaining(self) -> int {
        self.row_end() - self.index_start
    }

    /// The part of the buffer that has been written.
    pub open spec fn stream(self) -> Seq<u8> {
        self.buffer.subrange(0, 2 * (self.points.len() as int))
    }

    /// Twice the step `step`, cut to what is left of the row.
    pub open spec fn doubled(self, step: int) -> int {
        least(2 * step, self.remaining())
    }

    /// What the caller is asked to do in this state.
    pub open spec fn action(self) -> Action {
        match self.stage {
            Stage::Emit => Action::Encode {
                index: self.end_valid as usize,
                class: self.class_valid as u8,
            },
            Stage::Midpoint => Action::Midpoint {
                from: self.anchor as usize,
                mid: (self.index_start + self.min_step) as usize,
                end: (self.index_start + 2 * self.min_step) as usize,
                length: (2 * self.min_step) as usize,
                substep: self.min_step as usize,
            },
            Stage::Probe => Action::Probe {
                from: self.anchor as usize,
                end: self.index_end as usize,
                length: self.length as usize,
                substep: substep_of(self.class_valid + 1) as usize,
                index: self.index_check as usize,
                first: self.index_check == self.index_start + substep_of(self.class_valid + 1),
            },
            Stage::Done => Action::Done,
        }
    }

    /// The state before anything is emitted: the first sample is owed, with class 0.
    pub open spec fn initial(min_step: int, row_len: int, buffer: Seq<u8>) -> State {
        State {
            min_step,
            row_len,
            stage: Stage::Emit,
            index_start: 0,
            anchor: 0,
            class_valid: 0,
            step_valid: 0,
            end_valid: 0,
            index_end: 0,
            length: 0,
            index_check: 0,
            buffer,
            points: Seq::<Point>::empty(),
            accesses: 0,
            log: Seq::<Verdict>::empty(),
        }
    }

    /// What follows an emission. Where two smallest steps still fit, a new
    /// segment starts with its midpoint test; where less is left, the last
    /// sample is owed with class 7; where nothing is left, the pass is over.
    pub open spec fn settled(self) -> State {
        if self.remaining() >= 2 * self.min_step {
            State { stage: Stage::Midpoint, ..self }
        } else if self.remaining() > 0 {
            State {
                stage: Stage::Emit,
                class_valid: 7,
                step_valid: self.remaining(),
                end_valid: self.row_end(),
                ..self
            }
        } else {
            State { stage: Stage::Done, ..self }
        }
    }

    /// The number of samples that the owed point has read: one for the first
    /// sample and for the forced last one, none for the endpoint of a
    /// segment, which a test has read before.
    pub open spec fn owed_reads(self) -> int {
        if self.points.len() == 0 || self.remaining() < 2 * self.min_step {
            1
        } else {
            0
        }
    }

    /// The state after the caller supplied the half-precision bits of the owed sample.
    pub open spec fn after_point(self, half_bits: u16) -> State {
        let offset: int = 2 * (self.points.len() as int);
        let point = Point {
            index: self.end_valid,
            class: self.class_valid,
            length: self.step_valid,
            half_bits,
        };
        State {
            buffer: self.buffer.update(offset, tagged_low(half_bits, self.class_valid as u8)).update(
                offset + 1,
                high_byte(half_bits),
            ),
            points: self.points.push(point),
            anchor: self.end_valid,
            index_start: self.index_start + self.step_valid,
            accesses: self.accesses + self.owed_reads(),
            ..self
        }.settled()
    }

    /// The state once class `class` is accepted with step `step`, endpoint
    /// `end` and slope length `length`. Class 7 is owed at once. Below it the
    /// next candidate reaches one step further, or to the last sample where
    /// that is nearer; its endpoint is read, and its first checkpoint comes
    /// under test; a candidate too short to hold a checkpoint is accepted
    /// untested.
    pub open spec fn grown(self, class: int, step: int, end: int, length: int) -> State
        decreases 7 - class,
    {
        if class >= 7 {
            State { stage: Stage::Emit, class_valid: class, step_valid: step, end_valid: end, ..self }
        } else {
            let clamped = end + step > self.row_end();
            let next_end = if clamped {
                self.row_end()
            } else {
                end + step
            };
            let next_length = if clamped {
                self.remaining()
            } else {
                2 * length
            };
            let stride = substep_of(class + 1);
            if self.index_start + stride <= next_end {
                State {
                    stage: Stage::Probe,
                    class_valid: class,
                    step_valid: step,
                    end_valid: end,
                    index_end: next_end,
                    length: next_length,
                    index_check: self.index_start + stride,
                    accesses: self.accesses + 1,
                    ..self
                }
            } else {
                State { accesses: self.accesses + 1, ..self }.grown(
                    class + 1,
                    self.doubled(step),
                    next_end,
                    next_length,
                )
            }
        }
    }

    /// The state in which a verdict has been counted and logged, before it is
    /// acted on: a midpoint test reads two samples, a checkpoint one.
    pub open spec fn heard(self, accepted: bool) -> State {
        if self.stage == Stage::Midpoint {
            State {
                accesses: self.accesses + 2,
                log: self.log.push(
                    Verdict {
                        point: self.points.len() as int,
                        class: 1,
                        index: self.index_start + self.min_step,
                        accepted,
                    },
                ),
                ..self
            }
        } else {
            State {
                accesses: self.accesses + 1,
                log: self.log.push(
                    Verdict {
                        point: self.points.len() as int,
                        class: self.class_valid + 1,
                        index: self.index_check,
                        accepted,
                    },
                ),
                ..self
            }
        }
    }

    /// The state after the caller's verdict on the test that the pass waits
    /// for. A midpoint that is rejected is owed with class 0; one that is
    /// accepted opens the growth with class 1. A checkpoint that is rejected
    /// ends the growth: the endpoint accepted before is owed with its class.
    /// One that is accepted is followed by the next checkpoint of the
    /// candidate, or, where it was the last, by the candidate's acceptance.
    pub open spec fn after_answer(self, accepted: bool) -> State {
        let read = self.heard(accepted);
        if self.stage == Stage::Midpoint {
            if accepted {
                read.grown(1, self.min_step, self.index_start + 2 * self.min_step, 2 * self.min_step)
            } else {
                State {
                    stage: Stage::Emit,
                    class_valid: 0,
                    step_valid: self.min_step,
                    end_valid: self.index_start + self.min_step,
                    ..read
                }
            }
        } else {
            if !accepted {
                State { stage: Stage::Emit, ..read }
            } else if self.index_check + substep_of(self.class_valid + 1) <= self.index_end {
                State { index_check: self.index_check + substep_of(self.class_valid + 1), ..read }
            } else {
                read.grown(
                    self.class_valid + 1,
                    self.doubled(self.step_valid),
                    self.index_end,
                    self.length,
                )
            }
        }
    }
}

impl State {
    /// Whether the reply is of the kind that the pass waits for.
    pub open spec fn takes(self, reply: Reply) -> bool {
        match reply {
            Reply::Fit(_) => self.stage == Stage::Midpoint || self.stage == Stage::Probe,
            Reply::Bits(_) => self.stage == Stage::Emit,
        }
    }

    /// The state after a reply. A reply of another kind than the pass waits
    /// for changes nothing.
    pub open spec fn after(self, reply: Reply) -> State {
        if !self.takes(reply) {
            self
        } else {
            match reply {
                Reply::Fit(accepted) => self.after_answer(accepted),
                Reply::Bits(half_bits) => self.after_point(half_bits),
            }
        }
    }

    /// The state after the replies, taken in order.
    pub open spec fn run(self, replies: Seq<Reply>) -> State
        decreases replies.len(),
    {
        if replies.len() == 0 {
            self
        } else {
            self.run(replies.drop_last()).after(replies.last())
        }
    }

    /// The two states differ in nothing but what their buffers hold.
    pub open spec fn alike(self, other: State) -> bool {
        self == (State { buffer: self.buffer, ..other })
    }

    /// The number of replies that the pass can still take at most.
    pub open spec fn steps_left(self) -> int {
        31 * self.row_len + 2 - self.accesses - self.points.len()
    }

    /// A segment can start at `index_start`: two smallest steps fit before the
    /// last sample, and no more points were emitted than smallest steps were taken.
    pub open spec fn segment_open(self) -> bool {
        &&& self.points.len() >= 1
        &&& (self.points.len() - 1) * self.min_step <= self.index_start
        &&& self.remaining() >= 2 * self.min_step
    }

    /// Step `step` and endpoint `end` are those of a segment of class `class`
    /// that starts at `index_start`: the nominal step and the sample one
    /// smallest step beyond it, each cut to the row.
    pub open spec fn fits_class(self, class: int, step: int, end: int) -> bool {
        &&& step == least(nominal_step(self.min_step, class), self.remaining())
        &&& end == least(
            self.index_start + nominal_step(self.min_step, class) + self.min_step,
            self.row_end(),
        )
    }

    /// The slope length of a segment of class `class` that starts at
    /// `index_start`: twice the nominal step, or what is left of the row where
    /// the endpoint had to be cut to it.
    pub open spec fn slope_length(self, class: int) -> int {
        if self.index_start + nominal_step(self.min_step, class) + self.min_step <= self.row_end() {
            2 * nominal_step(self.min_step, class)
        } else {
            self.remaining()
        }
    }

    /// The point is the one that its class stands for in a segment that
    /// starts at `start`: it moves the start by the nominal step of its class,
    /// and holds the sample one smallest step beyond that (for class 0, the
    /// midpoint), each cut to the row.
    pub open spec fn point_fits(self, start: int, point: Point) -> bool {
        &&& point.length == least(nominal_step(self.min_step, point.class), self.row_end() - start)
        &&& point.index == if point.class == 0 {
            start + self.min_step
        } else {
            least(start + nominal_step(self.min_step, point.class) + self.min_step, self.row_end())
        }
    }

    /// What holds of the owed point.
    pub open spec fn owed_ok(self) -> bool {
        if self.points.len() == 0 {
            &&& self.index_start == 0
            &&& self.class_valid == 0
            &&& self.step_valid == 0
            &&& self.end_valid == 0
        } else if self.remaining() >= 2 * self.min_step {
            &&& self.segment_open()
            &&& 0 <= self.class_valid <= 7
            &&& self.class_valid == 0 ==> self.step_valid == self.min_step && self.end_valid
                == self.index_start + self.min_step
            &&& self.class_valid >= 1 ==> self.fits_class(
                self.class_valid,
                self.step_valid,
                self.end_valid,
            )
        } else {
            &&& self.remaining() > 0
            &&& self.points.len() * self.min_step <= self.row_len
            &&& self.class_valid == 7
            &&& self.step_valid == self.remaining()
            &&& self.end_valid == self.row_end()
        }
    }

    /// What holds of the candidate under test.
    pub open spec fn candidate_ok(self) -> bool {
        &&& self.segment_open()
        &&& 1 <= self.class_valid <= 6
        &&& self.fits_class(self.class_valid, self.step_valid, self.end_valid)
        &&& self.index_end == least(
            self.index_start + nominal_step(self.min_step, self.class_valid + 1) + self.min_step,
            self.row_end(),
        )
        &&& self.length == self.slope_length(self.class_valid + 1)
        &&& self.index_start < self.index_check <= self.index_end
        &&& (self.index_check - self.index_start) % substep_of(self.class_valid + 1) == 0
    }

    /// The positions lie in the row, and the buffer is large enough for it.
    pub open spec fn bounds_ok(self) -> bool {
        &&& row_fits(self.min_step, self.row_len)
        &&& 0 <= self.index_start <= self.row_end()
        &&& 0 <= self.anchor <= self.row_end()
        &&& self.buffer.len() >= capacity_for(self.row_len, self.min_step)
    }

    /// The points account for the row up to the start of the current segment,
    /// and each is the point that its class stands for.
    pub open spec fn points_ok(self) -> bool {
        &&& total_length(self.points) == self.index_start
        &&& forall|j: int|
            0 <= j < self.points.len() ==> 0 <= (#[trigger] self.points[j]).index <= self.row_end()
                && 0 <= self.points[j].class <= 7
        &&& self.points.len() >= 1 ==> self.points[0].index == 0 && self.points[0].class == 0
            && self.points[0].length == 0 && self.points.last().index == self.anchor
        &&& forall|j: int|
            1 <= j < self.points.len() ==> self.point_fits(
                total_length(self.points.take(j)),
                #[trigger] self.points[j],
            )
    }

    /// What the stage promises of the fields that it uses.
    pub open spec fn stage_ok(self) -> bool {
        match self.stage {
            Stage::Emit => self.owed_ok(),
            Stage::Midpoint => self.segment_open(),
            Stage::Probe => self.candidate_ok(),
            Stage::Done => {
                &&& self.points.len() >= 1
                &&& (self.points.len() - 1) * self.min_step <= self.row_len
                &&& self.index_start == self.row_end()
                &&& self.anchor == self.row_end()
            },
        }
    }

    /// The bound on the number of samples read, by stage. A finished segment
    /// has read at most thirty samples for each sample that it advanced by;
    /// within a segment, each class accepted so far has been paid for at the
    /// accepted step, and the candidate under test up to its checkpoint.
    pub open spec fn reads_ok(self) -> bool {
        &&& 0 <= self.accesses
        &&& match self.stage {
            Stage::Emit => if self.points.len() == 0 {
                self.accesses == 0
            } else if self.remaining() >= 2 * self.min_step {
                self.accesses <= 1 + 30 * (self.index_start + self.step_valid)
            } else {
                self.accesses <= 1 + 30 * self.index_start
            },
            Stage::Midpoint => self.accesses <= 1 + 30 * self.index_start,
            Stage::Probe => self.accesses <= 3 + 30 * self.index_start + charge(
                self.class_valid,
                self.step_valid,
            ) + (self.index_check - self.index_start),
            Stage::Done => self.accesses <= 1 + 30 * self.row_end(),
        }
    }

    /// Class `class` can be accepted with step `step`, endpoint `end` and
    /// slope length `length`: a segment is open, these are the values of the
    /// class, and the samples read so far are within its charge.
    pub open spec fn growing(self, class: int, step: int, end: int, length: int) -> bool {
        &&& self.bounds_ok()
        &&& self.stream() == stream_of(self.points)
        &&& self.points_ok()
        &&& self.segment_open()
        &&& 1 <= class <= 7
        &&& self.fits_class(class, step, end)
        &&& length == self.slope_length(class)
        &&& 0 <= self.accesses <= 3 + 30 * self.index_start + charge(class, step)
    }

    /// What holds of the positions, the points and the count of reads of
    /// every state that a pass goes through.
    pub open spec fn frame(self) -> bool {
        &&& self.bounds_ok()
        &&& self.stream() == stream_of(self.points)
        &&& self.points_ok()
        &&& self.stage_ok()
        &&& self.reads_ok()
    }

    /// Sample `index` is a checkpoint of class `class` in a segment that
    /// starts at `start`: for class 1 the midpoint; for a higher class a
    /// sample a multiple of the class's stride beyond the start, up to the
    /// endpoint of the class.
    pub open spec fn checkpoint(self, start: int, class: int, index: int) -> bool {
        if class == 1 {
            index == start + self.min_step
        } else {
            &&& 2 <= class <= 7
            &&& start < index <= least(
                start + nominal_step(self.min_step, class) + self.min_step,
                self.row_end(),
            )
            &&& (index - start) % substep_of(class) == 0
        }
    }

    /// The caller has accepted sample `index` in the test of class `class`
    /// of the segment that `point` points came before.
    pub open spec fn tested(self, point: int, class: int, index: int) -> bool {
        self.log.contains(Verdict { point, class, index, accepted: true })
    }

    /// Whether the segment that is open may hold the verdict.
    pub open spec fn open_verdict_ok(self, verdict: Verdict) -> bool {
        match self.stage {
            Stage::Probe => verdict.accepted && verdict.class <= self.class_valid + 1,
            Stage::Emit => self.points.len() >= 1 && self.remaining() >= 2 * self.min_step && (
            verdict.accepted || self.class_valid < verdict.class),
            _ => false,
        }
    }

    /// No verdict against a class stands behind a point of that class or a higher one.
    pub open spec fn log_sound(self) -> bool {
        forall|q: int|
            0 <= q < self.log.len() ==> {
                let verdict = #[trigger] self.log[q];
                &&& 1 <= verdict.point <= self.points.len()
                &&& verdict.point < self.points.len() ==> verdict.accepted
                    || self.points[verdict.point].class < verdict.class
                &&& verdict.point == self.points.len() ==> self.open_verdict_ok(verdict)
            }
    }

    /// Every checkpoint of every class up to `class` of the segment that is
    /// open has been accepted.
    pub open spec fn open_tested(self, class: int) -> bool {
        forall|c: int, i: int|
            1 <= c <= class && self.checkpoint(self.index_start, c, i) ==> #[trigger] self.tested(
                self.points.len() as int,
                c,
                i,
            )
    }

    /// Every checkpoint of the candidate under test before the one that is
    /// asked for has been accepted.
    pub open spec fn candidate_tested(self) -> bool {
        forall|i: int|
            i < self.index_check && self.checkpoint(self.index_start, self.class_valid + 1, i)
                ==> #[trigger] self.tested(self.points.len() as int, self.class_valid + 1, i)
    }

    /// Every checkpoint of every class up to its own has been accepted for
    /// each point that closes a segment.
    pub open spec fn points_tested(self) -> bool {
        forall|j: int, c: int, i: int|
            1 <= j < self.points.len() && total_length(self.points.take(j)) + 2 * self.min_step
                <= self.row_end() && 1 <= c <= self.points[j].class && self.checkpoint(
                total_length(self.points.take(j)),
                c,
                i,
            ) ==> #[trigger] self.tested(j, c, i)
    }

    /// What holds of the verdicts while class `class` is accepted for the
    /// segment that is open: none of its verdicts is against it, and every
    /// checkpoint of every class up to `class` has been accepted.
    pub open spec fn log_growing(self, class: int) -> bool {
        &&& forall|q: int|
            0 <= q < self.log.len() ==> {
                let verdict = #[trigger] self.log[q];
                &&& 1 <= verdict.point <= self.points.len()
                &&& verdict.point < self.points.len() ==> verdict.accepted
                    || self.points[verdict.point].class < verdict.class
                &&& verdict.point == self.points.len() ==> verdict.accepted && verdict.class
                    <= class
            }
        &&& self.points_tested()
        &&& self.open_tested(class)
    }

    /// What holds of the verdicts of every state that a pass goes through.
    pub open spec fn log_ok(self) -> bool {
        &&& self.log_sound()
        &&& self.points_tested()
        &&& match self.stage {
            Stage::Probe => self.open_tested(self.class_valid) && self.candidate_tested(),
            Stage::Emit => self.points.len() >= 1 && self.remaining() >= 2 * self.min_step
                ==> self.open_tested(self.class_valid),
            _ => true,
        }
    }

    /// What holds of every state that a pass goes through.
    pub open spec fn inv(self) -> bool {
        self.frame() && self.log_ok()
    }
}

} // verus!
