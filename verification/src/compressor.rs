//! One compression pass over a row, driven by the caller's replies.
//!
//! The caller holds the samples and the tolerance. It asks the pass for its
//! next [`Action`], does the arithmetic that the action describes, and hands
//! the result back: a verdict with [`Compressor::answer`], the bits of a
//! rounded sample with [`Compressor::supply`]. The pass decides how far each
//! segment reaches, which checkpoints are tested, and what is written.

use vstd::prelude::*;
use crate::classes::{substep, MAX_STEP_E, MIN_STEP_E};
use crate::encoder::encode;
use crate::preservation::{
    lemma_after_answer_frame, lemma_after_answer_inv, lemma_after_point_inv, lemma_charge,
    lemma_growth_step, lemma_initial_inv, lemma_owed_point,
};
use crate::laws::{lemma_in_bounds, lemma_progress};
use crate::state::{
    capacity_for, in_row, max_row_len, row_fits, Action, Point, Reply, Stage, State, Verdict,
};

verus! {

/// A compression pass in progress.
pub struct Compressor {
    min_step: usize,
    row_len: usize,
    stage: Stage,
    index_start: usize,
    anchor: usize,
    class_valid: u8,
    step_valid: usize,
    end_valid: usize,
    index_end: usize,
    length: usize,
    index_check: usize,
    compressed: Vec<u8>,
    count: usize,
    accesses: u128,
    points: Ghost<Seq<Point>>,
    log: Ghost<Seq<Verdict>>,
}

impl View for Compressor {
    type V = State;

    closed spec fn view(&self) -> State {
        State {
            min_step: self.min_step as int,
            row_len: self.row_len as int,
            stage: self.stage,
            index_start: self.index_start as int,
            anchor: self.anchor as int,
            class_valid: self.class_valid as int,
            step_valid: self.step_valid as int,
            end_valid: self.end_valid as int,
            index_end: self.index_end as int,
            length: self.length as int,
            index_check: self.index_check as int,
            buffer: self.compressed@,
            points: self.points@,
            accesses: self.accesses as int,
            log: self.log@,
        }
    }
}

/// The number of bytes that the buffer for a row of `row_len` samples must
/// hold, where that number fits the machine's word.
pub fn buffer_capacity(row_len: usize, min_segment_length: usize) -> (capacity: Option<usize>)
    requires
        min_segment_length >= 1,
    ensures
        capacity_for(row_len as int, min_segment_length as int) <= usize::MAX ==> capacity == Some(
            capacity_for(row_len as int, min_segment_length as int) as usize,
        ),
        capacity_for(row_len as int, min_segment_length as int) > usize::MAX ==> capacity.is_none(),
{
    let pairs: usize = row_len / min_segment_length;
    if pairs > (usize::MAX - 2) / 2 {
        None
    } else {
        Some(pairs * 2 + 2)
    }
}

/// Why a pass cannot start, or cannot go on.
#[derive(Clone, Copy, Debug, PartialEq, Eq, Structural)]
pub enum Refusal {
    /// The caller's reply was of another kind than the pass waited for.
    MisplacedReply,
    /// The smallest segment length is zero.
    ZeroSegmentLength,
    /// The row is empty, or has more than one sample and fewer than the
    /// smallest segment length.
    RowTooShort,
    /// Twice the row's length does not fit the machine's word.
    RowTooLong,
    /// The buffer is smaller than the row may need.
    CapacityViolation,
}

/// Whether a pass over a row of `row_len` samples can start with a buffer of
/// `capacity` bytes, and if not, the first reason why.
pub open spec fn refusal_of(min_step: int, row_len: int, capacity: int) -> Option<Refusal> {
    if min_step < 1 {
        Some(Refusal::ZeroSegmentLength)
    } else if !row_fits(min_step, row_len) {
        Some(Refusal::RowTooShort)
    } else if row_len > max_row_len() {
        Some(Refusal::RowTooLong)
    } else if capacity < capacity_for(row_len, min_step) {
        Some(Refusal::CapacityViolation)
    } else {
        None
    }
}

impl Compressor {
    /// The stored count is that of the model's points, and the row is not too long.
    pub closed spec fn consistent(&self) -> bool {
        &&& self.count == self.points@.len()
        &&& self.row_len <= max_row_len()
    }

    /// The pass is in a state that a pass can reach.
    pub closed spec fn wf(&self) -> bool {
        self@.inv() && self.consistent()
    }

    /// A pass that is well-formed keeps the invariant of the model, so that
    /// all that is proved of the model holds of it.
    pub proof fn lemma_wf(&self)
        requires
            self.wf(),
        ensures
            self@.inv(),
            self@.row_len <= max_row_len(),
    {
    }

    /// Every reply that the pass takes brings its end nearer.
    pub proof fn lemma_reply_progress(&self, reply: Reply)
        requires
            self.wf(),
            self@.takes(reply),
        ensures
            0 <= self@.after(reply).steps_left() < self@.steps_left(),
            self@.after(reply).row_len == self@.row_len,
    {
        lemma_progress(self@, reply);
    }

    /// Until the pass is over, it asks for no sample outside the row.
    pub proof fn lemma_asks_in_row(&self)
        requires
            self.wf(),
        ensures
            self@.stage == Stage::Done || in_row(self@.action(), self@.row_len),
    {
        lemma_in_bounds(self@);
    }

    /// Starts a pass over a row of `row_len` samples, writing into `compressed`.
    pub fn new(min_segment_length: usize, row_len: usize, compressed: Vec<u8>) -> (pass: Compressor)
        requires
            row_fits(min_segment_length as int, row_len as int),
            row_len <= max_row_len(),
            compressed.len() >= capacity_for(row_len as int, min_segment_length as int),
        ensures
            pass.wf(),
            pass@ == State::initial(min_segment_length as int, row_len as int, compressed@),
    {
        proof {
            lemma_initial_inv(min_segment_length as int, row_len as int, compressed@);
        }
        Compressor {
            min_step: min_segment_length,
            row_len,
            stage: Stage::Emit,
            index_start: 0,
            anchor: 0,
            class_valid: 0,
            step_valid: 0,
            end_valid: 0,
            index_end: 0,
            length: 0,
            index_check: 0,
            compressed,
            count: 0,
            accesses: 0,
            points: Ghost(Seq::empty()),
            log: Ghost(Seq::empty()),
        }
    }

    /// Starts a pass as [`Compressor::new`] does, where one can start, and
    /// says why not where none can.
    pub fn try_new(min_segment_length: usize, row_len: usize, compressed: Vec<u8>) -> (pass: Result<
        Compressor,
        Refusal,
    >)
        ensures
            match pass {
                Ok(pass) => refusal_of(
                    min_segment_length as int,
                    row_len as int,
                    compressed.len() as int,
                ).is_none() && pass.wf() && pass@ == State::initial(
                    min_segment_length as int,
                    row_len as int,
                    compressed@,
                ),
                Err(refusal) => refusal_of(
                    min_segment_length as int,
                    row_len as int,
                    compressed.len() as int,
                ) == Some(refusal),
            },
    {
        if min_segment_length < 1 {
            return Err(Refusal::ZeroSegmentLength);
        }
        if row_len < 1 || (row_len > 1 && row_len < min_segment_length) {
            return Err(Refusal::RowTooShort);
        }
        if row_len > usize::MAX / 2 {
            return Err(Refusal::RowTooLong);
        }
        match buffer_capacity(row_len, min_segment_length) {
            Some(capacity) => {
                if compressed.len() < capacity {
                    return Err(Refusal::CapacityViolation);
                }
            },
            None => {
                return Err(Refusal::CapacityViolation);
            },
        }
        Ok(Compressor::new(min_segment_length, row_len, compressed))
    }

    /// What the pass waits for.
    pub fn stage(&self) -> (stage: Stage)
        ensures
            stage == self@.stage,
    {
        self.stage
    }

    /// Whether the row is covered.
    pub fn is_done(&self) -> (done: bool)
        ensures
            done == (self@.stage == Stage::Done),
    {
        match self.stage {
            Stage::Done => true,
            _ => false,
        }
    }

    /// The number of points emitted so far.
    pub fn points(&self) -> (count: usize)
        requires
            self.wf(),
        ensures
            count == self@.points.len(),
    {
        self.count
    }

    /// The number of samples read so far.
    pub fn row_accesses(&self) -> (accesses: u128)
        ensures
            accesses == self@.accesses,
    {
        self.accesses
    }

    /// What the caller is asked to do next.
    pub fn action(&self) -> (action: Action)
        requires
            self.wf(),
        ensures
            action == self@.action(),
    {
        match self.stage {
            Stage::Emit => Action::Encode { index: self.end_valid, class: self.class_valid },
            Stage::Midpoint => Action::Midpoint {
                from: self.anchor,
                mid: self.index_start + self.min_step,
                end: self.index_start + 2 * self.min_step,
                length: 2 * self.min_step,
                substep: self.min_step,
            },
            Stage::Probe => {
                let stride: usize = substep(self.class_valid + 1);
                Action::Probe {
                    from: self.anchor,
                    end: self.index_end,
                    length: self.length,
                    substep: stride,
                    index: self.index_check,
                    first: self.index_check - self.index_start == stride,
                }
            },
            Stage::Done => Action::Done,
        }
    }

    /// Decides what follows an emission.
    fn settle(&mut self)
        requires
            1 <= old(self).min_step,
            old(self).index_start < old(self).row_len,
        ensures
            final(self)@ == old(self)@.settled(),
            final(self).consistent() == old(self).consistent(),
    {
        let remaining: usize = self.row_len - 1 - self.index_start;
        if remaining / 2 >= self.min_step {
            self.stage = Stage::Midpoint;
        } else if remaining > 0 {
            self.stage = Stage::Emit;
            self.class_valid = MAX_STEP_E;
            self.step_valid = remaining;
            self.end_valid = self.row_len - 1;
        } else {
            self.stage = Stage::Done;
        }
    }

    /// Takes the bits of the owed sample, rounded to half precision, writes
    /// the point, and moves the start of the next segment.
    pub fn supply(&mut self, half_bits: u16)
        requires
            old(self).wf(),
            old(self)@.stage == Stage::Emit,
        ensures
            final(self).wf(),
            final(self)@ == old(self)@.after_point(half_bits),
    {
        proof {
            lemma_after_point_inv(self@, half_bits);
            lemma_owed_point(self@);
        }
        let ghost point = Point {
            index: self.end_valid as int,
            class: self.class_valid as int,
            length: self.step_valid as int,
            half_bits,
        };
        let reads: u128 = if self.count == 0 || (self.row_len - 1 - self.index_start) / 2
            < self.min_step {
            1
        } else {
            0
        };
        assert(reads == self@.owed_reads());
        assert(self.accesses + reads <= u128::MAX);
        assert(self.index_start + self.step_valid < self.row_len);
        assert(2 * self.count + 2 <= self.compressed.len());
        self.accesses = self.accesses + reads;
        encode(half_bits, self.class_valid, &mut self.compressed, 2 * self.count);
        self.count = self.count + 1;
        self.points = Ghost(self.points@.push(point));
        self.anchor = self.end_valid;
        self.index_start = self.index_start + self.step_valid;
        let ghost moved = self@;
        self.settle();
        assert(self@ == moved.settled());
    }

    /// Accepts `class` with the given step, endpoint and slope length, and
    /// goes on to the first candidate that has a checkpoint.
    fn grow(&mut self, class: u8, step: usize, end: usize, length: usize)
        requires
            old(self)@.growing(class as int, step as int, end as int, length as int),
            old(self).consistent(),
        ensures
            final(self)@ == old(self)@.grown(class as int, step as int, end as int, length as int),
            final(self).consistent(),
    {
        let row_end: usize = self.row_len - 1;
        let remaining: usize = row_end - self.index_start;
        let mut reached: u8 = class;
        let mut stride_step: usize = step;
        let mut endpoint: usize = end;
        let mut slope: usize = length;
        while reached < MAX_STEP_E
            invariant
                self.consistent(),
                self@ == (State { accesses: self@.accesses, ..old(self)@ }),
                self@.growing(reached as int, stride_step as int, endpoint as int, slope as int),
                row_end == self@.row_end(),
                remaining == self@.remaining(),
                self@.grown(reached as int, stride_step as int, endpoint as int, slope as int)
                    == old(self)@.grown(class as int, step as int, end as int, length as int),
            decreases MAX_STEP_E - reached,
        {
            proof {
                lemma_growth_step(
                    self@,
                    reached as int,
                    stride_step as int,
                    endpoint as int,
                    slope as int,
                );
                lemma_charge(reached as int, stride_step as int, self@.doubled(stride_step as int));
                lemma_charge(reached as int, stride_step as int, stride_step as int);
            }
            self.accesses = self.accesses + 1;
            let clamped: bool = stride_step > row_end - endpoint;
            let next_end: usize = if clamped {
                row_end
            } else {
                endpoint + stride_step
            };
            let next_slope: usize = if clamped {
                remaining
            } else {
                2 * slope
            };
            let stride: usize = substep(reached + 1);
            if stride <= next_end - self.index_start {
                self.stage = Stage::Probe;
                self.class_valid = reached;
                self.step_valid = stride_step;
                self.end_valid = endpoint;
                self.index_end = next_end;
                self.length = next_slope;
                self.index_check = self.index_start + stride;
                return ;
            }
            stride_step = if stride_step > remaining - stride_step {
                remaining
            } else {
                2 * stride_step
            };
            reached = reached + 1;
            endpoint = next_end;
            slope = next_slope;
        }
        self.stage = Stage::Emit;
        self.class_valid = reached;
        self.step_valid = stride_step;
        self.end_valid = endpoint;
    }

    /// Takes the caller's verdict on the test that the pass waits for:
    /// `accepted` says that the sample lies within the tolerance of the line.
    pub fn answer(&mut self, accepted: bool)
        requires
            old(self).wf(),
            old(self)@.stage == Stage::Midpoint || old(self)@.stage == Stage::Probe,
        ensures
            final(self).wf(),
            final(self)@ == old(self)@.after_answer(accepted),
    {
        proof {
            lemma_after_answer_inv(self@, accepted);
            lemma_after_answer_frame(self@, accepted);
        }
        match self.stage {
            Stage::Midpoint => {
                self.accesses = self.accesses + 2;
                self.log = Ghost(
                    self.log@.push(
                        Verdict {
                            point: self.count as int,
                            class: 1,
                            index: self.index_start + self.min_step,
                            accepted,
                        },
                    ),
                );
                assert(self@ == old(self)@.heard(accepted));
                if accepted {
                    let step: usize = self.min_step;
                    self.grow(1, step, self.index_start + 2 * step, 2 * step);
                } else {
                    self.stage = Stage::Emit;
                    self.class_valid = MIN_STEP_E;
                    self.step_valid = self.min_step;
                    self.end_valid = self.index_start + self.min_step;
                }
            },
            _ => {
                proof {
                    lemma_growth_step(
                        self@,
                        self@.class_valid,
                        self@.step_valid,
                        self@.end_valid,
                        self@.slope_length(self@.class_valid),
                    );
                    lemma_charge(
                        self@.class_valid,
                        self@.step_valid,
                        self@.doubled(self@.step_valid),
                    );
                }
                self.accesses = self.accesses + 1;
                self.log = Ghost(
                    self.log@.push(
                        Verdict {
                            point: self.count as int,
                            class: self.class_valid + 1,
                            index: self.index_check as int,
                            accepted,
                        },
                    ),
                );
                assert(self@ == old(self)@.heard(accepted));
                if !accepted {
                    self.stage = Stage::Emit;
                } else {
                    let stride: usize = substep(self.class_valid + 1);
                    if stride <= self.index_end - self.index_check {
                        self.index_check = self.index_check + stride;
                    } else {
                        let remaining: usize = self.row_len - 1 - self.index_start;
                        let step: usize = if self.step_valid > remaining - self.step_valid {
                            remaining
                        } else {
                            2 * self.step_valid
                        };
                        self.grow(self.class_valid + 1, step, self.index_end, self.length);
                    }
                }
            },
        }
    }

    /// Takes a reply of either kind. One of another kind than the pass waits
    /// for changes nothing; the result says whether the reply was taken.
    pub fn reply(&mut self, reply: Reply) -> (taken: bool)
        requires
            old(self).wf(),
        ensures
            final(self).wf(),
            taken == old(self)@.takes(reply),
            final(self)@ == old(self)@.after(reply),
    {
        match reply {
            Reply::Fit(accepted) => {
                match self.stage {
                    Stage::Midpoint | Stage::Probe => {
                        self.answer(accepted);
                        true
                    },
                    _ => false,
                }
            },
            Reply::Bits(half_bits) => {
                match self.stage {
                    Stage::Emit => {
                        self.supply(half_bits);
                        true
                    },
                    _ => false,
                }
            },
        }
    }

    /// Ends the pass and hands back the buffer with the number of points in it.
    pub fn into_stream(self) -> (stream: (Vec<u8>, usize))
        requires
            self.wf(),
        ensures
            stream.0@ == self@.buffer,
            stream.1 == self@.points.len(),
    {
        (self.compressed, self.count)
    }
}

} // verus!
