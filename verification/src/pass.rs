//! A whole pass in one call, for a caller that can answer every action.

use vstd::prelude::*;
use crate::compressor::{refusal_of, Compressor, Refusal};
use crate::laws::{lemma_after_alike, lemma_same_replies_same_stream, lemma_takes_in_kind};
use crate::state::{in_kind, in_row, Action, Reply, Stage, State};

verus! {

/// What a finished pass hands back.
pub struct Compressed {
    /// The buffer; its first `2 * points` bytes are the stream.
    pub stream: Vec<u8>,
    /// The number of points in the stream.
    pub points: usize,
    /// The number of samples read.
    pub row_accesses: u128,
}

/// Every reply is one that `oracle` gives to the action that the pass asks
/// for at that moment, and is of the kind that the pass waits for.
pub open spec fn answered<F: Fn(Action) -> Reply>(
    oracle: F,
    start: State,
    replies: Seq<Reply>,
) -> bool {
    forall|k: int|
        0 <= k < replies.len() ==> call_ensures(
            oracle,
            (start.run(replies.take(k)).action(),),
            #[trigger] replies[k],
        ) && start.run(replies.take(k)).takes(replies[k])
}

/// The pass that starts at `start` ends with `done` after the oracle's replies.
pub open spec fn ends_with<F: Fn(Action) -> Reply>(
    oracle: F,
    start: State,
    replies: Seq<Reply>,
    done: Compressed,
) -> bool {
    &&& answered(oracle, start, replies)
    &&& start.run(replies).stage == Stage::Done
    &&& done.stream@ == start.run(replies).buffer
    &&& done.points == start.run(replies).points.len()
    &&& done.row_accesses == start.run(replies).accesses
}

/// After the oracle's replies to the pass that starts at `start`, the pass
/// is not over, and to its next action the oracle gives `misplaced`, which is
/// of another kind than the action asks for.
pub open spec fn gives_up<F: Fn(Action) -> Reply>(
    oracle: F,
    start: State,
    replies: Seq<Reply>,
    misplaced: Reply,
) -> bool {
    &&& answered(oracle, start, replies)
    &&& start.run(replies).stage != Stage::Done
    &&& call_ensures(oracle, (start.run(replies).action(),), misplaced)
    &&& !in_kind(start.run(replies).action(), misplaced)
}

/// The oracle takes every action that a pass over a row of `row_len` samples
/// may ask for.
pub open spec fn takes_all<F: Fn(Action) -> Reply>(oracle: F, row_len: int) -> bool {
    forall|action: Action| in_row(action, row_len) ==> #[trigger] call_requires(oracle, (action,))
}

/// The oracle answers each action of a pass over a row of `row_len` samples
/// in kind: with bits where a sample is to be encoded, with a verdict on a test.
pub open spec fn answers_in_kind<F: Fn(Action) -> Reply>(oracle: F, row_len: int) -> bool {
    forall|action: Action, reply: Reply|
        in_row(action, row_len) && #[trigger] call_ensures(oracle, (action,), reply) ==> in_kind(
            action,
            reply,
        )
}

/// Runs a pass over a row of `row_len` samples to its end, asking `oracle`
/// for the reply to each action.
///
/// Whatever the oracle replies, the pass ends. A pass that can start and
/// whose oracle answers in kind ends well: the outcome is that of the pass
/// after the oracle's replies, and the row is covered. Only where the oracle
/// gives a reply of the wrong kind before the pass is over is the pass given
/// up.
pub fn compress<F: Fn(Action) -> Reply>(
    min_segment_length: usize,
    row_len: usize,
    compressed: Vec<u8>,
    oracle: F,
) -> (outcome: Result<Compressed, Refusal>)
    requires
        takes_all(oracle, row_len as int),
    ensures
        refusal_of(min_segment_length as int, row_len as int, compressed.len() as int).is_none()
            && answers_in_kind(oracle, row_len as int) ==> outcome is Ok,
        outcome is Ok ==> refusal_of(
            min_segment_length as int,
            row_len as int,
            compressed.len() as int,
        ).is_none(),
        outcome matches Ok(done) ==> exists|replies: Seq<Reply>| #[trigger]
            ends_with(
                oracle,
                State::initial(min_segment_length as int, row_len as int, compressed@),
                replies,
                done,
            ),
        outcome matches Err(refusal) ==> if refusal == Refusal::MisplacedReply {
            refusal_of(
                min_segment_length as int,
                row_len as int,
                compressed.len() as int,
            ).is_none() && exists|replies: Seq<Reply>, misplaced: Reply| #[trigger]
                gives_up(
                    oracle,
                    State::initial(min_segment_length as int, row_len as int, compressed@),
                    replies,
                    misplaced,
                )
        } else {
            refusal_of(min_segment_length as int, row_len as int, compressed.len() as int) == Some(
                refusal,
            )
        },
{
    let ghost buffer = compressed@;
    let ghost start = State::initial(min_segment_length as int, row_len as int, buffer);
    let mut pass = match Compressor::try_new(min_segment_length, row_len, compressed) {
        Ok(pass) => pass,
        Err(refusal) => {
            return Err(refusal);
        },
    };
    let ghost mut replies: Seq<Reply> = Seq::empty();
    while !pass.is_done()
        invariant
            pass.wf(),
            pass@ == start.run(replies),
            pass@.row_len == row_len,
            answered(oracle, start, replies),
            takes_all(oracle, row_len as int),
            buffer == compressed@,
            start == State::initial(min_segment_length as int, row_len as int, buffer),
            refusal_of(min_segment_length as int, row_len as int, buffer.len() as int).is_none(),
        decreases pass@.steps_left(),
    {
        proof {
            pass.lemma_asks_in_row();
        }
        let action: Action = pass.action();
        let reply: Reply = oracle(action);
        proof {
            lemma_takes_in_kind(pass@, reply);
            if pass@.takes(reply) {
                pass.lemma_reply_progress(reply);
            }
        }
        let taken: bool = pass.reply(reply);
        if !taken {
            assert(gives_up(oracle, start, replies, reply));
            assert(!answers_in_kind(oracle, row_len as int)) by {
                assert(in_row(action, row_len as int));
                assert(call_ensures(oracle, (action,), reply));
                assert(!in_kind(action, reply));
            }
            return Err(Refusal::MisplacedReply);
        }
        proof {
            let longer = replies.push(reply);
            assert(longer.drop_last() =~= replies);
            assert(longer.take(replies.len() as int) =~= replies);
            assert forall|k: int| 0 <= k < longer.len() implies call_ensures(
                oracle,
                (start.run(longer.take(k)).action(),),
                #[trigger] longer[k],
            ) && start.run(longer.take(k)).takes(longer[k]) by {
                if k < replies.len() {
                    assert(longer.take(k) =~= replies.take(k));
                    assert(longer[k] == replies[k]);
                }
            }
            replies = longer;
        }
    }
    let row_accesses: u128 = pass.row_accesses();
    let (stream, points) = pass.into_stream();
    let done = Compressed { stream, points, row_accesses };
    let outcome: Result<Compressed, Refusal> = Ok(done);
    assert(outcome matches Ok(done) ==> ends_with(oracle, start, replies, done));
    outcome
}

/// The oracle has one reply to each action.
pub open spec fn single_valued<F: Fn(Action) -> Reply>(oracle: F) -> bool {
    forall|action: Action, one: Reply, other: Reply|
        #[trigger] call_ensures(oracle, (action,), one) && #[trigger] call_ensures(
            oracle,
            (action,),
            other,
        ) ==> one == other
}

/// The state after the first `k` replies is the state after one fewer, and
/// then the reply that follows.
proof fn lemma_run_take(start: State, replies: Seq<Reply>, k: int)
    requires
        0 < k <= replies.len(),
    ensures
        start.run(replies.take(k)) == start.run(replies.take(k - 1)).after(replies[k - 1]),
{
    assert(replies.take(k).drop_last() =~= replies.take(k - 1));
    assert(replies.take(k).last() == replies[k - 1]);
}

/// Two states that differ only in their buffers get the same reply from an
/// oracle that has one reply to each action, and differ only in their
/// buffers after it.
proof fn lemma_same_reply<F: Fn(Action) -> Reply>(
    oracle: F,
    one: State,
    other: State,
    to_one: Reply,
    to_other: Reply,
)
    requires
        one.alike(other),
        single_valued(oracle),
        call_ensures(oracle, (one.action(),), to_one),
        call_ensures(oracle, (other.action(),), to_other),
    ensures
        to_one == to_other,
        one.after(to_one).alike(other.after(to_other)),
{
    lemma_after_alike(one, other, to_one);
}

/// Two passes that differ only in their buffers and ask one oracle that has
/// one reply to each action get the same replies, as far as both go.
proof fn lemma_same_prefix<F: Fn(Action) -> Reply>(
    oracle: F,
    first: State,
    second: State,
    first_replies: Seq<Reply>,
    second_replies: Seq<Reply>,
    k: int,
)
    requires
        first.alike(second),
        single_valued(oracle),
        answered(oracle, first, first_replies),
        answered(oracle, second, second_replies),
        0 <= k <= first_replies.len(),
        k <= second_replies.len(),
    ensures
        first_replies.take(k) == second_replies.take(k),
        first.run(first_replies.take(k)).alike(second.run(second_replies.take(k))),
    decreases k,
{
    if k == 0 {
        assert(first_replies.take(0) =~= second_replies.take(0));
    } else {
        lemma_same_prefix(oracle, first, second, first_replies, second_replies, k - 1);
        lemma_run_take(first, first_replies, k);
        lemma_run_take(second, second_replies, k);
        lemma_same_reply(
            oracle,
            first.run(first_replies.take(k - 1)),
            second.run(second_replies.take(k - 1)),
            first_replies[k - 1],
            second_replies[k - 1],
        );
        assert(first_replies.take(k) =~= first_replies.take(k - 1).push(first_replies[k - 1]));
        assert(second_replies.take(k) =~= second_replies.take(k - 1).push(second_replies[k - 1]));
    }
}

/// Two passes that differ only in their buffers, ask one oracle that has
/// one reply to each action, and both run to their end get the same replies.
proof fn lemma_same_replies<F: Fn(Action) -> Reply>(
    oracle: F,
    first: State,
    second: State,
    first_replies: Seq<Reply>,
    second_replies: Seq<Reply>,
)
    requires
        first.alike(second),
        single_valued(oracle),
        answered(oracle, first, first_replies),
        answered(oracle, second, second_replies),
        first.run(first_replies).stage == Stage::Done,
        second.run(second_replies).stage == Stage::Done,
    ensures
        first_replies == second_replies,
{
    let shorter = if first_replies.len() <= second_replies.len() {
        first_replies.len() as int
    } else {
        second_replies.len() as int
    };
    lemma_same_prefix(oracle, first, second, first_replies, second_replies, shorter);
    assert(first_replies.take(first_replies.len() as int) =~= first_replies);
    assert(second_replies.take(second_replies.len() as int) =~= second_replies);
    if shorter < second_replies.len() {
        assert(second.run(second_replies.take(shorter)).takes(second_replies[shorter]));
    }
    if shorter < first_replies.len() {
        assert(first.run(first_replies.take(shorter)).takes(first_replies[shorter]));
    }
}

/// A row compressed twice, with one oracle that has one reply to each
/// action, gives one outcome: the same replies, the same number of points
/// and of samples read, and the same stream byte for byte, whatever the two
/// buffers held before. Where the buffers were equal before, they are equal
/// after.
pub proof fn lemma_one_oracle_one_outcome<F: Fn(Action) -> Reply>(
    oracle: F,
    min_step: int,
    row_len: int,
    first: Seq<u8>,
    second: Seq<u8>,
    first_replies: Seq<Reply>,
    second_replies: Seq<Reply>,
    first_done: Compressed,
    second_done: Compressed,
)
    requires
        refusal_of(min_step, row_len, first.len() as int).is_none(),
        refusal_of(min_step, row_len, second.len() as int).is_none(),
        single_valued(oracle),
        ends_with(oracle, State::initial(min_step, row_len, first), first_replies, first_done),
        ends_with(oracle, State::initial(min_step, row_len, second), second_replies, second_done),
    ensures
        first_replies == second_replies,
        first_done.points == second_done.points,
        first_done.row_accesses == second_done.row_accesses,
        first_done.stream@.subrange(0, 2 * first_done.points) == second_done.stream@.subrange(
            0,
            2 * second_done.points,
        ),
        first == second ==> first_done.stream@ == second_done.stream@,
{
    lemma_same_replies(
        oracle,
        State::initial(min_step, row_len, first),
        State::initial(min_step, row_len, second),
        first_replies,
        second_replies,
    );
    lemma_same_replies_same_stream(min_step, row_len, first, second, first_replies);
}

} // verus!
