use vstd::prelude::*;

use crate::error::Error;

verus! {

/// What a shift the consumer awaited resolved to.
pub enum ShiftOutcome<T> {
    Item(T),
    Empty,
    Failed(Error),
}

/// What the consumer found when it awaited the doorbell.
#[derive(Clone, Copy, Debug, PartialEq, Eq, Structural)]
pub enum DoorbellOutcome {
    Rung,
    SenderGone,
}

/// Where the consumer stands between two of its suspension points.
/// `drained` records that the last shift came back empty with no
/// doorbell ring since.
#[derive(Clone, Copy, Debug, PartialEq, Eq, Structural)]
pub enum ConsumerMode {
    Waiting { drained: bool },
    Shifting,
    Done,
}

/// What the engine's driver must await next for the consumer.
#[derive(Clone, Copy, Debug, PartialEq, Eq, Structural)]
pub enum ConsumerStep {
    End,
    PollShift,
    PollDoorbell,
}

/// What the consumer hands back after an awaited event resolved.
pub enum ConsumerAction<T> {
    Yield(T),
    Continue,
    StartShift,
    End,
}

/// The consumer's decision on entering its loop: it ends once the stop
/// flag is set, no shift is in flight, and the buffer is believed
/// drained; otherwise it awaits the shift in flight, or the doorbell.
pub open spec fn consumer_poll_spec(mode: ConsumerMode, stop: bool) -> ConsumerStep {
    match mode {
        ConsumerMode::Done => ConsumerStep::End,
        ConsumerMode::Shifting => ConsumerStep::PollShift,
        ConsumerMode::Waiting { drained } => if stop && drained {
            ConsumerStep::End
        } else {
            ConsumerStep::PollDoorbell
        },
    }
}

/// Decide what to await next. The stop flag is consulted only when the
/// buffer has nothing left, so every item pushed before exhaustion is
/// delivered.
pub fn consumer_poll(mode: &ConsumerMode, stop: bool) -> (r: ConsumerStep)
    ensures
        r == consumer_poll_spec(*mode, stop),
{
    match mode {
        ConsumerMode::Done => ConsumerStep::End,
        ConsumerMode::Shifting => ConsumerStep::PollShift,
        ConsumerMode::Waiting { drained } => {
            if stop && *drained {
                ConsumerStep::End
            } else {
                ConsumerStep::PollDoorbell
            }
        },
    }
}

/// The consumer's next mode once a shift resolved: an item is yielded;
/// an empty result marks the buffer drained and falls back to the
/// doorbell; a failure ends the sequence with no retry.
pub open spec fn consumer_on_shift_spec<T>(outcome: ShiftOutcome<T>) -> (
    ConsumerMode,
    ConsumerAction<T>,
) {
    match outcome {
        ShiftOutcome::Item(x) => (
            ConsumerMode::Waiting { drained: false },
            ConsumerAction::Yield(x),
        ),
        ShiftOutcome::Empty => (ConsumerMode::Waiting { drained: true }, ConsumerAction::Continue),
        ShiftOutcome::Failed(_) => (ConsumerMode::Done, ConsumerAction::End),
    }
}

/// Take the consumer across a resolved shift.
pub fn consumer_on_shift<T>(outcome: ShiftOutcome<T>) -> (r: (ConsumerMode, ConsumerAction<T>))
    ensures
        r == consumer_on_shift_spec(outcome),
{
    match outcome {
        ShiftOutcome::Item(x) => (
            ConsumerMode::Waiting { drained: false },
            ConsumerAction::Yield(x),
        ),
        ShiftOutcome::Empty => (ConsumerMode::Waiting { drained: true }, ConsumerAction::Continue),
        ShiftOutcome::Failed(_) => (ConsumerMode::Done, ConsumerAction::End),
    }
}

/// The consumer's next mode once the doorbell resolved: a ring starts
/// a new shift; a gone sender ends the sequence.
pub open spec fn consumer_on_doorbell_spec<T>(outcome: DoorbellOutcome) -> (
    ConsumerMode,
    ConsumerAction<T>,
) {
    match outcome {
        DoorbellOutcome::Rung => (ConsumerMode::Shifting, ConsumerAction::StartShift),
        DoorbellOutcome::SenderGone => (ConsumerMode::Done, ConsumerAction::End),
    }
}

/// Take the consumer across a resolved doorbell wait.
pub fn consumer_on_doorbell<T>(outcome: DoorbellOutcome) -> (r: (ConsumerMode, ConsumerAction<T>))
    ensures
        r == consumer_on_doorbell_spec::<T>(outcome),
{
    match outcome {
        DoorbellOutcome::Rung => (ConsumerMode::Shifting, ConsumerAction::StartShift),
        DoorbellOutcome::SenderGone => (ConsumerMode::Done, ConsumerAction::End),
    }
}

/// What the drain flow found when it awaited the source.
pub enum SourceOutcome<T> {
    Item(T),
    Exhausted,
}

/// What the drain flow does next: push the item, or finish — set the
/// stop flag and ring the doorbell one final time, so a consumer
/// waiting silently is never stuck.
#[derive(Clone, Copy, Debug, PartialEq, Eq, Structural)]
pub enum DrainAction {
    PushItem,
    Finish,
}

/// The drain flow's decision on a source event.
pub open spec fn drain_on_source_spec<T>(outcome: SourceOutcome<T>) -> DrainAction {
    match outcome {
        SourceOutcome::Item(_) => DrainAction::PushItem,
        SourceOutcome::Exhausted => DrainAction::Finish,
    }
}

/// Decide what the drain flow does with a source event.
pub fn drain_on_source<T>(outcome: &SourceOutcome<T>) -> (r: DrainAction)
    ensures
        r == drain_on_source_spec(*outcome),
{
    match outcome {
        SourceOutcome::Item(_) => DrainAction::PushItem,
        SourceOutcome::Exhausted => DrainAction::Finish,
    }
}

/// Whether the drain flow goes on after a push: a successful push is
/// followed by one doorbell ring; a failed push stops the producing
/// side early, leaving already-buffered items to drain.
pub open spec fn drain_after_push_spec(r: Result<(), Error>) -> bool {
    r is Ok
}

/// Decide whether the drain flow goes on after a push.
pub fn drain_after_push(r: &Result<(), Error>) -> (c: bool)
    ensures
        c == drain_after_push_spec(*r),
{
    r.is_ok()
}

/// A rank that orders the consumer's modes for termination measures.
pub open spec fn mode_rank(mode: ConsumerMode) -> nat {
    match mode {
        ConsumerMode::Shifting => 1nat,
        _ => 0nat,
    }
}

/// Replay the consumer against a finished producer's leavings: `buffer`
/// is what remains queued in order, `rings` how many doorbell signals
/// are pending, `stop` whether the stop flag is set. The result is what
/// the consumer yields, in order, before it ends or waits again.
pub open spec fn consumer_run<T>(mode: ConsumerMode, buffer: Seq<T>, rings: nat, stop: bool) -> Seq<
    T,
>
    decreases buffer.len(), rings, mode_rank(mode),
{
    match consumer_poll_spec(mode, stop) {
        ConsumerStep::End => Seq::empty(),
        ConsumerStep::PollDoorbell => if rings > 0 {
            consumer_run(ConsumerMode::Shifting, buffer, (rings - 1) as nat, stop)
        } else {
            Seq::empty()
        },
        ConsumerStep::PollShift => if buffer.len() > 0 {
            seq![buffer[0]] + consumer_run(
                ConsumerMode::Waiting { drained: false },
                buffer.drop_first(),
                rings,
                stop,
            )
        } else {
            consumer_run(ConsumerMode::Waiting { drained: true }, buffer, rings, stop)
        },
    }
}

/// Drain-then-stop: once the producer has pushed its items, ringing the
/// doorbell for each, set the stop flag, and rung one final time — so
/// at least one more ring is pending than items remain — the consumer
/// yields exactly the buffered items in buffer order and then ends.
pub proof fn lemma_drain_then_stop<T>(buffer: Seq<T>, rings: nat)
    requires
        rings >= buffer.len() + 1,
    ensures
        consumer_run(ConsumerMode::Waiting { drained: false }, buffer, rings, true) == buffer,
    decreases buffer.len(),
{
    assert(consumer_run(ConsumerMode::Waiting { drained: false }, buffer, rings, true)
        == consumer_run(ConsumerMode::Shifting, buffer, (rings - 1) as nat, true));
    if buffer.len() == 0 {
        assert(consumer_run(ConsumerMode::Shifting, buffer, (rings - 1) as nat, true)
            == consumer_run(ConsumerMode::Waiting { drained: true }, buffer, (rings - 1) as nat, true));
        assert(consumer_run(ConsumerMode::Waiting { drained: true }, buffer, (rings - 1) as nat, true)
            =~= buffer);
    } else {
        lemma_drain_then_stop::<T>(buffer.drop_first(), (rings - 1) as nat);
        assert(consumer_run(ConsumerMode::Shifting, buffer, (rings - 1) as nat, true)
            == seq![buffer[0]] + consumer_run(
            ConsumerMode::Waiting { drained: false },
            buffer.drop_first(),
            (rings - 1) as nat,
            true,
        ));
        assert(seq![buffer[0]] + buffer.drop_first() =~= buffer);
    }
}

} // verus!
