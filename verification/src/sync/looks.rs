//! What an operation that does not succeed has seen at its last two turns.

use crate::sync::arrival::{before, lemma_runs_up_to, runs};
use crate::sync::busy::{
    concerns_pop, last_turn_of_pop, last_turn_of_push, lemma_last_turn_of_pop_stays,
    lemma_last_turn_of_push_stays,
};
use crate::sync::cursor::{UnpackedCursor, UnpackedHead};
use crate::sync::error::{TryPopError, TryPushError};
use crate::sync::interleave::{lemma_interleaving, Event, System};
use crate::sync::memory::{Field, Memory};
use crate::sync::params::QueueParameters;
use crate::sync::pop::PopState;
use crate::sync::push::{next_block_in_use, next_index, PushState};
use crate::sync::refill::concerns_push;
use crate::sync::system::{pop_agrees, push_agrees};
use vstd::prelude::*;

verus! {

/// A cursor of the block at index `i`.
pub open spec fn cursor_at<T>(
    params: QueueParameters,
    s: System<T>,
    i: int,
    field: Field,
) -> UnpackedCursor {
    params.cursor_of(s.memory.blocks[i].word(field))
}

/// What a push has seen at its last turn.
spec fn push_has_seen<T>(params: QueueParameters, then: System<T>, state: PushState<T>) -> bool {
    state matches PushState::Reserved { head, consumed, .. } ==> {
        &&& consumed == cursor_at(params, then, next_index(params, head) as int, Field::Consumed)
        &&& next_block_in_use(params, head, consumed)
    }
}

/// What a pop has seen at its last turn.
spec fn pop_has_seen<T>(params: QueueParameters, then: System<T>, state: PopState<T>) -> bool {
    match state {
        PopState::Committed { head, reserved } => {
            &&& reserved == cursor_at(params, then, head.index as int, Field::Reserved)
            &&& reserved.offset < params.block_size
        },
        PopState::Allocated { head, reserved, committed } => {
            &&& committed == cursor_at(params, then, head.index as int, Field::Committed)
            &&& committed.offset != reserved.offset
            &&& committed.offset != params.block_size
        },
        PopState::NextCommitted { head } => cursor_at(
            params,
            then,
            head.index as int,
            Field::Reserved,
        ).offset >= params.block_size,
        _ => true,
    }
}

/// What a push has seen stays what it has seen at its last turn.
proof fn lemma_push_has_seen<T>(
    params: QueueParameters,
    memory: Memory<T>,
    events: Seq<Event<T>>,
    id: int,
) -> (k: int)
    requires
        runs(params, memory, events),
        System::idle(memory).after_all(params, events).pushes.dom().contains(id),
        !(System::idle(memory).after_all(params, events).pushes[id].state is Head),
    ensures
        last_turn_of_push(events, id, k),
        push_has_seen(
            params,
            before(params, memory, events, k),
            System::idle(memory).after_all(params, events).pushes[id].state,
        ),
    decreases events.len(),
{
    let s = System::idle(memory).after_all(params, events);
    if events.len() == 0 {
        0
    } else {
        let past = events.drop_last();
        let last = events.len() - 1;
        let s1 = System::idle(memory).after_all(params, past);
        assert(past =~= events.take(last));
        lemma_runs_up_to(params, memory, events, last);
        if concerns_push(events.last(), id) {
            let acc = lemma_interleaving(params, memory, past);
            assert(push_agrees(params, s1.elems, acc, s1.pushes[id]));
            last
        } else {
            assert(s1.pushes.dom().contains(id) && s1.pushes[id] == s.pushes[id]);
            let k = lemma_push_has_seen(params, memory, past, id);
            lemma_last_turn_of_push_stays(events, id, k);
            assert(past.take(k) =~= events.take(k));
            k
        }
    }
}

/// What a pop has seen stays what it has seen at its last turn.
proof fn lemma_pop_has_seen<T>(
    params: QueueParameters,
    memory: Memory<T>,
    events: Seq<Event<T>>,
    id: int,
) -> (k: int)
    requires
        runs(params, memory, events),
        System::idle(memory).after_all(params, events).pops.dom().contains(id),
        !(System::idle(memory).after_all(params, events).pops[id].state is Head),
    ensures
        last_turn_of_pop(events, id, k),
        pop_has_seen(
            params,
            before(params, memory, events, k),
            System::idle(memory).after_all(params, events).pops[id].state,
        ),
    decreases events.len(),
{
    let s = System::idle(memory).after_all(params, events);
    if events.len() == 0 {
        0
    } else {
        let past = events.drop_last();
        let last = events.len() - 1;
        let s1 = System::idle(memory).after_all(params, past);
        assert(past =~= events.take(last));
        lemma_runs_up_to(params, memory, events, last);
        if concerns_pop(events.last(), id) {
            let acc = lemma_interleaving(params, memory, past);
            assert(pop_agrees(params, s1.elems, acc, s1.pops[id]));
            last
        } else {
            assert(s1.pops.dom().contains(id) && s1.pops[id] == s.pops[id]);
            let k = lemma_pop_has_seen(params, memory, past, id);
            lemma_last_turn_of_pop_stays(events, id, k);
            assert(past.take(k) =~= events.take(k));
            k
        }
    }
}

/// The reserved cursor of a block stands, at the end of a run, at the offset at
/// which its consumed cursor stood before the event with number `k`.
pub open spec fn stands_where_consumed_stood<T>(
    params: QueueParameters,
    memory: Memory<T>,
    events: Seq<Event<T>>,
    k: int,
    i: int,
) -> bool {
    cursor_at(
        params,
        System::idle(memory).after_all(params, events),
        i,
        Field::Reserved,
    ).offset == cursor_at(params, before(params, memory, events, k), i, Field::Consumed).offset
}

/// A push that is refused has found, at its turn before the last one, a block in
/// which not all slots were consumed. It is told that the queue is full if the
/// reserved cursor of that block stands where the consumed cursor stood then, and
/// that the queue is busy if it does not.
pub proof fn lemma_full_or_busy<T>(
    params: QueueParameters,
    memory: Memory<T>,
    events: Seq<Event<T>>,
    id: int,
    error: TryPushError<T>,
)
    requires
        runs(params, memory, events),
        System::idle(memory).after_all(params, events).pushes.dom().contains(id),
        System::idle(memory).after_all(params, events).push_result(params, id) == Some(
            Err::<(), TryPushError<T>>(error),
        ),
    ensures
        System::idle(memory).after_all(params, events).pushes[id].state is Reserved,
        exists|k: int|
            {
                let head = System::idle(memory).after_all(
                    params,
                    events,
                ).pushes[id].state->Reserved_head;
                let i = next_index(params, head) as int;
                &&& #[trigger] last_turn_of_push(events, id, k)
                &&& next_block_in_use(
                    params,
                    head,
                    cursor_at(params, before(params, memory, events, k), i, Field::Consumed),
                )
                &&& (error is Full <==> stands_where_consumed_stood(params, memory, events, k, i))
            },
{
    let s = System::idle(memory).after_all(params, events);
    let acc = lemma_interleaving(params, memory, events);
    assert(push_agrees(params, s.elems, acc, s.pushes[id]));
    let k = lemma_push_has_seen(params, memory, events, id);
    assert(last_turn_of_push(events, id, k));
}

/// A pop finds no further element in a block: its committed cursor stands, at the
/// end of a run, at the offset at which its reserved cursor stood before the
/// event with number `k`, and that is within the block.
pub open spec fn nothing_further_in_block<T>(
    params: QueueParameters,
    memory: Memory<T>,
    events: Seq<Event<T>>,
    k: int,
    i: int,
) -> bool {
    let then = cursor_at(params, before(params, memory, events, k), i, Field::Reserved);
    let now = cursor_at(
        params,
        System::idle(memory).after_all(params, events),
        i,
        Field::Committed,
    );
    then.offset < params.block_size && now.offset == then.offset
}

/// A pop finds its block used up and the next one not open: the reserved cursor
/// of the block stood at its end before the event with number `k`, and the
/// committed cursor of the next one is, at the end of a run, not of the round
/// that follows.
pub open spec fn next_is_not_open<T>(
    params: QueueParameters,
    memory: Memory<T>,
    events: Seq<Event<T>>,
    k: int,
    head: UnpackedHead,
) -> bool {
    let then = cursor_at(
        params,
        before(params, memory, events, k),
        head.index as int,
        Field::Reserved,
    );
    let now = cursor_at(
        params,
        System::idle(memory).after_all(params, events),
        next_index(params, head) as int,
        Field::Committed,
    );
    then.offset >= params.block_size && now.version != head.version + 1
}

/// A pop finds a producer at work in a block: its allocated cursor does not stand,
/// at the end of a run, at the offset at which its committed cursor stood before
/// the event with number `k`, and the block was not full then.
pub open spec fn producer_in_block<T>(
    params: QueueParameters,
    memory: Memory<T>,
    events: Seq<Event<T>>,
    k: int,
    i: int,
) -> bool {
    let then = cursor_at(params, before(params, memory, events, k), i, Field::Committed);
    let now = cursor_at(
        params,
        System::idle(memory).after_all(params, events),
        i,
        Field::Allocated,
    );
    then.offset != params.block_size && now.offset != then.offset
}

/// What a pop that does not succeed has seen at its last two turns: one that is
/// told that the queue is empty has found no further element in its block, or its
/// block used up and the next one not open. One that is told that the queue is
/// busy has found a producer at work in its block.
pub proof fn lemma_empty_or_busy<T>(
    params: QueueParameters,
    memory: Memory<T>,
    events: Seq<Event<T>>,
    id: int,
    error: TryPopError,
)
    requires
        runs(params, memory, events),
        System::idle(memory).after_all(params, events).pops.dom().contains(id),
        System::idle(memory).after_all(params, events).pop_result(params, id) == Some(
            Err::<T, TryPopError>(error),
        ),
    ensures
        System::idle(memory).after_all(params, events).pops[id].head() is Some,
        exists|k: int|
            {
                let head = System::idle(memory).after_all(params, events).pops[id].head()->0;
                &&& #[trigger] last_turn_of_pop(events, id, k)
                &&& match error {
                    TryPopError::Empty => nothing_further_in_block(
                        params,
                        memory,
                        events,
                        k,
                        head.index as int,
                    ) || next_is_not_open(params, memory, events, k, head),
                    TryPopError::Busy => producer_in_block(
                        params,
                        memory,
                        events,
                        k,
                        head.index as int,
                    ),
                }
            },
{
    let s = System::idle(memory).after_all(params, events);
    let acc = lemma_interleaving(params, memory, events);
    assert(pop_agrees(params, s.elems, acc, s.pops[id]));
    let k = lemma_pop_has_seen(params, memory, events, id);
    assert(last_turn_of_pop(events, id, k));
}

}
