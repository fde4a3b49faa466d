//! What the calls of a shared queue are answered with, when they do not succeed.

use crate::sync::arrival::{before, lemma_runs_up_to, runs};
use crate::sync::busy::{
    last_turn_of_pop, last_turn_of_push, lemma_busy_pop_met_a_push, lemma_busy_push_met_a_pop,
    no_pops_since, no_pushes_since,
};
use crate::sync::calls::{lemma_pop_call, lemma_push_call, pop_call_ends, push_call_ends};
use crate::sync::drain::{
    lemma_pops_alone, lemma_pops_succeed_while_there_are_elements, only_pops, pop_starts,
};
use crate::sync::empty::{lemma_empty_means_nothing_to_pop, nothing_to_pop, overtaken};
use crate::sync::error::{TryPopError, TryPushError};
use crate::sync::interleave::{Event, System};
use crate::sync::memory::{Memory, Reply};
use crate::sync::params::QueueParameters;
use crate::sync::queue::{pop_ends, push_ends, Queue};
use crate::sync::refill::{
    found_near_full, lemma_pushes_alone, lemma_pushes_succeed_while_there_is_room,
    lemma_refused_was_near_full, limit, only_pushes,
};
use crate::sync::shared::Shared;
use crate::sync::starts::starts;
use vstd::prelude::*;

verus! {

/// A `push` hands its element back only after an attempt that was told that the
/// queue is full. Attempts that were told that it is busy do not end it.
pub proof fn lemma_push_ends_with_an_answer<T>(q: Queue<T>, elem: T, r: Result<(), T>)
    requires
        call_ensures(Queue::<T>::push, (&q, elem), r),
    ensures
        match r {
            Ok(_) => exists|replies: Seq<Reply<T>>| #[trigger]
                push_ends(q.shared(), elem, replies, Ok(())),
            Err(handed_back) => handed_back == elem && exists|replies: Seq<Reply<T>>| #[trigger]
                push_ends(q.shared(), elem, replies, Err(TryPushError::Full(elem))),
        },
{
}

/// A `pop` comes back without an element only after an attempt that was told that
/// the queue is empty. Attempts that were told that it is busy do not end it.
pub proof fn lemma_pop_ends_with_an_answer<T>(q: Queue<T>, r: Option<T>)
    requires
        call_ensures(Queue::<T>::pop, (&q,), r),
    ensures
        match r {
            Some(elem) => exists|replies: Seq<Reply<T>>| #[trigger]
                pop_ends(q.shared(), replies, Ok(elem)),
            None => exists|replies: Seq<Reply<T>>| #[trigger]
                pop_ends(q.shared(), replies, Err(TryPopError::Empty)),
        },
{
}

/// A pop call that is told that the queue is empty finds nothing to pop at its
/// last access, unless it was overtaken.
pub proof fn lemma_empty_call<T>(
    shared: Shared<T>,
    memory: Memory<T>,
    events: Seq<Event<T>>,
    k: int,
    id: int,
)
    requires
        runs(shared.params(), memory, events),
        pop_call_ends(shared, memory, events, k, id, Err(TryPopError::Empty)),
        !overtaken(shared.params(), before(shared.params(), memory, events, k), id),
    ensures
        nothing_to_pop(before(shared.params(), memory, events, k)),
{
    lemma_pop_call(shared, memory, events, k, id, Err(TryPopError::Empty));
    lemma_runs_up_to(shared.params(), memory, events, k);
    lemma_empty_means_nothing_to_pop(shared.params(), memory, events.take(k), id);
}

/// A pop call is told that the queue is busy only if a push was under way at some
/// moment since its last access but one.
pub proof fn lemma_busy_pop_call<T>(
    shared: Shared<T>,
    memory: Memory<T>,
    events: Seq<Event<T>>,
    k: int,
    id: int,
)
    requires
        runs(shared.params(), memory, events),
        pop_call_ends(shared, memory, events, k, id, Err(TryPopError::Busy)),
    ensures
        exists|j: int| #[trigger]
            last_turn_of_pop(events.take(k), id, j) && !no_pushes_since(
                shared.params(),
                memory,
                events.take(k),
                j,
            ),
{
    lemma_pop_call(shared, memory, events, k, id, Err(TryPopError::Busy));
    lemma_runs_up_to(shared.params(), memory, events, k);
    lemma_busy_pop_met_a_push(shared.params(), memory, events.take(k), id);
}

/// A push call is told that the queue is busy only if a pop was under way at some
/// moment since its last access but one.
pub proof fn lemma_busy_push_call<T>(
    shared: Shared<T>,
    memory: Memory<T>,
    events: Seq<Event<T>>,
    k: int,
    id: int,
    elem: T,
)
    requires
        runs(shared.params(), memory, events),
        push_call_ends(shared, memory, events, k, id, Err(TryPushError::Busy(elem))),
    ensures
        exists|j: int| #[trigger]
            last_turn_of_push(events.take(k), id, j) && !no_pops_since(
                shared.params(),
                memory,
                events.take(k),
                j,
            ),
{
    lemma_push_call(shared, memory, events, k, id, Err(TryPushError::Busy(elem)));
    lemma_runs_up_to(shared.params(), memory, events, k);
    lemma_busy_push_met_a_pop(shared.params(), memory, events.take(k), id);
}

/// A push call is refused only if the queue was nearly full at its last access but one.
pub proof fn lemma_refused_call<T>(
    shared: Shared<T>,
    memory: Memory<T>,
    events: Seq<Event<T>>,
    k: int,
    id: int,
    error: TryPushError<T>,
)
    requires
        runs(shared.params(), memory, events),
        push_call_ends(shared, memory, events, k, id, Err(error)),
    ensures
        exists|j: int| found_near_full(shared.params(), memory, events.take(k), id, j),
{
    lemma_push_call(shared, memory, events, k, id, Err(error));
    lemma_runs_up_to(shared.params(), memory, events, k);
    lemma_refused_was_near_full(shared.params(), memory, events.take(k), id);
}

/// Events after events.
proof fn lemma_after_both<T>(
    params: QueueParameters,
    s: System<T>,
    past: Seq<Event<T>>,
    events: Seq<Event<T>>,
)
    ensures
        s.after_all(params, past + events) == s.after_all(params, past).after_all(params, events),
        s.allows_all(params, past + events) ==> s.allows_all(params, past) && s.after_all(
            params,
            past,
        ).allows_all(params, events),
    decreases events.len(),
{
    if events.len() == 0 {
        assert(past + events =~= past);
    } else {
        assert((past + events).drop_last() =~= past + events.drop_last());
        assert((past + events).last() == events.last());
        lemma_after_both(params, s, past, events.drop_last());
    }
}

/// More events start no fewer pops.
proof fn lemma_pop_starts_grow<T>(events: Seq<Event<T>>, j: int)
    requires
        0 <= j <= events.len(),
    ensures
        pop_starts(events.take(j)) <= pop_starts(events),
    decreases events.len(),
{
    if j == events.len() {
        assert(events.take(j) =~= events);
    } else {
        lemma_pop_starts_grow(events.drop_last(), j);
        assert(events.drop_last().take(j) =~= events.take(j));
    }
}

/// More events start no fewer pushes.
proof fn lemma_push_starts_grow<T>(events: Seq<Event<T>>, j: int)
    requires
        0 <= j <= events.len(),
    ensures
        starts(events.take(j)) <= starts(events),
    decreases events.len(),
{
    if j == events.len() {
        assert(events.take(j) =~= events);
    } else {
        lemma_push_starts_grow(events.drop_last(), j);
        assert(events.drop_last().take(j) =~= events.take(j));
    }
}

/// Pop calls on a queue on which no other calls are at work. None of them is told
/// that the queue is busy. One that is told that it is empty comes after all
/// elements were claimed, and there is none as long as no more pops were started
/// than the queue held elements.
pub proof fn lemma_pop_calls_alone<T>(
    shared: Shared<T>,
    memory: Memory<T>,
    past: Seq<Event<T>>,
    events: Seq<Event<T>>,
    k: int,
    id: int,
    outcome: Result<T, TryPopError>,
)
    requires
        runs(shared.params(), memory, past + events),
        System::idle(memory).after_all(shared.params(), past).pushes.dom() == Set::<int>::empty(),
        System::idle(memory).after_all(shared.params(), past).pops.dom() == Set::<int>::empty(),
        only_pops(events),
        past.len() <= k,
        pop_call_ends(shared, memory, past + events, k, id, outcome),
    ensures
        ({
            let rest = System::idle(memory).after_all(shared.params(), past);
            let s = before(shared.params(), memory, past + events, k);
            &&& outcome != Err::<T, TryPopError>(TryPopError::Busy)
            &&& outcome is Err ==> s.reserves == s.elems.len()
            &&& pop_starts(events) <= rest.elems.len() - rest.reserves ==> outcome is Ok
        }),
{
    let params = shared.params();
    let j = k - past.len();
    let some = events.take(j);
    assert((past + events).take(k) =~= past + some);
    lemma_pop_call(shared, memory, past + events, k, id, outcome);
    lemma_runs_up_to(params, memory, past + events, k);
    lemma_after_both(params, System::idle(memory), past, some);
    lemma_pop_starts_grow(events, j);
    assert(only_pops(some)) by {
        assert forall|i: int| 0 <= i < some.len() implies #[trigger] some[i] is StartPop
            || some[i] is TurnOfPop by {
            assert(some[i] == events[i]);
        }
    }
    lemma_pops_alone(params, memory, past, some, id);
    let rest = System::idle(memory).after_all(params, past);
    if pop_starts(events) <= rest.elems.len() - rest.reserves {
        lemma_pops_succeed_while_there_are_elements(params, memory, past, some, id);
    }
}

/// Push calls on a queue on which no other calls are at work. None of them is told
/// that the queue is busy. One that is told that it is full comes after all room
/// was claimed, and there is none as long as no more pushes were started than
/// there was room.
pub proof fn lemma_push_calls_alone<T>(
    shared: Shared<T>,
    memory: Memory<T>,
    past: Seq<Event<T>>,
    events: Seq<Event<T>>,
    k: int,
    id: int,
    outcome: Result<(), TryPushError<T>>,
)
    requires
        runs(shared.params(), memory, past + events),
        System::idle(memory).after_all(shared.params(), past).pushes.dom() == Set::<int>::empty(),
        System::idle(memory).after_all(shared.params(), past).pops.dom() == Set::<int>::empty(),
        only_pushes(events),
        past.len() <= k,
        push_call_ends(shared, memory, past + events, k, id, outcome),
    ensures
        ({
            let rest = System::idle(memory).after_all(shared.params(), past);
            let s = before(shared.params(), memory, past + events, k);
            &&& !(outcome matches Err(TryPushError::Busy(_)))
            &&& outcome is Err ==> s.elems.len() == limit(shared.params(), s)
            &&& rest.elems.len() + starts(events) <= limit(shared.params(), rest) ==> outcome is Ok
        }),
{
    let params = shared.params();
    let j = k - past.len();
    let some = events.take(j);
    assert((past + events).take(k) =~= past + some);
    lemma_push_call(shared, memory, past + events, k, id, outcome);
    lemma_runs_up_to(params, memory, past + events, k);
    lemma_after_both(params, System::idle(memory), past, some);
    lemma_push_starts_grow(events, j);
    assert(only_pushes(some)) by {
        assert forall|i: int| 0 <= i < some.len() implies #[trigger] some[i] is StartPush
            || some[i] is TurnOfPush by {
            assert(some[i] == events[i]);
        }
    }
    lemma_pushes_alone(params, memory, past, some, id);
    let rest = System::idle(memory).after_all(params, past);
    if rest.elems.len() + starts(events) <= limit(params, rest) {
        lemma_pushes_succeed_while_there_is_room(params, memory, past, some, id);
    }
}

}
