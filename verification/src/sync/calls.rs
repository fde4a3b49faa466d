//! The calls of a shared queue whose accesses take turns.
//!
//! A call of a shared queue states that replies to its accesses lead it to its
//! outcome. Here it is stated what the outcomes are where the replies are those
//! of operations that take turns on a memory.

use crate::sync::arrival::{
    before, lemma_nothing_comes_twice, lemma_pop_gives, lemma_pops_in_order, lemma_push_gives,
    lemma_pushes_in_order, lemma_runs_up_to, pop_number, pop_succeeds, push_number, push_succeeds,
    runs,
};
use crate::sync::error::{TryPopError, TryPushError};
use crate::sync::interleave::{Event, System};
use crate::sync::laps::settled;
use crate::sync::memory::{Memory, Reply};
use crate::sync::params::QueueParameters;
use crate::sync::queue::{pop_ends, push_ends};
use crate::sync::shared::Shared;
use crate::sync::starts::{
    lemma_first_pushes_do_not_overflow, lemma_first_pushes_succeed, starts,
};
use crate::sync::traces::lemma_replies_lead_on;
use vstd::prelude::*;

verus! {

/// The replies that a push has got with its turn.
pub open spec fn push_replies<T>(params: QueueParameters, s: System<T>, id: int) -> Seq<Reply<T>> {
    s.pushes[id].replies.push(s.pushes[id].access.performed(params, s.memory).1)
}

/// The replies that a pop has got with its turn.
pub open spec fn pop_replies<T>(params: QueueParameters, s: System<T>, id: int) -> Seq<Reply<T>> {
    s.pops[id].replies.push(s.pops[id].access.performed(params, s.memory).1)
}

/// A push call of the shared queue got the replies of the push `id` up to the
/// event with number `k`, and they lead it to the outcome.
pub open spec fn push_call_ends<T>(
    shared: Shared<T>,
    memory: Memory<T>,
    events: Seq<Event<T>>,
    k: int,
    id: int,
    outcome: Result<(), TryPushError<T>>,
) -> bool {
    let s = before(shared.params(), memory, events, k);
    &&& 0 <= k < events.len()
    &&& events[k] == Event::<T>::TurnOfPush(id)
    &&& push_ends(shared, s.pushes[id].elem, push_replies(shared.params(), s, id), outcome)
}

/// A pop call of the shared queue got the replies of the pop `id` up to the
/// event with number `k`, and they lead it to the outcome.
pub open spec fn pop_call_ends<T>(
    shared: Shared<T>,
    memory: Memory<T>,
    events: Seq<Event<T>>,
    k: int,
    id: int,
    outcome: Result<T, TryPopError>,
) -> bool {
    let s = before(shared.params(), memory, events, k);
    &&& 0 <= k < events.len()
    &&& events[k] == Event::<T>::TurnOfPop(id)
    &&& pop_ends(shared, pop_replies(shared.params(), s, id), outcome)
}

/// A push call comes to what the push comes to whose replies it got.
pub proof fn lemma_push_call<T>(
    shared: Shared<T>,
    memory: Memory<T>,
    events: Seq<Event<T>>,
    k: int,
    id: int,
    outcome: Result<(), TryPushError<T>>,
)
    requires
        runs(shared.params(), memory, events),
        push_call_ends(shared, memory, events, k, id, outcome),
    ensures
        before(shared.params(), memory, events, k).push_result(shared.params(), id) == Some(
            outcome,
        ),
        outcome is Ok ==> push_succeeds(shared.params(), memory, events, k, id),
{
    lemma_runs_up_to(shared.params(), memory, events, k);
    lemma_replies_lead_on(shared.params(), memory, events.take(k), id);
}

/// A pop call comes to what the pop comes to whose replies it got.
pub proof fn lemma_pop_call<T>(
    shared: Shared<T>,
    memory: Memory<T>,
    events: Seq<Event<T>>,
    k: int,
    id: int,
    outcome: Result<T, TryPopError>,
)
    requires
        runs(shared.params(), memory, events),
        pop_call_ends(shared, memory, events, k, id, outcome),
    ensures
        before(shared.params(), memory, events, k).pop_result(shared.params(), id) == Some(outcome),
        outcome is Ok ==> pop_succeeds(shared.params(), memory, events, k, id),
{
    lemma_runs_up_to(shared.params(), memory, events, k);
    lemma_replies_lead_on(shared.params(), memory, events.take(k), id);
}

/// None of the first push calls on a new queue is answered that the queue is
/// full, whatever other calls do meanwhile: as long as no more pushes were
/// started than the upper bound of the capacity, a push call that ends has
/// succeeded.
pub proof fn lemma_first_push_calls_succeed<T>(
    shared: Shared<T>,
    memory: Memory<T>,
    events: Seq<Event<T>>,
    k: int,
    id: int,
    outcome: Result<(), TryPushError<T>>,
)
    requires
        runs(shared.params(), memory, events),
        push_call_ends(shared, memory, events, k, id, outcome),
        starts(events.take(k)) <= shared.params().capacity.upper,
    ensures
        outcome is Ok,
{
    lemma_push_call(shared, memory, events, k, id, outcome);
    lemma_runs_up_to(shared.params(), memory, events, k);
    lemma_first_pushes_succeed(shared.params(), memory, events.take(k), id);
}

/// The same without a word on the fields of the words: where no more pushes are
/// started in all than the queue has slots, nor than an offset can count, none of
/// the push calls on a new queue is refused, whatever other calls do meanwhile.
pub proof fn lemma_push_calls_within_capacity_succeed<T>(
    shared: Shared<T>,
    memory: Memory<T>,
    events: Seq<Event<T>>,
    k: int,
    id: int,
    outcome: Result<(), TryPushError<T>>,
)
    requires
        shared.params().wf(),
        shared.params().holds_elements(),
        settled(shared.params(), memory, 0, 0),
        System::idle(memory).can_all_happen(shared.params(), events),
        starts(events) <= shared.params().capacity.upper,
        starts(events) <= shared.params().offsets(),
        push_call_ends(shared, memory, events, k, id, outcome),
    ensures
        outcome is Ok,
{
    lemma_first_pushes_do_not_overflow(shared.params(), memory, events);
    lemma_starts_grow(events, k);
    lemma_first_push_calls_succeed(shared, memory, events, k, id, outcome);
}

/// More events start no fewer pushes.
proof fn lemma_starts_grow<T>(events: Seq<Event<T>>, k: int)
    requires
        0 <= k <= events.len(),
    ensures
        starts(events.take(k)) <= starts(events),
    decreases events.len(),
{
    if k < events.len() {
        lemma_starts_grow(events.drop_last(), k);
        assert(events.drop_last().take(k) =~= events.take(k));
    } else {
        assert(events.take(k) =~= events);
    }
}

/// The pop calls of one consumer give out elements in the order of their slots:
/// of two calls, of which one starts after the other has ended, the later one
/// gives out an element that was recorded later. So nothing comes twice.
pub proof fn lemma_pop_calls_in_order<T>(
    shared: Shared<T>,
    memory: Memory<T>,
    events: Seq<Event<T>>,
    first: int,
    start: int,
    second: int,
    a: int,
    b: int,
    x: T,
    y: T,
)
    requires
        runs(shared.params(), memory, events),
        pop_call_ends(shared, memory, events, first, a, Ok(x)),
        first < start < second,
        events[start] == Event::<T>::StartPop(b),
        pop_call_ends(shared, memory, events, second, b, Ok(y)),
    ensures
        ({
            let elems = System::idle(memory).after_all(shared.params(), events).elems;
            let p = pop_number(shared.params(), memory, events, first, a);
            let q = pop_number(shared.params(), memory, events, second, b);
            &&& 0 <= p < q < elems.len()
            &&& x == elems[p]
            &&& y == elems[q]
        }),
{
    lemma_pop_call(shared, memory, events, first, a, Ok(x));
    lemma_pop_call(shared, memory, events, second, b, Ok(y));
    lemma_pop_gives(shared.params(), memory, events, first, a);
    lemma_pop_gives(shared.params(), memory, events, second, b);
    lemma_pops_in_order(shared.params(), memory, events, first, start, second, a, b);
}

/// Nothing comes twice and nothing is invented: any two pop calls give out
/// elements of different slots, and each of them an element that was pushed.
pub proof fn lemma_pop_calls_give_different_elements<T>(
    shared: Shared<T>,
    memory: Memory<T>,
    events: Seq<Event<T>>,
    first: int,
    second: int,
    a: int,
    b: int,
    x: T,
    y: T,
)
    requires
        runs(shared.params(), memory, events),
        pop_call_ends(shared, memory, events, first, a, Ok(x)),
        first < second,
        pop_call_ends(shared, memory, events, second, b, Ok(y)),
    ensures
        ({
            let elems = System::idle(memory).after_all(shared.params(), events).elems;
            let p = pop_number(shared.params(), memory, events, first, a);
            let q = pop_number(shared.params(), memory, events, second, b);
            &&& 0 <= p < elems.len()
            &&& 0 <= q < elems.len()
            &&& p != q
            &&& x == elems[p]
            &&& y == elems[q]
        }),
{
    lemma_pop_call(shared, memory, events, first, a, Ok(x));
    lemma_pop_call(shared, memory, events, second, b, Ok(y));
    lemma_pop_gives(shared.params(), memory, events, first, a);
    lemma_pop_gives(shared.params(), memory, events, second, b);
    lemma_nothing_comes_twice(shared.params(), memory, events, first, second, a, b);
}

/// The push calls of one producer are recorded in their order: of two calls, of
/// which one starts after the other has ended, the later one's element is
/// recorded later.
pub proof fn lemma_push_calls_in_order<T>(
    shared: Shared<T>,
    memory: Memory<T>,
    events: Seq<Event<T>>,
    first: int,
    start: int,
    second: int,
    a: int,
    b: int,
)
    requires
        runs(shared.params(), memory, events),
        push_call_ends(shared, memory, events, first, a, Ok(())),
        first < start < second,
        events[start] matches Event::StartPush(started, _) && started == b,
        push_call_ends(shared, memory, events, second, b, Ok(())),
    ensures
        ({
            let elems = System::idle(memory).after_all(shared.params(), events).elems;
            let p = push_number(shared.params(), memory, events, first, a);
            let q = push_number(shared.params(), memory, events, second, b);
            &&& 0 <= p < q < elems.len()
            &&& elems[p] == before(shared.params(), memory, events, first).pushes[a].elem
            &&& elems[q] == before(shared.params(), memory, events, second).pushes[b].elem
        }),
{
    lemma_push_call(shared, memory, events, first, a, Ok(()));
    lemma_push_call(shared, memory, events, second, b, Ok(()));
    lemma_push_gives(shared.params(), memory, events, first, a);
    lemma_push_gives(shared.params(), memory, events, second, b);
    lemma_pushes_in_order(shared.params(), memory, events, first, start, second, a, b);
}

}
