//! Which values the threads that share a queue receive.
//!
//! A thread makes its calls one after the other. What its calls send and receive
//! is stated here over the values, for calls whose accesses take turns on a
//! memory. Where every value is sent once, a value tells which call sent it.

use crate::sync::arrival::{
    before, lemma_pop_gives, lemma_popped_was_pushed, lemma_push_gives, lemma_runs_up_to,
    pop_number, push_number, push_succeeds, runs,
};
use crate::sync::calls::{
    lemma_pop_call, lemma_pop_calls_give_different_elements, lemma_pop_calls_in_order,
    lemma_push_call, lemma_push_calls_in_order, pop_call_ends, push_call_ends,
};
use crate::sync::interleave::{Event, System};
use crate::sync::memory::Memory;
use crate::sync::params::QueueParameters;
use crate::sync::shared::Shared;
use crate::sync::starts::unclaimed;
use vstd::prelude::*;

verus! {

/// A call: the events with which it starts and ends, and its operation.
pub struct Span {
    pub start: int,
    pub end: int,
    pub id: int,
}

/// The calls are made one after the other.
pub open spec fn one_after_another(calls: Seq<Span>) -> bool {
    &&& forall|i: int| 0 <= i < calls.len() ==> (#[trigger] calls[i]).start < calls[i].end
    &&& forall|i: int, j: int|
        0 <= i < j < calls.len() ==> (#[trigger] calls[i]).end < (#[trigger] calls[j]).start
}

/// The push call succeeds, and pushes the value.
pub open spec fn call_sends<T>(
    shared: Shared<T>,
    memory: Memory<T>,
    events: Seq<Event<T>>,
    call: Span,
    value: T,
) -> bool {
    &&& 0 <= call.start < call.end < events.len()
    &&& events[call.start] == Event::StartPush(call.id, value)
    &&& push_call_ends(shared, memory, events, call.end, call.id, Ok(()))
    &&& before(shared.params(), memory, events, call.end).pushes[call.id].elem == value
}

/// The pop call succeeds, and gives out the value.
pub open spec fn call_receives<T>(
    shared: Shared<T>,
    memory: Memory<T>,
    events: Seq<Event<T>>,
    call: Span,
    value: T,
) -> bool {
    &&& 0 <= call.start < call.end < events.len()
    &&& events[call.start] == Event::<T>::StartPop(call.id)
    &&& pop_call_ends(shared, memory, events, call.end, call.id, Ok(value))
}

/// One producer sends the values by its push calls, one after the other.
pub open spec fn sends<T>(
    shared: Shared<T>,
    memory: Memory<T>,
    events: Seq<Event<T>>,
    calls: Seq<Span>,
    values: Seq<T>,
) -> bool {
    &&& calls.len() == values.len()
    &&& one_after_another(calls)
    &&& forall|i: int|
        0 <= i < calls.len() ==> call_sends(shared, memory, events, #[trigger] calls[i], values[i])
}

/// One consumer receives the values by its pop calls, one after the other.
pub open spec fn receives<T>(
    shared: Shared<T>,
    memory: Memory<T>,
    events: Seq<Event<T>>,
    calls: Seq<Span>,
    values: Seq<T>,
) -> bool {
    &&& calls.len() == values.len()
    &&& one_after_another(calls)
    &&& forall|i: int|
        0 <= i < calls.len() ==> call_receives(
            shared,
            memory,
            events,
            #[trigger] calls[i],
            values[i],
        )
}

/// The event starts a push of the value.
pub open spec fn starts_push_of<T>(event: Event<T>, value: T) -> bool {
    event matches Event::StartPush(_, elem) && elem == value
}

/// No value is to be pushed twice.
pub open spec fn each_is_sent_once<T>(events: Seq<Event<T>>) -> bool {
    forall|i: int, j: int, value: T|
        0 <= i < j < events.len() && #[trigger] starts_push_of(events[i], value)
            ==> !#[trigger] starts_push_of(events[j], value)
}

/// A push of the value was started before the event with number `k`.
spec fn started_before<T>(events: Seq<Event<T>>, k: int, value: T) -> bool {
    exists|i: int| 0 <= i < k && #[trigger] starts_push_of(events[i], value)
}

/// All values of the record, and of the pushes that have no slot yet, differ.
spec fn all_differ<T>(events: Seq<Event<T>>, k: int, s: System<T>) -> bool {
    &&& s.elems.no_duplicates()
    &&& forall|p: int|
        0 <= p < s.elems.len() ==> started_before(events, k, #[trigger] s.elems[p])
    &&& forall|id: int| #[trigger]
        unclaimed(s).contains(id) ==> started_before(events, k, s.pushes[id].elem)
    &&& forall|id: int, p: int|
        #[trigger] unclaimed(s).contains(id) && 0 <= p < s.elems.len() ==> #[trigger] s.elems[p]
            != s.pushes[id].elem
    &&& forall|a: int, b: int|
        a != b && #[trigger] unclaimed(s).contains(a) && #[trigger] unclaimed(s).contains(b)
            ==> s.pushes[a].elem != s.pushes[b].elem
}

proof fn lemma_all_differ<T>(
    params: QueueParameters,
    memory: Memory<T>,
    events: Seq<Event<T>>,
    k: int,
)
    requires
        runs(params, memory, events),
        each_is_sent_once(events),
        0 <= k <= events.len(),
    ensures
        all_differ(events, k, before(params, memory, events, k)),
    decreases k,
{
    let now = before(params, memory, events, k);
    if k == 0 {
        assert(events.take(0) =~= Seq::empty());
    } else {
        let then = before(params, memory, events, k - 1);
        lemma_runs_up_to(params, memory, events, k - 1);
        lemma_all_differ(params, memory, events, k - 1);
        assert forall|value: T| started_before(events, k - 1, value) implies #[trigger] started_before(
            events,
            k,
            value,
        ) by {
            let i = choose|i: int| 0 <= i < k - 1 && #[trigger] starts_push_of(events[i], value);
            assert(starts_push_of(events[i], value));
        }
        match events[k - 1] {
            Event::StartPush(id, elem) => {
                assert(starts_push_of(events[k - 1], elem));
                assert(started_before(events, k, elem));
                assert(!started_before(events, k - 1, elem));
                assert forall|other: int| #[trigger] unclaimed(now).contains(other) && other
                    != id implies unclaimed(then).contains(other) by {}
            },
            Event::TurnOfPush(id) => {
                assert forall|other: int| #[trigger]
                    unclaimed(now).contains(other) implies unclaimed(then).contains(other)
                    && now.pushes[other].elem == then.pushes[other].elem by {}
                if now.elems != then.elems {
                    assert(unclaimed(then).contains(id));
                    assert(!unclaimed(now).contains(id));
                }
            },
            _ => {
                assert(unclaimed(now) =~= unclaimed(then));
            },
        }
    }
}

/// Where every value is sent once, the record holds no value twice.
proof fn lemma_record_differs<T>(
    params: QueueParameters,
    memory: Memory<T>,
    events: Seq<Event<T>>,
)
    requires
        runs(params, memory, events),
        each_is_sent_once(events),
    ensures
        System::idle(memory).after_all(params, events).elems.no_duplicates(),
{
    lemma_all_differ(params, memory, events, events.len() as int);
    assert(events.take(events.len() as int) =~= events);
}

/// The value that a producer has sent has the number of its slot in the record.
proof fn lemma_sent<T>(
    shared: Shared<T>,
    memory: Memory<T>,
    events: Seq<Event<T>>,
    call: Span,
    value: T,
)
    requires
        runs(shared.params(), memory, events),
        call_sends(shared, memory, events, call, value),
    ensures
        ({
            let elems = System::idle(memory).after_all(shared.params(), events).elems;
            let p = push_number(shared.params(), memory, events, call.end, call.id);
            &&& 0 <= p < elems.len()
            &&& elems[p] == value
        }),
{
    lemma_push_call(shared, memory, events, call.end, call.id, Ok(()));
    lemma_push_gives(shared.params(), memory, events, call.end, call.id);
}

/// The value that a consumer has received has the number of its slot in the record.
proof fn lemma_received<T>(
    shared: Shared<T>,
    memory: Memory<T>,
    events: Seq<Event<T>>,
    call: Span,
    value: T,
)
    requires
        runs(shared.params(), memory, events),
        call_receives(shared, memory, events, call, value),
    ensures
        ({
            let elems = System::idle(memory).after_all(shared.params(), events).elems;
            let p = pop_number(shared.params(), memory, events, call.end, call.id);
            &&& 0 <= p < elems.len()
            &&& elems[p] == value
        }),
{
    lemma_pop_call(shared, memory, events, call.end, call.id, Ok(value));
    lemma_pop_gives(shared.params(), memory, events, call.end, call.id);
}

/// Nothing is invented: a value that is received was sent by a push that has
/// succeeded before.
pub proof fn lemma_received_was_sent<T>(
    shared: Shared<T>,
    memory: Memory<T>,
    events: Seq<Event<T>>,
    call: Span,
    value: T,
)
    requires
        runs(shared.params(), memory, events),
        call_receives(shared, memory, events, call, value),
    ensures
        exists|j: int, a: int|
            0 <= j < call.end && #[trigger] push_succeeds(
                shared.params(),
                memory,
                events,
                j,
                a,
            ) && before(shared.params(), memory, events, j).pushes[a].elem == value,
        exists|i: int| 0 <= i < call.end && #[trigger] starts_push_of(events[i], value),
{
    lemma_pop_call(shared, memory, events, call.end, call.id, Ok(value));
    lemma_popped_was_pushed(shared.params(), memory, events, call.end, call.id);
    let (j, a) = choose|j: int, a: int|
        0 <= j < call.end && #[trigger] push_succeeds(
            shared.params(),
            memory,
            events,
            j,
            a,
        ) && before(shared.params(), memory, events, j).pushes[a].elem == value;
    lemma_push_was_started(shared.params(), memory, events, j, a);
}

/// A push that is under way was started with its element.
proof fn lemma_push_was_started<T>(
    params: QueueParameters,
    memory: Memory<T>,
    events: Seq<Event<T>>,
    k: int,
    id: int,
)
    requires
        runs(params, memory, events),
        0 <= k <= events.len(),
        k < events.len() && events[k] == Event::<T>::TurnOfPush(id) || before(
            params,
            memory,
            events,
            k,
        ).pushes.dom().contains(id),
    ensures
        exists|i: int|
            0 <= i < k && #[trigger] starts_push_of(
                events[i],
                before(params, memory, events, k).pushes[id].elem,
            ),
    decreases k,
{
    lemma_runs_up_to(params, memory, events, k);
    if k == 0 {
        assert(events.take(0) =~= Seq::empty());
    } else {
        let then = before(params, memory, events, k - 1);
        let now = before(params, memory, events, k);
        lemma_runs_up_to(params, memory, events, k - 1);
        if then.pushes.dom().contains(id) && then.pushes[id].elem == now.pushes[id].elem {
            lemma_push_was_started(params, memory, events, k - 1, id);
        } else {
            assert(starts_push_of(events[k - 1], now.pushes[id].elem));
        }
    }
}

/// What one consumer receives: no value twice, and the values of each producer
/// in the order in which that producer has sent them.
#[verifier::rlimit(30)]
pub proof fn lemma_received_in_order<T>(
    shared: Shared<T>,
    memory: Memory<T>,
    events: Seq<Event<T>>,
    pushes: Seq<Span>,
    sent: Seq<T>,
    pops: Seq<Span>,
    received: Seq<T>,
)
    requires
        runs(shared.params(), memory, events),
        each_is_sent_once(events),
        sends(shared, memory, events, pushes, sent),
        receives(shared, memory, events, pops, received),
    ensures
        received.no_duplicates(),
        forall|i: int, j: int, u: int, v: int|
            0 <= i < j < received.len() && 0 <= u < sent.len() && 0 <= v < sent.len()
                && #[trigger] received[i] == #[trigger] sent[u] && #[trigger] received[j]
                == #[trigger] sent[v] ==> u < v,
{
    let params = shared.params();
    let elems = System::idle(memory).after_all(params, events).elems;
    lemma_record_differs(params, memory, events);
    assert forall|i: int, j: int| 0 <= i < j < received.len() implies pop_number(
        params,
        memory,
        events,
        (#[trigger] pops[i]).end,
        pops[i].id,
    ) < pop_number(params, memory, events, (#[trigger] pops[j]).end, pops[j].id) by {
        assert(call_receives(shared, memory, events, pops[i], received[i]));
        assert(call_receives(shared, memory, events, pops[j], received[j]));
        lemma_pop_calls_in_order(
            shared,
            memory,
            events,
            pops[i].end,
            pops[j].start,
            pops[j].end,
            pops[i].id,
            pops[j].id,
            received[i],
            received[j],
        );
    }
    assert forall|i: int| 0 <= i < received.len() implies {
        let p = pop_number(params, memory, events, (#[trigger] pops[i]).end, pops[i].id);
        0 <= p < elems.len() && elems[p] == received[i]
    } by {
        lemma_received(shared, memory, events, pops[i], received[i]);
    }
    assert forall|u: int| 0 <= u < sent.len() implies {
        let p = push_number(params, memory, events, (#[trigger] pushes[u]).end, pushes[u].id);
        0 <= p < elems.len() && elems[p] == sent[u]
    } by {
        lemma_sent(shared, memory, events, pushes[u], sent[u]);
    }
    assert forall|i: int, j: int|
        0 <= i < received.len() && 0 <= j < received.len() && i != j implies received[i]
        != received[j] by {
        if i < j {
            assert(pops[i].end < pops[j].start);
        } else {
            assert(pops[j].end < pops[i].start);
        }
    }
    assert forall|i: int, j: int, u: int, v: int|
        0 <= i < j < received.len() && 0 <= u < sent.len() && 0 <= v < sent.len()
            && #[trigger] received[i] == #[trigger] sent[u] && #[trigger] received[j]
            == #[trigger] sent[v] implies u < v by {
        assert(pops[i].end < pops[j].start);
        assert(pushes[u].start < pushes[u].end);
        assert(pushes[v].start < pushes[v].end);
        if v < u {
            assert(call_sends(shared, memory, events, pushes[u], sent[u]));
            assert(call_sends(shared, memory, events, pushes[v], sent[v]));
            lemma_push_calls_in_order(
                shared,
                memory,
                events,
                pushes[v].end,
                pushes[u].start,
                pushes[u].end,
                pushes[v].id,
                pushes[u].id,
            );
        }
    }
}

/// What two consumers receive: no value goes to both.
pub proof fn lemma_received_by_one<T>(
    shared: Shared<T>,
    memory: Memory<T>,
    events: Seq<Event<T>>,
    pops: Seq<Span>,
    received: Seq<T>,
    other_pops: Seq<Span>,
    other_received: Seq<T>,
)
    requires
        runs(shared.params(), memory, events),
        each_is_sent_once(events),
        receives(shared, memory, events, pops, received),
        receives(shared, memory, events, other_pops, other_received),
        forall|i: int, j: int|
            0 <= i < pops.len() && 0 <= j < other_pops.len() ==> (#[trigger] pops[i]).end != (
            #[trigger] other_pops[j]).end,
    ensures
        forall|i: int, j: int|
            0 <= i < received.len() && 0 <= j < other_received.len() ==> #[trigger] received[i]
                != #[trigger] other_received[j],
{
    lemma_record_differs(shared.params(), memory, events);
    assert forall|i: int, j: int|
        0 <= i < received.len() && 0 <= j < other_received.len() implies #[trigger] received[i]
        != #[trigger] other_received[j] by {
        let a = pops[i];
        let b = other_pops[j];
        assert(a.end != b.end);
        assert(call_receives(shared, memory, events, a, received[i]));
        assert(call_receives(shared, memory, events, b, other_received[j]));
        if a.end < b.end {
            lemma_pop_calls_give_different_elements(
                shared,
                memory,
                events,
                a.end,
                b.end,
                a.id,
                b.id,
                received[i],
                other_received[j],
            );
        } else {
            lemma_pop_calls_give_different_elements(
                shared,
                memory,
                events,
                b.end,
                a.end,
                b.id,
                a.id,
                other_received[j],
                received[i],
            );
        }
    }
}

}
