//! In which order elements arrive.
//!
//! Operations of one thread follow each other: the next one starts after the
//! one before has ended. Here it is stated what that means for the slots that
//! they get, whatever the operations of other threads do meanwhile.

use crate::sync::error::TryPopError;
use crate::sync::interleave::{
    lemma_interleaving, lemma_interleavings_are_sound, lemma_record_grows, lemma_results, Event,
    System,
};
use crate::sync::laps::settled;
use crate::sync::memory::Memory;
use crate::sync::params::QueueParameters;
use crate::sync::system::{pop_agrees, push_agrees, push_holds};
use vstd::prelude::*;

verus! {

/// The queue and its operations before the event with number `k`.
pub open spec fn before<T>(
    params: QueueParameters,
    memory: Memory<T>,
    events: Seq<Event<T>>,
    k: int,
) -> System<T> {
    System::idle(memory).after_all(params, events.take(k))
}

/// The event with number `k` ends the pop `id`, which succeeds.
pub open spec fn pop_succeeds<T>(
    params: QueueParameters,
    memory: Memory<T>,
    events: Seq<Event<T>>,
    k: int,
    id: int,
) -> bool {
    &&& events[k] == Event::<T>::TurnOfPop(id)
    &&& before(params, memory, events, k).pop_result(params, id) matches Some(Ok(_))
}

/// The event with number `k` ends the push `id`, which succeeds.
pub open spec fn push_succeeds<T>(
    params: QueueParameters,
    memory: Memory<T>,
    events: Seq<Event<T>>,
    k: int,
    id: int,
) -> bool {
    &&& events[k] == Event::<T>::TurnOfPush(id)
    &&& before(params, memory, events, k).push_result(params, id) matches Some(Ok(_))
}

/// The number of the slot that a pop has before the event with number `k`.
pub open spec fn pop_number<T>(
    params: QueueParameters,
    memory: Memory<T>,
    events: Seq<Event<T>>,
    k: int,
    id: int,
) -> int {
    before(params, memory, events, k).pops[id].number
}

/// The number of the slot that a push has before the event with number `k`.
pub open spec fn push_number<T>(
    params: QueueParameters,
    memory: Memory<T>,
    events: Seq<Event<T>>,
    k: int,
    id: int,
) -> int {
    before(params, memory, events, k).pushes[id].number
}

/// A queue on which nothing has happened yet, and events that can happen on it.
pub open spec fn runs<T>(
    params: QueueParameters,
    memory: Memory<T>,
    events: Seq<Event<T>>,
) -> bool {
    &&& params.wf()
    &&& params.holds_elements()
    &&& settled(params, memory, 0, 0)
    &&& System::idle(memory).allows_all(params, events)
}

/// The first events of a run are a run, and the next one can happen after them.
pub proof fn lemma_runs_up_to<T>(
    params: QueueParameters,
    memory: Memory<T>,
    events: Seq<Event<T>>,
    k: int,
)
    requires
        runs(params, memory, events),
        0 <= k <= events.len(),
    ensures
        runs(params, memory, events.take(k)),
        k < events.len() ==> {
            &&& before(params, memory, events, k).allows(params, events[k])
            &&& before(params, memory, events, k + 1) == before(params, memory, events, k).after(
                params,
                events[k],
            )
        },
    decreases events.len(),
{
    if k == events.len() {
        assert(events.take(k) =~= events);
    } else {
        lemma_runs_up_to(params, memory, events.drop_last(), k);
        assert(events.drop_last().take(k) =~= events.take(k));
        assert(events.take(k + 1).drop_last() =~= events.take(k));
        if k + 1 < events.len() {
            assert(events.drop_last().take(k + 1) =~= events.take(k + 1));
        } else {
            assert(events.take(k + 1) =~= events);
        }
    }
}

/// The record at an earlier time is the beginning of the record at a later one.
proof fn lemma_record_up_to<T>(
    params: QueueParameters,
    memory: Memory<T>,
    events: Seq<Event<T>>,
    k: int,
    m: int,
)
    requires
        0 <= k <= m <= events.len(),
    ensures
        before(params, memory, events, k).elems.is_prefix_of(
            before(params, memory, events, m).elems,
        ),
        before(params, memory, events, k).reserves <= before(params, memory, events, m).reserves,
{
    lemma_record_grows(params, System::idle(memory), events.take(m), k);
    assert(events.take(m).take(k) =~= events.take(k));
}

/// Slots that were given back stay so.
proof fn lemma_returned_up_to<T>(
    params: QueueParameters,
    memory: Memory<T>,
    events: Seq<Event<T>>,
    k: int,
    m: int,
)
    requires
        runs(params, memory, events),
        0 <= k <= m <= events.len(),
    ensures
        before(params, memory, events, k).returned.subset_of(
            before(params, memory, events, m).returned,
        ),
    decreases m - k,
{
    if k < m {
        lemma_returned_up_to(params, memory, events, k, m - 1);
        lemma_runs_up_to(params, memory, events, m - 1);
    }
}

/// An event gives a pop no slot with a number below the next one.
proof fn lemma_pop_keeps_later_slot<T>(
    params: QueueParameters,
    s: System<T>,
    event: Event<T>,
    id: int,
    bound: int,
)
    requires
        s.allows(params, event),
        s.reserves >= bound,
        s.pops.dom().contains(id) && s.pops[id].entry() is Some ==> s.pops[id].number >= bound,
    ensures
        ({
            let after = s.after(params, event);
            after.pops.dom().contains(id) && after.pops[id].entry() is Some
                ==> after.pops[id].number >= bound
        }),
{
}

/// A pop that starts at a time gets no slot that was claimed before.
proof fn lemma_pop_claims_later<T>(
    params: QueueParameters,
    memory: Memory<T>,
    events: Seq<Event<T>>,
    m: int,
    k: int,
    id: int,
)
    requires
        runs(params, memory, events),
        0 <= m < k <= events.len(),
        events[m] == Event::<T>::StartPop(id),
    ensures
        ({
            let s = before(params, memory, events, k);
            s.pops.dom().contains(id) && s.pops[id].entry() is Some ==> s.pops[id].number
                >= before(params, memory, events, m).reserves
        }),
    decreases k - m,
{
    let then = before(params, memory, events, k - 1);
    let bound = before(params, memory, events, m).reserves as int;
    lemma_runs_up_to(params, memory, events, k - 1);
    lemma_record_up_to(params, memory, events, m, k - 1);
    if m + 1 < k {
        lemma_pop_claims_later(params, memory, events, m, k - 1, id);
    } else {
        assert(!then.pops.dom().contains(id));
    }
    lemma_pop_keeps_later_slot(params, then, events[k - 1], id, bound);
}

/// An event gives a push no slot with a number below the next one.
proof fn lemma_push_keeps_later_slot<T>(
    params: QueueParameters,
    s: System<T>,
    event: Event<T>,
    id: int,
    bound: int,
)
    requires
        s.allows(params, event),
        s.elems.len() >= bound,
        s.pushes.dom().contains(id) && s.pushes[id].entry() is Some ==> s.pushes[id].number >= bound,
    ensures
        ({
            let after = s.after(params, event);
            after.pushes.dom().contains(id) && after.pushes[id].entry() is Some
                ==> after.pushes[id].number >= bound
        }),
{
}

/// A push that starts at a time gets no slot that was claimed before.
proof fn lemma_push_claims_later<T>(
    params: QueueParameters,
    memory: Memory<T>,
    events: Seq<Event<T>>,
    m: int,
    k: int,
    id: int,
)
    requires
        runs(params, memory, events),
        0 <= m < k <= events.len(),
        events[m] matches Event::StartPush(started, _) && started == id,
    ensures
        ({
            let s = before(params, memory, events, k);
            s.pushes.dom().contains(id) && s.pushes[id].entry() is Some ==> s.pushes[id].number
                >= before(params, memory, events, m).elems.len()
        }),
    decreases k - m,
{
    let then = before(params, memory, events, k - 1);
    let bound = before(params, memory, events, m).elems.len() as int;
    lemma_runs_up_to(params, memory, events, k - 1);
    lemma_record_up_to(params, memory, events, m, k - 1);
    if m + 1 < k {
        lemma_push_claims_later(params, memory, events, m, k - 1, id);
    } else {
        assert(!then.pushes.dom().contains(id));
    }
    lemma_push_keeps_later_slot(params, then, events[k - 1], id, bound);
}

/// What a pop that succeeds gives out: the element with the number of its slot.
pub proof fn lemma_pop_gives<T>(
    params: QueueParameters,
    memory: Memory<T>,
    events: Seq<Event<T>>,
    k: int,
    id: int,
)
    requires
        runs(params, memory, events),
        0 <= k < events.len(),
        pop_succeeds(params, memory, events, k, id),
    ensures
        ({
            let p = pop_number(params, memory, events, k, id);
            let elems = System::idle(memory).after_all(params, events).elems;
            &&& 0 <= p < elems.len()
            &&& before(params, memory, events, k).pop_result(params, id) == Some(
                Ok::<T, TryPopError>(elems[p]),
            )
        }),
{
    lemma_runs_up_to(params, memory, events, k);
    lemma_results(params, memory, events.take(k), id);
    lemma_record_up_to(params, memory, events, k, events.len() as int);
    assert(events.take(events.len() as int) =~= events);
    lemma_interleavings_are_sound(params, memory, events.take(k));
}

/// The element of a push that succeeds has the number of its slot.
pub proof fn lemma_push_gives<T>(
    params: QueueParameters,
    memory: Memory<T>,
    events: Seq<Event<T>>,
    k: int,
    id: int,
)
    requires
        runs(params, memory, events),
        0 <= k < events.len(),
        push_succeeds(params, memory, events, k, id),
    ensures
        ({
            let p = push_number(params, memory, events, k, id);
            let elems = System::idle(memory).after_all(params, events).elems;
            &&& 0 <= p < elems.len()
            &&& elems[p] == before(params, memory, events, k).pushes[id].elem
        }),
{
    lemma_runs_up_to(params, memory, events, k);
    lemma_results(params, memory, events.take(k), id);
    lemma_record_up_to(params, memory, events, k, events.len() as int);
    assert(events.take(events.len() as int) =~= events);
}

/// A push with slot number `p` has succeeded before the event with number `k`.
pub open spec fn pushed_before<T>(
    params: QueueParameters,
    memory: Memory<T>,
    events: Seq<Event<T>>,
    k: int,
    p: int,
) -> bool {
    exists|j: int, id: int|
        0 <= j < k && #[trigger] push_succeeds(params, memory, events, j, id) && push_number(
            params,
            memory,
            events,
            j,
            id,
        ) == p
}

/// Every slot that was claimed is held by the push that claimed it until that
/// push succeeds.
proof fn lemma_held_until_pushed<T>(
    params: QueueParameters,
    memory: Memory<T>,
    events: Seq<Event<T>>,
    k: int,
    p: int,
)
    requires
        runs(params, memory, events),
        0 <= k <= events.len(),
        0 <= p < before(params, memory, events, k).elems.len(),
    ensures
        pushed_before(params, memory, events, k, p) || exists|id: int| #[trigger]
            push_holds(before(params, memory, events, k), id, p),
    decreases k,
{
    if k == 0 {
        assert(events.take(0) =~= Seq::empty());
    } else {
        let then = before(params, memory, events, k - 1);
        let now = before(params, memory, events, k);
        lemma_runs_up_to(params, memory, events, k - 1);
        if p < then.elems.len() {
            lemma_held_until_pushed(params, memory, events, k - 1, p);
            if pushed_before(params, memory, events, k - 1, p) {
                let (j, id) = choose|j: int, id: int|
                    0 <= j < k - 1 && #[trigger] push_succeeds(params, memory, events, j, id)
                        && push_number(params, memory, events, j, id) == p;
                assert(push_succeeds(params, memory, events, j, id));
            } else {
                let id = choose|id: int| #[trigger] push_holds(then, id, p);
                if events[k - 1] == Event::<T>::TurnOfPush(id) && then.pushes[id].state is Commit {
                    assert(push_succeeds(params, memory, events, k - 1, id));
                } else {
                    assert(push_holds(now, id, p));
                }
            }
        } else {
            let id = events[k - 1]->TurnOfPush_0;
            assert(push_holds(now, id, p));
        }
    }
}

/// What is popped was pushed: a pop that succeeds has the slot of a push that
/// has succeeded before, and gives out the element of that push.
pub proof fn lemma_popped_was_pushed<T>(
    params: QueueParameters,
    memory: Memory<T>,
    events: Seq<Event<T>>,
    k: int,
    c: int,
)
    requires
        runs(params, memory, events),
        0 <= k < events.len(),
        pop_succeeds(params, memory, events, k, c),
    ensures
        exists|j: int, a: int|
            0 <= j < k && #[trigger] push_succeeds(params, memory, events, j, a) && push_number(
                params,
                memory,
                events,
                j,
                a,
            ) == pop_number(params, memory, events, k, c) && before(
                params,
                memory,
                events,
                k,
            ).pop_result(params, c) == Some(
                Ok::<T, TryPopError>(before(params, memory, events, j).pushes[a].elem),
            ),
{
    let s = before(params, memory, events, k);
    let p = pop_number(params, memory, events, k, c);
    lemma_runs_up_to(params, memory, events, k);
    lemma_results(params, memory, events.take(k), c);
    lemma_interleavings_are_sound(params, memory, events.take(k));
    lemma_held_until_pushed(params, memory, events, k, p);
    let acc = lemma_interleaving(params, memory, events.take(k));
    assert(pop_agrees(params, s.elems, acc, s.pops[c]));
    if exists|id: int| #[trigger] push_holds(s, id, p) {
        let id = choose|id: int| #[trigger] push_holds(s, id, p);
        assert(push_agrees(params, s.elems, acc, s.pushes[id]));
    }
    let (j, a) = choose|j: int, a: int|
        0 <= j < k && #[trigger] push_succeeds(params, memory, events, j, a) && push_number(
            params,
            memory,
            events,
            j,
            a,
        ) == p;
    lemma_push_gives(params, memory, events, j, a);
    lemma_pop_gives(params, memory, events, k, c);
    assert(push_succeeds(params, memory, events, j, a));
}

/// The pops of one consumer come in the order of the slots: a pop that starts
/// after another one has ended gets a slot with a greater number.
pub proof fn lemma_pops_in_order<T>(
    params: QueueParameters,
    memory: Memory<T>,
    events: Seq<Event<T>>,
    first: int,
    start: int,
    second: int,
    a: int,
    b: int,
)
    requires
        runs(params, memory, events),
        0 <= first < start < second < events.len(),
        pop_succeeds(params, memory, events, first, a),
        events[start] == Event::<T>::StartPop(b),
        pop_succeeds(params, memory, events, second, b),
    ensures
        pop_number(params, memory, events, first, a) < pop_number(
            params,
            memory,
            events,
            second,
            b,
        ),
{
    lemma_runs_up_to(params, memory, events, first);
    lemma_results(params, memory, events.take(first), a);
    lemma_runs_up_to(params, memory, events, second);
    lemma_record_up_to(params, memory, events, first, start);
    lemma_pop_claims_later(params, memory, events, start, second, b);
}

/// Nothing comes twice: two pops that succeed get different slots.
pub proof fn lemma_nothing_comes_twice<T>(
    params: QueueParameters,
    memory: Memory<T>,
    events: Seq<Event<T>>,
    first: int,
    second: int,
    a: int,
    b: int,
)
    requires
        runs(params, memory, events),
        0 <= first < second < events.len(),
        pop_succeeds(params, memory, events, first, a),
        pop_succeeds(params, memory, events, second, b),
    ensures
        pop_number(params, memory, events, first, a) != pop_number(
            params,
            memory,
            events,
            second,
            b,
        ),
{
    lemma_runs_up_to(params, memory, events, first);
    lemma_runs_up_to(params, memory, events, second);
    lemma_results(params, memory, events.take(second), b);
    lemma_returned_up_to(params, memory, events, first + 1, second);
    assert(before(params, memory, events, first + 1).returned.contains(
        pop_number(params, memory, events, first, a),
    ));
}

/// The pushes of one producer get slots in their order: a push that starts after
/// another one has ended gets a slot with a greater number.
pub proof fn lemma_pushes_in_order<T>(
    params: QueueParameters,
    memory: Memory<T>,
    events: Seq<Event<T>>,
    first: int,
    start: int,
    second: int,
    a: int,
    b: int,
)
    requires
        runs(params, memory, events),
        0 <= first < start < second < events.len(),
        push_succeeds(params, memory, events, first, a),
        events[start] matches Event::StartPush(started, _) && started == b,
        push_succeeds(params, memory, events, second, b),
    ensures
        push_number(params, memory, events, first, a) < push_number(
            params,
            memory,
            events,
            second,
            b,
        ),
{
    lemma_runs_up_to(params, memory, events, first);
    lemma_results(params, memory, events.take(first), a);
    lemma_runs_up_to(params, memory, events, second);
    lemma_record_up_to(params, memory, events, first, start);
    lemma_push_claims_later(params, memory, events, start, second, b);
}

/// Each producer's order is kept: where a producer has pushed one element after
/// another, no consumer pops the later one and the earlier one after it.
pub proof fn lemma_order_is_kept<T>(
    params: QueueParameters,
    memory: Memory<T>,
    events: Seq<Event<T>>,
    pushed: (int, int, int),
    a: int,
    b: int,
    popped: (int, int, int),
    c: int,
    d: int,
)
    requires
        runs(params, memory, events),
        0 <= pushed.0 < pushed.1 < pushed.2 < events.len(),
        push_succeeds(params, memory, events, pushed.0, a),
        events[pushed.1] matches Event::StartPush(started, _) && started == b,
        push_succeeds(params, memory, events, pushed.2, b),
        0 <= popped.0 < popped.1 < popped.2 < events.len(),
        pop_succeeds(params, memory, events, popped.0, c),
        events[popped.1] == Event::<T>::StartPop(d),
        pop_succeeds(params, memory, events, popped.2, d),
    ensures
        !(pop_number(params, memory, events, popped.0, c) == push_number(
            params,
            memory,
            events,
            pushed.2,
            b,
        ) && pop_number(params, memory, events, popped.2, d) == push_number(
            params,
            memory,
            events,
            pushed.0,
            a,
        )),
{
    lemma_pushes_in_order(params, memory, events, pushed.0, pushed.1, pushed.2, a, b);
    lemma_pops_in_order(params, memory, events, popped.0, popped.1, popped.2, c, d);
}

}
