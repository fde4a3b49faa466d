//! When an operation is told that the queue is busy: only if an operation on the
//! other end of the queue was under way.

use crate::sync::account::{block_agrees, consumed, Account};
use crate::sync::arrival::{before, lemma_runs_up_to, runs};
use crate::sync::drain::{lemma_committed_words_stay, lemma_filled_of_last_block};
use crate::sync::error::{TryPopError, TryPushError};
use crate::sync::heads::lemma_heads;
use crate::sync::interleave::{lemma_interleaving, Event, System};
use crate::sync::laps::lemma_block_at;
use crate::sync::memory::Memory;
use crate::sync::opening::{block_named, lemma_next_named};
use crate::sync::params::QueueParameters;
use crate::sync::push::{next_index, PushState};
use crate::sync::refill::{concerns_push, lemma_consumed_words_stay, lemma_no_consumer_at_work};
use crate::sync::slots::lemma_claims_read;
use crate::sync::system::{
    lemma_pop_turn, lemma_push_turn, lemma_start, lemma_start_turn, pop_agrees, push_agrees,
    system_agrees,
};
use vstd::prelude::*;

verus! {

/// The event with number `k` is the last one that has to do with the push `id`,
/// and a turn of it.
pub open spec fn last_turn_of_push<T>(events: Seq<Event<T>>, id: int, k: int) -> bool {
    &&& 0 <= k < events.len()
    &&& events[k] == Event::<T>::TurnOfPush(id)
    &&& forall|j: int| k < j < events.len() ==> !concerns_push(#[trigger] events[j], id)
}

/// The event has to do with the pop `id`.
pub open spec fn concerns_pop<T>(event: Event<T>, id: int) -> bool {
    match event {
        Event::StartPop(k) => k == id,
        Event::TurnOfPop(k) => k == id,
        _ => false,
    }
}

/// The event with number `k` is the last one that has to do with the pop `id`,
/// and a turn of it.
pub open spec fn last_turn_of_pop<T>(events: Seq<Event<T>>, id: int, k: int) -> bool {
    &&& 0 <= k < events.len()
    &&& events[k] == Event::<T>::TurnOfPop(id)
    &&& forall|j: int| k < j < events.len() ==> !concerns_pop(#[trigger] events[j], id)
}

/// No pop was under way from the event with number `k` on.
pub open spec fn no_pops_since<T>(
    params: QueueParameters,
    memory: Memory<T>,
    events: Seq<Event<T>>,
    k: int,
) -> bool {
    forall|j: int|
        k <= j <= events.len() ==> (#[trigger] before(params, memory, events, j)).pops.dom()
            == Set::<int>::empty()
}

/// No push was under way from the event with number `k` on.
pub open spec fn no_pushes_since<T>(
    params: QueueParameters,
    memory: Memory<T>,
    events: Seq<Event<T>>,
    k: int,
) -> bool {
    forall|j: int|
        k <= j <= events.len() ==> (#[trigger] before(params, memory, events, j)).pushes.dom()
            == Set::<int>::empty()
}

/// The last turn of a push stays the last one while nothing has to do with the push.
pub proof fn lemma_last_turn_of_push_stays<T>(events: Seq<Event<T>>, id: int, k: int)
    requires
        events.len() > 0,
        last_turn_of_push(events.drop_last(), id, k),
        !concerns_push(events.last(), id),
    ensures
        last_turn_of_push(events, id, k),
{
    let past = events.drop_last();
    assert(past[k] == events[k]);
    assert forall|j: int| k < j < events.len() implies !concerns_push(#[trigger] events[j], id) by {
        if j < past.len() {
            assert(past[j] == events[j]);
        }
    }
}

/// If no pop was under way since an event, none was so before the last event.
proof fn lemma_no_pops_before<T>(
    params: QueueParameters,
    memory: Memory<T>,
    events: Seq<Event<T>>,
    k: int,
)
    requires
        0 <= k < events.len(),
        no_pops_since(params, memory, events, k),
    ensures
        no_pops_since(params, memory, events.drop_last(), k),
        System::idle(memory).after_all(params, events.drop_last()).pops.dom() == Set::<int>::empty(),
        System::idle(memory).after_all(params, events).pops.dom() == Set::<int>::empty(),
{
    let past = events.drop_last();
    let last = events.len() - 1;
    assert forall|j: int| k <= j <= past.len() implies (
    #[trigger] before(params, memory, past, j)).pops.dom() == Set::<int>::empty() by {
        assert(past.take(j) =~= events.take(j));
        assert(before(params, memory, events, j).pops.dom() == Set::<int>::empty());
    }
    assert(events.take(last) =~= past);
    assert(events.take(last + 1) =~= events);
    assert(before(params, memory, events, last).pops.dom() == Set::<int>::empty());
    assert(before(params, memory, events, last + 1).pops.dom() == Set::<int>::empty());
}

/// The last turn of a pop stays the last one while nothing has to do with the pop.
pub proof fn lemma_last_turn_of_pop_stays<T>(events: Seq<Event<T>>, id: int, k: int)
    requires
        events.len() > 0,
        last_turn_of_pop(events.drop_last(), id, k),
        !concerns_pop(events.last(), id),
    ensures
        last_turn_of_pop(events, id, k),
{
    let past = events.drop_last();
    assert(past[k] == events[k]);
    assert forall|j: int| k < j < events.len() implies !concerns_pop(#[trigger] events[j], id) by {
        if j < past.len() {
            assert(past[j] == events[j]);
        }
    }
}

/// If no push was under way since an event, none was so before the last event.
proof fn lemma_no_pushes_before<T>(
    params: QueueParameters,
    memory: Memory<T>,
    events: Seq<Event<T>>,
    k: int,
)
    requires
        0 <= k < events.len(),
        no_pushes_since(params, memory, events, k),
    ensures
        no_pushes_since(params, memory, events.drop_last(), k),
        System::idle(memory).after_all(params, events.drop_last()).pushes.dom() == Set::<int>::empty(),
        System::idle(memory).after_all(params, events).pushes.dom() == Set::<int>::empty(),
{
    let past = events.drop_last();
    let last = events.len() - 1;
    assert forall|j: int| k <= j <= past.len() implies (
    #[trigger] before(params, memory, past, j)).pushes.dom() == Set::<int>::empty() by {
        assert(past.take(j) =~= events.take(j));
        assert(before(params, memory, events, j).pushes.dom() == Set::<int>::empty());
    }
    assert(events.take(last) =~= past);
    assert(events.take(last + 1) =~= events);
    assert(before(params, memory, events, last).pushes.dom() == Set::<int>::empty());
    assert(before(params, memory, events, last + 1).pushes.dom() == Set::<int>::empty());
}

/// The consumed words stay while no pop is under way.
proof fn lemma_consumed_words_stay_without_pops<T>(
    params: QueueParameters,
    s: System<T>,
    acc: Account,
    event: Event<T>,
    i: int,
)
    requires
        params.wf(),
        params.holds_elements(),
        system_agrees(params, s, acc),
        s.allows(params, event),
        s.pops.dom() == Set::<int>::empty(),
        s.after(params, event).pops.dom() == Set::<int>::empty(),
        0 <= i < params.num_blocks,
    ensures
        s.after(params, event).memory.blocks[i].consumed == s.memory.blocks[i].consumed,
{
    match event {
        Event::TurnOfPush(other) => {
            lemma_consumed_words_stay(params, s, acc, other, i);
        },
        Event::TurnOfPop(other) => {
            assert(s.pops.dom().contains(other));
        },
        Event::StartPop(_) => {},
        Event::StartPush(_, _) => {},
    }
}

/// The committed words stay while no push is under way.
proof fn lemma_committed_words_stay_without_pushes<T>(
    params: QueueParameters,
    s: System<T>,
    acc: Account,
    event: Event<T>,
    i: int,
)
    requires
        params.wf(),
        params.holds_elements(),
        system_agrees(params, s, acc),
        s.allows(params, event),
        s.pushes.dom() == Set::<int>::empty(),
        s.after(params, event).pushes.dom() == Set::<int>::empty(),
        0 <= i < params.num_blocks,
    ensures
        s.after(params, event).memory.blocks[i].committed == s.memory.blocks[i].committed,
{
    match event {
        Event::TurnOfPop(other) => {
            lemma_committed_words_stay(params, s, acc, other, i);
        },
        Event::TurnOfPush(other) => {
            assert(s.pushes.dom().contains(other));
        },
        Event::StartPush(_, _) => {},
        Event::StartPop(_) => {},
    }
}

/// What a push has read of the next block is up to date if no pop was under way since.
proof fn lemma_look_at_consumed<T>(
    params: QueueParameters,
    memory: Memory<T>,
    events: Seq<Event<T>>,
    id: int,
) -> (k: int)
    requires
        runs(params, memory, events),
        System::idle(memory).after_all(params, events).pushes.dom().contains(id),
        System::idle(memory).after_all(params, events).pushes[id].state is Reserved,
    ensures
        last_turn_of_push(events, id, k),
        no_pops_since(params, memory, events, k) ==> {
            let s = System::idle(memory).after_all(params, events);
            let head = s.pushes[id].state->Reserved_head;
            s.pushes[id].state->Reserved_consumed == params.cursor_of(
                s.memory.blocks[next_index(params, head) as int].consumed,
            )
        },
    decreases events.len(),
{
    let s = System::idle(memory).after_all(params, events);
    if events.len() == 0 {
        0
    } else {
        let past = events.drop_last();
        let last = events.len() - 1;
        let s1 = System::idle(memory).after_all(params, past);
        assert(past =~= events.take(last));
        lemma_runs_up_to(params, memory, events, last);
        let acc = lemma_interleaving(params, memory, past);
        if concerns_push(events.last(), id) {
            assert(events.last() == Event::<T>::TurnOfPush(id));
            assert(s1.pushes[id].state is Consumed);
            assert(push_agrees(params, s1.elems, acc, s1.pushes[id]));
            last
        } else {
            assert(s1.pushes.dom().contains(id) && s1.pushes[id] == s.pushes[id]);
            assert(push_agrees(params, s1.elems, acc, s1.pushes[id]));
            let k = lemma_look_at_consumed(params, memory, past, id);
            lemma_last_turn_of_push_stays(events, id, k);
            if no_pops_since(params, memory, events, k) {
                let head = s.pushes[id].state->Reserved_head;
                lemma_next_named(params, head);
                lemma_no_pops_before(params, memory, events, k);
                lemma_consumed_words_stay_without_pops(
                    params,
                    s1,
                    acc,
                    events.last(),
                    next_index(params, head) as int,
                );
            }
            k
        }
    }
}

/// A push is told that the queue is busy only if a pop was under way at some
/// moment since the turn before the last one of the push.
pub proof fn lemma_busy_push_met_a_pop<T>(
    params: QueueParameters,
    memory: Memory<T>,
    events: Seq<Event<T>>,
    id: int,
)
    requires
        runs(params, memory, events),
        System::idle(memory).after_all(params, events).pushes.dom().contains(id),
        System::idle(memory).after_all(params, events).push_result(params, id) matches Some(
            Err(TryPushError::Busy(_)),
        ),
    ensures
        exists|k: int| #[trigger]
            last_turn_of_push(events, id, k) && !no_pops_since(params, memory, events, k),
{
    let s = System::idle(memory).after_all(params, events);
    let k = lemma_look_at_consumed(params, memory, events, id);
    if no_pops_since(params, memory, events, k) {
        assert(events.take(events.len() as int) =~= events);
        assert(before(params, memory, events, events.len() as int).pops.dom() == Set::<
            int,
        >::empty());
        let acc = lemma_heads(params, memory, events);
        assert(push_agrees(params, s.elems, acc, s.pushes[id]));
        let head = s.pushes[id].state->Reserved_head;
        lemma_next_named(params, head);
        lemma_no_consumer_at_work(params, s, acc, next_index(params, head) as int);
        assert(false);
    }
    assert(last_turn_of_push(events, id, k));
}

/// A push is about to open, in its allocated cursor, the block after a given one.
pub open spec fn opens_next<T>(params: QueueParameters, s: System<T>, id: int, block: int) -> bool {
    &&& s.pushes.dom().contains(id)
    &&& s.pushes[id].state matches PushState::RaiseAllocated { head, .. } && block_named(
        params,
        head,
    ) == block
}

/// A block is opened in its committed cursor first only as long as a push is
/// about to open it in its allocated cursor too.
spec fn openings_agree<T>(params: QueueParameters, s: System<T>, acc: Account) -> bool {
    acc.committed > acc.allocated ==> exists|id: int| opens_next(params, s, id, acc.allocated)
}

/// The turn of a push leaves the openings in agreement.
proof fn lemma_openings_after_push<T>(
    params: QueueParameters,
    s: System<T>,
    acc: Account,
    id: int,
) -> (acc2: Account)
    requires
        params.wf(),
        params.holds_elements(),
        system_agrees(params, s, acc),
        openings_agree(params, s, acc),
        s.pushes.dom().contains(id),
        !s.pushes[id].overflows(params, s.memory),
    ensures
        system_agrees(params, s.after_push(params, id), acc2),
        openings_agree(params, s.after_push(params, id), acc2),
{
    let size = params.block_size as int;
    let s2 = s.after_push(params, id);
    let acc2 = lemma_push_turn(params, s, acc, id);
    let op = s.pushes[id];
    assert(push_agrees(params, s.elems, acc, op));
    if acc2.committed > acc2.allocated {
        if acc.committed > acc.allocated {
            let k = choose|k: int| opens_next(params, s, k, acc.allocated);
            assert(k != id);
            assert(opens_next(params, s2, k, acc2.allocated));
        } else {
            assert(op.state is RaiseCommitted);
            let head = op.state->RaiseCommitted_head;
            let l = block_named(params, head);
            if l > acc.allocated {
                assert(l * size >= acc.allocated * size + size) by (nonlinear_arith)
                    requires
                        l >= acc.allocated + 1,
                        size > 0,
                ;
            }
            assert(opens_next(params, s2, id, acc2.allocated));
        }
    }
    acc2
}

/// There is an account of every state that the operations can reach, and the
/// openings agree with it.
proof fn lemma_openings<T>(
    params: QueueParameters,
    memory: Memory<T>,
    events: Seq<Event<T>>,
) -> (acc: Account)
    requires
        runs(params, memory, events),
    ensures
        system_agrees(params, System::idle(memory).after_all(params, events), acc),
        openings_agree(params, System::idle(memory).after_all(params, events), acc),
    decreases events.len(),
{
    if events.len() == 0 {
        lemma_start(params, memory)
    } else {
        let s1 = System::idle(memory).after_all(params, events.drop_last());
        let s = System::idle(memory).after_all(params, events);
        let acc = lemma_openings(params, memory, events.drop_last());
        let acc2 = match events.last() {
            Event::StartPush(_, _) => {
                lemma_start_turn(params, s1, acc, events.last());
                acc
            },
            Event::StartPop(_) => {
                lemma_start_turn(params, s1, acc, events.last());
                acc
            },
            Event::TurnOfPush(id) => lemma_openings_after_push(params, s1, acc, id),
            Event::TurnOfPop(id) => lemma_pop_turn(params, s1, acc, id),
        };
        if !(events.last() is TurnOfPush) && acc2.committed > acc2.allocated {
            let k = choose|k: int| opens_next(params, s1, k, acc.allocated);
            assert(opens_next(params, s, k, acc2.allocated));
        }
        acc2
    }
}

/// What a pop has read of the committed cursor is up to date if no push was
/// under way since.
proof fn lemma_look_at_committed<T>(
    params: QueueParameters,
    memory: Memory<T>,
    events: Seq<Event<T>>,
    id: int,
) -> (k: int)
    requires
        runs(params, memory, events),
        System::idle(memory).after_all(params, events).pops.dom().contains(id),
        System::idle(memory).after_all(params, events).pops[id].state is Allocated,
    ensures
        last_turn_of_pop(events, id, k),
        System::idle(memory).after_all(params, events).pops[id].state->Allocated_committed.offset
            != params.block_size,
        no_pushes_since(params, memory, events, k) ==> {
            let s = System::idle(memory).after_all(params, events);
            let head = s.pops[id].state->Allocated_head;
            s.pops[id].state->Allocated_committed == params.cursor_of(
                s.memory.blocks[head.index as int].committed,
            )
        },
    decreases events.len(),
{
    let s = System::idle(memory).after_all(params, events);
    if events.len() == 0 {
        0
    } else {
        let past = events.drop_last();
        let last = events.len() - 1;
        let s1 = System::idle(memory).after_all(params, past);
        assert(past =~= events.take(last));
        lemma_runs_up_to(params, memory, events, last);
        let acc = lemma_interleaving(params, memory, past);
        if concerns_pop(events.last(), id) {
            assert(events.last() == Event::<T>::TurnOfPop(id));
            assert(s1.pops[id].state is Committed);
            assert(pop_agrees(params, s1.elems, acc, s1.pops[id]));
            last
        } else {
            assert(s1.pops.dom().contains(id) && s1.pops[id] == s.pops[id]);
            assert(pop_agrees(params, s1.elems, acc, s1.pops[id]));
            let k = lemma_look_at_committed(params, memory, past, id);
            lemma_last_turn_of_pop_stays(events, id, k);
            if no_pushes_since(params, memory, events, k) {
                let head = s.pops[id].state->Allocated_head;
                lemma_no_pushes_before(params, memory, events, k);
                lemma_committed_words_stay_without_pushes(
                    params,
                    s1,
                    acc,
                    events.last(),
                    head.index as int,
                );
            }
            k
        }
    }
}

/// A pop is told that the queue is busy only if a push was under way at some
/// moment since the turn before the last one of the pop.
pub proof fn lemma_busy_pop_met_a_push<T>(
    params: QueueParameters,
    memory: Memory<T>,
    events: Seq<Event<T>>,
    id: int,
)
    requires
        runs(params, memory, events),
        System::idle(memory).after_all(params, events).pops.dom().contains(id),
        System::idle(memory).after_all(params, events).pop_result(params, id) == Some(
            Err::<T, TryPopError>(TryPopError::Busy),
        ),
    ensures
        exists|k: int| #[trigger]
            last_turn_of_pop(events, id, k) && !no_pushes_since(params, memory, events, k),
{
    let n = params.num_blocks as int;
    let s = System::idle(memory).after_all(params, events);
    let k = lemma_look_at_committed(params, memory, events, id);
    if no_pushes_since(params, memory, events, k) {
        assert(events.take(events.len() as int) =~= events);
        assert(before(params, memory, events, events.len() as int).pushes.dom() == Set::<
            int,
        >::empty());
        let acc = lemma_openings(params, memory, events);
        assert(pop_agrees(params, s.elems, acc, s.pops[id]));
        let i = s.pops[id].state->Allocated_head.index as int;
        assert(block_agrees(params, s.memory.blocks[i], s.elems, acc, i));
        lemma_filled_of_last_block(params, s, acc, i);
        if acc.committed > acc.allocated {
            let opener = choose|o: int| opens_next(params, s, o, acc.allocated);
            assert(s.pushes.dom().contains(opener));
        }
        lemma_block_at(n, acc.committed, i);
        lemma_claims_read(params, s.memory.blocks[i].allocated, acc, i);
        assert(false);
    }
    assert(last_turn_of_pop(events, id, k));
}

}
