//! When a push is refused, and pushes on a queue on which nothing else is at work.

use crate::sync::account::{
    block_agrees, consumed, lemma_counted_full, lemma_counted_none, lemma_counted_split,
    lemma_tally_in_range, reserved, taken, Account,
};
use crate::sync::alone::lemma_laps_in_range;
use crate::sync::arrival::{before, lemma_runs_up_to, runs};
use crate::sync::error::TryPushError;
use crate::sync::heads::{heads_agree, lemma_heads, lemma_heads_after, lemma_heads_at_rest};
use crate::sync::interleave::{lemma_refused_only_near_full, Event, PushOp, System};
use crate::sync::laps::{block_at, lemma_block_at, lemma_block_is_latest, settled};
use crate::sync::memory::Memory;
use crate::sync::opening::{block_named, lemma_next_named};
use crate::sync::params::{lemma_capacity_bounds, QueueParameters};
use crate::sync::push::{next_block_in_use, next_index, PushState};
use crate::sync::starts::{starts, unclaimed};
use crate::sync::system::{lemma_replaced_is_consumed, pop_holds, push_agrees, system_agrees};
use vstd::prelude::*;
use vstd::set_lib::lemma_len_subset;

verus! {

/// A slot was not given back yet that lies more than the lower bound of the
/// capacity behind the last claimed one.
pub open spec fn near_full<T>(params: QueueParameters, s: System<T>) -> bool {
    exists|p: int|
        0 <= p && p + params.capacity.lower < s.elems.len() && !#[trigger] s.returned.contains(p)
}

/// The event has to do with the push `id`.
pub open spec fn concerns_push<T>(event: Event<T>, id: int) -> bool {
    match event {
        Event::StartPush(k, _) => k == id,
        Event::TurnOfPush(k) => k == id,
        _ => false,
    }
}

/// The event with number `k` is the last turn that a push has had, and the queue
/// was nearly full at that moment.
pub open spec fn found_near_full<T>(
    params: QueueParameters,
    memory: Memory<T>,
    events: Seq<Event<T>>,
    id: int,
    k: int,
) -> bool {
    &&& 0 <= k < events.len()
    &&& events[k] == Event::<T>::TurnOfPush(id)
    &&& forall|j: int| k < j < events.len() ==> !concerns_push(#[trigger] events[j], id)
    &&& near_full(params, before(params, memory, events, k))
}

/// A push that is about to be refused has found the queue nearly full.
proof fn lemma_about_to_be_refused<T>(
    params: QueueParameters,
    memory: Memory<T>,
    events: Seq<Event<T>>,
    id: int,
)
    requires
        runs(params, memory, events),
        System::idle(memory).after_all(params, events).pushes.dom().contains(id),
        System::idle(memory).after_all(params, events).pushes[id].state is Reserved,
    ensures
        exists|k: int| found_near_full(params, memory, events, id, k),
    decreases events.len(),
{
    let s = System::idle(memory).after_all(params, events);
    if events.len() > 0 {
        let past = events.drop_last();
        let last = events.len() - 1;
        let s1 = System::idle(memory).after_all(params, past);
        assert(past =~= events.take(last));
        lemma_runs_up_to(params, memory, events, last);
        if concerns_push(events.last(), id) {
            assert(events.last() == Event::<T>::TurnOfPush(id));
            assert(s1.pushes[id].state is Consumed);
            lemma_refused_only_near_full(params, memory, past, id);
            assert(found_near_full(params, memory, events, id, last));
        } else {
            assert(s1.pushes.dom().contains(id) && s1.pushes[id] == s.pushes[id]);
            lemma_about_to_be_refused(params, memory, past, id);
            let k = choose|k: int| found_near_full(params, memory, past, id, k);
            assert(past.take(k) =~= events.take(k));
            assert(past[k] == events[k]);
            assert forall|j: int| k < j < events.len() implies !concerns_push(
                #[trigger] events[j],
                id,
            ) by {
                if j < last {
                    assert(past[j] == events[j]);
                }
            }
            assert(found_near_full(params, memory, events, id, k));
        }
    }
}

/// However the operations take turns, a push is refused only if the queue was
/// nearly full when the push had the turn before its last one.
pub proof fn lemma_refused_was_near_full<T>(
    params: QueueParameters,
    memory: Memory<T>,
    events: Seq<Event<T>>,
    id: int,
)
    requires
        runs(params, memory, events),
        System::idle(memory).after_all(params, events).pushes.dom().contains(id),
        System::idle(memory).after_all(params, events).push_result(params, id) matches Some(Err(_)),
    ensures
        exists|k: int| found_near_full(params, memory, events, id, k),
{
    lemma_about_to_be_refused(params, memory, events, id);
}

/// Only pushes start and have turns.
pub open spec fn only_pushes<T>(events: Seq<Event<T>>) -> bool {
    forall|k: int|
        0 <= k < events.len() ==> #[trigger] events[k] is StartPush || events[k] is TurnOfPush
}

/// The number of the first slot for which there is no room before further
/// elements are popped: blocks are given back as a whole.
pub open spec fn limit<T>(params: QueueParameters, s: System<T>) -> int {
    (s.reserves / (params.block_size as int) + params.num_blocks) * params.block_size
}

/// What a push has read is up to date.
spec fn looked_well<T>(params: QueueParameters, s: System<T>, op: PushOp<T>) -> bool {
    op.state matches PushState::Reserved { head, consumed, .. } ==> {
        &&& consumed == params.cursor_of(s.memory.blocks[next_index(params, head) as int].consumed)
        &&& next_block_in_use(params, head, consumed)
    }
}

/// What holds while only pushes are at work.
spec fn filling<T>(params: QueueParameters, s: System<T>, budget: int) -> bool {
    &&& s.pops.dom() == Set::<int>::empty()
    &&& s.pushes.dom().finite()
    &&& s.elems.len() + unclaimed(s).len() <= budget
    &&& forall|id: int|
        s.pushes.dom().contains(id) ==> looked_well(params, s, #[trigger] s.pushes[id])
}

/// Pushes do not touch the consumed words.
pub proof fn lemma_consumed_words_stay<T>(
    params: QueueParameters,
    s: System<T>,
    acc: Account,
    id: int,
    i: int,
)
    requires
        params.wf(),
        params.holds_elements(),
        system_agrees(params, s, acc),
        s.pushes.dom().contains(id),
        0 <= i < params.num_blocks,
    ensures
        s.after_push(params, id).memory.blocks[i].consumed == s.memory.blocks[i].consumed,
{
    assert(push_agrees(params, s.elems, acc, s.pushes[id]));
}

/// Every claimed slot, and every push that has none yet, goes back to a push
/// that was started.
proof fn lemma_unclaimed_after_push<T>(params: QueueParameters, s: System<T>, id: int)
    requires
        s.pushes.dom().contains(id),
        s.pushes.dom().finite(),
    ensures
        s.after_push(params, id).pushes.dom().finite(),
        s.after_push(params, id).elems.len() + unclaimed(s.after_push(params, id)).len()
            <= s.elems.len() + unclaimed(s).len(),
{
    let s2 = s.after_push(params, id);
    let op = s.pushes[id];
    let reply = op.access.performed(params, s.memory).1;
    if op.claims(params, reply) {
        assert(unclaimed(s2) =~= unclaimed(s).remove(id));
        assert(unclaimed(s).contains(id));
    } else {
        assert forall|k: int| unclaimed(s2).contains(k) implies unclaimed(s).contains(k) by {}
        lemma_len_subset(unclaimed(s2), unclaimed(s));
    }
}

/// One event leaves the pushes up to date.
proof fn lemma_filling_after<T>(
    params: QueueParameters,
    s: System<T>,
    acc: Account,
    event: Event<T>,
    budget: int,
) -> (acc2: Account)
    requires
        params.wf(),
        params.holds_elements(),
        system_agrees(params, s, acc),
        heads_agree(params, s, acc),
        filling(params, s, budget),
        s.allows(params, event),
        event is StartPush || event is TurnOfPush,
    ensures
        system_agrees(params, s.after(params, event), acc2),
        heads_agree(params, s.after(params, event), acc2),
        filling(
            params,
            s.after(params, event),
            budget + (if event is StartPush {
                1int
            } else {
                0int
            }),
        ),
        s.after(params, event).reserves == s.reserves,
{
    let s2 = s.after(params, event);
    let acc2 = lemma_heads_after(params, s, acc, event);
    match event {
        Event::StartPush(id, _) => {
            assert(unclaimed(s2) =~= unclaimed(s).insert(id));
            assert forall|k: int| s2.pushes.dom().contains(k) implies looked_well(
                params,
                s2,
                #[trigger] s2.pushes[k],
            ) by {
                if k != id {
                    assert(s2.pushes[k] == s.pushes[k]);
                    assert(looked_well(params, s, s.pushes[k]));
                }
            }
        },
        Event::TurnOfPush(id) => {
            lemma_unclaimed_after_push(params, s, id);
            assert forall|k: int| s2.pushes.dom().contains(k) implies looked_well(
                params,
                s2,
                #[trigger] s2.pushes[k],
            ) by {
                assert(push_agrees(params, s.elems, acc, s.pushes[k]));
                if k != id {
                    assert(s2.pushes[k] == s.pushes[k]);
                    assert(looked_well(params, s, s.pushes[k]));
                }
                if let PushState::Reserved { head, .. } = s2.pushes[k].state {
                    lemma_next_named(params, head);
                    lemma_consumed_words_stay(
                        params,
                        s,
                        acc,
                        id,
                        next_index(params, head) as int,
                    );
                }
            }
        },
        _ => {},
    }
    acc2
}

/// The pushes stay up to date through any number of events.
proof fn lemma_filling<T>(
    params: QueueParameters,
    s: System<T>,
    acc: Account,
    events: Seq<Event<T>>,
) -> (acc2: Account)
    requires
        params.wf(),
        params.holds_elements(),
        system_agrees(params, s, acc),
        heads_agree(params, s, acc),
        s.pushes.dom() == Set::<int>::empty(),
        s.pops.dom() == Set::<int>::empty(),
        only_pushes(events),
        s.allows_all(params, events),
    ensures
        system_agrees(params, s.after_all(params, events), acc2),
        heads_agree(params, s.after_all(params, events), acc2),
        filling(params, s.after_all(params, events), s.elems.len() + starts(events)),
        s.after_all(params, events).reserves == s.reserves,
    decreases events.len(),
{
    if events.len() == 0 {
        assert(unclaimed(s) =~= Set::empty());
        assert forall|k: int| s.pushes.dom().contains(k) implies looked_well(
            params,
            s,
            #[trigger] s.pushes[k],
        ) by {
            assert(Set::<int>::empty().contains(k));
        }
        acc
    } else {
        let s1 = s.after_all(params, events.drop_last());
        assert(only_pushes(events.drop_last()));
        let acc1 = lemma_filling(params, s, acc, events.drop_last());
        assert(events.last() is StartPush || events.last() is TurnOfPush);
        lemma_filling_after(
            params,
            s1,
            acc1,
            events.last(),
            s.elems.len() + starts(events.drop_last()),
        )
    }
}

/// Where no pop is under way, every slot that a pop has claimed is consumed.
proof fn lemma_all_consumed<T>(params: QueueParameters, s: System<T>, acc: Account)
    requires
        system_agrees(params, s, acc),
        s.pops.dom() == Set::<int>::empty(),
    ensures
        forall|p: int| 0 <= p < acc.reserves ==> #[trigger] acc.progress[p] == consumed(),
{
    assert forall|p: int| 0 <= p < acc.reserves implies #[trigger] acc.progress[p]
        == consumed() by {
        if acc.progress[p] != consumed() {
            assert(reserved() <= acc.progress[p] <= taken());
            let k = choose|k: int| pop_holds(s, k, p);
            assert(s.pops.dom().contains(k));
        }
    }
}

/// Where no pop is under way, the reserved and the consumed cursors are alike.
pub proof fn lemma_no_consumer_at_work<T>(params: QueueParameters, s: System<T>, acc: Account, i: int)
    requires
        params.wf(),
        params.holds_elements(),
        system_agrees(params, s, acc),
        heads_agree(params, s, acc),
        s.pops.dom() == Set::<int>::empty(),
        0 <= i < params.num_blocks,
    ensures
        params.cursor_of(s.memory.blocks[i].reserved) == params.cursor_of(
            s.memory.blocks[i].consumed,
        ),
{
    let n = params.num_blocks as int;
    let size = params.block_size as int;
    lemma_heads_at_rest(params, s, acc);
    lemma_all_consumed(params, s, acc);
    assert(block_agrees(params, s.memory.blocks[i], s.elems, acc, i));
    lemma_tally_in_range(params, acc.progress, acc.committed, acc.consumed, i, consumed());
    lemma_laps_in_range(params, acc.committed, acc.reserves, acc.reserved, i);
    lemma_block_at(n, acc.reserved, i);
    lemma_block_is_latest(n, acc.reserved, acc.reserved);
    let block = block_at(n, acc.reserved, i);
    if block >= 0 {
        let start = block * size;
        assert(start >= 0) by (nonlinear_arith)
            requires
                start == block * size,
                block >= 0,
                size > 0,
        ;
        if block < acc.reserved {
            assert(start + size <= acc.reserved * size) by (nonlinear_arith)
                requires
                    start == block * size,
                    block + 1 <= acc.reserved,
                    size > 0,
            ;
            lemma_counted_full(acc.progress, start, start + size, consumed());
        } else {
            lemma_counted_split(acc.progress, start, acc.reserves, start + size, consumed());
            lemma_counted_full(acc.progress, start, acc.reserves, consumed());
            lemma_counted_none(acc.progress, acc.reserves, start + size, consumed());
        }
    }
}

/// A push that is refused while only pushes are at work: all room is taken.
proof fn lemma_refused_at_limit<T>(params: QueueParameters, s: System<T>, acc: Account, id: int)
    requires
        params.wf(),
        params.holds_elements(),
        system_agrees(params, s, acc),
        heads_agree(params, s, acc),
        s.pops.dom() == Set::<int>::empty(),
        s.pushes.dom().contains(id),
        s.pushes[id].state is Reserved,
        looked_well(params, s, s.pushes[id]),
    ensures
        s.push_result(params, id) matches Some(Err(TryPushError::Full(_))),
        s.elems.len() == limit(params, s),
{
    let n = params.num_blocks as int;
    let size = params.block_size as int;
    let op = s.pushes[id];
    assert(push_agrees(params, s.elems, acc, op));
    let head = op.state->Reserved_head;
    let l = block_named(params, head);
    let j = next_index(params, head) as int;
    lemma_next_named(params, head);
    lemma_no_consumer_at_work(params, s, acc, j);
    lemma_all_consumed(params, s, acc);
    assert(block_agrees(params, s.memory.blocks[j], s.elems, acc, j));
    lemma_tally_in_range(params, acc.progress, acc.committed, acc.consumed, j, consumed());
    let r = acc.reserves / size;
    vstd::arithmetic::div_mod::lemma_fundamental_div_mod(acc.reserves, size);
    assert(r * size == size * r) by (nonlinear_arith);
    if l + 2 - n <= r {
        assert((l + 2 - n) * size <= r * size) by (nonlinear_arith)
            requires
                l + 2 - n <= r,
                size > 0,
        ;
        lemma_replaced_is_consumed(params, acc, head);
        assert(false);
    }
    assert((r + n) * size <= l * size + size) by (nonlinear_arith)
        requires
            r + n <= l + 1,
            size > 0,
    ;
    assert(acc.committed + 1 - n <= r) by {
        if acc.committed + 1 - n > r {
            assert((acc.committed + 1 - n) * size >= r * size + size) by (nonlinear_arith)
                requires
                    acc.committed + 1 - n >= r + 1,
                    size > 0,
            ;
        }
    }
    assert(acc.allocated * size + size <= (r + n) * size) by (nonlinear_arith)
        requires
            acc.allocated + 1 <= r + n,
            size > 0,
    ;
}

/// Whatever operations a queue has seen, if none of them is under way any more,
/// and only pushes follow, then a push that is refused finds the queue full,
/// and the slots up to the limit are all claimed. However the pushes take turns,
/// none of them is told that the queue is busy.
pub proof fn lemma_pushes_alone<T>(
    params: QueueParameters,
    memory: Memory<T>,
    past: Seq<Event<T>>,
    events: Seq<Event<T>>,
    id: int,
)
    requires
        params.wf(),
        params.holds_elements(),
        settled(params, memory, 0, 0),
        System::idle(memory).allows_all(params, past),
        System::idle(memory).after_all(params, past).pushes.dom() == Set::<int>::empty(),
        System::idle(memory).after_all(params, past).pops.dom() == Set::<int>::empty(),
        only_pushes(events),
        System::idle(memory).after_all(params, past).allows_all(params, events),
        System::idle(memory).after_all(params, past).after_all(params, events).pushes.dom().contains(
            id,
        ),
    ensures
        ({
            let s = System::idle(memory).after_all(params, past).after_all(params, events);
            match s.push_result(params, id) {
                Some(Ok(_)) => true,
                Some(Err(TryPushError::Full(_))) => s.elems.len() == limit(params, s),
                Some(Err(TryPushError::Busy(_))) => false,
                None => true,
            }
        }),
{
    let rest = System::idle(memory).after_all(params, past);
    let s = rest.after_all(params, events);
    let acc = lemma_heads(params, memory, past);
    let acc2 = lemma_filling(params, rest, acc, events);
    assert(looked_well(params, s, s.pushes[id]));
    if s.pushes[id].state is Reserved {
        lemma_refused_at_limit(params, s, acc2, id);
    }
}

/// As long as only pushes are started on a queue at rest, and no more than there
/// is room for, a push that ends has succeeded, however the pushes take turns.
pub proof fn lemma_pushes_succeed_while_there_is_room<T>(
    params: QueueParameters,
    memory: Memory<T>,
    past: Seq<Event<T>>,
    events: Seq<Event<T>>,
    id: int,
)
    requires
        params.wf(),
        params.holds_elements(),
        settled(params, memory, 0, 0),
        System::idle(memory).allows_all(params, past),
        System::idle(memory).after_all(params, past).pushes.dom() == Set::<int>::empty(),
        System::idle(memory).after_all(params, past).pops.dom() == Set::<int>::empty(),
        only_pushes(events),
        System::idle(memory).after_all(params, past).allows_all(params, events),
        System::idle(memory).after_all(params, past).elems.len() + starts(events) <= limit(
            params,
            System::idle(memory).after_all(params, past),
        ),
        System::idle(memory).after_all(params, past).after_all(params, events).pushes.dom().contains(
            id,
        ),
    ensures
        System::idle(memory).after_all(params, past).after_all(params, events).push_result(
            params,
            id,
        ) matches Some(outcome) ==> outcome is Ok,
{
    let rest = System::idle(memory).after_all(params, past);
    let s = rest.after_all(params, events);
    let acc = lemma_heads(params, memory, past);
    let acc2 = lemma_filling(params, rest, acc, events);
    lemma_pushes_alone(params, memory, past, events, id);
    if s.push_result(params, id) matches Some(Err(_)) {
        assert(unclaimed(s).contains(id));
        assert(unclaimed(s).len() > 0) by {
            vstd::set::axiom_set_remove_len(unclaimed(s), id);
        }
    }
}

/// The room in a queue: with the elements that it holds it makes up at least the
/// lower bound of the capacity, and at most the upper bound.
pub proof fn lemma_limit_is_the_capacity<T>(params: QueueParameters, s: System<T>)
    requires
        params.wf(),
        params.holds_elements(),
        s.reserves >= 0,
    ensures
        params.capacity.lower < limit(params, s) - s.reserves <= params.capacity.upper,
{
    let n = params.num_blocks as int;
    let size = params.block_size as int;
    let r = s.reserves / size;
    lemma_capacity_bounds(params);
    vstd::arithmetic::div_mod::lemma_fundamental_div_mod(s.reserves, size);
    vstd::arithmetic::div_mod::lemma_mod_bound(s.reserves, size);
    assert((r + n) * size == size * r + n * size) by (nonlinear_arith);
}

}
