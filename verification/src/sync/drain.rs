//! Pops on a queue on which nothing else is at work.
//!
//! As long as no more pops were started than the queue holds elements, each of
//! them finds one.

use crate::sync::account::{
    block_agrees, committed, lemma_counted_beyond, lemma_counted_full, lemma_counted_split,
    lemma_version_tells, Account,
};
use crate::sync::alone::lemma_laps_in_range;
use crate::sync::empty::{lemma_committed_cursor, lemma_empty_at, overtaken};
use crate::sync::error::TryPopError;
use crate::sync::heads::{
    heads_agree, lemma_head_kept, lemma_heads, lemma_heads_after, lemma_heads_at_rest,
};
use crate::sync::interleave::{Event, PopOp, System};
use crate::sync::laps::{
    block_at, lemma_block_at, lemma_block_is_latest, lemma_split, lemma_version_monotone, settled,
    version_at,
};
use crate::sync::memory::Memory;
use crate::sync::opening::{block_named, lemma_next_named};
use crate::sync::params::QueueParameters;
use crate::sync::pop::PopState;
use crate::sync::push::next_index;
use crate::sync::slots::lemma_claims_read;
use crate::sync::system::{lemma_within, pop_agrees, push_holds, standing, system_agrees};
use vstd::prelude::*;
use vstd::set_lib::lemma_len_subset;

verus! {

/// Only pops start and have turns.
pub open spec fn only_pops<T>(events: Seq<Event<T>>) -> bool {
    forall|k: int|
        0 <= k < events.len() ==> #[trigger] events[k] is StartPop || events[k] is TurnOfPop
}

/// How many pops were started.
pub open spec fn pop_starts<T>(events: Seq<Event<T>>) -> int
    decreases events.len(),
{
    if events.len() == 0 {
        0
    } else {
        pop_starts(events.drop_last()) + (if events.last() is StartPop {
            1int
        } else {
            0int
        })
    }
}

/// The pops under way that have not claimed a slot.
pub open spec fn searching<T>(s: System<T>) -> Set<int> {
    s.pops.dom().filter(|id: int| s.pops[id].entry() is None)
}

/// What a pop has read is up to date.
spec fn reads_well<T>(
    params: QueueParameters,
    s: System<T>,
    acc: Account,
    op: PopOp<T>,
    start: int,
) -> bool {
    let n = params.num_blocks as int;
    &&& op.head() matches Some(head) ==> block_named(params, head) >= start
    &&& match op.state {
        PopState::Committed { head, reserved } => reserved.version == version_at(
            n,
            acc.committed,
            head.index as int,
        ),
        PopState::Allocated { head, reserved, committed } => {
            &&& reserved.version == version_at(n, acc.committed, head.index as int)
            &&& committed == params.cursor_of(s.memory.blocks[head.index as int].committed)
            &&& committed.offset != reserved.offset
            &&& committed.offset != params.block_size
        },
        _ => true,
    }
}

/// What holds while only pops are at work.
spec fn draining<T>(
    params: QueueParameters,
    s: System<T>,
    acc: Account,
    start: int,
    budget: int,
) -> bool {
    &&& s.pushes.dom() == Set::<int>::empty()
    &&& acc.committed <= start + params.num_blocks
    &&& start <= acc.consumer
    &&& s.pops.dom().finite()
    &&& s.reserves + searching(s).len() <= budget
    &&& forall|id: int|
        s.pops.dom().contains(id) ==> reads_well(params, s, acc, #[trigger] s.pops[id], start)
}

/// Pops do not touch the committed words.
pub proof fn lemma_committed_words_stay<T>(
    params: QueueParameters,
    s: System<T>,
    acc: Account,
    id: int,
    i: int,
)
    requires
        params.wf(),
        params.holds_elements(),
        system_agrees(params, s, acc),
        s.pops.dom().contains(id),
        0 <= i < params.num_blocks,
    ensures
        s.after_pop(params, id).memory.blocks[i].committed == s.memory.blocks[i].committed,
{
    assert(pop_agrees(params, s.elems, acc, s.pops[id]));
}

/// What a pop has read is up to date after its turn.
proof fn lemma_reads_well<T>(
    params: QueueParameters,
    s: System<T>,
    acc: Account,
    acc2: Account,
    id: int,
    start: int,
)
    requires
        params.wf(),
        params.holds_elements(),
        system_agrees(params, s, acc),
        acc2.committed == acc.committed,
        start <= acc.consumer,
        s.pops.dom().contains(id),
        s.after_pop(params, id).pops.dom().contains(id),
        reads_well(params, s, acc, s.pops[id], start),
    ensures
        reads_well(
            params,
            s.after_pop(params, id),
            acc2,
            s.after_pop(params, id).pops[id],
            start,
        ),
{
    let op = s.pops[id];
    lemma_head_kept(params, s, acc, id);
    assert(pop_agrees(params, s.elems, acc, op));
    match op.state {
        PopState::Reserved { head } => {
            let i = head.index as int;
            assert(block_agrees(params, s.memory.blocks[i], s.elems, acc, i));
            lemma_laps_in_range(params, acc.committed, acc.reserves, acc.reserved, i);
            if standing(params, acc, i).offset < params.block_size {
                lemma_within(params, acc, i);
                lemma_block_is_latest(params.num_blocks as int, acc.reserved, acc.reserved);
                lemma_block_is_latest(params.num_blocks as int, acc.committed, acc.reserved);
            }
        },
        PopState::Committed { head, .. } => {
            lemma_committed_words_stay(params, s, acc, id, head.index as int);
        },
        _ => {},
    }
}

/// A pop is not overtaken.
proof fn lemma_not_overtaken<T>(
    params: QueueParameters,
    s: System<T>,
    acc: Account,
    id: int,
    start: int,
)
    requires
        params.wf(),
        params.holds_elements(),
        system_agrees(params, s, acc),
        acc.committed <= start + params.num_blocks,
        s.pops.dom().contains(id),
        reads_well(params, s, acc, s.pops[id], start),
    ensures
        !overtaken(params, s, id),
{
    let n = params.num_blocks as int;
    assert(pop_agrees(params, s.elems, acc, s.pops[id]));
    match s.pops[id].state {
        PopState::Committed { head, .. } => {
            lemma_committed_cursor(params, s, acc, head.index as int);
        },
        PopState::NextCommitted { head } => {
            lemma_next_named(params, head);
            lemma_committed_cursor(params, s, acc, next_index(params, head) as int);
            lemma_version_tells(n, acc.committed, block_named(params, head) + 1);
        },
        _ => {},
    }
}

/// The committed cursor of a block that is not full, where no push is under way,
/// counts the slots that pushes have claimed in it.
pub proof fn lemma_filled_of_last_block<T>(
    params: QueueParameters,
    s: System<T>,
    acc: Account,
    i: int,
)
    requires
        params.wf(),
        params.holds_elements(),
        system_agrees(params, s, acc),
        s.pushes.dom() == Set::<int>::empty(),
        0 <= i < params.num_blocks,
        params.cursor_of(s.memory.blocks[i].committed).offset != params.block_size,
    ensures
        ({
            let n = params.num_blocks as int;
            let size = params.block_size as int;
            let block = block_at(n, acc.committed, i);
            let cursor = params.cursor_of(s.memory.blocks[i].committed);
            &&& cursor.version == version_at(n, acc.committed, i)
            &&& acc.allocated <= block <= acc.committed
            &&& acc.progress.len() < block * size + size
            &&& cursor.offset == if acc.progress.len() <= block * size {
                0
            } else {
                acc.progress.len() - block * size
            }
        }),
{
    let n = params.num_blocks as int;
    let size = params.block_size as int;
    let block = block_at(n, acc.committed, i);
    let len = acc.progress.len() as int;
    lemma_committed_cursor(params, s, acc, i);
    lemma_block_at(n, acc.committed, i);
    assert(block >= 0);
    let start = block * size;
    assert(start >= 0) by (nonlinear_arith)
        requires
            start == block * size,
            block >= 0,
            size > 0,
    ;
    assert forall|p: int| 0 <= p < len implies #[trigger] acc.progress[p] >= committed() by {
        if acc.progress[p] < committed() {
            let k = choose|k: int| push_holds(s, k, p);
            assert(s.pushes.dom().contains(k));
        }
    }
    if len >= start + size {
        lemma_counted_full(acc.progress, start, start + size, committed());
        assert(false);
    }
    if len > start {
        lemma_counted_split(acc.progress, start, len, start + size, committed());
        lemma_counted_full(acc.progress, start, len, committed());
        lemma_counted_beyond(acc.progress, len, start + size, committed());
    } else {
        lemma_counted_beyond(acc.progress, start, start + size, committed());
    }
    if block < acc.allocated {
        assert(start + size <= acc.allocated * size) by (nonlinear_arith)
            requires
                start == block * size,
                block + 1 <= acc.allocated,
                size > 0,
        ;
    }
}

/// A pop does not find a producer at work.
proof fn lemma_not_busy<T>(params: QueueParameters, s: System<T>, acc: Account, id: int, start: int)
    requires
        params.wf(),
        params.holds_elements(),
        system_agrees(params, s, acc),
        s.pushes.dom() == Set::<int>::empty(),
        s.pops.dom().contains(id),
        reads_well(params, s, acc, s.pops[id], start),
    ensures
        s.pop_result(params, id) != Some(Err::<T, TryPopError>(TryPopError::Busy)),
{
    let n = params.num_blocks as int;
    let size = params.block_size as int;
    let op = s.pops[id];
    assert(pop_agrees(params, s.elems, acc, op));
    if let PopState::Allocated { head, reserved, committed } = op.state {
        let i = head.index as int;
        let block = block_at(n, acc.committed, i);
        assert(block_agrees(params, s.memory.blocks[i], s.elems, acc, i));
        lemma_filled_of_last_block(params, s, acc, i);
        lemma_laps_in_range(params, acc.committed, acc.reserves, acc.reserved, i);
        lemma_version_monotone(n, acc.reserved, acc.committed, i);
        // the block lies where the reserved cursor was read
        lemma_block_at(n, acc.committed, i);
        lemma_split(block, n);
        lemma_version_tells(n, acc.reserved, block);
        assert(block == acc.allocated) by {
            if block > acc.allocated {
                assert(acc.progress.len() == block * size) by {
                    assert((acc.allocated + 1) * size == acc.allocated * size + size)
                        by (nonlinear_arith);
                }
                assert(committed.offset == 0);
                assert(acc.reserved >= block);
                assert(acc.reserved == block);
                lemma_block_is_latest(n, acc.reserved, acc.reserved);
                assert(standing(params, acc, i).offset >= reserved.offset);
                assert(false);
            }
        }
        lemma_block_is_latest(n, acc.allocated, acc.allocated);
        lemma_claims_read(params, s.memory.blocks[i].allocated, acc, i);
    }
}

/// Every slot that pops have claimed, and every pop that has none yet, goes back
/// to a pop that was started.
proof fn lemma_searching_after_pop<T>(params: QueueParameters, s: System<T>, id: int)
    requires
        s.pops.dom().contains(id),
        s.pops.dom().finite(),
    ensures
        s.after_pop(params, id).pops.dom().finite(),
        s.after_pop(params, id).reserves + searching(s.after_pop(params, id)).len() <= s.reserves
            + searching(s).len(),
{
    let s2 = s.after_pop(params, id);
    let op = s.pops[id];
    let reply = op.access.performed(params, s.memory).1;
    if op.claims(reply) {
        assert(searching(s2) =~= searching(s).remove(id));
        assert(searching(s).contains(id));
    } else {
        assert forall|k: int| searching(s2).contains(k) implies searching(s).contains(k) by {}
        lemma_len_subset(searching(s2), searching(s));
    }
}

/// One event leaves the pops up to date.
proof fn lemma_draining_after<T>(
    params: QueueParameters,
    s: System<T>,
    acc: Account,
    event: Event<T>,
    start: int,
    budget: int,
) -> (acc2: Account)
    requires
        params.wf(),
        params.holds_elements(),
        system_agrees(params, s, acc),
        heads_agree(params, s, acc),
        draining(params, s, acc, start, budget),
        s.allows(params, event),
        event is StartPop || event is TurnOfPop,
    ensures
        system_agrees(params, s.after(params, event), acc2),
        heads_agree(params, s.after(params, event), acc2),
        draining(
            params,
            s.after(params, event),
            acc2,
            start,
            budget + (if event is StartPop {
                1int
            } else {
                0int
            }),
        ),
        s.after(params, event).elems == s.elems,
{
    let s2 = s.after(params, event);
    let acc2 = lemma_heads_after(params, s, acc, event);
    match event {
        Event::StartPop(id) => {
            assert(searching(s2) =~= searching(s).insert(id));
            assert forall|k: int| s2.pops.dom().contains(k) implies reads_well(
                params,
                s2,
                acc2,
                #[trigger] s2.pops[k],
                start,
            ) by {
                if k != id {
                    assert(s2.pops[k] == s.pops[k]);
                    assert(reads_well(params, s, acc, s.pops[k], start));
                }
            }
        },
        Event::TurnOfPop(id) => {
            lemma_searching_after_pop(params, s, id);
            assert forall|k: int| s2.pops.dom().contains(k) implies reads_well(
                params,
                s2,
                acc2,
                #[trigger] s2.pops[k],
                start,
            ) by {
                if k != id {
                    assert(s2.pops[k] == s.pops[k]);
                    assert(pop_agrees(params, s.elems, acc, s.pops[k]));
                    assert(reads_well(params, s, acc, s.pops[k], start));
                    if let PopState::Allocated { head, .. } = s.pops[k].state {
                        lemma_committed_words_stay(params, s, acc, id, head.index as int);
                    }
                } else {
                    lemma_reads_well(params, s, acc, acc2, id, start);
                }
            }
        },
        _ => {},
    }
    acc2
}

/// The pops stay up to date through any number of events.
proof fn lemma_draining<T>(
    params: QueueParameters,
    s: System<T>,
    acc: Account,
    events: Seq<Event<T>>,
) -> (acc2: Account)
    requires
        params.wf(),
        params.holds_elements(),
        system_agrees(params, s, acc),
        heads_agree(params, s, acc),
        s.pushes.dom() == Set::<int>::empty(),
        s.pops.dom() == Set::<int>::empty(),
        only_pops(events),
        s.allows_all(params, events),
    ensures
        system_agrees(params, s.after_all(params, events), acc2),
        heads_agree(params, s.after_all(params, events), acc2),
        draining(
            params,
            s.after_all(params, events),
            acc2,
            acc.consumer,
            s.reserves + pop_starts(events),
        ),
        s.after_all(params, events).elems == s.elems,
    decreases events.len(),
{
    if events.len() == 0 {
        let n = params.num_blocks as int;
        let size = params.block_size as int;
        lemma_heads_at_rest(params, s, acc);
        assert(searching(s) =~= Set::empty());
        assert(acc.committed <= acc.consumer + n) by {
            if acc.committed >= acc.reserved + n + 1 {
                assert((acc.committed + 1 - n) * size >= acc.reserved * size + 2 * size)
                    by (nonlinear_arith)
                    requires
                        acc.committed + 1 - n >= acc.reserved + 2,
                        size > 0,
                ;
            }
        }
        assert forall|k: int| s.pops.dom().contains(k) implies reads_well(
            params,
            s,
            acc,
            #[trigger] s.pops[k],
            acc.consumer,
        ) by {
            assert(Set::<int>::empty().contains(k));
        }
        acc
    } else {
        let before = s.after_all(params, events.drop_last());
        assert(only_pops(events.drop_last()));
        let acc1 = lemma_draining(params, s, acc, events.drop_last());
        assert(events.last() is StartPop || events.last() is TurnOfPop);
        lemma_draining_after(
            params,
            before,
            acc1,
            events.last(),
            acc.consumer,
            s.reserves + pop_starts(events.drop_last()),
        )
    }
}

/// Whatever operations a queue has seen, if none of them is under way any more,
/// and only pops follow, then a pop that is told that the queue is empty comes
/// after all elements were claimed. However the pops take turns, none of them is
/// told that the queue is busy.
pub proof fn lemma_pops_alone<T>(
    params: QueueParameters,
    memory: Memory<T>,
    past: Seq<Event<T>>,
    events: Seq<Event<T>>,
    id: int,
)
    requires
        params.wf(),
        params.holds_elements(),
        settled(params, memory, 0, 0),
        System::idle(memory).allows_all(params, past),
        System::idle(memory).after_all(params, past).pushes.dom() == Set::<int>::empty(),
        System::idle(memory).after_all(params, past).pops.dom() == Set::<int>::empty(),
        only_pops(events),
        System::idle(memory).after_all(params, past).allows_all(params, events),
        System::idle(memory).after_all(params, past).after_all(params, events).pops.dom().contains(
            id,
        ),
    ensures
        ({
            let s = System::idle(memory).after_all(params, past).after_all(params, events);
            match s.pop_result(params, id) {
                Some(Ok(_)) => true,
                Some(Err(TryPopError::Empty)) => s.reserves == s.elems.len(),
                Some(Err(TryPopError::Busy)) => false,
                None => true,
            }
        }),
{
    let rest = System::idle(memory).after_all(params, past);
    let s = rest.after_all(params, events);
    let acc = lemma_heads(params, memory, past);
    let acc2 = lemma_draining(params, rest, acc, events);
    assert(reads_well(params, s, acc2, s.pops[id], acc.consumer));
    lemma_not_overtaken(params, s, acc2, id, acc.consumer);
    lemma_not_busy(params, s, acc2, id, acc.consumer);
    if s.pop_result(params, id) == Some(Err::<T, TryPopError>(TryPopError::Empty)) {
        lemma_empty_at(params, s, acc2, id);
        if s.reserves != s.elems.len() {
            let k = choose|k: int| push_holds(s, k, s.reserves);
            assert(s.pushes.dom().contains(k));
        }
    }
}

/// Whatever operations a queue has seen, if none of them is under way any more,
/// the elements that it holds can all be popped: as long as only pops are
/// started, and no more than there are elements, a pop that ends has succeeded,
/// however the pops take turns.
pub proof fn lemma_pops_succeed_while_there_are_elements<T>(
    params: QueueParameters,
    memory: Memory<T>,
    past: Seq<Event<T>>,
    events: Seq<Event<T>>,
    id: int,
)
    requires
        params.wf(),
        params.holds_elements(),
        settled(params, memory, 0, 0),
        System::idle(memory).allows_all(params, past),
        System::idle(memory).after_all(params, past).pushes.dom() == Set::<int>::empty(),
        System::idle(memory).after_all(params, past).pops.dom() == Set::<int>::empty(),
        only_pops(events),
        System::idle(memory).after_all(params, past).allows_all(params, events),
        pop_starts(events) <= System::idle(memory).after_all(params, past).elems.len()
            - System::idle(memory).after_all(params, past).reserves,
        System::idle(memory).after_all(params, past).after_all(params, events).pops.dom().contains(
            id,
        ),
    ensures
        System::idle(memory).after_all(params, past).after_all(params, events).pop_result(
            params,
            id,
        ) matches Some(outcome) ==> outcome is Ok,
{
    let rest = System::idle(memory).after_all(params, past);
    let s = rest.after_all(params, events);
    let acc = lemma_heads(params, memory, past);
    let _ = lemma_draining(params, rest, acc, events);
    lemma_pops_alone(params, memory, past, events, id);
    if s.pop_result(params, id) matches Some(Err(_)) {
        assert(searching(s).contains(id));
        assert(searching(s).len() > 0) by {
            vstd::set::axiom_set_remove_len(searching(s), id);
        }
    }
}

}
