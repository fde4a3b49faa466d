//! When a pop is answered that the queue is empty.

use crate::sync::account::{
    block_agrees, blocks_in_order, committed, counted, lemma_counted_bounds, lemma_counted_full,
    lemma_counted_split, lemma_tally_in_range, lemma_version_tells, slots_in_order, tally,
    Account,
};
use crate::sync::alone::lemma_laps_in_range;
use crate::sync::error::TryPopError;
use crate::sync::interleave::{lemma_interleaving, Event, System};
use crate::sync::laps::{block_at, lemma_block_at, lemma_version_monotone, settled, version_at};
use crate::sync::memory::Memory;
use crate::sync::opening::{block_named, lemma_next_named};
use crate::sync::params::QueueParameters;
use crate::sync::pop::PopState;
use crate::sync::push::next_index;
use crate::sync::system::{pop_agrees, push_holds, standing, system_agrees};
use vstd::prelude::*;

verus! {

/// There is nothing to pop: every slot that a push has claimed was claimed by a
/// pop, or the push that has claimed the next one is still under way.
pub open spec fn nothing_to_pop<T>(s: System<T>) -> bool {
    ||| s.reserves == s.elems.len()
    ||| exists|id: int| #[trigger] push_holds(s, id, s.reserves)
}

/// A pop was overtaken: the block that it looks into was used up, emptied and
/// opened again for a later round than the one that the pop looks for. Where it
/// has looked at the reserved cursor before, the block was filled again just as
/// far as that cursor stood, so that the pop takes it for the same round.
pub open spec fn overtaken<T>(params: QueueParameters, s: System<T>, id: int) -> bool {
    match s.pops[id].state {
        PopState::Committed { head, reserved } => {
            let committed = params.cursor_of(s.memory.blocks[head.index as int].committed);
            committed.version > reserved.version && committed.offset == reserved.offset
        },
        PopState::NextCommitted { head } => params.cursor_of(
            s.memory.blocks[next_index(params, head) as int].committed,
        ).version > head.version + 1,
        _ => false,
    }
}

/// The committed cursor of a block reads as the account counts it.
pub proof fn lemma_committed_cursor<T>(params: QueueParameters, s: System<T>, acc: Account, i: int)
    requires
        params.wf(),
        params.holds_elements(),
        system_agrees(params, s, acc),
        0 <= i < params.num_blocks,
    ensures
        ({
            let n = params.num_blocks as int;
            let size = params.block_size as int;
            let block = block_at(n, acc.committed, i);
            let cursor = params.cursor_of(s.memory.blocks[i].committed);
            &&& cursor.version == version_at(n, acc.committed, i)
            &&& cursor.offset == if block < 0 {
                size
            } else {
                counted(acc.progress, block * size, block * size + size, committed())
            }
        }),
{
    assert(block_agrees(params, s.memory.blocks[i], s.elems, acc, i));
    lemma_tally_in_range(params, acc.progress, acc.committed, acc.committed, i, committed());
    params.lemma_cursor_round_trip(tally(params, acc.progress, acc.committed, i, committed()));
}

/// The reserved cursor that a pop has read in the round that is still on belongs
/// to the block that consumers are in, or to one that they have used up.
proof fn lemma_same_round(params: QueueParameters, acc: Account, i: int)
    requires
        params.wf(),
        params.holds_elements(),
        blocks_in_order(params, acc),
        slots_in_order(params, acc),
        0 <= i < params.num_blocks,
        version_at(params.num_blocks as int, acc.reserved, i) == version_at(
            params.num_blocks as int,
            acc.committed,
            i,
        ),
        block_at(params.num_blocks as int, acc.committed, i) >= 0,
    ensures
        ({
            let n = params.num_blocks as int;
            let size = params.block_size as int;
            let block = block_at(n, acc.committed, i);
            let filled = counted(acc.progress, block * size, block * size + size, committed());
            &&& block <= acc.reserved
            &&& block == acc.reserved ==> acc.reserves - block * size <= filled
            &&& block < acc.reserved ==> filled == size
            &&& block == acc.reserved ==> standing(params, acc, i).offset == acc.reserves - block
                * size
        }),
{
    let n = params.num_blocks as int;
    let size = params.block_size as int;
    let block = block_at(n, acc.committed, i);
    lemma_block_at(n, acc.committed, i);
    lemma_version_tells(n, acc.reserved, block);
    assert(block * size >= 0) by (nonlinear_arith)
        requires
            block >= 0,
            size > 0,
    ;
    lemma_laps_in_range(params, acc.committed, acc.reserves, acc.reserved, i);
    if block == acc.reserved {
        lemma_counted_split(
            acc.progress,
            block * size,
            acc.reserves,
            block * size + size,
            committed(),
        );
        lemma_counted_full(acc.progress, block * size, acc.reserves, committed());
        lemma_counted_bounds(acc.progress, acc.reserves, block * size + size, committed());
    } else {
        assert(block * size + size <= acc.reserved * size) by (nonlinear_arith)
            requires
                block + 1 <= acc.reserved,
                size > 0,
        ;
        lemma_counted_full(acc.progress, block * size, block * size + size, committed());
    }
}

/// A pop that is answered that the queue is empty, and was not overtaken.
pub proof fn lemma_empty_at<T>(params: QueueParameters, s: System<T>, acc: Account, id: int)
    requires
        params.wf(),
        params.holds_elements(),
        system_agrees(params, s, acc),
        s.pops.dom().contains(id),
        s.pop_result(params, id) == Some(Err::<T, TryPopError>(TryPopError::Empty)),
        !overtaken(params, s, id),
    ensures
        nothing_to_pop(s),
{
    let n = params.num_blocks as int;
    let size = params.block_size as int;
    let op = s.pops[id];
    assert(pop_agrees(params, s.elems, acc, op));
    match op.state {
        PopState::Committed { head, reserved } => {
            let i = head.index as int;
            let block = block_at(n, acc.committed, i);
            lemma_committed_cursor(params, s, acc, i);
            lemma_version_monotone(n, acc.reserved, acc.committed, i);
            lemma_laps_in_range(params, acc.committed, acc.reserves, acc.reserved, i);
            lemma_same_round(params, acc, i);
            assert(block == acc.reserved);
            let filled = counted(acc.progress, block * size, block * size + size, committed());
            assert(acc.reserves - block * size == filled);
            if acc.reserves < acc.progress.len() {
                if acc.progress[acc.reserves] >= committed() {
                    lemma_counted_split(
                        acc.progress,
                        block * size,
                        acc.reserves,
                        block * size + size,
                        committed(),
                    );
                    lemma_counted_full(acc.progress, block * size, acc.reserves, committed());
                    lemma_counted_split(
                        acc.progress,
                        acc.reserves,
                        acc.reserves + 1,
                        block * size + size,
                        committed(),
                    );
                    lemma_counted_full(
                        acc.progress,
                        acc.reserves,
                        acc.reserves + 1,
                        committed(),
                    );
                    lemma_counted_bounds(
                        acc.progress,
                        acc.reserves + 1,
                        block * size + size,
                        committed(),
                    );
                }
                let holder = choose|id: int| push_holds(s, id, acc.reserves);
                assert(push_holds(s, holder, s.reserves));
            }
        },
        PopState::NextCommitted { head } => {
            let l = block_named(params, head);
            let j = next_index(params, head) as int;
            lemma_next_named(params, head);
            lemma_committed_cursor(params, s, acc, j);
            lemma_version_tells(n, acc.committed, l + 1);
            assert(acc.committed <= l);
            assert(acc.allocated * size + size <= l * size + size) by (nonlinear_arith)
                requires
                    acc.allocated <= l,
                    size > 0,
            ;
        },
        _ => {},
    }
}

/// A pop is answered that the queue is empty only if, at the moment of its last
/// access, there is nothing to pop: each slot that a push has filled was claimed
/// by a pop already, or lies after one whose push is still under way. The one
/// exception is a pop that was overtaken.
pub proof fn lemma_empty_means_nothing_to_pop<T>(
    params: QueueParameters,
    memory: Memory<T>,
    events: Seq<Event<T>>,
    id: int,
)
    requires
        params.wf(),
        params.holds_elements(),
        settled(params, memory, 0, 0),
        System::idle(memory).allows_all(params, events),
        System::idle(memory).after_all(params, events).pops.dom().contains(id),
        System::idle(memory).after_all(params, events).pop_result(params, id) == Some(
            Err::<T, TryPopError>(TryPopError::Empty),
        ),
        !overtaken(params, System::idle(memory).after_all(params, events), id),
    ensures
        nothing_to_pop(System::idle(memory).after_all(params, events)),
        System::idle(memory).after_all(params, events).pushes.dom() == Set::<int>::empty()
            ==> System::idle(memory).after_all(params, events).reserves == System::idle(
            memory,
        ).after_all(params, events).elems.len(),
{
    let acc = lemma_interleaving(params, memory, events);
    lemma_empty_at(params, System::idle(memory).after_all(params, events), acc, id);
}

}
