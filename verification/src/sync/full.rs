//! When a push is told that the queue is full rather than busy.

use crate::sync::account::{
    block_agrees, consumed, counted, lemma_counted_all, lemma_counted_bounds, lemma_counted_none,
    lemma_counted_split, lemma_number, lemma_number_before, lemma_tally_in_range, Account,
};
use crate::sync::alone::lemma_laps_in_range;
use crate::sync::arrival::runs;
use crate::sync::cursor::UnpackedCursor;
use crate::sync::error::TryPushError;
use crate::sync::interleave::{Event, PushOp, System};
use crate::sync::laps::{
    block_at, lemma_block_at, lemma_block_is_latest, lemma_split, lemma_version_monotone,
    version_at,
};
use crate::sync::memory::Memory;
use crate::sync::opening::lemma_next_named;
use crate::sync::params::QueueParameters;
use crate::sync::push::{next_index, PushState};
use crate::sync::slots::index_of;
use crate::sync::system::{
    lemma_pop_turn, lemma_push_turn, lemma_start, lemma_start_turn, not_past, pop_agrees, pop_holds,
    push_agrees, system_agrees,
};
use vstd::prelude::*;

verus! {

/// The consumed cursor of the block at index `i`.
pub open spec fn consumed_cursor<T>(
    params: QueueParameters,
    s: System<T>,
    i: int,
) -> UnpackedCursor {
    params.cursor_of(s.memory.blocks[i].consumed)
}

/// The reserved cursor of the block at index `i`.
pub open spec fn reserved_cursor<T>(
    params: QueueParameters,
    s: System<T>,
    i: int,
) -> UnpackedCursor {
    params.cursor_of(s.memory.blocks[i].reserved)
}

/// Counts do not fall where no slot falls back.
proof fn lemma_counted_kept(a: Seq<int>, b: Seq<int>, from: int, to: int, level: int)
    requires
        0 <= from,
        a.len() <= b.len(),
        forall|q: int|
            0 <= q < a.len() && #[trigger] a[q] >= level ==> b[q] >= level,
    ensures
        counted(a, from, to, level) <= counted(b, from, to, level),
    decreases to - from,
{
    if from < to {
        lemma_counted_kept(a, b, from, to - 1, level);
        if to - 1 < a.len() {
            assert(a[to - 1] >= level ==> b[to - 1] >= level);
        }
    }
}

/// The consumed cursor of a block as the account gives it.
proof fn lemma_consumed_cursor<T>(params: QueueParameters, s: System<T>, acc: Account, i: int)
    requires
        params.wf(),
        params.holds_elements(),
        system_agrees(params, s, acc),
        0 <= i < params.num_blocks,
    ensures
        ({
            let n = params.num_blocks as int;
            let size = params.block_size as int;
            let block = block_at(n, acc.consumed, i);
            let cursor = consumed_cursor(params, s, i);
            &&& cursor.version == version_at(n, acc.consumed, i)
            &&& cursor.offset == if block < 0 {
                size
            } else {
                counted(acc.progress, block * size, block * size + size, consumed())
            }
        }),
{
    assert(block_agrees(params, s.memory.blocks[i], s.elems, acc, i));
    lemma_tally_in_range(params, acc.progress, acc.committed, acc.consumed, i, consumed());
}

/// A consumed cursor does not go back when a pop has its turn.
proof fn lemma_consumed_goes_on<T>(
    params: QueueParameters,
    s: System<T>,
    acc: Account,
    s2: System<T>,
    acc2: Account,
    i: int,
)
    requires
        params.wf(),
        params.holds_elements(),
        system_agrees(params, s, acc),
        system_agrees(params, s2, acc2),
        acc.consumed <= acc2.consumed,
        s.elems.len() <= s2.elems.len(),
        s.returned.subset_of(s2.returned),
        0 <= i < params.num_blocks,
    ensures
        not_past(consumed_cursor(params, s, i), consumed_cursor(params, s2, i)),
{
    let n = params.num_blocks as int;
    let size = params.block_size as int;
    lemma_consumed_cursor(params, s, acc, i);
    lemma_consumed_cursor(params, s2, acc2, i);
    lemma_version_monotone(n, acc.consumed, acc2.consumed, i);
    if version_at(n, acc.consumed, i) == version_at(n, acc2.consumed, i) {
        let block = block_at(n, acc.consumed, i);
        lemma_block_at(n, acc.consumed, i);
        lemma_block_at(n, acc2.consumed, i);
        lemma_split(acc.consumed, n);
        lemma_split(acc2.consumed, n);
        assert(block == block_at(n, acc2.consumed, i));
        if block >= 0 {
            assert(block * size >= 0) by (nonlinear_arith)
                requires
                    block >= 0,
                    size > 0,
            ;
            assert forall|q: int|
                0 <= q < acc.progress.len() && #[trigger] acc.progress[q]
                    >= consumed() implies acc2.progress[q] >= consumed() by {
                assert(s.returned.contains(q));
                assert(s2.returned.contains(q));
            }
            lemma_counted_kept(
                acc.progress,
                acc2.progress,
                block * size,
                block * size + size,
                consumed(),
            );
        }
    }
}

/// A push that is about to be refused has not read a consumed cursor that lies
/// past the present one.
spec fn reads_no_future<T>(params: QueueParameters, s: System<T>, op: PushOp<T>) -> bool {
    op.state matches PushState::Reserved { head, consumed, .. } ==> not_past(
        consumed,
        consumed_cursor(params, s, next_index(params, head) as int),
    )
}

/// None of the pushes has read a consumed cursor that lies past the present one.
proof fn lemma_no_future<T>(
    params: QueueParameters,
    memory: Memory<T>,
    events: Seq<Event<T>>,
) -> (acc: Account)
    requires
        runs(params, memory, events),
    ensures
        system_agrees(params, System::idle(memory).after_all(params, events), acc),
        forall|id: int|
            System::idle(memory).after_all(params, events).pushes.dom().contains(id)
                ==> reads_no_future(
                params,
                System::idle(memory).after_all(params, events),
                #[trigger] System::idle(memory).after_all(params, events).pushes[id],
            ),
    decreases events.len(),
{
    let s = System::idle(memory).after_all(params, events);
    if events.len() == 0 {
        lemma_start(params, memory)
    } else {
        let s1 = System::idle(memory).after_all(params, events.drop_last());
        let acc = lemma_no_future(params, memory, events.drop_last());
        let acc2 = match events.last() {
            Event::StartPush(_, _) => {
                lemma_start_turn(params, s1, acc, events.last());
                acc
            },
            Event::StartPop(_) => {
                lemma_start_turn(params, s1, acc, events.last());
                acc
            },
            Event::TurnOfPush(id) => lemma_push_turn(params, s1, acc, id),
            Event::TurnOfPop(id) => lemma_pop_turn(params, s1, acc, id),
        };
        assert forall|k: int| s.pushes.dom().contains(k) implies reads_no_future(
            params,
            s,
            #[trigger] s.pushes[k],
        ) by {
            assert(push_agrees(params, s.elems, acc2, s.pushes[k]));
            if let PushState::Reserved { head, .. } = s.pushes[k].state {
                let j = next_index(params, head) as int;
                lemma_next_named(params, head);
                lemma_consumed_goes_on(params, s1, acc, s, acc2, j);
                if s1.pushes.dom().contains(k) {
                    assert(reads_no_future(params, s1, s1.pushes[k]));
                    assert(push_agrees(params, s1.elems, acc, s1.pushes[k]));
                }
            }
        }
        acc2
    }
}

/// Where the reserved cursor of a block has not come past a consumed cursor that
/// was read before, no pop holds a slot of the block.
proof fn lemma_none_at_work<T>(
    params: QueueParameters,
    s: System<T>,
    acc: Account,
    j: int,
    read: UnpackedCursor,
    id: int,
    p: int,
)
    requires
        params.wf(),
        params.holds_elements(),
        system_agrees(params, s, acc),
        0 <= j < params.num_blocks,
        not_past(read, consumed_cursor(params, s, j)),
        reserved_cursor(params, s, j) == read,
        pop_holds(s, id, p),
    ensures
        index_of(params, p) != j,
{
    let n = params.num_blocks as int;
    let size = params.block_size as int;
    assert(pop_agrees(params, s.elems, acc, s.pops[id]));
    if index_of(params, p) == j {
        let b = p / size;
        lemma_number(size, p);
        lemma_split(b, n);
        lemma_consumed_cursor(params, s, acc, j);
        assert(block_agrees(params, s.memory.blocks[j], s.elems, acc, j));
        lemma_laps_in_range(params, acc.committed, acc.reserves, acc.reserved, j);
        // the block lies behind none of the later rounds
        lemma_number_before(size, p, acc.committed + 1 - n);
        assert(acc.committed < b + n);
        lemma_number_before(size, p, acc.reserved + 1);
        assert((acc.reserved + 1) * size == acc.reserved * size + size) by (nonlinear_arith);
        assert(b <= acc.reserved);
        lemma_block_is_latest(n, acc.reserved, b);
        lemma_block_is_latest(n, acc.consumed, b);
        let start = b * size;
        let end = if b == acc.reserved {
            acc.reserves
        } else {
            start + size
        };
        if b < acc.reserved {
            assert(start + size <= acc.reserved * size) by (nonlinear_arith)
                requires
                    start == b * size,
                    b + 1 <= acc.reserved,
                    size > 0,
            ;
            if j == acc.reserved % n {
                lemma_block_is_latest(n, acc.reserved, acc.reserved);
            }
        }
        lemma_counted_split(acc.progress, start, end, start + size, consumed());
        lemma_counted_none(acc.progress, end, start + size, consumed());
        lemma_counted_bounds(acc.progress, start, end, consumed());
        lemma_counted_all(acc.progress, start, end, consumed());
        assert(acc.progress[p] >= consumed());
    }
}

/// Consumers have come around to the block that a push would open next since the
/// push has looked at it, and have come just as far in it again, so that the push
/// takes it for the same round.
pub open spec fn came_around<T>(params: QueueParameters, s: System<T>, id: int) -> bool {
    s.pushes[id].state matches PushState::Reserved { head, consumed, .. } && {
        let now = reserved_cursor(params, s, next_index(params, head) as int);
        now.version != consumed.version && now.offset == consumed.offset
    }
}

/// A push is told that the queue is full, rather than busy, only if no pop is at
/// work in the block that the push would open next. This is so unless consumers
/// have come around to just the same place in that block.
pub proof fn lemma_full_means_no_pop_at_work<T>(
    params: QueueParameters,
    memory: Memory<T>,
    events: Seq<Event<T>>,
    id: int,
    other: int,
    p: int,
)
    requires
        runs(params, memory, events),
        System::idle(memory).after_all(params, events).pushes.dom().contains(id),
        System::idle(memory).after_all(params, events).pushes[id].state is Reserved,
        System::idle(memory).after_all(params, events).push_result(params, id) matches Some(
            Err(TryPushError::Full(_)),
        ),
        !came_around(params, System::idle(memory).after_all(params, events), id),
        pop_holds(System::idle(memory).after_all(params, events), other, p),
    ensures
        ({
            let s = System::idle(memory).after_all(params, events);
            let head = s.pushes[id].state->Reserved_head;
            index_of(params, p) != next_index(params, head)
        }),
{
    let s = System::idle(memory).after_all(params, events);
    let acc = lemma_no_future(params, memory, events);
    assert(reads_no_future(params, s, s.pushes[id]));
    assert(push_agrees(params, s.elems, acc, s.pushes[id]));
    let head = s.pushes[id].state->Reserved_head;
    let j = next_index(params, head) as int;
    lemma_next_named(params, head);
    lemma_none_at_work(params, s, acc, j, s.pushes[id].state->Reserved_consumed, other, p);
}

}
