//! What a push and a pop do where no other operation interferes.

use crate::sync::cursor::{next_word, UnpackedCursor, UnpackedHead};
use crate::sync::error::{TryPopError, TryPushError};
use crate::sync::laps::{
    block_at, block_settled, elements, ends_in, lap_cursor, lap_head, last_block, lemma_block_at,
    lemma_block_is_latest, lemma_last_block, lemma_next_block, lemma_quotient, lemma_split,
    lemma_version_monotone, no_room, offset_at, position_at, settled, settled_at, slot_at,
    version_at, version_of,
};
use crate::sync::memory::{Access, End, Field, Memory};
use crate::sync::params::QueueParameters;
use crate::sync::pop::{one_further, PopState, PopStep};
use crate::sync::push::{
    head_ok, next_block_in_use, next_index, next_start, EntryDescriptor, PushState, PushStep,
};
use vstd::prelude::*;

verus! {

/// The memory and the outcome of a push that performs its accesses one after
/// the other, if it ends within `steps` accesses.
pub open spec fn push_alone<T>(
    params: QueueParameters,
    memory: Memory<T>,
    state: PushState<T>,
    access: Access<T>,
    steps: nat,
) -> Option<(Memory<T>, Result<(), TryPushError<T>>)>
    decreases steps,
{
    if steps == 0 {
        None
    } else {
        let (after, reply) = access.performed(params, memory);
        match state.resumed(params, reply) {
            PushStep::Done(outcome) => Some((after, outcome)),
            PushStep::Next(next, sent) => push_alone(params, after, next, sent, (steps - 1) as nat),
        }
    }
}

/// The memory and the outcome of a pop that performs its accesses one after
/// the other, if it ends within `steps` accesses.
pub open spec fn pop_alone<T>(
    params: QueueParameters,
    memory: Memory<T>,
    state: PopState<T>,
    access: Access<T>,
    steps: nat,
) -> Option<(Memory<T>, Result<T, TryPopError>)>
    decreases steps,
{
    if steps == 0 {
        None
    } else {
        let (after, reply) = access.performed(params, memory);
        match state.resumed(params, reply) {
            PopStep::Done(outcome) => Some((after, outcome)),
            PopStep::Next(next, sent) => pop_alone(params, after, next, sent, (steps - 1) as nat),
        }
    }
}

/// The accesses that suffice for an operation that nobody interferes with.
pub open spec fn enough_steps() -> nat {
    20
}

/// The head and the cursors of a settled queue are in range, and come back from
/// their words.
pub proof fn lemma_laps_in_range(
    params: QueueParameters,
    bound: int,
    count: int,
    last: int,
    i: int,
)
    requires
        params.wf(),
        params.holds_elements(),
        0 <= last <= bound,
        ends_in(params.block_size as int, count, last),
        version_of(params.num_blocks as int, bound) < params.versions(),
        0 <= i < params.num_blocks,
    ensures
        ({
            let n = params.num_blocks as int;
            let size = params.block_size as int;
            let head = lap_head(params, last);
            let cursor = lap_cursor(params, count, last, i);
            &&& head_ok(params, head)
            &&& head.version == last / n
            &&& head.index == last % n
            &&& params.head_of(params.head_word(head)) == head
            &&& params.cursor_in_range(cursor)
            &&& cursor.version == version_at(n, last, i)
            &&& cursor.offset == offset_at(n, size, count, last, i)
            &&& cursor.offset <= size
            &&& params.cursor_of(params.cursor_word(cursor)) == cursor
        }),
{
    let n = params.num_blocks as int;
    params.lemma_layout();
    lemma_version_monotone(n, last, bound, i);
    lemma_split(last, n);
    params.lemma_head_round_trip(lap_head(params, last));
    params.lemma_cursor_round_trip(lap_cursor(params, count, last, i));
}

/// The memory after a slot of a block was claimed, filled and committed.
pub open spec fn with_pushed<T>(memory: Memory<T>, index: int, offset: int, elem: T) -> Memory<T> {
    let b = memory.blocks[index];
    memory.with_block(
        index,
        b.with_word(Field::Allocated, next_word(b.allocated)).with_slot(
            offset,
            Some(elem),
        ).with_word(Field::Committed, next_word(b.committed)),
    )
}

/// The memory after a slot of a block was claimed, emptied and given back.
pub open spec fn with_popped<T>(
    params: QueueParameters,
    memory: Memory<T>,
    index: int,
    reserved: UnpackedCursor,
) -> Memory<T> {
    let b = memory.blocks[index];
    memory.with_block(
        index,
        b.with_word(Field::Reserved, params.cursor_word(one_further(reserved))).with_slot(
            reserved.offset as int,
            None,
        ).with_word(Field::Consumed, next_word(b.consumed)),
    )
}

/// The memory after producers have moved on to the next block.
pub open spec fn with_opened<T>(
    params: QueueParameters,
    memory: Memory<T>,
    head: UnpackedHead,
) -> Memory<T> {
    let next = next_index(params, head) as int;
    let word = params.cursor_word(next_start(head));
    memory.with_block(
        next,
        memory.blocks[next].with_word(Field::Committed, word).with_word(Field::Allocated, word),
    ).with_head(End::Producer, params.head_word(head.incremented(params, 1)))
}

/// The memory after consumers have moved on to the next block.
pub open spec fn with_entered<T>(
    params: QueueParameters,
    memory: Memory<T>,
    head: UnpackedHead,
) -> Memory<T> {
    let next = next_index(params, head) as int;
    let word = params.cursor_word(next_start(head));
    memory.with_block(
        next,
        memory.blocks[next].with_word(Field::Consumed, word).with_word(Field::Reserved, word),
    ).with_head(End::Consumer, params.head_word(head.incremented(params, 1)))
}

/// A push from its start.
pub open spec fn push_from_start<T>(
    params: QueueParameters,
    memory: Memory<T>,
    elem: T,
    steps: nat,
) -> Option<(Memory<T>, Result<(), TryPushError<T>>)> {
    push_alone(params, memory, PushState::Head { elem }, Access::LoadHead(End::Producer), steps)
}

/// A pop from its start.
pub open spec fn pop_from_start<T>(
    params: QueueParameters,
    memory: Memory<T>,
    steps: nat,
) -> Option<(Memory<T>, Result<T, TryPopError>)> {
    pop_alone(params, memory, PopState::Head, Access::LoadHead(End::Consumer), steps)
}

/// A push whose head names a block with room fills the next slot of that block.
proof fn lemma_push_with_room<T>(
    params: QueueParameters,
    memory: Memory<T>,
    elem: T,
    head: UnpackedHead,
    cursor: UnpackedCursor,
    steps: nat,
)
    requires
        params.wf(),
        params.holds_elements(),
        memory.shaped(params),
        head_ok(params, head),
        params.head_of(memory.producer) == head,
        params.cursor_of(memory.blocks[head.index as int].allocated) == cursor,
        cursor.offset < params.block_size,
        steps >= 5,
    ensures
        push_from_start(params, memory, elem, steps) == Some(
            (
                with_pushed(memory, head.index as int, cursor.offset as int, elem),
                Ok::<(), TryPushError<T>>(()),
            ),
        ),
{
    let k = head.index as int;
    let b0 = memory.blocks[k];
    let entry = EntryDescriptor { block: head.index, offset: cursor.offset };
    let m1 = memory.with_block(k, b0.with_word(Field::Allocated, next_word(b0.allocated)));
    let m2 = m1.with_block(k, m1.blocks[k].with_slot(cursor.offset as int, Some(elem)));
    let m3 = m2.with_block(
        k,
        m2.blocks[k].with_word(Field::Committed, next_word(m2.blocks[k].committed)),
    );
    assert(m3 =~= with_pushed(memory, k, cursor.offset as int, elem));
    reveal_with_fuel(push_alone, 6);
    assert(push_alone(
        params,
        m1,
        PushState::Write { entry },
        Access::Write(entry.block, entry.offset, elem),
        (steps - 3) as nat,
    ) == push_alone(
        params,
        m2,
        PushState::Commit { entry },
        Access::Increment(entry.block, Field::Committed),
        (steps - 4) as nat,
    ));
}

/// A push whose head names a full block, and which finds the next block in use,
/// changes nothing.
proof fn lemma_push_refused<T>(
    params: QueueParameters,
    memory: Memory<T>,
    elem: T,
    head: UnpackedHead,
    consumed: UnpackedCursor,
    steps: nat,
)
    requires
        params.wf(),
        params.holds_elements(),
        memory.shaped(params),
        head_ok(params, head),
        params.head_of(memory.producer) == head,
        params.cursor_of(memory.blocks[head.index as int].allocated).offset >= params.block_size,
        params.cursor_of(memory.blocks[next_index(params, head) as int].consumed) == consumed,
        next_block_in_use(params, head, consumed),
        steps >= 4,
    ensures
        push_from_start(params, memory, elem, steps) == Some(
            (
                memory,
                if params.cursor_of(
                    memory.blocks[next_index(params, head) as int].reserved,
                ).offset == consumed.offset {
                    Err::<(), TryPushError<T>>(TryPushError::Full(elem))
                } else {
                    Err(TryPushError::Busy(elem))
                },
            ),
        ),
{
    reveal_with_fuel(push_alone, 5);
}

/// A push whose head names a full block, and which finds the next block free,
/// opens that block and starts again.
proof fn lemma_push_opens<T>(
    params: QueueParameters,
    memory: Memory<T>,
    elem: T,
    head: UnpackedHead,
    consumed: UnpackedCursor,
    steps: nat,
)
    requires
        params.wf(),
        params.holds_elements(),
        memory.shaped(params),
        head_ok(params, head),
        params.head_of(memory.producer) == head,
        params.cursor_of(memory.blocks[head.index as int].allocated).offset >= params.block_size,
        params.cursor_of(memory.blocks[next_index(params, head) as int].consumed) == consumed,
        !next_block_in_use(params, head, consumed),
        params.cursor_word(next_start(head)) > memory.blocks[next_index(
            params,
            head,
        ) as int].committed,
        params.cursor_word(next_start(head)) > memory.blocks[next_index(
            params,
            head,
        ) as int].allocated,
        params.head_word(head.incremented(params, 1)) > memory.producer,
        steps >= 6,
    ensures
        push_from_start(params, memory, elem, steps) == push_from_start(
            params,
            with_opened(params, memory, head),
            elem,
            (steps - 6) as nat,
        ),
{
    let next = next_index(params, head);
    let k = next as int;
    let b = memory.blocks[k];
    let word = params.cursor_word(next_start(head));
    let m1 = memory.with_block(k, b.with_word(Field::Committed, word));
    let m2 = m1.with_block(k, m1.blocks[k].with_word(Field::Allocated, word));
    let m3 = m2.with_head(End::Producer, params.head_word(head.incremented(params, 1)));
    assert(m3 =~= with_opened(params, memory, head));
    reveal_with_fuel(push_alone, 7);
    assert(push_alone(
        params,
        memory,
        PushState::Consumed { elem, head },
        Access::Load(next, Field::Consumed),
        (steps - 2) as nat,
    ) == push_alone(
        params,
        memory,
        PushState::RaiseCommitted { elem, head },
        Access::Raise(next, Field::Committed, next_start(head)),
        (steps - 3) as nat,
    ));
    assert(push_alone(
        params,
        m1,
        PushState::RaiseAllocated { elem, head },
        Access::Raise(next, Field::Allocated, next_start(head)),
        (steps - 4) as nat,
    ) == push_alone(
        params,
        m2,
        PushState::RaiseHead { elem, head },
        Access::RaiseHead(End::Producer, head.incremented(params, 1)),
        (steps - 5) as nat,
    ));
}

/// A pop whose head names a block that holds an element takes the first one.
proof fn lemma_pop_takes<T>(
    params: QueueParameters,
    memory: Memory<T>,
    head: UnpackedHead,
    reserved: UnpackedCursor,
    committed: UnpackedCursor,
    steps: nat,
)
    requires
        params.wf(),
        params.holds_elements(),
        memory.shaped(params),
        head_ok(params, head),
        params.head_of(memory.consumer) == head,
        params.cursor_of(memory.blocks[head.index as int].reserved) == reserved,
        params.cursor_word(reserved) == memory.blocks[head.index as int].reserved,
        params.cursor_of(memory.blocks[head.index as int].committed) == committed,
        params.cursor_of(memory.blocks[head.index as int].allocated) == committed,
        reserved.offset < params.block_size,
        params.cursor_in_range(reserved),
        committed.offset != reserved.offset,
        memory.blocks[head.index as int].data[reserved.offset as int] is Some,
        steps >= 7,
    ensures
        pop_from_start(params, memory, steps) == Some(
            (
                with_popped(params, memory, head.index as int, reserved),
                Ok::<T, TryPopError>(
                    memory.blocks[head.index as int].data[reserved.offset as int]->0,
                ),
            ),
        ),
{
    let k = head.index as int;
    let b0 = memory.blocks[k];
    let elem = b0.data[reserved.offset as int]->0;
    let entry = EntryDescriptor { block: head.index, offset: reserved.offset };
    params.lemma_layout();
    params.lemma_cursor_successor(reserved);
    let m1 = memory.with_block(
        k,
        b0.with_word(Field::Reserved, params.cursor_word(one_further(reserved))),
    );
    let m2 = m1.with_block(k, m1.blocks[k].with_slot(reserved.offset as int, None));
    let m3 = m2.with_block(
        k,
        m2.blocks[k].with_word(Field::Consumed, next_word(m2.blocks[k].consumed)),
    );
    assert(m3 =~= with_popped(params, memory, k, reserved));
    reveal_with_fuel(pop_alone, 8);
    let left = if committed.offset != params.block_size {
        (steps - 4) as nat
    } else {
        (steps - 3) as nat
    };
    assert(pop_from_start(params, memory, steps) == pop_alone(
        params,
        memory,
        PopState::RaiseReserved { head, reserved },
        Access::Raise(head.index, Field::Reserved, one_further(reserved)),
        left,
    ));
    assert(pop_alone(
        params,
        memory,
        PopState::RaiseReserved { head, reserved },
        Access::Raise(head.index, Field::Reserved, one_further(reserved)),
        left,
    ) == pop_alone(
        params,
        m1,
        PopState::Take { entry },
        Access::Take(entry.block, entry.offset),
        (left - 1) as nat,
    ));
    assert(pop_alone(
        params,
        m1,
        PopState::Take { entry },
        Access::Take(entry.block, entry.offset),
        (left - 1) as nat,
    ) == pop_alone(
        params,
        m2,
        PopState::Consume { entry, elem },
        Access::Increment(entry.block, Field::Consumed),
        (left - 2) as nat,
    ));
}

/// A pop whose head names a block without an element, or a consumed block
/// after which no block was opened, changes nothing.
proof fn lemma_pop_refused<T>(
    params: QueueParameters,
    memory: Memory<T>,
    head: UnpackedHead,
    reserved: UnpackedCursor,
    steps: nat,
)
    requires
        params.wf(),
        params.holds_elements(),
        memory.shaped(params),
        head_ok(params, head),
        params.head_of(memory.consumer) == head,
        params.cursor_of(memory.blocks[head.index as int].reserved) == reserved,
        if reserved.offset < params.block_size {
            params.cursor_of(memory.blocks[head.index as int].committed).offset == reserved.offset
        } else {
            params.cursor_of(memory.blocks[next_index(params, head) as int].committed).version
                != head.version + 1
        },
        steps >= 3,
    ensures
        pop_from_start(params, memory, steps) == Some(
            (memory, Err::<T, TryPopError>(TryPopError::Empty)),
        ),
{
    reveal_with_fuel(pop_alone, 4);
}

/// A pop whose head names a consumed block, after which a block was opened,
/// moves on to that block and starts again.
proof fn lemma_pop_enters<T>(
    params: QueueParameters,
    memory: Memory<T>,
    head: UnpackedHead,
    steps: nat,
)
    requires
        params.wf(),
        params.holds_elements(),
        memory.shaped(params),
        head_ok(params, head),
        params.head_of(memory.consumer) == head,
        params.cursor_of(memory.blocks[head.index as int].reserved).offset >= params.block_size,
        params.cursor_of(memory.blocks[next_index(params, head) as int].committed).version
            == head.version + 1,
        params.cursor_word(next_start(head)) > memory.blocks[next_index(
            params,
            head,
        ) as int].consumed,
        params.cursor_word(next_start(head)) > memory.blocks[next_index(
            params,
            head,
        ) as int].reserved,
        params.head_word(head.incremented(params, 1)) > memory.consumer,
        steps >= 6,
    ensures
        pop_from_start(params, memory, steps) == pop_from_start(
            params,
            with_entered(params, memory, head),
            (steps - 6) as nat,
        ),
{
    let next = next_index(params, head);
    let k = next as int;
    let b = memory.blocks[k];
    let word = params.cursor_word(next_start(head));
    let m1 = memory.with_block(k, b.with_word(Field::Consumed, word));
    let m2 = m1.with_block(k, m1.blocks[k].with_word(Field::Reserved, word));
    let m3 = m2.with_head(End::Consumer, params.head_word(head.incremented(params, 1)));
    assert(m3 =~= with_entered(params, memory, head));
    reveal_with_fuel(pop_alone, 7);
    assert(pop_alone(
        params,
        memory,
        PopState::NextCommitted { head },
        Access::Load(next, Field::Committed),
        (steps - 2) as nat,
    ) == pop_alone(
        params,
        memory,
        PopState::RaiseConsumed { head },
        Access::Raise(next, Field::Consumed, next_start(head)),
        (steps - 3) as nat,
    ));
    assert(pop_alone(
        params,
        m1,
        PopState::RaiseNextReserved { head },
        Access::Raise(next, Field::Reserved, next_start(head)),
        (steps - 4) as nat,
    ) == pop_alone(
        params,
        m2,
        PopState::RaiseHead { head },
        Access::RaiseHead(End::Consumer, head.incremented(params, 1)),
        (steps - 5) as nat,
    ));
}

/// The memory with one more element in the last block is settled.
proof fn lemma_pushed_is_settled<T>(
    params: QueueParameters,
    memory: Memory<T>,
    pushed: int,
    plast: int,
    popped: int,
    clast: int,
    elem: T,
)
    requires
        params.wf(),
        params.holds_elements(),
        settled_at(params, memory, pushed, plast, popped, clast),
        pushed - plast * params.block_size < params.block_size,
    ensures
        ({
            let k = plast % params.num_blocks as int;
            let after = with_pushed(memory, k, pushed - plast * params.block_size, elem);
            &&& settled_at(params, after, pushed + 1, plast, popped, clast)
            &&& elements(params, after, pushed + 1, popped) == elements(
                params,
                memory,
                pushed,
                popped,
            ).push(elem)
        }),
{
    let n = params.num_blocks as int;
    let size = params.block_size as int;
    let k = plast % n;
    let o = pushed - plast * size;
    let after = with_pushed(memory, k, o, elem);
    params.lemma_layout();
    lemma_split(plast, n);
    lemma_block_is_latest(n, plast, plast);
    assert forall|i: int| 0 <= i < n implies block_settled(
        params,
        #[trigger] after.blocks[i],
        pushed + 1,
        plast,
        popped,
        clast,
        i,
    ) by {
        let b = memory.blocks[i];
        assert(block_settled(params, b, pushed, plast, popped, clast, i));
        lemma_laps_in_range(params, plast, pushed, plast, i);
        lemma_laps_in_range(params, plast, pushed + 1, plast, i);
        lemma_block_at(n, plast, i);
        if i == k {
            params.lemma_cursor_successor(lap_cursor(params, pushed, plast, i));
            assert forall|x: int| 0 <= x < size implies ((#[trigger] after.blocks[i].data[x]) is Some
                <==> popped <= position_at(params, plast, i, x) < pushed + 1) by {
                if x != o {
                    assert(b.data[x] is Some <==> popped <= position_at(params, plast, i, x)
                        < pushed);
                }
            }
        } else {
            assert(after.blocks[i] == b);
            let l = block_at(n, plast, i);
            assert forall|x: int| 0 <= x < size implies ((#[trigger] after.blocks[i].data[x]) is Some
                <==> popped <= position_at(params, plast, i, x) < pushed + 1) by {
                assert(b.data[x] is Some <==> popped <= position_at(params, plast, i, x) < pushed);
                // another block does not reach the end of the last one
                assert(l * size + x < plast * size) by (nonlinear_arith)
                    requires
                        l <= plast - 1,
                        0 <= x < size,
                ;
            }
        }
    }
    // positions are where they were
    let before_elements = elements(params, memory, pushed, popped);
    let after_elements = elements(params, after, pushed + 1, popped);
    assert forall|j: int| 0 <= j < after_elements.len() implies after_elements[j]
        == before_elements.push(elem)[j] by {
        let p = popped + j;
        lemma_split(p, size);
        lemma_split(p / size, n);
        if p == pushed {
            lemma_quotient(p, size, plast, o);
        } else if (p / size) % n == k && p % size == o {
            // the slot was empty before
            lemma_live_position(params, memory, pushed, plast, popped, clast, p);
            assert(false);
        }
    }
    assert(after_elements =~= before_elements.push(elem));
}

/// An element that was pushed and not popped lies in the slot of its position,
/// and the slot stands for no other position.
proof fn lemma_live_position<T>(
    params: QueueParameters,
    memory: Memory<T>,
    pushed: int,
    plast: int,
    popped: int,
    clast: int,
    p: int,
)
    requires
        params.wf(),
        params.holds_elements(),
        settled_at(params, memory, pushed, plast, popped, clast),
        popped <= p < pushed,
    ensures
        0 <= p % (params.block_size as int) < params.block_size,
        0 <= (p / params.block_size as int) % (params.num_blocks as int) < params.num_blocks,
        position_at(
            params,
            plast,
            (p / params.block_size as int) % params.num_blocks as int,
            p % params.block_size as int,
        ) == p,
        slot_at(params, memory, p) is Some,
        p / params.block_size as int <= plast,
{
    let n = params.num_blocks as int;
    let size = params.block_size as int;
    let l = p / size;
    lemma_split(p, size);
    lemma_split(popped, size);
    assert(popped / size <= l) by (nonlinear_arith)
        requires
            popped == (popped / size) * size + popped % size,
            p == l * size + p % size,
            0 <= popped % size,
            p % size < size,
            popped <= p,
            size > 0,
    ;
    assert(l <= plast) by (nonlinear_arith)
        requires
            p == l * size + p % size,
            0 <= p % size,
            p < plast * size + size,
            size > 0,
    ;
    lemma_block_is_latest(n, plast, l);
    let i = l % n;
    assert(block_settled(params, memory.blocks[i], pushed, plast, popped, clast, i));
    assert(memory.blocks[i].data[p % size] is Some);
}

/// The words that open or enter the next block lie above those of the block before.
proof fn lemma_next_words(
    params: QueueParameters,
    bound: int,
    count: int,
    last: int,
)
    requires
        params.wf(),
        params.holds_elements(),
        0 <= last,
        last + 1 <= bound,
        ends_in(params.block_size as int, count, last),
        version_of(params.num_blocks as int, bound) < params.versions(),
    ensures
        ({
            let n = params.num_blocks as int;
            let size = params.block_size as int;
            let head = lap_head(params, last);
            let next = next_index(params, head) as int;
            &&& next == (last + 1) % n
            &&& 0 <= next < n
            &&& head.incremented(params, 1) == lap_head(params, last + 1)
            &&& head_ok(params, lap_head(params, last + 1))
            &&& params.head_word(lap_head(params, last + 1)) > params.head_word(head)
            &&& head.version + 1 == version_at(n, last + 1, next)
            &&& version_at(n, last, next) == head.version
            &&& params.cursor_in_range(next_start(head))
            &&& params.cursor_word(next_start(head)) > params.cursor_word(
                lap_cursor(params, count, last, next),
            )
            &&& next_start(head) == lap_cursor(params, (last + 1) * size, last + 1, next)
        }),
{
    let n = params.num_blocks as int;
    let size = params.block_size as int;
    let head = lap_head(params, last);
    params.lemma_layout();
    lemma_split(last, n);
    lemma_split(last + 1, n);
    let next = (last + 1) % n;
    lemma_next_block(n, last, next);
    assert((last + 1) * size - (last + 1) * size == 0);
    lemma_laps_in_range(params, bound, count, last, next);
    assert(ends_in(size, (last + 1) * size, last + 1));
    lemma_laps_in_range(params, bound, (last + 1) * size, last + 1, next);
    assert(next_index(params, head) == next);
    assert(head.index + 1 == last % n + 1);
    let up = head.incremented(params, 1);
    assert(up.version == (last + 1) / n) by {
        lemma_split(last % n + 1, n);
        lemma_version_monotone(n, last + 1, bound, next);
    }
    params.lemma_head_order(head, lap_head(params, last + 1));
    assert(last / n < (last + 1) / n || (last / n == (last + 1) / n && last % n < (last + 1) % n))
        by {
        if last % n + 1 < n {
            lemma_quotient(last % n + 1, n, 0, last % n + 1);
        } else {
            lemma_quotient(last % n + 1, n, 1, 0);
        }
    }
    params.lemma_cursor_order(lap_cursor(params, count, last, next), next_start(head));
}

/// The memory in which producers have moved on to the next block is settled.
proof fn lemma_opened_is_settled<T>(
    params: QueueParameters,
    memory: Memory<T>,
    pushed: int,
    plast: int,
    popped: int,
    clast: int,
)
    requires
        params.wf(),
        params.holds_elements(),
        settled_at(params, memory, pushed, plast, popped, clast),
        pushed == (plast + 1) * params.block_size,
        plast + 1 < popped / params.block_size as int + params.num_blocks,
        version_of(params.num_blocks as int, plast + 1) < params.versions(),
    ensures
        ({
            let after = with_opened(params, memory, lap_head(params, plast));
            &&& settled_at(params, after, pushed, plast + 1, popped, clast)
            &&& elements(params, after, pushed, popped) == elements(params, memory, pushed, popped)
        }),
{
    let n = params.num_blocks as int;
    let size = params.block_size as int;
    let head = lap_head(params, plast);
    let after = with_opened(params, memory, head);
    params.lemma_layout();
    lemma_next_words(params, plast + 1, pushed, plast);
    params.lemma_head_round_trip(lap_head(params, plast + 1));
    let next = (plast + 1) % n;
    lemma_split(popped, size);
    assert forall|i: int| 0 <= i < n implies block_settled(
        params,
        #[trigger] after.blocks[i],
        pushed,
        plast + 1,
        popped,
        clast,
        i,
    ) by {
        let b = memory.blocks[i];
        assert(block_settled(params, b, pushed, plast, popped, clast, i));
        lemma_next_block(n, plast, i);
        lemma_split(plast, n);
        if i == next {
            let l = plast + 1 - n;
            assert forall|x: int| 0 <= x < size implies ((#[trigger] after.blocks[i].data[x]) is Some
                <==> popped <= position_at(params, plast + 1, i, x) < pushed) by {
                assert(b.data[x] is Some <==> popped <= position_at(params, plast, i, x) < pushed);
                assert(l * size + x < popped) by (nonlinear_arith)
                    requires
                        l + 1 <= popped / size,
                        popped == (popped / size) * size + popped % size,
                        0 <= popped % size,
                        0 <= x < size,
                ;
            }
        } else {
            assert(after.blocks[i] == b);
            assert forall|x: int| 0 <= x < size implies ((#[trigger] after.blocks[i].data[x]) is Some
                <==> popped <= position_at(params, plast + 1, i, x) < pushed) by {
                assert(b.data[x] is Some <==> popped <= position_at(params, plast, i, x) < pushed);
            }
            // the block before is full
            assert(offset_at(n, size, pushed, plast + 1, i) == size);
            assert(offset_at(n, size, pushed, plast, i) == size) by {
                assert(plast * size + size == (plast + 1) * size) by (nonlinear_arith);
            }
        }
    }
    assert(elements(params, after, pushed, popped) =~= elements(params, memory, pushed, popped));
}

/// The memory in which consumers have moved on to the next block is settled.
proof fn lemma_entered_is_settled<T>(
    params: QueueParameters,
    memory: Memory<T>,
    pushed: int,
    plast: int,
    popped: int,
    clast: int,
)
    requires
        params.wf(),
        params.holds_elements(),
        settled_at(params, memory, pushed, plast, popped, clast),
        popped == (clast + 1) * params.block_size,
        clast + 1 <= plast,
    ensures
        ({
            let after = with_entered(params, memory, lap_head(params, clast));
            &&& settled_at(params, after, pushed, plast, popped, clast + 1)
            &&& elements(params, after, pushed, popped) == elements(params, memory, pushed, popped)
        }),
{
    let n = params.num_blocks as int;
    let size = params.block_size as int;
    let head = lap_head(params, clast);
    let after = with_entered(params, memory, head);
    params.lemma_layout();
    lemma_next_words(params, plast, popped, clast);
    params.lemma_head_round_trip(lap_head(params, clast + 1));
    let next = (clast + 1) % n;
    assert forall|i: int| 0 <= i < n implies block_settled(
        params,
        #[trigger] after.blocks[i],
        pushed,
        plast,
        popped,
        clast + 1,
        i,
    ) by {
        let b = memory.blocks[i];
        assert(block_settled(params, b, pushed, plast, popped, clast, i));
        lemma_next_block(n, clast, i);
        lemma_split(clast, n);
        assert(after.blocks[i].data == b.data);
        if i != next {
            assert(offset_at(n, size, popped, clast + 1, i) == size);
            assert(offset_at(n, size, popped, clast, i) == size) by {
                assert(clast * size + size == (clast + 1) * size) by (nonlinear_arith);
            }
        }
    }
    assert(elements(params, after, pushed, popped) =~= elements(params, memory, pushed, popped));
}

/// The memory with the first element taken out is settled.
proof fn lemma_popped_is_settled<T>(
    params: QueueParameters,
    memory: Memory<T>,
    pushed: int,
    plast: int,
    popped: int,
    clast: int,
)
    requires
        params.wf(),
        params.holds_elements(),
        settled_at(params, memory, pushed, plast, popped, clast),
        popped - clast * params.block_size < params.block_size,
        popped < pushed,
    ensures
        ({
            let k = clast % params.num_blocks as int;
            let reserved = lap_cursor(params, popped, clast, k);
            let after = with_popped(params, memory, k, reserved);
            &&& reserved.offset == popped - clast * params.block_size
            &&& memory.blocks[k].data[reserved.offset as int] == slot_at(params, memory, popped)
            &&& slot_at(params, memory, popped) is Some
            &&& settled_at(params, after, pushed, plast, popped + 1, clast)
            &&& elements(params, after, pushed, popped + 1) == elements(
                params,
                memory,
                pushed,
                popped,
            ).drop_first()
        }),
{
    let n = params.num_blocks as int;
    let size = params.block_size as int;
    let k = clast % n;
    let o = popped - clast * size;
    let reserved = lap_cursor(params, popped, clast, k);
    let after = with_popped(params, memory, k, reserved);
    params.lemma_layout();
    lemma_split(clast, n);
    lemma_quotient(popped, size, clast, o);
    lemma_split(popped + 1, size);
    assert(popped / size <= (popped + 1) / size) by (nonlinear_arith)
        requires
            popped == (popped / size) * size + o,
            0 <= o < size,
            popped + 1 == ((popped + 1) / size) * size + (popped + 1) % size,
            (popped + 1) % size < size,
            size > 0,
    ;
    lemma_live_position(params, memory, pushed, plast, popped, clast, popped);
    lemma_laps_in_range(params, plast, popped, clast, k);
    assert forall|i: int| 0 <= i < n implies block_settled(
        params,
        #[trigger] after.blocks[i],
        pushed,
        plast,
        popped + 1,
        clast,
        i,
    ) by {
        let b = memory.blocks[i];
        assert(block_settled(params, b, pushed, plast, popped, clast, i));
        lemma_laps_in_range(params, plast, popped, clast, i);
        lemma_laps_in_range(params, plast, popped + 1, clast, i);
        lemma_block_at(n, plast, i);
        if i == k {
            params.lemma_cursor_successor(lap_cursor(params, popped, clast, i));
        }
        assert forall|x: int| 0 <= x < size implies ((#[trigger] after.blocks[i].data[x]) is Some
            <==> popped + 1 <= position_at(params, plast, i, x) < pushed) by {
            assert(b.data[x] is Some <==> popped <= position_at(params, plast, i, x) < pushed);
            let l = block_at(n, plast, i);
            if position_at(params, plast, i, x) == popped {
                // then it is the slot that was emptied
                lemma_quotient(popped, size, l, x);
            }
        }
    }
    let before_elements = elements(params, memory, pushed, popped);
    let after_elements = elements(params, after, pushed, popped + 1);
    assert forall|j: int| 0 <= j < after_elements.len() implies after_elements[j]
        == before_elements.drop_first()[j] by {
        let p = popped + 1 + j;
        lemma_live_position(params, memory, pushed, plast, popped, clast, p);
        if (p / size) % n == k && p % size == o {
            assert(position_at(params, plast, k, o) == popped);
            assert(false);
        }
    }
    assert(after_elements =~= before_elements.drop_first());
}

/// In a settled queue whose last block is full, the next block is in use just
/// where its elements of the round before are not all popped.
proof fn lemma_next_block_in_use<T>(
    params: QueueParameters,
    memory: Memory<T>,
    pushed: int,
    plast: int,
    popped: int,
    clast: int,
)
    requires
        params.wf(),
        params.holds_elements(),
        settled_at(params, memory, pushed, plast, popped, clast),
        pushed == (plast + 1) * params.block_size,
    ensures
        ({
            let head = lap_head(params, plast);
            let next = next_index(params, head) as int;
            let consumed = params.cursor_of(memory.blocks[next].consumed);
            &&& 0 <= next < params.num_blocks
            &&& next_block_in_use(params, head, consumed) <==> plast + 1 >= popped
                / params.block_size as int + params.num_blocks
            &&& params.cursor_of(memory.blocks[next].reserved) == consumed
        }),
{
    let n = params.num_blocks as int;
    let size = params.block_size as int;
    let head = lap_head(params, plast);
    let next = (plast + 1) % n;
    params.lemma_layout();
    lemma_split(plast, n);
    lemma_next_block(n, plast, next);
    lemma_laps_in_range(params, plast, pushed, plast, next);
    lemma_laps_in_range(params, plast, popped, clast, next);
    assert(next_index(params, head) == next);
    assert(block_settled(params, memory.blocks[next], pushed, plast, popped, clast, next));
    let consumed = lap_cursor(params, popped, clast, next);
    let l = plast + 1 - n;
    let c = block_at(n, clast, next);
    lemma_block_at(n, clast, next);
    lemma_block_at(n, plast, next);
    lemma_version_monotone(n, clast, plast, next);
    lemma_split(popped, size);
    lemma_split(clast, n);
    // `c` and `l` are blocks of the same index, and `c` is not the later one
    if clast >= l {
        if l >= 0 {
            lemma_block_is_latest(n, clast, l);
            assert(block_at(n, plast, next) == l);
            assert(l % n == next);
            assert(c == l);
        } else {
            // the index was not used before
            assert(c < 0) by {
                if c >= 0 {
                    lemma_split(c, n);
                    assert(c % n == next);
                    assert(plast < n - 1);
                    lemma_quotient(plast + 1, n, 0, plast + 1);
                    lemma_quotient(c, n, 0, c);
                    assert(false);
                }
            }
        }
        // its elements are all popped where consumers have gone past it
        if clast > l {
            assert(consumed.offset == size) by {
                if next == clast % n {
                    lemma_block_is_latest(n, clast, clast);
                    assert(c == clast);
                    assert(false);
                }
            }
            if popped / size < l + 1 {
                assert(popped < (l + 1) * size) by (nonlinear_arith)
                    requires
                        popped == (popped / size) * size + popped % size,
                        popped % size < size,
                        popped / size <= l,
                        size > 0,
                ;
                assert(clast * size >= (l + 1) * size) by (nonlinear_arith)
                    requires
                        clast >= l + 1,
                        size > 0,
                ;
                assert(false);
            }
        } else {
            lemma_block_is_latest(n, clast, clast);
            assert(next == clast % n);
            if popped - clast * size < size {
                lemma_quotient(popped, size, clast, popped - clast * size);
            } else {
                assert((clast + 1) * size == clast * size + size) by (nonlinear_arith);
                lemma_quotient(popped, size, clast + 1, 0);
            }
        }
    } else {
        // consumers have not reached it
        assert(popped <= l * size) by (nonlinear_arith)
            requires
                popped <= clast * size + size,
                clast + 1 <= l,
                size > 0,
        ;
        assert(popped / size <= l) by (nonlinear_arith)
            requires
                popped == (popped / size) * size + popped % size,
                0 <= popped % size,
                popped <= l * size,
                size > 0,
        ;
        assert(l % n == next) by {
            lemma_split(l, n);
            assert((l / n + 1) * n == (l / n) * n + n) by (nonlinear_arith);
            lemma_quotient(plast + 1, n, l / n + 1, l % n);
        }
        assert(version_at(n, clast, next) < version_at(n, plast, next)) by {
            lemma_split(l, n);
            if c >= 0 {
                lemma_split(c, n);
                let a = c / n;
                let b = l / n;
                assert(a < b) by (nonlinear_arith)
                    requires
                        c == a * n + c % n,
                        l == b * n + l % n,
                        c % n == l % n,
                        c < l,
                        n > 0,
                ;
            } else {
                assert(version_at(n, clast, next) == 0);
                lemma_split(plast, n);
                assert(plast / n > 0) by (nonlinear_arith)
                    requires
                        plast == (plast / n) * n + plast % n,
                        plast % n < n,
                        plast + 1 - n > 0,
                        n > 0,
                        plast / n >= 0,
                        clast >= 0,
                        clast < plast + 1 - n,
                ;
            }
        }
    }
}

/// A push into a settled queue. Where there is room the element goes to the
/// end and the queue is settled again; where there is none nothing changes.
pub proof fn lemma_push_alone<T>(
    params: QueueParameters,
    memory: Memory<T>,
    pushed: int,
    popped: int,
    elem: T,
)
    requires
        params.wf(),
        params.holds_elements(),
        settled(params, memory, pushed, popped),
        no_room(params, pushed, popped) || version_of(
            params.num_blocks as int,
            pushed / params.block_size as int,
        ) < params.versions(),
    ensures
        ({
            let end = push_from_start(params, memory, elem, enough_steps());
            let after = (end->0).0;
            let outcome = (end->0).1;
            &&& end is Some
            &&& if no_room(params, pushed, popped) {
                &&& after == memory
                &&& outcome == Err::<(), TryPushError<T>>(TryPushError::Full(elem))
            } else {
                &&& outcome == Ok::<(), TryPushError<T>>(())
                &&& settled(params, after, pushed + 1, popped)
                &&& elements(params, after, pushed + 1, popped) == elements(
                    params,
                    memory,
                    pushed,
                    popped,
                ).push(elem)
            }
        }),
{
    let n = params.num_blocks as int;
    let size = params.block_size as int;
    let plast = last_block(size, pushed);
    let clast = last_block(size, popped);
    let head = lap_head(params, plast);
    lemma_last_block(size, pushed);
    lemma_split(plast, n);
    lemma_laps_in_range(params, plast, pushed, plast, plast % n);
    assert(block_settled(
        params,
        memory.blocks[plast % n],
        pushed,
        plast,
        popped,
        clast,
        plast % n,
    ));
    if pushed - plast * size < size {
        lemma_push_with_room(
            params,
            memory,
            elem,
            head,
            lap_cursor(params, pushed, plast, plast % n),
            enough_steps(),
        );
        lemma_pushed_is_settled(params, memory, pushed, plast, popped, clast, elem);
    } else {
        assert((plast + 1) * size == plast * size + size) by (nonlinear_arith);
        lemma_next_block_in_use(params, memory, pushed, plast, popped, clast);
        let next = next_index(params, head) as int;
        let consumed = params.cursor_of(memory.blocks[next].consumed);
        if no_room(params, pushed, popped) {
            lemma_push_refused(params, memory, elem, head, consumed, enough_steps());
        } else {
            let opened = with_opened(params, memory, head);
            lemma_next_words(params, plast + 1, pushed, plast);
            assert(block_settled(
                params,
                memory.blocks[next],
                pushed,
                plast,
                popped,
                clast,
                next,
            ));
            lemma_push_opens(params, memory, elem, head, consumed, enough_steps());
            lemma_opened_is_settled(params, memory, pushed, plast, popped, clast);
            assert(block_settled(
                params,
                opened.blocks[next],
                pushed,
                plast + 1,
                popped,
                clast,
                next,
            ));
            lemma_laps_in_range(params, plast + 1, pushed, plast + 1, next);
            assert(pushed - (plast + 1) * size == 0);
            lemma_push_with_room(
                params,
                opened,
                elem,
                lap_head(params, plast + 1),
                lap_cursor(params, pushed, plast + 1, next),
                (enough_steps() - 6) as nat,
            );
            lemma_pushed_is_settled(params, opened, pushed, plast + 1, popped, clast, elem);
        }
    }
}

/// A pop from a settled queue. The first element is taken out and the queue is
/// settled again; where there is none nothing changes.
pub proof fn lemma_pop_alone<T>(
    params: QueueParameters,
    memory: Memory<T>,
    pushed: int,
    popped: int,
)
    requires
        params.wf(),
        params.holds_elements(),
        settled(params, memory, pushed, popped),
    ensures
        ({
            let end = pop_from_start(params, memory, enough_steps());
            let after = (end->0).0;
            let outcome = (end->0).1;
            &&& end is Some
            &&& if pushed == popped {
                &&& after == memory
                &&& outcome == Err::<T, TryPopError>(TryPopError::Empty)
            } else {
                &&& outcome == Ok::<T, TryPopError>(elements(params, memory, pushed, popped)[0])
                &&& settled(params, after, pushed, popped + 1)
                &&& elements(params, after, pushed, popped + 1) == elements(
                    params,
                    memory,
                    pushed,
                    popped,
                ).drop_first()
            }
        }),
{
    let n = params.num_blocks as int;
    let size = params.block_size as int;
    let plast = last_block(size, pushed);
    let clast = last_block(size, popped);
    let head = lap_head(params, clast);
    let k = clast % n;
    lemma_last_block(size, pushed);
    lemma_last_block(size, popped);
    lemma_split(clast, n);
    lemma_laps_in_range(params, plast, popped, clast, k);
    lemma_laps_in_range(params, plast, pushed, plast, k);
    assert(block_settled(params, memory.blocks[k], pushed, plast, popped, clast, k));
    let reserved = lap_cursor(params, popped, clast, k);
    if popped - clast * size < size {
        if pushed == popped {
            lemma_pop_refused(params, memory, head, reserved, enough_steps());
        } else {
            lemma_pop_first(params, memory, pushed, plast, popped, clast, enough_steps());
        }
    } else {
        assert((clast + 1) * size == clast * size + size) by (nonlinear_arith);
        let next = (clast + 1) % n;
        lemma_next_block(n, clast, next);
        assert(next_index(params, head) == next);
        lemma_laps_in_range(params, plast, pushed, plast, next);
        assert(block_settled(params, memory.blocks[next], pushed, plast, popped, clast, next));
        if pushed == popped {
            lemma_pop_refused(params, memory, head, reserved, enough_steps());
        } else {
            assert(clast + 1 <= plast) by (nonlinear_arith)
                requires
                    pushed <= plast * size + size,
                    pushed > (clast + 1) * size,
                    size > 0,
            ;
            let entered = with_entered(params, memory, head);
            lemma_next_words(params, plast, popped, clast);
            lemma_block_is_latest(n, plast, clast + 1);
            lemma_pop_enters(params, memory, head, enough_steps());
            lemma_entered_is_settled(params, memory, pushed, plast, popped, clast);
            lemma_pop_first(
                params,
                entered,
                pushed,
                plast,
                popped,
                clast + 1,
                (enough_steps() - 6) as nat,
            );
        }
    }
}

/// A pop whose head names the block of the first element.
proof fn lemma_pop_first<T>(
    params: QueueParameters,
    memory: Memory<T>,
    pushed: int,
    plast: int,
    popped: int,
    clast: int,
    steps: nat,
)
    requires
        params.wf(),
        params.holds_elements(),
        settled_at(params, memory, pushed, plast, popped, clast),
        plast == last_block(params.block_size as int, pushed),
        popped - clast * params.block_size < params.block_size,
        popped < pushed,
        steps >= 7,
    ensures
        ({
            let end = pop_from_start(params, memory, steps);
            let after = (end->0).0;
            let outcome = (end->0).1;
            &&& end is Some
            &&& outcome == Ok::<T, TryPopError>(elements(params, memory, pushed, popped)[0])
            &&& settled(params, after, pushed, popped + 1)
            &&& elements(params, after, pushed, popped + 1) == elements(
                params,
                memory,
                pushed,
                popped,
            ).drop_first()
        }),
{
    let n = params.num_blocks as int;
    let size = params.block_size as int;
    let head = lap_head(params, clast);
    let k = clast % n;
    let o = popped - clast * size;
    lemma_split(clast, n);
    lemma_last_block(size, popped);
    lemma_quotient(popped, size, clast, o);
    lemma_laps_in_range(params, plast, popped, clast, k);
    lemma_laps_in_range(params, plast, pushed, plast, k);
    lemma_block_is_latest(n, plast, clast);
    assert(block_settled(params, memory.blocks[k], pushed, plast, popped, clast, k));
    let reserved = lap_cursor(params, popped, clast, k);
    let committed = lap_cursor(params, pushed, plast, k);
    assert(committed.offset != reserved.offset) by {
        if k == plast % n {
            lemma_block_is_latest(n, plast, plast);
            assert(clast == plast);
        }
    }
    lemma_popped_is_settled(params, memory, pushed, plast, popped, clast);
    lemma_pop_takes(params, memory, head, reserved, committed, steps);
}

/// The slots that a settled block has filled: those that are committed under the
/// current version and not consumed under it.
pub proof fn lemma_filled_slots<T>(
    params: QueueParameters,
    memory: Memory<T>,
    pushed: int,
    plast: int,
    popped: int,
    clast: int,
    i: int,
)
    requires
        params.wf(),
        params.holds_elements(),
        settled_at(params, memory, pushed, plast, popped, clast),
        0 <= i < params.num_blocks,
    ensures
        ({
            let b = memory.blocks[i];
            let committed = params.cursor_of(b.committed);
            let consumed = params.cursor_of(b.consumed);
            let start = if committed.version > consumed.version {
                0
            } else {
                consumed.offset
            };
            &&& start <= committed.offset <= params.block_size
            &&& forall|o: int|
                0 <= o < params.block_size ==> ((#[trigger] b.data[o]) is Some <==> start <= o
                    < committed.offset)
        }),
{
    let n = params.num_blocks as int;
    let size = params.block_size as int;
    lemma_laps_in_range(params, plast, pushed, plast, i);
    lemma_laps_in_range(params, plast, popped, clast, i);
    lemma_split(plast, n);
    lemma_split(clast, n);
    let b = memory.blocks[i];
    assert(block_settled(params, b, pushed, plast, popped, clast, i));
    let lp = block_at(n, plast, i);
    let lc = block_at(n, clast, i);
    lemma_block_at(n, plast, i);
    lemma_block_at(n, clast, i);
    lemma_version_monotone(n, clast, plast, i);
    let committed = lap_cursor(params, pushed, plast, i);
    let consumed = lap_cursor(params, popped, clast, i);
    // the offset of a block before the last one is its size
    assert(lp == plast <==> i == plast % n) by {
        if i == plast % n {
            lemma_block_is_latest(n, plast, plast);
        }
    }
    assert(lc == clast <==> i == clast % n) by {
        if i == clast % n {
            lemma_block_is_latest(n, clast, clast);
        }
    }
    if lp < plast {
        assert(lp * size + size <= plast * size) by (nonlinear_arith)
            requires
                lp + 1 <= plast,
                size > 0,
        ;
    }
    if lc < clast {
        assert(lc * size + size <= clast * size) by (nonlinear_arith)
            requires
                lc + 1 <= clast,
                size > 0,
        ;
    }
    if lc < 0 {
        assert(lc * size + size <= 0) by (nonlinear_arith)
            requires
                lc + 1 <= 0,
                size > 0,
        ;
    }
    if clast < lp {
        // consumers have not entered the block
        assert(popped <= lp * size) by (nonlinear_arith)
            requires
                popped <= clast * size + size,
                clast + 1 <= lp,
                size > 0,
        ;
        assert(consumed.version < committed.version) by {
            lemma_split(lp, n);
            if lc >= 0 {
                lemma_split(lc, n);
                let x = lc / n;
                let y = lp / n;
                assert(x < y) by (nonlinear_arith)
                    requires
                        lc == x * n + i,
                        lp == y * n + i,
                        lc < lp,
                        n > 0,
                ;
            } else {
                assert(version_of(n, lp) > 0) by {
                    if lp / n == 0 {
                        assert(0 * n == 0);
                        assert(lp == i);
                        assert(i > 0);
                    }
                }
            }
        }
    } else if lp >= 0 {
        lemma_block_is_latest(n, clast, lp);
        assert(lc == lp);
    } else {
        assert(lc == lp) by {
            assert(plast / n == 0) by {
                lemma_quotient(plast, n, 0, plast);
            }
            assert(clast / n == 0) by {
                lemma_quotient(clast, n, 0, clast);
            }
        }
    }
    assert forall|o: int| 0 <= o < size implies ((#[trigger] b.data[o]) is Some <==> (if committed.version
        > consumed.version {
        0
    } else {
        consumed.offset
    }) <= o < committed.offset) by {
        assert(b.data[o] is Some <==> popped <= position_at(params, plast, i, o) < pushed);
    }
}

}
