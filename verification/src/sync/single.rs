//! A shared queue that one thread uses at a time.
//!
//! While nobody else touches a shared queue, its words and slots reply as a
//! memory does. What the calls of the queue come to is then as exact as for a
//! queue with one owner.

use crate::sync::alone::{
    enough_steps, lemma_laps_in_range, lemma_pop_alone, lemma_push_alone, pop_alone,
    pop_from_start, push_alone, push_from_start,
};
use crate::sync::cursor::UnpackedHead;
use crate::sync::error::{TryPopError, TryPushError};
use crate::sync::laps::{
    block_settled, elements, lap_cursor, lap_head, last_block, lemma_quotient, lemma_split,
    no_room, offset_at, settled, version_left,
};
use crate::sync::memory::{BlockMemory, End, Field, Memory, Reply};
use crate::sync::opening::lemma_version_of_monotone;
use crate::sync::params::{
    heuristic_block_size, heuristic_blocks, lemma_heuristic_fits, QueueParameters,
};
use crate::sync::pop::PopStep;
use crate::sync::push::PushStep;
use crate::sync::queue::{
    pop_after, pop_attempted, pop_ends, pop_outcome, push_after, push_attempted, push_ends,
    push_outcome,
};
use crate::sync::shared::{can_glance, first_cursor, made_empty, made_with, Place, Shared};
use crate::sync::snapshot::Snapshot;
use vstd::prelude::*;

verus! {

/// The words and slots of a new queue.
pub open spec fn new_memory<T>(params: QueueParameters) -> Memory<T> {
    let head = params.head_word((UnpackedHead { version: 0, index: 0 }));
    Memory {
        producer: head,
        consumer: head,
        blocks: Seq::new(
            params.num_blocks as nat,
            |i: int|
                {
                    let word = params.cursor_word(first_cursor(params, i == 0));
                    BlockMemory {
                        data: Seq::new(params.block_size as nat, |o: int| None),
                        allocated: word,
                        committed: word,
                        reserved: word,
                        consumed: word,
                    }
                },
        ),
    }
}

/// A new queue is settled: nothing was pushed, and nothing was popped.
pub proof fn lemma_new_memory_is_settled<T>(params: QueueParameters)
    requires
        params.wf(),
        params.holds_elements(),
    ensures
        settled(params, new_memory::<T>(params), 0, 0),
        elements(params, new_memory::<T>(params), 0, 0) == Seq::<T>::empty(),
{
    let n = params.num_blocks as int;
    let size = params.block_size as int;
    let memory = new_memory::<T>(params);
    params.lemma_layout();
    lemma_quotient(0, n, 0, 0);
    lemma_quotient(0, size, 0, 0);
    assert forall|i: int| 0 <= i < n implies block_settled(
        params,
        #[trigger] memory.blocks[i],
        0,
        0,
        0,
        0,
        i,
    ) by {
        assert(lap_cursor(params, 0, 0, i) == first_cursor(params, i == 0));
    }
    params.lemma_head_round_trip(UnpackedHead { version: 0, index: 0 });
    assert(memory.producer == params.head_word(lap_head(params, 0)));
    assert(elements(params, memory, 0, 0) =~= Seq::<T>::empty());
}

/// Every word of a new shared queue was made to hold the word of a new memory,
/// and every slot was made empty.
pub proof fn lemma_made_as_new_memory<T>(shared: Shared<T>)
    requires
        shared.made_new(),
    ensures
        forall|end: End|
            made_with(
                #[trigger] shared.word_at(Place::Head(end)),
                new_memory::<T>(shared.params()).at(Place::Head(end)),
            ),
        forall|block: usize, field: Field|
            block < shared.params().num_blocks ==> made_with(
                #[trigger] shared.word_at(Place::Cursor(block, field)),
                new_memory::<T>(shared.params()).at(Place::Cursor(block, field)),
            ),
        forall|block: usize, offset: usize|
            block < shared.params().num_blocks && offset < shared.params().block_size
                ==> made_empty(#[trigger] shared.cell_at(block, offset)) && new_memory::<T>(
                shared.params(),
            ).blocks[block as int].data[offset as int] is None,
{
    shared.lemma_words();
    assert forall|end: End| made_with(
        #[trigger] shared.word_at(Place::Head(end)),
        new_memory::<T>(shared.params()).at(Place::Head(end)),
    ) by {
        match end {
            End::Producer => {},
            End::Consumer => {},
        }
    }
    assert forall|block: usize, field: Field|
        block < shared.params().num_blocks implies made_with(
        #[trigger] shared.word_at(Place::Cursor(block, field)),
        new_memory::<T>(shared.params()).at(Place::Cursor(block, field)),
    ) by {
        assert(shared.block_at(block).made_at(
            shared.params(),
            first_cursor(shared.params(), block == 0),
        ));
    }
    assert forall|block: usize, offset: usize|
        block < shared.params().num_blocks && offset
            < shared.params().block_size implies made_empty(
        #[trigger] shared.cell_at(block, offset),
    ) && new_memory::<T>(shared.params()).blocks[block as int].data[offset as int] is None by {
        assert(shared.block_at(block).made_at(
            shared.params(),
            first_cursor(shared.params(), block == 0),
        ));
    }
}

/// The memory after a push has got its replies, if each of them is what the
/// memory gives while nobody else touches it.
pub open spec fn push_served<T>(
    params: QueueParameters,
    memory: Memory<T>,
    elem: T,
    replies: Seq<Reply<T>>,
) -> Option<Memory<T>>
    decreases replies.len(),
{
    if replies.len() == 0 {
        Some(memory)
    } else {
        match (
            push_served(params, memory, elem, replies.drop_last()),
            push_after(params, elem, replies.drop_last()),
        ) {
            (Some(before), Some(PushStep::Next(_, access))) => if access.performed(params, before).1
                == replies.last() {
                Some(access.performed(params, before).0)
            } else {
                None
            },
            _ => None,
        }
    }
}

/// The memory after a pop has got its replies, if each of them is what the
/// memory gives while nobody else touches it.
pub open spec fn pop_served<T>(
    params: QueueParameters,
    memory: Memory<T>,
    replies: Seq<Reply<T>>,
) -> Option<Memory<T>>
    decreases replies.len(),
{
    if replies.len() == 0 {
        Some(memory)
    } else {
        match (
            pop_served(params, memory, replies.drop_last()),
            pop_after(params, replies.drop_last()),
        ) {
            (Some(before), Some(PopStep::Next(_, access))) => if access.performed(params, before).1
                == replies.last() {
                Some(access.performed(params, before).0)
            } else {
                None
            },
            _ => None,
        }
    }
}

/// The replies of a memory lead a push along the accesses that it performs alone.
proof fn lemma_push_is_led<T>(
    params: QueueParameters,
    memory: Memory<T>,
    elem: T,
    replies: Seq<Reply<T>>,
    steps: nat,
)
    requires
        push_from_start(params, memory, elem, steps) is Some,
    ensures
        push_served(params, memory, elem, replies) matches Some(after) ==> (push_after(
            params,
            elem,
            replies,
        ) matches Some(step) ==> match step {
            PushStep::Next(state, access) => replies.len() < steps && push_alone(
                params,
                after,
                state,
                access,
                (steps - replies.len()) as nat,
            ) == push_from_start(params, memory, elem, steps),
            PushStep::Done(outcome) => push_from_start(params, memory, elem, steps) == Some(
                (after, outcome),
            ),
        }),
    decreases replies.len(),
{
    if replies.len() > 0 {
        lemma_push_is_led(params, memory, elem, replies.drop_last(), steps);
    }
}

/// The replies of a memory lead a pop along the accesses that it performs alone.
proof fn lemma_pop_is_led<T>(
    params: QueueParameters,
    memory: Memory<T>,
    replies: Seq<Reply<T>>,
    steps: nat,
)
    requires
        pop_from_start(params, memory, steps) is Some,
    ensures
        pop_served(params, memory, replies) matches Some(after) ==> (pop_after(
            params,
            replies,
        ) matches Some(step) ==> match step {
            PopStep::Next(state, access) => replies.len() < steps && pop_alone(
                params,
                after,
                state,
                access,
                (steps - replies.len()) as nat,
            ) == pop_from_start(params, memory, steps),
            PopStep::Done(outcome) => pop_from_start(params, memory, steps) == Some(
                (after, outcome),
            ),
        }),
    decreases replies.len(),
{
    if replies.len() > 0 {
        lemma_pop_is_led(params, memory, replies.drop_last(), steps);
    }
}

/// A push that nobody interferes with succeeds and appends its element, unless
/// the queue is full. A push into a full queue hands its element back, and
/// leaves the queue as it is.
pub proof fn lemma_push_of_one_thread<T>(
    params: QueueParameters,
    memory: Memory<T>,
    pushed: int,
    popped: int,
    elem: T,
    replies: Seq<Reply<T>>,
    outcome: Result<(), TryPushError<T>>,
)
    requires
        params.wf(),
        params.holds_elements(),
        settled(params, memory, pushed, popped),
        no_room(params, pushed, popped) || version_left(params, pushed),
        push_served(params, memory, elem, replies) is Some,
        push_outcome(params, elem, replies, outcome),
    ensures
        ({
            let after = push_served(params, memory, elem, replies)->0;
            if no_room(params, pushed, popped) {
                &&& outcome == Err::<(), TryPushError<T>>(TryPushError::Full(elem))
                &&& after == memory
            } else {
                &&& outcome is Ok
                &&& settled(params, after, pushed + 1, popped)
                &&& elements(params, after, pushed + 1, popped) == elements(
                    params,
                    memory,
                    pushed,
                    popped,
                ).push(elem)
            }
        }),
{
    lemma_push_alone(params, memory, pushed, popped, elem);
    lemma_push_is_led(params, memory, elem, replies, enough_steps());
}

/// A pop that nobody interferes with gives out the first element and removes it.
/// A pop from an empty queue gives out nothing, and leaves the queue as it is.
pub proof fn lemma_pop_of_one_thread<T>(
    params: QueueParameters,
    memory: Memory<T>,
    pushed: int,
    popped: int,
    replies: Seq<Reply<T>>,
    outcome: Result<T, TryPopError>,
)
    requires
        params.wf(),
        params.holds_elements(),
        settled(params, memory, pushed, popped),
        pop_served(params, memory, replies) is Some,
        pop_outcome(params, replies, outcome),
    ensures
        ({
            let after = pop_served(params, memory, replies)->0;
            if pushed == popped {
                &&& outcome == Err::<T, TryPopError>(TryPopError::Empty)
                &&& after == memory
            } else {
                &&& outcome == Ok::<T, TryPopError>(elements(params, memory, pushed, popped)[0])
                &&& settled(params, after, pushed, popped + 1)
                &&& elements(params, after, pushed, popped + 1) == elements(
                    params,
                    memory,
                    pushed,
                    popped,
                ).drop_first()
            }
        }),
{
    lemma_pop_alone(params, memory, pushed, popped);
    lemma_pop_is_led(params, memory, replies, enough_steps());
}

/// A push of a shared queue that nobody interferes with is decided at the first
/// attempt. It hands its element back just where the queue is full.
pub proof fn lemma_push_is_decided_at_once<T>(
    shared: Shared<T>,
    memory: Memory<T>,
    pushed: int,
    popped: int,
    elem: T,
    attempts: Seq<Seq<Reply<T>>>,
    result: Result<(), T>,
)
    requires
        shared.params().wf(),
        shared.params().holds_elements(),
        settled(shared.params(), memory, pushed, popped),
        no_room(shared.params(), pushed, popped) || version_left(shared.params(), pushed),
        push_attempted(shared, elem, attempts, result),
        push_served(shared.params(), memory, elem, attempts[0]) is Some,
    ensures
        attempts.len() == 1,
        result is Ok <==> !no_room(shared.params(), pushed, popped),
        result matches Err(handed_back) ==> handed_back == elem,
{
    let params = shared.params();
    if attempts.len() > 1 {
        assert(push_ends(shared, elem, attempts[0], Err(TryPushError::Busy(elem))));
        lemma_push_of_one_thread(
            params,
            memory,
            pushed,
            popped,
            elem,
            attempts[0],
            Err(TryPushError::Busy(elem)),
        );
    } else {
        match result {
            Ok(_) => {
                lemma_push_of_one_thread(
                    params,
                    memory,
                    pushed,
                    popped,
                    elem,
                    attempts[0],
                    Ok(()),
                );
            },
            Err(_) => {
                lemma_push_of_one_thread(
                    params,
                    memory,
                    pushed,
                    popped,
                    elem,
                    attempts[0],
                    Err(TryPushError::Full(elem)),
                );
            },
        }
    }
}

/// A pop of a shared queue that nobody interferes with is decided at the first
/// attempt. It gives out the first element, or nothing just where there is none.
pub proof fn lemma_pop_is_decided_at_once<T>(
    shared: Shared<T>,
    memory: Memory<T>,
    pushed: int,
    popped: int,
    attempts: Seq<Seq<Reply<T>>>,
    result: Option<T>,
)
    requires
        shared.params().wf(),
        shared.params().holds_elements(),
        settled(shared.params(), memory, pushed, popped),
        pop_attempted(shared, attempts, result),
        pop_served(shared.params(), memory, attempts[0]) is Some,
    ensures
        attempts.len() == 1,
        result == if pushed == popped {
            None
        } else {
            Some(elements(shared.params(), memory, pushed, popped)[0])
        },
{
    let params = shared.params();
    if attempts.len() > 1 {
        assert(pop_ends(shared, attempts[0], Err(TryPopError::Busy)));
        lemma_pop_of_one_thread(
            params,
            memory,
            pushed,
            popped,
            attempts[0],
            Err(TryPopError::Busy),
        );
    } else {
        match result {
            Some(elem) => {
                lemma_pop_of_one_thread(params, memory, pushed, popped, attempts[0], Ok(elem));
            },
            None => {
                lemma_pop_of_one_thread(
                    params,
                    memory,
                    pushed,
                    popped,
                    attempts[0],
                    Err(TryPopError::Empty),
                );
            },
        }
    }
}

/// A queue that holds no more elements than the lower bound of its capacity has room.
pub proof fn lemma_room_up_to_lower_capacity(params: QueueParameters, pushed: int, popped: int)
    requires
        params.wf(),
        params.holds_elements(),
        0 <= popped <= pushed,
        pushed - popped <= params.capacity.lower,
    ensures
        !no_room(params, pushed, popped),
{
    let n = params.num_blocks as int;
    let size = params.block_size as int;
    lemma_split(pushed, size);
    lemma_split(popped, size);
    if no_room(params, pushed, popped) {
        assert((pushed / size) * size >= (popped / size) * size + n * size) by (nonlinear_arith)
            requires
                pushed / size >= popped / size + n,
                size > 0,
        ;
        assert((n - 1) * size == n * size - size) by (nonlinear_arith);
    }
}

/// A call of a shared queue: what it was given, the replies that it got and what
/// it came to.
pub enum SharedCall<T> {
    /// An element was to be pushed.
    Push(T, Seq<Reply<T>>, Result<(), TryPushError<T>>),
    /// An element was to be popped.
    Pop(Seq<Reply<T>>, Result<T, TryPopError>),
}

/// The memory after a call, if its replies are those of the memory and lead to
/// what the call came to.
pub open spec fn served<T>(
    params: QueueParameters,
    memory: Memory<T>,
    call: SharedCall<T>,
) -> Option<Memory<T>> {
    match call {
        SharedCall::Push(elem, replies, outcome) => if push_outcome(
            params,
            elem,
            replies,
            outcome,
        ) {
            push_served(params, memory, elem, replies)
        } else {
            None
        },
        SharedCall::Pop(replies, outcome) => if pop_outcome(params, replies, outcome) {
            pop_served(params, memory, replies)
        } else {
            None
        },
    }
}

/// The memory after calls that one thread makes one after the other.
pub open spec fn all_served<T>(
    params: QueueParameters,
    memory: Memory<T>,
    calls: Seq<SharedCall<T>>,
) -> Option<Memory<T>>
    decreases calls.len(),
{
    if calls.len() == 0 {
        Some(memory)
    } else {
        match all_served(params, memory, calls.drop_last()) {
            Some(before) => served(params, before, calls.last()),
            None => None,
        }
    }
}

/// The elements of the pushes that succeeded, in their order.
pub open spec fn elements_pushed<T>(calls: Seq<SharedCall<T>>) -> Seq<T>
    decreases calls.len(),
{
    if calls.len() == 0 {
        Seq::empty()
    } else {
        match calls.last() {
            SharedCall::Push(elem, _, Ok(_)) => elements_pushed(calls.drop_last()).push(elem),
            _ => elements_pushed(calls.drop_last()),
        }
    }
}

/// The elements that pops gave out, in their order.
pub open spec fn elements_popped<T>(calls: Seq<SharedCall<T>>) -> Seq<T>
    decreases calls.len(),
{
    if calls.len() == 0 {
        Seq::empty()
    } else {
        match calls.last() {
            SharedCall::Pop(_, Ok(elem)) => elements_popped(calls.drop_last()).push(elem),
            _ => elements_popped(calls.drop_last()),
        }
    }
}

/// One thread that uses a new queue gets the elements back in the order in which
/// it pushed them: what was popped and what is still in the queue make up what
/// was pushed. No call is ever turned away as busy.
pub proof fn lemma_one_thread<T>(params: QueueParameters, calls: Seq<SharedCall<T>>)
    requires
        params.wf(),
        params.holds_elements(),
        all_served(params, new_memory::<T>(params), calls) is Some,
        version_left(params, elements_pushed(calls).len() as int),
    ensures
        ({
            let memory = all_served(params, new_memory::<T>(params), calls)->0;
            let pushed = elements_pushed(calls);
            let popped = elements_popped(calls);
            &&& settled(params, memory, pushed.len() as int, popped.len() as int)
            &&& popped + elements(params, memory, pushed.len() as int, popped.len() as int)
                == pushed
        }),
        forall|k: int|
            0 <= k < calls.len() ==> match #[trigger] calls[k] {
                SharedCall::Push(elem, _, outcome) => {
                    let full = no_room(
                        params,
                        elements_pushed(calls.take(k)).len() as int,
                        elements_popped(calls.take(k)).len() as int,
                    );
                    &&& outcome is Ok <==> !full
                    &&& outcome matches Err(e) ==> e == TryPushError::Full(elem)
                },
                SharedCall::Pop(_, outcome) => {
                    let empty = elements_pushed(calls.take(k)).len() == elements_popped(
                        calls.take(k),
                    ).len();
                    &&& outcome is Ok <==> !empty
                    &&& outcome matches Err(e) ==> e == TryPopError::Empty
                },
            },
    decreases calls.len(),
{
    lemma_new_memory_is_settled::<T>(params);
    let first = new_memory::<T>(params);
    if calls.len() == 0 {
        assert(elements_popped(calls) + elements(params, first, 0, 0) =~= elements_pushed(calls));
    } else {
        let fewer = calls.drop_last();
        lemma_version_left_before(
            params,
            elements_pushed(fewer).len() as int,
            elements_pushed(calls).len() as int,
        );
        lemma_one_thread(params, fewer);
        let memory = all_served(params, first, fewer)->0;
        let pushed = elements_pushed(fewer).len() as int;
        let popped = elements_popped(fewer).len() as int;
        match calls.last() {
            SharedCall::Push(elem, replies, outcome) => {
                lemma_push_of_one_thread(params, memory, pushed, popped, elem, replies, outcome);
                if outcome is Ok {
                    assert(elements_popped(calls) + elements(params, memory, pushed, popped).push(
                        elem,
                    ) =~= (elements_popped(fewer) + elements(
                        params,
                        memory,
                        pushed,
                        popped,
                    )).push(elem));
                }
            },
            SharedCall::Pop(replies, outcome) => {
                lemma_pop_of_one_thread(params, memory, pushed, popped, replies, outcome);
                if outcome is Ok {
                    assert(elements_popped(calls) + elements(
                        params,
                        memory,
                        pushed,
                        popped,
                    ).drop_first() =~= elements_popped(fewer) + elements(
                        params,
                        memory,
                        pushed,
                        popped,
                    ));
                }
            },
        }
        assert forall|k: int| 0 <= k < calls.len() implies match #[trigger] calls[k] {
            SharedCall::Push(elem, _, outcome) => {
                let full = no_room(
                    params,
                    elements_pushed(calls.take(k)).len() as int,
                    elements_popped(calls.take(k)).len() as int,
                );
                &&& outcome is Ok <==> !full
                &&& outcome matches Err(e) ==> e == TryPushError::Full(elem)
            },
            SharedCall::Pop(_, outcome) => {
                let empty = elements_pushed(calls.take(k)).len() == elements_popped(
                    calls.take(k),
                ).len();
                &&& outcome is Ok <==> !empty
                &&& outcome matches Err(e) ==> e == TryPopError::Empty
            },
        } by {
            if k < fewer.len() {
                assert(fewer[k] == calls[k]);
                assert(fewer.take(k) =~= calls.take(k));
            } else {
                assert(calls.take(k) =~= fewer);
            }
        }
    }
}

/// A queue that was made for a capacity takes an element from one thread whenever
/// it holds fewer elements than that.
pub proof fn lemma_new_queue_takes_up_to_capacity<T>(
    capacity: int,
    params: QueueParameters,
    calls: Seq<SharedCall<T>>,
    k: int,
)
    requires
        0 <= capacity <= usize::MAX / 4,
        params.wf(),
        params.describes(heuristic_blocks(capacity) + 1, heuristic_block_size(capacity)),
        all_served(params, new_memory::<T>(params), calls) is Some,
        version_left(params, elements_pushed(calls).len() as int),
        0 <= k < calls.len(),
        elements_pushed(calls.take(k)).len() - elements_popped(calls.take(k)).len() < capacity,
    ensures
        params.capacity.lower >= capacity,
        calls[k] matches SharedCall::Push(_, _, outcome) ==> outcome is Ok,
{
    lemma_heuristic_fits(capacity);
    lemma_one_thread(params, calls);
    lemma_calls_up_to(params, new_memory::<T>(params), calls, k);
    lemma_pushed_grows(calls, k);
    lemma_version_left_before(
        params,
        elements_pushed(calls.take(k)).len() as int,
        elements_pushed(calls).len() as int,
    );
    lemma_one_thread(params, calls.take(k));
    lemma_room_up_to_lower_capacity(
        params,
        elements_pushed(calls.take(k)).len() as int,
        elements_popped(calls.take(k)).len() as int,
    );
}

/// The first of a number of calls are served as well.
proof fn lemma_calls_up_to<T>(
    params: QueueParameters,
    memory: Memory<T>,
    calls: Seq<SharedCall<T>>,
    k: int,
)
    requires
        all_served(params, memory, calls) is Some,
        0 <= k <= calls.len(),
    ensures
        all_served(params, memory, calls.take(k)) is Some,
    decreases calls.len(),
{
    if k < calls.len() {
        lemma_calls_up_to(params, memory, calls.drop_last(), k);
        assert(calls.drop_last().take(k) =~= calls.take(k));
    } else {
        assert(calls.take(k) =~= calls);
    }
}

/// More calls push no fewer elements.
proof fn lemma_pushed_grows<T>(calls: Seq<SharedCall<T>>, k: int)
    requires
        0 <= k <= calls.len(),
    ensures
        elements_pushed(calls.take(k)).len() <= elements_pushed(calls).len(),
    decreases calls.len(),
{
    if k < calls.len() {
        lemma_pushed_grows(calls.drop_last(), k);
        assert(calls.drop_last().take(k) =~= calls.take(k));
    } else {
        assert(calls.take(k) =~= calls);
    }
}

/// Where there is a version for a later block there is one for an earlier block.
proof fn lemma_version_left_before(params: QueueParameters, earlier: int, later: int)
    requires
        params.holds_elements(),
        0 <= earlier <= later,
        version_left(params, later),
    ensures
        version_left(params, earlier),
{
    let n = params.num_blocks as int;
    let size = params.block_size as int;
    lemma_split(earlier, size);
    lemma_split(later, size);
    let a = earlier / size;
    let b = later / size;
    assert(a <= b) by (nonlinear_arith)
        requires
            earlier == a * size + earlier % size,
            later == b * size + later % size,
            earlier <= later,
            0 <= earlier % size < size,
            0 <= later % size < size,
    ;
    lemma_version_of_monotone(n, a, b);
}

/// Nobody touches the words: a glance at one of them reads what the memory has
/// at its place.
pub open spec fn keeps_still<T>(shared: Shared<T>, memory: Memory<T>) -> bool {
    &&& forall|end: End, was: usize| #[trigger]
        can_glance(shared.word_at(Place::Head(end)), was) ==> was == memory.head(end)
    &&& forall|block: usize, field: Field, was: usize|
        block < shared.params().num_blocks && #[trigger] can_glance(
            shared.word_at(Place::Cursor(block, field)),
            was,
        ) ==> was == memory.blocks[block as int].word(field)
}

/// A snapshot of a queue that nobody touches counts: the producer head and the
/// cursors of its block count the elements that were pushed in all, and the
/// consumer head and the cursors of its block those that were popped. In every
/// other block all slots are counted.
pub proof fn lemma_snapshot_counts<T>(
    shared: Shared<T>,
    memory: Memory<T>,
    pushed: int,
    popped: int,
    s: Snapshot,
)
    requires
        shared.params().wf(),
        shared.params().holds_elements(),
        settled(shared.params(), memory, pushed, popped),
        keeps_still(shared, memory),
        shared.shows(s),
    ensures
        ({
            let n = shared.params().num_blocks as int;
            let size = shared.params().block_size as int;
            let last = s.producer.version * n + s.producer.index;
            let first = s.consumer.version * n + s.consumer.index;
            &&& s.blocks@.len() == n
            &&& s.producer.index < n
            &&& s.consumer.index < n
            &&& pushed == last * size + s.blocks@[s.producer.index as int].allocated.offset
            &&& popped == first * size + s.blocks@[s.consumer.index as int].reserved.offset
            &&& forall|i: int|
                0 <= i < n ==> {
                    let b = #[trigger] s.blocks@[i];
                    &&& b.allocated == b.committed
                    &&& b.reserved == b.consumed
                    &&& i != s.producer.index ==> b.allocated.offset == size
                    &&& i != s.consumer.index ==> b.reserved.offset == size
                }
        }),
{
    let params = shared.params();
    let n = params.num_blocks as int;
    let size = params.block_size as int;
    let plast = last_block(size, pushed);
    let clast = last_block(size, popped);
    lemma_split(plast, n);
    lemma_split(clast, n);
    lemma_laps_in_range(params, plast, pushed, plast, plast % n);
    lemma_laps_in_range(params, plast, popped, clast, clast % n);
    assert forall|i: int| 0 <= i < n implies {
        let b = #[trigger] s.blocks@[i];
        &&& b.allocated == lap_cursor(params, pushed, plast, i)
        &&& b.committed == lap_cursor(params, pushed, plast, i)
        &&& b.reserved == lap_cursor(params, popped, clast, i)
        &&& b.consumed == lap_cursor(params, popped, clast, i)
        &&& lap_cursor(params, pushed, plast, i).offset == offset_at(n, size, pushed, plast, i)
        &&& lap_cursor(params, popped, clast, i).offset == offset_at(n, size, popped, clast, i)
    } by {
        assert(shared.shows_block(i as usize, s.blocks@[i as usize as int]));
        assert(block_settled(params, memory.blocks[i], pushed, plast, popped, clast, i));
        lemma_laps_in_range(params, plast, pushed, plast, i);
        lemma_laps_in_range(params, plast, popped, clast, i);
    }
    assert(s.producer == lap_head(params, plast));
    assert(s.consumer == lap_head(params, clast));
}

}
