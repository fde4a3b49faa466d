//! Why the operations on a queue do not get in each other's way: each of them
//! agrees with one account, whatever the others do.

use crate::sync::account::{
    agrees, block_agrees, blocks_in_order, claimed, committed, consumed, content, counted,
    claims_at, counts_claims,
    lemma_counted_all, lemma_counted_beyond, lemma_counted_bounds, lemma_counted_full,
    lemma_counted_split, lemma_live, lemma_number, lemma_number_before, lemma_number_in_block,
    lemma_tally_in_range, lemma_version_tells, reserved, slots_in_order, taken, tally, written,
    Account,
};
use crate::sync::alone::lemma_laps_in_range;
use crate::sync::cursor::{UnpackedCursor, UnpackedHead};
use crate::sync::interleave::{ran_over, Event, PopOp, PushOp, System};
use crate::sync::laps::{
    block_at, block_settled, lap_cursor, lap_head, lemma_block_at, lemma_block_is_latest,
    lemma_next_block, lemma_quotient,
    lemma_split, lemma_version_monotone, settled, slot_at, version_at, version_of,
};
use crate::sync::memory::{max_word, Access, End, Field, Memory};
use crate::sync::opening::{
    block_named, later, lemma_enter_consumed, lemma_enter_reserved, lemma_named, lemma_next_named,
    lemma_open_allocated, lemma_open_committed, lemma_raise_head, lemma_version_of_monotone,
};
use crate::sync::params::QueueParameters;
use crate::sync::pop::{one_further, PopState, PopStep};
use crate::sync::push::{
    head_ok, next_block_in_use, next_index, next_start, EntryDescriptor, PushState, PushStep,
};
use crate::sync::queue::push_carries;
use crate::sync::slots::{
    advanced, index_of, lemma_claim, lemma_commit, lemma_consume, lemma_miss, lemma_reserve,
    lemma_claims_read, lemma_take, lemma_write, with_claim,
};
use vstd::prelude::*;

verus! {

/// The entry is the slot with the given number.
pub open spec fn entry_has_number(params: QueueParameters, entry: EntryDescriptor, p: int) -> bool {
    &&& entry.block == index_of(params, p)
    &&& entry.offset == p % (params.block_size as int)
}

/// All slots of the block that a head names, and of those before, were claimed by pushes.
pub open spec fn filled_up(params: QueueParameters, acc: Account, head: UnpackedHead) -> bool {
    acc.progress.len() >= block_named(params, head) * params.block_size + params.block_size
}

/// All slots of the block that a head names, and of those before, were claimed by pops.
pub open spec fn used_up(params: QueueParameters, acc: Account, head: UnpackedHead) -> bool {
    acc.reserves >= block_named(params, head) * params.block_size + params.block_size
}

/// The block after the one that a head names may be opened: the block that it
/// replaces is consumed, or it was opened already.
pub open spec fn may_open(params: QueueParameters, acc: Account, head: UnpackedHead) -> bool {
    acc.committed > block_named(params, head) || forall|p: int|
        0 <= p < acc.progress.len() && p < (block_named(params, head) + 2 - params.num_blocks)
            * params.block_size ==> #[trigger] acc.progress[p] == consumed()
}

/// What a push knows.
pub open spec fn push_agrees<T>(
    params: QueueParameters,
    elems: Seq<T>,
    acc: Account,
    op: PushOp<T>,
) -> bool {
    &&& op.state.wf(params)
    &&& op.state.waits_for(params, op.access)
    &&& push_carries(PushStep::Next(op.state, op.access), op.elem)
    &&& match op.state {
        PushState::Head { .. } => true,
        PushState::Check { head, .. } => block_named(params, head) <= acc.allocated,
        PushState::Claim { head, .. } => block_named(params, head) <= acc.allocated,
        PushState::Write { entry } => {
            &&& 0 <= op.number < elems.len()
            &&& entry_has_number(params, entry, op.number)
            &&& elems[op.number] == op.elem
            &&& acc.progress[op.number] == claimed()
        },
        PushState::Commit { entry } => {
            &&& 0 <= op.number < elems.len()
            &&& entry_has_number(params, entry, op.number)
            &&& elems[op.number] == op.elem
            &&& acc.progress[op.number] == written()
        },
        PushState::Consumed { head, .. } => filled_up(params, acc, head),
        PushState::Reserved { head, .. } => filled_up(params, acc, head),
        PushState::RaiseCommitted { head, .. } => filled_up(params, acc, head) && may_open(
            params,
            acc,
            head,
        ),
        PushState::RaiseAllocated { head, .. } => filled_up(params, acc, head) && acc.committed
            > block_named(params, head),
        PushState::RaiseHead { head, .. } => acc.allocated > block_named(params, head),
    }
}

/// Where the reserved cursor at an index stands.
pub open spec fn standing(params: QueueParameters, acc: Account, i: int) -> UnpackedCursor {
    lap_cursor(params, acc.reserves, acc.reserved, i)
}

/// A cursor does not lie past another one.
pub open spec fn not_past(a: UnpackedCursor, b: UnpackedCursor) -> bool {
    a.version < b.version || (a.version == b.version && a.offset <= b.offset)
}

/// How many slots are filled in the block that consumers are in.
pub open spec fn filled_slots(params: QueueParameters, acc: Account) -> int {
    let start = acc.reserved * params.block_size;
    counted(acc.progress, start, start + params.block_size, committed())
}

/// The next slot that a pop claims is filled.
pub open spec fn next_is_filled(acc: Account) -> bool {
    acc.reserves < acc.progress.len() && acc.progress[acc.reserves] == committed()
}

/// What a pop knows.
pub open spec fn pop_agrees<T>(
    params: QueueParameters,
    elems: Seq<T>,
    acc: Account,
    op: PopOp<T>,
) -> bool {
    &&& op.state.wf(params)
    &&& op.state.waits_for(params, op.access)
    &&& match op.state {
        PopState::Head => true,
        PopState::Reserved { head } => block_named(params, head) <= acc.reserved,
        PopState::Committed { head, reserved } => {
            &&& block_named(params, head) <= acc.reserved
            &&& not_past(reserved, standing(params, acc, head.index as int))
        },
        PopState::Allocated { head, reserved, committed } => {
            &&& block_named(params, head) <= acc.reserved
            &&& not_past(reserved, standing(params, acc, head.index as int))
            &&& reserved == standing(params, acc, head.index as int) ==> reserved.offset
                < committed.offset < params.block_size && committed.offset <= filled_slots(
                params,
                acc,
            )
        },
        PopState::RaiseReserved { head, reserved } => {
            &&& block_named(params, head) <= acc.reserved
            &&& not_past(reserved, standing(params, acc, head.index as int))
            &&& reserved == standing(params, acc, head.index as int) ==> next_is_filled(acc)
        },
        PopState::Take { entry } => {
            &&& 0 <= op.number < acc.reserves
            &&& entry_has_number(params, entry, op.number)
            &&& acc.progress[op.number] == reserved()
        },
        PopState::Consume { entry, elem } => {
            &&& 0 <= op.number < acc.reserves
            &&& entry_has_number(params, entry, op.number)
            &&& acc.progress[op.number] == taken()
            &&& elem == elems[op.number]
        },
        PopState::NextCommitted { head } => used_up(params, acc, head),
        PopState::RaiseConsumed { head } => used_up(params, acc, head) && acc.committed
            > block_named(params, head),
        PopState::RaiseNextReserved { head } => used_up(params, acc, head) && acc.consumed
            > block_named(params, head),
        PopState::RaiseHead { head } => acc.reserved > block_named(params, head),
    }
}

/// A push that is under way holds slot number `p`.
pub open spec fn push_holds<T>(s: System<T>, id: int, p: int) -> bool {
    s.pushes.dom().contains(id) && s.pushes[id].entry() is Some && s.pushes[id].number == p
}

/// A pop that is under way holds slot number `p`.
pub open spec fn pop_holds<T>(s: System<T>, id: int, p: int) -> bool {
    s.pops.dom().contains(id) && s.pops[id].entry() is Some && s.pops[id].number == p
}

/// Every slot that is on its way has an operation that holds it.
pub open spec fn slots_are_held<T>(s: System<T>, acc: Account) -> bool {
    &&& forall|p: int|
        0 <= p < acc.progress.len() && #[trigger] acc.progress[p] <= written() ==> exists|id: int|
            push_holds(s, id, p)
    &&& forall|p: int|
        0 <= p < acc.progress.len() && reserved() <= #[trigger] acc.progress[p] <= taken()
            ==> exists|id: int| pop_holds(s, id, p)
}

/// The queue and all of its operations agree with the account.
pub open spec fn system_agrees<T>(params: QueueParameters, s: System<T>, acc: Account) -> bool {
    &&& agrees(params, s.memory, s.elems, acc)
    &&& s.reserves == acc.reserves
    &&& slots_are_held(s, acc)
    &&& forall|p: int| #[trigger]
        s.returned.contains(p) <==> 0 <= p < acc.progress.len() && acc.progress[p] == consumed()
    &&& forall|id: int|
        s.pushes.dom().contains(id) ==> push_agrees(params, s.elems, acc, #[trigger] s.pushes[id])
    &&& forall|id: int|
        s.pops.dom().contains(id) ==> pop_agrees(params, s.elems, acc, #[trigger] s.pops[id])
    &&& forall|a: int, b: int|
        a != b && s.pushes.dom().contains(a) && s.pushes.dom().contains(b) && (
        #[trigger] s.pushes[a]).entry() is Some && (#[trigger] s.pushes[b]).entry() is Some
            ==> s.pushes[a].number != s.pushes[b].number
    &&& forall|a: int, b: int|
        a != b && s.pops.dom().contains(a) && s.pops.dom().contains(b) && (
        #[trigger] s.pops[a]).entry() is Some && (#[trigger] s.pops[b]).entry() is Some
            ==> s.pops[a].number != s.pops[b].number
}

/// A later account: blocks are opened one after the other, and slots come
/// further. Only slot number `p` has done so.
pub open spec fn follows<T>(
    params: QueueParameters,
    elems: Seq<T>,
    acc: Account,
    elems2: Seq<T>,
    acc2: Account,
    p: int,
) -> bool {
    &&& elems.len() == acc.progress.len()
    &&& elems2.len() == acc2.progress.len()
    &&& blocks_in_order(params, acc)
    &&& slots_in_order(params, acc)
    &&& blocks_in_order(params, acc2)
    &&& slots_in_order(params, acc2)
    &&& elems.is_prefix_of(elems2)
    &&& acc.reserves <= acc2.reserves
    &&& acc.allocated <= acc2.allocated
    &&& acc.committed <= acc2.committed
    &&& acc.reserved <= acc2.reserved
    &&& acc.consumed <= acc2.consumed
    &&& forall|q: int|
        0 <= q < acc.progress.len() ==> acc.progress[q] <= #[trigger] acc2.progress[q]
    &&& forall|q: int|
        0 <= q < acc.progress.len() && q != p ==> acc.progress[q] == #[trigger] acc2.progress[q]
}

// ---------------------------------------------------------------------------
// What an operation knows stays true while others have their turns
// ---------------------------------------------------------------------------

/// Counts do not fall.
proof fn lemma_counted_grows(a: Seq<int>, b: Seq<int>, from: int, to: int, level: int)
    requires
        0 <= from,
        a.len() <= b.len(),
        forall|q: int| 0 <= q < a.len() ==> a[q] <= #[trigger] b[q],
    ensures
        counted(a, from, to, level) <= counted(b, from, to, level),
    decreases to - from,
{
    if from < to {
        lemma_counted_grows(a, b, from, to - 1, level);
    }
}

/// What a push knows stays true.
proof fn lemma_push_stays<T>(
    params: QueueParameters,
    elems: Seq<T>,
    acc: Account,
    elems2: Seq<T>,
    acc2: Account,
    p: int,
    op: PushOp<T>,
)
    requires
        params.wf(),
        params.holds_elements(),
        follows(params, elems, acc, elems2, acc2, p),
        push_agrees(params, elems, acc, op),
        op.entry() is Some ==> op.number != p,
    ensures
        push_agrees(params, elems2, acc2, op),
{
    match op.state {
        PushState::RaiseCommitted { head, .. } => {
            if acc.committed <= block_named(params, head) && acc2.committed <= block_named(
                params,
                head,
            ) {
                let n = params.num_blocks as int;
                let size = params.block_size as int;
                let l = block_named(params, head);
                assert((l + 2 - n) * size <= l * size + size) by (nonlinear_arith)
                    requires
                        n >= 1,
                        size > 0,
                ;
                assert forall|q: int|
                    0 <= q < acc2.progress.len() && q < (l + 2 - n)
                        * size implies #[trigger] acc2.progress[q] == consumed() by {
                    assert(acc.progress[q] == consumed());
                }
            }
        },
        _ => {},
    }
}

/// While the reserved cursor stands where a pop has read it, no slot was claimed
/// by a pop.
proof fn lemma_still_standing<T>(
    params: QueueParameters,
    elems: Seq<T>,
    acc: Account,
    elems2: Seq<T>,
    acc2: Account,
    p: int,
    i: int,
    cursor: UnpackedCursor,
)
    requires
        params.wf(),
        params.holds_elements(),
        follows(params, elems, acc, elems2, acc2, p),
        0 <= i < params.num_blocks,
        not_past(cursor, standing(params, acc, i)),
    ensures
        not_past(cursor, standing(params, acc2, i)),
        cursor == standing(params, acc2, i) && cursor.offset < params.block_size ==> cursor
            == standing(params, acc, i) && acc2.reserves == acc.reserves && acc2.reserved
            == acc.reserved,
{
    let n = params.num_blocks as int;
    let size = params.block_size as int;
    lemma_laps_in_range(params, acc.committed, acc.reserves, acc.reserved, i);
    lemma_laps_in_range(params, acc2.committed, acc2.reserves, acc2.reserved, i);
    lemma_version_monotone(n, acc.reserved, acc2.reserved, i);
    lemma_split(acc2.reserved, n);
    lemma_split(acc.reserved, n);
    lemma_version_tells(n, acc.reserved, acc2.reserved);
    lemma_block_is_latest(n, acc2.reserved, acc2.reserved);
    if version_at(n, acc.reserved, i) == version_at(n, acc2.reserved, i) {
        if i == acc2.reserved % n {
            assert(acc.reserved == acc2.reserved);
        }
    }
}

/// What a pop knows stays true.
proof fn lemma_pop_stays<T>(
    params: QueueParameters,
    elems: Seq<T>,
    acc: Account,
    elems2: Seq<T>,
    acc2: Account,
    p: int,
    op: PopOp<T>,
)
    requires
        params.wf(),
        params.holds_elements(),
        follows(params, elems, acc, elems2, acc2, p),
        pop_agrees(params, elems, acc, op),
        op.entry() is Some ==> op.number != p,
    ensures
        pop_agrees(params, elems2, acc2, op),
{
    match op.state {
        PopState::Committed { head, reserved } => {
            lemma_still_standing(
                params,
                elems,
                acc,
                elems2,
                acc2,
                p,
                head.index as int,
                reserved,
            );
        },
        PopState::Allocated { head, reserved, committed } => {
            lemma_still_standing(
                params,
                elems,
                acc,
                elems2,
                acc2,
                p,
                head.index as int,
                reserved,
            );
            let start = acc.reserved * params.block_size;
            assert(start >= 0) by (nonlinear_arith)
                requires
                    start == acc.reserved * params.block_size,
                    acc.reserved >= 0,
                    params.block_size >= 0,
            ;
            lemma_counted_grows(
                acc.progress,
                acc2.progress,
                start,
                start + params.block_size,
                crate::sync::account::committed(),
            );
        },
        PopState::RaiseReserved { head, reserved } => {
            lemma_still_standing(
                params,
                elems,
                acc,
                elems2,
                acc2,
                p,
                head.index as int,
                reserved,
            );
            if reserved == standing(params, acc2, head.index as int) {
                assert(acc2.progress[acc.reserves] >= acc.progress[acc.reserves]);
            }
        },
        _ => {},
    }
}

// ---------------------------------------------------------------------------
// The turn of a push
// ---------------------------------------------------------------------------

/// Where the allocated cursor of a block has reached the end, the block and
/// those before are filled up.
proof fn lemma_filled_up(
    params: QueueParameters,
    word: usize,
    acc: Account,
    head: UnpackedHead,
)
    requires
        params.wf(),
        params.holds_elements(),
        blocks_in_order(params, acc),
        head_ok(params, head),
        counts_claims(params, word, acc, head.index as int),
        block_named(params, head) <= acc.allocated,
        claims_at(params, word, acc, head.index as int) >= params.block_size,
    ensures
        filled_up(params, acc, head),
{
    let n = params.num_blocks as int;
    let size = params.block_size as int;
    let l = block_named(params, head);
    lemma_next_named(params, head);
    if l < acc.allocated {
        assert(l * size + size <= acc.allocated * size) by (nonlinear_arith)
            requires
                l + 1 <= acc.allocated,
                size > 0,
        ;
    }
}

/// Where a block was opened in the committed cursor, and the claims on the block
/// that it replaces have used up all offsets, the allocated cursor stands at the
/// start of the block as if it had been opened there too.
proof fn lemma_opened_by_claims<T>(
    params: QueueParameters,
    memory: Memory<T>,
    elems: Seq<T>,
    acc: Account,
    i: int,
) -> (opened: Account)
    requires
        params.wf(),
        params.holds_elements(),
        agrees(params, memory, elems, acc),
        0 <= i < params.num_blocks,
        claims_at(params, memory.blocks[i].allocated, acc, i) == params.offsets(),
        !ran_over(params, memory.blocks[i]),
    ensures
        opened == (Account { allocated: acc.allocated + 1, ..acc }),
        agrees(params, memory, elems, opened),
        claims_at(params, memory.blocks[i].allocated, opened, i) == 0,
        params.cursor_of(memory.blocks[i].allocated).offset == 0,
{
    let n = params.num_blocks as int;
    let l = acc.allocated;
    let head = lap_head(params, l);
    let b = memory.blocks[i];
    params.lemma_layout();
    assert(block_agrees(params, b, elems, acc, i));
    lemma_claims_read(params, b.allocated, acc, i);
    lemma_tally_in_range(params, acc.progress, acc.committed, acc.committed, i, committed());
    let cursor = tally(params, acc.progress, acc.committed, i, committed());
    params.lemma_cursor_round_trip(cursor);
    lemma_next_block(n, l, i);
    assert(acc.committed == l + 1 && i == (l + 1) % n);
    lemma_version_of_monotone(n, l, acc.committed);
    lemma_named(params, l);
    lemma_next_named(params, head);
    lemma_open_allocated(params, memory, elems, acc, head);
    params.lemma_cursor_round_trip(next_start(head));
    let raised = memory.with_block(
        i,
        b.with_word(
            Field::Allocated,
            max_word(params.cursor_word(next_start(head)), b.allocated),
        ),
    );
    assert(raised.blocks =~= memory.blocks);
    assert(raised == memory);
    Account { allocated: l + 1, ..acc }
}

/// Where the consumed cursor of the next block has reached the end, the next
/// block may be opened.
proof fn lemma_may_open(params: QueueParameters, acc: Account, head: UnpackedHead)
    requires
        params.wf(),
        params.holds_elements(),
        blocks_in_order(params, acc),
        slots_in_order(params, acc),
        head_ok(params, head),
        filled_up(params, acc, head),
        !next_block_in_use(
            params,
            head,
            tally(
                params,
                acc.progress,
                acc.consumed,
                next_index(params, head) as int,
                consumed(),
            ),
        ),
    ensures
        may_open(params, acc, head),
{
    let n = params.num_blocks as int;
    let size = params.block_size as int;
    let l = block_named(params, head);
    let j = next_index(params, head) as int;
    lemma_next_named(params, head);
    lemma_tally_in_range(params, acc.progress, acc.committed, acc.consumed, j, consumed());
    if acc.committed <= l {
        // the block that the next one replaces
        let r = l + 1 - n;
        lemma_version_tells(n, acc.consumed, l + 1);
        assert(l <= acc.allocated) by {
            if l > acc.allocated {
                assert(acc.allocated * size + size <= l * size) by (nonlinear_arith)
                    requires
                        acc.allocated + 1 <= l,
                        size > 0,
                ;
            }
        }
        assert(acc.committed == l);
        assert((l + 2 - n) * size == r * size + size) by (nonlinear_arith)
            requires
                r == l + 1 - n,
        ;
        if r >= 0 {
            lemma_split(r, n);
            lemma_split(l + 1, n);
            assert((l + 1) % n == r % n && version_of(n, r) == head.version) by {
                let q = r / n;
                assert((q + 1) * n == q * n + n) by (nonlinear_arith);
                lemma_quotient(l + 1, n, q + 1, r % n);
            }
            lemma_version_tells(n, acc.consumed, r);
            lemma_block_is_latest(n, acc.consumed, r);
            lemma_counted_all(acc.progress, r * size, r * size + size, consumed());
            assert forall|p: int|
                0 <= p < acc.progress.len() && p < (l + 2 - n)
                    * size implies #[trigger] acc.progress[p] == consumed() by {
                if p >= r * size {
                    assert(acc.progress[p] >= consumed());
                }
            }
        } else {
            assert((l + 2 - n) * size <= 0) by (nonlinear_arith)
                requires
                    l + 2 - n <= 0,
                    size > 0,
            ;
        }
    }
}

/// What the turn of a push leads to.
pub open spec fn push_turn_ends_well<T>(
    params: QueueParameters,
    memory: Memory<T>,
    elems: Seq<T>,
    acc: Account,
    op: PushOp<T>,
    acc2: Account,
) -> bool {
    let (memory2, reply) = op.access.performed(params, memory);
    let elems2 = if op.claims(params, reply) {
        elems.push(op.elem)
    } else {
        elems
    };
    &&& agrees(params, memory2, elems2, acc2)
    &&& acc2.reserves == acc.reserves
    &&& op.state is Commit ==> acc2.progress[op.number] == committed()
    &&& follows(
        params,
        elems,
        acc,
        elems2,
        acc2,
        if op.entry() is Some {
            op.number
        } else {
            -1
        },
    )
    &&& op.state.resumed(params, reply) matches PushStep::Next(state, access) ==> push_agrees(
        params,
        elems2,
        acc2,
        PushOp {
            state,
            access,
            elem: op.elem,
            number: if op.claims(params, reply) {
                elems.len() as int
            } else {
                op.number
            },
            replies: op.replies.push(reply),
        },
    )
}

/// The last block that is opened in its allocated cursor after the turn of a push.
pub open spec fn allocated_after<T>(
    params: QueueParameters,
    memory: Memory<T>,
    acc: Account,
    op: PushOp<T>,
) -> int {
    match op.state {
        PushState::Claim { head, .. } => if claims_at(
            params,
            memory.blocks[head.index as int].allocated,
            acc,
            head.index as int,
        ) == params.offsets() {
            acc.allocated + 1
        } else {
            acc.allocated
        },
        PushState::RaiseAllocated { head, .. } => later(
            acc.allocated,
            block_named(params, head) + 1,
        ),
        _ => acc.allocated,
    }
}

/// The block that the producer head names after the turn of a push.
pub open spec fn producer_after<T>(params: QueueParameters, acc: Account, op: PushOp<T>) -> int {
    match op.state {
        PushState::RaiseHead { head, .. } => later(acc.producer, block_named(params, head) + 1),
        _ => acc.producer,
    }
}

/// The last block that is opened in its committed cursor after the turn of a push.
pub open spec fn committed_after<T>(params: QueueParameters, acc: Account, op: PushOp<T>) -> int {
    match op.state {
        PushState::RaiseCommitted { head, .. } => later(
            acc.committed,
            block_named(params, head) + 1,
        ),
        _ => acc.committed,
    }
}

/// The block that the consumer head names after the turn of a pop.
pub open spec fn consumer_after<T>(params: QueueParameters, acc: Account, op: PopOp<T>) -> int {
    match op.state {
        PopState::RaiseHead { head } => later(acc.consumer, block_named(params, head) + 1),
        _ => acc.consumer,
    }
}

/// The last block that is entered in its reserved cursor after the turn of a pop.
pub open spec fn reserved_after<T>(params: QueueParameters, acc: Account, op: PopOp<T>) -> int {
    match op.state {
        PopState::RaiseNextReserved { head } => later(acc.reserved, block_named(params, head) + 1),
        _ => acc.reserved,
    }
}

/// The last block that is entered in its consumed cursor after the turn of a pop.
pub open spec fn consumed_after<T>(params: QueueParameters, acc: Account, op: PopOp<T>) -> int {
    match op.state {
        PopState::RaiseConsumed { head } => later(acc.consumed, block_named(params, head) + 1),
        _ => acc.consumed,
    }
}

/// A push reads the producer head.
proof fn lemma_push_head_acts<T>(
    params: QueueParameters,
    memory: Memory<T>,
    elems: Seq<T>,
    acc: Account,
    op: PushOp<T>,
) -> (acc2: Account)
    requires
        params.wf(),
        params.holds_elements(),
        agrees(params, memory, elems, acc),
        push_agrees(params, elems, acc, op),
        op.state is Head,
    ensures
        push_turn_ends_well(params, memory, elems, acc, op, acc2),
        acc2.allocated == allocated_after(params, memory, acc, op),
        acc2.producer == producer_after(params, acc, op),
        acc2.committed == committed_after(params, acc, op),
        acc2.consumer == acc.consumer,
        acc2.reserved == acc.reserved,
        acc2.consumed == acc.consumed,
{
    let n = params.num_blocks as int;
    params.lemma_layout();
    lemma_version_of_monotone(n, acc.producer, acc.committed);
    lemma_named(params, acc.producer);
    acc
}

/// A push reads the allocated cursor of its block.
proof fn lemma_push_check_acts<T>(
    params: QueueParameters,
    memory: Memory<T>,
    elems: Seq<T>,
    acc: Account,
    op: PushOp<T>,
) -> (acc2: Account)
    requires
        params.wf(),
        params.holds_elements(),
        agrees(params, memory, elems, acc),
        push_agrees(params, elems, acc, op),
        op.state is Check,
    ensures
        push_turn_ends_well(params, memory, elems, acc, op, acc2),
        acc2.allocated == allocated_after(params, memory, acc, op),
        acc2.producer == producer_after(params, acc, op),
        acc2.committed == committed_after(params, acc, op),
        acc2.consumer == acc.consumer,
        acc2.reserved == acc.reserved,
        acc2.consumed == acc.consumed,
{
    let size = params.block_size as int;
    params.lemma_layout();
    let head = op.state->Check_head;
    let b = memory.blocks[head.index as int];
    assert(block_agrees(params, b, elems, acc, head.index as int));
    lemma_claims_read(params, b.allocated, acc, head.index as int);
    if params.cursor_of(b.allocated).offset >= size {
        lemma_filled_up(params, b.allocated, acc, head);
    }
    acc
}

/// A push counts up the allocated cursor of its block.
proof fn lemma_push_claim_acts<T>(
    params: QueueParameters,
    memory: Memory<T>,
    elems: Seq<T>,
    acc: Account,
    op: PushOp<T>,
) -> (acc2: Account)
    requires
        params.wf(),
        params.holds_elements(),
        agrees(params, memory, elems, acc),
        push_agrees(params, elems, acc, op),
        op.state is Claim,
        !op.overflows(params, memory),
    ensures
        push_turn_ends_well(params, memory, elems, acc, op, acc2),
        acc2.allocated == allocated_after(params, memory, acc, op),
        acc2.producer == producer_after(params, acc, op),
        acc2.committed == committed_after(params, acc, op),
        acc2.consumer == acc.consumer,
        acc2.reserved == acc.reserved,
        acc2.consumed == acc.consumed,
{
    let size = params.block_size as int;
    params.lemma_layout();
    let head = op.state->Claim_head;
    let i = head.index as int;
    let b = memory.blocks[i];
    assert(block_agrees(params, b, elems, acc, i));
    lemma_claims_read(params, b.allocated, acc, i);
    if params.cursor_of(b.allocated).offset >= size {
        lemma_filled_up(params, b.allocated, acc, head);
        lemma_miss(params, memory, elems, acc, i);
        acc
    } else if claims_at(params, b.allocated, acc, i) < size {
        lemma_claim(params, memory, elems, acc, i, op.elem);
        with_claim(acc)
    } else {
        let opened = lemma_opened_by_claims(params, memory, elems, acc, i);
        lemma_claim(params, memory, elems, opened, i, op.elem);
        with_claim(opened)
    }
}

/// A push fills its slot.
proof fn lemma_push_write_acts<T>(
    params: QueueParameters,
    memory: Memory<T>,
    elems: Seq<T>,
    acc: Account,
    op: PushOp<T>,
) -> (acc2: Account)
    requires
        params.wf(),
        params.holds_elements(),
        agrees(params, memory, elems, acc),
        push_agrees(params, elems, acc, op),
        op.state is Write,
    ensures
        push_turn_ends_well(params, memory, elems, acc, op, acc2),
        acc2.allocated == allocated_after(params, memory, acc, op),
        acc2.producer == producer_after(params, acc, op),
        acc2.committed == committed_after(params, acc, op),
        acc2.consumer == acc.consumer,
        acc2.reserved == acc.reserved,
        acc2.consumed == acc.consumed,
{
    params.lemma_layout();
    lemma_write(params, memory, elems, acc, op.number);
    advanced(acc, op.number)
}

/// A push counts its slot as filled.
proof fn lemma_push_commit_acts<T>(
    params: QueueParameters,
    memory: Memory<T>,
    elems: Seq<T>,
    acc: Account,
    op: PushOp<T>,
) -> (acc2: Account)
    requires
        params.wf(),
        params.holds_elements(),
        agrees(params, memory, elems, acc),
        push_agrees(params, elems, acc, op),
        op.state is Commit,
    ensures
        push_turn_ends_well(params, memory, elems, acc, op, acc2),
        acc2.allocated == allocated_after(params, memory, acc, op),
        acc2.producer == producer_after(params, acc, op),
        acc2.committed == committed_after(params, acc, op),
        acc2.consumer == acc.consumer,
        acc2.reserved == acc.reserved,
        acc2.consumed == acc.consumed,
{
    params.lemma_layout();
    lemma_commit(params, memory, elems, acc, op.number);
    advanced(acc, op.number)
}

/// A push reads the consumed cursor of the next block.
proof fn lemma_push_consumed_acts<T>(
    params: QueueParameters,
    memory: Memory<T>,
    elems: Seq<T>,
    acc: Account,
    op: PushOp<T>,
) -> (acc2: Account)
    requires
        params.wf(),
        params.holds_elements(),
        agrees(params, memory, elems, acc),
        push_agrees(params, elems, acc, op),
        op.state is Consumed,
    ensures
        push_turn_ends_well(params, memory, elems, acc, op, acc2),
        acc2.allocated == allocated_after(params, memory, acc, op),
        acc2.producer == producer_after(params, acc, op),
        acc2.committed == committed_after(params, acc, op),
        acc2.consumer == acc.consumer,
        acc2.reserved == acc.reserved,
        acc2.consumed == acc.consumed,
{
    params.lemma_layout();
    let head = op.state->Consumed_head;
    let j = next_index(params, head) as int;
    lemma_next_named(params, head);
    assert(block_agrees(params, memory.blocks[j], elems, acc, j));
    lemma_tally_in_range(params, acc.progress, acc.committed, acc.consumed, j, consumed());
    let cursor = tally(params, acc.progress, acc.consumed, j, consumed());
    if !next_block_in_use(params, head, cursor) {
        lemma_may_open(params, acc, head);
    }
    acc
}

/// A push reads the reserved cursor of the next block.
proof fn lemma_push_reserved_acts<T>(
    params: QueueParameters,
    memory: Memory<T>,
    elems: Seq<T>,
    acc: Account,
    op: PushOp<T>,
) -> (acc2: Account)
    requires
        params.wf(),
        params.holds_elements(),
        agrees(params, memory, elems, acc),
        push_agrees(params, elems, acc, op),
        op.state is Reserved,
    ensures
        push_turn_ends_well(params, memory, elems, acc, op, acc2),
        acc2.allocated == allocated_after(params, memory, acc, op),
        acc2.producer == producer_after(params, acc, op),
        acc2.committed == committed_after(params, acc, op),
        acc2.consumer == acc.consumer,
        acc2.reserved == acc.reserved,
        acc2.consumed == acc.consumed,
{
    params.lemma_layout();
    acc
}

/// A push opens the next block in the committed cursor.
proof fn lemma_push_raise_committed_acts<T>(
    params: QueueParameters,
    memory: Memory<T>,
    elems: Seq<T>,
    acc: Account,
    op: PushOp<T>,
) -> (acc2: Account)
    requires
        params.wf(),
        params.holds_elements(),
        agrees(params, memory, elems, acc),
        push_agrees(params, elems, acc, op),
        op.state is RaiseCommitted,
        !op.overflows(params, memory),
    ensures
        push_turn_ends_well(params, memory, elems, acc, op, acc2),
        acc2.allocated == allocated_after(params, memory, acc, op),
        acc2.producer == producer_after(params, acc, op),
        acc2.committed == committed_after(params, acc, op),
        acc2.consumer == acc.consumer,
        acc2.reserved == acc.reserved,
        acc2.consumed == acc.consumed,
{
    params.lemma_layout();
    let head = op.state->RaiseCommitted_head;
    lemma_open_committed(params, memory, elems, acc, head);
    Account { committed: later(acc.committed, block_named(params, head) + 1), ..acc }
}

/// A push opens the next block in the allocated cursor.
proof fn lemma_push_raise_allocated_acts<T>(
    params: QueueParameters,
    memory: Memory<T>,
    elems: Seq<T>,
    acc: Account,
    op: PushOp<T>,
) -> (acc2: Account)
    requires
        params.wf(),
        params.holds_elements(),
        agrees(params, memory, elems, acc),
        push_agrees(params, elems, acc, op),
        op.state is RaiseAllocated,
    ensures
        push_turn_ends_well(params, memory, elems, acc, op, acc2),
        acc2.allocated == allocated_after(params, memory, acc, op),
        acc2.producer == producer_after(params, acc, op),
        acc2.committed == committed_after(params, acc, op),
        acc2.consumer == acc.consumer,
        acc2.reserved == acc.reserved,
        acc2.consumed == acc.consumed,
{
    params.lemma_layout();
    let head = op.state->RaiseAllocated_head;
    lemma_open_allocated(params, memory, elems, acc, head);
    Account { allocated: later(acc.allocated, block_named(params, head) + 1), ..acc }
}

/// A push raises the producer head.
proof fn lemma_push_raise_head_acts<T>(
    params: QueueParameters,
    memory: Memory<T>,
    elems: Seq<T>,
    acc: Account,
    op: PushOp<T>,
) -> (acc2: Account)
    requires
        params.wf(),
        params.holds_elements(),
        agrees(params, memory, elems, acc),
        push_agrees(params, elems, acc, op),
        op.state is RaiseHead,
    ensures
        push_turn_ends_well(params, memory, elems, acc, op, acc2),
        acc2.allocated == allocated_after(params, memory, acc, op),
        acc2.producer == producer_after(params, acc, op),
        acc2.committed == committed_after(params, acc, op),
        acc2.consumer == acc.consumer,
        acc2.reserved == acc.reserved,
        acc2.consumed == acc.consumed,
{
    params.lemma_layout();
    let head = op.state->RaiseHead_head;
    lemma_raise_head(params, memory, elems, acc, End::Producer, head);
    Account { producer: later(acc.producer, block_named(params, head) + 1), ..acc }
}

/// A push has its turn.
proof fn lemma_push_acts<T>(
    params: QueueParameters,
    memory: Memory<T>,
    elems: Seq<T>,
    acc: Account,
    op: PushOp<T>,
) -> (acc2: Account)
    requires
        params.wf(),
        params.holds_elements(),
        agrees(params, memory, elems, acc),
        push_agrees(params, elems, acc, op),
        !op.overflows(params, memory),
    ensures
        push_turn_ends_well(params, memory, elems, acc, op, acc2),
        acc2.allocated == allocated_after(params, memory, acc, op),
        acc2.producer == producer_after(params, acc, op),
        acc2.committed == committed_after(params, acc, op),
        acc2.consumer == acc.consumer,
        acc2.reserved == acc.reserved,
        acc2.consumed == acc.consumed,
{
    match op.state {
        PushState::Head { .. } => lemma_push_head_acts(params, memory, elems, acc, op),
        PushState::Check { .. } => lemma_push_check_acts(params, memory, elems, acc, op),
        PushState::Claim { .. } => lemma_push_claim_acts(params, memory, elems, acc, op),
        PushState::Write { .. } => lemma_push_write_acts(params, memory, elems, acc, op),
        PushState::Commit { .. } => lemma_push_commit_acts(params, memory, elems, acc, op),
        PushState::Consumed { .. } => lemma_push_consumed_acts(params, memory, elems, acc, op),
        PushState::Reserved { .. } => lemma_push_reserved_acts(params, memory, elems, acc, op),
        PushState::RaiseCommitted { .. } => lemma_push_raise_committed_acts(params, memory, elems, acc, op),
        PushState::RaiseAllocated { .. } => lemma_push_raise_allocated_acts(params, memory, elems, acc, op),
        PushState::RaiseHead { .. } => lemma_push_raise_head_acts(params, memory, elems, acc, op),
    }
}

// ---------------------------------------------------------------------------
// The turn of a pop
// ---------------------------------------------------------------------------

/// Where the reserved cursor of a block has reached the end, the block and
/// those before are used up.
proof fn lemma_used_up(params: QueueParameters, acc: Account, head: UnpackedHead)
    requires
        params.wf(),
        params.holds_elements(),
        blocks_in_order(params, acc),
        head_ok(params, head),
        block_named(params, head) <= acc.reserved,
        standing(params, acc, head.index as int).offset >= params.block_size,
    ensures
        used_up(params, acc, head),
{
    let size = params.block_size as int;
    let l = block_named(params, head);
    lemma_next_named(params, head);
    lemma_laps_in_range(params, acc.committed, acc.reserves, acc.reserved, head.index as int);
    if l < acc.reserved {
        assert(l * size + size <= acc.reserved * size) by (nonlinear_arith)
            requires
                l + 1 <= acc.reserved,
                size > 0,
        ;
    }
}

/// Where the reserved cursor stands within a block, that block is the one that
/// consumers are in, and producers have not come around to it again.
pub proof fn lemma_within(params: QueueParameters, acc: Account, i: int)
    requires
        params.wf(),
        params.holds_elements(),
        blocks_in_order(params, acc),
        0 <= i < params.num_blocks,
        standing(params, acc, i).offset < params.block_size,
    ensures
        ({
            let n = params.num_blocks as int;
            let size = params.block_size as int;
            &&& i == acc.reserved % n
            &&& acc.reserves == acc.reserved * size + standing(params, acc, i).offset
            &&& acc.committed < acc.reserved + n
            &&& block_at(n, acc.committed, i) == acc.reserved
        }),
{
    let n = params.num_blocks as int;
    let size = params.block_size as int;
    lemma_laps_in_range(params, acc.committed, acc.reserves, acc.reserved, i);
    lemma_number_in_block(size, acc.reserves, acc.reserved);
    lemma_number_before(size, acc.reserves, acc.committed + 1 - n);
    lemma_block_is_latest(n, acc.committed, acc.reserved);
}

/// The slots that pops have claimed in a block are among the filled ones.
proof fn lemma_filled_reaches(params: QueueParameters, acc: Account)
    requires
        params.wf(),
        params.holds_elements(),
        blocks_in_order(params, acc),
        slots_in_order(params, acc),
    ensures
        acc.reserves - acc.reserved * params.block_size <= filled_slots(params, acc)
            <= params.block_size,
{
    let size = params.block_size as int;
    let start = acc.reserved * size;
    assert(start >= 0) by (nonlinear_arith)
        requires
            start == acc.reserved * size,
            acc.reserved >= 0,
            size > 0,
    ;
    lemma_counted_split(acc.progress, start, acc.reserves, start + size, committed());
    lemma_counted_full(acc.progress, start, acc.reserves, committed());
    lemma_counted_bounds(acc.progress, acc.reserves, start + size, committed());
    lemma_counted_bounds(acc.progress, start, start + size, committed());
}

/// Where the slots from the start of a block up to the last claimed one are all
/// filled, the next slot that a pop claims is filled.
proof fn lemma_next_is_filled(params: QueueParameters, acc: Account, end: int)
    requires
        params.wf(),
        params.holds_elements(),
        blocks_in_order(params, acc),
        slots_in_order(params, acc),
        acc.reserves < end <= acc.reserved * params.block_size + params.block_size,
        end < acc.reserved * params.block_size + params.block_size ==> end == acc.progress.len(),
        filled_slots(params, acc) >= end - acc.reserved * params.block_size,
    ensures
        next_is_filled(acc),
{
    let size = params.block_size as int;
    let start = acc.reserved * size;
    lemma_counted_split(acc.progress, start, end, start + size, committed());
    if end < start + size {
        lemma_counted_beyond(acc.progress, end, start + size, committed());
    }
    lemma_counted_bounds(acc.progress, start, end, committed());
    lemma_counted_all(acc.progress, start, end, committed());
    assert(acc.progress[acc.reserves] >= committed());
}

/// A pop that reads the committed cursor of its block.
proof fn lemma_committed_read<T>(
    params: QueueParameters,
    memory: Memory<T>,
    elems: Seq<T>,
    acc: Account,
    op: PopOp<T>,
    head: UnpackedHead,
    reserved: UnpackedCursor,
)
    requires
        params.wf(),
        params.holds_elements(),
        agrees(params, memory, elems, acc),
        pop_agrees(params, elems, acc, op),
        op.state == (PopState::<T>::Committed { head, reserved }),
    ensures
        pop_turn_ends_well(params, memory, elems, acc, op, acc),
{
    let n = params.num_blocks as int;
    let size = params.block_size as int;
    let i = head.index as int;
    assert(block_agrees(params, memory.blocks[i], elems, acc, i));
    lemma_tally_in_range(params, acc.progress, acc.committed, acc.committed, i, committed());
    if reserved == standing(params, acc, i) {
        lemma_within(params, acc, i);
        lemma_filled_reaches(params, acc);
        let cursor = tally(params, acc.progress, acc.committed, i, committed());
        assert(cursor.offset == filled_slots(params, acc));
        if cursor.offset == size {
            lemma_next_is_filled(params, acc, acc.reserved * size + size);
        }
    }
}

/// A pop that reads the allocated cursor of its block.
proof fn lemma_allocated_read<T>(
    params: QueueParameters,
    memory: Memory<T>,
    elems: Seq<T>,
    acc: Account,
    op: PopOp<T>,
    head: UnpackedHead,
    reserved: UnpackedCursor,
    committed: UnpackedCursor,
)
    requires
        params.wf(),
        params.holds_elements(),
        agrees(params, memory, elems, acc),
        pop_agrees(params, elems, acc, op),
        op.state == (PopState::<T>::Allocated { head, reserved, committed }),
    ensures
        pop_turn_ends_well(params, memory, elems, acc, op, acc),
{
    let n = params.num_blocks as int;
    let size = params.block_size as int;
    let i = head.index as int;
    let b = memory.blocks[i];
    assert(block_agrees(params, b, elems, acc, i));
    let cursor = params.cursor_of(b.allocated);
    lemma_claims_read(params, b.allocated, acc, i);
    if reserved == standing(params, acc, i) && cursor.offset == committed.offset {
        lemma_within(params, acc, i);
        // the block that producers are in is the one that consumers are in
        assert(acc.allocated == acc.reserved) by {
            lemma_split(acc.allocated, n);
            lemma_split(acc.reserved, n);
            let d = acc.allocated / n - acc.reserved / n;
            assert(acc.allocated - acc.reserved == d * n) by (nonlinear_arith)
                requires
                    acc.allocated == (acc.allocated / n) * n + i,
                    acc.reserved == (acc.reserved / n) * n + i,
                    d == acc.allocated / n - acc.reserved / n,
            ;
            assert(-1 <= acc.allocated - acc.reserved < n);
            if d >= 1 {
                assert(d * n >= n) by (nonlinear_arith)
                    requires
                        d >= 1,
                        n >= 1,
                ;
            }
            if d <= -1 {
                assert(d * n <= -n) by (nonlinear_arith)
                    requires
                        d <= -1,
                        n >= 1,
                ;
                assert(acc.committed == acc.allocated + 1);
            }
        }
        lemma_next_is_filled(params, acc, acc.progress.len() as int);
    }
}

/// What the turn of a pop leads to.
pub open spec fn pop_turn_ends_well<T>(
    params: QueueParameters,
    memory: Memory<T>,
    elems: Seq<T>,
    acc: Account,
    op: PopOp<T>,
    acc2: Account,
) -> bool {
    let (memory2, reply) = op.access.performed(params, memory);
    &&& agrees(params, memory2, elems, acc2)
    &&& op.claims(reply) ==> next_is_filled(acc)
    &&& forall|q: int|
        0 <= q < acc.progress.len() ==> (#[trigger] acc2.progress[q] == consumed()
            <==> acc.progress[q] == consumed() || (op.state is Consume && q == op.number))
    &&& acc2.reserves == (if op.claims(reply) {
        acc.reserves + 1
    } else {
        acc.reserves
    })
    &&& follows(
        params,
        elems,
        acc,
        elems,
        acc2,
        if op.claims(reply) {
            acc.reserves
        } else if op.entry() is Some {
            op.number
        } else {
            -1
        },
    )
    &&& op.state.resumed(params, reply) matches PopStep::Next(state, access) ==> pop_agrees(
        params,
        elems,
        acc2,
        PopOp {
            state,
            access,
            number: if op.claims(reply) {
                acc.reserves
            } else {
                op.number
            },
            replies: op.replies.push(reply),
        },
    )
}

/// A pop reads the consumer head.
proof fn lemma_pop_head_acts<T>(
    params: QueueParameters,
    memory: Memory<T>,
    elems: Seq<T>,
    acc: Account,
    op: PopOp<T>,
) -> (acc2: Account)
    requires
        params.wf(),
        params.holds_elements(),
        agrees(params, memory, elems, acc),
        pop_agrees(params, elems, acc, op),
        op.state is Head,
    ensures
        pop_turn_ends_well(params, memory, elems, acc, op, acc2),
        acc2.allocated == acc.allocated,
        acc2.producer == acc.producer,
        acc2.committed == acc.committed,
        acc2.consumer == consumer_after(params, acc, op),
        acc2.reserved == reserved_after(params, acc, op),
        acc2.consumed == consumed_after(params, acc, op),
{
    let n = params.num_blocks as int;
    params.lemma_layout();
    lemma_version_of_monotone(n, acc.consumer, acc.committed);
    lemma_named(params, acc.consumer);
    acc
}

/// A pop reads the reserved cursor of its block.
proof fn lemma_pop_reserved_acts<T>(
    params: QueueParameters,
    memory: Memory<T>,
    elems: Seq<T>,
    acc: Account,
    op: PopOp<T>,
) -> (acc2: Account)
    requires
        params.wf(),
        params.holds_elements(),
        agrees(params, memory, elems, acc),
        pop_agrees(params, elems, acc, op),
        op.state is Reserved,
    ensures
        pop_turn_ends_well(params, memory, elems, acc, op, acc2),
        acc2.allocated == acc.allocated,
        acc2.producer == acc.producer,
        acc2.committed == acc.committed,
        acc2.consumer == consumer_after(params, acc, op),
        acc2.reserved == reserved_after(params, acc, op),
        acc2.consumed == consumed_after(params, acc, op),
{
    let size = params.block_size as int;
    params.lemma_layout();
    let head = op.state->Reserved_head;
    let i = head.index as int;
    assert(block_agrees(params, memory.blocks[i], elems, acc, i));
    lemma_laps_in_range(params, acc.committed, acc.reserves, acc.reserved, i);
    if standing(params, acc, i).offset >= size {
        lemma_used_up(params, acc, head);
    }
    acc
}

/// A pop raises the reserved cursor of its block.
proof fn lemma_pop_raise_reserved_acts<T>(
    params: QueueParameters,
    memory: Memory<T>,
    elems: Seq<T>,
    acc: Account,
    op: PopOp<T>,
) -> (acc2: Account)
    requires
        params.wf(),
        params.holds_elements(),
        agrees(params, memory, elems, acc),
        pop_agrees(params, elems, acc, op),
        op.state is RaiseReserved,
    ensures
        pop_turn_ends_well(params, memory, elems, acc, op, acc2),
        acc2.allocated == acc.allocated,
        acc2.producer == acc.producer,
        acc2.committed == acc.committed,
        acc2.consumer == consumer_after(params, acc, op),
        acc2.reserved == reserved_after(params, acc, op),
        acc2.consumed == consumed_after(params, acc, op),
{
    params.lemma_layout();
    let head = op.state->RaiseReserved_head;
    let reserved = op.state->RaiseReserved_reserved;
    let i = head.index as int;
    let b = memory.blocks[i];
    assert(block_agrees(params, b, elems, acc, i));
    lemma_laps_in_range(params, acc.committed, acc.reserves, acc.reserved, i);
    let stands = standing(params, acc, i);
    params.lemma_cursor_order(one_further(reserved), stands);
    params.lemma_cursor_order(stands, one_further(reserved));
    if reserved == stands {
        lemma_reserve(params, memory, elems, acc, i, reserved);
        Account { reserves: acc.reserves + 1, ..advanced(acc, acc.reserves) }
    } else {
        assert(op.access.performed(params, memory).0 =~= memory);
        acc
    }
}

/// A pop empties its slot.
proof fn lemma_pop_take_acts<T>(
    params: QueueParameters,
    memory: Memory<T>,
    elems: Seq<T>,
    acc: Account,
    op: PopOp<T>,
) -> (acc2: Account)
    requires
        params.wf(),
        params.holds_elements(),
        agrees(params, memory, elems, acc),
        pop_agrees(params, elems, acc, op),
        op.state is Take,
    ensures
        pop_turn_ends_well(params, memory, elems, acc, op, acc2),
        acc2.allocated == acc.allocated,
        acc2.producer == acc.producer,
        acc2.committed == acc.committed,
        acc2.consumer == consumer_after(params, acc, op),
        acc2.reserved == reserved_after(params, acc, op),
        acc2.consumed == consumed_after(params, acc, op),
{
    params.lemma_layout();
    lemma_take(params, memory, elems, acc, op.number);
    advanced(acc, op.number)
}

/// A pop counts its slot as emptied.
proof fn lemma_pop_consume_acts<T>(
    params: QueueParameters,
    memory: Memory<T>,
    elems: Seq<T>,
    acc: Account,
    op: PopOp<T>,
) -> (acc2: Account)
    requires
        params.wf(),
        params.holds_elements(),
        agrees(params, memory, elems, acc),
        pop_agrees(params, elems, acc, op),
        op.state is Consume,
    ensures
        pop_turn_ends_well(params, memory, elems, acc, op, acc2),
        acc2.allocated == acc.allocated,
        acc2.producer == acc.producer,
        acc2.committed == acc.committed,
        acc2.consumer == consumer_after(params, acc, op),
        acc2.reserved == reserved_after(params, acc, op),
        acc2.consumed == consumed_after(params, acc, op),
{
    params.lemma_layout();
    lemma_consume(params, memory, elems, acc, op.number);
    advanced(acc, op.number)
}

/// A pop reads the committed cursor of the next block.
proof fn lemma_pop_next_committed_acts<T>(
    params: QueueParameters,
    memory: Memory<T>,
    elems: Seq<T>,
    acc: Account,
    op: PopOp<T>,
) -> (acc2: Account)
    requires
        params.wf(),
        params.holds_elements(),
        agrees(params, memory, elems, acc),
        pop_agrees(params, elems, acc, op),
        op.state is NextCommitted,
    ensures
        pop_turn_ends_well(params, memory, elems, acc, op, acc2),
        acc2.allocated == acc.allocated,
        acc2.producer == acc.producer,
        acc2.committed == acc.committed,
        acc2.consumer == consumer_after(params, acc, op),
        acc2.reserved == reserved_after(params, acc, op),
        acc2.consumed == consumed_after(params, acc, op),
{
    let n = params.num_blocks as int;
    params.lemma_layout();
    let head = op.state->NextCommitted_head;
    let j = next_index(params, head) as int;
    lemma_next_named(params, head);
    assert(block_agrees(params, memory.blocks[j], elems, acc, j));
    lemma_tally_in_range(
        params,
        acc.progress,
        acc.committed,
        acc.committed,
        j,
        committed(),
    );
    lemma_version_tells(n, acc.committed, block_named(params, head) + 1);
    acc
}

/// A pop enters the next block in the consumed cursor.
proof fn lemma_pop_raise_consumed_acts<T>(
    params: QueueParameters,
    memory: Memory<T>,
    elems: Seq<T>,
    acc: Account,
    op: PopOp<T>,
) -> (acc2: Account)
    requires
        params.wf(),
        params.holds_elements(),
        agrees(params, memory, elems, acc),
        pop_agrees(params, elems, acc, op),
        op.state is RaiseConsumed,
    ensures
        pop_turn_ends_well(params, memory, elems, acc, op, acc2),
        acc2.allocated == acc.allocated,
        acc2.producer == acc.producer,
        acc2.committed == acc.committed,
        acc2.consumer == consumer_after(params, acc, op),
        acc2.reserved == reserved_after(params, acc, op),
        acc2.consumed == consumed_after(params, acc, op),
{
    params.lemma_layout();
    let head = op.state->RaiseConsumed_head;
    lemma_enter_consumed(params, memory, elems, acc, head);
    Account { consumed: later(acc.consumed, block_named(params, head) + 1), ..acc }
}

/// A pop enters the next block in the reserved cursor.
proof fn lemma_pop_raise_next_reserved_acts<T>(
    params: QueueParameters,
    memory: Memory<T>,
    elems: Seq<T>,
    acc: Account,
    op: PopOp<T>,
) -> (acc2: Account)
    requires
        params.wf(),
        params.holds_elements(),
        agrees(params, memory, elems, acc),
        pop_agrees(params, elems, acc, op),
        op.state is RaiseNextReserved,
    ensures
        pop_turn_ends_well(params, memory, elems, acc, op, acc2),
        acc2.allocated == acc.allocated,
        acc2.producer == acc.producer,
        acc2.committed == acc.committed,
        acc2.consumer == consumer_after(params, acc, op),
        acc2.reserved == reserved_after(params, acc, op),
        acc2.consumed == consumed_after(params, acc, op),
{
    params.lemma_layout();
    let head = op.state->RaiseNextReserved_head;
    lemma_enter_reserved(params, memory, elems, acc, head);
    Account { reserved: later(acc.reserved, block_named(params, head) + 1), ..acc }
}

/// A pop raises the consumer head.
proof fn lemma_pop_raise_head_acts<T>(
    params: QueueParameters,
    memory: Memory<T>,
    elems: Seq<T>,
    acc: Account,
    op: PopOp<T>,
) -> (acc2: Account)
    requires
        params.wf(),
        params.holds_elements(),
        agrees(params, memory, elems, acc),
        pop_agrees(params, elems, acc, op),
        op.state is RaiseHead,
    ensures
        pop_turn_ends_well(params, memory, elems, acc, op, acc2),
        acc2.allocated == acc.allocated,
        acc2.producer == acc.producer,
        acc2.committed == acc.committed,
        acc2.consumer == consumer_after(params, acc, op),
        acc2.reserved == reserved_after(params, acc, op),
        acc2.consumed == consumed_after(params, acc, op),
{
    params.lemma_layout();
    let head = op.state->RaiseHead_head;
    lemma_raise_head(params, memory, elems, acc, End::Consumer, head);
    Account { consumer: later(acc.consumer, block_named(params, head) + 1), ..acc }
}

/// A pop has its turn.
proof fn lemma_pop_acts<T>(
    params: QueueParameters,
    memory: Memory<T>,
    elems: Seq<T>,
    acc: Account,
    op: PopOp<T>,
) -> (acc2: Account)
    requires
        params.wf(),
        params.holds_elements(),
        agrees(params, memory, elems, acc),
        pop_agrees(params, elems, acc, op),
    ensures
        pop_turn_ends_well(params, memory, elems, acc, op, acc2),
        acc2.allocated == acc.allocated,
        acc2.producer == acc.producer,
        acc2.committed == acc.committed,
        acc2.consumer == consumer_after(params, acc, op),
        acc2.reserved == reserved_after(params, acc, op),
        acc2.consumed == consumed_after(params, acc, op),
{
    match op.state {
        PopState::Head => lemma_pop_head_acts(params, memory, elems, acc, op),
        PopState::Reserved { .. } => lemma_pop_reserved_acts(params, memory, elems, acc, op),
        PopState::Committed { head, reserved } => {
            lemma_committed_read(params, memory, elems, acc, op, head, reserved);
            acc
        },
        PopState::Allocated { head, reserved, committed } => {
            lemma_allocated_read(params, memory, elems, acc, op, head, reserved, committed);
            acc
        },
        PopState::RaiseReserved { .. } => lemma_pop_raise_reserved_acts(params, memory, elems, acc, op),
        PopState::Take { .. } => lemma_pop_take_acts(params, memory, elems, acc, op),
        PopState::Consume { .. } => lemma_pop_consume_acts(params, memory, elems, acc, op),
        PopState::NextCommitted { .. } => lemma_pop_next_committed_acts(params, memory, elems, acc, op),
        PopState::RaiseConsumed { .. } => lemma_pop_raise_consumed_acts(params, memory, elems, acc, op),
        PopState::RaiseNextReserved { .. } => lemma_pop_raise_next_reserved_acts(params, memory, elems, acc, op),
        PopState::RaiseHead { .. } => lemma_pop_raise_head_acts(params, memory, elems, acc, op),
    }
}

// ---------------------------------------------------------------------------
// The whole queue
// ---------------------------------------------------------------------------

/// The account of a queue that was not used yet.
pub open spec fn first_account() -> Account {
    Account {
        progress: Seq::empty(),
        reserves: 0,
        allocated: 0,
        committed: 0,
        reserved: 0,
        consumed: 0,
        producer: 0,
        consumer: 0,
    }
}

/// A queue that was not used yet agrees with its account.
pub proof fn lemma_start<T>(params: QueueParameters, memory: Memory<T>) -> (acc: Account)
    requires
        params.wf(),
        params.holds_elements(),
        settled(params, memory, 0, 0),
    ensures
        acc == first_account(),
        system_agrees(params, System::idle(memory), acc),
{
    let n = params.num_blocks as int;
    let size = params.block_size as int;
    let acc = first_account();
    let elems = Seq::<T>::empty();
    params.lemma_layout();
    lemma_quotient(0, n, 0, 0);
    lemma_quotient(0, size, 0, 0);
    assert((0 + 1 - n) * size <= 0) by (nonlinear_arith)
        requires
            n >= 1,
            size > 0,
    ;
    assert forall|i: int| 0 <= i < n implies block_agrees(
        params,
        #[trigger] memory.blocks[i],
        elems,
        acc,
        i,
    ) by {
        let b = memory.blocks[i];
        assert(block_settled(params, b, 0, 0, 0, 0, i));
        lemma_laps_in_range(params, 0, 0, 0, i);
        params.lemma_cursor_round_trip(lap_cursor(params, 0, 0, i));
        lemma_block_at(n, 0, i);
        let block = block_at(n, 0, i);
        if i == 0 {
            lemma_counted_beyond(acc.progress, 0, size, committed());
            lemma_counted_beyond(acc.progress, 0, size, consumed());
        }
        assert(tally(params, acc.progress, 0, i, committed()) == lap_cursor(params, 0, 0, i));
        assert(tally(params, acc.progress, 0, i, consumed()) == lap_cursor(params, 0, 0, i));
    }
    assert(agrees(params, memory, elems, acc));
    acc
}

/// A push has its turn, and the queue and all operations agree with an account again.
#[verifier::rlimit(30)]
pub proof fn lemma_push_turn<T>(
    params: QueueParameters,
    s: System<T>,
    acc: Account,
    id: int,
) -> (acc2: Account)
    requires
        params.wf(),
        params.holds_elements(),
        system_agrees(params, s, acc),
        s.pushes.dom().contains(id),
        !s.pushes[id].overflows(params, s.memory),
    ensures
        system_agrees(params, s.after_push(params, id), acc2),
        acc2.allocated == allocated_after(params, s.memory, acc, s.pushes[id]),
        acc2.producer == producer_after(params, acc, s.pushes[id]),
        acc2.committed == committed_after(params, acc, s.pushes[id]),
        acc2.consumer == acc.consumer,
        acc2.reserved == acc.reserved,
        acc2.consumed == acc.consumed,
{
    let op = s.pushes[id];
    let acc2 = lemma_push_acts(params, s.memory, s.elems, acc, op);
    let s2 = s.after_push(params, id);
    let p = if op.entry() is Some {
        op.number
    } else {
        -1
    };
    assert forall|k: int| s2.pushes.dom().contains(k) implies push_agrees(
        params,
        s2.elems,
        acc2,
        #[trigger] s2.pushes[k],
    ) by {
        if k != id {
            assert(s2.pushes[k] == s.pushes[k]);
            assert(push_agrees(params, s.elems, acc, s.pushes[k]));
            lemma_push_stays(params, s.elems, acc, s2.elems, acc2, p, s.pushes[k]);
        }
    }
    assert(push_agrees(params, s.elems, acc, op));
    assert forall|q: int|
        0 <= q < acc2.progress.len() && #[trigger] acc2.progress[q]
            <= written() implies exists|k: int| push_holds(s2, k, q) by {
        if q < acc.progress.len() {
            assert(acc.progress[q] <= written());
            let k = choose|k: int| push_holds(s, k, q);
            assert(push_holds(s2, k, q));
        } else {
            assert(push_holds(s2, id, q));
        }
    }
    assert forall|q: int|
        0 <= q < acc2.progress.len() && reserved() <= #[trigger] acc2.progress[q]
            <= taken() implies exists|k: int| pop_holds(s2, k, q) by {
        assert(reserved() <= acc.progress[q] <= taken());
        let k = choose|k: int| pop_holds(s, k, q);
        assert(pop_holds(s2, k, q));
    }
    assert forall|k: int| s2.pops.dom().contains(k) implies pop_agrees(
        params,
        s2.elems,
        acc2,
        #[trigger] s2.pops[k],
    ) by {
        assert(pop_agrees(params, s.elems, acc, s.pops[k]));
        assert(push_agrees(params, s.elems, acc, op));
        lemma_pop_stays(params, s.elems, acc, s2.elems, acc2, p, s.pops[k]);
    }
    assert forall|a: int, b: int|
        a != b && s2.pushes.dom().contains(a) && s2.pushes.dom().contains(b) && (
        #[trigger] s2.pushes[a]).entry() is Some && (
        #[trigger] s2.pushes[b]).entry() is Some implies s2.pushes[a].number
        != s2.pushes[b].number by {
        if a != id {
            assert(s2.pushes[a] == s.pushes[a]);
            assert(push_agrees(params, s.elems, acc, s.pushes[a]));
        }
        if b != id {
            assert(s2.pushes[b] == s.pushes[b]);
            assert(push_agrees(params, s.elems, acc, s.pushes[b]));
        }
    }
    acc2
}

/// A pop has its turn, and the queue and all operations agree with an account again.
#[verifier::rlimit(30)]
pub proof fn lemma_pop_turn<T>(
    params: QueueParameters,
    s: System<T>,
    acc: Account,
    id: int,
) -> (acc2: Account)
    requires
        params.wf(),
        params.holds_elements(),
        system_agrees(params, s, acc),
        s.pops.dom().contains(id),
    ensures
        system_agrees(params, s.after_pop(params, id), acc2),
        acc2.allocated == acc.allocated,
        acc2.producer == acc.producer,
        acc2.committed == acc.committed,
        acc2.consumer == consumer_after(params, acc, s.pops[id]),
        acc2.reserved == reserved_after(params, acc, s.pops[id]),
        acc2.consumed == consumed_after(params, acc, s.pops[id]),
{
    let op = s.pops[id];
    let acc2 = lemma_pop_acts(params, s.memory, s.elems, acc, op);
    let s2 = s.after_pop(params, id);
    let reply = op.access.performed(params, s.memory).1;
    let p = if op.claims(reply) {
        acc.reserves
    } else if op.entry() is Some {
        op.number
    } else {
        -1
    };
    assert(pop_agrees(params, s.elems, acc, op));
    assert forall|q: int| #[trigger]
        s2.returned.contains(q) <==> 0 <= q < acc2.progress.len() && acc2.progress[q]
            == consumed() by {
        if 0 <= q < acc.progress.len() {
            assert(acc2.progress[q] == consumed() <==> acc.progress[q] == consumed() || (
            op.state is Consume && q == op.number));
        }
    }
    assert forall|k: int| s2.pushes.dom().contains(k) implies push_agrees(
        params,
        s2.elems,
        acc2,
        #[trigger] s2.pushes[k],
    ) by {
        assert(push_agrees(params, s.elems, acc, s.pushes[k]));
        lemma_push_stays(params, s.elems, acc, s2.elems, acc2, p, s.pushes[k]);
    }
    assert forall|k: int| s2.pops.dom().contains(k) implies pop_agrees(
        params,
        s2.elems,
        acc2,
        #[trigger] s2.pops[k],
    ) by {
        if k != id {
            assert(s2.pops[k] == s.pops[k]);
            assert(pop_agrees(params, s.elems, acc, s.pops[k]));
            lemma_pop_stays(params, s.elems, acc, s2.elems, acc2, p, s.pops[k]);
        }
    }
    assert forall|q: int|
        0 <= q < acc2.progress.len() && #[trigger] acc2.progress[q]
            <= written() implies exists|k: int| push_holds(s2, k, q) by {
        assert(acc.progress[q] <= written());
        let k = choose|k: int| push_holds(s, k, q);
        assert(push_holds(s2, k, q));
    }
    assert forall|q: int|
        0 <= q < acc2.progress.len() && reserved() <= #[trigger] acc2.progress[q]
            <= taken() implies exists|k: int| pop_holds(s2, k, q) by {
        if op.claims(reply) && q == acc.reserves {
            assert(pop_holds(s2, id, q));
        } else {
            assert(reserved() <= acc.progress[q] <= taken());
            let k = choose|k: int| pop_holds(s, k, q);
            assert(pop_holds(s2, k, q));
        }
    }
    assert forall|a: int, b: int|
        a != b && s2.pops.dom().contains(a) && s2.pops.dom().contains(b) && (
        #[trigger] s2.pops[a]).entry() is Some && (
        #[trigger] s2.pops[b]).entry() is Some implies s2.pops[a].number != s2.pops[b].number by {
        if a != id {
            assert(s2.pops[a] == s.pops[a]);
            assert(pop_agrees(params, s.elems, acc, s.pops[a]));
        }
        if b != id {
            assert(s2.pops[b] == s.pops[b]);
            assert(pop_agrees(params, s.elems, acc, s.pops[b]));
        }
    }
    acc2
}

/// Two slots that are not consumed yet lie in different places.
proof fn lemma_distinct_places(params: QueueParameters, acc: Account, p: int, q: int)
    requires
        params.wf(),
        params.holds_elements(),
        blocks_in_order(params, acc),
        slots_in_order(params, acc),
        0 <= p < acc.progress.len(),
        0 <= q < acc.progress.len(),
        acc.progress[p] < consumed(),
        acc.progress[q] < consumed(),
        index_of(params, p) == index_of(params, q),
        p % (params.block_size as int) == q % (params.block_size as int),
    ensures
        p == q,
{
    lemma_live(params, acc, p);
    lemma_live(params, acc, q);
    lemma_number(params.block_size as int, p);
    lemma_number(params.block_size as int, q);
}

/// A queue whose operations agree with an account is sound.
pub proof fn lemma_sound<T>(params: QueueParameters, s: System<T>, acc: Account)
    requires
        params.wf(),
        params.holds_elements(),
        system_agrees(params, s, acc),
    ensures
        s.sound(params),
{
    let n = params.num_blocks as int;
    let size = params.block_size as int;
    assert(acc.allocated * size + size <= (acc.committed + 1 - n) * size + n * size)
        by (nonlinear_arith)
        requires
            acc.allocated <= acc.committed,
            size > 0,
    ;
    assert forall|id: int|
        s.pushes.dom().contains(id) && (#[trigger] s.pushes[id]).entry() is Some implies {
        let op = s.pushes[id];
        let entry = op.entry()->0;
        &&& entry.in_bounds(params)
        &&& 0 <= op.number < s.elems.len()
        &&& s.elems[op.number] == op.elem
        &&& op.state is Write ==> op.access == Access::Write(entry.block, entry.offset, op.elem)
        &&& op.state is Write
            ==> s.memory.blocks[entry.block as int].data[entry.offset as int] is None
    } by {
        let op = s.pushes[id];
        assert(push_agrees(params, s.elems, acc, op));
        if op.state is Write {
            lemma_write(params, s.memory, s.elems, acc, op.number);
        }
    }
    assert forall|id: int|
        s.pops.dom().contains(id) && (#[trigger] s.pops[id]).entry() is Some implies {
        let op = s.pops[id];
        let entry = op.entry()->0;
        &&& entry.in_bounds(params)
        &&& 0 <= op.number < s.reserves
        &&& op.state is Take ==> op.access == Access::<T>::Take(entry.block, entry.offset)
        &&& op.state is Take
            ==> s.memory.blocks[entry.block as int].data[entry.offset as int] == Some(
            s.elems[op.number],
        )
        &&& op.state matches PopState::Consume { elem, .. } ==> elem == s.elems[op.number]
    } by {
        let op = s.pops[id];
        assert(pop_agrees(params, s.elems, acc, op));
        if op.state is Take {
            lemma_take(params, s.memory, s.elems, acc, op.number);
        }
    }
    assert forall|a: int, b: int|
        a != b && s.pushes.dom().contains(a) && s.pushes.dom().contains(b) && (
        #[trigger] s.pushes[a]).entry() is Some && (
        #[trigger] s.pushes[b]).entry() is Some implies s.pushes[a].entry() != s.pushes[b].entry()
        && s.pushes[a].number != s.pushes[b].number by {
        assert(push_agrees(params, s.elems, acc, s.pushes[a]));
        assert(push_agrees(params, s.elems, acc, s.pushes[b]));
        if s.pushes[a].entry() == s.pushes[b].entry() {
            lemma_distinct_places(params, acc, s.pushes[a].number, s.pushes[b].number);
        }
    }
    assert forall|a: int, b: int|
        a != b && s.pops.dom().contains(a) && s.pops.dom().contains(b) && (
        #[trigger] s.pops[a]).entry() is Some && (
        #[trigger] s.pops[b]).entry() is Some implies s.pops[a].entry() != s.pops[b].entry()
        && s.pops[a].number != s.pops[b].number by {
        assert(pop_agrees(params, s.elems, acc, s.pops[a]));
        assert(pop_agrees(params, s.elems, acc, s.pops[b]));
        if s.pops[a].entry() == s.pops[b].entry() {
            lemma_distinct_places(params, acc, s.pops[a].number, s.pops[b].number);
        }
    }
    assert forall|a: int, b: int|
        s.pushes.dom().contains(a) && s.pops.dom().contains(b) && (
        #[trigger] s.pushes[a]).entry() is Some && (
        #[trigger] s.pops[b]).entry() is Some implies s.pushes[a].entry() != s.pops[b].entry() by {
        assert(push_agrees(params, s.elems, acc, s.pushes[a]));
        assert(pop_agrees(params, s.elems, acc, s.pops[b]));
        if s.pushes[a].entry() == s.pops[b].entry() {
            lemma_distinct_places(params, acc, s.pushes[a].number, s.pops[b].number);
        }
    }
}

/// A push that finds the next block in use has a slot before it that was not
/// given back.
pub proof fn lemma_oldest<T>(
    params: QueueParameters,
    s: System<T>,
    acc: Account,
    id: int,
) -> (p: int)
    requires
        params.wf(),
        params.holds_elements(),
        system_agrees(params, s, acc),
        s.pushes.dom().contains(id),
        s.pushes[id].state is Consumed,
        s.after_push(params, id).pushes[id].state is Reserved,
    ensures
        0 <= p,
        p + params.capacity.lower < s.elems.len(),
        !s.returned.contains(p),
{
    let n = params.num_blocks as int;
    let size = params.block_size as int;
    let op = s.pushes[id];
    assert(push_agrees(params, s.elems, acc, op));
    let head = op.state->Consumed_head;
    let l = block_named(params, head);
    let j = next_index(params, head) as int;
    lemma_next_named(params, head);
    assert(block_agrees(params, s.memory.blocks[j], s.elems, acc, j));
    lemma_tally_in_range(params, acc.progress, acc.committed, acc.consumed, j, consumed());
    let cursor = tally(params, acc.progress, acc.consumed, j, consumed());
    assert(next_block_in_use(params, head, cursor));
    let bound = (l + 2 - n) * size;
    assert(bound + (n - 1) * size == l * size + size) by (nonlinear_arith)
        requires
            bound == (l + 2 - n) * size,
    ;
    assert(bound <= l * size + size) by (nonlinear_arith)
        requires
            bound == (l + 2 - n) * size,
            n >= 1,
            size > 0,
    ;
    if forall|p: int| 0 <= p < bound ==> #[trigger] acc.progress[p] == consumed() {
        lemma_replaced_is_consumed(params, acc, head);
        assert(false);
    }
    choose|p: int| 0 <= p < bound && #[trigger] acc.progress[p] != consumed()
}

/// Where all slots up to the block that the next one replaces are consumed, the
/// next block is not in use.
pub proof fn lemma_replaced_is_consumed(params: QueueParameters, acc: Account, head: UnpackedHead)
    requires
        params.wf(),
        params.holds_elements(),
        blocks_in_order(params, acc),
        slots_in_order(params, acc),
        head_ok(params, head),
        filled_up(params, acc, head),
        forall|p: int|
            0 <= p < (block_named(params, head) + 2 - params.num_blocks) * params.block_size
                ==> #[trigger] acc.progress[p] == consumed(),
    ensures
        !next_block_in_use(
            params,
            head,
            tally(
                params,
                acc.progress,
                acc.consumed,
                next_index(params, head) as int,
                consumed(),
            ),
        ),
{
    let n = params.num_blocks as int;
    let size = params.block_size as int;
    let l = block_named(params, head);
    let j = next_index(params, head) as int;
    let r = l + 1 - n;
    let bound = (l + 2 - n) * size;
    lemma_next_named(params, head);
    lemma_tally_in_range(params, acc.progress, acc.committed, acc.consumed, j, consumed());
    lemma_block_at(n, acc.consumed, j);
    assert(bound == r * size + size) by (nonlinear_arith)
        requires
            bound == (l + 2 - n) * size,
            r == l + 1 - n,
    ;
    if r >= 0 {
        assert(0 <= r * size && bound <= l * size + size) by (nonlinear_arith)
            requires
                r >= 0,
                r + 1 <= l + 1,
                size > 0,
                bound == r * size + size,
        ;
        assert(acc.progress[bound - 1] == consumed());
        assert(acc.consumed >= r) by {
            lemma_number_before(size, bound - 1, acc.reserved + 1);
            assert((acc.reserved + 1) * size == acc.reserved * size + size) by (nonlinear_arith);
            lemma_number_in_block(size, bound - 1, r);
        }
        lemma_split(r, n);
        assert((l + 1) % n == r % n && version_of(n, r) == head.version) by {
            let q = r / n;
            assert((q + 1) * n == q * n + n) by (nonlinear_arith);
            lemma_quotient(l + 1, n, q + 1, r % n);
        }
        lemma_version_tells(n, acc.consumed, r);
        if acc.consumed < r + n {
            lemma_block_is_latest(n, acc.consumed, r);
            lemma_counted_full(acc.progress, r * size, bound, consumed());
        }
    } else {
        // the next block is used for the first time
        lemma_quotient(l, n, 0, l);
        lemma_quotient(l + 1, n, 0, l + 1);
        lemma_split(acc.consumed, n);
    }
}

/// The start of an operation changes nothing that others know.
pub proof fn lemma_start_turn<T>(
    params: QueueParameters,
    s: System<T>,
    acc: Account,
    event: Event<T>,
)
    requires
        system_agrees(params, s, acc),
        s.allows(params, event),
        event is StartPush || event is StartPop,
    ensures
        system_agrees(params, s.after(params, event), acc),
{
    let s2 = s.after(params, event);
    assert forall|p: int|
        0 <= p < acc.progress.len() && #[trigger] acc.progress[p]
            <= written() implies exists|k: int| push_holds(s2, k, p) by {
        let k = choose|k: int| push_holds(s, k, p);
        assert(push_holds(s2, k, p));
    }
    assert forall|p: int|
        0 <= p < acc.progress.len() && reserved() <= #[trigger] acc.progress[p]
            <= taken() implies exists|k: int| pop_holds(s2, k, p) by {
        let k = choose|k: int| pop_holds(s, k, p);
        assert(pop_holds(s2, k, p));
    }
}

/// Slot number `p` lies at an index and an offset.
pub open spec fn lies_at(params: QueueParameters, p: int, i: int, o: int) -> bool {
    index_of(params, p) == i && p % (params.block_size as int) == o
}

/// Where no operation is under way, the slots hold the elements that were
/// pushed and not popped yet.
pub proof fn lemma_all_in_place<T>(params: QueueParameters, s: System<T>, acc: Account)
    requires
        params.wf(),
        params.holds_elements(),
        system_agrees(params, s, acc),
        s.pushes.dom() == Set::<int>::empty(),
        s.pops.dom() == Set::<int>::empty(),
    ensures
        forall|p: int|
            s.reserves <= p < s.elems.len() ==> #[trigger] slot_at(params, s.memory, p) == Some(
                s.elems[p],
            ),
        forall|p: int| 0 <= p < s.reserves ==> #[trigger] s.returned.contains(p),
        forall|i: int, o: int|
            0 <= i < params.num_blocks && 0 <= o < params.block_size
                && #[trigger] s.memory.blocks[i].data[o] is Some ==> exists|p: int|
                s.reserves <= p < s.elems.len() && #[trigger] lies_at(params, p, i, o),
{
    let n = params.num_blocks as int;
    let size = params.block_size as int;
    assert forall|p: int| 0 <= p < acc.progress.len() implies #[trigger] acc.progress[p] == (if p
        < acc.reserves {
        consumed()
    } else {
        committed()
    }) by {
        if acc.progress[p] <= written() {
            let k = choose|k: int| push_holds(s, k, p);
            assert(s.pushes.dom().contains(k));
        } else if reserved() <= acc.progress[p] <= taken() {
            let k = choose|k: int| pop_holds(s, k, p);
            assert(s.pops.dom().contains(k));
        }
    }
    assert forall|p: int| s.reserves <= p < s.elems.len() implies #[trigger] slot_at(
        params,
        s.memory,
        p,
    ) == Some(s.elems[p]) by {
        let i = index_of(params, p);
        assert(acc.progress[p] == committed());
        lemma_live(params, acc, p);
        lemma_number(size, p);
        assert(block_agrees(params, s.memory.blocks[i], s.elems, acc, i));
        assert(s.memory.blocks[i].data[p % size] == content(s.elems, acc.progress, p));
    }
    assert forall|p: int| 0 <= p < s.reserves implies #[trigger] s.returned.contains(p) by {
        assert(acc.progress[p] == consumed());
    }
    assert forall|i: int, o: int|
        0 <= i < n && 0 <= o < size
            && #[trigger] s.memory.blocks[i].data[o] is Some implies exists|p: int|
        s.reserves <= p < s.elems.len() && #[trigger] lies_at(params, p, i, o) by {
        let block = block_at(n, acc.allocated, i);
        let p = block * size + o;
        assert(block_agrees(params, s.memory.blocks[i], s.elems, acc, i));
        assert(s.memory.blocks[i].data[o] == content(s.elems, acc.progress, p));
        assert(acc.progress[p] == committed());
        lemma_number_in_block(size, p, block);
        lemma_number(size, p);
        lemma_block_at(n, acc.allocated, i);
        assert(lies_at(params, p, i, o));
    }
}

}
