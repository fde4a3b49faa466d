//! The first pushes of a new queue.
//!
//! As long as no more pushes were started than the queue has slots, each of them
//! finds a slot.

use crate::sync::account::{
    block_agrees, consumed, lemma_tally_in_range, lemma_version_tells, tally, Account,
};
use crate::sync::crowd::{
    claims_after, claims_counted, lemma_claim_fits, lemma_first_claims, lemma_push_counts,
};
use crate::sync::cursor::UnpackedHead;
use crate::sync::interleave::{lemma_interleaving, Event, PushOp, System};
use crate::sync::laps::{block_at, lemma_block_at, lemma_quotient, settled, version_at};
use crate::sync::memory::Memory;
use crate::sync::opening::{block_named, lemma_named, lemma_next_named, lemma_version_of_monotone};
use crate::sync::params::{lemma_capacity_bounds, QueueParameters};
use crate::sync::push::{head_ok, next_block_in_use, next_index, PushState};
use crate::sync::system::{
    filled_up, lemma_pop_turn, lemma_start, lemma_start_turn, pop_agrees, producer_after,
    push_agrees, system_agrees,
};
use vstd::prelude::*;
use vstd::set_lib::lemma_len_subset;

verus! {

/// How many pushes were started.
pub open spec fn starts<T>(events: Seq<Event<T>>) -> int
    decreases events.len(),
{
    if events.len() == 0 {
        0
    } else {
        starts(events.drop_last()) + (if events.last() is StartPush {
            1int
        } else {
            0int
        })
    }
}

/// The pushes under way that have not claimed a slot.
pub open spec fn unclaimed<T>(s: System<T>) -> Set<int> {
    s.pushes.dom().filter(|id: int| s.pushes[id].entry() is None)
}

impl<T> System<T> {
    /// The events can happen one after the other.
    pub open spec fn can_all_happen(self, params: QueueParameters, events: Seq<Event<T>>) -> bool
        decreases events.len(),
    {
        events.len() == 0 || {
            &&& self.can_all_happen(params, events.drop_last())
            &&& self.after_all(params, events.drop_last()).can_happen(events.last())
        }
    }
}

/// Events for which no field is too short can happen.
proof fn lemma_allowed_can_happen<T>(
    params: QueueParameters,
    memory: Memory<T>,
    events: Seq<Event<T>>,
)
    requires
        System::idle(memory).allows_all(params, events),
    ensures
        System::idle(memory).can_all_happen(params, events),
    decreases events.len(),
{
    if events.len() > 0 {
        lemma_allowed_can_happen(params, memory, events.drop_last());
    }
}

/// Every slot that was claimed, and every push that has none yet, goes back to a
/// push that was started.
proof fn lemma_claims_were_started<T>(
    params: QueueParameters,
    memory: Memory<T>,
    events: Seq<Event<T>>,
)
    requires
        System::idle(memory).can_all_happen(params, events),
    ensures
        ({
            let s = System::idle(memory).after_all(params, events);
            &&& s.pushes.dom().finite()
            &&& unclaimed(s).finite()
            &&& s.elems.len() + unclaimed(s).len() <= starts(events)
        }),
    decreases events.len(),
{
    let s = System::idle(memory).after_all(params, events);
    if events.len() == 0 {
        assert(unclaimed(s) =~= Set::empty());
    } else {
        let before = System::idle(memory).after_all(params, events.drop_last());
        lemma_claims_were_started(params, memory, events.drop_last());
        match events.last() {
            Event::StartPush(id, elem) => {
                assert(unclaimed(s) =~= unclaimed(before).insert(id));
            },
            Event::StartPop(_) => {
                assert(unclaimed(s) =~= unclaimed(before));
            },
            Event::TurnOfPop(_) => {
                assert(unclaimed(s) =~= unclaimed(before));
            },
            Event::TurnOfPush(id) => {
                let op = before.pushes[id];
                let reply = op.access.performed(params, before.memory).1;
                if op.claims(params, reply) {
                    assert(unclaimed(s) =~= unclaimed(before).remove(id));
                    assert(unclaimed(before).contains(id));
                } else {
                    assert forall|k: int| unclaimed(s).contains(k) implies unclaimed(
                        before,
                    ).contains(k) by {}
                    lemma_len_subset(unclaimed(s), unclaimed(before));
                }
            },
        }
    }
}

/// A push that has no slot yet knows of a full block only where it is not the last one.
proof fn lemma_block_before_last(
    params: QueueParameters,
    acc: Account,
    head: UnpackedHead,
)
    requires
        params.wf(),
        params.holds_elements(),
        head_ok(params, head),
        filled_up(params, acc, head),
        acc.progress.len() < params.num_blocks * params.block_size,
    ensures
        block_named(params, head) + 1 < params.num_blocks,
        head.version == 0,
        head.index == block_named(params, head),
        next_index(params, head) == block_named(params, head) + 1,
{
    let n = params.num_blocks as int;
    let size = params.block_size as int;
    let l = block_named(params, head);
    lemma_next_named(params, head);
    if l + 1 >= n {
        assert(l * size + size >= n * size) by (nonlinear_arith)
            requires
                l + 1 >= n,
                size > 0,
        ;
    }
    lemma_quotient(l, n, 0, l);
    lemma_quotient(l + 1, n, 0, l + 1);
}

/// While there are slots that were never claimed, the next block is free.
proof fn lemma_next_is_free<T>(params: QueueParameters, s: System<T>, acc: Account, id: int)
    requires
        params.wf(),
        params.holds_elements(),
        system_agrees(params, s, acc),
        s.pushes.dom().contains(id),
        s.pushes[id].state is Consumed,
        s.elems.len() < params.num_blocks * params.block_size,
    ensures
        ({
            let head = s.pushes[id].state->Consumed_head;
            !next_block_in_use(
                params,
                head,
                params.cursor_of(s.memory.blocks[next_index(params, head) as int].consumed),
            )
        }),
{
    let n = params.num_blocks as int;
    let head = s.pushes[id].state->Consumed_head;
    let l = block_named(params, head);
    assert(push_agrees(params, s.elems, acc, s.pushes[id]));
    lemma_block_before_last(params, acc, head);
    lemma_next_named(params, head);
    let j = l + 1;
    assert(block_agrees(params, s.memory.blocks[j], s.elems, acc, j));
    lemma_tally_in_range(params, acc.progress, acc.committed, acc.consumed, j, consumed());
    params.lemma_cursor_round_trip(tally(params, acc.progress, acc.consumed, j, consumed()));
    lemma_version_tells(n, acc.consumed, l + 1);
    lemma_quotient(l + 1, n, 0, l + 1);
    if acc.consumed < l + 1 {
        lemma_block_at(n, acc.consumed, j);
        let block = block_at(n, acc.consumed, j);
        if block >= 0 {
            lemma_quotient(block, n, 0, block);
        }
    }
}

/// No push is turned away from a full queue.
proof fn lemma_none_is_turned_away<T>(
    params: QueueParameters,
    memory: Memory<T>,
    events: Seq<Event<T>>,
)
    requires
        params.wf(),
        params.holds_elements(),
        settled(params, memory, 0, 0),
        System::idle(memory).allows_all(params, events),
        starts(events) <= params.capacity.upper,
    ensures
        forall|id: int| #[trigger]
            System::idle(memory).after_all(params, events).pushes.dom().contains(id)
                ==> !(System::idle(memory).after_all(params, events).pushes[id].state is Reserved),
    decreases events.len(),
{
    if events.len() > 0 {
        let s = System::idle(memory).after_all(params, events);
        let before = System::idle(memory).after_all(params, events.drop_last());
        lemma_none_is_turned_away(params, memory, events.drop_last());
        if let Event::TurnOfPush(id) = events.last() {
            if before.pushes[id].state is Consumed {
                let acc = lemma_interleaving(params, memory, events.drop_last());
                lemma_allowed_can_happen(params, memory, events.drop_last());
                lemma_claims_were_started(params, memory, events.drop_last());
                lemma_capacity_bounds(params);
                assert(unclaimed(before).contains(id));
                assert(unclaimed(before).len() > 0) by {
                    vstd::set::axiom_set_remove_len(unclaimed(before), id);
                }
                assert(push_agrees(params, before.elems, acc, before.pushes[id]));
                lemma_next_is_free(params, before, acc, id);
            }
        }
    }
}

/// None of the first pushes of a new queue is refused, however the operations
/// take turns: as long as no more pushes were started than the upper bound of
/// the capacity, a push that ends has succeeded.
pub proof fn lemma_first_pushes_succeed<T>(
    params: QueueParameters,
    memory: Memory<T>,
    events: Seq<Event<T>>,
    id: int,
)
    requires
        params.wf(),
        params.holds_elements(),
        settled(params, memory, 0, 0),
        System::idle(memory).allows_all(params, events),
        starts(events) <= params.capacity.upper,
        System::idle(memory).after_all(params, events).pushes.dom().contains(id),
    ensures
        System::idle(memory).after_all(params, events).push_result(params, id) matches Some(outcome)
            ==> outcome is Ok,
{
    lemma_none_is_turned_away(params, memory, events);
    assert(System::idle(memory).after_all(params, events).pushes.dom().contains(id));
}

/// A push may still count up the allocated word of a block.
spec fn may_claim<T>(params: QueueParameters, acc: Account, op: PushOp<T>, block: int) -> bool {
    match op.state {
        PushState::Head { .. } => acc.producer <= block,
        PushState::Check { head, .. } => block_named(params, head) <= block,
        PushState::Claim { head, .. } => block_named(params, head) <= block,
        PushState::Write { .. } => false,
        PushState::Commit { .. } => false,
        PushState::Consumed { head, .. } => block_named(params, head) < block,
        PushState::Reserved { head, .. } => block_named(params, head) < block,
        PushState::RaiseCommitted { head, .. } => block_named(params, head) < block,
        PushState::RaiseAllocated { head, .. } => block_named(params, head) < block,
        PushState::RaiseHead { head, .. } => block_named(params, head) < block,
    }
}

/// The pushes that may still count up the allocated word of a block.
spec fn may_claim_all<T>(
    params: QueueParameters,
    s: System<T>,
    acc: Account,
    block: int,
) -> Set<int> {
    s.pushes.dom().filter(|id: int| may_claim(params, acc, s.pushes[id], block))
}

/// The claims on a block were made by different pushes, and none of them by a
/// push that has its slot in an earlier block.
spec fn claims_were_started<T>(
    params: QueueParameters,
    s: System<T>,
    acc: Account,
    block: int,
    started: int,
) -> bool {
    claims_counted(params, s.memory, acc, block) + may_claim_all(params, s, acc, block).len()
        + block * params.block_size <= started
}

/// The blocks are in their first round, and the claims on all that were opened
/// go back to pushes that were started.
spec fn all_claims_were_started<T>(
    params: QueueParameters,
    s: System<T>,
    acc: Account,
    started: int,
) -> bool {
    &&& 0 <= acc.allocated < params.num_blocks
    &&& forall|block: int|
        0 <= block <= acc.allocated ==> #[trigger] claims_were_started(
            params,
            s,
            acc,
            block,
            started,
        )
}

/// Where no more pushes are started than the queue has slots, nor than an offset
/// can count, no field is too short.
pub proof fn lemma_first_pushes_do_not_overflow<T>(
    params: QueueParameters,
    memory: Memory<T>,
    events: Seq<Event<T>>,
)
    requires
        params.wf(),
        params.holds_elements(),
        settled(params, memory, 0, 0),
        System::idle(memory).can_all_happen(params, events),
        starts(events) <= params.capacity.upper,
        starts(events) <= params.offsets(),
    ensures
        System::idle(memory).allows_all(params, events),
{
    let _ = lemma_first_round(params, memory, events);
}

#[verifier::rlimit(30)]
proof fn lemma_first_round<T>(
    params: QueueParameters,
    memory: Memory<T>,
    events: Seq<Event<T>>,
) -> (acc: Account)
    requires
        params.wf(),
        params.holds_elements(),
        settled(params, memory, 0, 0),
        System::idle(memory).can_all_happen(params, events),
        starts(events) <= params.capacity.upper,
        starts(events) <= params.offsets(),
    ensures
        System::idle(memory).allows_all(params, events),
        system_agrees(params, System::idle(memory).after_all(params, events), acc),
        all_claims_were_started(
            params,
            System::idle(memory).after_all(params, events),
            acc,
            starts(events),
        ),
    decreases events.len(),
{
    let s = System::idle(memory).after_all(params, events);
    if events.len() == 0 {
        let acc = lemma_start(params, memory);
        lemma_first_claims(params, memory, acc, 0);
        assert(may_claim_all(params, s, acc, 0) =~= Set::empty());
        assert(claims_were_started(params, s, acc, 0, 0));
        acc
    } else {
        let before = System::idle(memory).after_all(params, events.drop_last());
        let acc = lemma_first_round(params, memory, events.drop_last());
        lemma_claims_were_started(params, memory, events.drop_last());
        lemma_claims_were_started(params, memory, events);
        lemma_capacity_bounds(params);
        match events.last() {
            Event::TurnOfPush(id) => lemma_push_in_first_round(
                params,
                before,
                acc,
                id,
                starts(events),
            ),
            Event::TurnOfPop(id) => {
                let acc2 = lemma_pop_turn(params, before, acc, id);
                assert(pop_agrees(params, before.elems, acc, before.pops[id]));
                assert forall|block: int|
                    0 <= block <= acc2.allocated implies #[trigger] claims_were_started(
                    params,
                    s,
                    acc2,
                    block,
                    starts(events),
                ) by {
                    assert(claims_were_started(params, before, acc, block, starts(events)));
                    assert(may_claim_all(params, s, acc2, block) =~= may_claim_all(
                        params,
                        before,
                        acc,
                        block,
                    ));
                }
                acc2
            },
            Event::StartPush(id, elem) => {
                lemma_start_turn(params, before, acc, events.last());
                assert forall|block: int|
                    0 <= block <= acc.allocated implies #[trigger] claims_were_started(
                    params,
                    s,
                    acc,
                    block,
                    starts(events),
                ) by {
                    assert(claims_were_started(params, before, acc, block, starts(events) - 1));
                    let then = may_claim_all(params, before, acc, block);
                    let now = may_claim_all(params, s, acc, block);
                    lemma_len_subset(then, before.pushes.dom());
                    assert(now.subset_of(then.insert(id)));
                    lemma_len_subset(now, then.insert(id));
                }
                acc
            },
            Event::StartPop(_) => {
                lemma_start_turn(params, before, acc, events.last());
                assert forall|block: int|
                    0 <= block <= acc.allocated implies #[trigger] claims_were_started(
                    params,
                    s,
                    acc,
                    block,
                    starts(events),
                ) by {
                    assert(claims_were_started(params, before, acc, block, starts(events)));
                    assert(may_claim_all(params, s, acc, block) =~= may_claim_all(
                        params,
                        before,
                        acc,
                        block,
                    ));
                }
                acc
            },
        }
    }
}

/// The turn of a push in the first round is not led astray.
proof fn lemma_push_in_first_round<T>(
    params: QueueParameters,
    s: System<T>,
    acc: Account,
    id: int,
    started: int,
) -> (acc2: Account)
    requires
        params.wf(),
        params.holds_elements(),
        system_agrees(params, s, acc),
        all_claims_were_started(params, s, acc, started),
        s.pushes.dom().finite(),
        s.pushes.dom().contains(id),
        s.elems.len() + unclaimed(s).len() <= started,
        started <= params.num_blocks * params.block_size,
        started <= params.offsets(),
        unclaimed(s.after_push(params, id)).finite(),
        s.after_push(params, id).elems.len() + unclaimed(s.after_push(params, id)).len() <= started,
    ensures
        s.allows(params, Event::TurnOfPush(id)),
        system_agrees(params, s.after_push(params, id), acc2),
        all_claims_were_started(params, s.after_push(params, id), acc2, started),
{
    let n = params.num_blocks as int;
    let size = params.block_size as int;
    let op = s.pushes[id];
    let after = s.after_push(params, id);
    params.lemma_layout();
    assert(push_agrees(params, s.elems, acc, op));
    if op.entry() is None {
        lemma_len_subset(unclaimed(s), s.pushes.dom());
        assert(unclaimed(s).contains(id));
        vstd::set::axiom_set_remove_len(unclaimed(s), id);
    }
    match op.state {
        PushState::Claim { head, .. } => {
            lemma_claim_in_first_round(params, s, acc, id, started);
        },
        PushState::RaiseCommitted { head, .. } => {
            lemma_block_before_last(params, acc, head);
        },
        PushState::RaiseAllocated { head, .. } => {
            lemma_block_before_last(params, acc, head);
        },
        _ => {},
    }
    let acc2 = lemma_push_counts(params, s, acc, id);
    assert forall|block: int| 0 <= block <= acc2.allocated implies #[trigger] claims_were_started(
        params,
        after,
        acc2,
        block,
        started,
    ) by {
        let now = may_claim_all(params, after, acc2, block);
        assert(claims_counted(params, after.memory, acc2, block) == claims_after(
            params,
            s.memory,
            acc,
            op,
            block,
        ));
        if block <= acc.allocated {
            let then = may_claim_all(params, s, acc, block);
            assert(claims_were_started(params, s, acc, block, started));
            lemma_len_subset(then, s.pushes.dom());
            lemma_fewer_may_claim(params, s, acc, id, acc2, block);
            lemma_len_subset(now, then);
            if let PushState::Claim { head, .. } = op.state {
                lemma_next_named(params, head);
                lemma_quotient(block_named(params, head), n, 0, block_named(params, head));
                if head.index == block {
                    assert(then.contains(id));
                    assert(!now.contains(id));
                    assert(now.subset_of(then.remove(id)));
                    lemma_len_subset(now, then.remove(id));
                }
            }
        } else {
            // the block was just opened
            assert forall|k: int| now.contains(k) implies unclaimed(after).contains(k) by {}
            lemma_len_subset(now, unclaimed(after));
            assert(block * size <= after.elems.len()) by {
                let head = op.state->RaiseAllocated_head;
                assert(block == block_named(params, head) + 1);
                assert(block * size == block_named(params, head) * size + size) by (nonlinear_arith)
                    requires
                        block == block_named(params, head) + 1,
                ;
            }
        }
    }
    acc2
}

/// A claim in the first round leaves an offset unused.
proof fn lemma_claim_in_first_round<T>(
    params: QueueParameters,
    s: System<T>,
    acc: Account,
    id: int,
    started: int,
)
    requires
        params.wf(),
        params.holds_elements(),
        system_agrees(params, s, acc),
        all_claims_were_started(params, s, acc, started),
        s.pushes.dom().finite(),
        s.pushes.dom().contains(id),
        s.pushes[id].state is Claim,
        started <= params.offsets(),
    ensures
        !s.pushes[id].overflows(params, s.memory),
        claims_counted(
            params,
            s.memory,
            acc,
            s.pushes[id].state->Claim_head.index as int,
        ) < params.offsets(),
{
    let n = params.num_blocks as int;
    let size = params.block_size as int;
    let op = s.pushes[id];
    let head = op.state->Claim_head;
    let l = block_named(params, head);
    params.lemma_layout();
    assert(push_agrees(params, s.elems, acc, op));
    lemma_next_named(params, head);
    lemma_quotient(l, n, 0, l);
    assert(head.index == l);
    assert(claims_were_started(params, s, acc, l, started));
    let claimants = may_claim_all(params, s, acc, l);
    lemma_len_subset(claimants, s.pushes.dom());
    assert(claimants.contains(id));
    vstd::set::axiom_set_remove_len(claimants, id);
    lemma_quotient(acc.allocated, n, 0, acc.allocated);
    if l == 0 {
        assert(version_at(n, acc.allocated, 0) == 0);
    } else {
        assert(l * size >= 1) by (nonlinear_arith)
            requires
                l >= 1,
                size >= 1,
        ;
    }
    assert(l * size >= 0) by (nonlinear_arith)
        requires
            l >= 0,
            size >= 1,
    ;
    lemma_claim_fits(params, s, acc, id);
}

/// A push that may still count up the word of a block after a turn could do so before.
proof fn lemma_fewer_may_claim<T>(
    params: QueueParameters,
    s: System<T>,
    acc: Account,
    id: int,
    acc2: Account,
    block: int,
)
    requires
        params.wf(),
        params.holds_elements(),
        system_agrees(params, s, acc),
        s.pushes.dom().contains(id),
        acc2.producer == producer_after(params, acc, s.pushes[id]),
    ensures
        may_claim_all(params, s.after_push(params, id), acc2, block).subset_of(
            may_claim_all(params, s, acc, block),
        ),
        s.pushes[id].state matches PushState::Claim { head, .. } ==> (block_named(params, head)
            == block ==> !may_claim_all(params, s.after_push(params, id), acc2, block).contains(id)),
{
    let n = params.num_blocks as int;
    let op = s.pushes[id];
    let after = s.after_push(params, id);
    assert(push_agrees(params, s.elems, acc, op));
    lemma_version_of_monotone(n, acc.producer, acc.committed);
    lemma_named(params, acc.producer);
    assert forall|k: int| may_claim_all(params, after, acc2, block).contains(k) implies may_claim_all(
        params,
        s,
        acc,
        block,
    ).contains(k) by {
        if k != id {
            assert(after.pushes[k] == s.pushes[k]);
        }
    }
}

}
