//! How many pushes may be under way at a time.
//!
//! A push that finds its block full has counted the allocated cursor up past the
//! end of the block. The offset field has room for that as long as there are not
//! too many pushes at a time.

use crate::sync::account::{
    block_agrees, claims_at, committed, lemma_tally_in_range, tally, Account,
};
use crate::sync::alone::lemma_laps_in_range;
use crate::sync::bits::{lemma_word_count, word_count};
use crate::sync::interleave::{Event, PushOp, System};
use crate::sync::laps::{
    block_settled, lap_cursor, lemma_next_block, lemma_quotient, lemma_version_monotone, settled,
    version_at,
};
use crate::sync::memory::Memory;
use crate::sync::opening::{
    block_named, lemma_next_named, lemma_raise_allocated, lemma_version_of_monotone,
};
use crate::sync::params::QueueParameters;
use crate::sync::push::{next_index, PushState};
use crate::sync::slots::lemma_claims_read;
use crate::sync::system::{
    allocated_after, lemma_pop_turn, lemma_push_turn, lemma_start, lemma_start_turn, pop_agrees,
    producer_after, push_agrees, system_agrees,
};
use vstd::prelude::*;
use vstd::set_lib::lemma_len_subset;

verus! {

/// A push is about to count up the allocated cursor at an index.
pub open spec fn is_claimant<T>(op: PushOp<T>, i: int) -> bool {
    op.state matches PushState::Claim { head, .. } && head.index == i
}

/// The pushes that are about to count up the allocated cursor at an index.
pub open spec fn claimants<T>(s: System<T>, i: int) -> Set<int> {
    s.pushes.dom().filter(|id: int| is_claimant(s.pushes[id], i))
}

/// How many claims the allocated word at an index has counted.
pub open spec fn claims_counted<T>(
    params: QueueParameters,
    memory: Memory<T>,
    acc: Account,
    i: int,
) -> int {
    claims_at(params, memory.blocks[i].allocated, acc, i)
}

/// How many pushes the offset field has room for.
pub open spec fn room_for_pushes(params: QueueParameters) -> int {
    params.offsets() - params.block_size
}

impl<T> System<T> {
    /// The event can happen.
    pub open spec fn can_happen(self, event: Event<T>) -> bool {
        match event {
            Event::StartPush(id, _) => !self.pushes.dom().contains(id),
            Event::StartPop(id) => !self.pops.dom().contains(id),
            Event::TurnOfPush(id) => self.pushes.dom().contains(id),
            Event::TurnOfPop(id) => self.pops.dom().contains(id),
        }
    }

    /// The event can happen, and there is a version for the block that it opens.
    pub open spec fn possible(self, params: QueueParameters, event: Event<T>) -> bool {
        &&& self.can_happen(event)
        &&& event matches Event::TurnOfPush(id) ==> (
        self.pushes[id].state matches PushState::RaiseCommitted { head, .. } ==> head.version + 1
            < params.versions())
    }

    /// The events can happen one after the other, there is a version for every
    /// block that they open, and no more pushes are under way at a time than the
    /// offset field has room for.
    pub open spec fn possible_all(self, params: QueueParameters, events: Seq<Event<T>>) -> bool
        decreases events.len(),
    {
        &&& self.after_all(params, events).pushes.dom().len() <= room_for_pushes(params)
        &&& events.len() == 0 || {
            &&& self.possible_all(params, events.drop_last())
            &&& self.after_all(params, events.drop_last()).possible(params, events.last())
        }
    }
}

/// How many claims the allocated word at an index has counted after the turn of a push.
pub open spec fn claims_after<T>(
    params: QueueParameters,
    memory: Memory<T>,
    acc: Account,
    op: PushOp<T>,
    i: int,
) -> int {
    match op.state {
        PushState::Claim { head, .. } => if head.index == i {
            claims_counted(params, memory, acc, i) + 1
        } else {
            claims_counted(params, memory, acc, i)
        },
        PushState::RaiseAllocated { head, .. } => if next_index(params, head) == i && acc.allocated
            <= block_named(params, head) {
            0
        } else {
            claims_counted(params, memory, acc, i)
        },
        _ => claims_counted(params, memory, acc, i),
    }
}

/// The turn of a push counts its claim, or opens a block.
pub proof fn lemma_push_counts<T>(params: QueueParameters, s: System<T>, acc: Account, id: int) -> (
    acc2: Account)
    requires
        params.wf(),
        params.holds_elements(),
        system_agrees(params, s, acc),
        s.pushes.dom().contains(id),
        !s.pushes[id].overflows(params, s.memory),
        s.pushes[id].state matches PushState::Claim { head, .. } ==> claims_counted(
            params,
            s.memory,
            acc,
            head.index as int,
        ) < params.offsets(),
    ensures
        system_agrees(params, s.after_push(params, id), acc2),
        acc2.allocated == allocated_after(params, s.memory, acc, s.pushes[id]),
        acc2.producer == producer_after(params, acc, s.pushes[id]),
        forall|i: int|
            0 <= i < params.num_blocks ==> #[trigger] claims_counted(
                params,
                s.after_push(params, id).memory,
                acc2,
                i,
            ) == claims_after(params, s.memory, acc, s.pushes[id], i),
{
    let n = params.num_blocks as int;
    let op = s.pushes[id];
    let after = s.after_push(params, id);
    params.lemma_layout();
    assert(push_agrees(params, s.elems, acc, op));
    let acc2 = lemma_push_turn(params, s, acc, id);
    assert forall|i: int| 0 <= i < n implies #[trigger] claims_counted(
        params,
        after.memory,
        acc2,
        i,
    ) == claims_after(params, s.memory, acc, op, i) by {
        let b = s.memory.blocks[i];
        if let PushState::RaiseAllocated { head, .. } = op.state {
            let l = block_named(params, head);
            let j = next_index(params, head) as int;
            lemma_next_named(params, head);
            lemma_version_of_monotone(n, l + 1, acc.committed);
            assert(block_agrees(params, s.memory.blocks[j], s.elems, acc, j));
            lemma_raise_allocated(params, head, acc, s.memory.blocks[j].allocated);
            if acc.allocated <= l {
                assert(acc.allocated == l);
                lemma_next_block(n, l, i);
            }
        }
    }
    acc2
}

/// A claim that leaves an offset unused is not led astray.
pub proof fn lemma_claim_fits<T>(params: QueueParameters, s: System<T>, acc: Account, id: int)
    requires
        params.wf(),
        params.holds_elements(),
        system_agrees(params, s, acc),
        s.pushes.dom().contains(id),
        s.pushes[id].state is Claim,
        ({
            let i = s.pushes[id].state->Claim_head.index as int;
            let claims = claims_counted(params, s.memory, acc, i);
            ||| claims + 1 < params.offsets()
            ||| claims < params.offsets() && version_at(
                params.num_blocks as int,
                acc.allocated,
                i,
            ) + 1 < params.versions()
        }),
    ensures
        !s.pushes[id].overflows(params, s.memory),
{
    let n = params.num_blocks as int;
    let i = s.pushes[id].state->Claim_head.index as int;
    let b = s.memory.blocks[i];
    let version = version_at(n, acc.allocated, i);
    let unit = params.unit();
    params.lemma_layout();
    assert(push_agrees(params, s.elems, acc, s.pushes[id]));
    assert(block_agrees(params, b, s.elems, acc, i));
    lemma_claims_read(params, b.allocated, acc, i);
    lemma_version_monotone(n, acc.allocated, acc.committed, i);
    lemma_tally_in_range(params, acc.progress, acc.committed, acc.committed, i, committed());
    params.lemma_cursor_round_trip(tally(params, acc.progress, acc.committed, i, committed()));
    assert(version * unit + unit <= word_count()) by (nonlinear_arith)
        requires
            version + 1 <= params.versions(),
            params.versions() * unit == word_count(),
            unit >= 1,
    ;
    if version + 1 < params.versions() {
        assert(version * unit + 2 * unit <= word_count()) by (nonlinear_arith)
            requires
                version + 2 <= params.versions(),
                params.versions() * unit == word_count(),
                unit >= 1,
        ;
    }
    lemma_word_count();
}

/// Past the end of a block the allocated cursor has counted no more pushes than
/// there is room for, including those that are about to count.
spec fn claims_have_room<T>(params: QueueParameters, s: System<T>, acc: Account, i: int) -> bool {
    let claims = claims_counted(params, s.memory, acc, i);
    claims < params.block_size || claims + claimants(s, i).len() < params.offsets()
}

/// The claims at every index have room.
spec fn all_claims_have_room<T>(params: QueueParameters, s: System<T>, acc: Account) -> bool {
    &&& s.pushes.dom().finite()
    &&& forall|i: int| 0 <= i < params.num_blocks ==> #[trigger] claims_have_room(params, s, acc, i)
}

/// Where no more pushes are under way at a time than the offset field has room
/// for, no field is too short.
pub proof fn lemma_few_pushes_do_not_overflow<T>(
    params: QueueParameters,
    memory: Memory<T>,
    events: Seq<Event<T>>,
)
    requires
        params.wf(),
        params.holds_elements(),
        settled(params, memory, 0, 0),
        System::idle(memory).possible_all(params, events),
    ensures
        System::idle(memory).allows_all(params, events),
{
    let _ = lemma_room(params, memory, events);
}

proof fn lemma_room<T>(params: QueueParameters, memory: Memory<T>, events: Seq<Event<T>>) -> (acc:
    Account)
    requires
        params.wf(),
        params.holds_elements(),
        settled(params, memory, 0, 0),
        System::idle(memory).possible_all(params, events),
    ensures
        System::idle(memory).allows_all(params, events),
        system_agrees(params, System::idle(memory).after_all(params, events), acc),
        all_claims_have_room(params, System::idle(memory).after_all(params, events), acc),
    decreases events.len(),
{
    let s = System::idle(memory).after_all(params, events);
    if events.len() == 0 {
        params.lemma_layout();
        let acc = lemma_start(params, memory);
        assert forall|i: int| 0 <= i < params.num_blocks implies #[trigger] claims_have_room(
            params,
            s,
            acc,
            i,
        ) by {
            assert(claimants(s, i) =~= Set::empty());
            lemma_first_claims(params, memory, acc, i);
        }
        acc
    } else {
        let before = System::idle(memory).after_all(params, events.drop_last());
        reveal_with_fuel(System::possible_all, 2);
        let acc = lemma_room(params, memory, events.drop_last());
        match events.last() {
            Event::TurnOfPush(id) => lemma_push_has_room(params, before, acc, id),
            Event::TurnOfPop(id) => {
                let acc2 = lemma_pop_turn(params, before, acc, id);
                assert(pop_agrees(params, before.elems, acc, before.pops[id]));
                assert forall|i: int| 0 <= i < params.num_blocks implies #[trigger] claims_have_room(
                    params,
                    s,
                    acc2,
                    i,
                ) by {
                    assert(claims_have_room(params, before, acc, i));
                    assert(claimants(s, i) =~= claimants(before, i));
                }
                acc2
            },
            Event::StartPush(_, _) => {
                lemma_start_turn(params, before, acc, events.last());
                lemma_start_leaves_room(params, before, s, acc);
                acc
            },
            Event::StartPop(_) => {
                lemma_start_turn(params, before, acc, events.last());
                lemma_start_leaves_room(params, before, s, acc);
                acc
            },
        }
    }
}

/// At first the allocated words have counted nothing in the first block, and all
/// slots of the others.
pub proof fn lemma_first_claims<T>(
    params: QueueParameters,
    memory: Memory<T>,
    acc: Account,
    i: int,
)
    requires
        params.wf(),
        params.holds_elements(),
        settled(params, memory, 0, 0),
        acc.allocated == 0,
        0 <= i < params.num_blocks,
    ensures
        claims_counted(params, memory, acc, i) == (if i == 0 {
            0int
        } else {
            params.block_size as int
        }),
{
    let n = params.num_blocks as int;
    params.lemma_layout();
    assert(block_settled(params, memory.blocks[i], 0, 0, 0, 0, i));
    lemma_quotient(0, n, 0, 0);
    lemma_quotient(0, params.block_size as int, 0, 0);
    lemma_laps_in_range(params, 0, 0, 0, i);
    params.lemma_cursor_round_trip(lap_cursor(params, 0, 0, i));
}

/// An event that neither touches an allocated cursor nor makes a push a
/// claimant leaves as much room.
proof fn lemma_leaves_room<T>(
    params: QueueParameters,
    before: System<T>,
    acc: Account,
    after: System<T>,
    acc2: Account,
    i: int,
)
    requires
        before.pushes.dom().finite(),
        claims_have_room(params, before, acc, i),
        claims_counted(params, after.memory, acc2, i) == claims_counted(
            params,
            before.memory,
            acc,
            i,
        ),
        claimants(after, i).subset_of(claimants(before, i)),
    ensures
        claims_have_room(params, after, acc2, i),
{
    lemma_len_subset(claimants(before, i), before.pushes.dom());
    lemma_len_subset(claimants(after, i), claimants(before, i));
}

/// The start of an operation leaves as much room.
proof fn lemma_start_leaves_room<T>(
    params: QueueParameters,
    before: System<T>,
    after: System<T>,
    acc: Account,
)
    requires
        all_claims_have_room(params, before, acc),
        after.memory == before.memory,
        after.pushes.dom().finite(),
        forall|id: int| #[trigger]
            after.pushes.dom().contains(id) ==> after.pushes[id].state is Head
                || before.pushes.dom().contains(id) && after.pushes[id] == before.pushes[id],
    ensures
        all_claims_have_room(params, after, acc),
{
    assert forall|i: int| 0 <= i < params.num_blocks implies #[trigger] claims_have_room(
        params,
        after,
        acc,
        i,
    ) by {
        assert(claims_have_room(params, before, acc, i));
        assert forall|id: int| claimants(after, i).contains(id) implies claimants(
            before,
            i,
        ).contains(id) by {
            assert(after.pushes.dom().contains(id));
        }
        lemma_leaves_room(params, before, acc, after, acc, i);
    }
}

/// The turn of a push is not led astray, and leaves room.
proof fn lemma_push_has_room<T>(
    params: QueueParameters,
    s: System<T>,
    acc: Account,
    id: int,
) -> (acc2: Account)
    requires
        params.wf(),
        params.holds_elements(),
        system_agrees(params, s, acc),
        all_claims_have_room(params, s, acc),
        s.pushes.dom().contains(id),
        s.pushes.dom().len() <= room_for_pushes(params),
        s.possible(params, Event::TurnOfPush(id)),
    ensures
        s.allows(params, Event::TurnOfPush(id)),
        system_agrees(params, s.after_push(params, id), acc2),
        all_claims_have_room(params, s.after_push(params, id), acc2),
{
    let n = params.num_blocks as int;
    let size = params.block_size as int;
    let op = s.pushes[id];
    let after = s.after_push(params, id);
    params.lemma_layout();
    assert(push_agrees(params, s.elems, acc, op));
    if let PushState::Claim { head, .. } = op.state {
        let i = head.index as int;
        assert(claims_have_room(params, s, acc, i));
        assert(claimants(s, i).contains(id));
        lemma_len_subset(claimants(s, i), s.pushes.dom());
        vstd::set::axiom_set_remove_len(claimants(s, i), id);
        lemma_claim_fits(params, s, acc, id);
    }
    let acc2 = lemma_push_counts(params, s, acc, id);
    assert forall|i: int| 0 <= i < n implies #[trigger] claims_have_room(params, after, acc2, i) by {
        assert(claims_have_room(params, s, acc, i));
        let claims = claims_counted(params, s.memory, acc, i);
        assert(claims_counted(params, after.memory, acc2, i) == claims_after(
            params,
            s.memory,
            acc,
            op,
            i,
        ));
        match op.state {
            PushState::Check { head, .. } => {
                if claims >= size {
                    assert(block_agrees(params, s.memory.blocks[i], s.elems, acc, i));
                    lemma_claims_read(params, s.memory.blocks[i].allocated, acc, i);
                    assert forall|k: int| claimants(after, i).contains(k) implies claimants(
                        s,
                        i,
                    ).contains(k) by {}
                    lemma_leaves_room(params, s, acc, after, acc2, i);
                }
            },
            PushState::Claim { head, .. } => {
                if i == head.index {
                    assert(claimants(after, i) =~= claimants(s, i).remove(id));
                    lemma_len_subset(claimants(s, i), s.pushes.dom());
                    vstd::set::axiom_set_remove_len(claimants(s, i), id);
                } else {
                    assert(claimants(after, i) =~= claimants(s, i));
                    lemma_leaves_room(params, s, acc, after, acc2, i);
                }
            },
            _ => {
                assert forall|k: int| claimants(after, i).contains(k) implies claimants(
                    s,
                    i,
                ).contains(k) by {}
                if claims_counted(params, after.memory, acc2, i) == claims {
                    lemma_leaves_room(params, s, acc, after, acc2, i);
                }
            },
        }
    }
    acc2
}

}
