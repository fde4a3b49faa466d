//! How far consumers are ahead of the consumer head.

use crate::sync::account::Account;
use crate::sync::cursor::UnpackedHead;
use crate::sync::interleave::{Event, PopOp, System};
use crate::sync::laps::{lap_head, settled};
use crate::sync::memory::Memory;
use crate::sync::opening::{block_named, lemma_named, lemma_version_of_monotone};
use crate::sync::params::QueueParameters;
use crate::sync::pop::PopState;
use crate::sync::system::{
    lemma_pop_turn, lemma_push_turn, lemma_start, lemma_start_turn, pop_agrees, system_agrees,
};
use vstd::prelude::*;

verus! {

impl<T> PopOp<T> {
    /// The head that the pop goes by.
    pub open spec fn head(self) -> Option<UnpackedHead> {
        match self.state {
            PopState::Head => None,
            PopState::Reserved { head } => Some(head),
            PopState::Committed { head, .. } => Some(head),
            PopState::Allocated { head, .. } => Some(head),
            PopState::RaiseReserved { head, .. } => Some(head),
            PopState::Take { .. } => None,
            PopState::Consume { .. } => None,
            PopState::NextCommitted { head } => Some(head),
            PopState::RaiseConsumed { head } => Some(head),
            PopState::RaiseNextReserved { head } => Some(head),
            PopState::RaiseHead { head } => Some(head),
        }
    }
}

/// A pop is about to raise the consumer head past a block.
pub open spec fn raises_head<T>(
    params: QueueParameters,
    s: System<T>,
    id: int,
    block: int,
) -> bool {
    &&& s.pops.dom().contains(id)
    &&& s.pops[id].state matches PopState::RaiseHead { head } && block_named(params, head) == block
}

/// A pop is about to enter the block after a given one.
pub open spec fn enters_next<T>(
    params: QueueParameters,
    s: System<T>,
    id: int,
    block: int,
) -> bool {
    &&& s.pops.dom().contains(id)
    &&& s.pops[id].state matches PopState::RaiseNextReserved { head } && block_named(params, head)
        == block
}

/// Consumers are ahead of the consumer head only as far as pops under way have
/// brought them.
pub open spec fn heads_agree<T>(params: QueueParameters, s: System<T>, acc: Account) -> bool {
    &&& acc.consumed <= acc.consumer + 1
    &&& forall|id: int|
        s.pops.dom().contains(id) ==> ((#[trigger] s.pops[id]).head() matches Some(head)
            ==> block_named(params, head) <= acc.consumer)
    &&& acc.reserved > acc.consumer ==> exists|id: int| raises_head(params, s, id, acc.consumer)
    &&& acc.consumed > acc.reserved ==> exists|id: int| enters_next(params, s, id, acc.reserved)
}

/// A pop that reads the consumer head gets the head that the account gives.
proof fn lemma_head_read<T>(params: QueueParameters, s: System<T>, acc: Account)
    requires
        params.wf(),
        params.holds_elements(),
        system_agrees(params, s, acc),
    ensures
        params.head_of(s.memory.consumer) == lap_head(params, acc.consumer),
        block_named(params, lap_head(params, acc.consumer)) == acc.consumer,
{
    let n = params.num_blocks as int;
    lemma_version_of_monotone(n, acc.consumer, acc.committed);
    lemma_named(params, acc.consumer);
}

/// What a pop goes by after its turn.
pub proof fn lemma_head_kept<T>(params: QueueParameters, s: System<T>, acc: Account, id: int)
    requires
        params.wf(),
        params.holds_elements(),
        system_agrees(params, s, acc),
        s.pops.dom().contains(id),
        s.after_pop(params, id).pops.dom().contains(id),
    ensures
        s.after_pop(params, id).pops[id].head() matches Some(head) ==> {
            ||| s.pops[id].head() == Some(head)
            ||| s.pops[id].state is Head && block_named(params, head) == acc.consumer
        },
{
    lemma_head_read(params, s, acc);
    assert(pop_agrees(params, s.elems, acc, s.pops[id]));
}

/// The turn of a pop leaves the heads in agreement.
proof fn lemma_heads_after_pop<T>(
    params: QueueParameters,
    s: System<T>,
    acc: Account,
    id: int,
) -> (acc2: Account)
    requires
        params.wf(),
        params.holds_elements(),
        system_agrees(params, s, acc),
        heads_agree(params, s, acc),
        s.pops.dom().contains(id),
    ensures
        system_agrees(params, s.after_pop(params, id), acc2),
        heads_agree(params, s.after_pop(params, id), acc2),
        acc2.committed == acc.committed,
        acc2.allocated == acc.allocated,
        acc.consumer <= acc2.consumer,
{
    let s2 = s.after_pop(params, id);
    let acc2 = lemma_pop_turn(params, s, acc, id);
    let op = s.pops[id];
    assert(pop_agrees(params, s.elems, acc, op));
    assert forall|k: int| s2.pops.dom().contains(k) implies ((
    #[trigger] s2.pops[k]).head() matches Some(head) ==> block_named(params, head)
        <= acc2.consumer) by {
        if k == id {
            lemma_head_kept(params, s, acc, id);
        } else {
            assert(s2.pops[k] == s.pops[k]);
        }
    }
    if acc2.reserved > acc2.consumer {
        if acc.reserved > acc.consumer {
            let k = choose|k: int| raises_head(params, s, k, acc.consumer);
            assert(k != id);
            assert(raises_head(params, s2, k, acc2.consumer));
        } else {
            assert(raises_head(params, s2, id, acc2.consumer));
        }
    }
    if acc2.consumed > acc2.reserved {
        if acc.consumed > acc.reserved {
            let k = choose|k: int| enters_next(params, s, k, acc.reserved);
            assert(k != id);
            assert(enters_next(params, s2, k, acc2.reserved));
        } else {
            assert(enters_next(params, s2, id, acc2.reserved));
        }
    }
    acc2
}

/// The heads stay in agreement when pushes have their turns, and when operations start.
proof fn lemma_heads_stay<T>(
    params: QueueParameters,
    s: System<T>,
    acc: Account,
    s2: System<T>,
    acc2: Account,
)
    requires
        heads_agree(params, s, acc),
        acc2.consumer == acc.consumer,
        acc2.reserved == acc.reserved,
        acc2.consumed == acc.consumed,
        forall|id: int|
            s.pops.dom().contains(id) ==> s2.pops.dom().contains(id) && #[trigger] s2.pops[id]
                == s.pops[id],
        forall|id: int|
            s2.pops.dom().contains(id) ==> s.pops.dom().contains(id) || (
            #[trigger] s2.pops[id]).head() is None,
    ensures
        heads_agree(params, s2, acc2),
{
    assert forall|k: int| s2.pops.dom().contains(k) implies ((
    #[trigger] s2.pops[k]).head() matches Some(head) ==> block_named(params, head)
        <= acc2.consumer) by {
        if s.pops.dom().contains(k) {
            assert(s2.pops[k] == s.pops[k]);
        }
    }
    if acc2.reserved > acc2.consumer {
        let k = choose|k: int| raises_head(params, s, k, acc.consumer);
        assert(raises_head(params, s2, k, acc2.consumer));
    }
    if acc2.consumed > acc2.reserved {
        let k = choose|k: int| enters_next(params, s, k, acc.reserved);
        assert(enters_next(params, s2, k, acc2.reserved));
    }
}

/// One event leaves the heads in agreement.
pub proof fn lemma_heads_after<T>(
    params: QueueParameters,
    s: System<T>,
    acc: Account,
    event: Event<T>,
) -> (acc2: Account)
    requires
        params.wf(),
        params.holds_elements(),
        system_agrees(params, s, acc),
        heads_agree(params, s, acc),
        s.allows(params, event),
    ensures
        system_agrees(params, s.after(params, event), acc2),
        heads_agree(params, s.after(params, event), acc2),
        acc.consumer <= acc2.consumer,
        event is StartPop || event is TurnOfPop ==> acc2.committed == acc.committed
            && acc2.allocated == acc.allocated,
        event is StartPush || event is TurnOfPush ==> acc2.consumer == acc.consumer
            && acc2.reserved == acc.reserved && acc2.consumed == acc.consumed,
{
    let s2 = s.after(params, event);
    match event {
        Event::StartPush(_, _) => {
            lemma_start_turn(params, s, acc, event);
            lemma_heads_stay(params, s, acc, s2, acc);
            acc
        },
        Event::StartPop(_) => {
            lemma_start_turn(params, s, acc, event);
            lemma_heads_stay(params, s, acc, s2, acc);
            acc
        },
        Event::TurnOfPush(id) => {
            let acc2 = lemma_push_turn(params, s, acc, id);
            lemma_heads_stay(params, s, acc, s2, acc2);
            acc2
        },
        Event::TurnOfPop(id) => lemma_heads_after_pop(params, s, acc, id),
    }
}

/// There is an account of every state that the operations can reach, and the
/// heads agree with it.
pub proof fn lemma_heads<T>(
    params: QueueParameters,
    memory: Memory<T>,
    events: Seq<Event<T>>,
) -> (acc: Account)
    requires
        params.wf(),
        params.holds_elements(),
        settled(params, memory, 0, 0),
        System::idle(memory).allows_all(params, events),
    ensures
        system_agrees(params, System::idle(memory).after_all(params, events), acc),
        heads_agree(params, System::idle(memory).after_all(params, events), acc),
    decreases events.len(),
{
    if events.len() == 0 {
        lemma_start(params, memory)
    } else {
        let before = System::idle(memory).after_all(params, events.drop_last());
        let acc = lemma_heads(params, memory, events.drop_last());
        lemma_heads_after(params, before, acc, events.last())
    }
}

/// Where no pop is under way, consumers are where the consumer head is.
pub proof fn lemma_heads_at_rest<T>(params: QueueParameters, s: System<T>, acc: Account)
    requires
        system_agrees(params, s, acc),
        heads_agree(params, s, acc),
        s.pops.dom() == Set::<int>::empty(),
    ensures
        acc.consumer == acc.reserved,
        acc.consumed == acc.reserved,
{
    if acc.reserved > acc.consumer {
        let k = choose|k: int| raises_head(params, s, k, acc.consumer);
        assert(s.pops.dom().contains(k));
    }
    if acc.consumed > acc.reserved {
        let k = choose|k: int| enters_next(params, s, k, acc.reserved);
        assert(s.pops.dom().contains(k));
    }
}

}
