//! Any number of pushes and pops at a time.
//!
//! The operations under way take turns: each turn performs the one access that
//! an operation has sent, and the operation goes on to its next access. Which
//! operation has the next turn is left open.

use crate::sync::account::Account;
use crate::sync::error::{TryPopError, TryPushError};
use crate::sync::laps::{settled, slot_at};
use crate::sync::memory::{Access, BlockMemory, End, Memory, Reply};
use crate::sync::params::QueueParameters;
use crate::sync::pop::{PopState, PopStep};
use crate::sync::push::{EntryDescriptor, PushState, PushStep};
use crate::sync::system::{
    lemma_all_in_place, lemma_oldest, lemma_pop_turn, lemma_push_turn, lemma_sound, lemma_start,
    lemma_start_turn, lies_at, pop_agrees, push_agrees, system_agrees,
};
use vstd::prelude::*;

verus! {

/// A push that is under way.
pub struct PushOp<T> {
    /// How far the push has come.
    pub state: PushState<T>,
    /// The access that it has sent.
    pub access: Access<T>,
    /// The element that is pushed.
    pub elem: T,
    /// The number of the slot that the push has claimed, once it has.
    pub number: int,
    /// The replies that the push has got.
    pub replies: Seq<Reply<T>>,
}

/// A pop that is under way.
pub struct PopOp<T> {
    /// How far the pop has come.
    pub state: PopState<T>,
    /// The access that it has sent.
    pub access: Access<T>,
    /// The number of the slot that the pop has claimed, once it has.
    pub number: int,
    /// The replies that the pop has got.
    pub replies: Seq<Reply<T>>,
}

/// A queue with the operations that are under way on it, and a record of the
/// slots that were claimed.
pub struct System<T> {
    /// The words and slots of the queue.
    pub memory: Memory<T>,
    /// The pushes that are under way.
    pub pushes: Map<int, PushOp<T>>,
    /// The pops that are under way.
    pub pops: Map<int, PopOp<T>>,
    /// The elements of the pushes that have claimed a slot, in the order of the claims.
    pub elems: Seq<T>,
    /// How many slots pops have claimed.
    pub reserves: int,
    /// The numbers of the slots that pops have emptied and given back.
    pub returned: Set<int>,
}

/// What happens next.
pub enum Event<T> {
    /// A push starts.
    StartPush(int, T),
    /// A pop starts.
    StartPop(int),
    /// A push has its turn.
    TurnOfPush(int),
    /// A pop has its turn.
    TurnOfPop(int),
}

/// The allocated cursor of a block was counted up past its last offset, so that
/// it reads as if the block had just been opened.
pub open spec fn ran_over<T>(params: QueueParameters, b: BlockMemory<T>) -> bool {
    let cursor = params.cursor_of(b.allocated);
    ||| b.allocated != params.cursor_word(cursor)
    ||| cursor.version > params.cursor_of(b.committed).version
}

impl<T> PushOp<T> {
    /// A push that starts.
    pub open spec fn start(elem: T) -> Self {
        PushOp {
            state: PushState::Head { elem },
            access: Access::LoadHead(End::Producer),
            elem,
            number: 0,
            replies: Seq::empty(),
        }
    }

    /// The slot that the push has claimed and not given up yet.
    pub open spec fn entry(self) -> Option<EntryDescriptor> {
        match self.state {
            PushState::Write { entry } => Some(entry),
            PushState::Commit { entry } => Some(entry),
            _ => None,
        }
    }

    /// The reply claims a slot.
    pub open spec fn claims(self, params: QueueParameters, reply: Reply<T>) -> bool {
        self.state is Claim && reply->Cursor_0.offset < params.block_size
    }

    /// The next access would be led astray by a field that is too short: the
    /// allocated cursor has used up all of its offsets, or there is no version for
    /// the next block.
    pub open spec fn overflows(self, params: QueueParameters, memory: Memory<T>) -> bool {
        match self.state {
            PushState::Claim { head, .. } => {
                let b = memory.blocks[head.index as int];
                ran_over(params, b) || b.allocated == usize::MAX
            },
            PushState::RaiseCommitted { head, .. } => head.version + 1 >= params.versions(),
            _ => false,
        }
    }
}

impl<T> PopOp<T> {
    /// A pop that starts.
    pub open spec fn start() -> Self {
        PopOp {
            state: PopState::Head,
            access: Access::LoadHead(End::Consumer),
            number: 0,
            replies: Seq::empty(),
        }
    }

    /// The slot that the pop has claimed and not given up yet.
    pub open spec fn entry(self) -> Option<EntryDescriptor> {
        match self.state {
            PopState::Take { entry } => Some(entry),
            PopState::Consume { entry, .. } => Some(entry),
            _ => None,
        }
    }

    /// The reply claims a slot.
    pub open spec fn claims(self, reply: Reply<T>) -> bool {
        match self.state {
            PopState::RaiseReserved { reserved, .. } => reply->Cursor_0 == reserved,
            _ => false,
        }
    }
}

impl<T> System<T> {
    /// A queue on which no operation is under way.
    pub open spec fn idle(memory: Memory<T>) -> Self {
        System {
            memory,
            pushes: Map::empty(),
            pops: Map::empty(),
            elems: Seq::empty(),
            reserves: 0,
            returned: Set::empty(),
        }
    }

    /// The event can happen, and no field is too short for it.
    pub open spec fn allows(self, params: QueueParameters, event: Event<T>) -> bool {
        match event {
            Event::StartPush(id, _) => !self.pushes.dom().contains(id),
            Event::StartPop(id) => !self.pops.dom().contains(id),
            Event::TurnOfPush(id) => {
                &&& self.pushes.dom().contains(id)
                &&& !self.pushes[id].overflows(params, self.memory)
            },
            Event::TurnOfPop(id) => self.pops.dom().contains(id),
        }
    }

    /// The outcome of a push that ends with its turn.
    pub open spec fn push_result(self, params: QueueParameters, id: int) -> Option<
        Result<(), TryPushError<T>>,
    > {
        let op = self.pushes[id];
        match op.state.resumed(params, op.access.performed(params, self.memory).1) {
            PushStep::Next(_, _) => None,
            PushStep::Done(outcome) => Some(outcome),
        }
    }

    /// The outcome of a pop that ends with its turn.
    pub open spec fn pop_result(self, params: QueueParameters, id: int) -> Option<
        Result<T, TryPopError>,
    > {
        let op = self.pops[id];
        match op.state.resumed(params, op.access.performed(params, self.memory).1) {
            PopStep::Next(_, _) => None,
            PopStep::Done(outcome) => Some(outcome),
        }
    }

    /// The queue and its operations after a push has had its turn.
    pub open spec fn after_push(self, params: QueueParameters, id: int) -> Self {
        let op = self.pushes[id];
        let (memory, reply) = op.access.performed(params, self.memory);
        let claims = op.claims(params, reply);
        match op.state.resumed(params, reply) {
            PushStep::Next(state, access) => System {
                memory,
                pushes: self.pushes.insert(
                    id,
                    PushOp {
                        state,
                        access,
                        elem: op.elem,
                        number: if claims {
                            self.elems.len() as int
                        } else {
                            op.number
                        },
                        replies: op.replies.push(reply),
                    },
                ),
                elems: if claims {
                    self.elems.push(op.elem)
                } else {
                    self.elems
                },
                ..self
            },
            PushStep::Done(_) => System { memory, pushes: self.pushes.remove(id), ..self },
        }
    }

    /// The queue and its operations after a pop has had its turn.
    pub open spec fn after_pop(self, params: QueueParameters, id: int) -> Self {
        let op = self.pops[id];
        let (memory, reply) = op.access.performed(params, self.memory);
        let claims = op.claims(reply);
        match op.state.resumed(params, reply) {
            PopStep::Next(state, access) => System {
                memory,
                pops: self.pops.insert(
                    id,
                    PopOp {
                        state,
                        access,
                        number: if claims {
                            self.reserves
                        } else {
                            op.number
                        },
                        replies: op.replies.push(reply),
                    },
                ),
                reserves: if claims {
                    self.reserves + 1
                } else {
                    self.reserves
                },
                ..self
            },
            PopStep::Done(_) => System {
                memory,
                pops: self.pops.remove(id),
                returned: if op.state is Consume {
                    self.returned.insert(op.number)
                } else {
                    self.returned
                },
                ..self
            },
        }
    }

    /// The queue and its operations after an event.
    pub open spec fn after(self, params: QueueParameters, event: Event<T>) -> Self {
        match event {
            Event::StartPush(id, elem) => System {
                pushes: self.pushes.insert(id, PushOp::start(elem)),
                ..self
            },
            Event::StartPop(id) => System { pops: self.pops.insert(id, PopOp::start()), ..self },
            Event::TurnOfPush(id) => self.after_push(params, id),
            Event::TurnOfPop(id) => self.after_pop(params, id),
        }
    }

    /// The queue and its operations after a number of events.
    pub open spec fn after_all(self, params: QueueParameters, events: Seq<Event<T>>) -> Self
        decreases events.len(),
    {
        if events.len() == 0 {
            self
        } else {
            self.after_all(params, events.drop_last()).after(params, events.last())
        }
    }

    /// The events can happen one after the other, and no field is too short for
    /// any of them.
    pub open spec fn allows_all(self, params: QueueParameters, events: Seq<Event<T>>) -> bool
        decreases events.len(),
    {
        events.len() == 0 || {
            &&& self.allows_all(params, events.drop_last())
            &&& self.after_all(params, events.drop_last()).allows(params, events.last())
        }
    }

    /// Every operation finds its slot as it needs it, no two operations hold the
    /// same slot, and the queue holds no more elements than it has slots.
    pub open spec fn sound(self, params: QueueParameters) -> bool {
        // elements are popped after they were pushed, and the rest has room
        &&& 0 <= self.reserves <= self.elems.len()
        &&& self.elems.len() <= self.reserves + params.num_blocks * params.block_size
        // a push holds a slot that its element has claimed, and fills it once
        &&& forall|id: int|
            self.pushes.dom().contains(id) && (#[trigger] self.pushes[id]).entry() is Some ==> {
                let op = self.pushes[id];
                let entry = op.entry()->0;
                &&& entry.in_bounds(params)
                &&& 0 <= op.number < self.elems.len()
                &&& self.elems[op.number] == op.elem
                &&& op.state is Write ==> op.access == Access::Write(
                    entry.block,
                    entry.offset,
                    op.elem,
                )
                &&& op.state is Write
                    ==> self.memory.blocks[entry.block as int].data[entry.offset as int] is None
            }
        // a pop holds the slot with the number of its claim, and gets the element
        // of the push with that number
        &&& forall|id: int|
            self.pops.dom().contains(id) && (#[trigger] self.pops[id]).entry() is Some ==> {
                let op = self.pops[id];
                let entry = op.entry()->0;
                &&& entry.in_bounds(params)
                &&& 0 <= op.number < self.reserves
                &&& op.state is Take ==> op.access == Access::<T>::Take(entry.block, entry.offset)
                &&& op.state is Take
                    ==> self.memory.blocks[entry.block as int].data[entry.offset as int] == Some(
                    self.elems[op.number],
                )
                &&& op.state matches PopState::Consume { elem, .. } ==> elem
                    == self.elems[op.number]
            }
        // no two operations hold the same slot
        &&& forall|a: int, b: int|
            a != b && self.pushes.dom().contains(a) && self.pushes.dom().contains(b)
                && (#[trigger] self.pushes[a]).entry() is Some && (
            #[trigger] self.pushes[b]).entry() is Some ==> self.pushes[a].entry()
                != self.pushes[b].entry() && self.pushes[a].number != self.pushes[b].number
        &&& forall|a: int, b: int|
            a != b && self.pops.dom().contains(a) && self.pops.dom().contains(b) && (
            #[trigger] self.pops[a]).entry() is Some && (#[trigger] self.pops[b]).entry() is Some
                ==> self.pops[a].entry() != self.pops[b].entry() && self.pops[a].number
                != self.pops[b].number
        &&& forall|a: int, b: int|
            self.pushes.dom().contains(a) && self.pops.dom().contains(b) && (
            #[trigger] self.pushes[a]).entry() is Some && (#[trigger] self.pops[b]).entry() is Some
                ==> self.pushes[a].entry() != self.pops[b].entry()
    }
}

/// However the operations on a queue take turns, each of them finds its slot as
/// it needs it, no two of them hold the same slot, and the pop that claimed the
/// k-th slot gets the element of the push that claimed the k-th slot.
pub proof fn lemma_interleavings_are_sound<T>(
    params: QueueParameters,
    memory: Memory<T>,
    events: Seq<Event<T>>,
)
    requires
        params.wf(),
        params.holds_elements(),
        settled(params, memory, 0, 0),
        System::idle(memory).allows_all(params, events),
    ensures
        System::idle(memory).after_all(params, events).sound(params),
{
    let acc = lemma_interleaving(params, memory, events);
    lemma_sound(params, System::idle(memory).after_all(params, events), acc);
}

/// A pop that succeeds gives out the element whose push has claimed the slot
/// with the same number. A push that succeeds has its element in that place of
/// the record, and a push that is refused hands its element back.
pub proof fn lemma_results<T>(
    params: QueueParameters,
    memory: Memory<T>,
    events: Seq<Event<T>>,
    id: int,
)
    requires
        params.wf(),
        params.holds_elements(),
        settled(params, memory, 0, 0),
        System::idle(memory).allows_all(params, events),
    ensures
        ({
            let s = System::idle(memory).after_all(params, events);
            let push = s.pushes[id];
            let pop = s.pops[id];
            &&& s.pops.dom().contains(id) ==> (s.pop_result(params, id) matches Some(Ok(elem)) ==> {
                &&& 0 <= pop.number < s.reserves
                &&& elem == s.elems[pop.number]
                &&& !s.returned.contains(pop.number)
            })
            &&& s.pushes.dom().contains(id) ==> (s.push_result(params, id) matches Some(outcome)
                ==> match outcome {
                Ok(_) => 0 <= push.number < s.elems.len() && s.elems[push.number] == push.elem,
                Err(TryPushError::Full(elem)) => elem == push.elem,
                Err(TryPushError::Busy(elem)) => elem == push.elem,
            })
        }),
{
    let s = System::idle(memory).after_all(params, events);
    let acc = lemma_interleaving(params, memory, events);
    if s.pops.dom().contains(id) {
        assert(pop_agrees(params, s.elems, acc, s.pops[id]));
    }
    if s.pushes.dom().contains(id) {
        assert(push_agrees(params, s.elems, acc, s.pushes[id]));
    }
}

/// A push turns away from the next block only if a slot was not given back yet
/// that lies more than the lower bound of the capacity behind the last claimed
/// one.
pub proof fn lemma_refused_only_near_full<T>(
    params: QueueParameters,
    memory: Memory<T>,
    events: Seq<Event<T>>,
    id: int,
)
    requires
        params.wf(),
        params.holds_elements(),
        settled(params, memory, 0, 0),
        System::idle(memory).allows_all(params, events),
        System::idle(memory).after_all(params, events).pushes.dom().contains(id),
        System::idle(memory).after_all(params, events).pushes[id].state is Consumed,
        System::idle(memory).after_all(params, events).after_push(
            params,
            id,
        ).pushes[id].state is Reserved,
    ensures
        ({
            let s = System::idle(memory).after_all(params, events);
            exists|p: int|
                0 <= p && p + params.capacity.lower < s.elems.len() && !#[trigger] s.returned.contains(
                    p,
                )
        }),
{
    let s = System::idle(memory).after_all(params, events);
    let acc = lemma_interleaving(params, memory, events);
    let p = lemma_oldest(params, s, acc, id);
    assert(!s.returned.contains(p));
}

/// Where no operation is under way, the slots hold the elements that were pushed
/// and not popped yet, and nothing else: none was lost.
pub proof fn lemma_nothing_is_lost<T>(
    params: QueueParameters,
    memory: Memory<T>,
    events: Seq<Event<T>>,
)
    requires
        params.wf(),
        params.holds_elements(),
        settled(params, memory, 0, 0),
        System::idle(memory).allows_all(params, events),
        System::idle(memory).after_all(params, events).pushes.dom() == Set::<int>::empty(),
        System::idle(memory).after_all(params, events).pops.dom() == Set::<int>::empty(),
    ensures
        ({
            let s = System::idle(memory).after_all(params, events);
            &&& forall|p: int|
                s.reserves <= p < s.elems.len() ==> #[trigger] slot_at(params, s.memory, p) == Some(
                    s.elems[p],
                )
            &&& forall|p: int| 0 <= p < s.reserves ==> #[trigger] s.returned.contains(p)
            &&& forall|i: int, o: int|
                0 <= i < params.num_blocks && 0 <= o < params.block_size
                    && #[trigger] s.memory.blocks[i].data[o] is Some ==> exists|p: int|
                    s.reserves <= p < s.elems.len() && #[trigger] lies_at(params, p, i, o)
        }),
{
    let s = System::idle(memory).after_all(params, events);
    let acc = lemma_interleaving(params, memory, events);
    lemma_all_in_place(params, s, acc);
}

/// There is an account of every state that the operations can reach.
pub proof fn lemma_interleaving<T>(
    params: QueueParameters,
    memory: Memory<T>,
    events: Seq<Event<T>>,
) -> (acc: Account)
    requires
        params.wf(),
        params.holds_elements(),
        settled(params, memory, 0, 0),
        System::idle(memory).allows_all(params, events),
    ensures
        system_agrees(params, System::idle(memory).after_all(params, events), acc),
    decreases events.len(),
{
    if events.len() == 0 {
        lemma_start(params, memory)
    } else {
        let before = System::idle(memory).after_all(params, events.drop_last());
        let acc = lemma_interleaving(params, memory, events.drop_last());
        match events.last() {
            Event::StartPush(_, _) => {
                lemma_start_turn(params, before, acc, events.last());
                acc
            },
            Event::StartPop(_) => {
                lemma_start_turn(params, before, acc, events.last());
                acc
            },
            Event::TurnOfPush(id) => lemma_push_turn(params, before, acc, id),
            Event::TurnOfPop(id) => lemma_pop_turn(params, before, acc, id),
        }
    }
}

/// The record only grows: claims keep their numbers, and later claims get greater ones.
pub proof fn lemma_record_grows<T>(
    params: QueueParameters,
    system: System<T>,
    events: Seq<Event<T>>,
    k: int,
)
    requires
        0 <= k <= events.len(),
    ensures
        system.after_all(params, events.take(k)).elems.is_prefix_of(
            system.after_all(params, events).elems,
        ),
        system.after_all(params, events.take(k)).reserves <= system.after_all(
            params,
            events,
        ).reserves,
    decreases events.len(),
{
    if k == events.len() {
        assert(events.take(k) =~= events);
    } else {
        lemma_record_grows(params, system, events.drop_last(), k);
        assert(events.drop_last().take(k) =~= events.take(k));
    }
}

}
