//! A pop, as a sequence of accesses.

use crate::sync::cursor::{UnpackedCursor, UnpackedHead};
use crate::sync::error::TryPopError;
use crate::sync::memory::{Access, End, Field, Reply};
use crate::sync::params::QueueParameters;
use crate::sync::push::{
    compute_next_head, compute_next_index, compute_next_start, head_ok, next_index, next_start,
    EntryDescriptor,
};
use vstd::prelude::*;

verus! {

/// How far a pop has come: which reply it waits for.
#[derive(Debug)]
pub enum PopState<T> {
    /// Waits for the consumer head.
    Head,
    /// Waits for the reserved cursor of the head's block, to see how much of the block is claimed.
    Reserved { head: UnpackedHead },
    /// Waits for the committed cursor of the block, to see whether it holds an element.
    Committed { head: UnpackedHead, reserved: UnpackedCursor },
    /// Waits for the allocated cursor of the block, to see whether a producer is at work.
    Allocated { head: UnpackedHead, reserved: UnpackedCursor, committed: UnpackedCursor },
    /// Waits for the reserved cursor that it raised to claim a slot.
    RaiseReserved { head: UnpackedHead, reserved: UnpackedCursor },
    /// Waits for its slot to be emptied.
    Take { entry: EntryDescriptor },
    /// Waits for the consumed cursor to be counted up.
    Consume { entry: EntryDescriptor, elem: T },
    /// Waits for the committed cursor of the next block, to see whether a producer has opened it.
    NextCommitted { head: UnpackedHead },
    /// Waits for the consumed cursor of the next block to be raised.
    RaiseConsumed { head: UnpackedHead },
    /// Waits for the reserved cursor of the next block to be raised.
    RaiseNextReserved { head: UnpackedHead },
    /// Waits for the consumer head to be raised to the next block.
    RaiseHead { head: UnpackedHead },
}

/// What a pop does with a reply.
#[derive(Debug)]
pub enum PopStep<T> {
    /// It sends the next access.
    Next(PopState<T>, Access<T>),
    /// It is over.
    Done(Result<T, TryPopError>),
}

/// The cursor one slot further.
pub open spec fn one_further(cursor: UnpackedCursor) -> UnpackedCursor {
    UnpackedCursor { version: cursor.version, offset: (cursor.offset + 1) as usize }
}

/// A cursor that lies within a block.
pub open spec fn within_block(params: QueueParameters, cursor: UnpackedCursor) -> bool {
    params.cursor_in_range(cursor) && cursor.offset < params.block_size
}

impl<T> PopState<T> {
    /// The heads, cursors and entries that the pop has read are in bounds.
    pub open spec fn wf(self, params: QueueParameters) -> bool {
        match self {
            PopState::Head => true,
            PopState::Reserved { head } => head_ok(params, head),
            PopState::Committed { head, reserved } => head_ok(params, head) && within_block(
                params,
                reserved,
            ),
            PopState::Allocated { head, reserved, committed } => head_ok(params, head)
                && within_block(params, reserved) && params.cursor_in_range(committed),
            PopState::RaiseReserved { head, reserved } => head_ok(params, head) && within_block(
                params,
                reserved,
            ),
            PopState::Take { entry } => entry.in_bounds(params),
            PopState::Consume { entry, .. } => entry.in_bounds(params),
            PopState::NextCommitted { head } => head_ok(params, head),
            PopState::RaiseConsumed { head } => head_ok(params, head),
            PopState::RaiseNextReserved { head } => head_ok(params, head),
            PopState::RaiseHead { head } => head_ok(params, head),
        }
    }

    /// The access whose reply the pop waits for.
    pub open spec fn waits_for(self, params: QueueParameters, access: Access<T>) -> bool {
        access == match self {
            PopState::Head => Access::<T>::LoadHead(End::Consumer),
            PopState::Reserved { head } => Access::Load(head.index, Field::Reserved),
            PopState::Committed { head, .. } => Access::Load(head.index, Field::Committed),
            PopState::Allocated { head, .. } => Access::Load(head.index, Field::Allocated),
            PopState::RaiseReserved { head, reserved } => Access::Raise(
                head.index,
                Field::Reserved,
                one_further(reserved),
            ),
            PopState::Take { entry } => Access::Take(entry.block, entry.offset),
            PopState::Consume { entry, .. } => Access::Increment(entry.block, Field::Consumed),
            PopState::NextCommitted { head } => Access::Load(
                next_index(params, head),
                Field::Committed,
            ),
            PopState::RaiseConsumed { head } => Access::Raise(
                next_index(params, head),
                Field::Consumed,
                next_start(head),
            ),
            PopState::RaiseNextReserved { head } => Access::Raise(
                next_index(params, head),
                Field::Reserved,
                next_start(head),
            ),
            PopState::RaiseHead { head } => Access::RaiseHead(
                End::Consumer,
                head.incremented(params, 1),
            ),
        }
    }

    /// The reply has the form that the pop waits for.
    pub open spec fn accepts(self, params: QueueParameters, reply: Reply<T>) -> bool {
        match self {
            PopState::Head => reply matches Reply::Head(head) && head_ok(params, head),
            PopState::Take { .. } => reply is Taken,
            PopState::RaiseHead { .. } => reply is Head,
            _ => reply matches Reply::Cursor(cursor) && params.cursor_in_range(cursor),
        }
    }

    /// The access that follows a reply, or the outcome of the pop.
    pub open spec fn resumed(self, params: QueueParameters, reply: Reply<T>) -> PopStep<T> {
        match self {
            PopState::Head => {
                let head = reply->Head_0;
                PopStep::Next(
                    PopState::Reserved { head },
                    Access::Load(head.index, Field::Reserved),
                )
            },
            PopState::Reserved { head } => {
                let reserved = reply->Cursor_0;
                if reserved.offset < params.block_size {
                    PopStep::Next(
                        PopState::Committed { head, reserved },
                        Access::Load(head.index, Field::Committed),
                    )
                } else {
                    PopStep::Next(
                        PopState::NextCommitted { head },
                        Access::Load(next_index(params, head), Field::Committed),
                    )
                }
            },
            PopState::Committed { head, reserved } => {
                let committed = reply->Cursor_0;
                if reserved.offset == committed.offset {
                    PopStep::Done(Err(TryPopError::Empty))
                } else if committed.offset != params.block_size {
                    PopStep::Next(
                        PopState::Allocated { head, reserved, committed },
                        Access::Load(head.index, Field::Allocated),
                    )
                } else {
                    PopStep::Next(
                        PopState::RaiseReserved { head, reserved },
                        Access::Raise(head.index, Field::Reserved, one_further(reserved)),
                    )
                }
            },
            PopState::Allocated { head, reserved, committed } => if reply->Cursor_0.offset
                != committed.offset {
                PopStep::Done(Err(TryPopError::Busy))
            } else {
                PopStep::Next(
                    PopState::RaiseReserved { head, reserved },
                    Access::Raise(head.index, Field::Reserved, one_further(reserved)),
                )
            },
            PopState::RaiseReserved { head, reserved } => if reply->Cursor_0 == reserved {
                let entry = EntryDescriptor { block: head.index, offset: reserved.offset };
                PopStep::Next(PopState::Take { entry }, Access::Take(entry.block, entry.offset))
            } else {
                PopStep::Next(
                    PopState::Reserved { head },
                    Access::Load(head.index, Field::Reserved),
                )
            },
            PopState::Take { entry } => match reply->Taken_0 {
                Some(elem) => PopStep::Next(
                    PopState::Consume { entry, elem },
                    Access::Increment(entry.block, Field::Consumed),
                ),
                None => PopStep::Next(
                    PopState::Take { entry },
                    Access::Take(entry.block, entry.offset),
                ),
            },
            PopState::Consume { elem, .. } => PopStep::Done(Ok(elem)),
            PopState::NextCommitted { head } => if reply->Cursor_0.version != head.version + 1 {
                PopStep::Done(Err(TryPopError::Empty))
            } else {
                PopStep::Next(
                    PopState::RaiseConsumed { head },
                    Access::Raise(next_index(params, head), Field::Consumed, next_start(head)),
                )
            },
            PopState::RaiseConsumed { head } => PopStep::Next(
                PopState::RaiseNextReserved { head },
                Access::Raise(next_index(params, head), Field::Reserved, next_start(head)),
            ),
            PopState::RaiseNextReserved { head } => PopStep::Next(
                PopState::RaiseHead { head },
                Access::RaiseHead(End::Consumer, head.incremented(params, 1)),
            ),
            PopState::RaiseHead { .. } => PopStep::Next(
                PopState::Head,
                Access::LoadHead(End::Consumer),
            ),
        }
    }

    /// How many accesses the pop performs at most before it ends or goes back.
    pub open spec fn remaining(self) -> nat {
        match self {
            PopState::Head => 9,
            PopState::Reserved { .. } => 8,
            PopState::Committed { .. } => 7,
            PopState::Allocated { .. } => 6,
            PopState::RaiseReserved { .. } => 5,
            PopState::NextCommitted { .. } => 4,
            PopState::RaiseConsumed { .. } => 3,
            PopState::RaiseNextReserved { .. } => 2,
            PopState::Take { .. } => 2,
            PopState::RaiseHead { .. } => 1,
            PopState::Consume { .. } => 1,
        }
    }

    /// How many accesses the pop performs at most before it ends or goes back.
    pub fn count_remaining(&self) -> (n: u8)
        ensures
            n == self.remaining(),
    {
        match self {
            PopState::Head => 9,
            PopState::Reserved { .. } => 8,
            PopState::Committed { .. } => 7,
            PopState::Allocated { .. } => 6,
            PopState::RaiseReserved { .. } => 5,
            PopState::NextCommitted { .. } => 4,
            PopState::RaiseConsumed { .. } => 3,
            PopState::RaiseNextReserved { .. } => 2,
            PopState::Take { .. } => 2,
            PopState::RaiseHead { .. } => 1,
            PopState::Consume { .. } => 1,
        }
    }

    /// The first access of a pop.
    pub fn start() -> (op: (Self, Access<T>))
        ensures
            op.0 == PopState::<T>::Head,
            op.1 == Access::<T>::LoadHead(End::Consumer),
    {
        (PopState::Head, Access::LoadHead(End::Consumer))
    }

    /// With the consumer head at hand, the pop looks at the block that it names.
    fn get_consumer_head_and_block(head: UnpackedHead) -> (step: PopStep<T>)
        ensures
            step == PopStep::<T>::Next(
                PopState::Reserved { head },
                Access::Load(head.index, Field::Reserved),
            ),
    {
        PopStep::Next(PopState::Reserved { head }, Access::Load(head.index, Field::Reserved))
    }

    /// Raises the reserved cursor past the slot that the pop wants.
    fn claim_entry(params: &QueueParameters, head: UnpackedHead, reserved: UnpackedCursor) -> (step:
        PopStep<T>)
        requires
            params.wf(),
            params.holds_elements(),
            within_block(*params, reserved),
        ensures
            step == PopStep::<T>::Next(
                PopState::RaiseReserved { head, reserved },
                Access::Raise(head.index, Field::Reserved, one_further(reserved)),
            ),
    {
        proof {
            params.lemma_layout();
            params.lemma_cursor_successor(reserved);
            params.lemma_cursor_round_trip(one_further(reserved));
        }
        let new_reserved = reserved.add(params, 1);
        PopStep::Next(
            PopState::RaiseReserved { head, reserved },
            Access::Raise(head.index, Field::Reserved, new_reserved),
        )
    }

    /// Goes on from the cursors of the block to a claim on the first slot that
    /// is not claimed yet, to the next block, or to the end of the pop.
    fn reserve_entry(self, params: &QueueParameters, cursor: UnpackedCursor) -> (step: PopStep<T>)
        requires
            params.wf(),
            params.holds_elements(),
            self.wf(*params),
            params.cursor_in_range(cursor),
            self is Reserved || self is Committed || self is Allocated || self is RaiseReserved,
        ensures
            step == self.resumed(*params, Reply::Cursor(cursor)),
    {
        match self {
            PopState::Reserved { head } => {
                if cursor.offset < params.block_size {
                    PopStep::Next(
                        PopState::Committed { head, reserved: cursor },
                        Access::Load(head.index, Field::Committed),
                    )
                } else {
                    let next: usize = compute_next_index(params, head);
                    PopStep::Next(
                        PopState::NextCommitted { head },
                        Access::Load(next, Field::Committed),
                    )
                }
            },
            PopState::Committed { head, reserved } => {
                if reserved.offset == cursor.offset {
                    PopStep::Done(Err(TryPopError::Empty))
                } else if cursor.offset != params.block_size {
                    PopStep::Next(
                        PopState::Allocated { head, reserved, committed: cursor },
                        Access::Load(head.index, Field::Allocated),
                    )
                } else {
                    Self::claim_entry(params, head, reserved)
                }
            },
            PopState::Allocated { head, reserved, committed } => {
                if cursor.offset != committed.offset {
                    PopStep::Done(Err(TryPopError::Busy))
                } else {
                    Self::claim_entry(params, head, reserved)
                }
            },
            PopState::RaiseReserved { head, reserved } => {
                if cursor == reserved {
                    let entry = EntryDescriptor { block: head.index, offset: reserved.offset };
                    PopStep::Next(
                        PopState::Take { entry },
                        Access::Take(entry.block, entry.offset),
                    )
                } else {
                    Self::get_consumer_head_and_block(head)
                }
            },
            // not called in another state
            _ => PopStep::Done(Err(TryPopError::Busy)),
        }
    }

    /// With the element at hand, counting the consumed cursor up gives the slot back.
    fn consume_entry_retry_new(entry: EntryDescriptor, taken: Option<T>) -> (step: PopStep<T>)
        ensures
            step == match taken {
                Some(elem) => PopStep::Next(
                    PopState::Consume { entry, elem },
                    Access::Increment(entry.block, Field::Consumed),
                ),
                None => PopStep::Next(
                    PopState::Take { entry },
                    Access::Take(entry.block, entry.offset),
                ),
            },
    {
        match taken {
            Some(elem) => PopStep::Next(
                PopState::Consume { entry, elem },
                Access::Increment(entry.block, Field::Consumed),
            ),
            None => PopStep::Next(
                PopState::Take { entry },
                Access::Take(entry.block, entry.offset),
            ),
        }
    }

    /// With the committed cursor of the next block at hand, the pop moves on to
    /// that block if a producer has opened it.
    fn advance_consumer_head_retry_new(
        params: &QueueParameters,
        head: UnpackedHead,
        committed: UnpackedCursor,
    ) -> (step: PopStep<T>)
        requires
            params.wf(),
            head_ok(*params, head),
        ensures
            step == if committed.version != head.version + 1 {
                PopStep::<T>::Done(Err(TryPopError::Empty))
            } else {
                PopStep::Next(
                    PopState::RaiseConsumed { head },
                    Access::Raise(next_index(*params, head), Field::Consumed, next_start(head)),
                )
            },
    {
        let start = compute_next_start(params, head);
        if committed.version != start.version {
            PopStep::Done(Err(TryPopError::Empty))
        } else {
            let next: usize = compute_next_index(params, head);
            PopStep::Next(
                PopState::RaiseConsumed { head },
                Access::Raise(next, Field::Consumed, start),
            )
        }
    }

    /// Takes a reply, and sends the next access or ends.
    pub fn resume(self, params: &QueueParameters, reply: Reply<T>) -> (step: PopStep<T>)
        requires
            params.wf(),
            params.holds_elements(),
            self.wf(*params),
            self.accepts(*params, reply),
        ensures
            step == self.resumed(*params, reply),
            match step {
                PopStep::Next(state, access) => {
                    &&& state.wf(*params)
                    &&& state.waits_for(*params, access)
                    &&& access.in_bounds(*params)
                },
                PopStep::Done(_) => true,
            },
    {
        match (self, reply) {
            (PopState::Head, Reply::Head(head)) => Self::get_consumer_head_and_block(head),
            (PopState::Take { entry }, Reply::Taken(taken)) => Self::consume_entry_retry_new(
                entry,
                taken,
            ),
            (PopState::Consume { elem, .. }, _) => PopStep::Done(Ok(elem)),
            (PopState::NextCommitted { head }, Reply::Cursor(committed)) => {
                Self::advance_consumer_head_retry_new(params, head, committed)
            },
            (PopState::RaiseConsumed { head }, _) => {
                let next: usize = compute_next_index(params, head);
                let start = compute_next_start(params, head);
                PopStep::Next(
                    PopState::RaiseNextReserved { head },
                    Access::Raise(next, Field::Reserved, start),
                )
            },
            (PopState::RaiseNextReserved { head }, _) => {
                let next = compute_next_head(params, head);
                PopStep::Next(
                    PopState::RaiseHead { head },
                    Access::RaiseHead(End::Consumer, next),
                )
            },
            (PopState::RaiseHead { .. }, _) => PopStep::Next(
                PopState::Head,
                Access::LoadHead(End::Consumer),
            ),
            (state, Reply::Cursor(cursor)) => state.reserve_entry(params, cursor),
            // no other reply is accepted
            _ => PopStep::Done(Err(TryPopError::Busy)),
        }
    }
}

}
