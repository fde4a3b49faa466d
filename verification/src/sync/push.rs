//! A push, as a sequence of accesses.

use crate::sync::cursor::{UnpackedCursor, UnpackedHead};
use crate::sync::error::TryPushError;
use crate::sync::memory::{Access, End, Field, Reply};
use crate::sync::params::QueueParameters;
use vstd::prelude::*;

verus! {

/// A slot that an operation has claimed.
#[derive(Debug, Clone, Copy, PartialEq, Eq, Structural)]
pub struct EntryDescriptor {
    pub block: usize,
    pub offset: usize,
}

impl EntryDescriptor {
    /// The entry is a slot of the queue.
    pub open spec fn in_bounds(self, params: QueueParameters) -> bool {
        self.block < params.num_blocks && self.offset < params.block_size
    }
}

/// How far a push has come: which reply it waits for.
#[derive(Debug)]
pub enum PushState<T> {
    /// Waits for the producer head.
    Head { elem: T },
    /// Waits for the allocated cursor of the head's block, to see whether the block has room.
    Check { elem: T, head: UnpackedHead },
    /// Waits for the allocated cursor that it counted up to claim a slot.
    Claim { elem: T, head: UnpackedHead },
    /// Waits for its slot to be filled.
    Write { entry: EntryDescriptor },
    /// Waits for the committed cursor to be counted up.
    Commit { entry: EntryDescriptor },
    /// Waits for the consumed cursor of the next block, to see whether the block can be opened.
    Consumed { elem: T, head: UnpackedHead },
    /// Waits for the reserved cursor of the next block, to see why it cannot be opened.
    Reserved { elem: T, head: UnpackedHead, consumed: UnpackedCursor },
    /// Waits for the committed cursor of the next block to be raised.
    RaiseCommitted { elem: T, head: UnpackedHead },
    /// Waits for the allocated cursor of the next block to be raised.
    RaiseAllocated { elem: T, head: UnpackedHead },
    /// Waits for the producer head to be raised to the next block.
    RaiseHead { elem: T, head: UnpackedHead },
}

/// What a push does with a reply.
#[derive(Debug)]
pub enum PushStep<T> {
    /// It sends the next access.
    Next(PushState<T>, Access<T>),
    /// It is over.
    Done(Result<(), TryPushError<T>>),
}

/// The block after that of a head.
pub open spec fn next_index(params: QueueParameters, head: UnpackedHead) -> usize {
    ((head.index + 1) % params.num_blocks as int) as usize
}

/// Where the block after that of a head starts again.
pub open spec fn next_start(head: UnpackedHead) -> UnpackedCursor {
    UnpackedCursor { version: (head.version + 1) as usize, offset: 0 }
}

/// The next block still holds elements of the round before: not all of its slots are consumed.
pub open spec fn next_block_in_use(
    params: QueueParameters,
    head: UnpackedHead,
    consumed: UnpackedCursor,
) -> bool {
    consumed.version < head.version || (consumed.version == head.version && consumed.offset
        != params.block_size)
}

/// The head names a block of the queue.
pub open spec fn head_ok(params: QueueParameters, head: UnpackedHead) -> bool {
    params.head_in_range(head) && head.index < params.num_blocks
}

/// The index of the block after that of a head.
pub fn compute_next_index(params: &QueueParameters, head: UnpackedHead) -> (index: usize)
    requires
        head_ok(*params, head),
    ensures
        index == next_index(*params, head),
        index < params.num_blocks,
        index == (head.index + 1) % params.num_blocks as int,
{
    (head.index + 1) % params.num_blocks
}

/// The cursor at which the block after that of a head starts again.
pub fn compute_next_start(params: &QueueParameters, head: UnpackedHead) -> (cursor: UnpackedCursor)
    requires
        params.wf(),
        head_ok(*params, head),
    ensures
        cursor == next_start(head),
        cursor.version == head.version + 1,
{
    proof {
        params.lemma_layout();
    }
    UnpackedCursor { version: head.version + 1, offset: 0 }
}

/// The head of the block after that of a head.
pub fn compute_next_head(params: &QueueParameters, head: UnpackedHead) -> (next: UnpackedHead)
    requires
        params.wf(),
        head_ok(*params, head),
    ensures
        next == head.incremented(*params, 1),
        next.index < params.num_blocks,
{
    proof {
        params.lemma_layout();
        let sum = head.index + 1;
        let n = params.num_blocks as int;
        vstd::arithmetic::div_mod::lemma_fundamental_div_mod(sum, n);
        vstd::arithmetic::div_mod::lemma_mod_bound(sum, n);
        assert(0 <= sum / n <= 1) by (nonlinear_arith)
            requires
                sum == n * (sum / n) + sum % n,
                0 <= sum % n < n,
                0 < sum <= n,
        ;
    }
    head.increment_index(params, 1)
}

impl<T> PushState<T> {
    /// The heads and entries that the push has read are in bounds.
    pub open spec fn wf(self, params: QueueParameters) -> bool {
        match self {
            PushState::Head { .. } => true,
            PushState::Check { head, .. } => head_ok(params, head),
            PushState::Claim { head, .. } => head_ok(params, head),
            PushState::Write { entry } => entry.in_bounds(params),
            PushState::Commit { entry } => entry.in_bounds(params),
            PushState::Consumed { head, .. } => head_ok(params, head),
            PushState::Reserved { head, consumed, .. } => head_ok(params, head)
                && params.cursor_in_range(consumed),
            PushState::RaiseCommitted { head, .. } => head_ok(params, head),
            PushState::RaiseAllocated { head, .. } => head_ok(params, head),
            PushState::RaiseHead { head, .. } => head_ok(params, head),
        }
    }

    /// The access whose reply the push waits for.
    pub open spec fn waits_for(self, params: QueueParameters, access: Access<T>) -> bool {
        match self {
            PushState::Head { .. } => access == Access::<T>::LoadHead(End::Producer),
            PushState::Check { head, .. } => access == Access::<T>::Load(
                head.index,
                Field::Allocated,
            ),
            PushState::Claim { head, .. } => access == Access::<T>::Increment(
                head.index,
                Field::Allocated,
            ),
            PushState::Write { entry } => access matches Access::Write(block, offset, _) && block
                == entry.block && offset == entry.offset,
            PushState::Commit { entry } => access == Access::<T>::Increment(
                entry.block,
                Field::Committed,
            ),
            PushState::Consumed { head, .. } => access == Access::<T>::Load(
                next_index(params, head),
                Field::Consumed,
            ),
            PushState::Reserved { head, .. } => access == Access::<T>::Load(
                next_index(params, head),
                Field::Reserved,
            ),
            PushState::RaiseCommitted { head, .. } => access == Access::<T>::Raise(
                next_index(params, head),
                Field::Committed,
                next_start(head),
            ),
            PushState::RaiseAllocated { head, .. } => access == Access::<T>::Raise(
                next_index(params, head),
                Field::Allocated,
                next_start(head),
            ),
            PushState::RaiseHead { head, .. } => access == Access::<T>::RaiseHead(
                End::Producer,
                head.incremented(params, 1),
            ),
        }
    }

    /// The reply has the form that the push waits for.
    pub open spec fn accepts(self, params: QueueParameters, reply: Reply<T>) -> bool {
        match self {
            PushState::Head { .. } => reply matches Reply::Head(head) && head_ok(params, head),
            PushState::Write { .. } => reply is Written,
            PushState::RaiseHead { .. } => reply is Head,
            _ => reply matches Reply::Cursor(cursor) && params.cursor_in_range(cursor),
        }
    }

    /// The access that follows a reply, or the outcome of the push.
    pub open spec fn resumed(self, params: QueueParameters, reply: Reply<T>) -> PushStep<T> {
        match self {
            PushState::Head { elem } => {
                let head = reply->Head_0;
                PushStep::Next(
                    PushState::Check { elem, head },
                    Access::Load(head.index, Field::Allocated),
                )
            },
            PushState::Check { elem, head } => if reply->Cursor_0.offset >= params.block_size {
                PushStep::Next(
                    PushState::Consumed { elem, head },
                    Access::Load(next_index(params, head), Field::Consumed),
                )
            } else {
                PushStep::Next(
                    PushState::Claim { elem, head },
                    Access::Increment(head.index, Field::Allocated),
                )
            },
            PushState::Claim { elem, head } => if reply->Cursor_0.offset >= params.block_size {
                PushStep::Next(
                    PushState::Consumed { elem, head },
                    Access::Load(next_index(params, head), Field::Consumed),
                )
            } else {
                let entry = EntryDescriptor { block: head.index, offset: reply->Cursor_0.offset };
                PushStep::Next(
                    PushState::Write { entry },
                    Access::Write(entry.block, entry.offset, elem),
                )
            },
            PushState::Write { entry } => PushStep::Next(
                PushState::Commit { entry },
                Access::Increment(entry.block, Field::Committed),
            ),
            PushState::Commit { .. } => PushStep::Done(Ok(())),
            PushState::Consumed { elem, head } => if next_block_in_use(
                params,
                head,
                reply->Cursor_0,
            ) {
                PushStep::Next(
                    PushState::Reserved { elem, head, consumed: reply->Cursor_0 },
                    Access::Load(next_index(params, head), Field::Reserved),
                )
            } else {
                PushStep::Next(
                    PushState::RaiseCommitted { elem, head },
                    Access::Raise(next_index(params, head), Field::Committed, next_start(head)),
                )
            },
            PushState::Reserved { elem, consumed, .. } => PushStep::Done(
                if reply->Cursor_0.offset == consumed.offset {
                    Err(TryPushError::Full(elem))
                } else {
                    Err(TryPushError::Busy(elem))
                },
            ),
            PushState::RaiseCommitted { elem, head } => PushStep::Next(
                PushState::RaiseAllocated { elem, head },
                Access::Raise(next_index(params, head), Field::Allocated, next_start(head)),
            ),
            PushState::RaiseAllocated { elem, head } => PushStep::Next(
                PushState::RaiseHead { elem, head },
                Access::RaiseHead(End::Producer, head.incremented(params, 1)),
            ),
            PushState::RaiseHead { elem, .. } => PushStep::Next(
                PushState::Head { elem },
                Access::LoadHead(End::Producer),
            ),
        }
    }

    /// How many accesses the push performs at most before it ends or starts again.
    pub open spec fn remaining(self) -> nat {
        match self {
            PushState::Head { .. } => 9,
            PushState::Check { .. } => 8,
            PushState::Claim { .. } => 7,
            PushState::Consumed { .. } => 6,
            PushState::RaiseCommitted { .. } => 5,
            PushState::RaiseAllocated { .. } => 4,
            PushState::RaiseHead { .. } => 3,
            PushState::Write { .. } => 2,
            PushState::Commit { .. } => 1,
            PushState::Reserved { .. } => 1,
        }
    }

    /// The first access of a push.
    pub fn start(elem: T) -> (op: (Self, Access<T>))
        ensures
            op.0 == (PushState::Head { elem }),
            op.1 == Access::<T>::LoadHead(End::Producer),
    {
        (PushState::Head { elem }, Access::LoadHead(End::Producer))
    }

    /// With the producer head at hand, the push looks at the block that it names.
    fn get_producer_head_and_block(elem: T, head: UnpackedHead) -> (step: PushStep<T>)
        ensures
            step == PushStep::Next(
                PushState::Check { elem, head },
                Access::Load(head.index, Field::Allocated),
            ),
    {
        PushStep::Next(PushState::Check { elem, head }, Access::Load(head.index, Field::Allocated))
    }

    /// With the allocated cursor of the block at hand, the push claims a slot,
    /// or has claimed one where it counted the cursor up. A block without room
    /// sends it to the next one.
    fn allocate_entry(
        params: &QueueParameters,
        elem: T,
        head: UnpackedHead,
        allocated: UnpackedCursor,
        claimed: bool,
    ) -> (step: PushStep<T>)
        requires
            head_ok(*params, head),
        ensures
            step == if allocated.offset >= params.block_size {
                PushStep::Next(
                    PushState::Consumed { elem, head },
                    Access::Load(next_index(*params, head), Field::Consumed),
                )
            } else if claimed {
                PushStep::Next(
                    PushState::Write {
                        entry: EntryDescriptor { block: head.index, offset: allocated.offset },
                    },
                    Access::Write(head.index, allocated.offset, elem),
                )
            } else {
                PushStep::Next(
                    PushState::Claim { elem, head },
                    Access::Increment(head.index, Field::Allocated),
                )
            },
    {
        if allocated.offset >= params.block_size {
            let next: usize = compute_next_index(params, head);
            PushStep::Next(
                PushState::Consumed { elem, head },
                Access::Load(next, Field::Consumed),
            )
        } else if claimed {
            let entry = EntryDescriptor { block: head.index, offset: allocated.offset };
            PushStep::Next(
                PushState::Write { entry },
                Access::Write(entry.block, entry.offset, elem),
            )
        } else {
            PushStep::Next(
                PushState::Claim { elem, head },
                Access::Increment(head.index, Field::Allocated),
            )
        }
    }

    /// Once the slot is filled, counting the committed cursor up marks it as ready to read.
    fn commit_entry(entry: EntryDescriptor) -> (step: PushStep<T>)
        ensures
            step == PushStep::<T>::Next(
                PushState::Commit { entry },
                Access::Increment(entry.block, Field::Committed),
            ),
    {
        PushStep::Next(PushState::Commit { entry }, Access::Increment(entry.block, Field::Committed))
    }

    /// With the consumed cursor of the next block at hand, the push opens that
    /// block, or finds out why it cannot.
    fn advance_producer_head_retry_new(
        params: &QueueParameters,
        elem: T,
        head: UnpackedHead,
        consumed: UnpackedCursor,
    ) -> (step: PushStep<T>)
        requires
            params.wf(),
            head_ok(*params, head),
        ensures
            step == if next_block_in_use(*params, head, consumed) {
                PushStep::Next(
                    PushState::Reserved { elem, head, consumed },
                    Access::Load(next_index(*params, head), Field::Reserved),
                )
            } else {
                PushStep::Next(
                    PushState::RaiseCommitted { elem, head },
                    Access::Raise(next_index(*params, head), Field::Committed, next_start(head)),
                )
            },
    {
        let next: usize = compute_next_index(params, head);
        if consumed.version < head.version || (consumed.version == head.version && consumed.offset
            != params.block_size) {
            PushStep::Next(
                PushState::Reserved { elem, head, consumed },
                Access::Load(next, Field::Reserved),
            )
        } else {
            PushStep::Next(
                PushState::RaiseCommitted { elem, head },
                Access::Raise(next, Field::Committed, compute_next_start(params, head)),
            )
        }
    }

    /// Takes a reply, and sends the next access or ends.
    pub fn resume(self, params: &QueueParameters, reply: Reply<T>) -> (step: PushStep<T>)
        requires
            params.wf(),
            params.holds_elements(),
            self.wf(*params),
            self.accepts(*params, reply),
        ensures
            step == self.resumed(*params, reply),
            match step {
                PushStep::Next(state, access) => {
                    &&& state.wf(*params)
                    &&& state.waits_for(*params, access)
                    &&& access.in_bounds(*params)
                },
                PushStep::Done(_) => true,
            },
    {
        match (self, reply) {
            (PushState::Head { elem }, Reply::Head(head)) => Self::get_producer_head_and_block(
                elem,
                head,
            ),
            (PushState::Check { elem, head }, Reply::Cursor(allocated)) => Self::allocate_entry(
                params,
                elem,
                head,
                allocated,
                false,
            ),
            (PushState::Claim { elem, head }, Reply::Cursor(allocated)) => Self::allocate_entry(
                params,
                elem,
                head,
                allocated,
                true,
            ),
            (PushState::Write { entry }, _) => Self::commit_entry(entry),
            (PushState::Commit { .. }, _) => PushStep::Done(Ok(())),
            (PushState::Consumed { elem, head }, Reply::Cursor(consumed)) => {
                Self::advance_producer_head_retry_new(params, elem, head, consumed)
            },
            (PushState::Reserved { elem, consumed, .. }, Reply::Cursor(reserved)) => {
                if reserved.offset == consumed.offset {
                    PushStep::Done(Err(TryPushError::Full(elem)))
                } else {
                    PushStep::Done(Err(TryPushError::Busy(elem)))
                }
            },
            (PushState::RaiseCommitted { elem, head }, _) => {
                let next: usize = compute_next_index(params, head);
                let start = compute_next_start(params, head);
                PushStep::Next(
                    PushState::RaiseAllocated { elem, head },
                    Access::Raise(next, Field::Allocated, start),
                )
            },
            (PushState::RaiseAllocated { elem, head }, _) => {
                let next = compute_next_head(params, head);
                PushStep::Next(
                    PushState::RaiseHead { elem, head },
                    Access::RaiseHead(End::Producer, next),
                )
            },
            (PushState::RaiseHead { elem, .. }, _) => PushStep::Next(
                PushState::Head { elem },
                Access::LoadHead(End::Producer),
            ),
            // no other reply is accepted
            (PushState::Head { elem }, _)
            | (PushState::Check { elem, .. }, _)
            | (PushState::Claim { elem, .. }, _)
            | (PushState::Consumed { elem, .. }, _)
            | (PushState::Reserved { elem, .. }, _) => PushStep::Done(Err(TryPushError::Busy(elem))),
        }
    }
}

}
