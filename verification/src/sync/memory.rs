//! What the words and the slots of a queue hold, and the accesses to them.
//!
//! Every operation on a queue is a sequence of accesses. An access touches one
//! word or one slot and is atomic: between two accesses of one operation there
//! may lie any number of accesses of other operations.

use crate::sync::cursor::{next_word, UnpackedCursor, UnpackedHead};
use crate::sync::params::QueueParameters;
use vstd::prelude::*;

verus! {

/// The end of a queue that a head belongs to.
#[derive(Debug, Clone, Copy, PartialEq, Eq, Structural)]
pub enum End {
    Producer,
    Consumer,
}

/// A cursor of a block.
#[derive(Debug, Clone, Copy, PartialEq, Eq, Structural)]
pub enum Field {
    /// Counts the slots that producers have claimed.
    Allocated,
    /// Counts the slots that producers have filled.
    Committed,
    /// Counts the slots that consumers have claimed.
    Reserved,
    /// Counts the slots that consumers have emptied.
    Consumed,
}

/// One access to a word or to a slot.
#[derive(Debug)]
pub enum Access<T> {
    /// Reads a head.
    LoadHead(End),
    /// Raises a head, and reads what it was.
    RaiseHead(End, UnpackedHead),
    /// Reads a cursor of a block.
    Load(usize, Field),
    /// Counts a cursor of a block up by one, and reads what it was.
    Increment(usize, Field),
    /// Raises a cursor of a block, and reads what it was.
    Raise(usize, Field, UnpackedCursor),
    /// Fills a slot of a block.
    Write(usize, usize, T),
    /// Empties a slot of a block.
    Take(usize, usize),
}

/// What an access gives back.
#[derive(Debug)]
pub enum Reply<T> {
    Head(UnpackedHead),
    Cursor(UnpackedCursor),
    Written,
    Taken(Option<T>),
}

/// The words and the slots of a block.
#[verifier::ext_equal]
pub struct BlockMemory<T> {
    pub data: Seq<Option<T>>,
    pub allocated: usize,
    pub committed: usize,
    pub reserved: usize,
    pub consumed: usize,
}

/// The words and the slots of a queue.
#[verifier::ext_equal]
pub struct Memory<T> {
    pub producer: usize,
    pub consumer: usize,
    pub blocks: Seq<BlockMemory<T>>,
}

impl<T> BlockMemory<T> {
    /// The word of a cursor.
    pub open spec fn word(self, field: Field) -> usize {
        match field {
            Field::Allocated => self.allocated,
            Field::Committed => self.committed,
            Field::Reserved => self.reserved,
            Field::Consumed => self.consumed,
        }
    }

    /// The block with another word for a cursor.
    pub open spec fn with_word(self, field: Field, word: usize) -> Self {
        match field {
            Field::Allocated => BlockMemory { allocated: word, ..self },
            Field::Committed => BlockMemory { committed: word, ..self },
            Field::Reserved => BlockMemory { reserved: word, ..self },
            Field::Consumed => BlockMemory { consumed: word, ..self },
        }
    }

    /// The block with another content of a slot.
    pub open spec fn with_slot(self, offset: int, slot: Option<T>) -> Self {
        BlockMemory { data: self.data.update(offset, slot), ..self }
    }
}

/// The greater of two words.
pub open spec fn max_word(a: usize, b: usize) -> usize {
    if a > b {
        a
    } else {
        b
    }
}

impl<T> Memory<T> {
    /// The word of a head.
    pub open spec fn head(self, end: End) -> usize {
        match end {
            End::Producer => self.producer,
            End::Consumer => self.consumer,
        }
    }

    /// The memory with another word for a head.
    pub open spec fn with_head(self, end: End, word: usize) -> Self {
        match end {
            End::Producer => Memory { producer: word, ..self },
            End::Consumer => Memory { consumer: word, ..self },
        }
    }

    /// The memory with another block in the place of one.
    pub open spec fn with_block(self, index: int, block: BlockMemory<T>) -> Self {
        Memory { blocks: self.blocks.update(index, block), ..self }
    }

    /// The memory has the shape that the parameters give: that many blocks of
    /// that many slots, and heads that name a block.
    pub open spec fn shaped(self, params: QueueParameters) -> bool {
        &&& self.blocks.len() == params.num_blocks
        &&& forall|i: int|
            0 <= i < self.blocks.len() ==> (#[trigger] self.blocks[i]).data.len()
                == params.block_size
        &&& params.holds_elements() ==> params.head_of(self.producer).index < params.num_blocks
        &&& params.holds_elements() ==> params.head_of(self.consumer).index < params.num_blocks
    }
}

impl<T> Access<T> {
    /// The access stays within the blocks and their slots.
    pub open spec fn in_bounds(self, params: QueueParameters) -> bool {
        match self {
            Access::LoadHead(_) => true,
            Access::RaiseHead(_, head) => head.index < params.num_blocks,
            Access::Load(block, _) => block < params.num_blocks,
            Access::Increment(block, _) => block < params.num_blocks,
            Access::Raise(block, _, _) => block < params.num_blocks,
            Access::Write(block, offset, _) => block < params.num_blocks && offset
                < params.block_size,
            Access::Take(block, offset) => block < params.num_blocks && offset < params.block_size,
        }
    }

    /// The reply has the form that this access asks for, and its fields are in range.
    pub open spec fn answered_by(self, params: QueueParameters, reply: Reply<T>) -> bool {
        match (self, reply) {
            (Access::LoadHead(_), Reply::Head(head)) => params.head_in_range(head) && head.index
                < params.num_blocks,
            (Access::RaiseHead(_, _), Reply::Head(head)) => params.head_in_range(head)
                && head.index < params.num_blocks,
            (Access::Load(_, _), Reply::Cursor(cursor)) => params.cursor_in_range(cursor),
            (Access::Increment(_, _), Reply::Cursor(cursor)) => params.cursor_in_range(cursor),
            (Access::Raise(_, _, _), Reply::Cursor(cursor)) => params.cursor_in_range(cursor),
            (Access::Write(_, _, _), Reply::Written) => true,
            (Access::Take(_, _), Reply::Taken(_)) => true,
            _ => false,
        }
    }

    /// What the memory holds after this access, and what the access gives back.
    pub open spec fn performed(self, params: QueueParameters, memory: Memory<T>) -> (
        Memory<T>,
        Reply<T>,
    ) {
        match self {
            Access::LoadHead(end) => (memory, Reply::Head(params.head_of(memory.head(end)))),
            Access::RaiseHead(end, head) => (
                memory.with_head(end, max_word(params.head_word(head), memory.head(end))),
                Reply::Head(params.head_of(memory.head(end))),
            ),
            Access::Load(block, field) => (
                memory,
                Reply::Cursor(params.cursor_of(memory.blocks[block as int].word(field))),
            ),
            Access::Increment(block, field) => {
                let b = memory.blocks[block as int];
                (
                    memory.with_block(
                        block as int,
                        b.with_word(field, next_word(b.word(field))),
                    ),
                    Reply::Cursor(params.cursor_of(b.word(field))),
                )
            },
            Access::Raise(block, field, cursor) => {
                let b = memory.blocks[block as int];
                (
                    memory.with_block(
                        block as int,
                        b.with_word(field, max_word(params.cursor_word(cursor), b.word(field))),
                    ),
                    Reply::Cursor(params.cursor_of(b.word(field))),
                )
            },
            Access::Write(block, offset, elem) => (
                memory.with_block(
                    block as int,
                    memory.blocks[block as int].with_slot(offset as int, Some(elem)),
                ),
                Reply::Written,
            ),
            Access::Take(block, offset) => (
                memory.with_block(
                    block as int,
                    memory.blocks[block as int].with_slot(offset as int, None),
                ),
                Reply::Taken(memory.blocks[block as int].data[offset as int]),
            ),
        }
    }
}

/// An access within bounds keeps the shape of the memory and is answered in form.
pub proof fn lemma_access_keeps_shape<T>(
    params: QueueParameters,
    memory: Memory<T>,
    access: Access<T>,
)
    requires
        params.wf(),
        params.holds_elements(),
        memory.shaped(params),
        access.in_bounds(params),
    ensures
        access.performed(params, memory).0.shaped(params),
        access.answered_by(params, access.performed(params, memory).1),
{
    params.lemma_layout();
    match access {
        Access::LoadHead(end) => {
            params.lemma_unpacked(memory.head(end));
        },
        Access::RaiseHead(end, head) => {
            params.lemma_unpacked(memory.head(end));
            params.lemma_packed_head_index(head);
        },
        Access::Load(block, field) => {
            params.lemma_unpacked(memory.blocks[block as int].word(field));
        },
        Access::Increment(block, field) => {
            params.lemma_unpacked(memory.blocks[block as int].word(field));
        },
        Access::Raise(block, field, _) => {
            params.lemma_unpacked(memory.blocks[block as int].word(field));
        },
        _ => {},
    }
}

}
