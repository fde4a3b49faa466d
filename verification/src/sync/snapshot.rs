//! What the words of a queue hold, unpacked to be looked at.

use crate::sync::cursor::{UnpackedCursor, UnpackedHead};
use crate::sync::memory::BlockMemory;
use crate::sync::params::QueueParameters;
use vstd::prelude::*;

verus! {

/// The cursors of a block.
#[derive(Debug, Clone, Copy, PartialEq, Eq, Structural)]
pub struct BlockSnapshot {
    pub allocated: UnpackedCursor,
    pub committed: UnpackedCursor,
    pub reserved: UnpackedCursor,
    pub consumed: UnpackedCursor,
}

/// The heads of a queue, and the cursors of its blocks.
#[derive(Debug)]
pub struct Snapshot {
    pub consumer: UnpackedHead,
    pub producer: UnpackedHead,
    pub blocks: Vec<BlockSnapshot>,
    pub params: QueueParameters,
}

impl BlockSnapshot {
    /// The cursors are those of the block.
    pub open spec fn shows<T>(self, params: QueueParameters, block: BlockMemory<T>) -> bool {
        &&& self.allocated == params.cursor_of(block.allocated)
        &&& self.committed == params.cursor_of(block.committed)
        &&& self.reserved == params.cursor_of(block.reserved)
        &&& self.consumed == params.cursor_of(block.consumed)
    }

    /// The cursors are in range.
    pub open spec fn in_range(self, params: QueueParameters) -> bool {
        &&& params.cursor_in_range(self.allocated)
        &&& params.cursor_in_range(self.committed)
        &&& params.cursor_in_range(self.reserved)
        &&& params.cursor_in_range(self.consumed)
    }
}

}
