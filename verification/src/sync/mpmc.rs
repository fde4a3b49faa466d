//! A queue that several threads may share, with a single number as its capacity.
//!
//! It works as the queue of the parent module does. A push that was interfered
//! with does not hand its element back.

use crate::sync::bits::{
    compute_floor_log2, floor_log2, lemma_ceil_log2_le, lemma_floor_log2, lemma_low_ones_by_shl,
    lemma_pow2_order, lemma_word_count,
};
use crate::sync::laps::{takes_none, version_left};
use crate::sync::params::{
    index_bits, lemma_fourth_power, lemma_least_multiple, lemma_rounded_shape_fits, offset_bits,
    shape_fits, Capacity,
};
use crate::sync::memory::Reply;
use crate::sync::queue::{pop_ends, push_ends};
use crate::sync::shared::Shared;
use vstd::arithmetic::power2::{lemma2_to64, lemma_pow2_adds, lemma_pow2_pos, pow2};
use vstd::prelude::*;

verus! {

/// Why an element was not pushed.
#[derive(Debug, Copy, Clone, PartialEq, Eq)]
pub enum TryPushError<T> {
    /// The queue was full. The element is handed back.
    Full(T),
    /// A concurrent operation interfered, and the push has to be tried again.
    Busy,
}

/// Why no element was popped.
#[derive(Debug, Clone, Copy, PartialEq, Eq, Structural)]
pub enum TryPopError {
    /// The queue was empty.
    Empty,
    /// A concurrent operation interfered, and the pop has to be tried again.
    Busy,
}

/// The outcome of a push as the parent module gives it: a push that was
/// interfered with hands its element back.
pub open spec fn with_element<T>(elem: T, outcome: Result<(), TryPushError<T>>) -> Result<
    (),
    crate::sync::TryPushError<T>,
> {
    match outcome {
        Ok(_) => Ok(()),
        Err(TryPushError::Full(handed_back)) => Err(crate::sync::TryPushError::Full(handed_back)),
        Err(TryPushError::Busy) => Err(crate::sync::TryPushError::Busy(elem)),
    }
}

/// The outcome of a pop as the parent module gives it.
pub open spec fn as_parent<T>(outcome: Result<T, TryPopError>) -> Result<
    T,
    crate::sync::TryPopError,
> {
    match outcome {
        Ok(elem) => Ok(elem),
        Err(TryPopError::Empty) => Err(crate::sync::TryPopError::Empty),
        Err(TryPopError::Busy) => Err(crate::sync::TryPopError::Busy),
    }
}

/// The number of blocks, their size, and the masks and the shift with which
/// the words of a queue are packed.
#[derive(Debug, Clone, Copy, PartialEq, Eq, Structural)]
pub struct QueueParameters {
    pub num_blocks: usize,
    pub block_size: usize,
    pub capacity: usize,
    pub version_mask: usize,
    pub version_shift: u32,
    pub offset_mask: usize,
    pub index_mask: usize,
}

/// The number of blocks that `from_block_heuristic` picks: a quarter of the bits
/// of the capacity go to the number of blocks.
pub open spec fn heuristic_blocks(capacity: int) -> int {
    let quarter = (if capacity > 0 {
        floor_log2(capacity)
    } else {
        0
    }) / 4;
    pow2(if quarter > 1 {
        quarter
    } else {
        1
    }) as int
}

/// The block size that `from_block_heuristic` picks: the least with which the
/// picked blocks hold `capacity` elements, and at least 1.
pub open spec fn heuristic_block_size(capacity: int) -> int {
    if capacity > 0 {
        (capacity + heuristic_blocks(capacity) - 1) / heuristic_blocks(capacity)
    } else {
        1
    }
}

impl QueueParameters {
    /// The same parameters with both bounds of the capacity.
    pub open spec fn shape(self) -> crate::sync::QueueParameters {
        crate::sync::QueueParameters {
            capacity: Capacity {
                upper: self.capacity,
                lower: if self.num_blocks == 0 || self.block_size == 0 {
                    0
                } else {
                    ((self.num_blocks - 1) * self.block_size) as usize
                },
            },
            num_blocks: self.num_blocks,
            block_size: self.block_size,
            version_mask: self.version_mask,
            version_shift: self.version_shift,
            offset_mask: self.offset_mask,
            index_mask: self.index_mask,
        }
    }

    /// The parameters belong to a shape that can be represented.
    pub open spec fn wf(self) -> bool {
        self.shape().wf()
    }

    /// Computes `shape`.
    fn to_shape(&self) -> (shape: crate::sync::QueueParameters)
        requires
            self.wf(),
        ensures
            shape == self.shape(),
    {
        let lower: usize = if self.num_blocks == 0 || self.block_size == 0 {
            0
        } else {
            proof {
                let n = self.num_blocks as int;
                let size = self.block_size as int;
                assert((n - 1) * size <= n * size) by (nonlinear_arith)
                    requires
                        size >= 0,
                ;
                assert((n - 1) * size >= 0) by (nonlinear_arith)
                    requires
                        n >= 1,
                        size >= 0,
                ;
            }
            (self.num_blocks - 1) * self.block_size
        };
        crate::sync::QueueParameters {
            capacity: Capacity { upper: self.capacity, lower },
            num_blocks: self.num_blocks,
            block_size: self.block_size,
            version_mask: self.version_mask,
            version_shift: self.version_shift,
            offset_mask: self.offset_mask,
            index_mask: self.index_mask,
        }
    }

    /// Picks a number of blocks and a block size with which the queue holds at
    /// least `capacity` elements.
    pub fn from_block_heuristic(capacity: usize) -> (p: Self)
        requires
            shape_fits(heuristic_blocks(capacity as int), heuristic_block_size(capacity as int)),
        ensures
            p.wf(),
            p.num_blocks == heuristic_blocks(capacity as int),
            p.block_size == heuristic_block_size(capacity as int),
            p.capacity == p.num_blocks * p.block_size,
            p.capacity >= capacity,
    {
        let log: u32 = if capacity > 0 {
            compute_floor_log2(capacity)
        } else {
            0
        };
        let num_blocks_log: u32 = if log / 4 > 1 {
            log / 4
        } else {
            1
        };
        proof {
            lemma_word_count();
            lemma_low_ones_by_shl(num_blocks_log);
            lemma_pow2_order(num_blocks_log as nat, 17);
            lemma_pow2_order(1, num_blocks_log as nat);
            lemma2_to64();
            lemma_pow2_pos(num_blocks_log as nat);
        }
        let num_blocks: usize = 1usize << num_blocks_log;
        let block_size: usize = if capacity == 0 {
            1
        } else {
            (capacity - 1) / num_blocks + 1
        };
        proof {
            let d = num_blocks as int;
            let x = capacity as int;
            if x > 0 {
                let q = (x - 1) / d;
                let rest = (x - 1) % d;
                vstd::arithmetic::div_mod::lemma_fundamental_div_mod(x - 1, d);
                assert(x + d - 1 == (q + 1) * d + rest) by (nonlinear_arith)
                    requires
                        x - 1 == d * q + rest,
                ;
                vstd::arithmetic::div_mod::lemma_fundamental_div_mod_converse(
                    x + d - 1,
                    d,
                    q + 1,
                    rest,
                );
                assert(d * (q + 1) >= x) by (nonlinear_arith)
                    requires
                        x - 1 == d * q + rest,
                        rest < d,
                ;
            }
        }
        Self::from_block_parameters(num_blocks, block_size)
    }

    /// Determines the masks and the shift from the number of blocks and the
    /// block size.
    pub fn from_block_parameters(num_blocks: usize, block_size: usize) -> (p: Self)
        requires
            shape_fits(num_blocks as int, block_size as int),
        ensures
            p.wf(),
            p.num_blocks == num_blocks,
            p.block_size == block_size,
            p.capacity == num_blocks * block_size,
    {
        let shape = crate::sync::QueueParameters::from_block_parameters(
            num_blocks,
            block_size,
        ).unwrap();
        proof {
            crate::sync::params::lemma_capacity_bounds(shape);
        }
        Self {
            num_blocks,
            block_size,
            capacity: shape.capacity.upper,
            version_mask: shape.version_mask,
            version_shift: shape.version_shift,
            offset_mask: shape.offset_mask,
            index_mask: shape.index_mask,
        }
    }

    /// The number of bits of the index field of a head word: enough to
    /// represent every block.
    pub fn index_bit_length(num_blocks: usize) -> (bits: u32)
        requires
            index_bits(num_blocks as int) < usize::BITS,
        ensures
            bits == index_bits(num_blocks as int),
    {
        crate::sync::QueueParameters::index_bit_length(num_blocks).unwrap()
    }

    /// The number of bits of the offset field of a cursor word: enough to
    /// represent the block size, and one more.
    pub fn offset_bit_length(block_size: usize) -> (bits: u32)
        requires
            offset_bits(block_size as int) <= usize::BITS,
        ensures
            bits == offset_bits(block_size as int),
    {
        crate::sync::QueueParameters::offset_bit_length(block_size).unwrap()
    }

    /// The number of bits of the version field: what the longer low field leaves.
    pub fn version_bit_length(index_bit_len: u32, offset_bit_len: u32) -> (bits: u32)
        requires
            index_bit_len <= usize::BITS,
            offset_bit_len <= usize::BITS,
        ensures
            bits == usize::BITS - (if index_bit_len > offset_bit_len {
                index_bit_len
            } else {
                offset_bit_len
            }),
    {
        crate::sync::QueueParameters::version_bit_length(index_bit_len, offset_bit_len).unwrap()
    }

    /// Whether the offset field can hold `offset`.
    pub fn check_offset_in_range(&self, offset: usize) -> (b: bool)
        requires
            self.wf(),
        ensures
            b == (offset < self.shape().offsets()),
    {
        self.to_shape().check_offset_in_range(offset)
    }

    /// Whether the index field can hold `index`.
    pub fn check_index_in_range(&self, index: usize) -> (b: bool)
        requires
            self.wf(),
        ensures
            b == (index < self.shape().indices()),
    {
        self.to_shape().check_index_in_range(index)
    }

    /// Whether the version field can hold `version`.
    pub fn check_version_in_range(&self, version: usize) -> (b: bool)
        requires
            self.wf(),
        ensures
            b == (version < self.shape().versions()),
    {
        self.to_shape().check_version_in_range(version)
    }
}

/// A queue that is accessed by one caller at a time.
#[derive(Debug)]
pub struct QueueInner<T> {
    inner: crate::sync::QueueInner<T>,
}

impl<T> QueueInner<T> {
    /// No operation is under way.
    pub closed spec fn wf(&self) -> bool {
        self.inner.wf()
    }

    /// The shape of the queue.
    pub closed spec fn shape(&self) -> crate::sync::QueueParameters {
        self.inner.params()
    }

    /// The elements, first pushed first.
    pub closed spec fn contents(&self) -> Seq<T> {
        self.inner.contents()
    }

    /// How many elements were pushed in all.
    pub closed spec fn pushed(&self) -> int {
        self.inner.pushed()
    }

    /// How many elements were popped in all.
    pub closed spec fn popped(&self) -> int {
        self.inner.popped()
    }

    /// The queue takes no element.
    pub open spec fn full(&self) -> bool {
        takes_none(self.shape(), self.pushed(), self.popped())
    }

    /// There is a version for the block that takes the next element.
    pub open spec fn has_version(&self) -> bool {
        version_left(self.shape(), self.pushed())
    }

    /// An empty queue of the given shape.
    pub fn new(params: QueueParameters) -> (q: Self)
        requires
            params.wf(),
        ensures
            q.wf(),
            q.shape() == params.shape(),
            q.contents() == Seq::<T>::empty(),
            params.shape().holds_elements() ==> q.pushed() == 0 && q.popped() == 0,
    {
        QueueInner { inner: crate::sync::QueueInner::new(params.to_shape()) }
    }

    /// The maximum number of elements that the queue can hold.
    pub fn capacity(&self) -> (c: usize)
        ensures
            c == self.shape().capacity.upper,
    {
        self.inner.capacity().upper
    }

    /// Pushes an element. Under one caller no other operation interferes, so the
    /// push succeeds unless the queue is full.
    pub fn try_push(&mut self, elem: T) -> (r: Result<(), TryPushError<T>>)
        requires
            old(self).wf(),
            old(self).full() || old(self).has_version(),
        ensures
            final(self).wf(),
            final(self).shape() == old(self).shape(),
            match r {
                Ok(_) => {
                    &&& !old(self).full()
                    &&& final(self).contents() == old(self).contents().push(elem)
                    &&& final(self).pushed() == old(self).pushed() + 1
                    &&& final(self).popped() == old(self).popped()
                },
                Err(TryPushError::Full(e)) => {
                    &&& old(self).full()
                    &&& e == elem
                    &&& final(self).contents() == old(self).contents()
                    &&& final(self).pushed() == old(self).pushed()
                    &&& final(self).popped() == old(self).popped()
                },
                Err(TryPushError::Busy) => false,
            },
    {
        match self.inner.try_push(elem) {
            Ok(()) => Ok(()),
            Err(crate::sync::TryPushError::Full(elem)) => Err(TryPushError::Full(elem)),
            Err(crate::sync::TryPushError::Busy(_)) => Err(TryPushError::Busy),
        }
    }

    /// Pops the first element. Under one caller no other operation interferes,
    /// so the pop succeeds unless the queue is empty.
    pub fn try_pop(&mut self) -> (r: Result<T, TryPopError>)
        requires
            old(self).wf(),
        ensures
            final(self).wf(),
            final(self).shape() == old(self).shape(),
            match r {
                Ok(elem) => {
                    &&& old(self).contents().len() > 0
                    &&& elem == old(self).contents()[0]
                    &&& final(self).contents() == old(self).contents().drop_first()
                    &&& final(self).pushed() == old(self).pushed()
                    &&& final(self).popped() == old(self).popped() + 1
                },
                Err(TryPopError::Empty) => {
                    &&& old(self).contents().len() == 0
                    &&& final(self).contents() == old(self).contents()
                    &&& final(self).pushed() == old(self).pushed()
                    &&& final(self).popped() == old(self).popped()
                },
                Err(TryPopError::Busy) => false,
            },
    {
        match self.inner.try_pop() {
            Ok(elem) => Ok(elem),
            Err(crate::sync::TryPopError::Empty) => Err(TryPopError::Empty),
            Err(crate::sync::TryPopError::Busy) => Err(TryPopError::Busy),
        }
    }
}

impl<T> QueueInner<T> {
    /// Pops and drops all elements. No operation interferes, so no pop is ever
    /// turned away before the queue is empty.
    pub fn drop_contents(&mut self)
        requires
            old(self).wf(),
        ensures
            final(self).wf(),
            final(self).shape() == old(self).shape(),
            final(self).contents() == Seq::<T>::empty(),
            final(self).pushed() == old(self).pushed(),
            final(self).popped() == old(self).popped() + old(self).contents().len(),
    {
        loop
            invariant
                self.wf(),
                self.shape() == old(self).shape(),
                self.pushed() == old(self).pushed(),
                self.popped() + self.contents().len() == old(self).popped() + old(
                    self,
                ).contents().len(),
            decreases self.contents().len(),
        {
            match self.try_pop() {
                Ok(_) => {},
                Err(_) => {
                    assert(self.contents() =~= Seq::<T>::empty());
                    return;
                },
            }
        }
    }
}

/// A multi-producer multi-consumer queue that allows sending and receiving from
/// different threads.
#[verifier::reject_recursive_types(T)]
pub struct Queue<T>(crate::sync::Queue<T>);

impl<T> Queue<T> {
    /// The words and slots of the queue.
    pub closed spec fn shared(&self) -> Shared<T> {
        self.0.shared()
    }

    /// The shape of the queue.
    pub open spec fn shape(&self) -> crate::sync::QueueParameters {
        self.shared().params()
    }

    /// A new queue that will be able to hold at least the specified number of elements.
    pub fn new(capacity: usize) -> (q: Self)
        requires
            shape_fits(heuristic_blocks(capacity as int), heuristic_block_size(capacity as int)),
        ensures
            q.shape().wf(),
            q.shape().num_blocks == heuristic_blocks(capacity as int),
            q.shape().block_size == heuristic_block_size(capacity as int),
            q.shape().capacity.upper >= capacity,
            q.shared().made_new(),
    {
        let params = QueueParameters::from_block_heuristic(capacity);
        Self::with_block_params(params.num_blocks, params.block_size)
    }

    /// A new queue with the specified number of blocks and block size. Its
    /// capacity is the product of the two.
    pub fn with_block_params(num_blocks: usize, block_size: usize) -> (q: Self)
        requires
            shape_fits(num_blocks as int, block_size as int),
        ensures
            q.shape().wf(),
            q.shape().num_blocks == num_blocks,
            q.shape().block_size == block_size,
            q.shape().capacity.upper == num_blocks * block_size,
            q.shared().made_new(),
    {
        let q = Queue(crate::sync::Queue::with_block_params(num_blocks, block_size));
        proof {
            crate::sync::params::lemma_capacity_bounds(q.shape());
        }
        q
    }

    /// The maximum number of elements that the queue can hold.
    pub fn capacity(&self) -> (c: usize)
        ensures
            c == self.shape().capacity.upper,
    {
        self.0.capacity().upper
    }

    /// Pushes an element, and fails if the queue is full or a concurrent
    /// operation interferes.
    pub fn try_push(&self, elem: T) -> (r: Result<(), TryPushError<T>>)
        ensures
            exists|replies: Seq<Reply<T>>| #[trigger]
                push_ends(self.shared(), elem, replies, with_element(elem, r)),
            match r {
                Ok(_) => exists|replies: Seq<Reply<T>>| #[trigger]
                    push_ends(self.shared(), elem, replies, Ok(())),
                Err(TryPushError::Full(e)) => e == elem && exists|replies: Seq<Reply<T>>| #[trigger]
                    push_ends(
                        self.shared(),
                        elem,
                        replies,
                        Err(crate::sync::TryPushError::Full(elem)),
                    ),
                Err(TryPushError::Busy) => exists|replies: Seq<Reply<T>>| #[trigger]
                    push_ends(
                        self.shared(),
                        elem,
                        replies,
                        Err(crate::sync::TryPushError::Busy(elem)),
                    ),
            },
            r matches Err(TryPushError::Full(e)) ==> e == elem,
            !self.shape().holds_elements() ==> r is Err && (r->Err_0 is Full),
    {
        let ghost pushed = elem;
        let outcome = self.0.try_push(elem);
        let ghost replies = choose|replies: Seq<Reply<T>>| #[trigger]
            push_ends(self.shared(), pushed, replies, outcome);
        let r = match outcome {
            Ok(()) => Ok(()),
            Err(crate::sync::TryPushError::Full(elem)) => Err(TryPushError::Full(elem)),
            Err(crate::sync::TryPushError::Busy(_)) => Err(TryPushError::Busy),
        };
        proof {
            assert(push_ends(self.shared(), pushed, replies, with_element(pushed, r)));
        }
        r
    }

    /// Pops an element, and fails if the queue is empty or a concurrent
    /// operation interferes.
    pub fn try_pop(&self) -> (r: Result<T, TryPopError>)
        ensures
            exists|replies: Seq<Reply<T>>| #[trigger]
                pop_ends(self.shared(), replies, as_parent(r)),
            match r {
                Ok(elem) => exists|replies: Seq<Reply<T>>| #[trigger]
                    pop_ends(self.shared(), replies, Ok(elem)),
                Err(TryPopError::Empty) => exists|replies: Seq<Reply<T>>| #[trigger]
                    pop_ends(self.shared(), replies, Err(crate::sync::TryPopError::Empty)),
                Err(TryPopError::Busy) => exists|replies: Seq<Reply<T>>| #[trigger]
                    pop_ends(self.shared(), replies, Err(crate::sync::TryPopError::Busy)),
            },
            !self.shape().holds_elements() ==> r == Err::<T, TryPopError>(TryPopError::Empty),
    {
        let outcome = self.0.try_pop();
        let ghost replies = choose|replies: Seq<Reply<T>>| #[trigger]
            pop_ends(self.shared(), replies, outcome);
        let r = match outcome {
            Ok(elem) => Ok(elem),
            Err(crate::sync::TryPopError::Empty) => Err(TryPopError::Empty),
            Err(crate::sync::TryPopError::Busy) => Err(TryPopError::Busy),
        };
        proof {
            assert(pop_ends(self.shared(), replies, as_parent(r)));
        }
        r
    }
}

/// The number of blocks is a power of two, and no less than two. It is about the
/// fourth root of the capacity: its fourth power does not exceed the capacity,
/// unless there are two blocks, and that of its double does.
pub proof fn lemma_heuristic_blocks(capacity: int)
    requires
        0 < capacity,
    ensures
        ({
            let blocks = heuristic_blocks(capacity);
            &&& blocks >= 2
            &&& exists|k: nat| blocks == #[trigger] pow2(k)
            &&& blocks == 2 || blocks * blocks * blocks * blocks <= capacity
            &&& capacity < (2 * blocks) * (2 * blocks) * (2 * blocks) * (2 * blocks)
        }),
{
    let log = floor_log2(capacity);
    let q = if log / 4 > 1 {
        log / 4
    } else {
        1
    };
    lemma2_to64();
    lemma_floor_log2(capacity);
    lemma_pow2_order(1, q);
    lemma_fourth_power(q);
    lemma_fourth_power(q + 1);
    lemma_pow2_adds(1, q);
    lemma_pow2_order(4 * q, log);
    lemma_pow2_order(log + 1, 4 * (q + 1));
    assert(heuristic_blocks(capacity) == pow2(q));
}

/// The blocks hold the capacity, and would not if they were smaller.
pub proof fn lemma_heuristic_block_size(capacity: int)
    requires
        0 <= capacity,
    ensures
        ({
            let blocks = heuristic_blocks(capacity);
            let size = heuristic_block_size(capacity);
            &&& size >= 1
            &&& capacity <= blocks * size
            &&& size == 1 || blocks * (size - 1) < capacity
        }),
{
    let blocks = heuristic_blocks(capacity);
    let quarter = (if capacity > 0 {
        floor_log2(capacity)
    } else {
        0
    }) / 4;
    lemma_pow2_pos(if quarter > 1 {
        quarter
    } else {
        1
    });
    if capacity > 0 {
        lemma_least_multiple(capacity, blocks);
    }
}

/// A queue can be made for every capacity that leaves two bits of a machine word unused.
pub proof fn lemma_heuristic_fits(capacity: int)
    requires
        0 <= capacity <= usize::MAX / 4,
    ensures
        shape_fits(heuristic_blocks(capacity), heuristic_block_size(capacity)),
{
    lemma_word_count();
    lemma2_to64();
    if capacity > 0 {
        lemma_floor_log2(capacity);
        lemma_pow2_order(floor_log2(capacity), usize::BITS as nat);
        let quarter = floor_log2(capacity) / 4;
        lemma_rounded_shape_fits(
            capacity,
            if quarter > 1 {
                quarter
            } else {
                1
            },
            heuristic_block_size(capacity),
        );
    } else {
        lemma_ceil_log2_le(2, 1);
    }
}

}
