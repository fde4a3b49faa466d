//! The words and slots of a queue, shared between threads.

use crate::sync::cursor::{next_word, UnpackedCursor, UnpackedHead};
use crate::sync::memory::{max_word, Access, End, Field, Memory, Reply};
use crate::sync::params::{Capacity, QueueParameters};
use crate::sync::snapshot::{BlockSnapshot, Snapshot};
use crossbeam_utils::atomic::AtomicCell;
use std::sync::atomic::{AtomicUsize, Ordering};
use vstd::prelude::*;

verus! {

/// `crossbeam_utils::atomic::AtomicCell`: a cell whose content is replaced as a
/// whole. Nothing is known of what a cell holds, since other threads replace it too.
#[verifier::external_type_specification]
#[verifier::external_body]
#[verifier::reject_recursive_types(T)]
pub struct ExAtomicCell<T>(AtomicCell<T>);

/// `AtomicCell::new` makes a cell. What it holds from then on depends on every
/// thread that has access to it, so nothing is said of it.
pub assume_specification<T>[ AtomicCell::<T>::new ](val: T) -> AtomicCell<T>;

/// `AtomicCell::swap` puts a value into the cell and gives back the one that was
/// there. Which one that is depends on the threads that share the cell, so
/// nothing is said of it.
pub assume_specification<T>[ AtomicCell::<T>::swap ](cell: &AtomicCell<T>, val: T) -> T;

/// What an access does to the word that it touches.
#[derive(Debug, Clone, Copy, PartialEq, Eq, Structural)]
pub enum WordAccess {
    /// Leaves it.
    Load,
    /// Raises it to another word.
    Raise(usize),
    /// Counts it up by one.
    Increment,
}

impl WordAccess {
    /// The word after the access.
    pub open spec fn applied(self, word: usize) -> usize {
        match self {
            WordAccess::Load => word,
            WordAccess::Raise(raised) => max_word(raised, word),
            WordAccess::Increment => next_word(word),
        }
    }
}

/// A word that operations of several threads touch.
#[derive(Debug, Clone, Copy, PartialEq, Eq, Structural)]
pub enum Place {
    /// The word of a head.
    Head(End),
    /// The word of a cursor of a block.
    Cursor(usize, Field),
}

impl<T> Memory<T> {
    /// The word at a place.
    pub open spec fn at(self, place: Place) -> usize {
        match place {
            Place::Head(end) => self.head(end),
            Place::Cursor(block, field) => self.blocks[block as int].word(field),
        }
    }

    /// The memory with another word at a place.
    pub open spec fn with(self, place: Place, word: usize) -> Self {
        match place {
            Place::Head(end) => self.with_head(end, word),
            Place::Cursor(block, field) => self.with_block(
                block as int,
                self.blocks[block as int].with_word(field, word),
            ),
        }
    }
}

impl<T> Access<T> {
    /// The access touches a word, not a slot.
    pub open spec fn is_to_word(self) -> bool {
        !(self is Write) && !(self is Take)
    }

    /// The place of the word that the access touches.
    pub open spec fn place(self) -> Place {
        match self {
            Access::LoadHead(end) => Place::Head(end),
            Access::RaiseHead(end, _) => Place::Head(end),
            Access::Load(block, field) => Place::Cursor(block, field),
            Access::Increment(block, field) => Place::Cursor(block, field),
            Access::Raise(block, field, _) => Place::Cursor(block, field),
            Access::Write(block, _, _) => Place::Cursor(block, Field::Committed),
            Access::Take(block, _) => Place::Cursor(block, Field::Consumed),
        }
    }

    /// What the access does to the word.
    pub open spec fn to_word(self, params: QueueParameters) -> WordAccess {
        match self {
            Access::RaiseHead(_, head) => WordAccess::Raise(params.head_word(head)),
            Access::Increment(_, _) => WordAccess::Increment,
            Access::Raise(_, _, cursor) => WordAccess::Raise(params.cursor_word(cursor)),
            _ => WordAccess::Load,
        }
    }

    /// The word that the access touches, and what it does to it.
    pub fn request(&self, params: &QueueParameters) -> (r: (Place, WordAccess))
        requires
            params.wf(),
            self.is_to_word(),
        ensures
            r.0 == self.place(),
            r.1 == self.to_word(*params),
    {
        match self {
            Access::LoadHead(end) => (Place::Head(*end), WordAccess::Load),
            Access::RaiseHead(end, head) => (
                Place::Head(*end),
                WordAccess::Raise(params.pack_head(*head)),
            ),
            Access::Load(block, field) => (Place::Cursor(*block, *field), WordAccess::Load),
            Access::Increment(block, field) => (
                Place::Cursor(*block, *field),
                WordAccess::Increment,
            ),
            Access::Raise(block, field, cursor) => (
                Place::Cursor(*block, *field),
                WordAccess::Raise(params.pack_cursor(*cursor)),
            ),
            // not called for an access to a slot
            Access::Write(block, _, _) => (
                Place::Cursor(*block, Field::Committed),
                WordAccess::Load,
            ),
            Access::Take(block, _) => (Place::Cursor(*block, Field::Consumed), WordAccess::Load),
        }
    }
}

impl<T> Reply<T> {
    /// The reply that is read from a word. A word that names no block is never
    /// stored as a head; the remainder makes evident that a head names one.
    pub open spec fn of_word(params: QueueParameters, place: Place, word: usize) -> Self {
        match place {
            Place::Head(_) => {
                let head = params.head_of(word);
                Reply::Head(
                    UnpackedHead {
                        version: head.version,
                        index: (head.index as int % params.num_blocks as int) as usize,
                    },
                )
            },
            Place::Cursor(_, _) => Reply::Cursor(params.cursor_of(word)),
        }
    }

    /// Reads the reply from a word.
    pub fn from_word(params: &QueueParameters, place: Place, word: usize) -> (reply: Self)
        requires
            params.wf(),
            params.holds_elements(),
        ensures
            reply == Self::of_word(*params, place, word),
    {
        match place {
            Place::Head(_) => {
                let head = params.unpack_head(word);
                Reply::Head(
                    UnpackedHead { version: head.version, index: head.index % params.num_blocks },
                )
            },
            Place::Cursor(_, _) => Reply::Cursor(params.unpack_cursor(word)),
        }
    }
}

/// Touching the word at the place of an access, and reading the reply from what
/// the word was, is the access.
pub proof fn lemma_access_to_word<T>(
    params: QueueParameters,
    memory: Memory<T>,
    access: Access<T>,
)
    requires
        params.wf(),
        params.holds_elements(),
        memory.shaped(params),
        access.in_bounds(params),
        access.is_to_word(),
    ensures
        access.performed(params, memory) == (
            memory.with(
                access.place(),
                access.to_word(params).applied(memory.at(access.place())),
            ),
            Reply::<T>::of_word(params, access.place(), memory.at(access.place())),
        ),
{
    params.lemma_unpacked(memory.producer);
    params.lemma_unpacked(memory.consumer);
    match access.place() {
        Place::Head(end) => {
            vstd::arithmetic::div_mod::lemma_small_mod(
                params.head_of(memory.head(end)).index as nat,
                params.num_blocks as nat,
            );
            assert(memory.with_head(end, memory.head(end)) =~= memory);
        },
        Place::Cursor(block, field) => {
            let b = memory.blocks[block as int];
            assert(b.with_word(field, b.word(field)) == b);
            assert(memory.with_block(block as int, b) =~= memory);
        },
    }
}

/// One sequentially consistent access to the word can give back `was`. Which of
/// the possible values it gives depends on the threads that share the word.
pub open spec fn can_touch(word: AtomicUsize, access: WordAccess, was: usize) -> bool {
    match access {
        WordAccess::Load => call_ensures(AtomicUsize::load, (&word, Ordering::SeqCst), was),
        WordAccess::Raise(raised) => call_ensures(
            AtomicUsize::fetch_max,
            (&word, raised, Ordering::SeqCst),
            was,
        ),
        WordAccess::Increment => call_ensures(
            AtomicUsize::fetch_add,
            (&word, 1usize, Ordering::SeqCst),
            was,
        ),
    }
}

/// A relaxed load of the word can give back `was`.
pub open spec fn can_glance(word: AtomicUsize, was: usize) -> bool {
    call_ensures(AtomicUsize::load, (&word, Ordering::Relaxed), was)
}

/// Making a word that holds `first` can give this one.
pub open spec fn made_with(word: AtomicUsize, first: usize) -> bool {
    call_ensures(AtomicUsize::new, (first,), word)
}

/// Making a cell that holds nothing can give this one.
pub open spec fn made_empty<T>(cell: AtomicCell<Option<T>>) -> bool {
    call_ensures(AtomicCell::<Option<T>>::new, (None::<T>,), cell)
}

/// Putting `slot` into the cell can give back `was`.
pub open spec fn can_swap<T>(cell: AtomicCell<Option<T>>, slot: Option<T>, was: Option<T>) -> bool {
    call_ensures(AtomicCell::<Option<T>>::swap, (&cell, slot), was)
}

/// Touches a shared word by one sequentially consistent access, and gives back
/// what that access reads. Which value it is depends on the threads that share
/// the word.
fn touch(word: &AtomicUsize, access: WordAccess) -> (was: usize)
    ensures
        can_touch(*word, access, was),
{
    match access {
        WordAccess::Load => word.load(Ordering::SeqCst),
        WordAccess::Raise(raised) => word.fetch_max(raised, Ordering::SeqCst),
        WordAccess::Increment => word.fetch_add(1, Ordering::SeqCst),
    }
}

/// Reads a shared word as it is at the moment, without an order to other accesses.
fn glance_at(word: &AtomicUsize) -> (was: usize)
    ensures
        can_glance(*word, was),
{
    word.load(Ordering::Relaxed)
}

/// Where the cursors of a block of a new queue stand: the first block is ready
/// for elements, the others look as if they had been filled and consumed before.
pub open spec fn first_cursor(params: QueueParameters, is_first_block: bool) -> UnpackedCursor {
    UnpackedCursor {
        version: 0,
        offset: if is_first_block {
            0
        } else {
            params.block_size
        },
    }
}

/// A block whose slots and cursors are shared.
#[verifier::reject_recursive_types(T)]
pub struct SharedBlock<T> {
    data: Vec<AtomicCell<Option<T>>>,
    allocated: AtomicUsize,
    committed: AtomicUsize,
    reserved: AtomicUsize,
    consumed: AtomicUsize,
}

impl<T> SharedBlock<T> {
    /// The number of slots.
    pub closed spec fn slots(&self) -> nat {
        self.data@.len()
    }

    /// The cell of a slot.
    pub closed spec fn cell_of(self, offset: usize) -> AtomicCell<Option<T>> {
        self.data@[offset as int]
    }

    /// The words and cells are as they can be made for a block with all cursors at
    /// one place, and nothing in its slots.
    pub open spec fn made_at(self, params: QueueParameters, cursor: UnpackedCursor) -> bool {
        &&& self.slots() == params.block_size
        &&& forall|field: Field| made_with(#[trigger] self.word_of(field), params.cursor_word(cursor))
        &&& forall|offset: usize|
            offset < params.block_size ==> made_empty(#[trigger] self.cell_of(offset))
    }

    /// An empty block. The first block of a queue is ready for elements; the
    /// others look as if they had been filled and consumed before.
    fn new(params: &QueueParameters, is_first_block: bool) -> (b: Self)
        requires
            params.wf(),
            params.num_blocks > 0,
        ensures
            b.made_at(*params, first_cursor(*params, is_first_block)),
    {
        let mut data: Vec<AtomicCell<Option<T>>> = Vec::with_capacity(params.block_size);
        while data.len() < params.block_size
            invariant
                data.len() <= params.block_size,
                forall|o: int| 0 <= o < data.len() ==> made_empty(#[trigger] data@[o]),
            decreases params.block_size - data.len(),
        {
            data.push(AtomicCell::new(None));
        }
        let offset: usize = if is_first_block {
            0
        } else {
            params.block_size
        };
        let word: usize = params.pack_cursor(UnpackedCursor { version: 0, offset });
        SharedBlock {
            data,
            allocated: AtomicUsize::new(word),
            committed: AtomicUsize::new(word),
            reserved: AtomicUsize::new(word),
            consumed: AtomicUsize::new(word),
        }
    }

    /// The word of a cursor.
    pub closed spec fn word_of(self, field: Field) -> AtomicUsize {
        match field {
            Field::Allocated => self.allocated,
            Field::Committed => self.committed,
            Field::Reserved => self.reserved,
            Field::Consumed => self.consumed,
        }
    }

    /// The word of a cursor.
    fn word(&self, field: Field) -> (word: &AtomicUsize)
        ensures
            *word == self.word_of(field),
    {
        match field {
            Field::Allocated => &self.allocated,
            Field::Committed => &self.committed,
            Field::Reserved => &self.reserved,
            Field::Consumed => &self.consumed,
        }
    }
}

/// The words and slots of a queue.
#[verifier::reject_recursive_types(T)]
pub struct Shared<T> {
    consumer: AtomicUsize,
    producer: AtomicUsize,
    blocks: Vec<SharedBlock<T>>,
    params: QueueParameters,
}

impl<T> Shared<T> {
    /// The parameters of the queue.
    pub closed spec fn params(&self) -> QueueParameters {
        self.params
    }

    /// The block at an index.
    pub closed spec fn block_at(self, block: usize) -> SharedBlock<T> {
        self.blocks@[block as int]
    }

    /// The words and cells are as they can be made for an empty queue: the heads
    /// name the first block, the first block is ready for elements, and every slot
    /// is empty.
    pub open spec fn made_new(self) -> bool {
        let first = self.params().head_word((UnpackedHead { version: 0, index: 0 }));
        &&& made_with(self.word_at(Place::Head(End::Producer)), first)
        &&& made_with(self.word_at(Place::Head(End::Consumer)), first)
        &&& forall|block: usize|
            block < self.params().num_blocks ==> (#[trigger] self.block_at(block)).made_at(
                self.params(),
                first_cursor(self.params(), block == 0),
            )
    }

    /// The cell of a slot.
    pub open spec fn cell_at(self, block: usize, offset: usize) -> AtomicCell<Option<T>> {
        self.block_at(block).cell_of(offset)
    }

    /// Performing the access can give the reply, by one access to the word at its
    /// place or one exchange with the cell of its slot.
    pub open spec fn can_reply(self, access: Access<T>, reply: Reply<T>) -> bool {
        match access {
            Access::Write(block, offset, elem) => {
                &&& reply == Reply::<T>::Written
                &&& exists|was: Option<T>| #[trigger]
                    can_swap(self.cell_at(block, offset), Some(elem), was)
            },
            Access::Take(block, offset) => exists|was: Option<T>|
                reply == Reply::Taken(was) && #[trigger] can_swap(
                    self.cell_at(block, offset),
                    None,
                    was,
                ),
            _ => exists|was: usize|
                reply == Reply::<T>::of_word(self.params(), access.place(), was)
                    && #[trigger] can_touch(
                    self.word_at(access.place()),
                    access.to_word(self.params()),
                    was,
                ),
        }
    }

    /// A glance at the word of the head can give it.
    pub open spec fn shows_head(self, end: End, head: UnpackedHead) -> bool {
        exists|was: usize|
            head == self.params().head_of(was) && #[trigger] can_glance(
                self.word_at(Place::Head(end)),
                was,
            )
    }

    /// A glance at the word of the cursor can give it.
    pub open spec fn shows_cursor(self, block: usize, field: Field, cursor: UnpackedCursor) -> bool {
        exists|was: usize|
            cursor == self.params().cursor_of(was) && #[trigger] can_glance(
                self.word_at(Place::Cursor(block, field)),
                was,
            )
    }

    /// Glances at the words of the block can give its cursors.
    pub open spec fn shows_block(self, block: usize, s: BlockSnapshot) -> bool {
        &&& self.shows_cursor(block, Field::Allocated, s.allocated)
        &&& self.shows_cursor(block, Field::Committed, s.committed)
        &&& self.shows_cursor(block, Field::Reserved, s.reserved)
        &&& self.shows_cursor(block, Field::Consumed, s.consumed)
    }

    /// Glances at the words of the queue can give the heads and cursors.
    pub open spec fn shows(self, s: Snapshot) -> bool {
        &&& s.params == self.params()
        &&& self.shows_head(End::Consumer, s.consumer)
        &&& self.shows_head(End::Producer, s.producer)
        &&& s.blocks@.len() == s.params.num_blocks
        &&& forall|block: usize|
            block < s.params.num_blocks ==> self.shows_block(block, #[trigger] s.blocks@[block as int])
    }

    /// The words of a block are at the places of its cursors.
    pub proof fn lemma_words(self)
        ensures
            forall|block: usize, field: Field| #[trigger]
                self.word_at(Place::Cursor(block, field)) == self.block_at(block).word_of(field),
    {
    }

    #[verifier::type_invariant]
    spec fn shaped(&self) -> bool {
        &&& self.params.wf()
        &&& self.blocks@.len() == self.params.num_blocks
        &&& forall|i: int|
            0 <= i < self.blocks@.len() ==> (#[trigger] self.blocks@[i]).slots()
                == self.params.block_size
    }

    /// The words and slots of an empty queue of the given shape.
    pub fn new(params: QueueParameters) -> (shared: Self)
        requires
            params.wf(),
        ensures
            shared.params() == params,
            shared.made_new(),
    {
        let first: usize = params.pack_head(UnpackedHead { version: 0, index: 0 });
        let mut blocks: Vec<SharedBlock<T>> = Vec::with_capacity(params.num_blocks);
        let mut index: usize = 0;
        while index < params.num_blocks
            invariant
                params.wf(),
                index <= params.num_blocks,
                blocks.len() == index,
                forall|i: int|
                    0 <= i < blocks@.len() ==> (#[trigger] blocks@[i]).made_at(
                        params,
                        first_cursor(params, i == 0),
                    ),
            decreases params.num_blocks - index,
        {
            blocks.push(SharedBlock::new(&params, index == 0));
            index = index + 1;
        }
        Shared {
            consumer: AtomicUsize::new(first),
            producer: AtomicUsize::new(first),
            blocks,
            params,
        }
    }

    /// The capacity of the queue.
    pub fn capacity(&self) -> (c: &Capacity)
        ensures
            *c == self.params().capacity,
    {
        &self.params.capacity
    }

    /// The parameters of the queue.
    pub fn parameters(&self) -> (params: &QueueParameters)
        ensures
            *params == self.params(),
            params.wf(),
    {
        proof {
            use_type_invariant(self);
        }
        &self.params
    }

    /// The head at an end, as it is at the moment.
    fn glance_at_head(&self, end: End) -> (head: UnpackedHead)
        ensures
            self.shows_head(end, head),
            self.params().head_in_range(head),
    {
        proof {
            use_type_invariant(self);
        }
        let was: usize = glance_at(self.word(Place::Head(end)));
        self.params.unpack_head(was)
    }

    /// A cursor of a block, as it is at the moment.
    fn glance_at_cursor(&self, block: usize, field: Field) -> (cursor: UnpackedCursor)
        requires
            block < self.params().num_blocks,
        ensures
            self.shows_cursor(block, field, cursor),
            self.params().cursor_in_range(cursor),
    {
        proof {
            use_type_invariant(self);
        }
        let was: usize = glance_at(self.word(Place::Cursor(block, field)));
        self.params.unpack_cursor(was)
    }

    /// The heads and cursors, each as it is at the moment at which it is read.
    pub fn snapshot(&self) -> (s: Snapshot)
        ensures
            self.shows(s),
            s.params.head_in_range(s.consumer),
            s.params.head_in_range(s.producer),
            forall|i: int|
                0 <= i < s.blocks@.len() ==> (#[trigger] s.blocks@[i]).in_range(s.params),
    {
        proof {
            use_type_invariant(self);
        }
        let params = self.params;
        let mut blocks: Vec<BlockSnapshot> = Vec::with_capacity(self.blocks.len());
        let mut index: usize = 0;
        while index < self.blocks.len()
            invariant
                params == self.params(),
                index <= self.blocks.len(),
                self.blocks.len() == params.num_blocks,
                blocks.len() == index,
                forall|i: int| 0 <= i < index ==> (#[trigger] blocks@[i]).in_range(params),
                forall|block: usize|
                    block < index ==> self.shows_block(block, #[trigger] blocks@[block as int]),
            decreases self.blocks.len() - index,
        {
            blocks.push(
                BlockSnapshot {
                    allocated: self.glance_at_cursor(index, Field::Allocated),
                    committed: self.glance_at_cursor(index, Field::Committed),
                    reserved: self.glance_at_cursor(index, Field::Reserved),
                    consumed: self.glance_at_cursor(index, Field::Consumed),
                },
            );
            index = index + 1;
        }
        Snapshot {
            consumer: self.glance_at_head(End::Consumer),
            producer: self.glance_at_head(End::Producer),
            blocks,
            params,
        }
    }

    /// The word at a place.
    pub closed spec fn word_at(self, place: Place) -> AtomicUsize {
        match place {
            Place::Head(End::Producer) => self.producer,
            Place::Head(End::Consumer) => self.consumer,
            Place::Cursor(block, field) => self.block_at(block).word_of(field),
        }
    }

    /// The word at a place.
    fn word(&self, place: Place) -> (word: &AtomicUsize)
        requires
            place matches Place::Cursor(block, _) ==> block < self.params().num_blocks,
        ensures
            *word == self.word_at(place),
    {
        proof {
            use_type_invariant(self);
        }
        match place {
            Place::Head(End::Producer) => &self.producer,
            Place::Head(End::Consumer) => &self.consumer,
            Place::Cursor(block, field) => self.blocks[block].word(field),
        }
    }

    /// Performs one access. Other threads may have performed any accesses in
    /// between: what the word or the slot was is up to them, and the reply is
    /// what is read from it.
    pub fn perform(&self, access: Access<T>) -> (reply: Reply<T>)
        requires
            self.params().holds_elements(),
            access.in_bounds(self.params()),
        ensures
            access.answered_by(self.params(), reply),
            self.can_reply(access, reply),
    {
        proof {
            use_type_invariant(self);
            self.params.lemma_layout();
        }
        match access {
            Access::Write(block, offset, elem) => {
                let was = self.blocks[block].data[offset].swap(Some(elem));
                assert(can_swap(self.cell_at(block, offset), Some(elem), was));
                Reply::Written
            },
            Access::Take(block, offset) => {
                let was = self.blocks[block].data[offset].swap(None);
                assert(can_swap(self.cell_at(block, offset), None, was));
                Reply::Taken(was)
            },
            access => {
                let (place, to_word) = access.request(&self.params);
                let word: usize = touch(self.word(place), to_word);
                proof {
                    self.params.lemma_unpacked(word);
                }
                Reply::from_word(&self.params, place, word)
            },
        }
    }
}

}
