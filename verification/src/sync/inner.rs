//! A queue that is accessed by one caller at a time.

use crate::sync::alone::{
    enough_steps, lemma_filled_slots, lemma_laps_in_range, lemma_pop_alone, lemma_push_alone,
    pop_alone, pop_from_start, push_alone, push_from_start,
};
use crate::sync::cursor::{PackedCursor, PackedHead, UnpackedCursor, UnpackedHead};
use crate::sync::error::{TryPopError, TryPushError};
use crate::sync::laps::{
    block_settled, elements, lap_cursor, lap_head, last_block, lemma_quotient, lemma_split,
    no_room, settled, takes_none, version_left,
};
use crate::sync::memory::{lemma_access_keeps_shape, max_word, Access, BlockMemory, End, Field, Memory, Reply};
use crate::sync::params::{Capacity, QueueParameters};
use crate::sync::pop::{PopState, PopStep};
use crate::sync::push::{PushState, PushStep};
use crate::sync::snapshot::{BlockSnapshot, Snapshot};
use vstd::prelude::*;

verus! {

/// A block: its slots and the four cursors that count through them.
#[derive(Debug)]
pub struct Block<T> {
    data: Vec<Option<T>>,
    allocated: PackedCursor,
    committed: PackedCursor,
    reserved: PackedCursor,
    consumed: PackedCursor,
}

impl<T> Block<T> {
    /// The words and slots of the block.
    pub closed spec fn view(&self) -> BlockMemory<T> {
        BlockMemory {
            data: self.data@,
            allocated: self.allocated.0,
            committed: self.committed.0,
            reserved: self.reserved.0,
            consumed: self.consumed.0,
        }
    }

    /// The block holds nothing, and its cursors all stand at `offset` under `version`.
    pub open spec fn fresh(&self, params: QueueParameters, version: usize, offset: usize) -> bool {
        let word = params.cursor_word(UnpackedCursor { version, offset });
        &&& self@.data == Seq::new(params.block_size as nat, |o: int| None::<T>)
        &&& self@.allocated == word
        &&& self@.committed == word
        &&& self@.reserved == word
        &&& self@.consumed == word
    }

    /// The first slot that `reset` empties.
    pub open spec fn first_filled(&self, params: QueueParameters) -> usize {
        let committed = params.cursor_of(self@.committed);
        let consumed = params.cursor_of(self@.consumed);
        if committed.version > consumed.version {
            0
        } else {
            consumed.offset
        }
    }

    /// The filled slots are those that are committed and not consumed.
    pub open spec fn counted(&self, params: QueueParameters) -> bool {
        let end = params.cursor_of(self@.committed).offset;
        &&& self@.data.len() == params.block_size
        &&& self.first_filled(params) <= end <= params.block_size
        &&& forall|o: int|
            0 <= o < self@.data.len() ==> ((#[trigger] self@.data[o]) is Some <==> self.first_filled(
                params,
            ) <= o < end)
    }

    /// An empty block. The first block of a queue is ready for elements; the
    /// others look as if they had been filled and consumed before.
    pub fn new(params: &QueueParameters, is_first_block: bool) -> (b: Self)
        requires
            params.wf(),
            params.num_blocks > 0,
        ensures
            b.fresh(
                *params,
                0,
                if is_first_block {
                    0
                } else {
                    params.block_size
                },
            ),
    {
        let mut data: Vec<Option<T>> = Vec::with_capacity(params.block_size);
        while data.len() < params.block_size
            invariant
                data.len() <= params.block_size,
                forall|o: int| 0 <= o < data.len() ==> data@[o] == None::<T>,
            decreases params.block_size - data.len(),
        {
            data.push(None);
        }
        assert(data@ =~= Seq::new(params.block_size as nat, |o: int| None::<T>));
        proof {
            params.lemma_layout();
        }
        let offset: usize = if is_first_block {
            0
        } else {
            params.block_size
        };
        Block {
            data,
            allocated: PackedCursor::new(params, 0, offset),
            committed: PackedCursor::new(params, 0, offset),
            reserved: PackedCursor::new(params, 0, offset),
            consumed: PackedCursor::new(params, 0, offset),
        }
    }

    /// Drops all data present in the block and sets its cursors back to their
    /// initial places, under the given version.
    pub fn reset(&mut self, params: &QueueParameters, is_first_block: bool, new_version: usize)
        requires
            params.wf(),
            old(self).counted(*params),
        ensures
            final(self).fresh(
                *params,
                new_version,
                if is_first_block {
                    0
                } else {
                    params.block_size
                },
            ),
    {
        let committed = self.committed.load(params);
        let consumed = self.consumed.load(params);
        let start: usize = if committed.version > consumed.version {
            0
        } else {
            consumed.offset
        };
        let mut offset: usize = start;
        while offset < committed.offset
            invariant
                start <= offset <= committed.offset <= self.data.len(),
                self.data.len() == params.block_size,
                forall|o: int|
                    0 <= o < self.data.len() ==> ((#[trigger] self.data@[o]) is Some <==> offset
                        <= o < committed.offset),
            decreases committed.offset - offset,
        {
            self.data[offset] = None;
            offset = offset + 1;
        }
        assert(self.data@ =~= Seq::new(params.block_size as nat, |o: int| None::<T>)) by {
            assert forall|o: int| 0 <= o < self.data.len() implies self.data@[o] == None::<T> by {
                assert(!(self.data@[o] is Some));
            }
        }
        let new_offset: usize = if is_first_block {
            0
        } else {
            params.block_size
        };
        let cursor = UnpackedCursor { version: new_version, offset: new_offset };
        self.allocated.store(params, cursor);
        self.committed.store(params, cursor);
        self.reserved.store(params, cursor);
        self.consumed.store(params, cursor);
    }

    /// Reads a cursor.
    pub fn load(&self, params: &QueueParameters, field: Field) -> (cursor: UnpackedCursor)
        requires
            params.wf(),
        ensures
            cursor == params.cursor_of(self@.word(field)),
    {
        match field {
            Field::Allocated => self.allocated.load(params),
            Field::Committed => self.committed.load(params),
            Field::Reserved => self.reserved.load(params),
            Field::Consumed => self.consumed.load(params),
        }
    }

    /// Counts a cursor up by one, and reads what it was.
    pub fn increment(&mut self, params: &QueueParameters, field: Field) -> (cursor: UnpackedCursor)
        requires
            params.wf(),
        ensures
            cursor == params.cursor_of(old(self)@.word(field)),
            final(self)@ == old(self)@.with_word(
                field,
                crate::sync::cursor::next_word(old(self)@.word(field)),
            ),
    {
        match field {
            Field::Allocated => self.allocated.fetch_add(params, 1),
            Field::Committed => self.committed.fetch_add(params, 1),
            Field::Reserved => self.reserved.fetch_add(params, 1),
            Field::Consumed => self.consumed.fetch_add(params, 1),
        }
    }

    /// Raises a cursor, and reads what it was.
    pub fn raise(&mut self, params: &QueueParameters, field: Field, other: UnpackedCursor) -> (cursor:
        UnpackedCursor)
        requires
            params.wf(),
        ensures
            cursor == params.cursor_of(old(self)@.word(field)),
            final(self)@ == old(self)@.with_word(
                field,
                max_word(params.cursor_word(other), old(self)@.word(field)),
            ),
    {
        match field {
            Field::Allocated => self.allocated.fetch_max(params, other),
            Field::Committed => self.committed.fetch_max(params, other),
            Field::Reserved => self.reserved.fetch_max(params, other),
            Field::Consumed => self.consumed.fetch_max(params, other),
        }
    }
}

/// The words and slots of a queue, under one caller.
#[derive(Debug)]
pub struct QueueInner<T> {
    consumer: PackedHead,
    producer: PackedHead,
    blocks: Vec<Block<T>>,
    params: QueueParameters,
}

impl<T> QueueInner<T> {
    /// The words and slots of the queue.
    pub closed spec fn view(&self) -> Memory<T> {
        Memory {
            producer: self.producer.0,
            consumer: self.consumer.0,
            blocks: self.blocks@.map_values(|b: Block<T>| b@),
        }
    }

    /// The parameters of the queue.
    pub closed spec fn params(&self) -> QueueParameters {
        self.params
    }

    /// The queue has the shape that its parameters give.
    pub open spec fn shaped(&self) -> bool {
        &&& self.params().wf()
        &&& self@.shaped(self.params())
    }

    /// How many elements were pushed in all, as the producer words count them.
    pub open spec fn pushed(&self) -> int {
        let head = self.params().head_of(self@.producer);
        let block = head.version * self.params().num_blocks + head.index;
        block * self.params().block_size + self.params().cursor_of(
            self@.blocks[head.index as int].allocated,
        ).offset
    }

    /// How many elements were popped in all, as the consumer words count them.
    pub open spec fn popped(&self) -> int {
        let head = self.params().head_of(self@.consumer);
        let block = head.version * self.params().num_blocks + head.index;
        block * self.params().block_size + self.params().cursor_of(
            self@.blocks[head.index as int].reserved,
        ).offset
    }

    /// The words and slots are those of a queue on which no operation is under way.
    pub open spec fn wf(&self) -> bool {
        &&& self.shaped()
        &&& self.params().holds_elements() ==> settled(
            self.params(),
            self@,
            self.pushed(),
            self.popped(),
        )
    }

    /// The elements of the queue, first pushed first.
    pub open spec fn contents(&self) -> Seq<T> {
        if self.params().holds_elements() {
            elements(self.params(), self@, self.pushed(), self.popped())
        } else {
            Seq::empty()
        }
    }

    /// The queue takes no element.
    pub open spec fn full(&self) -> bool {
        takes_none(self.params(), self.pushed(), self.popped())
    }

    /// There is a version for the block that takes the next element.
    pub open spec fn has_version(&self) -> bool {
        version_left(self.params(), self.pushed())
    }

    /// The words of a settled queue count its pushes and pops.
    pub proof fn lemma_counts(&self, pushed: int, popped: int)
        requires
            self.params().wf(),
            self.params().holds_elements(),
            settled(self.params(), self@, pushed, popped),
        ensures
            self.pushed() == pushed,
            self.popped() == popped,
    {
        let params = self.params();
        let n = params.num_blocks as int;
        let size = params.block_size as int;
        let plast = last_block(size, pushed);
        let clast = last_block(size, popped);
        lemma_split(plast, n);
        lemma_split(clast, n);
        lemma_laps_in_range(params, plast, pushed, plast, plast % n);
        lemma_laps_in_range(params, plast, popped, clast, clast % n);
        assert(block_settled(
            params,
            self@.blocks[plast % n],
            pushed,
            plast,
            popped,
            clast,
            plast % n,
        ));
        assert(block_settled(
            params,
            self@.blocks[clast % n],
            pushed,
            plast,
            popped,
            clast,
            clast % n,
        ));
    }

    /// How many elements can be pushed before one has to be popped.
    pub open spec fn room(&self) -> int {
        let size = self.params().block_size as int;
        (self.popped() / size + self.params().num_blocks) * size - self.pushed()
    }

    /// At any time a queue can hold the upper bound of its capacity, less what
    /// is consumed of the block that consumers are in: more than the lower bound.
    /// It is full just where it holds that many elements.
    pub proof fn lemma_capacity(&self)
        requires
            self.wf(),
            self.params().holds_elements(),
        ensures
            self.room() >= 0,
            self.full() <==> self.room() == 0,
            self.contents().len() + self.room() == self.params().capacity.upper - self.popped()
                % (self.params().block_size as int),
            self.params().capacity.lower < self.contents().len() + self.room()
                <= self.params().capacity.upper,
            self.contents().len() <= self.params().capacity.upper,
            self.full() ==> self.contents().len() > self.params().capacity.lower,
    {
        let n = self.params().num_blocks as int;
        let size = self.params().block_size as int;
        let pushed = self.pushed();
        let popped = self.popped();
        let last = popped / size + n;
        lemma_split(popped, size);
        lemma_split(pushed, size);
        assert(last * size == (popped / size) * size + n * size) by (nonlinear_arith)
            requires
                last == popped / size + n,
        ;
        assert((n - 1) * size == n * size - size) by (nonlinear_arith);
        let plast = last_block(size, pushed);
        assert(plast * size + size <= last * size) by (nonlinear_arith)
            requires
                plast + 1 <= last,
                size > 0,
        ;
        if pushed / size >= last {
            assert((pushed / size) * size >= last * size) by (nonlinear_arith)
                requires
                    pushed / size >= last,
                    size > 0,
            ;
        } else {
            assert((pushed / size) * size + size <= last * size) by (nonlinear_arith)
                requires
                    pushed / size + 1 <= last,
                    size > 0,
            ;
        }
    }

    /// A queue whose blocks are fresh and whose heads name the first block is
    /// settled, and empty.
    proof fn lemma_fresh(&self)
        requires
            self.params.wf(),
            self.blocks.len() == self.params.num_blocks,
            self.producer.0 == self.params.head_word((UnpackedHead { version: 0, index: 0 })),
            self.consumer.0 == self.params.head_word((UnpackedHead { version: 0, index: 0 })),
            forall|i: int|
                0 <= i < self.blocks.len() ==> (#[trigger] self.blocks@[i]).fresh(
                    self.params,
                    0,
                    if i == 0 {
                        0
                    } else {
                        self.params.block_size
                    },
                ),
        ensures
            self.wf(),
            self.contents() == Seq::<T>::empty(),
            self.params.holds_elements() ==> self.pushed() == 0,
            self.params.holds_elements() ==> self.popped() == 0,
    {
        let params = self.params;
        let n = params.num_blocks as int;
        let size = params.block_size as int;
        params.lemma_layout();
        assert forall|i: int| 0 <= i < self@.blocks.len() implies (#[trigger] self@.blocks[i]).data.len()
            == params.block_size by {
            assert(self.blocks@[i].fresh(
                params,
                0,
                if i == 0 {
                    0
                } else {
                    params.block_size
                },
            ));
        }
        if params.holds_elements() {
            lemma_quotient(0, n, 0, 0);
            lemma_quotient(0, size, 0, 0);
            params.lemma_head_round_trip(lap_head(params, 0));
            assert forall|i: int| 0 <= i < n implies block_settled(
                params,
                #[trigger] self@.blocks[i],
                0,
                0,
                0,
                0,
                i,
            ) by {
                assert(self.blocks@[i].fresh(
                    params,
                    0,
                    if i == 0 {
                        0
                    } else {
                        params.block_size
                    },
                ));
                assert(lap_cursor(params, 0, 0, i) == (UnpackedCursor {
                    version: 0,
                    offset: if i == 0 {
                        0
                    } else {
                        params.block_size
                    },
                }));
            }
            assert(settled(params, self@, 0, 0));
            self.lemma_counts(0, 0);
        }
        assert(self.contents() =~= Seq::<T>::empty());
    }

    /// An empty queue of the given shape.
    pub fn new(params: QueueParameters) -> (q: Self)
        requires
            params.wf(),
        ensures
            q.params() == params,
            q.wf(),
            q.contents() == Seq::<T>::empty(),
            params.holds_elements() ==> q.pushed() == 0 && q.popped() == 0,
    {
        proof {
            params.lemma_layout();
        }
        let consumer = PackedHead::new(&params, 0, 0);
        let producer = PackedHead::new(&params, 0, 0);
        let mut blocks: Vec<Block<T>> = Vec::with_capacity(params.num_blocks);
        let mut index: usize = 0;
        while index < params.num_blocks
            invariant
                params.wf(),
                index <= params.num_blocks,
                blocks.len() == index,
                forall|i: int|
                    0 <= i < blocks.len() ==> (#[trigger] blocks@[i]).fresh(
                        params,
                        0,
                        if i == 0 {
                            0
                        } else {
                            params.block_size
                        },
                    ),
            decreases params.num_blocks - index,
        {
            blocks.push(Block::new(&params, index == 0));
            index = index + 1;
        }
        let q = Self { consumer, producer, blocks, params };
        proof {
            q.lemma_fresh();
        }
        q
    }

    /// The capacity of the queue.
    pub fn capacity(&self) -> (c: &Capacity)
        ensures
            *c == self.params().capacity,
    {
        &self.params.capacity
    }

    /// Pushes an element. Under one caller no other operation interferes, so the
    /// push succeeds unless the queue is full.
    pub fn try_push(&mut self, elem: T) -> (r: Result<(), TryPushError<T>>)
        requires
            old(self).wf(),
            old(self).full() || old(self).has_version(),
        ensures
            final(self).wf(),
            final(self).params() == old(self).params(),
            match r {
                Ok(_) => {
                    &&& !old(self).full()
                    &&& final(self).contents() == old(self).contents().push(elem)
                    &&& final(self).pushed() == old(self).pushed() + 1
                    &&& final(self).popped() == old(self).popped()
                },
                Err(TryPushError::Full(e)) => {
                    &&& old(self).full()
                    &&& e == elem
                    &&& final(self)@ == old(self)@
                    &&& final(self).contents() == old(self).contents()
                    &&& final(self).pushed() == old(self).pushed()
                    &&& final(self).popped() == old(self).popped()
                },
                Err(TryPushError::Busy(_)) => false,
            },
    {
        proof {
            self.params.lemma_empty_capacity();
        }
        if self.capacity().is_empty() {
            return Err(TryPushError::Full(elem));
        }
        let ghost params = self.params;
        let ghost before = self@;
        let ghost pushed = self.pushed();
        let ghost popped = self.popped();
        let ghost end = push_from_start(params, before, elem, enough_steps());
        let ghost mut steps: nat = enough_steps();
        proof {
            lemma_push_alone(params, before, pushed, popped, elem);
        }
        let (mut state, mut access) = PushState::start(elem);
        loop
            invariant
                self.shaped(),
                self.params == params,
                params.holds_elements(),
                state.wf(params),
                state.waits_for(params, access),
                access.in_bounds(params),
                end is Some,
                push_alone(params, self@, state, access, steps) == end,
                end == push_from_start(params, before, elem, enough_steps()),
                settled(params, before, pushed, popped),
                before == old(self)@,
                params == old(self).params,
                pushed == old(self).pushed(),
                popped == old(self).popped(),
                !no_room(params, pushed, popped) ==> settled(
                    params,
                    (end->0).0,
                    pushed + 1,
                    popped,
                ),
                no_room(params, pushed, popped) ==> (end->0).0 == before && (end->0).1 == Err::<
                    (),
                    TryPushError<T>,
                >(TryPushError::Full(elem)),
                !no_room(params, pushed, popped) ==> (end->0).1 == Ok::<(), TryPushError<T>>(())
                    && elements(params, (end->0).0, pushed + 1, popped) == elements(
                    params,
                    before,
                    pushed,
                    popped,
                ).push(elem),
            decreases steps,
        {
            let reply = self.perform(access);
            match state.resume(&self.params, reply) {
                PushStep::Done(outcome) => {
                    proof {
                        assert(self@ == (end->0).0);
                        if !no_room(params, pushed, popped) {
                            self.lemma_counts(pushed + 1, popped);
                        } else {
                            self.lemma_counts(pushed, popped);
                        }
                    }
                    return outcome;
                },
                PushStep::Next(next, sent) => {
                    proof {
                        steps = (steps - 1) as nat;
                    }
                    state = next;
                    access = sent;
                },
            }
        }
    }

    /// Pops the first element. Under one caller no other operation interferes,
    /// so the pop succeeds unless the queue is empty.
    pub fn try_pop(&mut self) -> (r: Result<T, TryPopError>)
        requires
            old(self).wf(),
        ensures
            final(self).wf(),
            final(self).params() == old(self).params(),
            match r {
                Ok(elem) => {
                    &&& old(self).contents().len() > 0
                    &&& elem == old(self).contents()[0]
                    &&& final(self).contents() == old(self).contents().drop_first()
                    &&& final(self).pushed() == old(self).pushed()
                    &&& final(self).popped() == old(self).popped() + 1
                },
                Err(TryPopError::Empty) => {
                    &&& old(self).contents().len() == 0
                    &&& final(self)@ == old(self)@
                    &&& final(self).contents() == old(self).contents()
                    &&& final(self).pushed() == old(self).pushed()
                    &&& final(self).popped() == old(self).popped()
                },
                Err(TryPopError::Busy) => false,
            },
    {
        proof {
            self.params.lemma_empty_capacity();
        }
        if self.capacity().is_empty() {
            return Err(TryPopError::Empty);
        }
        let ghost params = self.params;
        let ghost before = self@;
        let ghost pushed = self.pushed();
        let ghost popped = self.popped();
        let ghost end = pop_from_start(params, before, enough_steps());
        let ghost mut steps: nat = enough_steps();
        proof {
            lemma_pop_alone(params, before, pushed, popped);
        }
        let (mut state, mut access) = PopState::start();
        loop
            invariant
                self.shaped(),
                self.params == params,
                params.holds_elements(),
                state.wf(params),
                state.waits_for(params, access),
                access.in_bounds(params),
                end is Some,
                pop_alone(params, self@, state, access, steps) == end,
                end == pop_from_start(params, before, enough_steps()),
                settled(params, before, pushed, popped),
                before == old(self)@,
                params == old(self).params,
                pushed == old(self).pushed(),
                popped == old(self).popped(),
                pushed == popped ==> (end->0).0 == before && (end->0).1 == Err::<T, TryPopError>(
                    TryPopError::Empty,
                ),
                pushed != popped ==> (end->0).1 == Ok::<T, TryPopError>(
                    elements(params, before, pushed, popped)[0],
                ),
                pushed != popped ==> settled(params, (end->0).0, pushed, popped + 1),
                pushed != popped ==> elements(params, (end->0).0, pushed, popped + 1) == elements(
                    params,
                    before,
                    pushed,
                    popped,
                ).drop_first(),
            decreases steps,
        {
            let reply = self.perform(access);
            match state.resume(&self.params, reply) {
                PopStep::Done(outcome) => {
                    proof {
                        assert(self@ == (end->0).0);
                        if pushed != popped {
                            self.lemma_counts(pushed, popped + 1);
                        } else {
                            self.lemma_counts(pushed, popped);
                        }
                    }
                    return outcome;
                },
                PopStep::Next(next, sent) => {
                    proof {
                        steps = (steps - 1) as nat;
                    }
                    state = next;
                    access = sent;
                },
            }
        }
    }

    /// Removes all values from the queue, and returns its words to their default state.
    pub fn clear(&mut self)
        requires
            old(self).wf(),
        ensures
            final(self).wf(),
            final(self).params() == old(self).params(),
            final(self).contents() == Seq::<T>::empty(),
            old(self).params().holds_elements() ==> final(self).pushed() == 0 && final(self).popped()
                == 0,
    {
        if self.blocks.len() == 0 {
            assert(self.contents() =~= Seq::<T>::empty());
            return;
        }
        let ghost before = *self;
        let params = self.params;
        proof {
            params.lemma_layout();
            assert forall|i: int| 0 <= i < self.blocks.len() implies (#[trigger] self.blocks@[i]).counted(
                params,
            ) by {
                let b = self@.blocks[i];
                assert(b == self.blocks@[i]@);
                params.lemma_unpacked(b.committed);
                params.lemma_unpacked(b.consumed);
                if params.holds_elements() {
                    lemma_filled_slots(
                        params,
                        self@,
                        self.pushed(),
                        last_block(params.block_size as int, self.pushed()),
                        self.popped(),
                        last_block(params.block_size as int, self.popped()),
                        i,
                    );
                }
            }
        }
        let mut index: usize = 0;
        while index < self.blocks.len()
            invariant
                params.wf(),
                params == self.params,
                index <= self.blocks.len(),
                self.blocks.len() == params.num_blocks,
                forall|i: int|
                    0 <= i < index ==> (#[trigger] self.blocks@[i]).fresh(
                        params,
                        0,
                        if i == 0 {
                            0
                        } else {
                            params.block_size
                        },
                    ),
                forall|i: int|
                    index <= i < self.blocks.len() ==> (#[trigger] self.blocks@[i]).counted(params),
            decreases self.blocks.len() - index,
        {
            self.blocks[index].reset(&params, index == 0, 0);
            index = index + 1;
        }
        self.producer.store(&params, UnpackedHead { version: 0, index: 0 });
        self.consumer.store(&params, UnpackedHead { version: 0, index: 0 });
        proof {
            self.lemma_fresh();
        }
    }

    /// Performs one access.
    pub fn perform(&mut self, access: Access<T>) -> (reply: Reply<T>)
        requires
            old(self).shaped(),
            old(self).params().holds_elements(),
            access.in_bounds(old(self).params()),
        ensures
            final(self).params() == old(self).params(),
            final(self).shaped(),
            (final(self)@, reply) == access.performed(old(self).params(), old(self)@),
            access.answered_by(old(self).params(), reply),
    {
        proof {
            lemma_access_keeps_shape(self.params, self@, access);
        }
        let ghost before = self@;
        let params = self.params;
        match access {
            Access::LoadHead(end) => match end {
                End::Producer => Reply::Head(self.producer.load(&params)),
                End::Consumer => Reply::Head(self.consumer.load(&params)),
            },
            Access::RaiseHead(end, head) => match end {
                End::Producer => Reply::Head(self.producer.fetch_max(&params, head)),
                End::Consumer => Reply::Head(self.consumer.fetch_max(&params, head)),
            },
            Access::Load(block, field) => Reply::Cursor(self.blocks[block].load(&params, field)),
            Access::Increment(block, field) => {
                let cursor = self.blocks[block].increment(&params, field);
                assert(self@ =~= access.performed(params, before).0);
                Reply::Cursor(cursor)
            },
            Access::Raise(block, field, other) => {
                let cursor = self.blocks[block].raise(&params, field, other);
                assert(self@ =~= access.performed(params, before).0);
                Reply::Cursor(cursor)
            },
            Access::Write(block, offset, elem) => {
                self.blocks[block].data[offset] = Some(elem);
                assert(self@ =~= access.performed(params, before).0);
                Reply::Written
            },
            Access::Take(block, offset) => {
                let elem = self.blocks[block].data[offset].take();
                assert(self@ =~= access.performed(params, before).0);
                Reply::Taken(elem)
            },
        }
    }
}

impl<T> QueueInner<T> {
    /// The heads and cursors of the queue.
    pub fn snapshot(&self) -> (s: Snapshot)
        requires
            self.params().wf(),
        ensures
            s.consumer == self.params().head_of(self@.consumer),
            s.producer == self.params().head_of(self@.producer),
            s.params == self.params(),
            s.blocks@.len() == self@.blocks.len(),
            forall|i: int|
                0 <= i < s.blocks@.len() ==> (#[trigger] s.blocks@[i]).shows(
                    self.params(),
                    self@.blocks[i],
                ),
    {
        let params = self.params;
        let mut blocks: Vec<BlockSnapshot> = Vec::with_capacity(self.blocks.len());
        let mut index: usize = 0;
        while index < self.blocks.len()
            invariant
                params.wf(),
                params == self.params,
                index <= self.blocks.len(),
                blocks.len() == index,
                forall|i: int|
                    0 <= i < index ==> (#[trigger] blocks@[i]).shows(params, self@.blocks[i]),
            decreases self.blocks.len() - index,
        {
            let block: &Block<T> = &self.blocks[index];
            blocks.push(
                BlockSnapshot {
                    allocated: block.allocated.load(&params),
                    committed: block.committed.load(&params),
                    reserved: block.reserved.load(&params),
                    consumed: block.consumed.load(&params),
                },
            );
            index = index + 1;
        }
        Snapshot {
            consumer: self.consumer.load(&params),
            producer: self.producer.load(&params),
            blocks,
            params,
        }
    }
}

}
