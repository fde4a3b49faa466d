//! Single-threaded queue.

use vstd::prelude::*;
use vstd::std_specs::iter::IteratorSpec;

pub mod order;

verus! {

/// The queue was full when an element was to be pushed. The element is handed back.
#[derive(Debug, Clone, Copy, PartialEq, Eq)]
pub struct Full<T>(pub T);

/// Why a collection of elements was not pushed.
#[derive(Debug, Clone, Copy, PartialEq, Eq)]
pub enum PushMultipleError<E, IT> {
    /// The queue was full, so the collection is handed back.
    Full(E),
    /// The queue did not have enough capacity to add all elements. They are
    /// handed back as an iterator.
    InsufficientCapacity(IT),
}

/// The queue was empty when an element was to be read.
#[derive(Debug, Clone, Copy, PartialEq, Eq, Structural)]
pub struct Empty;

/// A fixed-capacity queue with a ring buffer as storage.
///
/// The ring has one slot more than the queue holds elements, so that a full
/// queue can be told from an empty one.
#[derive(Debug)]
pub struct Queue<T> {
    storage: Vec<Option<T>>,
    // the slot that takes the next element
    producer: usize,
    // the slot of the first element
    consumer: usize,
}

impl<T> Queue<T> {
    #[verifier::type_invariant]
    spec fn indices_in_range(&self) -> bool {
        self.producer < self.storage@.len() && self.consumer < self.storage@.len()
    }

    /// How many slots lie from the consumer up to the producer.
    pub closed spec fn count(&self) -> int {
        if self.producer >= self.consumer {
            self.producer - self.consumer
        } else {
            self.producer + (self.storage@.len() - self.consumer)
        }
    }

    /// The slot that lies `i` slots after the consumer.
    pub closed spec fn slot(&self, i: int) -> Option<T> {
        self.storage@[self.slot_index(i)]
    }

    spec fn slot_index(&self, i: int) -> int {
        if self.consumer + i < self.storage@.len() {
            self.consumer + i
        } else {
            self.consumer + i - self.storage@.len()
        }
    }

    /// The slots from the consumer up to the producer are filled.
    pub closed spec fn wf(&self) -> bool {
        &&& self.indices_in_range()
        &&& forall|k: int|
            0 <= k < self.storage@.len() && self.in_use(k) ==> (
            #[trigger] self.storage@[k]) is Some
    }

    /// Slot `k` of the storage lies between the consumer and the producer.
    spec fn in_use(&self, k: int) -> bool {
        if self.producer >= self.consumer {
            self.consumer <= k < self.producer
        } else {
            self.consumer <= k || k < self.producer
        }
    }

    /// The elements of the queue, first pushed first.
    pub open spec fn view(&self) -> Seq<T> {
        Seq::new(self.count() as nat, |i: int| self.slot(i)->0)
    }

    /// The maximum number of elements.
    pub closed spec fn max_len(&self) -> int {
        self.storage@.len() - 1
    }

    /// A well-formed queue holds its elements in its slots, and nothing else.
    pub proof fn lemma_slots(&self)
        requires
            self.wf(),
        ensures
            self@.len() == self.count(),
            forall|i: int| 0 <= i < self.count() ==> #[trigger] self.slot(i) == Some(self@[i]),
    {
        assert forall|i: int| 0 <= i < self.count() implies #[trigger] self.slot(i) == Some(
            self@[i],
        ) by {
            assert(self.in_use(self.slot_index(i)));
        }
    }

    /// A queue never holds more elements than its capacity. With a capacity of 0
    /// it is empty and full at the same time.
    pub proof fn lemma_len_at_most_capacity(&self)
        requires
            self.wf(),
        ensures
            self@.len() <= self.max_len(),
            self.max_len() == 0 ==> self@ == Seq::<T>::empty(),
    {
        if self.max_len() == 0 {
            assert(self@ =~= Seq::<T>::empty());
        }
    }

    /// A new queue with the given fixed capacity.
    pub fn new(capacity: usize) -> (q: Self)
        requires
            capacity < usize::MAX,
        ensures
            q.wf(),
            q@ == Seq::<T>::empty(),
            q.max_len() == capacity,
    {
        let mut storage: Vec<Option<T>> = Vec::with_capacity(capacity + 1);
        while storage.len() < capacity + 1
            invariant
                storage.len() <= capacity + 1,
                capacity < usize::MAX,
            decreases capacity + 1 - storage.len(),
        {
            storage.push(None);
        }
        let q = Queue { storage, producer: 0, consumer: 0 };
        assert(q@ =~= Seq::<T>::empty());
        q
    }

    /// The maximum number of elements.
    pub fn capacity(&self) -> (c: usize)
        ensures
            c == self.max_len(),
            c < usize::MAX,
    {
        proof {
            use_type_invariant(self);
        }
        self.storage.len() - 1
    }

    /// The current number of elements.
    pub fn len(&self) -> (n: usize)
        ensures
            n == self@.len(),
            n == self.count(),
            n <= self.max_len(),
    {
        proof {
            use_type_invariant(self);
        }
        if self.producer >= self.consumer {
            self.producer - self.consumer
        } else {
            self.producer + (self.storage.len() - self.consumer)
        }
    }

    /// Whether there is no element in the queue. A queue of capacity 0 is both
    /// empty and full.
    pub fn is_empty(&self) -> (b: bool)
        ensures
            b == (self@.len() == 0),
    {
        proof {
            use_type_invariant(self);
        }
        self.producer == self.consumer
    }

    /// Whether the queue holds its maximum number of elements. A queue of
    /// capacity 0 is both empty and full.
    pub fn is_full(&self) -> (b: bool)
        ensures
            b == (self@.len() == self.max_len()),
    {
        self.next_producer() == self.consumer
    }

    /// The slot after that of the producer.
    fn next_producer(&self) -> (next: usize)
        ensures
            next == if self.producer + 1 < self.storage@.len() {
                self.producer + 1
            } else {
                0
            },
            self.producer < self.storage@.len(),
            self.consumer < self.storage@.len(),
    {
        let slots: usize = self.storage.len();
        proof {
            use_type_invariant(self);
            lemma_wrap(self.producer as int, slots as int);
        }
        (self.producer + 1) % slots
    }

    /// The slot after that of the consumer.
    fn next_consumer(&self) -> (next: usize)
        ensures
            next == if self.consumer + 1 < self.storage@.len() {
                self.consumer + 1
            } else {
                0
            },
            self.producer < self.storage@.len(),
            self.consumer < self.storage@.len(),
    {
        let slots: usize = self.storage.len();
        proof {
            use_type_invariant(self);
            lemma_wrap(self.consumer as int, slots as int);
        }
        (self.consumer + 1) % slots
    }

    /// Pushes an element, and hands it back if the queue is full.
    pub fn push(&mut self, elem: T) -> (r: Result<(), Full<T>>)
        requires
            old(self).wf(),
        ensures
            final(self).wf(),
            final(self).max_len() == old(self).max_len(),
            match r {
                Ok(_) => {
                    &&& old(self)@.len() < old(self).max_len()
                    &&& final(self)@ == old(self)@.push(elem)
                },
                Err(Full(e)) => {
                    &&& old(self)@.len() == old(self).max_len()
                    &&& e == elem
                    &&& final(self)@ == old(self)@
                },
            },
    {
        proof {
            use_type_invariant(&*self);
        }
        if self.is_full() {
            return Err(Full(elem));
        }
        let ghost before = *self;
        let slot: usize = self.producer;
        let next: usize = self.next_producer();
        self.storage[slot] = Some(elem);
        self.producer = next;
        proof {
            let n = before.count();
            assert(self.count() == n + 1);
            assert forall|i: int| 0 <= i < n implies #[trigger] self.slot(i) == before.slot(i) by {}
            assert(self.slot(n) == Some(elem));
            assert(self@ =~= before@.push(elem));
        }
        Ok(())
    }

    /// Whether so many more elements fit.
    pub fn has_room_for(&self, additional: usize) -> (b: bool)
        requires
            self.wf(),
        ensures
            b == (self@.len() + additional <= self.max_len()),
    {
        let capacity: usize = self.capacity();
        let len: usize = self.len();
        additional <= capacity - len
    }

    /// Pushes all elements of a collection in order, or none: the collection is
    /// handed back if the queue is full, and its elements if they do not fit.
    pub fn push_multiple(&mut self, elems: Vec<T>) -> (r: Result<
        (),
        PushMultipleError<Vec<T>, std::vec::IntoIter<T>>,
    >)
        requires
            old(self).wf(),
        ensures
            final(self).wf(),
            final(self).max_len() == old(self).max_len(),
            match r {
                Ok(_) => {
                    &&& old(self)@.len() < old(self).max_len()
                    &&& old(self)@.len() + elems@.len() <= old(self).max_len()
                    &&& final(self)@ == old(self)@ + elems@
                },
                Err(PushMultipleError::Full(e)) => {
                    &&& old(self)@.len() == old(self).max_len()
                    &&& e == elems
                    &&& final(self)@ == old(self)@
                },
                Err(PushMultipleError::InsufficientCapacity(rest)) => {
                    &&& old(self)@.len() < old(self).max_len()
                    &&& old(self)@.len() + elems@.len() > old(self).max_len()
                    &&& rest.remaining() == elems@
                    &&& final(self)@ == old(self)@
                },
            },
    {
        if self.is_full() {
            return Err(PushMultipleError::Full(elems));
        }
        if !self.has_room_for(elems.len()) {
            return Err(PushMultipleError::InsufficientCapacity(elems.into_iter()));
        }
        self.extend(elems);
        Ok(())
    }

    /// Pushes the elements of a collection one by one.
    pub fn extend(&mut self, elems: Vec<T>)
        requires
            old(self).wf(),
            old(self)@.len() + elems@.len() <= old(self).max_len(),
        ensures
            final(self).wf(),
            final(self).max_len() == old(self).max_len(),
            final(self)@ == old(self)@ + elems@,
    {
        let ghost before = self@;
        let ghost all = elems@;
        let ghost limit = self.max_len();
        assert(before + all.take(0) =~= before);
        for elem in rest: elems
            invariant
                rest.seq() == all,
                self.wf(),
                self.max_len() == limit,
                self@ == before + all.take(rest.index() as int),
                before.len() + all.len() <= limit,
        {
            proof {
                let i = rest.index() as int;
                assert(before + all.take(i + 1) =~= (before + all.take(i)).push(all[i]));
            }
            let _ = self.push(elem);
        }
        assert(all.take(all.len() as int) =~= all);
    }

    /// Pops the first element.
    pub fn pop(&mut self) -> (r: Result<T, Empty>)
        requires
            old(self).wf(),
        ensures
            final(self).wf(),
            final(self).max_len() == old(self).max_len(),
            match r {
                Ok(elem) => {
                    &&& old(self)@.len() > 0
                    &&& elem == old(self)@[0]
                    &&& final(self)@ == old(self)@.drop_first()
                },
                Err(_) => {
                    &&& old(self)@.len() == 0
                    &&& final(self)@ == old(self)@
                },
            },
    {
        proof {
            use_type_invariant(&*self);
        }
        if self.is_empty() {
            return Err(Empty);
        }
        let ghost before = *self;
        let slot: usize = self.consumer;
        let next: usize = self.next_consumer();
        let elem = self.storage[slot].take();
        self.consumer = next;
        proof {
            let n = before.count();
            assert(self.count() == n - 1);
            assert(before.slot(0) is Some);
            assert forall|i: int| 0 <= i < n - 1 implies #[trigger] self.slot(i) == before.slot(
                i + 1,
            ) by {}
            assert(self@ =~= before@.drop_first());
        }
        elem.ok_or(Empty)
    }

    /// The first element, which stays in the queue.
    pub fn peek(&self) -> (r: Result<&T, Empty>)
        requires
            self.wf(),
        ensures
            match r {
                Ok(elem) => self@.len() > 0 && *elem == self@[0],
                Err(_) => self@.len() == 0,
            },
    {
        proof {
            use_type_invariant(self);
        }
        if self.is_empty() {
            return Err(Empty);
        }
        assert(self.slot(0) is Some);
        self.storage[self.consumer].as_ref().ok_or(Empty)
    }

    /// The first element, to be changed in place.
    pub fn peek_mut(&mut self) -> (r: Result<&mut T, Empty>)
        requires
            old(self).wf(),
        ensures
            final(self).wf(),
            final(self).max_len() == old(self).max_len(),
            match r {
                Ok(elem) => {
                    &&& old(self)@.len() > 0
                    &&& *elem == old(self)@[0]
                    &&& final(self)@ == old(self)@.update(0, *final(elem))
                },
                Err(_) => {
                    &&& old(self)@.len() == 0
                    &&& final(self)@ == old(self)@
                },
            },
    {
        proof {
            use_type_invariant(&*self);
        }
        if self.is_empty() {
            return Err(Empty);
        }
        assert(self.slot(0) is Some);
        let slot: usize = self.consumer;
        match &mut self.storage[slot] {
            Some(elem) => Ok(elem),
            None => Err(Empty),
        }
    }

    /// Removes all values.
    pub fn clear(&mut self)
        requires
            old(self).wf(),
        ensures
            final(self).wf(),
            final(self).max_len() == old(self).max_len(),
            final(self)@ == Seq::<T>::empty(),
    {
        proof {
            use_type_invariant(&*self);
        }
        if self.is_empty() {
            assert(self@ =~= Seq::<T>::empty());
            return;
        }
        let ghost limit = self.max_len();
        let producer: usize = self.producer;
        let consumer: usize = self.consumer;
        self.producer = 0;
        self.consumer = 0;
        if producer > consumer {
            self.empty_slots(consumer, producer);
        } else {
            let end: usize = self.storage.len();
            self.empty_slots(consumer, end);
            self.empty_slots(0, producer);
        }
        assert(self@ =~= Seq::<T>::empty());
    }

    /// What the slot that lies `i` places after the consumer holds.
    fn slot_ref(&self, i: usize) -> (r: Option<&T>)
        requires
            i < self.count(),
        ensures
            match r {
                Some(elem) => self.slot(i as int) == Some(*elem),
                None => self.slot(i as int) is None,
            },
    {
        proof {
            use_type_invariant(self);
        }
        let index: usize = self.index_of(i);
        self.storage[index].as_ref()
    }

    /// The element that lies `i` places after the first one.
    fn element(&self, i: usize) -> (elem: &T)
        requires
            self.wf(),
            i < self@.len(),
        ensures
            *elem == self@[i as int],
    {
        proof {
            use_type_invariant(self);
        }
        let index: usize = self.index_of(i);
        assert(self.in_use(index as int));
        self.storage[index].as_ref().unwrap()
    }

    /// The element that lies `i` places after the first one, to be changed in place.
    fn element_mut(&mut self, i: usize) -> (elem: &mut T)
        requires
            old(self).wf(),
            i < old(self)@.len(),
        ensures
            final(self).wf(),
            final(self).max_len() == old(self).max_len(),
            *elem == old(self)@[i as int],
            final(self)@ == old(self)@.update(i as int, *final(elem)),
    {
        proof {
            use_type_invariant(&*self);
        }
        let index: usize = self.index_of(i);
        assert(self.in_use(index as int));
        self.storage[index].as_mut().unwrap()
    }

    /// Where in the storage the slot lies that is `i` places after the first one.
    fn index_of(&self, i: usize) -> (index: usize)
        requires
            i < self.storage@.len(),
        ensures
            index == self.slot_index(i as int),
            index < self.storage@.len(),
    {
        proof {
            use_type_invariant(self);
        }
        let tail: usize = self.storage.len() - self.consumer;
        if i < tail {
            self.consumer + i
        } else {
            i - tail
        }
    }

    /// The elements from the first to the last one, by reference.
    pub fn iter(&self) -> (it: Iter<'_, T>)
        requires
            self.wf(),
        ensures
            it.remaining() == self@,
    {
        let it = Iter { queue: self, index: 0 };
        assert(self@.skip(0) =~= self@);
        it
    }

    /// The elements from the first to the last one, to be changed in place.
    ///
    /// What the queue holds in the end is what the iterator's last user leaves.
    pub fn iter_mut(&mut self) -> (it: IterMut<'_, T>)
        requires
            old(self).wf(),
        ensures
            it.wf(),
            it.given() == 0,
            *it.borrowed() == *old(self),
            *final(self) == *final(it.borrowed()),
    {
        IterMut { queue: self, index: 0 }
    }

    /// The elements from the first to the last one, which leave the queue.
    pub fn into_iter(self) -> (it: IntoIter<T>)
        requires
            self.wf(),
        ensures
            it.wf(),
            it.remaining() == self@,
    {
        IntoIter { queue: self }
    }

    /// Drops what the slots from `start` up to `end` hold.
    fn empty_slots(&mut self, start: usize, end: usize)
        requires
            start <= end <= old(self).storage@.len(),
        ensures
            final(self).storage@.len() == old(self).storage@.len(),
            final(self).producer == old(self).producer,
            final(self).consumer == old(self).consumer,
            forall|i: int| start <= i < end ==> (#[trigger] final(self).storage@[i]) is None,
            forall|i: int|
                0 <= i < old(self).storage@.len() && !(start <= i < end) ==> (
                #[trigger] final(self).storage@[i]) == old(self).storage@[i],
    {
        proof {
            use_type_invariant(&*self);
        }
        let mut index: usize = start;
        while index < end
            invariant
                start <= index <= end <= self.storage@.len(),
                self.storage@.len() == old(self).storage@.len(),
                self.producer == old(self).producer,
                self.consumer == old(self).consumer,
                self.producer < self.storage@.len(),
                self.consumer < self.storage@.len(),
                forall|i: int| start <= i < index ==> (#[trigger] self.storage@[i]) is None,
                forall|i: int|
                    0 <= i < self.storage@.len() && !(start <= i < index) ==> (
                    #[trigger] self.storage@[i]) == old(self).storage@[i],
            decreases end - index,
        {
            self.storage[index] = None;
            index = index + 1;
        }
    }
}

/// A vector of the elements of an array.
///
/// Calls std's conversion from an array into a `Vec`, which moves the elements
/// over in their order.
#[verifier::external_body]
fn vec_from_array<T, const N: usize>(elems: [T; N]) -> (v: Vec<T>)
    ensures
        v@ == elems@,
{
    Vec::from(elems)
}

impl<T> From<Vec<T>> for Queue<T> {
    /// A queue that is just large enough for the elements, and holds them.
    ///
    /// The ring needs one slot more than there are elements: a vector with as
    /// many elements as an index can count, which only a type of size 0 allows,
    /// gives an empty queue.
    fn from(value: Vec<T>) -> (q: Self)
        ensures
            q.wf(),
            value@.len() < usize::MAX ==> {
                &&& q@ == value@
                &&& q.max_len() == value@.len()
            },
            value@.len() == usize::MAX ==> {
                &&& q@.len() == 0
                &&& q.max_len() == 0
            },
    {
        let capacity: usize = value.len();
        if capacity == usize::MAX {
            return Queue::new(0);
        }
        let mut q = Queue::new(capacity);
        q.extend(value);
        assert(Seq::<T>::empty() + value@ =~= value@);
        q
    }
}

impl<T> vstd::std_specs::convert::FromSpecImpl<Vec<T>> for Queue<T> {
    open spec fn obeys_from_spec() -> bool {
        false
    }

    open spec fn from_spec(v: Vec<T>) -> Self {
        arbitrary()
    }
}

impl<const N: usize, T> From<[T; N]> for Queue<T> {
    /// A queue that is just large enough for the elements, and holds them. See
    /// the conversion from a vector.
    fn from(value: [T; N]) -> (q: Self)
        ensures
            q.wf(),
            N < usize::MAX ==> {
                &&& q@ == value@
                &&& q.max_len() == N
            },
            N == usize::MAX ==> {
                &&& q@.len() == 0
                &&& q.max_len() == 0
            },
    {
        Queue::from(vec_from_array(value))
    }
}

impl<const N: usize, T> vstd::std_specs::convert::FromSpecImpl<[T; N]> for Queue<T> {
    open spec fn obeys_from_spec() -> bool {
        false
    }

    open spec fn from_spec(v: [T; N]) -> Self {
        arbitrary()
    }
}

impl<T: Clone> Clone for Queue<T> {
    /// A queue of the same capacity with clones of the elements.
    fn clone(&self) -> (q: Self)
        ensures
            q.max_len() == self.max_len(),
            self.wf() ==> {
                &&& q.wf()
                &&& q@.len() == self@.len()
                &&& forall|i: int| 0 <= i < self@.len() ==> cloned(self@[i], #[trigger] q@[i])
            },
    {
        let mut q: Queue<T> = Queue::new(self.capacity());
        let len: usize = self.len();
        let mut i: usize = 0;
        while i < len
            invariant
                i <= len,
                len == self@.len(),
                len <= self.max_len(),
                q.max_len() == self.max_len(),
                q.wf(),
                q@.len() <= i,
                self.wf() ==> {
                    &&& q@.len() == i
                    &&& forall|j: int| 0 <= j < i ==> cloned(self@[j], #[trigger] q@[j])
                },
            decreases len - i,
        {
            proof {
                use_type_invariant(self);
            }
            let index: usize = self.index_of(i);
            assert(self.in_use(index as int));
            if let Some(elem) = &self.storage[index] {
                let _ = q.push(elem.clone());
            }
            i = i + 1;
        }
        q
    }
}

/// Iterator over the elements of a queue, by reference.
#[derive(Debug)]
pub struct Iter<'a, T> {
    queue: &'a Queue<T>,
    // how many elements have been given out
    index: usize,
}

impl<'a, T> Iter<'a, T> {
    #[verifier::type_invariant]
    spec fn index_in_range(&self) -> bool {
        self.queue.wf() && self.index <= self.queue@.len()
    }

    /// The elements that have not been given out yet.
    pub closed spec fn remaining(&self) -> Seq<T> {
        self.queue@.skip(self.index as int)
    }

    /// Gives out the next element.
    pub fn next(&mut self) -> (r: Option<&'a T>)
        ensures
            match r {
                Some(elem) => {
                    &&& old(self).remaining().len() > 0
                    &&& *elem == old(self).remaining()[0]
                    &&& final(self).remaining() == old(self).remaining().drop_first()
                },
                None => {
                    &&& old(self).remaining().len() == 0
                    &&& final(self).remaining() == old(self).remaining()
                },
            },
    {
        proof {
            use_type_invariant(&*self);
        }
        if self.index < self.queue.len() {
            let elem = self.queue.element(self.index);
            self.index = self.index + 1;
            Some(elem)
        } else {
            None
        }
    }

    /// How many elements are still to come, as lower and as upper bound.
    pub fn size_hint(&self) -> (r: (usize, Option<usize>))
        ensures
            r.0 == self.remaining().len(),
            r.1 == Some(r.0),
    {
        let len: usize = self.len();
        (len, Some(len))
    }

    /// How many elements are still to come. Uses the iterator up.
    pub fn count(self) -> (n: usize)
        ensures
            n == self.remaining().len(),
    {
        self.len()
    }

    /// How many elements are still to come.
    pub fn len(&self) -> (n: usize)
        ensures
            n == self.remaining().len(),
    {
        proof {
            use_type_invariant(self);
        }
        self.queue.len() - self.index
    }
}

/// Iterator over the elements of a queue that lets them be changed in place.
#[derive(Debug)]
pub struct IterMut<'a, T> {
    queue: &'a mut Queue<T>,
    index: usize,
}

impl<'a, T> IterMut<'a, T> {
    /// The queue, with the changes made so far.
    pub closed spec fn borrowed(self) -> &'a mut Queue<T> {
        self.queue
    }

    /// How many elements have been given out.
    pub closed spec fn given(self) -> nat {
        self.index as nat
    }

    /// All elements of the queue, with the changes made so far.
    pub open spec fn contents(self) -> Seq<T> {
        self.borrowed()@
    }

    /// No more elements have been given out than there are.
    pub open spec fn wf(self) -> bool {
        self.borrowed().wf() && self.given() <= self.contents().len()
    }

    /// Gives out the next element, to be changed in place.
    pub fn next(&mut self) -> (r: Option<&mut T>)
        requires
            old(self).wf(),
        ensures
            final(self).wf(),
            *final(final(self).borrowed()) == *final(old(self).borrowed()),
            final(self).borrowed().max_len() == old(self).borrowed().max_len(),
            match r {
                Some(elem) => {
                    &&& old(self).given() < old(self).contents().len()
                    &&& *elem == old(self).contents()[old(self).given() as int]
                    &&& final(self).given() == old(self).given() + 1
                    &&& final(self).contents() == old(self).contents().update(
                        old(self).given() as int,
                        *final(elem),
                    )
                },
                None => {
                    &&& old(self).given() == old(self).contents().len()
                    &&& final(self).given() == old(self).given()
                    &&& final(self).contents() == old(self).contents()
                },
            },
    {
        if self.index < self.queue.len() {
            let i: usize = self.index;
            self.index = self.index + 1;
            Some(self.queue.element_mut(i))
        } else {
            None
        }
    }

    /// How many elements are still to come, as lower and as upper bound.
    pub fn size_hint(&self) -> (r: (usize, Option<usize>))
        requires
            self.wf(),
        ensures
            r.0 == self.contents().len() - self.given(),
            r.1 == Some(r.0),
    {
        let len: usize = self.len();
        (len, Some(len))
    }

    /// How many elements are still to come. Uses the iterator up.
    pub fn count(self) -> (n: usize)
        requires
            self.wf(),
        ensures
            n == self.contents().len() - self.given(),
    {
        self.len()
    }

    /// How many elements are still to come.
    pub fn len(&self) -> (n: usize)
        requires
            self.wf(),
        ensures
            n == self.contents().len() - self.given(),
    {
        self.queue.len() - self.index
    }
}

/// Once nothing more is done with the iterator, its queue stays as it is.
pub proof fn lemma_changes_stay<T>(it: IterMut<'_, T>)
    requires
        has_resolved(it),
    ensures
        *final(it.borrowed()) == *it.borrowed(),
{
}

/// Iterator over the elements of a queue, which it takes out one by one.
#[derive(Debug)]
pub struct IntoIter<T> {
    queue: Queue<T>,
}

impl<T> IntoIter<T> {
    /// The queue that is being emptied is well-formed.
    pub closed spec fn wf(&self) -> bool {
        self.queue.wf()
    }

    /// The elements that have not been given out yet.
    pub closed spec fn remaining(&self) -> Seq<T> {
        self.queue@
    }

    /// Gives out the next element.
    pub fn next(&mut self) -> (r: Option<T>)
        requires
            old(self).wf(),
        ensures
            final(self).wf(),
            match r {
                Some(elem) => {
                    &&& old(self).remaining().len() > 0
                    &&& elem == old(self).remaining()[0]
                    &&& final(self).remaining() == old(self).remaining().drop_first()
                },
                None => {
                    &&& old(self).remaining().len() == 0
                    &&& final(self).remaining() == old(self).remaining()
                },
            },
    {
        self.queue.pop().ok()
    }

    /// How many elements are still to come, as lower and as upper bound.
    pub fn size_hint(&self) -> (r: (usize, Option<usize>))
        ensures
            r.0 == self.remaining().len(),
            r.1 == Some(r.0),
    {
        let len: usize = self.queue.len();
        (len, Some(len))
    }

    /// How many elements are still to come. Uses the iterator up.
    pub fn count(self) -> (n: usize)
        ensures
            n == self.remaining().len(),
    {
        self.len()
    }

    /// How many elements are still to come.
    pub fn len(&self) -> (n: usize)
        ensures
            n == self.remaining().len(),
    {
        self.queue.len()
    }
}

/// Counting on in a ring.
proof fn lemma_wrap(i: int, n: int)
    requires
        0 <= i < n,
    ensures
        (i + 1) % n == if i + 1 < n {
            i + 1
        } else {
            0
        },
{
    if i + 1 < n {
        vstd::arithmetic::div_mod::lemma_small_mod((i + 1) as nat, n as nat);
    } else {
        vstd::arithmetic::div_mod::lemma_mod_self_0(n);
    }
}

}
