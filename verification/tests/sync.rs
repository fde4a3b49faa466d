//! The queue that several threads may share.

use ribs::sync::{Queue, TryPopError, TryPushError};
use std::cell::RefCell;
use std::rc::Rc;
use std::sync::atomic::{AtomicUsize, Ordering};
use std::sync::Arc;

#[test]
fn sync_create_queue() {
    assert_eq!(Queue::<u8>::with_block_params(5, 5).capacity(), (20, 25));
    assert_eq!(Queue::<u8>::with_block_params(0, 5).capacity(), (0, 0));
    assert_eq!(Queue::<u8>::with_block_params(0, 0).capacity(), (0, 0));
    assert_eq!(Queue::<u8>::with_block_params(5, 0).capacity(), (0, 0));
}

const PUSH_AND_POP_PARAMS: [(usize, usize); 7] =
    [(5, 5), (1, 25), (25, 1), (8, 4), (4, 8), (1, 8), (8, 1)];

#[test]
fn try_push_and_try_pop_items_into_queues() {
    for (num_blocks, block_size) in PUSH_AND_POP_PARAMS {
        let q = Queue::with_block_params(num_blocks, block_size);

        try_push_to_full_then_try_pop_to_empty(&q);
        try_push_to_full_then_try_pop_to_empty(&q);
    }
}

#[test]
fn push_and_pop_items_into_queues() {
    for (num_blocks, block_size) in PUSH_AND_POP_PARAMS {
        let q = Queue::with_block_params(num_blocks, block_size);

        push_to_full_then_pop_to_empty(&q);
        push_to_full_then_pop_to_empty(&q);
    }
}

#[test]
fn sync_push_and_pop_zero_sized_items_into_queue() {
    let q = Queue::with_block_params(5, 5);

    for _ in 0..q.capacity().upper {
        q.try_push(()).unwrap();
    }

    assert_eq!(q.try_push(()), Err(TryPushError::Full(())));

    for _ in 0..q.capacity().upper {
        q.try_pop().unwrap();
    }

    assert_eq!(q.try_pop(), Err(TryPopError::Empty));
}

fn try_push_to_full_then_try_pop_to_empty(q: &Queue<usize>) {
    for idx in 0..q.capacity().upper {
        q.try_push(idx).unwrap();
    }

    assert_eq!(
        q.try_push(q.capacity().upper),
        Err(TryPushError::Full(q.capacity().upper))
    );

    for expected_idx in 0..q.capacity().upper {
        let idx = q.try_pop().unwrap();
        assert_eq!(expected_idx, idx);
    }

    assert_eq!(q.try_pop(), Err(TryPopError::Empty));
}

fn push_to_full_then_pop_to_empty(q: &Queue<usize>) {
    for idx in 0..q.capacity().upper {
        q.push(idx).unwrap();
    }

    assert_eq!(q.push(q.capacity().upper), Err(q.capacity().upper));

    for expected_idx in 0..q.capacity().upper {
        let idx = q.pop().unwrap();
        assert_eq!(expected_idx, idx);
    }

    assert_eq!(q.pop(), None);
}

#[derive(Debug)]
struct LocalDropCounter(Rc<RefCell<usize>>);

impl Drop for LocalDropCounter {
    fn drop(&mut self) {
        let mut borrow = self.0.borrow_mut();
        *borrow += 1;
    }
}

#[test]
fn sync_should_drop_contents() {
    let counter = Rc::new(RefCell::new(0));

    let queue = Queue::with_block_params(5, 5);

    for _ in 0..5 {
        queue.try_push(LocalDropCounter(Rc::clone(&counter))).unwrap();
    }

    for _ in 0..2 {
        let counter = queue.try_pop().unwrap();
        drop(counter);
    }

    assert_eq!(*counter.borrow(), 2);

    drop(queue);

    assert_eq!(*counter.borrow(), 5);
}

#[derive(Debug)]
struct DropCounter(Arc<AtomicUsize>);

impl DropCounter {
    fn new(counter: &Arc<AtomicUsize>) -> Self {
        let value = Self(Arc::clone(counter));
        value.0.fetch_add(1, Ordering::Relaxed);
        value
    }
}

impl Drop for DropCounter {
    fn drop(&mut self) {
        self.0.fetch_sub(1, Ordering::Relaxed);
    }
}

#[test]
fn fill_queue_and_empty_partial() {
    let counter = Arc::new(AtomicUsize::new(0));
    let queue = Queue::with_block_params(2, 2);
    let capacity = 2 * 2;

    // State of queue:
    // | _ | _ || _ | _ |

    // fill the queue so that later pushes will wrap around
    for _ in 0..capacity {
        queue.try_push(DropCounter::new(&counter)).unwrap();
    }

    // State of queue:
    // | a | b || c | d |

    // queue is at maximum capacity
    assert!(matches!(
        queue.try_push(DropCounter::new(&counter)),
        Err(TryPushError::Full(_))
    ));
    assert_eq!(counter.load(Ordering::Relaxed), 4);

    // empty part of the queue so that we can push more
    for _ in 0..(3 * capacity / 4) {
        queue.try_pop().unwrap();
    }

    // State of queue:
    // | _ | _ || _ | d |

    assert_eq!(counter.load(Ordering::Relaxed), 1);

    // fill the queue again, but so that the producer head is behind the consumer
    // head (in index space)
    //
    // The `- 1` on the end of the range is here because we can't entirely fill the
    // last block of the queue, while there are unconsumed items in that
    // block
    for _ in capacity..(capacity + (3 * capacity / 4) - 1) {
        queue.try_push(DropCounter::new(&counter)).unwrap();
    }

    // queue is at maximum capacity, which is less than expected
    assert!(matches!(
        queue.try_push(DropCounter::new(&counter)),
        Err(TryPushError::Full(_))
    ));

    // State of queue:
    // | e | f || _ | d |

    assert_eq!(counter.load(Ordering::Relaxed), 3);

    // remove 1/4 of the queue
    for _ in 0..(capacity / 4) {
        queue.try_pop().unwrap();
    }

    // State of queue:
    // | e | f || _ | _ |

    assert_eq!(counter.load(Ordering::Relaxed), 2);

    // fill now empty block of the queue
    for _ in 0..(capacity / 2) {
        queue.try_push(DropCounter::new(&counter)).unwrap();
    }

    // queue is at maximum capacity
    assert!(matches!(
        queue.try_push(DropCounter::new(&counter)),
        Err(TryPushError::Full(_))
    ));

    // State of queue:
    // | e | f || g | h |

    assert_eq!(counter.load(Ordering::Relaxed), 4);

    // make drop do cleanup
    drop(queue);

    assert_eq!(counter.load(Ordering::Relaxed), 0);
}

#[test]
fn drop_one_full_block_one_partial_block() {
    let counter = Arc::new(AtomicUsize::new(0));

    let q = Queue::with_block_params(2, 2);

    q.try_push(DropCounter::new(&counter)).unwrap();
    q.try_push(DropCounter::new(&counter)).unwrap();
    q.try_push(DropCounter::new(&counter)).unwrap();

    drop(q);

    assert_eq!(counter.load(Ordering::Relaxed), 0);
}

#[test]
fn a_partly_consumed_block_takes_no_elements() {
    let q = Queue::with_block_params(1, 2);

    q.try_push(1).unwrap();
    q.try_push(2).unwrap();

    // The queue is now full
    assert_eq!(q.try_push(3).unwrap_err(), TryPushError::Full(3));

    // Remove 1 element
    assert_eq!(q.try_pop().unwrap(), 1);

    // At this point the queue is still full because we can't "advance" (wrap
    // around) the writer/producer head while there is still unconsumed data.
    assert_eq!(q.try_push(3).unwrap_err(), TryPushError::Full(3));

    // Remove 1 element
    assert_eq!(q.try_pop().unwrap(), 2);

    // Now we can start adding elements again
    q.try_push(3).unwrap();
    q.try_push(4).unwrap();
}

#[test]
fn dropping_a_queue_drops_what_is_left() {
    for num_push in 0..=4 {
        for num_pop in 0..=num_push {
            let counter = Arc::new(AtomicUsize::new(0));
            let q = Queue::with_block_params(2, 2);

            for _ in 0..num_push {
                q.try_push(DropCounter::new(&counter)).unwrap();
            }
            for _ in 0..num_pop {
                let _ = q.try_pop().unwrap();
            }
            assert_eq!(counter.load(Ordering::Relaxed), num_push - num_pop);

            drop(q);
            assert_eq!(counter.load(Ordering::Relaxed), 0);
        }
    }
}

#[test]
fn a_new_queue_holds_what_was_asked_for() {
    for capacity in [0, 1, 2, 3, 5, 8, 16, 17, 100, 255, 256, 1000] {
        let q = Queue::new(capacity);
        assert!(q.capacity().lower >= capacity);
        for elem in 0..capacity {
            q.push(elem).unwrap();
        }
        for elem in 0..capacity {
            assert_eq!(q.pop(), Some(elem));
        }
        assert_eq!(q.pop(), None);
    }
    // two bits of the capacity go to the number of blocks, and a block is added
    assert_eq!(Queue::<u8>::new(100).capacity(), (100, 125));
    assert_eq!(Queue::<u8>::new(1).capacity(), (2, 3));
    // no elements were asked for, and the least blocks are taken
    assert_eq!(Queue::<u8>::new(0).capacity(), (2, 3));
}

#[test]
fn a_new_queue_takes_elements_while_it_holds_fewer_than_asked_for() {
    for capacity in [1, 4, 7, 30] {
        let q = Queue::new(capacity);
        let mut next = 0;
        let mut first = 0;
        for popped in [0, 1, 2, 3, 5, 1, 8, 4] {
            while next - first < capacity {
                assert_eq!(q.try_push(next), Ok(()));
                next += 1;
            }
            for _ in 0..popped.min(capacity) {
                assert_eq!(q.try_pop(), Ok(first));
                first += 1;
            }
        }
    }
}

#[test]
fn a_refused_push_leaves_the_elements_alone() {
    let q = Queue::with_block_params(2, 2);
    for elem in [1, 2, 3, 4] {
        q.push(elem).unwrap();
    }
    assert_eq!(q.try_push(5), Err(TryPushError::Full(5)));
    assert_eq!(q.push(6), Err(6));
    for elem in [1, 2, 3, 4] {
        assert_eq!(q.pop(), Some(elem));
    }
    assert_eq!(q.pop(), None);
}

#[test]
fn the_words_of_a_new_queue() {
    let q = Queue::<u8>::with_block_params(3, 4);
    let s = q.snapshot();
    assert_eq!((s.producer.version, s.producer.index), (0, 0));
    assert_eq!((s.consumer.version, s.consumer.index), (0, 0));
    assert_eq!(s.blocks.len(), 3);
    for (index, block) in s.blocks.iter().enumerate() {
        let offset = if index == 0 { 0 } else { 4 };
        for cursor in [block.allocated, block.committed, block.reserved, block.consumed] {
            assert_eq!((cursor.version, cursor.offset), (0, offset));
        }
    }
    assert_eq!(q.try_pop(), Err(TryPopError::Empty));
}

#[test]
fn a_queue_without_slots_is_full_and_empty() {
    for (num_blocks, block_size) in [(0, 5), (5, 0), (0, 0)] {
        let q = Queue::with_block_params(num_blocks, block_size);
        assert_eq!(q.try_push(7), Err(TryPushError::Full(7)));
        assert_eq!(q.push(7), Err(7));
        assert_eq!(q.try_pop(), Err(TryPopError::Empty));
        assert_eq!(q.pop(), None);
    }
}

#[test]
fn clones_share_one_queue() {
    let q = Queue::with_block_params(2, 3);
    let other = q.clone();
    assert_eq!(other.capacity(), (3, 6));
    q.try_push('x').unwrap();
    assert_eq!(other.try_pop(), Ok('x'));
    assert_eq!(q.try_pop(), Err(TryPopError::Empty));
}

#[test]
fn a_snapshot_shows_where_the_cursors_stand() {
    let q = Queue::with_block_params(2, 2);
    for elem in 0..3 {
        q.try_push(elem).unwrap();
    }
    q.try_pop().unwrap();
    let s = q.snapshot();
    assert_eq!((s.producer.version, s.producer.index), (0, 1));
    assert_eq!((s.consumer.version, s.consumer.index), (0, 0));
    assert_eq!(s.blocks.len(), 2);
    assert_eq!((s.blocks[0].committed.version, s.blocks[0].committed.offset), (0, 2));
    assert_eq!((s.blocks[0].reserved.version, s.blocks[0].reserved.offset), (0, 1));
    assert_eq!((s.blocks[0].consumed.version, s.blocks[0].consumed.offset), (0, 1));
    assert_eq!((s.blocks[1].allocated.version, s.blocks[1].allocated.offset), (1, 1));
    assert_eq!((s.blocks[1].consumed.version, s.blocks[1].consumed.offset), (0, 2));
}

#[test]
fn many_rounds_keep_the_order() {
    let q = Queue::with_block_params(3, 4);
    let mut pushed = 0;
    let mut popped = 0;
    for round in 0..2000 {
        for _ in 0..(round % 9) {
            if q.try_push(pushed).is_ok() {
                pushed += 1;
            }
            assert!(pushed - popped <= q.capacity().upper);
        }
        for _ in 0..(round % 7) {
            match q.try_pop() {
                Ok(elem) => {
                    assert_eq!(elem, popped);
                    popped += 1;
                }
                Err(error) => {
                    assert_eq!(error, TryPopError::Empty);
                    assert_eq!(pushed, popped);
                }
            }
        }
    }
    assert!(popped > 5000);
}
