//! The queue that several threads may share, with a single number as its capacity.

use ribs::sync::mpmc::{Queue, QueueInner, QueueParameters, TryPopError, TryPushError};
use std::cell::RefCell;
use std::rc::Rc;

#[test]
fn mpmc_create_queue() {
    assert_eq!(Queue::<u8>::with_block_params(5, 5).capacity(), 25);
    assert_eq!(Queue::<u8>::with_block_params(0, 5).capacity(), 0);
    assert_eq!(Queue::<u8>::with_block_params(0, 0).capacity(), 0);
    assert_eq!(Queue::<u8>::with_block_params(5, 0).capacity(), 0);
}

const PUSH_AND_POP_PARAMS: &[(usize, usize)] =
    &[(5, 5), (1, 25), (25, 1), (8, 4), (4, 8), (1, 8), (8, 1)];

#[test]
fn push_and_pop_items_into_queus() {
    for (num_blocks, block_size) in PUSH_AND_POP_PARAMS {
        let q = Queue::with_block_params(*num_blocks, *block_size);

        push_to_full_then_pop_to_empty(&q);
        push_to_full_then_pop_to_empty(&q);
    }
}

#[test]
fn mpmc_push_and_pop_zero_sized_items_into_queue() {
    let q = Queue::with_block_params(5, 5);

    for _ in 0..q.capacity() {
        q.try_push(()).unwrap();
    }

    assert_eq!(q.try_push(()), Err(TryPushError::Full(())));

    for _ in 0..q.capacity() {
        q.try_pop().unwrap();
    }

    assert_eq!(q.try_pop(), Err(TryPopError::Empty));
}

fn push_to_full_then_pop_to_empty(q: &Queue<usize>) {
    for idx in 0..q.capacity() {
        q.try_push(idx).unwrap();
    }

    assert_eq!(
        q.try_push(q.capacity()),
        Err(TryPushError::Full(q.capacity()))
    );

    for expected_idx in 0..q.capacity() {
        let idx = q.try_pop().unwrap();
        assert_eq!(expected_idx, idx);
    }

    assert_eq!(q.try_pop(), Err(TryPopError::Empty));
}

#[derive(Debug)]
struct DropCounter(Rc<RefCell<usize>>);

impl Drop for DropCounter {
    fn drop(&mut self) {
        let mut borrow = self.0.borrow_mut();
        *borrow += 1;
    }
}

#[test]
fn mpmc_should_drop_contents() {
    let counter = Rc::new(RefCell::new(0));

    let queue = Queue::with_block_params(5, 5);

    for _ in 0..5 {
        queue.try_push(DropCounter(Rc::clone(&counter))).unwrap();
    }

    for _ in 0..2 {
        let counter = queue.try_pop().unwrap();
        drop(counter);
    }

    assert_eq!(*counter.borrow(), 2);

    drop(queue);

    assert_eq!(*counter.borrow(), 5);
}

#[test]
fn mpmc_new_queue_holds_what_was_asked_for() {
    for capacity in [0, 1, 2, 3, 5, 16, 100, 255, 256, 1000] {
        let q = Queue::new(capacity);
        assert!(q.capacity() >= capacity);
        for elem in 0..q.capacity() {
            q.try_push(elem).unwrap();
        }
        assert_eq!(q.try_push(0), Err(TryPushError::Full(0)));
    }
    assert_eq!(Queue::<u8>::new(100).capacity(), 100);
    assert_eq!(Queue::<u8>::new(5).capacity(), 6);
    assert_eq!(Queue::<u8>::new(0).capacity(), 2);
    assert_eq!(Queue::<u8>::new(256).capacity(), 256);
}

#[test]
fn mpmc_parameters() {
    let p = QueueParameters::from_block_parameters(5, 5);
    assert_eq!((p.num_blocks, p.block_size, p.capacity), (5, 5, 25));
    assert_eq!((p.version_shift, p.version_mask), (4, !0b1111));
    assert_eq!((p.offset_mask, p.index_mask), (0b1111, 0b111));
    assert!(p.check_offset_in_range(15) && !p.check_offset_in_range(16));
    assert!(p.check_index_in_range(7) && !p.check_index_in_range(8));
    assert!(p.check_version_in_range(usize::MAX >> 4));
    assert!(!p.check_version_in_range((usize::MAX >> 4) + 1));
    assert_eq!(QueueParameters::index_bit_length(5), 3);
    assert_eq!(QueueParameters::offset_bit_length(5), 4);
    assert_eq!(QueueParameters::version_bit_length(3, 4), usize::BITS - 4);
    let h = QueueParameters::from_block_heuristic(300);
    assert_eq!((h.num_blocks, h.block_size, h.capacity), (4, 75, 300));
}

#[test]
fn mpmc_one_caller_pushes_and_pops() {
    let mut q = QueueInner::new(QueueParameters::from_block_parameters(2, 2));
    assert_eq!(q.capacity(), 4);
    for elem in 0..4 {
        assert_eq!(q.try_push(elem), Ok(()));
    }
    assert_eq!(q.try_push(4), Err(TryPushError::Full(4)));
    assert_eq!(q.try_pop(), Ok(0));
    q.drop_contents();
    assert_eq!(q.try_pop(), Err(TryPopError::Empty));
}
