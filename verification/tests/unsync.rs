//! The single-threaded queue.

use ribs::unsync::{Empty, Full, PushMultipleError, Queue};
use std::cmp::Ordering;
use std::rc::Rc;

#[test]
fn a_new_queue_is_empty() {
    let q = Queue::<u8>::new(10);

    assert_eq!(q.capacity(), 10);
    assert_eq!(q.len(), 0);
    assert!(q.is_empty());
    assert!(!q.is_full());
}

#[test]
fn len_counts_pushes() {
    let mut q = Queue::new(4);

    assert_eq!(q.len(), 0);

    q.push(10).unwrap();
    q.push(20).unwrap();

    assert_eq!(q.len(), 2);
}

#[test]
fn a_queue_of_no_capacity_is_full_and_empty() {
    let mut q = Queue::<u8>::new(0);

    assert!(q.is_full());
    assert!(q.is_empty());
    assert_eq!(q.push(1), Err(Full(1)));
    assert_eq!(q.pop(), Err(Empty));
}

#[test]
fn pushing_several_fills_the_queue() {
    let mut q = Queue::<u8>::new(5);

    q.push_multiple(vec![0, 1, 2, 3, 4]).unwrap();

    assert!(!q.is_empty());
    assert!(q.is_full());
}

#[test]
fn a_full_queue_hands_the_element_back() {
    let mut q = Queue::<u8>::new(3);

    q.push(0).unwrap();
    q.push(1).unwrap();
    q.push(2).unwrap();
    assert!(matches!(q.push(3), Err(Full(3))));

    assert!(q.is_full());
}

#[test]
fn pushing_several_hands_them_back() {
    let mut q = Queue::new(4);
    assert_eq!(q.len(), 0);

    q.push_multiple(vec![1, 2, 3, 4]).unwrap();
    assert_eq!(q.len(), 4);
    assert!(q.is_full());

    match q.push_multiple(vec![5, 6]) {
        Err(PushMultipleError::Full(elems)) => assert_eq!(elems, [5, 6]),
        _ => panic!("the queue is full"),
    }
    assert!(matches!(q.push_multiple(vec![]), Err(PushMultipleError::Full(_))));

    q.clear();
    assert!(q.is_empty());
    match q.push_multiple(vec![7, 8, 9, 10, 11]) {
        Err(PushMultipleError::InsufficientCapacity(rest)) => {
            assert_eq!(rest.collect::<Vec<_>>(), [7, 8, 9, 10, 11]);
        }
        _ => panic!("there are too many elements"),
    }
    assert!(q.is_empty());
    q.push_multiple(vec![]).unwrap();
    assert!(q.is_empty());
}

#[test]
fn elements_come_out_in_order() {
    let mut q = Queue::new(4);
    assert_eq!(q.len(), 0);

    q.push_multiple(vec![1, 2, 3, 4]).unwrap();

    assert_eq!(q.pop().unwrap(), 1);
    assert_eq!(q.pop().unwrap(), 2);
    assert_eq!(q.pop().unwrap(), 3);
    assert_eq!(q.pop().unwrap(), 4);
    assert_eq!(q.pop(), Err(Empty));
}

#[test]
fn peeking_leaves_the_element() {
    let mut q = Queue::new(4);
    assert_eq!(q.len(), 0);

    q.push_multiple(vec![1, 2, 3]).unwrap();

    assert_eq!(q.peek().unwrap(), &1);
    assert_eq!(q.pop().unwrap(), 1);
    assert_eq!(q.pop().unwrap(), 2);
    assert_eq!(q.peek().unwrap(), &3);
    assert_eq!(q.pop().unwrap(), 3);
    assert_eq!(q.peek(), Err(Empty));
}

#[test]
fn peeking_to_change() {
    let mut q = Queue::new(3);
    assert_eq!(q.len(), 0);

    q.push_multiple(vec![1, 2, 3]).unwrap();

    assert_eq!(q.peek_mut().unwrap(), &mut 1);
    assert_eq!(q.pop().unwrap(), 1);
    assert_eq!(q.pop().unwrap(), 2);
    assert_eq!(q.peek_mut().unwrap(), &mut 3);
    *q.peek_mut().unwrap() = 30;
    assert_eq!(q.pop().unwrap(), 30);
    assert_eq!(q.peek_mut(), Err(Empty));
}

#[test]
fn clearing() {
    let mut q = Queue::new(3);
    assert_eq!(q.len(), 0);

    assert!(matches!(q.push_multiple(vec![1, 2, 3]), Ok(())));
    assert_eq!(q.len(), 3);
    assert!(q.is_full() && !q.is_empty());

    q.clear();
    assert_eq!(q.len(), 0);
    assert!(!q.is_full() && q.is_empty());
}

#[test]
fn clearing_drops_the_elements_of_a_wrapped_queue() {
    let counter = Rc::new(());
    let mut q = Queue::new(3);
    for _ in 0..3 {
        q.push(Rc::clone(&counter)).unwrap();
    }
    q.pop().unwrap();
    q.pop().unwrap();
    q.push(Rc::clone(&counter)).unwrap();
    q.push(Rc::clone(&counter)).unwrap();
    assert_eq!(Rc::strong_count(&counter), 4);
    q.clear();
    assert_eq!(Rc::strong_count(&counter), 1);
    q.push(Rc::clone(&counter)).unwrap();
    drop(q);
    assert_eq!(Rc::strong_count(&counter), 1);
}

#[test]
fn iterating() {
    let mut q = Queue::new(3);
    assert_eq!(q.len(), 0);

    assert!(matches!(q.push_multiple(vec![1, 2, 3]), Ok(())));

    let mut iter = q.iter();
    assert_eq!(iter.len(), 3);
    assert_eq!(iter.size_hint(), (3, Some(3)));

    assert_eq!(iter.next(), Some(&1));
    assert_eq!(iter.next(), Some(&2));
    assert_eq!(iter.len(), 1);
    assert_eq!(iter.next(), Some(&3));
    assert_eq!(iter.next(), None);
    assert_eq!(iter.next(), None);
    assert_eq!(q.iter().count(), 3);
}

#[test]
fn iterating_to_change() {
    let mut q = Queue::new(3);
    assert_eq!(q.len(), 0);

    assert!(matches!(q.push_multiple(vec![1, 2, 3]), Ok(())));

    let mut iter = q.iter_mut();
    assert_eq!(iter.size_hint(), (3, Some(3)));

    assert_eq!(iter.next(), Some(&mut 1));
    *iter.next().unwrap() = 20;
    assert_eq!(iter.len(), 1);
    assert_eq!(iter.next(), Some(&mut 3));
    assert_eq!(iter.next(), None);
    assert_eq!(iter.count(), 0);
    assert_eq!(q.pop(), Ok(1));
    assert_eq!(q.pop(), Ok(20));
}

/// A queue of the given capacity whose elements wrap around the end of its ring.
fn wrapped(capacity: usize, elems: &[i32]) -> Queue<i32> {
    let mut q = Queue::new(capacity);
    for _ in 0..capacity {
        q.push(0).unwrap();
        q.pop().unwrap();
    }
    for elem in elems {
        q.push(*elem).unwrap();
    }
    q
}

#[test]
fn iterating_over_a_wrapped_queue_starts_at_the_front() {
    let mut q = wrapped(4, &[1, 2, 3]);

    let mut seen = vec![];
    let mut iter = q.iter();
    while let Some(elem) = iter.next() {
        seen.push(*elem);
    }
    assert_eq!(seen, [1, 2, 3]);

    let mut iter = q.iter_mut();
    while let Some(elem) = iter.next() {
        *elem *= 10;
    }

    let mut seen = vec![];
    let mut iter = q.into_iter();
    assert_eq!(iter.size_hint(), (3, Some(3)));
    while let Some(elem) = iter.next() {
        seen.push(elem);
    }
    assert_eq!(seen, [10, 20, 30]);
    assert_eq!(iter.len(), 0);
    assert_eq!(iter.count(), 0);
}

#[test]
fn from_a_vector_and_from_an_array() {
    let mut q = Queue::from(vec![1, 2, 3]);
    assert_eq!(q.capacity(), 3);
    assert!(q.is_full());
    assert_eq!(q.pop(), Ok(1));

    let mut q = Queue::from(["a", "b"]);
    assert_eq!(q.capacity(), 2);
    assert_eq!(q.pop(), Ok("a"));
    assert_eq!(q.pop(), Ok("b"));
    assert_eq!(q.pop(), Err(Empty));
    assert_eq!(Queue::<u8>::from([]).capacity(), 0);
}

#[test]
fn more_elements_than_a_ring_can_count() {
    let q = Queue::from([(); usize::MAX]);
    assert_eq!(q.capacity(), 0);
    assert_eq!(q.len(), 0);
}

#[test]
fn room_for_more() {
    let mut q = wrapped(4, &[1, 2]);
    assert!(q.has_room_for(0));
    assert!(q.has_room_for(2));
    assert!(!q.has_room_for(3));
    assert!(!q.has_room_for(usize::MAX));
    q.extend(vec![3, 4]);
    assert!(q.has_room_for(0));
    assert!(!q.has_room_for(1));
}

#[test]
fn extending() {
    let mut q = wrapped(4, &[1, 2]);
    q.extend(vec![3, 4]);
    assert!(q.is_full());
    assert!(q == Queue::from([1, 2, 3, 4]));
}

#[test]
fn equality_goes_by_the_elements() {
    assert!(wrapped(4, &[1, 2, 3]) == Queue::from([1, 2, 3]));
    assert!(wrapped(4, &[1, 2, 3]) != Queue::from([1, 2]));
    assert!(wrapped(4, &[1, 2, 3]) != Queue::from([1, 2, 4]));
    assert!(Queue::<i32>::new(3) == Queue::<i32>::new(7));
}

#[test]
fn order_goes_by_the_elements() {
    let a = wrapped(4, &[1, 2, 3]);
    assert_eq!(a.partial_cmp(&Queue::from([1, 2, 3])), Some(Ordering::Equal));
    assert_eq!(a.partial_cmp(&Queue::from([1, 3])), Some(Ordering::Less));
    assert_eq!(a.partial_cmp(&Queue::from([1, 2])), Some(Ordering::Greater));
    assert_eq!(a.partial_cmp(&Queue::from([1, 2, 3, 0])), Some(Ordering::Less));
    assert!(a < Queue::from([2]));
    assert_eq!(a.cmp(&Queue::from([1, 2, 3])), Ordering::Equal);
    assert_eq!(a.cmp(&Queue::from([0, 9, 9, 9])), Ordering::Greater);
    assert_eq!(a.cmp(&Queue::from([1, 2, 3, 4])), Ordering::Less);
    let nan = Queue::from([f64::NAN]);
    assert_eq!(nan.partial_cmp(&nan), None);
    assert_eq!(Queue::from([0.5]).partial_cmp(&Queue::from([f64::NAN])), None);
}

#[test]
fn clones_hold_the_same_elements() {
    let q = wrapped(5, &[1, 2, 3]);
    let mut c = q.clone();
    assert_eq!(c.capacity(), 5);
    assert!(c == q);
    assert_eq!(c.pop(), Ok(1));
    assert_eq!(q.len(), 3);
}

#[test]
fn many_rounds_keep_the_order_of_a_ring() {
    let mut q = Queue::new(5);
    let mut pushed = 0;
    let mut popped = 0;
    for round in 0..500 {
        for _ in 0..(round % 6) {
            match q.push(pushed) {
                Ok(()) => pushed += 1,
                Err(Full(elem)) => {
                    assert_eq!(elem, pushed);
                    assert_eq!(q.len(), 5);
                }
            }
        }
        for _ in 0..(round % 4) {
            match q.pop() {
                Ok(elem) => {
                    assert_eq!(elem, popped);
                    popped += 1;
                }
                Err(Empty) => assert_eq!(pushed, popped),
            }
        }
        assert_eq!(q.len(), pushed - popped);
    }
    assert!(popped > 500);
}
