//! The queue under one caller, and the words that it is made of.

use ribs::sync::bits::{compute_ceil_log2, compute_floor_log2};
use ribs::sync::cursor::{PackedCursor, PackedHead, UnpackedCursor, UnpackedHead};
use ribs::sync::memory::{Access, End, Field, Reply};
use ribs::sync::shared::{Place, WordAccess};
use ribs::sync::{Capacity, QueueInner, QueueParameters, TryPopError, TryPushError};

fn params(num_blocks: usize, block_size: usize) -> QueueParameters {
    QueueParameters::from_block_parameters(num_blocks, block_size).unwrap()
}

#[test]
fn logarithms() {
    let powers = [1, 2, 3, 4, 5, 7, 8, 9, 1 << 20, (1 << 20) + 1];
    assert_eq!(powers.map(compute_floor_log2), [0, 1, 1, 2, 2, 2, 3, 3, 20, 20]);
    assert_eq!(powers.map(compute_ceil_log2), [0, 1, 2, 2, 3, 3, 3, 4, 20, 21]);
    assert_eq!(compute_floor_log2(usize::MAX), usize::BITS - 1);
    assert_eq!(compute_ceil_log2(usize::MAX), usize::BITS);
}

#[test]
fn parameters_of_a_shape() {
    let p = params(5, 5);
    assert_eq!(&p.capacity, (20, 25));
    assert_eq!((p.num_blocks, p.block_size), (5, 5));
    assert_eq!(p.version_shift, 4);
    assert_eq!(p.version_mask, !0b1111);
    assert_eq!(p.offset_mask, 0b1111);
    assert_eq!(p.index_mask, 0b111);

    let wide = params(1000, 2);
    assert_eq!(wide.version_shift, 10);
    assert_eq!(wide.offset_mask, 0b11);
    assert_eq!(wide.index_mask, 0b11_1111_1111);

    let none = params(0, 5);
    assert_eq!(none.capacity, Capacity::empty());
    assert!(none.capacity.is_empty());
    assert_eq!((none.num_blocks, none.block_size), (0, 5));
    assert_eq!((none.version_mask, none.version_shift), (0, 0));
    assert_eq!((none.offset_mask, none.index_mask), (0, 0));
}

#[test]
fn bit_lengths() {
    assert_eq!(QueueParameters::index_bit_length(5), Some(3));
    assert_eq!(QueueParameters::index_bit_length(1), Some(0));
    assert_eq!(QueueParameters::index_bit_length(usize::MAX), None);
    assert_eq!(QueueParameters::offset_bit_length(5), Some(4));
    assert_eq!(QueueParameters::offset_bit_length(8), Some(4));
    assert_eq!(QueueParameters::offset_bit_length(1), Some(1));
    assert_eq!(QueueParameters::offset_bit_length(usize::MAX), None);
    assert_eq!(QueueParameters::version_bit_length(3, 4), Some(usize::BITS - 4));
    assert_eq!(QueueParameters::version_bit_length(9, 4), Some(usize::BITS - 9));
    assert_eq!(QueueParameters::version_bit_length(usize::BITS + 1, 4), None);
}

#[test]
fn shapes_that_cannot_be_represented() {
    assert!(QueueParameters::from_block_parameters(usize::MAX, 2).is_err());
    assert!(QueueParameters::from_block_parameters(2, usize::MAX).is_err());
    assert!(QueueParameters::from_block_parameters(1, usize::MAX).is_err());
    assert!(QueueParameters::from_block_parameters(1, usize::MAX / 2 + 1).is_err());
    assert!(QueueParameters::from_block_parameters(1, usize::MAX / 4 + 1).is_ok());
    assert!(QueueParameters::from_block_parameters(usize::MAX, 1).is_err());
    assert!(QueueParameters::from_block_parameters(usize::MAX / 2 + 1, 1).is_ok());
}

#[test]
fn parameters_that_belong_to_no_shape() {
    for (num_blocks, block_size) in [(5, 5), (2, 1), (0, 3), (3, 0), (1, 1)] {
        let p = params(num_blocks, block_size);
        assert!(p.is_well_formed());
        assert!(!QueueParameters { index_mask: p.index_mask + 8, ..p }.is_well_formed());
        assert!(!QueueParameters { version_shift: p.version_shift + 1, ..p }.is_well_formed());
    }
    assert!(!QueueParameters { block_size: 6, ..params(5, 5) }.is_well_formed());
    assert!(!QueueParameters { num_blocks: usize::MAX, ..params(5, 5) }.is_well_formed());
}

#[test]
fn shapes_up_to_half_of_a_word() {
    let half = 1usize << (usize::BITS - usize::BITS / 2);
    for num_blocks in [1, 2, half / 2, half - 1] {
        for block_size in [1, 3, half / 2, half - 1] {
            assert!(QueueParameters::from_block_parameters(num_blocks, block_size).is_ok());
        }
    }
}

#[test]
fn fields_in_range() {
    let p = params(5, 5);
    assert!(p.check_offset_in_range(15));
    assert!(!p.check_offset_in_range(16));
    assert!(p.check_index_in_range(7));
    assert!(!p.check_index_in_range(8));
    assert!(p.check_version_in_range(usize::MAX >> 4));
    assert!(!p.check_version_in_range((usize::MAX >> 4) + 1));
}

#[test]
fn cursors_come_back_from_their_words() {
    let p = params(5, 5);
    for version in [0, 1, 2, 77, usize::MAX >> 4] {
        for offset in 0..16 {
            let packed = PackedCursor::new(&p, version, offset);
            assert_eq!(packed.0, (version << 4) | offset);
            let values = packed.load(&p);
            assert_eq!(values.version, version);
            assert_eq!(values.offset, offset);
        }
    }
}

#[test]
fn heads_come_back_from_their_words() {
    let p = params(5, 5);
    for version in [0, 1, 2, 77, usize::MAX >> 4] {
        for index in 0..8 {
            let packed = PackedHead::new(&p, version, index);
            assert_eq!(packed.0, (version << 4) | index);
            let values = packed.load(&p);
            assert_eq!(values.version, version);
            assert_eq!(values.index, index);
        }
    }
}

#[test]
fn words_count_and_rise() {
    let p = params(5, 5);
    let mut word = PackedCursor::new(&p, 3, 2);
    assert_eq!(word.fetch_add(&p, 1), UnpackedCursor { version: 3, offset: 2 });
    assert_eq!(word.load(&p), UnpackedCursor { version: 3, offset: 3 });
    let lower = UnpackedCursor { version: 2, offset: 9 };
    assert_eq!(word.fetch_max(&p, lower), UnpackedCursor { version: 3, offset: 3 });
    assert_eq!(word.load(&p), UnpackedCursor { version: 3, offset: 3 });
    let higher = UnpackedCursor { version: 4, offset: 0 };
    assert_eq!(word.fetch_max(&p, higher), UnpackedCursor { version: 3, offset: 3 });
    assert_eq!(word.load(&p), higher);
    word.store(&p, lower);
    assert_eq!(word.load(&p), lower);
    assert_eq!(lower.add(&p, 1), UnpackedCursor { version: 2, offset: 10 });

    let mut head = PackedHead::new(&p, 0, 4);
    let next = head.load(&p).increment_index(&p, 1);
    assert_eq!(next, UnpackedHead { version: 1, index: 0 });
    assert_eq!(head.fetch_max(&p, next), UnpackedHead { version: 0, index: 4 });
    assert_eq!(head.load(&p), next);
    head.store(&p, UnpackedHead { version: 0, index: 1 });
    assert_eq!(head.load(&p), UnpackedHead { version: 0, index: 1 });
}

#[test]
fn an_offset_past_its_field_carries_into_the_version() {
    let p = params(2, 1);
    let mut word = PackedCursor::new(&p, 0, 1);
    word.fetch_add(&p, 1);
    assert_eq!(word.load(&p), UnpackedCursor { version: 1, offset: 0 });
}

#[test]
fn one_caller_pushes_and_pops() {
    let mut q = QueueInner::new(params(2, 2));
    assert_eq!(q.capacity(), (2, 4));
    for elem in 0..4 {
        assert_eq!(q.try_push(elem), Ok(()));
    }
    assert_eq!(q.try_push(4), Err(TryPushError::Full(4)));
    assert_eq!(q.try_pop(), Ok(0));
    assert_eq!(q.try_push(4), Err(TryPushError::Full(4)));
    assert_eq!(q.try_pop(), Ok(1));
    assert_eq!(q.try_push(4), Ok(()));
    for elem in 2..5 {
        assert_eq!(q.try_pop(), Ok(elem));
    }
    assert_eq!(q.try_pop(), Err(TryPopError::Empty));
}

/// From any number of popped elements on, as many elements fit as the upper
/// bound of the capacity, less what is consumed of the block that consumers are in.
#[test]
fn capacity_depends_on_what_was_popped() {
    for popped in 0..20 {
        let mut q = QueueInner::new(params(3, 4));
        for elem in 0..popped {
            q.try_push(elem).unwrap();
            q.try_pop().unwrap();
        }
        let mut held = 0;
        while q.try_push(held).is_ok() {
            held += 1;
        }
        assert_eq!(held, 12 - popped % 4);
        assert!(q.capacity().lower < held && held <= q.capacity().upper);
    }
}

#[test]
fn a_cleared_queue_starts_afresh() {
    for pushed in 0..7 {
        for popped in 0..=pushed {
            let mut q = QueueInner::new(params(2, 3));
            for elem in 0..pushed.min(6) {
                q.try_push(elem).unwrap();
            }
            for _ in 0..popped.min(6) {
                q.try_pop().unwrap();
            }
            q.clear();
            let s = q.snapshot();
            assert_eq!(s.producer, UnpackedHead { version: 0, index: 0 });
            assert_eq!(s.consumer, UnpackedHead { version: 0, index: 0 });
            assert_eq!(q.try_pop(), Err(TryPopError::Empty));
            for elem in 0..6 {
                assert_eq!(q.try_push(elem), Ok(()));
            }
            assert_eq!(q.try_push(6), Err(TryPushError::Full(6)));
            for elem in 0..6 {
                assert_eq!(q.try_pop(), Ok(elem));
            }
        }
    }
}

#[test]
fn clearing_drops_the_elements() {
    let counter = std::rc::Rc::new(());
    let mut q = QueueInner::new(params(2, 2));
    for _ in 0..3 {
        q.try_push(std::rc::Rc::clone(&counter)).unwrap();
    }
    assert_eq!(std::rc::Rc::strong_count(&counter), 4);
    q.try_pop().unwrap();
    assert_eq!(std::rc::Rc::strong_count(&counter), 3);
    q.clear();
    assert_eq!(std::rc::Rc::strong_count(&counter), 1);
}

#[test]
fn accesses_touch_one_word() {
    let mut q = QueueInner::new(params(2, 2));
    assert!(matches!(
        q.perform(Access::LoadHead(End::Producer)),
        Reply::Head(UnpackedHead { version: 0, index: 0 })
    ));
    assert!(matches!(
        q.perform(Access::Increment(0, Field::Allocated)),
        Reply::Cursor(UnpackedCursor { version: 0, offset: 0 })
    ));
    assert!(matches!(
        q.perform(Access::Load(0, Field::Allocated)),
        Reply::Cursor(UnpackedCursor { version: 0, offset: 1 })
    ));
    assert!(matches!(
        q.perform(Access::Load(0, Field::Committed)),
        Reply::Cursor(UnpackedCursor { version: 0, offset: 0 })
    ));
    assert!(matches!(q.perform(Access::Write(0, 0, 'x')), Reply::Written));
    assert!(matches!(q.perform(Access::Take(0, 0)), Reply::Taken(Some('x'))));
    assert!(matches!(q.perform(Access::Take(0, 0)), Reply::Taken(None)));
}

#[test]
fn accesses_ask_for_one_word() {
    let p = params(5, 5);
    let head = UnpackedHead { version: 2, index: 3 };
    let cursor = UnpackedCursor { version: 1, offset: 4 };
    let raise_head: Access<u8> = Access::RaiseHead(End::Consumer, head);
    assert_eq!(
        raise_head.request(&p),
        (Place::Head(End::Consumer), WordAccess::Raise(0b10_0011))
    );
    let raise: Access<u8> = Access::Raise(4, Field::Reserved, cursor);
    assert_eq!(
        raise.request(&p),
        (Place::Cursor(4, Field::Reserved), WordAccess::Raise(0b1_0100))
    );
    let load: Access<u8> = Access::Load(1, Field::Consumed);
    assert_eq!(
        load.request(&p),
        (Place::Cursor(1, Field::Consumed), WordAccess::Load)
    );
    let count: Access<u8> = Access::Increment(1, Field::Committed);
    assert_eq!(
        count.request(&p),
        (Place::Cursor(1, Field::Committed), WordAccess::Increment)
    );
    let load_head: Access<u8> = Access::LoadHead(End::Producer);
    assert_eq!(
        load_head.request(&p),
        (Place::Head(End::Producer), WordAccess::Load)
    );
    match Reply::<u8>::from_word(&p, Place::Head(End::Producer), 0b10_0011) {
        Reply::Head(read) => assert_eq!(read, head),
        _ => panic!("the word of a head"),
    }
    match Reply::<u8>::from_word(&p, Place::Cursor(0, Field::Allocated), 0b1_0100) {
        Reply::Cursor(read) => assert_eq!(read, cursor),
        _ => panic!("the word of a cursor"),
    }
}
