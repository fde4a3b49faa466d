//! Several callers on one queue.
//!
//! The callers take turns, one access at a time, on words and slots that are
//! shared for real. All orders are run in which callers are interrupted only a
//! given number of times.

use ribs::stubs::model;
use ribs::sync::memory::Access;
use ribs::sync::pop::{PopState, PopStep};
use ribs::sync::push::{PushState, PushStep};
use ribs::sync::shared::Shared;
use ribs::sync::{QueueParameters, TryPopError, TryPushError};
use std::collections::HashSet;

enum Call<T> {
    Push(T),
    Pop,
}

#[derive(Debug)]
enum Outcome<T> {
    Push(Result<(), TryPushError<T>>),
    Pop(Result<T, TryPopError>),
}

enum Running<T> {
    Push(PushState<T>, Access<T>),
    Pop(PopState<T>, Access<T>),
}

/// A caller: what it calls next depends on what its calls so far came to.
struct Caller<T> {
    next: Box<dyn Fn(&[Outcome<T>]) -> Option<Call<T>>>,
    running: Option<Running<T>>,
    outcomes: Vec<Outcome<T>>,
}

impl<T> Caller<T> {
    fn new(next: impl Fn(&[Outcome<T>]) -> Option<Call<T>> + 'static) -> Self {
        Caller {
            next: Box::new(next),
            running: None,
            outcomes: vec![],
        }
    }

    /// A caller that makes the given pushes.
    fn pushing(elems: Vec<T>) -> Self
    where
        T: Copy + 'static,
    {
        Caller::new(move |outcomes| elems.get(outcomes.len()).map(|elem| Call::Push(*elem)))
    }

    /// A caller that makes the given number of pops.
    fn popping(count: usize) -> Self {
        Caller::new(move |outcomes| (outcomes.len() < count).then_some(Call::Pop))
    }

    fn is_done(&self) -> bool {
        self.running.is_none() && (self.next)(&self.outcomes).is_none()
    }

    fn turn(&mut self, shared: &Shared<T>) {
        let running = match self.running.take() {
            Some(running) => running,
            None => match (self.next)(&self.outcomes) {
                Some(Call::Push(elem)) => {
                    let (state, access) = PushState::start(elem);
                    Running::Push(state, access)
                }
                Some(Call::Pop) => {
                    let (state, access) = PopState::start();
                    Running::Pop(state, access)
                }
                None => return,
            },
        };
        let params = *shared.parameters();
        match running {
            Running::Push(state, access) => match state.resume(&params, shared.perform(access)) {
                PushStep::Next(state, access) => {
                    self.running = Some(Running::Push(state, access));
                }
                PushStep::Done(outcome) => self.outcomes.push(Outcome::Push(outcome)),
            },
            Running::Pop(state, access) => match state.resume(&params, shared.perform(access)) {
                PopStep::Next(state, access) => {
                    self.running = Some(Running::Pop(state, access));
                }
                PopStep::Done(outcome) => self.outcomes.push(Outcome::Pop(outcome)),
            },
        }
    }

    fn popped(&self) -> Vec<T>
    where
        T: Copy,
    {
        self.outcomes
            .iter()
            .filter_map(|outcome| match outcome {
                Outcome::Pop(Ok(elem)) => Some(*elem),
                _ => None,
            })
            .collect()
    }
}

/// Runs the callers in every order with at most `interruptions` interruptions.
/// Returns how many orders there were.
fn explore<T>(
    num_blocks: usize,
    block_size: usize,
    interruptions: usize,
    callers: impl Fn() -> Vec<Caller<T>>,
    check: impl Fn(&[Caller<T>], &Shared<T>),
) -> usize {
    let mut choices: Vec<(usize, usize)> = vec![];
    let mut orders = 0;
    loop {
        let params = QueueParameters::from_block_parameters(num_blocks, block_size).unwrap();
        let shared = Shared::new(params);
        let mut callers = callers();
        let mut current: Option<usize> = None;
        let mut left = interruptions;
        let mut depth = 0;
        loop {
            let waiting: Vec<usize> = (0..callers.len())
                .filter(|caller| !callers[*caller].is_done())
                .collect();
            if waiting.is_empty() {
                break;
            }
            let goes_on = current.filter(|caller| waiting.contains(caller));
            let options: Vec<usize> = match goes_on {
                Some(caller) if left == 0 => vec![caller],
                Some(caller) => {
                    let mut options = vec![caller];
                    options.extend(waiting.iter().copied().filter(|other| *other != caller));
                    options
                }
                None => waiting,
            };
            if depth == choices.len() {
                choices.push((0, options.len()));
            }
            let chosen = options[choices[depth].0];
            if goes_on.is_some() && goes_on != Some(chosen) {
                left -= 1;
            }
            callers[chosen].turn(&shared);
            current = Some(chosen);
            depth += 1;
        }
        check(&callers, &shared);
        orders += 1;
        loop {
            match choices.pop() {
                Some((choice, options)) if choice + 1 < options => {
                    choices.push((choice + 1, options));
                    break;
                }
                Some(_) => {}
                None => return orders,
            }
        }
    }
}

/// No push is refused as full among the first that fit.
fn check_producer<T>(caller: &Caller<T>, capacity: usize) {
    for (index, outcome) in caller.outcomes.iter().enumerate() {
        if index < capacity {
            assert!(!matches!(
                outcome,
                Outcome::Push(Err(TryPushError::Full(_)))
            ));
        }
    }
}

fn in_order_and_expected(elems: &[i32], expected: &[i32]) -> bool {
    elems.windows(2).all(|w| w[0] < w[1])
        && elems
            .iter()
            .all(|elem| expected.iter().filter(|e| *e == elem).count() == 1)
}

#[test]
fn single_producer_single_consumer_observe_same_order() {
    model(|| {
        let orders = explore(
            4,
            5,
            3,
            || vec![Caller::pushing(vec![1, 2, 3]), Caller::popping(3)],
            |callers, _| {
                check_producer(&callers[0], 20);
                match &callers[1].outcomes[..] {
                    [Outcome::Pop(Ok(a)), Outcome::Pop(Ok(b)), Outcome::Pop(Ok(c))] => {
                        assert_eq!(*a, 1);
                        assert_eq!(*b, 2);
                        assert_eq!(*c, 3);
                    }
                    [Outcome::Pop(Ok(a)), Outcome::Pop(Ok(b)), Outcome::Pop(Err(_))]
                    | [Outcome::Pop(Ok(a)), Outcome::Pop(Err(_)), Outcome::Pop(Ok(b))]
                    | [Outcome::Pop(Err(_)), Outcome::Pop(Ok(a)), Outcome::Pop(Ok(b))] => {
                        assert!((*a == 1 && *b == 2) || (*a == 2 && *b == 3));
                    }
                    [Outcome::Pop(Ok(a)), Outcome::Pop(Err(_)), Outcome::Pop(Err(_))]
                    | [Outcome::Pop(Err(_)), Outcome::Pop(Ok(a)), Outcome::Pop(Err(_))]
                    | [Outcome::Pop(Err(_)), Outcome::Pop(Err(_)), Outcome::Pop(Ok(a))] => {
                        assert!(*a == 1 || *a == 2 || *a == 3);
                    }
                    [Outcome::Pop(Err(_)), Outcome::Pop(Err(_)), Outcome::Pop(Err(_))] => {}
                    other => panic!("not three pops: {:?}", other),
                }
            },
        );
        assert!(orders > 100);
    })
}

#[test]
fn single_producer_multiple_consumer_observe_same_order() {
    model(|| {
        explore(
            4,
            5,
            2,
            || {
                vec![
                    Caller::popping(3),
                    Caller::popping(3),
                    Caller::pushing(vec![1, 2, 3]),
                ]
            },
            |callers, _| {
                check_producer(&callers[2], 20);
                let t2 = callers[0].popped();
                let t3 = callers[1].popped();
                assert!(in_order_and_expected(&t2, &[1, 2, 3]));
                assert!(in_order_and_expected(&t3, &[1, 2, 3]));

                let t2_elems = t2.into_iter().collect::<HashSet<_>>();
                let t3_elems = t3.into_iter().collect::<HashSet<_>>();
                assert!(t2_elems.is_disjoint(&t3_elems));
                let received_elems = t2_elems.union(&t3_elems).copied().collect::<HashSet<_>>();
                assert!(received_elems.is_subset(&[1, 2, 3].into_iter().collect::<HashSet<_>>()));
            },
        );
    })
}

#[test]
fn multiple_producers_concurrent_with_multiple_consumers() {
    model(|| {
        // a pop that is turned away as busy is tried once more
        fn pop_once_more(outcomes: &[Outcome<usize>]) -> Option<Call<usize>> {
            match outcomes {
                [] => Some(Call::Pop),
                [Outcome::Pop(Err(TryPopError::Busy))] => Some(Call::Pop),
                _ => None,
            }
        }
        explore(
            2,
            1,
            3,
            || {
                vec![
                    Caller::pushing(vec![0]),
                    Caller::pushing(vec![1]),
                    Caller::new(pop_once_more),
                    Caller::new(pop_once_more),
                ]
            },
            |callers, _| {
                for caller in &callers[..2] {
                    if let [Outcome::Push(Err(TryPushError::Full(i)))] = &caller.outcomes[..] {
                        panic!("Queue should not be full, failed to push [{i}]");
                    }
                }
                let mut values: Vec<usize> = vec![];
                for caller in &callers[2..] {
                    values.extend(caller.popped());
                }

                values.sort();
                assert!(
                    values == &[0, 1] || values == &[0] || values == &[1] || values == &[],
                    "Values did not match: {:?}",
                    values
                );
            },
        );
    })
}

#[test]
fn multiple_producer_single_consumer_observe_same_order() {
    model(|| {
        explore(
            4,
            5,
            2,
            || {
                vec![
                    Caller::pushing(vec![('a', 1), ('a', 2), ('a', 3)]),
                    Caller::pushing(vec![('b', 1), ('b', 2), ('b', 3)]),
                    Caller::popping(6),
                ]
            },
            |callers, _| {
                check_producer(&callers[0], 20);
                check_producer(&callers[1], 20);
                let mut a_successes = Vec::with_capacity(3);
                let mut b_successes = Vec::with_capacity(3);
                for (ident, elem) in callers[2].popped() {
                    if ident == 'a' {
                        a_successes.push(elem);
                    }

                    if ident == 'b' {
                        b_successes.push(elem);
                    }
                }

                assert!(in_order_and_expected(&a_successes, &[1, 2, 3]));
                assert!(in_order_and_expected(&b_successes, &[1, 2, 3]));
            },
        );
    })
}

/// As many pushes as there are slots all succeed, also where they have to open
/// blocks at the same time.
#[test]
fn the_first_pushes_succeed() {
    for (num_blocks, block_size, interruptions) in [(2, 1, 6), (1, 2, 6), (2, 2, 3)] {
        let slots = num_blocks * block_size;
        explore(
            num_blocks,
            block_size,
            interruptions,
            || (0..slots).map(|elem| Caller::pushing(vec![elem])).collect(),
            |callers, shared| {
                for caller in callers {
                    assert!(matches!(caller.outcomes[..], [Outcome::Push(Ok(()))]));
                }
                let mut rest = Caller::popping(slots + 1);
                while !rest.is_done() {
                    rest.turn(shared);
                }
                let mut values = rest.popped();
                values.sort();
                assert!(values.into_iter().eq(0..slots));
            },
        );
    }
}

/// Two producers that push at the same time use up the offsets of a block of one
/// slot. The next block is opened all the same.
#[test]
fn claims_may_use_up_all_offsets() {
    let shared = shared(2, 1);
    let params = *shared.parameters();
    let mut callers: Vec<Caller<u32>> = vec![Caller::pushing(vec![1]), Caller::pushing(vec![2])];
    // both read the head and the allocated cursor before one of them claims
    for _ in 0..2 {
        for caller in &mut callers {
            caller.turn(&shared);
        }
    }
    for caller in &mut callers {
        caller.turn(&shared);
    }
    let allocated = shared.snapshot().blocks[0].allocated;
    assert_eq!((allocated.version, allocated.offset), (1, 0));
    assert!(params.check_version_in_range(1));
    for caller in &mut callers {
        while !caller.is_done() {
            caller.turn(&shared);
        }
        assert!(matches!(caller.outcomes[..], [Outcome::Push(Ok(()))]));
    }
    let mut rest = Caller::popping(3);
    while !rest.is_done() {
        rest.turn(&shared);
    }
    assert_eq!(rest.popped(), [1, 2]);
}

/// Blocks are opened again and again, and every element still comes out once.
#[test]
fn elements_come_out_once_across_blocks() {
    explore(
        2,
        2,
        2,
        || {
            vec![
                Caller::pushing(vec![1, 2, 3, 4, 5]),
                Caller::pushing(vec![11, 12, 13]),
                Caller::popping(6),
                Caller::popping(6),
            ]
        },
        |callers, shared| {
            let mut pushed: Vec<i32> = vec![];
            for caller in &callers[..2] {
                let elems = if pushed.is_empty() {
                    vec![1, 2, 3, 4, 5]
                } else {
                    vec![11, 12, 13]
                };
                for (elem, outcome) in elems.iter().zip(&caller.outcomes) {
                    match outcome {
                        Outcome::Push(Ok(())) => pushed.push(*elem),
                        Outcome::Push(Err(TryPushError::Full(e)))
                        | Outcome::Push(Err(TryPushError::Busy(e))) => assert_eq!(e, elem),
                        Outcome::Pop(_) => unreachable!(),
                    }
                }
            }
            let mut popped: Vec<i32> = vec![];
            for caller in &callers[2..] {
                let elems = caller.popped();
                // what one caller pushed comes out in its order
                let low: Vec<i32> = elems.iter().copied().filter(|e| *e < 10).collect();
                let high: Vec<i32> = elems.iter().copied().filter(|e| *e > 10).collect();
                assert!(low.windows(2).all(|w| w[0] < w[1]));
                assert!(high.windows(2).all(|w| w[0] < w[1]));
                popped.extend(elems);
            }
            // what is left comes out now, and nothing was lost
            let mut rest = Caller::popping(5);
            while !rest.is_done() {
                rest.turn(shared);
            }
            popped.extend(rest.popped());
            popped.sort();
            pushed.sort();
            assert_eq!(popped, pushed);
        },
    );
}

fn shared(num_blocks: usize, block_size: usize) -> Shared<u32> {
    Shared::new(QueueParameters::from_block_parameters(num_blocks, block_size).unwrap())
}

#[test]
fn pop_is_busy_while_a_push_is_under_way() {
    let shared = shared(1, 2);
    let mut first = Caller::pushing(vec![1]);
    while !first.is_done() {
        first.turn(&shared);
    }
    // the second push claims its slot, and is interrupted
    let mut second = Caller::pushing(vec![2]);
    for _ in 0..3 {
        second.turn(&shared);
    }
    let mut pop = Caller::popping(2);
    while pop.outcomes.is_empty() {
        pop.turn(&shared);
    }
    assert!(matches!(pop.outcomes[0], Outcome::Pop(Err(TryPopError::Busy))));
    while !second.is_done() {
        second.turn(&shared);
    }
    while !pop.is_done() {
        pop.turn(&shared);
    }
    assert!(matches!(pop.outcomes[1], Outcome::Pop(Ok(1))));
}

#[test]
fn push_is_busy_while_a_pop_is_under_way() {
    let shared = shared(1, 1);
    let mut first = Caller::pushing(vec![1]);
    while !first.is_done() {
        first.turn(&shared);
    }
    // the pop claims the slot, and is interrupted
    let mut pop = Caller::popping(1);
    for _ in 0..4 {
        pop.turn(&shared);
    }
    let mut push = Caller::pushing(vec![2, 3]);
    while push.outcomes.is_empty() {
        push.turn(&shared);
    }
    assert!(matches!(
        push.outcomes[0],
        Outcome::Push(Err(TryPushError::Busy(2)))
    ));
    while !pop.is_done() {
        pop.turn(&shared);
    }
    assert!(matches!(pop.outcomes[0], Outcome::Pop(Ok(1))));
    while !push.is_done() {
        push.turn(&shared);
    }
    assert!(matches!(push.outcomes[1], Outcome::Push(Ok(()))));
}
