//! A queue that several threads may share.

use crate::sync::count::Count;
use crate::sync::error::{TryPopError, TryPushError};
use crate::sync::memory::{Access, End, Field, Reply};
use crate::sync::params::{
    heuristic_block_size, heuristic_blocks, shape_fits, Capacity, QueueParameters,
};
use crate::sync::pop::{PopState, PopStep};
use crate::sync::push::{PushState, PushStep};
use crate::sync::shared::Shared;
use crate::sync::snapshot::Snapshot;
use crossbeam_utils::Backoff;
use std::sync::Arc;
use vstd::prelude::*;

verus! {

/// `crossbeam_utils::Backoff`: counts how often a loop was entered in vain.
#[verifier::external_type_specification]
#[verifier::external_body]
pub struct ExBackoff(Backoff);

/// `Backoff::new` starts to count. Nothing depends on the count but the length of a wait.
pub assume_specification[ Backoff::new ]() -> Backoff;

/// `Backoff::spin` waits a little, longer from call to call. It gives nothing back.
pub assume_specification[ Backoff::spin ](backoff: &Backoff);

/// Where a push stands after a number of replies, if each of them was an answer
/// to the access that the push had sent.
pub open spec fn push_after<T>(
    params: QueueParameters,
    elem: T,
    replies: Seq<Reply<T>>,
) -> Option<PushStep<T>>
    decreases replies.len(),
{
    if replies.len() == 0 {
        Some(PushStep::Next(PushState::Head { elem }, Access::LoadHead(End::Producer)))
    } else {
        match push_after(params, elem, replies.drop_last()) {
            Some(PushStep::Next(state, access)) => if access.answered_by(params, replies.last()) {
                Some(state.resumed(params, replies.last()))
            } else {
                None
            },
            _ => None,
        }
    }
}

/// Where a pop stands after a number of replies, if each of them was an answer
/// to the access that the pop had sent.
pub open spec fn pop_after<T>(params: QueueParameters, replies: Seq<Reply<T>>) -> Option<PopStep<T>>
    decreases replies.len(),
{
    if replies.len() == 0 {
        Some(PopStep::Next(PopState::Head, Access::LoadHead(End::Consumer)))
    } else {
        match pop_after(params, replies.drop_last()) {
            Some(PopStep::Next(state, access)) => if access.answered_by(params, replies.last()) {
                Some(state.resumed(params, replies.last()))
            } else {
                None
            },
            _ => None,
        }
    }
}

/// The outcome that the replies of the memory lead a push to.
pub open spec fn push_outcome<T>(
    params: QueueParameters,
    elem: T,
    replies: Seq<Reply<T>>,
    outcome: Result<(), TryPushError<T>>,
) -> bool {
    if params.holds_elements() {
        push_after(params, elem, replies) == Some(PushStep::Done(outcome))
    } else {
        &&& replies.len() == 0
        &&& outcome == Err::<(), TryPushError<T>>(TryPushError::Full(elem))
    }
}

/// The outcome that the replies of the memory lead a pop to.
pub open spec fn pop_outcome<T>(
    params: QueueParameters,
    replies: Seq<Reply<T>>,
    outcome: Result<T, TryPopError>,
) -> bool {
    if params.holds_elements() {
        pop_after(params, replies) == Some(PopStep::Done(outcome))
    } else {
        &&& replies.len() == 0
        &&& outcome == Err::<T, TryPopError>(TryPopError::Empty)
    }
}

/// Each reply is one that the shared words and slots can give for the access that
/// the push had sent.
pub open spec fn push_can_get<T>(shared: Shared<T>, elem: T, replies: Seq<Reply<T>>) -> bool
    decreases replies.len(),
{
    replies.len() == 0 || {
        &&& push_can_get(shared, elem, replies.drop_last())
        &&& push_after(shared.params(), elem, replies.drop_last()) matches Some(
            PushStep::Next(_, access),
        ) && shared.can_reply(access, replies.last())
    }
}

/// Each reply is one that the shared words and slots can give for the access that
/// the pop had sent.
pub open spec fn pop_can_get<T>(shared: Shared<T>, replies: Seq<Reply<T>>) -> bool
    decreases replies.len(),
{
    replies.len() == 0 || {
        &&& pop_can_get(shared, replies.drop_last())
        &&& pop_after(shared.params(), replies.drop_last()) matches Some(
            PopStep::Next(_, access),
        ) && shared.can_reply(access, replies.last())
    }
}

/// Replies that the shared words and slots can give lead a push to the outcome.
pub open spec fn push_ends<T>(
    shared: Shared<T>,
    elem: T,
    replies: Seq<Reply<T>>,
    outcome: Result<(), TryPushError<T>>,
) -> bool {
    &&& push_can_get(shared, elem, replies)
    &&& push_outcome(shared.params(), elem, replies, outcome)
}

/// Replies that the shared words and slots can give lead a pop to the outcome.
pub open spec fn pop_ends<T>(
    shared: Shared<T>,
    replies: Seq<Reply<T>>,
    outcome: Result<T, TryPopError>,
) -> bool {
    &&& pop_can_get(shared, replies)
    &&& pop_outcome(shared.params(), replies, outcome)
}

/// The attempts, each given by its replies, were all busy but for the last,
/// which led to the result.
pub open spec fn push_attempted<T>(
    shared: Shared<T>,
    elem: T,
    attempts: Seq<Seq<Reply<T>>>,
    result: Result<(), T>,
) -> bool {
    &&& attempts.len() > 0
    &&& forall|i: int|
        0 <= i < attempts.len() - 1 ==> push_ends(
            shared,
            elem,
            #[trigger] attempts[i],
            Err(TryPushError::Busy(elem)),
        )
    &&& match result {
        Ok(_) => push_ends(shared, elem, attempts.last(), Ok(())),
        Err(handed_back) => {
            &&& handed_back == elem
            &&& push_ends(shared, elem, attempts.last(), Err(TryPushError::Full(elem)))
        },
    }
}

/// The attempts, each given by its replies, were all busy but for the last,
/// which led to the result.
pub open spec fn pop_attempted<T>(
    shared: Shared<T>,
    attempts: Seq<Seq<Reply<T>>>,
    result: Option<T>,
) -> bool {
    &&& attempts.len() > 0
    &&& forall|i: int|
        0 <= i < attempts.len() - 1 ==> pop_ends(
            shared,
            #[trigger] attempts[i],
            Err(TryPopError::Busy),
        )
    &&& match result {
        Some(elem) => pop_ends(shared, attempts.last(), Ok(elem)),
        None => pop_ends(shared, attempts.last(), Err(TryPopError::Empty)),
    }
}

/// A push that is not over holds its element, or has sent it to its slot.
pub open spec fn push_carries<T>(step: PushStep<T>, elem: T) -> bool {
    match step {
        PushStep::Next(state, access) => match state {
            PushState::Head { elem: e } => e == elem,
            PushState::Check { elem: e, .. } => e == elem,
            PushState::Claim { elem: e, .. } => e == elem,
            PushState::Write { .. } => access matches Access::Write(_, _, e) && e == elem,
            PushState::Commit { .. } => true,
            PushState::Consumed { elem: e, .. } => e == elem,
            PushState::Reserved { elem: e, .. } => e == elem,
            PushState::RaiseCommitted { elem: e, .. } => e == elem,
            PushState::RaiseAllocated { elem: e, .. } => e == elem,
            PushState::RaiseHead { elem: e, .. } => e == elem,
        },
        PushStep::Done(Ok(_)) => true,
        PushStep::Done(Err(TryPushError::Full(e))) => e == elem,
        PushStep::Done(Err(TryPushError::Busy(e))) => e == elem,
    }
}

/// A push that is refused hands back the element that it was given, whatever
/// the memory replied.
pub proof fn lemma_push_hands_back<T>(params: QueueParameters, elem: T, replies: Seq<Reply<T>>)
    ensures
        push_after(params, elem, replies) matches Some(step) ==> push_carries(step, elem),
    decreases replies.len(),
{
    if replies.len() > 0 {
        lemma_push_hands_back(params, elem, replies.drop_last());
    }
}

/// The access neither fills nor empties a slot, and counts no slot as filled or emptied.
pub open spec fn leaves_elements<T>(access: Access<T>) -> bool {
    match access {
        Access::Write(_, _, _) => false,
        Access::Take(_, _) => false,
        Access::Increment(_, field) => field == Field::Allocated,
        _ => true,
    }
}

/// A push that is refused has left the elements of the queue alone, whatever the
/// memory replied: none of its accesses filled or emptied a slot.
pub proof fn lemma_refused_push_leaves_elements<T>(
    params: QueueParameters,
    elem: T,
    replies: Seq<Reply<T>>,
    error: TryPushError<T>,
    k: int,
)
    requires
        push_outcome(params, elem, replies, Err(error)),
        0 <= k < replies.len(),
    ensures
        push_after(params, elem, replies.take(k)) matches Some(PushStep::Next(_, access))
            && leaves_elements(access),
{
    lemma_unclaimed_push_leaves_elements(params, elem, replies, k);
}

/// A push that has claimed no slot has left the elements of the queue alone.
proof fn lemma_unclaimed_push_leaves_elements<T>(
    params: QueueParameters,
    elem: T,
    replies: Seq<Reply<T>>,
    k: int,
)
    requires
        match push_after(params, elem, replies) {
            Some(PushStep::Next(state, _)) => !(state is Write) && !(state is Commit),
            Some(PushStep::Done(outcome)) => outcome is Err,
            None => false,
        },
        0 <= k < replies.len(),
    ensures
        push_after(params, elem, replies.take(k)) matches Some(PushStep::Next(_, access))
            && leaves_elements(access),
    decreases replies.len(),
{
    let fewer = replies.drop_last();
    lemma_push_waits(params, elem, fewer);
    if k == fewer.len() {
        assert(replies.take(k) =~= fewer);
    } else {
        assert(replies.take(k) =~= fewer.take(k));
        lemma_unclaimed_push_leaves_elements(params, elem, fewer, k);
    }
}

/// A push that is not over waits for the reply to the access of its state.
proof fn lemma_push_waits<T>(params: QueueParameters, elem: T, replies: Seq<Reply<T>>)
    ensures
        push_after(params, elem, replies) matches Some(PushStep::Next(state, access))
            ==> state.waits_for(params, access),
    decreases replies.len(),
{
    if replies.len() > 0 {
        lemma_push_waits(params, elem, replies.drop_last());
    }
}

/// A multi-producer multi-consumer queue that allows sending and receiving from
/// different threads. Clones of a queue are handles of the same queue.
#[verifier::reject_recursive_types(T)]
pub struct Queue<T>(Arc<Shared<T>>);

impl<T> Clone for Queue<T> {
    fn clone(&self) -> (q: Self)
        ensures
            q == *self,
    {
        Queue(self.0.clone())
    }
}

impl<T> Queue<T> {
    /// The words and slots that the handles of the queue share.
    pub closed spec fn shared(&self) -> Shared<T> {
        *self.0
    }

    /// The parameters of the queue.
    pub open spec fn params(&self) -> QueueParameters {
        self.shared().params()
    }

    /// A new queue that will be able to hold at least the specified number of elements.
    pub fn new(capacity: usize) -> (q: Self)
        requires
            heuristic_blocks(capacity as int) * heuristic_block_size(capacity as int)
                <= usize::MAX,
            shape_fits(
                heuristic_blocks(capacity as int) + 1,
                heuristic_block_size(capacity as int),
            ),
        ensures
            q.params().wf(),
            q.params().describes(
                heuristic_blocks(capacity as int) + 1,
                heuristic_block_size(capacity as int),
            ),
            q.params().capacity.lower >= capacity,
            q.shared().made_new(),
    {
        let params = QueueParameters::from_block_heuristic(capacity).unwrap();
        Queue(Arc::new(Shared::new(params)))
    }

    /// A new queue with the specified number of blocks and block size.
    pub fn with_block_params(num_blocks: usize, block_size: usize) -> (q: Self)
        requires
            shape_fits(num_blocks as int, block_size as int),
        ensures
            q.params().wf(),
            q.params().describes(num_blocks as int, block_size as int),
            q.shared().made_new(),
    {
        let params = QueueParameters::from_block_parameters(num_blocks, block_size).unwrap();
        Queue(Arc::new(Shared::new(params)))
    }

    /// The capacity of the queue.
    pub fn capacity(&self) -> (c: &Capacity)
        ensures
            *c == self.params().capacity,
    {
        self.0.capacity()
    }

    /// The heads and cursors of the queue, each as it is at the moment at which
    /// it is read.
    pub fn snapshot(&self) -> (s: Snapshot)
        ensures
            self.shared().shows(s),
            s.params.head_in_range(s.consumer),
            s.params.head_in_range(s.producer),
            forall|i: int|
                0 <= i < s.blocks@.len() ==> (#[trigger] s.blocks@[i]).in_range(s.params),
    {
        self.0.snapshot()
    }

    /// Pushes an element. If the queue is full, the element is handed back.
    /// While other operations interfere the push is tried again.
    pub fn push(&self, elem: T) -> (r: Result<(), T>)
        ensures
            exists|attempts: Seq<Seq<Reply<T>>>| #[trigger]
                push_attempted(self.shared(), elem, attempts, r),
            match r {
                Ok(_) => exists|replies: Seq<Reply<T>>| #[trigger]
                    push_ends(self.shared(), elem, replies, Ok(())),
                Err(handed_back) => handed_back == elem && exists|replies: Seq<Reply<T>>| #[trigger]
                    push_ends(self.shared(), elem, replies, Err(TryPushError::Full(elem))),
            },
            !self.params().holds_elements() ==> r == Err::<(), T>(elem),
    {
        let backoff = Backoff::new();
        let mut item = elem;
        let ghost mut attempts: Seq<Seq<Reply<T>>> = Seq::empty();
        let mut retries = Count::new();
        loop
            invariant
                item == elem,
                forall|i: int|
                    0 <= i < attempts.len() ==> push_ends(
                        self.shared(),
                        elem,
                        #[trigger] attempts[i],
                        Err(TryPushError::Busy(elem)),
                    ),
            decreases retries.left(),
        {
            match self.try_push(item) {
                Ok(()) => {
                    proof {
                        let replies = choose|replies: Seq<Reply<T>>| #[trigger]
                            push_ends(self.shared(), elem, replies, Ok(()));
                        attempts = attempts.push(replies);
                        assert(push_attempted(self.shared(), elem, attempts, Ok(())));
                    }
                    return Ok(());
                },
                Err(TryPushError::Full(rejected)) => {
                    proof {
                        let replies = choose|replies: Seq<Reply<T>>| #[trigger]
                            push_ends(
                                self.shared(),
                                elem,
                                replies,
                                Err(TryPushError::Full(elem)),
                            );
                        attempts = attempts.push(replies);
                        assert(push_attempted(self.shared(), elem, attempts, Err(elem)));
                    }
                    return Err(rejected);
                },
                Err(TryPushError::Busy(rejected)) => {
                    proof {
                        let replies = choose|replies: Seq<Reply<T>>| #[trigger]
                            push_ends(
                                self.shared(),
                                elem,
                                replies,
                                Err(TryPushError::Busy(elem)),
                            );
                        attempts = attempts.push(replies);
                    }
                    retries.increment();
                    backoff.spin();
                    item = rejected;
                },
            }
        }
    }

    /// Pushes an element, and fails if the queue is full or a concurrent
    /// operation interferes.
    pub fn try_push(&self, elem: T) -> (r: Result<(), TryPushError<T>>)
        ensures
            exists|replies: Seq<Reply<T>>| #[trigger]
                push_ends(self.shared(), elem, replies, r),
            !self.params().holds_elements() ==> r == Err::<(), TryPushError<T>>(
                TryPushError::Full(elem),
            ),
            r matches Err(TryPushError::Full(e)) ==> e == elem,
            r matches Err(TryPushError::Busy(e)) ==> e == elem,
    {
        let params = self.0.parameters();
        let ghost mut replies: Seq<Reply<T>> = Seq::empty();
        proof {
            params.lemma_empty_capacity();
        }
        if params.capacity.is_empty() {
            assert(push_ends(self.shared(), elem, replies, Err(TryPushError::Full(elem))));
            return Err(TryPushError::Full(elem));
        }
        let mut retries = Count::new();
        let (mut state, mut access) = PushState::start(elem);
        loop
            invariant
                *params == self.params(),
                *params == self.0.params(),
                params.wf(),
                params.holds_elements(),
                state.wf(*params),
                state.waits_for(*params, access),
                access.in_bounds(*params),
                push_after(*params, elem, replies) == Some(PushStep::Next(state, access)),
                push_can_get(self.shared(), elem, replies),
            decreases retries.left(), state.remaining(),
        {
            let reply = self.0.perform(access);
            let ghost before = replies;
            proof {
                replies = replies.push(reply);
                assert(replies.drop_last() =~= before);
                lemma_push_hands_back(*params, elem, replies);
            }
            match state.resume(params, reply) {
                PushStep::Done(outcome) => {
                    assert(push_ends(self.shared(), elem, replies, outcome));
                    return outcome;
                },
                PushStep::Next(PushState::Head { elem: item }, sent) => {
                    retries.increment();
                    state = PushState::Head { elem: item };
                    access = sent;
                },
                PushStep::Next(next, sent) => {
                    state = next;
                    access = sent;
                },
            }
        }
    }

    /// Pops an element. If the queue is empty there is none. While other
    /// operations interfere the pop is tried again.
    pub fn pop(&self) -> (r: Option<T>)
        ensures
            exists|attempts: Seq<Seq<Reply<T>>>| #[trigger]
                pop_attempted(self.shared(), attempts, r),
            match r {
                Some(elem) => exists|replies: Seq<Reply<T>>| #[trigger]
                    pop_ends(self.shared(), replies, Ok(elem)),
                None => exists|replies: Seq<Reply<T>>| #[trigger]
                    pop_ends(self.shared(), replies, Err(TryPopError::Empty)),
            },
            !self.params().holds_elements() ==> r is None,
    {
        let backoff = Backoff::new();
        let ghost mut attempts: Seq<Seq<Reply<T>>> = Seq::empty();
        let mut retries = Count::new();
        loop
            invariant
                forall|i: int|
                    0 <= i < attempts.len() ==> pop_ends(
                        self.shared(),
                        #[trigger] attempts[i],
                        Err(TryPopError::Busy),
                    ),
            decreases retries.left(),
        {
            match self.try_pop() {
                Ok(elem) => {
                    proof {
                        let replies = choose|replies: Seq<Reply<T>>| #[trigger]
                            pop_ends(self.shared(), replies, Ok(elem));
                        attempts = attempts.push(replies);
                        assert(pop_attempted(self.shared(), attempts, Some(elem)));
                    }
                    return Some(elem);
                },
                Err(TryPopError::Empty) => {
                    proof {
                        let replies = choose|replies: Seq<Reply<T>>| #[trigger]
                            pop_ends(self.shared(), replies, Err(TryPopError::Empty));
                        attempts = attempts.push(replies);
                        assert(pop_attempted(self.shared(), attempts, None));
                    }
                    return None;
                },
                Err(TryPopError::Busy) => {
                    proof {
                        let replies = choose|replies: Seq<Reply<T>>| #[trigger]
                            pop_ends(self.shared(), replies, Err(TryPopError::Busy));
                        attempts = attempts.push(replies);
                    }
                    retries.increment();
                    backoff.spin();
                },
            }
        }
    }

    /// Pops an element, and fails if the queue is empty or a concurrent
    /// operation interferes.
    pub fn try_pop(&self) -> (r: Result<T, TryPopError>)
        ensures
            exists|replies: Seq<Reply<T>>| #[trigger] pop_ends(self.shared(), replies, r),
            !self.params().holds_elements() ==> r == Err::<T, TryPopError>(TryPopError::Empty),
    {
        let params = self.0.parameters();
        let ghost mut replies: Seq<Reply<T>> = Seq::empty();
        proof {
            params.lemma_empty_capacity();
        }
        if params.capacity.is_empty() {
            assert(pop_ends(self.shared(), replies, Err(TryPopError::Empty)));
            return Err(TryPopError::Empty);
        }
        let mut retries = Count::new();
        let (mut state, mut access) = PopState::start();
        loop
            invariant
                *params == self.params(),
                *params == self.0.params(),
                params.wf(),
                params.holds_elements(),
                state.wf(*params),
                state.waits_for(*params, access),
                access.in_bounds(*params),
                pop_after(*params, replies) == Some(PopStep::Next(state, access)),
                pop_can_get(self.shared(), replies),
            decreases retries.left(), state.remaining(),
        {
            let reply = self.0.perform(access);
            let ghost before = replies;
            proof {
                replies = replies.push(reply);
                assert(replies.drop_last() =~= before);
            }
            let left: u8 = state.count_remaining();
            match state.resume(params, reply) {
                PopStep::Done(outcome) => {
                    assert(pop_ends(self.shared(), replies, outcome));
                    return outcome;
                },
                PopStep::Next(next, sent) => {
                    if next.count_remaining() >= left {
                        retries.increment();
                    }
                    state = next;
                    access = sent;
                },
            }
        }
    }
}

}
