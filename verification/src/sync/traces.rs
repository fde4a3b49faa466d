//! Every operation of an interleaving is a sequence of replies to its accesses.

use crate::sync::account::Account;
use crate::sync::error::{TryPopError, TryPushError};
use crate::sync::interleave::{lemma_interleaving, Event, PopOp, PushOp, System};
use crate::sync::laps::settled;
use crate::sync::memory::{lemma_access_keeps_shape, Memory, Reply};
use crate::sync::opening::lemma_next_named;
use crate::sync::params::QueueParameters;
use crate::sync::pop::{PopState, PopStep};
use crate::sync::push::{PushState, PushStep};
use crate::sync::queue::{
    pop_after, pop_outcome, push_after, push_outcome,
};
use crate::sync::system::{pop_agrees, push_agrees, system_agrees};
use vstd::prelude::*;

verus! {

/// The replies that the push has got have led it to where it stands.
pub open spec fn push_has_come<T>(params: QueueParameters, op: PushOp<T>) -> bool {
    push_after(params, op.elem, op.replies) == Some(PushStep::Next(op.state, op.access))
}

/// The replies that the pop has got have led it to where it stands.
pub open spec fn pop_has_come<T>(params: QueueParameters, op: PopOp<T>) -> bool {
    pop_after(params, op.replies) == Some(PopStep::Next(op.state, op.access))
}

/// One more reply leads the push one access further.
proof fn lemma_push_goes_on<T>(params: QueueParameters, op: PushOp<T>, reply: Reply<T>)
    requires
        push_has_come(params, op),
        op.access.answered_by(params, reply),
    ensures
        push_after(params, op.elem, op.replies.push(reply)) == Some(
            op.state.resumed(params, reply),
        ),
{
    assert(op.replies.push(reply).drop_last() =~= op.replies);
}

/// One more reply leads the pop one access further.
proof fn lemma_pop_goes_on<T>(params: QueueParameters, op: PopOp<T>, reply: Reply<T>)
    requires
        pop_has_come(params, op),
        op.access.answered_by(params, reply),
    ensures
        pop_after(params, op.replies.push(reply)) == Some(op.state.resumed(params, reply)),
{
    assert(op.replies.push(reply).drop_last() =~= op.replies);
}

/// The access that a push has sent is answered in form.
proof fn lemma_push_is_answered<T>(
    params: QueueParameters,
    s: System<T>,
    acc: Account,
    id: int,
)
    requires
        params.wf(),
        params.holds_elements(),
        system_agrees(params, s, acc),
        s.pushes.dom().contains(id),
    ensures
        s.pushes[id].access.answered_by(
            params,
            s.pushes[id].access.performed(params, s.memory).1,
        ),
{
    let op = s.pushes[id];
    assert(push_agrees(params, s.elems, acc, op));
    match op.state {
        PushState::Consumed { head, .. } => lemma_next_named(params, head),
        PushState::Reserved { head, .. } => lemma_next_named(params, head),
        PushState::RaiseCommitted { head, .. } => lemma_next_named(params, head),
        PushState::RaiseAllocated { head, .. } => lemma_next_named(params, head),
        PushState::RaiseHead { head, .. } => lemma_next_named(params, head),
        _ => {},
    }
    lemma_access_keeps_shape(params, s.memory, op.access);
}

/// The access that a pop has sent is answered in form.
proof fn lemma_pop_is_answered<T>(params: QueueParameters, s: System<T>, acc: Account, id: int)
    requires
        params.wf(),
        params.holds_elements(),
        system_agrees(params, s, acc),
        s.pops.dom().contains(id),
    ensures
        s.pops[id].access.answered_by(params, s.pops[id].access.performed(params, s.memory).1),
{
    let op = s.pops[id];
    assert(pop_agrees(params, s.elems, acc, op));
    match op.state {
        PopState::NextCommitted { head } => lemma_next_named(params, head),
        PopState::RaiseConsumed { head } => lemma_next_named(params, head),
        PopState::RaiseNextReserved { head } => lemma_next_named(params, head),
        PopState::RaiseHead { head } => lemma_next_named(params, head),
        _ => {},
    }
    lemma_access_keeps_shape(params, s.memory, op.access);
}

/// All operations have come to where they stand by replies to their accesses.
spec fn all_have_come<T>(params: QueueParameters, s: System<T>) -> bool {
    &&& forall|id: int|
        s.pushes.dom().contains(id) ==> push_has_come(params, #[trigger] s.pushes[id])
    &&& forall|id: int| s.pops.dom().contains(id) ==> pop_has_come(params, #[trigger] s.pops[id])
}

proof fn lemma_all_have_come<T>(
    params: QueueParameters,
    memory: Memory<T>,
    events: Seq<Event<T>>,
)
    requires
        params.wf(),
        params.holds_elements(),
        settled(params, memory, 0, 0),
        System::idle(memory).allows_all(params, events),
    ensures
        all_have_come(params, System::idle(memory).after_all(params, events)),
    decreases events.len(),
{
    let s = System::idle(memory).after_all(params, events);
    if events.len() > 0 {
        let before = System::idle(memory).after_all(params, events.drop_last());
        let acc = lemma_interleaving(params, memory, events.drop_last());
        lemma_all_have_come(params, memory, events.drop_last());
        match events.last() {
            Event::StartPush(id, elem) => {
                assert(push_has_come(params, PushOp::start(elem)));
                assert forall|k: int| s.pushes.dom().contains(k) implies push_has_come(
                    params,
                    #[trigger] s.pushes[k],
                ) by {
                    if k != id {
                        assert(s.pushes[k] == before.pushes[k]);
                    }
                }
            },
            Event::StartPop(id) => {
                assert(pop_has_come(params, PopOp::<T>::start()));
                assert forall|k: int| s.pops.dom().contains(k) implies pop_has_come(
                    params,
                    #[trigger] s.pops[k],
                ) by {
                    if k != id {
                        assert(s.pops[k] == before.pops[k]);
                    }
                }
            },
            Event::TurnOfPush(id) => {
                let op = before.pushes[id];
                assert(push_has_come(params, op));
                lemma_push_is_answered(params, before, acc, id);
                lemma_push_goes_on(params, op, op.access.performed(params, before.memory).1);
                assert forall|k: int| s.pushes.dom().contains(k) implies push_has_come(
                    params,
                    #[trigger] s.pushes[k],
                ) by {
                    if k != id {
                        assert(s.pushes[k] == before.pushes[k]);
                    }
                }
            },
            Event::TurnOfPop(id) => {
                let op = before.pops[id];
                assert(pop_has_come(params, op));
                lemma_pop_is_answered(params, before, acc, id);
                lemma_pop_goes_on(params, op, op.access.performed(params, before.memory).1);
                assert forall|k: int| s.pops.dom().contains(k) implies pop_has_come(
                    params,
                    #[trigger] s.pops[k],
                ) by {
                    if k != id {
                        assert(s.pops[k] == before.pops[k]);
                    }
                }
            },
        }
    }
}

/// The reply to the access of an operation leads it on from where the replies
/// before have led it.
pub proof fn lemma_replies_lead_on<T>(
    params: QueueParameters,
    memory: Memory<T>,
    events: Seq<Event<T>>,
    id: int,
)
    requires
        params.wf(),
        params.holds_elements(),
        settled(params, memory, 0, 0),
        System::idle(memory).allows_all(params, events),
    ensures
        ({
            let s = System::idle(memory).after_all(params, events);
            let push = s.pushes[id];
            let pop = s.pops[id];
            let push_reply = push.access.performed(params, s.memory).1;
            let pop_reply = pop.access.performed(params, s.memory).1;
            &&& s.pushes.dom().contains(id) ==> push_after(
                params,
                push.elem,
                push.replies.push(push_reply),
            ) == Some(push.state.resumed(params, push_reply))
            &&& s.pops.dom().contains(id) ==> pop_after(params, pop.replies.push(pop_reply))
                == Some(pop.state.resumed(params, pop_reply))
        }),
{
    let s = System::idle(memory).after_all(params, events);
    let acc = lemma_interleaving(params, memory, events);
    lemma_all_have_come(params, memory, events);
    if s.pushes.dom().contains(id) {
        let op = s.pushes[id];
        assert(push_has_come(params, op));
        lemma_push_is_answered(params, s, acc, id);
        lemma_push_goes_on(params, op, op.access.performed(params, s.memory).1);
    }
    if s.pops.dom().contains(id) {
        let op = s.pops[id];
        assert(pop_has_come(params, op));
        lemma_pop_is_answered(params, s, acc, id);
        lemma_pop_goes_on(params, op, op.access.performed(params, s.memory).1);
    }
}

/// The replies of an operation of an interleaving lead a call of a shared queue
/// to what the operation comes to, and to nothing else.
pub proof fn lemma_results_are_outcomes<T>(
    params: QueueParameters,
    memory: Memory<T>,
    events: Seq<Event<T>>,
    id: int,
)
    requires
        params.wf(),
        params.holds_elements(),
        settled(params, memory, 0, 0),
        System::idle(memory).allows_all(params, events),
    ensures
        ({
            let s = System::idle(memory).after_all(params, events);
            let push = s.pushes[id];
            let pop = s.pops[id];
            &&& s.pushes.dom().contains(id) ==> (s.push_result(params, id) matches Some(result)
                ==> forall|outcome: Result<(), TryPushError<T>>| #[trigger]
                push_outcome(
                    params,
                    push.elem,
                    push.replies.push(push.access.performed(params, s.memory).1),
                    outcome,
                ) <==> outcome == result)
            &&& s.pops.dom().contains(id) ==> (s.pop_result(params, id) matches Some(result)
                ==> forall|outcome: Result<T, TryPopError>| #[trigger]
                pop_outcome(
                    params,
                    pop.replies.push(pop.access.performed(params, s.memory).1),
                    outcome,
                ) <==> outcome == result)
        }),
{
    lemma_replies_lead_on(params, memory, events, id);
}

}
