//! First in, first out.
//!
//! The queues of this crate state of a push that succeeds that it appends its
//! element to the contents, and of a pop that succeeds that it gives out the
//! first element of the contents and removes it. What follows for any sequence
//! of such calls is stated here.

use vstd::prelude::*;

verus! {

/// A call that succeeded.
pub enum Call<T> {
    /// An element was pushed.
    Pushed(T),
    /// An element was popped.
    Popped(T),
}

/// The contents of a queue after a call that succeeded, if the call can have succeeded.
pub open spec fn after_call<T>(contents: Seq<T>, call: Call<T>) -> Option<Seq<T>> {
    match call {
        Call::Pushed(elem) => Some(contents.push(elem)),
        Call::Popped(elem) => if contents.len() > 0 && contents[0] == elem {
            Some(contents.drop_first())
        } else {
            None
        },
    }
}

/// The contents of a queue that was empty at first after calls that succeeded,
/// if the calls can have succeeded.
pub open spec fn after_calls<T>(calls: Seq<Call<T>>) -> Option<Seq<T>>
    decreases calls.len(),
{
    if calls.len() == 0 {
        Some(Seq::empty())
    } else {
        match after_calls(calls.drop_last()) {
            Some(contents) => after_call(contents, calls.last()),
            None => None,
        }
    }
}

/// The elements that were pushed, in their order.
pub open spec fn pushed<T>(calls: Seq<Call<T>>) -> Seq<T>
    decreases calls.len(),
{
    if calls.len() == 0 {
        Seq::empty()
    } else {
        match calls.last() {
            Call::Pushed(elem) => pushed(calls.drop_last()).push(elem),
            Call::Popped(_) => pushed(calls.drop_last()),
        }
    }
}

/// The elements that were popped, in their order.
pub open spec fn popped<T>(calls: Seq<Call<T>>) -> Seq<T>
    decreases calls.len(),
{
    if calls.len() == 0 {
        Seq::empty()
    } else {
        match calls.last() {
            Call::Pushed(_) => popped(calls.drop_last()),
            Call::Popped(elem) => popped(calls.drop_last()).push(elem),
        }
    }
}

/// The elements come out in the order in which they went in, each of them once:
/// what was popped and what is still in the queue make up what was pushed.
pub proof fn lemma_first_in_first_out<T>(calls: Seq<Call<T>>)
    ensures
        after_calls(calls) matches Some(contents) ==> popped(calls) + contents == pushed(calls),
    decreases calls.len(),
{
    if calls.len() > 0 {
        lemma_first_in_first_out(calls.drop_last());
        if let Some(contents) = after_calls(calls.drop_last()) {
            match calls.last() {
                Call::Pushed(elem) => {
                    assert(popped(calls) + contents.push(elem) =~= (popped(calls.drop_last())
                        + contents).push(elem));
                },
                Call::Popped(elem) => {
                    if contents.len() > 0 && contents[0] == elem {
                        assert(popped(calls) + contents.drop_first() =~= popped(calls.drop_last())
                            + contents);
                    }
                },
            }
        } else {
            assert(after_calls(calls) is None);
        }
    }
}

/// Elements that are pushed into an empty queue can be popped in the same order
/// until the queue is empty.
pub proof fn lemma_filled_then_emptied<T>(elems: Seq<T>, popped_so_far: int)
    requires
        0 <= popped_so_far <= elems.len(),
    ensures
        after_calls(
            elems.map_values(|e: T| Call::Pushed(e)) + elems.take(popped_so_far).map_values(
                |e: T| Call::Popped(e),
            ),
        ) == Some(elems.skip(popped_so_far)),
    decreases elems.len() + popped_so_far,
{
    let pushes = elems.map_values(|e: T| Call::Pushed(e));
    let pops = elems.take(popped_so_far).map_values(|e: T| Call::Popped(e));
    let calls = pushes + pops;
    if popped_so_far > 0 {
        let k = popped_so_far - 1;
        lemma_filled_then_emptied(elems, k);
        let fewer = pushes + elems.take(k).map_values(|e: T| Call::Popped(e));
        assert(calls.drop_last() =~= fewer);
        assert(calls.last() == Call::Popped(elems[k]));
        assert(elems.skip(k).drop_first() =~= elems.skip(popped_so_far));
    } else if elems.len() > 0 {
        lemma_filled_then_emptied(elems.drop_last(), 0);
        let fewer = elems.drop_last().map_values(|e: T| Call::Pushed(e));
        assert(elems.drop_last().take(0).map_values(|e: T| Call::Popped(e)) =~= Seq::empty());
        assert(fewer + elems.drop_last().take(0).map_values(|e: T| Call::Popped(e)) =~= fewer);
        assert(pops =~= Seq::empty());
        assert(calls =~= pushes);
        assert(calls.drop_last() =~= fewer);
        assert(calls.last() == Call::Pushed(elems.last()));
        assert(elems.drop_last().skip(0) =~= elems.drop_last());
        assert(elems.drop_last().push(elems.last()) =~= elems.skip(0));
    } else {
        assert(calls =~= Seq::empty());
        assert(elems.skip(0) =~= Seq::<T>::empty());
    }
}

}
