//! Comparing queues by their elements, from the first to the last one.

use std::cmp::Ordering;
use vstd::prelude::*;
use vstd::laws_cmp::{
    obeys_cmp, obeys_cmp_ord, obeys_cmp_partial_ord, obeys_partial_cmp_spec_properties,
};
use vstd::laws_eq::obeys_eq_spec_properties;
use vstd::std_specs::cmp::{OrdSpec, PartialEqSpec, PartialOrdSpec};

use super::Queue;

verus! {

/// Two slots hold equal elements, or nothing.
pub open spec fn slots_equal<A: PartialEq<B>, B>(a: Option<A>, b: Option<B>) -> bool {
    match (a, b) {
        (Some(x), Some(y)) => x.eq_spec(&y),
        (None, None) => true,
        _ => false,
    }
}

/// How two slots compare: by their elements, and an empty one comes first.
pub open spec fn slots_order<A: PartialOrd<B>, B>(a: Option<A>, b: Option<B>) -> Option<Ordering> {
    match (a, b) {
        (Some(x), Some(y)) => x.partial_cmp_spec(&y),
        (None, None) => Some(Ordering::Equal),
        (None, Some(_)) => Some(Ordering::Less),
        (Some(_), None) => Some(Ordering::Greater),
    }
}

/// How the slots of two queues compare from place `i` on: the first difference
/// decides, and of two queues that agree as far as they go the shorter one comes
/// first.
pub open spec fn order_from<A: PartialOrd<B>, B>(a: Queue<A>, b: Queue<B>, i: int) -> Option<
    Ordering,
>
    decreases a.count() - i,
{
    if i >= a.count() {
        if i >= b.count() {
            Some(Ordering::Equal)
        } else {
            Some(Ordering::Less)
        }
    } else if i >= b.count() {
        Some(Ordering::Greater)
    } else {
        match slots_order(a.slot(i), b.slot(i)) {
            Some(Ordering::Equal) => order_from(a, b, i + 1),
            decided => decided,
        }
    }
}

/// How two sequences of elements compare: the first difference decides, and of
/// two that agree as far as they go the shorter one comes first.
pub open spec fn lexicographic<A: PartialOrd<B>, B>(a: Seq<A>, b: Seq<B>) -> Option<Ordering>
    decreases a.len(),
{
    if a.len() == 0 {
        if b.len() == 0 {
            Some(Ordering::Equal)
        } else {
            Some(Ordering::Less)
        }
    } else if b.len() == 0 {
        Some(Ordering::Greater)
    } else {
        match a[0].partial_cmp_spec(&b[0]) {
            Some(Ordering::Equal) => lexicographic(a.drop_first(), b.drop_first()),
            decided => decided,
        }
    }
}

/// As `lexicographic`, by the total order of the elements.
pub open spec fn lexicographic_total<T: Ord>(a: Seq<T>, b: Seq<T>) -> Ordering
    decreases a.len(),
{
    if a.len() == 0 {
        if b.len() == 0 {
            Ordering::Equal
        } else {
            Ordering::Less
        }
    } else if b.len() == 0 {
        Ordering::Greater
    } else {
        match a[0].cmp_spec(&b[0]) {
            Ordering::Equal => lexicographic_total(a.drop_first(), b.drop_first()),
            decided => decided,
        }
    }
}

/// The first `k` elements of both sequences compare equal.
pub open spec fn agree_up_to<T: Ord>(a: Seq<T>, b: Seq<T>, k: int) -> bool {
    &&& 0 <= k <= a.len()
    &&& k <= b.len()
    &&& forall|i: int| 0 <= i < k ==> (#[trigger] a[i]).cmp_spec(&b[i]) == Ordering::Equal
}

impl<A, B> PartialEq<Queue<B>> for Queue<A> where A: PartialEq<B> {
    /// The queues hold equal elements in the same order.
    fn eq(&self, other: &Queue<B>) -> (r: bool) {
        let len: usize = self.len();
        if len != other.len() {
            return false;
        }
        let mut i: usize = 0;
        while i < len
            invariant
                i <= len,
                len == self.count(),
                len == other.count(),
                A::obeys_eq_spec() ==> forall|j: int|
                    0 <= j < i ==> #[trigger] slots_equal(self.slot(j), other.slot(j)),
            decreases len - i,
        {
            let same: bool = match (self.slot_ref(i), other.slot_ref(i)) {
                (Some(x), Some(y)) => *x == *y,
                (None, None) => true,
                _ => false,
            };
            if !same {
                assert(A::obeys_eq_spec() ==> !slots_equal(self.slot(i as int), other.slot(i as int)));
                return false;
            }
            i = i + 1;
        }
        true
    }
}

impl<A, B> vstd::std_specs::cmp::PartialEqSpecImpl<Queue<B>> for Queue<A> where A: PartialEq<B> {
    open spec fn obeys_eq_spec() -> bool {
        A::obeys_eq_spec()
    }

    open spec fn eq_spec(&self, other: &Queue<B>) -> bool {
        &&& self.count() == other.count()
        &&& forall|i: int|
            0 <= i < self.count() ==> #[trigger] slots_equal(self.slot(i), other.slot(i))
    }
}

impl<T> Eq for Queue<T> where T: Eq {

}

impl<A, B> PartialOrd<Queue<B>> for Queue<A> where A: PartialOrd<B> {
    /// Compares the elements from the first to the last one.
    fn partial_cmp(&self, other: &Queue<B>) -> (r: Option<Ordering>) {
        let len: usize = self.len();
        let other_len: usize = other.len();
        let mut i: usize = 0;
        let ghost mut k: int = 0;
        while i < len && i < other_len
            invariant
                i == k,
                i <= len,
                i <= other_len,
                len == self.count(),
                other_len == other.count(),
                A::obeys_partial_cmp_spec() ==> order_from(*self, *other, 0) == order_from(
                    *self,
                    *other,
                    k,
                ),
            decreases len - i,
        {
            let order = match (self.slot_ref(i), other.slot_ref(i)) {
                (Some(x), Some(y)) => x.partial_cmp(y),
                (None, None) => Some(Ordering::Equal),
                (None, Some(_)) => Some(Ordering::Less),
                (Some(_), None) => Some(Ordering::Greater),
            };
            match order {
                Some(Ordering::Equal) => {},
                _ => {
                    return order;
                },
            }
            i = i + 1;
            proof {
                k = k + 1;
            }
        }
        if i < len {
            Some(Ordering::Greater)
        } else if i < other_len {
            Some(Ordering::Less)
        } else {
            Some(Ordering::Equal)
        }
    }
}

impl<A, B> vstd::std_specs::cmp::PartialOrdSpecImpl<Queue<B>> for Queue<A> where A: PartialOrd<B> {
    open spec fn obeys_partial_cmp_spec() -> bool {
        A::obeys_partial_cmp_spec()
    }

    open spec fn partial_cmp_spec(&self, other: &Queue<B>) -> Option<Ordering> {
        order_from(*self, *other, 0)
    }
}


impl<T: Ord> Queue<T> {
    /// Compares the elements from the first to the last one by their total order.
    pub fn cmp(&self, other: &Self) -> (r: Ordering)
        requires
            self.wf(),
            other.wf(),
        ensures
            T::obeys_cmp_spec() ==> r == lexicographic_total(self@, other@),
            T::obeys_cmp_spec() ==> match r {
                // all elements agree
                Ordering::Equal => {
                    &&& self@.len() == other@.len()
                    &&& forall|i: int|
                        0 <= i < self@.len() ==> (#[trigger] self@[i]).cmp_spec(&other@[i])
                            == Ordering::Equal
                },
                // they agree up to one that comes first, or to the end of this queue
                Ordering::Less => exists|k: int| #[trigger]
                    agree_up_to(self@, other@, k) && k < other@.len() && (k < self@.len()
                        ==> self@[k].cmp_spec(&other@[k]) == Ordering::Less),
                // they agree up to one that comes after, or to the end of the other queue
                Ordering::Greater => exists|k: int| #[trigger]
                    agree_up_to(self@, other@, k) && k < self@.len() && (k < other@.len()
                        ==> self@[k].cmp_spec(&other@[k]) == Ordering::Greater),
            },
    {
        let mut rest = self.iter();
        let mut other_rest = other.iter();
        let mut len: usize = rest.len();
        loop
            invariant
                len == rest.remaining().len(),
                T::obeys_cmp_spec() ==> lexicographic_total(self@, other@) == lexicographic_total(
                    rest.remaining(),
                    other_rest.remaining(),
                ),
            decreases len,
        {
            proof {
                lemma_first_difference(self@, other@);
            }
            match (rest.next(), other_rest.next()) {
                (None, None) => {
                    return Ordering::Equal;
                },
                (None, Some(_)) => {
                    return Ordering::Less;
                },
                (Some(_), None) => {
                    return Ordering::Greater;
                },
                (Some(x), Some(y)) => match x.cmp(y) {
                    Ordering::Equal => {},
                    decided => {
                        return decided;
                    },
                },
            }
            len = rest.len();
        }
    }
}

/// Two queues are equal when they hold equally many elements and these are equal
/// place by place.
pub proof fn lemma_equal_elements<A: PartialEq<B>, B>(a: Queue<A>, b: Queue<B>)
    requires
        a.wf(),
        b.wf(),
    ensures
        a.eq_spec(&b) <==> {
            &&& a@.len() == b@.len()
            &&& forall|i: int| 0 <= i < a@.len() ==> (#[trigger] a@[i]).eq_spec(&b@[i])
        },
{
    a.lemma_slots();
    b.lemma_slots();
    if a.eq_spec(&b) {
        assert forall|i: int| 0 <= i < a@.len() implies (#[trigger] a@[i]).eq_spec(&b@[i]) by {
            assert(slots_equal(a.slot(i), b.slot(i)));
        }
    }
    if a@.len() == b@.len() && forall|i: int|
        0 <= i < a@.len() ==> (#[trigger] a@[i]).eq_spec(&b@[i]) {
        assert forall|i: int| 0 <= i < a.count() implies #[trigger] slots_equal(
            a.slot(i),
            b.slot(i),
        ) by {
            assert(a@[i].eq_spec(&b@[i]));
        }
    }
}

/// What testing two queues for equality gives: whether they hold equally many
/// elements, equal place by place.
pub proof fn lemma_equality_test<A: PartialEq<B>, B>(a: Queue<A>, b: Queue<B>, r: bool)
    requires
        a.wf(),
        b.wf(),
        A::obeys_eq_spec(),
        call_ensures(Queue::<A>::eq, (&a, &b), r),
    ensures
        r <==> {
            &&& a@.len() == b@.len()
            &&& forall|i: int| 0 <= i < a@.len() ==> (#[trigger] a@[i]).eq_spec(&b@[i])
        },
{
    lemma_equal_elements(a, b);
}

/// What comparing two queues gives: how the first elements that do not compare
/// equal compare, or, where there are none, which queue is shorter.
pub proof fn lemma_comparison<A: PartialOrd<B>, B>(
    a: Queue<A>,
    b: Queue<B>,
    order: Option<Ordering>,
)
    requires
        a.wf(),
        b.wf(),
        A::obeys_partial_cmp_spec(),
        call_ensures(Queue::<A>::partial_cmp, (&a, &b), order),
    ensures
        exists|k: int|
            {
                &&& #[trigger] agree_partially_up_to(a@, b@, k)
                &&& k < a@.len() && k < b@.len() ==> order != Some(Ordering::Equal) && order
                    == a@[k].partial_cmp_spec(&b@[k])
                &&& k == a@.len() && k < b@.len() ==> order == Some(Ordering::Less)
                &&& k < a@.len() && k == b@.len() ==> order == Some(Ordering::Greater)
                &&& k == a@.len() && k == b@.len() ==> order == Some(Ordering::Equal)
            },
{
    lemma_first_difference_decides(a, b, order);
}

/// Queues compare as the sequences of their elements do.
pub proof fn lemma_order_of_elements<A: PartialOrd<B>, B>(a: Queue<A>, b: Queue<B>)
    requires
        a.wf(),
        b.wf(),
    ensures
        a.partial_cmp_spec(&b) == lexicographic(a@, b@),
{
    assert(a@.skip(0) =~= a@);
    assert(b@.skip(0) =~= b@);
    lemma_order_of_rest(a, b, 0);
}

proof fn lemma_order_of_rest<A: PartialOrd<B>, B>(a: Queue<A>, b: Queue<B>, i: int)
    requires
        a.wf(),
        b.wf(),
        0 <= i <= a@.len(),
        i <= b@.len(),
    ensures
        order_from(a, b, i) == lexicographic(a@.skip(i), b@.skip(i)),
    decreases a@.len() - i,
{
    a.lemma_slots();
    b.lemma_slots();
    if i < a@.len() && i < b@.len() {
        assert(a@.skip(i).drop_first() =~= a@.skip(i + 1));
        assert(b@.skip(i).drop_first() =~= b@.skip(i + 1));
        assert(a.slot(i) == Some(a@[i]));
        assert(b.slot(i) == Some(b@[i]));
        lemma_order_of_rest(a, b, i + 1);
    }
}

/// The first difference decides, and it is the only thing that does: up to it the
/// elements agree, and it is there unless all elements do.
proof fn lemma_first_difference<T: Ord>(a: Seq<T>, b: Seq<T>)
    ensures
        match lexicographic_total(a, b) {
            Ordering::Equal => a.len() == b.len() && agree_up_to(a, b, a.len() - 0),
            Ordering::Less => exists|k: int| #[trigger]
                agree_up_to(a, b, k) && k < b.len() && (k < a.len() ==> a[k].cmp_spec(&b[k])
                    == Ordering::Less),
            Ordering::Greater => exists|k: int| #[trigger]
                agree_up_to(a, b, k) && k < a.len() && (k < b.len() ==> a[k].cmp_spec(&b[k])
                    == Ordering::Greater),
        },
    decreases a.len(),
{
    if a.len() == 0 || b.len() == 0 {
        assert(agree_up_to(a, b, 0));
    } else if a[0].cmp_spec(&b[0]) != Ordering::Equal {
        assert(agree_up_to(a, b, 0));
    } else {
        let x = a.drop_first();
        let y = b.drop_first();
        lemma_first_difference(x, y);
        assert forall|k: int| #[trigger] agree_up_to(x, y, k) implies agree_up_to(a, b, k + 1) by {
            assert forall|i: int| 0 <= i < k + 1 implies (#[trigger] a[i]).cmp_spec(&b[i])
                == Ordering::Equal by {
                if i > 0 {
                    assert(x[i - 1].cmp_spec(&y[i - 1]) == Ordering::Equal);
                }
            }
        }
        if lexicographic_total(a, b) == Ordering::Less {
            let k = choose|k: int| #[trigger]
                agree_up_to(x, y, k) && k < y.len() && (k < x.len() ==> x[k].cmp_spec(&y[k])
                    == Ordering::Less);
            assert(agree_up_to(a, b, k + 1));
        }
        if lexicographic_total(a, b) == Ordering::Greater {
            let k = choose|k: int| #[trigger]
                agree_up_to(x, y, k) && k < x.len() && (k < y.len() ==> x[k].cmp_spec(&y[k])
                    == Ordering::Greater);
            assert(agree_up_to(a, b, k + 1));
        }
        if lexicographic_total(a, b) == Ordering::Equal {
            assert(agree_up_to(x, y, x.len() - 0));
        }
    }
}

/// The first `k` elements of both sequences compare equal by their partial order.
pub open spec fn agree_partially_up_to<A: PartialOrd<B>, B>(a: Seq<A>, b: Seq<B>, k: int) -> bool {
    &&& 0 <= k <= a.len()
    &&& k <= b.len()
    &&& forall|i: int|
        0 <= i < k ==> (#[trigger] a[i]).partial_cmp_spec(&b[i]) == Some(Ordering::Equal)
}

proof fn lemma_first_partial_difference<A: PartialOrd<B>, B>(a: Seq<A>, b: Seq<B>) -> (k: int)
    ensures
        agree_partially_up_to(a, b, k),
        lexicographic(a, b) == if k < a.len() && k < b.len() {
            a[k].partial_cmp_spec(&b[k])
        } else if k < b.len() {
            Some(Ordering::Less)
        } else if k < a.len() {
            Some(Ordering::Greater)
        } else {
            Some(Ordering::Equal)
        },
        k < a.len() && k < b.len() ==> a[k].partial_cmp_spec(&b[k]) != Some(Ordering::Equal),
    decreases a.len(),
{
    if a.len() == 0 || b.len() == 0 || a[0].partial_cmp_spec(&b[0]) != Some(Ordering::Equal) {
        0
    } else {
        let x = a.drop_first();
        let y = b.drop_first();
        let k = lemma_first_partial_difference(x, y);
        assert forall|i: int| 0 <= i < k + 1 implies (#[trigger] a[i]).partial_cmp_spec(&b[i])
            == Some(Ordering::Equal) by {
            if i > 0 {
                assert(x[i - 1].partial_cmp_spec(&y[i - 1]) == Some(Ordering::Equal));
            }
        }
        k + 1
    }
}

/// Queues compare by the first place at which their elements do not compare equal.
/// Where there is no such place, the shorter queue comes first.
pub proof fn lemma_first_difference_decides<A: PartialOrd<B>, B>(
    a: Queue<A>,
    b: Queue<B>,
    order: Option<Ordering>,
)
    requires
        a.wf(),
        b.wf(),
        A::obeys_partial_cmp_spec(),
        a.partial_cmp_spec(&b) == order,
    ensures
        exists|k: int|
            {
                &&& #[trigger] agree_partially_up_to(a@, b@, k)
                &&& k < a@.len() && k < b@.len() ==> order != Some(Ordering::Equal) && order
                    == a@[k].partial_cmp_spec(&b@[k])
                &&& k == a@.len() && k < b@.len() ==> order == Some(Ordering::Less)
                &&& k < a@.len() && k == b@.len() ==> order == Some(Ordering::Greater)
                &&& k == a@.len() && k == b@.len() ==> order == Some(Ordering::Equal)
            },
{
    lemma_order_of_elements(a, b);
    let k = lemma_first_partial_difference(a@, b@);
    assert(agree_partially_up_to(a@, b@, k));
}

/// The other way round.
pub open spec fn reversed(order: Ordering) -> Ordering {
    match order {
        Ordering::Less => Ordering::Greater,
        Ordering::Equal => Ordering::Equal,
        Ordering::Greater => Ordering::Less,
    }
}

proof fn lemma_lexicographic_reverses<T: Ord>(a: Seq<T>, b: Seq<T>)
    requires
        obeys_cmp::<T>(),
    ensures
        lexicographic_total(b, a) == reversed(lexicographic_total(a, b)),
        lexicographic(a, b) == Some(lexicographic_total(a, b)),
    decreases a.len(),
{
    reveal(obeys_cmp_ord);
    reveal(obeys_partial_cmp_spec_properties);
    if a.len() > 0 && b.len() > 0 {
        let x = a[0];
        let y = b[0];
        assert(x.partial_cmp_spec(&y) == Some(x.cmp_spec(&y)));
        assert(y.partial_cmp_spec(&x) == Some(y.cmp_spec(&x)));
        lemma_lexicographic_reverses(a.drop_first(), b.drop_first());
    }
}

/// Comparing two queues the other way round reverses the result.
pub proof fn lemma_comparison_reverses<T: Ord>(
    a: Queue<T>,
    b: Queue<T>,
    there: Ordering,
    back: Ordering,
)
    requires
        obeys_cmp::<T>(),
        call_ensures(Queue::<T>::cmp, (&a, &b), there),
        call_ensures(Queue::<T>::cmp, (&b, &a), back),
    ensures
        there == Ordering::Less <==> back == Ordering::Greater,
        there == Ordering::Equal <==> back == Ordering::Equal,
        there == Ordering::Greater <==> back == Ordering::Less,
{
    reveal(obeys_cmp_ord);
    lemma_lexicographic_reverses(a@, b@);
}

/// The total comparison of two queues agrees with the partial one.
pub proof fn lemma_comparisons_agree<T: Ord>(a: Queue<T>, b: Queue<T>, order: Ordering)
    requires
        obeys_cmp::<T>(),
        a.wf(),
        b.wf(),
        call_ensures(Queue::<T>::cmp, (&a, &b), order),
    ensures
        a.partial_cmp_spec(&b) == Some(order),
{
    reveal(obeys_cmp_ord);
    lemma_lexicographic_reverses(a@, b@);
    lemma_order_of_elements(a, b);
}

/// A queue whose elements are the first ones of another queue comes before it, and
/// the longer one comes after it.
pub proof fn lemma_prefix_comes_first<T: Ord>(
    a: Queue<T>,
    b: Queue<T>,
    there: Ordering,
    back: Ordering,
)
    requires
        obeys_cmp::<T>(),
        a.wf(),
        b.wf(),
        a@.len() < b@.len(),
        a@.is_prefix_of(b@),
        call_ensures(Queue::<T>::cmp, (&a, &b), there),
        call_ensures(Queue::<T>::cmp, (&b, &a), back),
    ensures
        there == Ordering::Less,
        back == Ordering::Greater,
        a.partial_cmp_spec(&b) == Some(Ordering::Less),
        b.partial_cmp_spec(&a) == Some(Ordering::Greater),
{
    reveal(obeys_cmp_ord);
    reveal(obeys_cmp_partial_ord);
    reveal(obeys_partial_cmp_spec_properties);
    reveal(obeys_eq_spec_properties);
    assert forall|i: int| 0 <= i < a@.len() implies (#[trigger] a@[i]).cmp_spec(&b@[i])
        == Ordering::Equal by {
        let x = a@[i];
        assert(x == b@[i]);
        assert(x.eq_spec(&x));
        assert(x.partial_cmp_spec(&x) == Some(x.cmp_spec(&x)));
    }
    lemma_comparison_reverses(a, b, there, back);
    lemma_comparisons_agree(a, b, there);
    lemma_comparisons_agree(b, a, back);
}

/// Three queues: one that comes before a second one, which comes before a third
/// one, comes before the third one.
pub proof fn lemma_comparison_is_transitive<T: Ord>(
    a: Queue<T>,
    b: Queue<T>,
    c: Queue<T>,
    ac: Ordering,
)
    requires
        obeys_cmp::<T>(),
        call_ensures(Queue::<T>::cmp, (&a, &b), Ordering::Less),
        call_ensures(Queue::<T>::cmp, (&b, &c), Ordering::Less),
        call_ensures(Queue::<T>::cmp, (&a, &c), ac),
    ensures
        ac == Ordering::Less,
{
    reveal(obeys_cmp_ord);
    lemma_lexicographic_is_transitive(a@, b@, c@);
}

proof fn lemma_lexicographic_is_transitive<T: Ord>(a: Seq<T>, b: Seq<T>, c: Seq<T>)
    requires
        obeys_cmp::<T>(),
    ensures
        lexicographic_total(a, b) == Ordering::Less && lexicographic_total(b, c) == Ordering::Less
            ==> lexicographic_total(a, c) == Ordering::Less,
    decreases a.len(),
{
    reveal(obeys_cmp_ord);
    reveal(obeys_cmp_partial_ord);
    reveal(obeys_partial_cmp_spec_properties);
    reveal(obeys_eq_spec_properties);
    if a.len() > 0 && b.len() > 0 && c.len() > 0 {
        let x = a[0];
        let y = b[0];
        let z = c[0];
        assert(x.partial_cmp_spec(&y) == Some(x.cmp_spec(&y)));
        assert(y.partial_cmp_spec(&z) == Some(y.cmp_spec(&z)));
        assert(x.partial_cmp_spec(&z) == Some(x.cmp_spec(&z)));
        lemma_lexicographic_is_transitive(a.drop_first(), b.drop_first(), c.drop_first());
    }
}

}
