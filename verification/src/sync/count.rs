//! A count that goes on as long as there is memory to write it down.
//!
//! An operation that others interfere with is tried again, however often that
//! takes. The attempts are counted here, so that what is left to count is a
//! measure of the loop that tries again.

use vstd::prelude::*;

verus! {

/// How many values a digit has.
pub open spec fn digit_values() -> nat {
    0x1_0000_0000_0000_0000
}

/// How many numbers can be written with so many digits.
pub open spec fn numbers(digits: nat) -> nat
    decreases digits,
{
    if digits == 0 {
        1
    } else {
        digit_values() * numbers((digits - 1) as nat)
    }
}

/// The number that digits stand for, the lowest digit first.
pub open spec fn number(digits: Seq<u64>) -> nat
    decreases digits.len(),
{
    if digits.len() == 0 {
        0
    } else {
        digits[0] as nat + digit_values() * number(digits.drop_first())
    }
}

/// The digits of the next number.
spec fn next_digits(digits: Seq<u64>) -> Seq<u64>
    decreases digits.len(),
{
    if digits.len() == 0 {
        seq![1u64]
    } else if digits[0] < u64::MAX {
        digits.update(0, (digits[0] + 1) as u64)
    } else {
        seq![0u64] + next_digits(digits.drop_first())
    }
}

proof fn lemma_next_number(digits: Seq<u64>)
    ensures
        number(next_digits(digits)) == number(digits) + 1,
    decreases digits.len(),
{
    reveal_with_fuel(number, 2);
    let next = next_digits(digits);
    if digits.len() == 0 {
        assert(next.drop_first() =~= Seq::<u64>::empty());
    } else if digits[0] < u64::MAX {
        assert(next.drop_first() =~= digits.drop_first());
    } else {
        lemma_next_number(digits.drop_first());
        assert(next.drop_first() =~= next_digits(digits.drop_first()));
        let rest = number(digits.drop_first());
        assert(digit_values() * (rest + 1) == digit_values() * rest + digit_values())
            by (nonlinear_arith);
    }
}

proof fn lemma_number_fits(digits: Seq<u64>)
    ensures
        number(digits) < numbers(digits.len()),
    decreases digits.len(),
{
    if digits.len() > 0 {
        lemma_number_fits(digits.drop_first());
        let rest = number(digits.drop_first());
        let room = numbers((digits.len() - 1) as nat);
        assert(digit_values() * rest + digit_values() <= digit_values() * room) by (nonlinear_arith)
            requires
                rest + 1 <= room,
        ;
    }
}

proof fn lemma_numbers_grow(fewer: nat, more: nat)
    requires
        fewer <= more,
    ensures
        numbers(fewer) <= numbers(more),
    decreases more,
{
    if fewer < more {
        lemma_numbers_grow(fewer, (more - 1) as nat);
        let room = numbers((more - 1) as nat);
        assert(room <= digit_values() * room) by (nonlinear_arith)
            requires
                digit_values() >= 1,
                room >= 0,
        ;
    }
}

/// A count. Memory is taken only once a single digit does not suffice.
pub struct Count {
    low: u64,
    high: Vec<u64>,
}

impl Count {
    /// The number that was counted.
    pub closed spec fn view(&self) -> nat {
        number(seq![self.low] + self.high@)
    }

    /// The numbers that could be written down if all memory were digits.
    pub open spec fn limit() -> nat {
        numbers(usize::MAX as nat + 1)
    }

    /// How far the count can go on.
    pub open spec fn left(&self) -> int {
        Count::limit() - self@
    }

    /// A count of nothing.
    pub fn new() -> (c: Self)
        ensures
            c@ == 0,
    {
        let c = Count { low: 0, high: Vec::new() };
        proof {
            reveal_with_fuel(number, 2);
            assert((seq![c.low] + c.high@).drop_first() =~= Seq::<u64>::empty());
        }
        c
    }

    /// There are always digits left: a vector is never longer than an index can count.
    pub proof fn lemma_goes_on(&self)
        ensures
            self@ < Count::limit(),
            self.left() > 0,
    {
        let digits = seq![self.low] + self.high@;
        assert(self.high.len() <= usize::MAX);
        lemma_number_fits(digits);
        lemma_numbers_grow(digits.len(), usize::MAX as nat + 1);
    }

    /// Counts one more.
    pub fn increment(&mut self)
        ensures
            final(self)@ == old(self)@ + 1,
            0 < final(self).left() < old(self).left(),
    {
        let ghost before = seq![self.low] + self.high@;
        proof {
            lemma_next_number(before);
        }
        if self.low < u64::MAX {
            self.low = self.low + 1;
            assert(seq![self.low] + self.high@ =~= next_digits(before));
        } else {
            self.low = 0;
            self.carry();
            assert(before.drop_first() =~= old(self).high@);
            assert(seq![self.low] + self.high@ =~= next_digits(before));
        }
        proof {
            self.lemma_goes_on();
        }
    }

    /// Counts the digits after the lowest one up.
    fn carry(&mut self)
        ensures
            final(self).low == old(self).low,
            final(self).high@ == next_digits(old(self).high@),
    {
        let ghost digits = self.high@;
        let mut i: usize = 0;
        assert(digits.skip(0) =~= digits);
        while i < self.high.len() && self.high[i] == u64::MAX
            invariant
                i <= self.high.len(),
                self.low == old(self).low,
                self.high@.len() == digits.len(),
                forall|k: int| 0 <= k < i ==> self.high@[k] == 0,
                forall|k: int| i <= k < digits.len() ==> self.high@[k] == digits[k],
                next_digits(digits).len() == i + next_digits(digits.skip(i as int)).len(),
                forall|k: int| 0 <= k < i ==> next_digits(digits)[k] == 0,
                forall|k: int|
                    i <= k < next_digits(digits).len() ==> #[trigger] next_digits(digits)[k]
                        == next_digits(digits.skip(i as int))[k - i],
            decreases self.high.len() - i,
        {
            proof {
                assert(digits.skip(i as int).drop_first() =~= digits.skip(i + 1));
            }
            self.high[i] = 0;
            i = i + 1;
        }
        if i < self.high.len() {
            let digit: u64 = self.high[i];
            self.high[i] = digit + 1;
        } else {
            self.high.push(1);
        }
        assert(self.high@ =~= next_digits(digits));
    }
}

}
