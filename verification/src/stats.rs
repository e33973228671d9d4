//! The running statistic of one key.
//!
//! The smallest and the largest value, the exact sum and the count. The mean
//! is the sum divided by the count, so it is the true arithmetic mean whatever
//! the order in which the values came.

use crate::decimal::Decimal;
use crate::error::Error;
use vstd::arithmetic::div_mod::{
    lemma_div_is_ordered, lemma_div_multiples_vanish, lemma_fundamental_div_mod_converse,
};
use vstd::prelude::*;
use vstd::seq_lib::lemma_fold_left_permutation;

verus! {

/// What a statistic says of the values it has seen, as mathematical integers
/// in units.
pub ghost struct Summary {
    pub min: int,
    pub max: int,
    pub sum: int,
    pub count: nat,
}

/// The smaller of two integers.
pub open spec fn lesser(a: int, b: int) -> int {
    if a <= b {
        a
    } else {
        b
    }
}

/// The larger of two integers.
pub open spec fn greater(a: int, b: int) -> int {
    if a >= b {
        a
    } else {
        b
    }
}

impl Summary {
    /// The summary of one value.
    pub open spec fn single(v: int) -> Summary {
        Summary { min: v, max: v, sum: v, count: 1 }
    }

    /// The summary after one more value.
    pub open spec fn absorb(self, v: int) -> Summary {
        Summary {
            min: lesser(self.min, v),
            max: greater(self.max, v),
            sum: self.sum + v,
            count: self.count + 1,
        }
    }

    /// The summary of two disjoint groups of values taken together.
    pub open spec fn combine(self, other: Summary) -> Summary {
        Summary {
            min: lesser(self.min, other.min),
            max: greater(self.max, other.max),
            sum: self.sum + other.sum,
            count: self.count + other.count,
        }
    }

    /// The mean, rounded down to a whole unit.
    pub open spec fn mean_floor(self) -> int {
        self.sum / (self.count as int)
    }
}

/// One step of summing up: the summary so far, if any, and one more value.
pub open spec fn absorb_into(acc: Option<Summary>, v: int) -> Option<Summary> {
    Some(
        match acc {
            None => Summary::single(v),
            Some(s) => s.absorb(v),
        },
    )
}

/// `absorb_into` as a function value, for folding.
pub open spec fn absorb_step() -> spec_fn(Option<Summary>, int) -> Option<Summary> {
    |acc: Option<Summary>, v: int| absorb_into(acc, v)
}

/// Two summaries, either of which may be missing, taken together.
pub open spec fn combine_into(a: Option<Summary>, b: Option<Summary>) -> Option<Summary> {
    match (a, b) {
        (None, _) => b,
        (_, None) => a,
        (Some(x), Some(y)) => Some(x.combine(y)),
    }
}

/// The summary of a sequence of values, taken one after the other; none for
/// the empty sequence.
pub open spec fn summary_of(values: Seq<int>) -> Option<Summary> {
    values.fold_left(None, absorb_step())
}

/// The sum of a sequence of values.
pub open spec fn total(values: Seq<int>) -> int
    decreases values.len(),
{
    if values.len() == 0 {
        0
    } else {
        total(values.drop_last()) + values.last()
    }
}

/// One more value at the end is one more step.
pub proof fn lemma_summary_push(values: Seq<int>, v: int)
    ensures
        summary_of(values.push(v)) == absorb_into(summary_of(values), v),
{
    assert(values.push(v).drop_last() =~= values);
}

/// What the summary of a non-empty sequence holds: a value of the sequence
/// that none is below, one that none is above, the sum of all and their
/// number.
pub proof fn lemma_summary_meaning(values: Seq<int>)
    requires
        values.len() > 0,
    ensures
        summary_of(values) is Some,
        values.contains(summary_of(values).unwrap().min),
        values.contains(summary_of(values).unwrap().max),
        forall|i: int|
            0 <= i < values.len() ==> summary_of(values).unwrap().min <= #[trigger] values[i]
                && values[i] <= summary_of(values).unwrap().max,
        summary_of(values).unwrap().sum == total(values),
        summary_of(values).unwrap().count == values.len(),
    decreases values.len(),
{
    let front = values.drop_last();
    let s = summary_of(values).unwrap();
    if front.len() == 0 {
        assert(summary_of(front) is None);
        assert(values[0] == s.min);
        assert(total(front) == 0);
    } else {
        lemma_summary_meaning(front);
        let f = summary_of(front).unwrap();
        assert(front.contains(f.min) && front.contains(f.max));
        let i_min = choose|i: int| 0 <= i < front.len() && front[i] == f.min;
        let i_max = choose|i: int| 0 <= i < front.len() && front[i] == f.max;
        assert(values[i_min] == f.min);
        assert(values[i_max] == f.max);
        assert(values[values.len() - 1] == values.last());
        assert forall|i: int| 0 <= i < values.len() implies s.min <= #[trigger] values[i]
            && values[i] <= s.max by {
            if i < front.len() {
                assert(values[i] == front[i]);
            }
        }
    }
}

/// The order of arrival does not matter: two sequences that hold the same
/// values equally often have the same summary.
pub proof fn lemma_order_is_irrelevant(a: Seq<int>, b: Seq<int>)
    requires
        a.to_multiset() == b.to_multiset(),
    ensures
        summary_of(a) == summary_of(b),
{
    let f = absorb_step();
    assert forall|x: int, y: int, acc: Option<Summary>| #[trigger]
        f(f(acc, x), y) == f(f(acc, y), x) by {}
    lemma_fold_left_permutation(a, b, f, None);
}

/// Summing up two sequences apart and combining the results gives the summary
/// of the two taken together.
pub proof fn lemma_combine_is_concatenation(a: Seq<int>, b: Seq<int>)
    ensures
        summary_of(a + b) == combine_into(summary_of(a), summary_of(b)),
    decreases b.len(),
{
    if b.len() == 0 {
        assert(a + b =~= a);
    } else {
        let front = b.drop_last();
        lemma_combine_is_concatenation(a, front);
        assert((a + b).drop_last() =~= a + front);
        assert((a + b).last() == b.last());
    }
}

/// The running statistic of one key: values in units of the fixed-point type.
#[derive(Clone, Copy, Debug, PartialEq, Eq, Structural)]
pub struct Statistic {
    pub min: Decimal,
    pub max: Decimal,
    pub sum: i128,
    pub count: u64,
}

impl View for Statistic {
    type V = Summary;

    open spec fn view(&self) -> Summary {
        Summary {
            min: self.min.value(),
            max: self.max.value(),
            sum: self.sum as int,
            count: self.count as nat,
        }
    }
}

impl Statistic {
    /// At least one value was seen, and the sum lies between the count times
    /// the smallest and the count times the largest.
    pub open spec fn wf(&self) -> bool {
        &&& self.count >= 1
        &&& self.min.scaled <= self.max.scaled
        &&& self.count * self.min.scaled <= self.sum <= self.count * self.max.scaled
    }

    /// The statistic of a key on its first sighting.
    pub fn first(value: Decimal) -> (stat: Statistic)
        ensures
            stat@ == Summary::single(value.value()),
            stat.wf(),
    {
        Statistic { min: value, max: value, sum: value.scaled as i128, count: 1 }
    }

    /// Takes one more value in. The count is the one thing that can run out.
    pub fn update(&mut self, value: Decimal) -> (res: Result<(), Error>)
        requires
            old(self).wf(),
        ensures
            final(self).wf(),
            old(self).count < u64::MAX ==> res is Ok && final(self)@ == old(self)@.absorb(
                value.value(),
            ),
            old(self).count == u64::MAX ==> res == Err::<(), Error>(Error::CountOverflow) && *final(self) == *old(self),
    {
        if self.count == u64::MAX {
            return Err(Error::CountOverflow);
        }
        let ghost c = self.count as int;
        let ghost lo = self.min.scaled as int;
        let ghost hi = self.max.scaled as int;
        let ghost v = value.scaled as int;
        proof {
            assert(c * lo >= c * (-0x8000_0000_0000_0000)) by (nonlinear_arith)
                requires
                    c >= 1,
                    lo >= -0x8000_0000_0000_0000,
            ;
            assert(c * hi <= c * 0x7fff_ffff_ffff_ffff) by (nonlinear_arith)
                requires
                    c >= 1,
                    hi <= 0x7fff_ffff_ffff_ffff,
            ;
            assert((c + 1) * lesser(lo, v) <= c * lo + v) by (nonlinear_arith)
                requires
                    c >= 1,
                    lesser(lo, v) <= lo,
                    lesser(lo, v) <= v,
            ;
            assert((c + 1) * greater(hi, v) >= c * hi + v) by (nonlinear_arith)
                requires
                    c >= 1,
                    greater(hi, v) >= hi,
                    greater(hi, v) >= v,
            ;
        }
        if value.scaled < self.min.scaled {
            self.min = value;
        }
        if value.scaled > self.max.scaled {
            self.max = value;
        }
        self.sum = self.sum + value.scaled as i128;
        self.count = self.count + 1;
        Ok(())
    }

    /// Takes in what another statistic has seen of the same key.
    pub fn merge(&mut self, other: &Statistic) -> (res: Result<(), Error>)
        requires
            old(self).wf(),
            other.wf(),
        ensures
            final(self).wf(),
            old(self).count + other.count <= u64::MAX ==> res is Ok && final(self)@ == old(self)@.combine(other@),
            old(self).count + other.count > u64::MAX ==> res == Err::<(), Error>(
                Error::CountOverflow,
            ) && *final(self) == *old(self),
    {
        if other.count > u64::MAX - self.count {
            return Err(Error::CountOverflow);
        }
        let ghost c1 = self.count as int;
        let ghost c2 = other.count as int;
        let ghost lo1 = self.min.scaled as int;
        let ghost lo2 = other.min.scaled as int;
        let ghost hi1 = self.max.scaled as int;
        let ghost hi2 = other.max.scaled as int;
        proof {
            let lo = lesser(lo1, lo2);
            let hi = greater(hi1, hi2);
            assert((c1 + c2) * lo <= c1 * lo1 + c2 * lo2) by (nonlinear_arith)
                requires
                    c1 >= 1,
                    c2 >= 1,
                    lo <= lo1,
                    lo <= lo2,
            ;
            assert((c1 + c2) * hi >= c1 * hi1 + c2 * hi2) by (nonlinear_arith)
                requires
                    c1 >= 1,
                    c2 >= 1,
                    hi >= hi1,
                    hi >= hi2,
            ;
            assert((c1 + c2) * lo >= (c1 + c2) * (-0x8000_0000_0000_0000)) by (nonlinear_arith)
                requires
                    c1 + c2 >= 1,
                    lo >= -0x8000_0000_0000_0000,
            ;
            assert((c1 + c2) * hi <= (c1 + c2) * 0x7fff_ffff_ffff_ffff) by (nonlinear_arith)
                requires
                    c1 + c2 >= 1,
                    hi <= 0x7fff_ffff_ffff_ffff,
            ;
        }
        if other.min.scaled < self.min.scaled {
            self.min = other.min;
        }
        if other.max.scaled > self.max.scaled {
            self.max = other.max;
        }
        self.sum = self.sum + other.sum;
        self.count = self.count + other.count;
        Ok(())
    }

    /// The mean of the values seen, rounded down to a whole unit. It lies
    /// between the smallest and the largest value.
    pub fn mean(&self) -> (m: Decimal)
        requires
            self.wf(),
        ensures
            m.value() == self@.mean_floor(),
            self.min.value() <= m.value() <= self.max.value(),
    {
        let ghost c = self.count as int;
        let ghost s = self.sum as int;
        proof {
            lemma_div_is_ordered(c * self.min.scaled, s, c);
            lemma_div_is_ordered(s, c * self.max.scaled, c);
            lemma_div_multiples_vanish(self.min.scaled as int, c);
            lemma_div_multiples_vanish(self.max.scaled as int, c);
        }
        let count = self.count as u128;
        if self.sum >= 0 {
            let q = (self.sum as u128) / count;
            Decimal { scaled: q as i64 }
        } else {
            let below: u128 = (-(self.sum + 1)) as u128;
            let q = below / count;
            let ghost r = (below % count) as int;
            proof {
                assert(below as int == (q as int) * c + r) by {
                    vstd::arithmetic::div_mod::lemma_fundamental_div_mod(below as int, c);
                    assert(c * (q as int) == (q as int) * c) by (nonlinear_arith);
                }
                assert(s == (-(q as int) - 1) * c + (c - 1 - r)) by (nonlinear_arith)
                    requires
                        s == -(below as int) - 1,
                        below as int == (q as int) * c + r,
                ;
                lemma_fundamental_div_mod_converse(s, c, -(q as int) - 1, c - 1 - r);
            }
            Decimal { scaled: (-(q as i128) - 1) as i64 }
        }
    }
}

} // verus!
