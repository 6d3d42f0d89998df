//! The distribution of a list of equally likely outcomes.

use crate::error::DiceError;
use crate::table::Table;
use crate::tally::{
    count_at_least, count_at_most, highest, is_highest, is_lowest, lemma_highest_unique,
    lemma_lowest_unique, lemma_moment_next, lemma_sum_grows, lemma_sum_next, lemma_tally_all,
    lemma_tally_bounded, lemma_tally_next, lemma_tally_none, lemma_tally_some,
    lemma_tally_split, lemma_variance_nonnegative, lowest, moment, occurrences, power,
    scaled_variance, sum_of,
};
use vstd::prelude::*;

verus! {

/// The three histograms of a list of outcomes: for each value from the
/// lowest outcome to the highest, how many outcomes are exactly, at least
/// and at most that value.
#[derive(Debug)]
pub struct Distribution {
    values: Vec<u32>,
    at_least: Vec<u32>,
    at_most: Vec<u32>,
    /// The number of possible outcomes in the distribution.
    total_permutations: u32,
    /// The minimum value in the distribution.
    min: u32,
}

/// The outcomes `o` cannot be counted: there are more of them than a `u32`
/// holds, or more values from their lowest to their highest than a `usize`
/// holds.
pub open spec fn exceeds_limits(o: Seq<u32>) -> bool {
    o.len() > u32::MAX || highest(o) - lowest(o) >= usize::MAX
}

impl Distribution {
    /// The lowest outcome.
    pub closed spec fn lowest(&self) -> u32 {
        self.min
    }

    /// The number of permutations that the distribution was built from.
    pub closed spec fn total(&self) -> u32 {
        self.total_permutations
    }

    /// For each value from the lowest outcome upwards, the number of
    /// outcomes that are equal to it.
    pub closed spec fn exact_counts(&self) -> Seq<u32> {
        self.values@
    }

    /// For each value from the lowest outcome upwards, the number of
    /// outcomes that are at least as large.
    pub closed spec fn at_least_counts(&self) -> Seq<u32> {
        self.at_least@
    }

    /// For each value from the lowest outcome upwards, the number of
    /// outcomes that are at most as large.
    pub closed spec fn at_most_counts(&self) -> Seq<u32> {
        self.at_most@
    }

    /// The number of values from the lowest outcome to the highest.
    pub open spec fn span(&self) -> nat {
        self.exact_counts().len()
    }

    /// The highest outcome.
    pub open spec fn highest(&self) -> int {
        self.lowest() + self.span() - 1
    }

    /// The histograms agree with each other: the lowest and the highest
    /// value both occur, the exact counts add up to the total, each
    /// at-most count is the sum of the exact counts up to its value, and
    /// each at-least count is the total without the exact counts below its
    /// value.
    pub open spec fn wf(&self) -> bool {
        &&& self.span() >= 1
        &&& self.at_least_counts().len() == self.span()
        &&& self.at_most_counts().len() == self.span()
        &&& self.highest() <= u32::MAX
        &&& self.total() > 0
        &&& self.exact_counts()[0] > 0
        &&& self.exact_counts()[self.span() - 1] > 0
        &&& sum_of(self.exact_counts()) == self.total()
        &&& forall|i: int|
            0 <= i < self.span() ==> #[trigger] self.at_most_counts()[i] == sum_of(
                self.exact_counts().take(i + 1),
            )
        &&& forall|i: int|
            0 <= i < self.span() ==> #[trigger] self.at_least_counts()[i] + sum_of(
                self.exact_counts().take(i),
            ) == self.total()
    }

    /// Every distribution that exists is well formed.
    #[verifier::type_invariant]
    closed spec fn inv(&self) -> bool {
        self.wf()
    }

    /// The distribution is that of the outcomes `o`: it runs from their
    /// lowest to their highest value, its total is their number, and each
    /// of its counts is the number of entries of `o` that it stands for.
    pub open spec fn describes(&self, o: Seq<u32>) -> bool {
        &&& is_lowest(o, self.lowest() as int)
        &&& is_highest(o, self.highest())
        &&& self.total() == o.len()
        &&& self.at_least_counts().len() == self.span()
        &&& self.at_most_counts().len() == self.span()
        &&& forall|i: int|
            0 <= i < self.span() ==> #[trigger] self.exact_counts()[i] == occurrences(
                o,
                self.lowest() + i,
            )
        &&& forall|i: int|
            0 <= i < self.span() ==> #[trigger] self.at_least_counts()[i] == count_at_least(
                o,
                self.lowest() + i,
            )
        &&& forall|i: int|
            0 <= i < self.span() ==> #[trigger] self.at_most_counts()[i] == count_at_most(
                o,
                self.lowest() + i,
            )
    }

    /// The number of values from `lo` to `hi`, for a histogram of `n`
    /// outcomes between them. Fails with `Overflow` where `n` is more than
    /// a `u32` holds or that number more than a `usize` holds.
    pub fn histogram_len(lo: u32, hi: u32, n: usize) -> (r: Result<usize, DiceError>)
        requires
            lo <= hi,
        ensures
            n > u32::MAX || hi - lo >= usize::MAX ==> r == Err::<usize, DiceError>(
                DiceError::Overflow,
            ),
            n <= u32::MAX && hi - lo < usize::MAX ==> r == Ok::<usize, DiceError>(
                (hi - lo + 1) as usize,
            ),
    {
        if n > u32::MAX as usize {
            return Err(DiceError::Overflow);
        }
        let steps: usize = (hi - lo) as usize;
        if steps >= usize::MAX {
            return Err(DiceError::Overflow);
        }
        Ok(steps + 1)
    }

    /// The lowest and the highest of the outcomes.
    fn extremes(outcomes: &[u32]) -> (r: (u32, u32))
        requires
            outcomes@.len() > 0,
        ensures
            is_lowest(outcomes@, r.0 as int),
            is_highest(outcomes@, r.1 as int),
            r.0 == lowest(outcomes@),
            r.1 == highest(outcomes@),
    {
        let mut lo: u32 = outcomes[0];
        let mut hi: u32 = outcomes[0];
        let mut k: usize = 1;
        assert(outcomes@.take(1)[0] == lo);
        while k < outcomes.len()
            invariant
                1 <= k <= outcomes@.len(),
                is_lowest(outcomes@.take(k as int), lo as int),
                is_highest(outcomes@.take(k as int), hi as int),
            decreases outcomes@.len() - k,
        {
            let o: u32 = outcomes[k];
            let ghost before = outcomes@.take(k as int);
            let ghost after = outcomes@.take(k + 1);
            let ghost at_lo = choose|i: int| 0 <= i < before.len() && before[i] == lo;
            let ghost at_hi = choose|i: int| 0 <= i < before.len() && before[i] == hi;
            assert(after[k as int] == o);
            assert(after[at_lo] == lo && after[at_hi] == hi);
            if o < lo {
                lo = o;
            }
            if o > hi {
                hi = o;
            }
            k += 1;
        }
        proof {
            assert(outcomes@.take(k as int) =~= outcomes@);
            lemma_lowest_unique(outcomes@, lo);
            lemma_highest_unique(outcomes@, hi);
        }
        (lo, hi)
    }

    /// Builds the distribution of `outcomes`, each entry being the result
    /// of one of equally likely permutations. Entries may repeat, and how
    /// often a value repeats is its weight.
    ///
    /// Fails with `EmptyInput` where there are no outcomes, and with
    /// `Overflow` where there are more than can be counted. The three
    /// histograms take one counter each for every value from the lowest
    /// outcome to the highest, whether it occurs or not.
    pub fn new(outcomes: &[u32]) -> (r: Result<Distribution, DiceError>)
        ensures
            outcomes@.len() == 0 ==> r == Err::<Distribution, DiceError>(DiceError::EmptyInput),
            outcomes@.len() > 0 && exceeds_limits(outcomes@) ==> r == Err::<
                Distribution,
                DiceError,
            >(DiceError::Overflow),
            outcomes@.len() > 0 && !exceeds_limits(outcomes@) ==> r is Ok && r->Ok_0.wf()
                && r->Ok_0.describes(outcomes@),
    {
        let n: usize = outcomes.len();
        if n == 0 {
            return Err(DiceError::EmptyInput);
        }
        let (min, max) = Self::extremes(outcomes);
        proof {
            let at_min = choose|i: int| 0 <= i < outcomes@.len() && outcomes@[i] == min;
            assert(outcomes@[at_min] <= max);
        }
        let len: usize = match Self::histogram_len(min, max, n) {
            Ok(len) => len,
            Err(e) => {
                return Err(e);
            },
        };

        let mut values: Vec<u32> = Vec::with_capacity(len);
        let mut at_least: Vec<u32> = Vec::with_capacity(len);
        let mut at_most: Vec<u32> = Vec::with_capacity(len);
        let mut i: usize = 0;
        while i < len
            invariant
                i <= len,
                values@.len() == i,
                forall|j: int| 0 <= j < i ==> values@[j] == 0,
            decreases len - i,
        {
            values.push(0u32);
            i += 1;
        }

        let mut k: usize = 0;
        while k < n
            invariant
                k <= n,
                n == outcomes@.len(),
                n <= u32::MAX,
                values@.len() == len,
                len == max - min + 1,
                is_lowest(outcomes@, min as int),
                is_highest(outcomes@, max as int),
                forall|j: int|
                    0 <= j < len ==> #[trigger] values@[j] == occurrences(
                        outcomes@.take(k as int),
                        min + j,
                    ),
            decreases n - k,
        {
            let o: usize = (outcomes[k] - min) as usize;
            proof {
                lemma_tally_bounded(outcomes@.take(k as int), min + o, min + o);
            }
            let count: u32 = values[o];
            values.set(o, count + 1);
            proof {
                assert forall|j: int| 0 <= j < len implies #[trigger] values@[j] == occurrences(
                    outcomes@.take(k + 1),
                    min + j,
                ) by {
                    lemma_tally_next(outcomes@, k as int, min + j, min + j);
                }
            }
            k += 1;
        }

        let total: u32 = n as u32;
        let mut at_least_c: u32 = total;
        let mut at_most_c: u32 = 0;
        proof {
            assert(outcomes@.take(n as int) =~= outcomes@);
            lemma_tally_none(outcomes@, 0, min - 1);
            lemma_tally_all(outcomes@, 0, u32::MAX as int);
            lemma_tally_split(outcomes@, 0, min - 1, u32::MAX as int);
        }
        let mut i: usize = 0;
        while i < len
            invariant
                i <= len,
                len == values@.len(),
                len == max - min + 1,
                at_least@.len() == i,
                at_most@.len() == i,
                total == outcomes@.len(),
                forall|j: int|
                    0 <= j < len ==> #[trigger] values@[j] == occurrences(outcomes@, min + j),
                at_least_c == count_at_least(outcomes@, min + i),
                at_most_c == count_at_most(outcomes@, min + i - 1),
                at_most_c == sum_of(values@.take(i as int)),
                at_least_c + at_most_c == total,
                forall|j: int|
                    0 <= j < i ==> #[trigger] at_least@[j] == count_at_least(outcomes@, min + j),
                forall|j: int|
                    0 <= j < i ==> #[trigger] at_most@[j] == count_at_most(outcomes@, min + j),
                forall|j: int|
                    0 <= j < i ==> #[trigger] at_most@[j] == sum_of(values@.take(j + 1)),
                forall|j: int|
                    0 <= j < i ==> #[trigger] at_least@[j] + sum_of(values@.take(j)) == total,
            decreases len - i,
        {
            let v: u32 = values[i];
            proof {
                lemma_tally_split(outcomes@, min + i, min + i, u32::MAX as int);
                lemma_tally_split(outcomes@, 0, min + i - 1, min + i);
                lemma_sum_next(values@, i as int);
            }
            at_least.push(at_least_c);
            at_least_c = at_least_c - v;
            at_most_c = at_most_c + v;
            at_most.push(at_most_c);
            i += 1;
        }

        proof {
            assert(values@.take(len as int) =~= values@);
            lemma_tally_none(outcomes@, max + 1, u32::MAX as int);
            let at_min = choose|i: int| 0 <= i < outcomes@.len() && outcomes@[i] == min;
            let at_max = choose|i: int| 0 <= i < outcomes@.len() && outcomes@[i] == max;
            lemma_tally_some(outcomes@, at_min, min as int, min as int);
            lemma_tally_some(outcomes@, at_max, max as int, max as int);
            assert(values@[0] == occurrences(outcomes@, min + 0));
            assert(values@[len - 1] == occurrences(outcomes@, min + (len - 1)));
        }
        Ok(
            Distribution {
                values: values,
                at_least: at_least,
                at_most: at_most,
                total_permutations: total,
                min: min,
            },
        )
    }

    /// Returns the lowest possible result.
    pub fn min(&self) -> (r: u32)
        ensures
            r == self.lowest(),
    {
        self.min
    }

    /// Returns the highest possible result.
    pub fn max(&self) -> (r: u32)
        ensures
            self.wf(),
            r == self.highest(),
    {
        proof {
            use_type_invariant(self);
        }
        self.min + ((self.values.len() - 1) as u32)
    }

    /// A copy of a histogram.
    fn copy_of(counts: &Vec<u32>) -> (copy: Vec<u32>)
        ensures
            copy@ == counts@,
    {
        let copy = counts.clone();
        assert(copy@ =~= counts@);
        copy
    }

    /// Returns a `Table` with the exact odds for each result.
    pub fn exactly(&self) -> (table: Table)
        ensures
            self.wf(),
            table.wf(),
            table.lowest() == self.lowest(),
            table.base() == self.total(),
            table.counts() == self.exact_counts(),
    {
        proof {
            use_type_invariant(self);
        }
        Table::new(self.min as usize, self.total_permutations, Self::copy_of(&self.values))
    }

    /// Returns a `Table` with the odds to get at least the result given.
    /// The lowest possible result will always have a 100% chance, and the
    /// highest possible result will always have the exact chance.
    pub fn at_least(&self) -> (table: Table)
        ensures
            self.wf(),
            table.wf(),
            table.lowest() == self.lowest(),
            table.base() == self.total(),
            table.counts() == self.at_least_counts(),
    {
        proof {
            use_type_invariant(self);
        }
        Table::new(self.min as usize, self.total_permutations, Self::copy_of(&self.at_least))
    }

    /// Returns a `Table` with the odds to get at most the result given.
    /// The highest possible result will always have a 100% chance, and the
    /// lowest possible result will always have the exact chance.
    pub fn at_most(&self) -> (table: Table)
        ensures
            self.wf(),
            table.wf(),
            table.lowest() == self.lowest(),
            table.base() == self.total(),
            table.counts() == self.at_most_counts(),
    {
        proof {
            use_type_invariant(self);
        }
        Table::new(self.min as usize, self.total_permutations, Self::copy_of(&self.at_most))
    }

    /// Returns the total number of possible permutations of the die.
    pub fn possible_permutations(&self) -> (r: u32)
        ensures
            r == self.total(),
    {
        self.total_permutations
    }

    /// Returns the total number of possible permutations of the die.
    pub fn total_permutations(&self) -> (r: u32)
        ensures
            r == self.total(),
    {
        self.total_permutations
    }

    /// Returns the number of steps from the lowest result to the highest,
    /// which is one less than the number of values between them.
    pub fn total_combinations(&self) -> (r: u32)
        ensures
            self.wf(),
            r == self.highest() - self.lowest(),
    {
        self.max() - self.min()
    }

    /// Returns the sum of all outcomes: each value from the lowest result
    /// to the highest, times the number of permutations that give it.
    /// Divided by the total, this is the mean.
    pub fn outcome_sum(&self) -> (r: u64)
        ensures
            self.wf(),
            r == moment(self.exact_counts(), self.lowest() as int, 1),
    {
        proof {
            use_type_invariant(self);
        }
        let n: usize = self.values.len();
        let mut sum: u64 = 0;
        let mut i: usize = 0;
        while i < n
            invariant
                self.wf(),
                n == self.values@.len(),
                i <= n,
                sum == moment(self.values@.take(i as int), self.min as int, 1),
                sum <= u32::MAX * sum_of(self.values@.take(i as int)),
            decreases n - i,
        {
            let x: u64 = self.min as u64 + i as u64;
            let count: u64 = self.values[i] as u64;
            proof {
                let seen = sum_of(self.values@.take(i as int));
                lemma_sum_next(self.values@, i as int);
                lemma_sum_grows(self.values@, i + 1, n as int);
                assert(self.values@.take(n as int) =~= self.values@);
                lemma_moment_next(self.values@, self.min as int, 1, i as int);
                assert(power(x as int, 1) == x) by {
                    reveal_with_fuel(power, 2);
                }
                assert(x * count <= u32::MAX * count) by (nonlinear_arith)
                    requires
                        x <= u32::MAX,
                        count >= 0,
                ;
                assert(u32::MAX * seen + u32::MAX * count == u32::MAX * (seen + count))
                    by (nonlinear_arith);
                assert(u32::MAX * (seen + count) <= u32::MAX * u32::MAX) by (nonlinear_arith)
                    requires
                        seen + count <= u32::MAX,
                ;
            }
            sum = sum + x * count;
            i += 1;
        }
        proof {
            assert(self.values@.take(n as int) =~= self.values@);
        }
        sum
    }

    /// Returns the sum of the squares of all outcomes: the square of each
    /// value from the lowest result to the highest, times the number of
    /// permutations that give it. Divided by the total, this is the mean
    /// of the squares, from which the variance follows.
    pub fn outcome_square_sum(&self) -> (r: u128)
        ensures
            self.wf(),
            r == moment(self.exact_counts(), self.lowest() as int, 2),
            r <= u32::MAX * u32::MAX * self.total(),
    {
        proof {
            use_type_invariant(self);
        }
        let n: usize = self.values.len();
        let mut sum: u128 = 0;
        let mut i: usize = 0;
        while i < n
            invariant
                self.wf(),
                n == self.values@.len(),
                i <= n,
                sum == moment(self.values@.take(i as int), self.min as int, 2),
                sum <= u32::MAX * u32::MAX * sum_of(self.values@.take(i as int)),
            decreases n - i,
        {
            let x: u64 = self.min as u64 + i as u64;
            let count: u64 = self.values[i] as u64;
            proof {
                let seen = sum_of(self.values@.take(i as int));
                lemma_sum_next(self.values@, i as int);
                lemma_sum_grows(self.values@, i + 1, n as int);
                assert(self.values@.take(n as int) =~= self.values@);
                lemma_moment_next(self.values@, self.min as int, 2, i as int);
                assert(power(x as int, 2) == x * x) by {
                    reveal_with_fuel(power, 3);
                }
                assert(x * x <= u32::MAX * u32::MAX) by (nonlinear_arith)
                    requires
                        0 <= x <= u32::MAX,
                ;
                assert(x * x * count <= u32::MAX * u32::MAX * count) by (nonlinear_arith)
                    requires
                        x * x <= u32::MAX * u32::MAX,
                        count >= 0,
                ;
                assert(u32::MAX * u32::MAX * seen + u32::MAX * u32::MAX * count == u32::MAX
                    * u32::MAX * (seen + count)) by (nonlinear_arith);
                assert(u32::MAX * u32::MAX * (seen + count) <= u32::MAX * u32::MAX * u32::MAX)
                    by (nonlinear_arith)
                    requires
                        seen + count <= u32::MAX,
                ;
            }
            let square: u64 = x * x;
            sum = sum + (square as u128) * (count as u128);
            i += 1;
        }
        proof {
            assert(self.values@.take(n as int) =~= self.values@);
        }
        sum
    }

    /// Returns the variance of the outcomes, times the square of the total
    /// number of permutations: the total times the sum of the squares of
    /// all outcomes, less the square of their sum. The square root of this,
    /// divided by the total, is the standard deviation.
    pub fn scaled_variance(&self) -> (r: u128)
        ensures
            self.wf(),
            r == scaled_variance(self.exact_counts(), self.lowest() as int),
    {
        let n: u128 = self.total_permutations as u128;
        let s: u128 = self.outcome_sum() as u128;
        let q: u128 = self.outcome_square_sum();
        proof {
            lemma_variance_nonnegative(self.exact_counts(), self.lowest() as int);
            assert(n * q <= u32::MAX * u32::MAX * u32::MAX * u32::MAX) by (nonlinear_arith)
                requires
                    0 <= n <= u32::MAX,
                    0 <= q <= u32::MAX * u32::MAX * n,
            ;
            assert(s * s <= u64::MAX * u64::MAX) by (nonlinear_arith)
                requires
                    0 <= s <= u64::MAX,
            ;
        }
        n * q - s * s
    }
}

} // verus!
