//! What holds of every distribution and of the tables taken from it.

use crate::distribution::Distribution;
use crate::table::Table;
use crate::tally::{
    highest, lemma_highest_unique, lemma_lowest_unique, lemma_moment_is_power_sum,
    lemma_sum_grows, lemma_sum_next, lowest, moment, power_sum, sum_of,
};
use vstd::prelude::*;

verus! {

/// `t` is one of the three tables that `d` hands out.
pub open spec fn taken_from(t: Table, d: Distribution) -> bool {
    &&& t.lowest() == d.lowest()
    &&& t.base() == d.total()
    &&& (t.counts() == d.exact_counts() || t.counts() == d.at_least_counts() || t.counts()
        == d.at_most_counts())
}

/// A distribution runs from the smallest to the largest of the outcomes
/// that it was built from.
pub proof fn extremes_are_those_of_the_outcomes(d: Distribution, o: Seq<u32>)
    requires
        d.wf(),
        d.describes(o),
    ensures
        d.lowest() == lowest(o),
        d.highest() == highest(o),
{
    lemma_lowest_unique(o, d.lowest());
    lemma_highest_unique(o, d.highest() as u32);
}

/// The exact counts of a distribution add up to its total, which is the
/// number of outcomes that it was built from.
pub proof fn exact_counts_sum_to_total(d: Distribution, o: Seq<u32>)
    requires
        d.wf(),
        d.describes(o),
    ensures
        sum_of(d.exact_counts()) == d.total(),
        d.total() == o.len(),
{
}

/// Every outcome is at least the lowest one, and the only outcomes that
/// are at least the highest one are those equal to it.
pub proof fn at_least_ends(d: Distribution)
    requires
        d.wf(),
    ensures
        d.at_least_counts()[0] == d.total(),
        d.at_least_counts()[d.span() - 1] == d.exact_counts()[d.span() - 1],
{
    let last = d.span() - 1;
    assert(d.at_least_counts()[0] + sum_of(d.exact_counts().take(0)) == d.total());
    assert(d.at_least_counts()[last] + sum_of(d.exact_counts().take(last)) == d.total());
    lemma_sum_next(d.exact_counts(), last);
    assert(d.exact_counts().take(last + 1) =~= d.exact_counts());
}

/// Every outcome is at most the highest one, and the only outcomes that
/// are at most the lowest one are those equal to it.
pub proof fn at_most_ends(d: Distribution)
    requires
        d.wf(),
    ensures
        d.at_most_counts()[d.span() - 1] == d.total(),
        d.at_most_counts()[0] == d.exact_counts()[0],
{
    let last = d.span() - 1;
    assert(d.at_most_counts()[last] == sum_of(d.exact_counts().take(last + 1)));
    assert(d.exact_counts().take(last + 1) =~= d.exact_counts());
    assert(d.at_most_counts()[0] == sum_of(d.exact_counts().take(1)));
    lemma_sum_next(d.exact_counts(), 0);
}

/// The at-least counts do not grow as the outcome grows.
pub proof fn at_least_falls(d: Distribution, i: int, j: int)
    requires
        d.wf(),
        0 <= i <= j < d.span(),
    ensures
        d.at_least_counts()[i] >= d.at_least_counts()[j],
{
    assert(d.at_least_counts()[i] + sum_of(d.exact_counts().take(i)) == d.total());
    assert(d.at_least_counts()[j] + sum_of(d.exact_counts().take(j)) == d.total());
    lemma_sum_grows(d.exact_counts(), i, j);
}

/// The at-most counts do not shrink as the outcome grows.
pub proof fn at_most_rises(d: Distribution, i: int, j: int)
    requires
        d.wf(),
        0 <= i <= j < d.span(),
    ensures
        d.at_most_counts()[i] <= d.at_most_counts()[j],
{
    assert(d.at_most_counts()[i] == sum_of(d.exact_counts().take(i + 1)));
    assert(d.at_most_counts()[j] == sum_of(d.exact_counts().take(j + 1)));
    lemma_sum_grows(d.exact_counts(), i + 1, j + 1);
}

/// The chance that a table of a distribution gives to an outcome is the
/// outcome's count out of the distribution's total; the total is not zero
/// and the count is not above it, so the chance lies between 0 and 1.
pub proof fn chance_is_count_out_of_total(d: Distribution, t: Table, x: usize)
    requires
        d.wf(),
        taken_from(t, d),
        t.covers(x),
    ensures
        t.chance_at(x).permutations == t.count_at(x),
        t.chance_at(x).total == d.total(),
        0 <= t.chance_at(x).permutations <= t.chance_at(x).total,
        0 < t.chance_at(x).total,
{
    let i = x - t.lowest();
    let exact = d.exact_counts();
    assert(exact.take(d.span() as int) =~= exact);
    lemma_sum_next(exact, i);
    lemma_sum_grows(exact, i + 1, d.span() as int);
    assert(d.at_most_counts()[i] == sum_of(exact.take(i + 1)));
    assert(d.at_least_counts()[i] + sum_of(exact.take(i)) == d.total());
}

/// The list of a table's outcomes and counts holds each outcome of the
/// table once, with the count that a query for it returns.
pub proof fn pairs_hold_each_outcome_once(t: Table, x: usize)
    requires
        t.wf(),
        t.covers(x),
    ensures
        t.pairs()[x - t.lowest()] == (x, t.count_at(x)),
        forall|j: int|
            0 <= j < t.pairs().len() && (#[trigger] t.pairs()[j]).0 == x ==> j == x - t.lowest(),
{
}

/// Weighing each value with its exact count gives what summing over the
/// outcomes themselves gives: with degree 1 the sum of the outcomes, with
/// degree 2 the sum of their squares.
pub proof fn moments_are_power_sums(d: Distribution, o: Seq<u32>, degree: nat)
    requires
        d.wf(),
        d.describes(o),
    ensures
        moment(d.exact_counts(), d.lowest() as int, degree) == power_sum(o, degree),
{
    lemma_moment_is_power_sum(d.exact_counts(), o, d.lowest() as int, degree);
}

} // verus!
