//! Counting the entries of a list of outcomes, and the facts about such
//! counts that the histograms of a distribution rest on.

use vstd::prelude::*;

verus! {

/// The number of entries of `s` that lie between `lo` and `hi`, both included.
pub open spec fn tally(s: Seq<u32>, lo: int, hi: int) -> nat
    decreases s.len(),
{
    if s.len() == 0 {
        0
    } else {
        tally(s.drop_last(), lo, hi) + if lo <= s.last() <= hi {
            1nat
        } else {
            0nat
        }
    }
}

/// The number of entries of `s` that are equal to `v`.
pub open spec fn occurrences(s: Seq<u32>, v: int) -> nat {
    tally(s, v, v)
}

/// The number of entries of `s` that are `v` or more.
pub open spec fn count_at_least(s: Seq<u32>, v: int) -> nat {
    tally(s, v, u32::MAX as int)
}

/// The number of entries of `s` that are `v` or less.
pub open spec fn count_at_most(s: Seq<u32>, v: int) -> nat {
    tally(s, 0, v)
}

/// `m` is an entry of `s` and no entry is smaller.
pub open spec fn is_lowest(s: Seq<u32>, m: int) -> bool {
    &&& exists|i: int| 0 <= i < s.len() && s[i] == m
    &&& forall|i: int| 0 <= i < s.len() ==> m <= s[i]
}

/// `m` is an entry of `s` and no entry is larger.
pub open spec fn is_highest(s: Seq<u32>, m: int) -> bool {
    &&& exists|i: int| 0 <= i < s.len() && s[i] == m
    &&& forall|i: int| 0 <= i < s.len() ==> s[i] <= m
}

/// The smallest entry of a non-empty `s`.
pub open spec fn lowest(s: Seq<u32>) -> u32 {
    choose|m: u32| is_lowest(s, m as int)
}

/// The largest entry of a non-empty `s`.
pub open spec fn highest(s: Seq<u32>) -> u32 {
    choose|m: u32| is_highest(s, m as int)
}

/// The sum of the entries of `s`.
pub open spec fn sum_of(s: Seq<u32>) -> nat
    decreases s.len(),
{
    if s.len() == 0 {
        0
    } else {
        sum_of(s.drop_last()) + s.last() as nat
    }
}

/// `x` multiplied with itself `degree` times.
pub open spec fn power(x: int, degree: nat) -> int
    decreases degree,
{
    if degree == 0 {
        1
    } else {
        x * power(x, (degree - 1) as nat)
    }
}

/// The sum of the entries of `s`, each raised to `degree`.
pub open spec fn power_sum(s: Seq<u32>, degree: nat) -> int
    decreases s.len(),
{
    if s.len() == 0 {
        0
    } else {
        power_sum(s.drop_last(), degree) + power(s.last() as int, degree)
    }
}

/// The sum that a histogram stands for: `counts[i]` times the value
/// `lo + i` raised to `degree`, over every position `i`.
pub open spec fn moment(counts: Seq<u32>, lo: int, degree: nat) -> int
    decreases counts.len(),
{
    if counts.len() == 0 {
        0
    } else {
        moment(counts.drop_last(), lo, degree) + power(lo + counts.len() - 1, degree)
            * counts.last()
    }
}

/// The variance of a histogram, times the square of the number of entries
/// that it counts: with `n` that number, `s` the sum of the values and `q`
/// the sum of their squares, this is `n * q - s * s`.
pub open spec fn scaled_variance(counts: Seq<u32>, lo: int) -> int {
    sum_of(counts) * moment(counts, lo, 2) - moment(counts, lo, 1) * moment(counts, lo, 1)
}

/// The moment of the histogram of `o` that starts at `lo` and has `n`
/// counts.
spec fn tally_moment(o: Seq<u32>, lo: int, n: nat, degree: nat) -> int
    decreases n,
{
    if n == 0 {
        0
    } else {
        tally_moment(o, lo, (n - 1) as nat, degree) + power(lo + n - 1, degree) * occurrences(
            o,
            lo + n - 1,
        )
    }
}

/// A sequence has only one smallest entry.
pub proof fn lemma_lowest_unique(s: Seq<u32>, m: u32)
    requires
        is_lowest(s, m as int),
    ensures
        lowest(s) == m,
{
    let c = lowest(s);
    assert(is_lowest(s, c as int));
    let i = choose|i: int| 0 <= i < s.len() && s[i] == m;
    let j = choose|j: int| 0 <= j < s.len() && s[j] == c;
    assert(c <= s[i]);
    assert(m <= s[j]);
}

/// A sequence has only one largest entry.
pub proof fn lemma_highest_unique(s: Seq<u32>, m: u32)
    requires
        is_highest(s, m as int),
    ensures
        highest(s) == m,
{
    let c = highest(s);
    assert(is_highest(s, c as int));
    let i = choose|i: int| 0 <= i < s.len() && s[i] == m;
    let j = choose|j: int| 0 <= j < s.len() && s[j] == c;
    assert(s[i] <= c);
    assert(s[j] <= m);
}

/// No interval holds more entries than there are.
pub proof fn lemma_tally_bounded(s: Seq<u32>, lo: int, hi: int)
    ensures
        tally(s, lo, hi) <= s.len(),
    decreases s.len(),
{
    if s.len() > 0 {
        lemma_tally_bounded(s.drop_last(), lo, hi);
    }
}

/// An interval cut in two holds what its two parts hold together.
pub proof fn lemma_tally_split(s: Seq<u32>, lo: int, mid: int, hi: int)
    requires
        lo <= mid + 1,
        mid <= hi,
    ensures
        tally(s, lo, hi) == tally(s, lo, mid) + tally(s, mid + 1, hi),
    decreases s.len(),
{
    if s.len() > 0 {
        lemma_tally_split(s.drop_last(), lo, mid, hi);
    }
}

/// An interval that no entry lies in holds nothing.
pub proof fn lemma_tally_none(s: Seq<u32>, lo: int, hi: int)
    requires
        forall|i: int| 0 <= i < s.len() ==> !(lo <= #[trigger] s[i] && s[i] <= hi),
    ensures
        tally(s, lo, hi) == 0,
    decreases s.len(),
{
    if s.len() > 0 {
        let t = s.drop_last();
        assert forall|i: int| 0 <= i < t.len() implies !(lo <= #[trigger] t[i] && t[i] <= hi) by {
            assert(t[i] == s[i]);
        }
        lemma_tally_none(t, lo, hi);
    }
}

/// An interval that every entry lies in holds them all.
pub proof fn lemma_tally_all(s: Seq<u32>, lo: int, hi: int)
    requires
        forall|i: int| 0 <= i < s.len() ==> lo <= #[trigger] s[i] && s[i] <= hi,
    ensures
        tally(s, lo, hi) == s.len(),
    decreases s.len(),
{
    if s.len() > 0 {
        let t = s.drop_last();
        assert forall|i: int| 0 <= i < t.len() implies lo <= #[trigger] t[i] && t[i] <= hi by {
            assert(t[i] == s[i]);
        }
        lemma_tally_all(t, lo, hi);
    }
}

/// An interval that some entry lies in does not hold nothing.
pub proof fn lemma_tally_some(s: Seq<u32>, i: int, lo: int, hi: int)
    requires
        0 <= i < s.len(),
        lo <= s[i] <= hi,
    ensures
        tally(s, lo, hi) > 0,
    decreases s.len(),
{
    if i < s.len() - 1 {
        lemma_tally_some(s.drop_last(), i, lo, hi);
    }
}

/// One more entry adds one to the count of the intervals that it lies in
/// and leaves the others as they were.
pub proof fn lemma_tally_next(s: Seq<u32>, k: int, lo: int, hi: int)
    requires
        0 <= k < s.len(),
    ensures
        tally(s.take(k + 1), lo, hi) == tally(s.take(k), lo, hi) + if lo <= s[k] <= hi {
            1nat
        } else {
            0nat
        },
{
    assert(s.take(k + 1).drop_last() =~= s.take(k));
}

/// A prefix that is one entry longer sums to that entry more.
pub proof fn lemma_sum_next(s: Seq<u32>, k: int)
    requires
        0 <= k < s.len(),
    ensures
        sum_of(s.take(k + 1)) == sum_of(s.take(k)) + s[k],
{
    assert(s.take(k + 1).drop_last() =~= s.take(k));
}

/// The sums of the prefixes of a sequence grow with their length.
pub proof fn lemma_sum_grows(s: Seq<u32>, i: int, j: int)
    requires
        0 <= i <= j <= s.len(),
    ensures
        sum_of(s.take(i)) <= sum_of(s.take(j)),
    decreases j - i,
{
    if i < j {
        lemma_sum_grows(s, i, j - 1);
        lemma_sum_next(s, j - 1);
    }
}

/// A histogram that is one count longer has a moment that is larger by
/// what that count stands for.
pub proof fn lemma_moment_next(counts: Seq<u32>, lo: int, degree: nat, k: int)
    requires
        0 <= k < counts.len(),
    ensures
        moment(counts.take(k + 1), lo, degree) == moment(counts.take(k), lo, degree) + power(
            lo + k,
            degree,
        ) * counts[k],
{
    assert(counts.take(k + 1).drop_last() =~= counts.take(k));
}

proof fn lemma_moment_of_counts(counts: Seq<u32>, o: Seq<u32>, lo: int, degree: nat)
    requires
        forall|i: int| 0 <= i < counts.len() ==> #[trigger] counts[i] == occurrences(o, lo + i),
    ensures
        moment(counts, lo, degree) == tally_moment(o, lo, counts.len(), degree),
    decreases counts.len(),
{
    if counts.len() > 0 {
        let shorter = counts.drop_last();
        assert forall|i: int| 0 <= i < shorter.len() implies #[trigger] shorter[i] == occurrences(
            o,
            lo + i,
        ) by {
            assert(shorter[i] == counts[i]);
        }
        lemma_moment_of_counts(shorter, o, lo, degree);
        assert(counts.last() == counts[counts.len() - 1]);
    }
}

proof fn lemma_tally_moment_next(o: Seq<u32>, lo: int, n: nat, degree: nat)
    requires
        o.len() > 0,
    ensures
        tally_moment(o, lo, n, degree) == tally_moment(o.drop_last(), lo, n, degree) + if lo
            <= o.last() < lo + n {
            power(o.last() as int, degree)
        } else {
            0
        },
    decreases n,
{
    if n > 0 {
        lemma_tally_moment_next(o, lo, (n - 1) as nat, degree);
        let v = lo + n - 1;
        let p = power(v, degree);
        let c = occurrences(o.drop_last(), v);
        if o.last() == v {
            assert(occurrences(o, v) == c + 1);
            assert(p * (c + 1) == p * c + p) by (nonlinear_arith);
        } else {
            assert(occurrences(o, v) == c);
        }
    }
}

proof fn lemma_tally_moment_total(o: Seq<u32>, lo: int, n: nat, degree: nat)
    requires
        forall|k: int| 0 <= k < o.len() ==> lo <= #[trigger] o[k] && o[k] < lo + n,
    ensures
        tally_moment(o, lo, n, degree) == power_sum(o, degree),
    decreases o.len(), n,
{
    if o.len() == 0 {
        if n > 0 {
            lemma_tally_moment_total(o, lo, (n - 1) as nat, degree);
            assert(power(lo + n - 1, degree) * 0 == 0) by (nonlinear_arith);
        }
    } else {
        let shorter = o.drop_last();
        assert forall|k: int| 0 <= k < shorter.len() implies lo <= #[trigger] shorter[k]
            && shorter[k] < lo + n by {
            assert(shorter[k] == o[k]);
        }
        lemma_tally_moment_total(shorter, lo, n, degree);
        lemma_tally_moment_next(o, lo, n, degree);
        assert(o.last() == o[o.len() - 1]);
    }
}

/// The moment of the histogram of `o` is the sum of the powers of the
/// entries of `o`, where the histogram has a count for every entry.
pub proof fn lemma_moment_is_power_sum(counts: Seq<u32>, o: Seq<u32>, lo: int, degree: nat)
    requires
        forall|i: int| 0 <= i < counts.len() ==> #[trigger] counts[i] == occurrences(o, lo + i),
        forall|k: int| 0 <= k < o.len() ==> lo <= #[trigger] o[k] && o[k] < lo + counts.len(),
    ensures
        moment(counts, lo, degree) == power_sum(o, degree),
{
    lemma_moment_of_counts(counts, o, lo, degree);
    lemma_tally_moment_total(o, lo, counts.len(), degree);
}

/// The squares of the distances from `x` to the values that a histogram
/// counts do not add up to less than nothing.
proof fn lemma_distances_nonnegative(counts: Seq<u32>, lo: int, x: int)
    ensures
        sum_of(counts) * (x * x) - 2 * moment(counts, lo, 1) * x + moment(counts, lo, 2) >= 0,
    decreases counts.len(),
{
    if counts.len() > 0 {
        let rest = counts.drop_last();
        lemma_distances_nonnegative(rest, lo, x);
        let n = sum_of(rest) as int;
        let s = moment(rest, lo, 1);
        let q = moment(rest, lo, 2);
        let c = counts.last() as int;
        let y = lo + counts.len() - 1;
        assert(power(y, 1) == y && power(y, 2) == y * y) by {
            reveal_with_fuel(power, 3);
        }
        assert(sum_of(counts) == n + c);
        assert(moment(counts, lo, 1) == s + y * c);
        assert(moment(counts, lo, 2) == q + y * y * c);
        assert((n + c) * (x * x) - 2 * (s + y * c) * x + (q + y * y * c) == (n * (x * x) - 2 * s
            * x + q) + c * ((x - y) * (x - y))) by (nonlinear_arith);
        assert(c * ((x - y) * (x - y)) >= 0) by (nonlinear_arith)
            requires
                c >= 0,
        ;
    } else {
        assert(0 * (x * x) - 2 * 0 * x + 0 == 0) by (nonlinear_arith);
    }
}

/// The variance of a histogram is not negative.
pub proof fn lemma_variance_nonnegative(counts: Seq<u32>, lo: int)
    ensures
        scaled_variance(counts, lo) >= 0,
    decreases counts.len(),
{
    if counts.len() > 0 {
        let rest = counts.drop_last();
        lemma_variance_nonnegative(rest, lo);
        let n = sum_of(rest) as int;
        let s = moment(rest, lo, 1);
        let q = moment(rest, lo, 2);
        let c = counts.last() as int;
        let y = lo + counts.len() - 1;
        lemma_distances_nonnegative(rest, lo, y);
        assert(power(y, 1) == y && power(y, 2) == y * y) by {
            reveal_with_fuel(power, 3);
        }
        let a = y * c;
        let b = y * y * c;
        assert(sum_of(counts) == n + c);
        assert(moment(counts, lo, 1) == s + a);
        assert(moment(counts, lo, 2) == q + b);
        assert((n + c) * (q + b) == n * q + n * b + c * q + c * b) by (nonlinear_arith);
        assert((s + a) * (s + a) == s * s + 2 * (s * a) + a * a) by (nonlinear_arith);
        assert(n * b == c * (n * (y * y))) by (nonlinear_arith)
            requires
                b == y * y * c,
        ;
        assert(c * b == a * a) by (nonlinear_arith)
            requires
                a == y * c,
                b == y * y * c,
        ;
        assert(s * a == c * (s * y)) by (nonlinear_arith)
            requires
                a == y * c,
        ;
        let d = n * (y * y) - 2 * s * y + q;
        assert(c * d == c * (n * (y * y)) - 2 * (c * (s * y)) + c * q) by (nonlinear_arith)
            requires
                d == n * (y * y) - 2 * s * y + q,
        ;
        assert(c * d >= 0) by (nonlinear_arith)
            requires
                c >= 0,
                d >= 0,
        ;
        assert(scaled_variance(counts, lo) == (n * q - s * s) + c * d);
    } else {
        assert(0 * 0 - 0 * 0 == 0int);
    }
}

} // verus!
