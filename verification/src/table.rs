//! A histogram that can be queried by outcome.

use crate::error::DiceError;
use vstd::prelude::*;

verus! {

/// An exact probability: `permutations` out of `total` equally likely
/// permutations. Its value as a number is the first divided by the second.
/// In a chance that comes from a distribution the first is not above the
/// second and the second is not zero.
#[derive(Clone, Copy, Debug, PartialEq, Eq)]
pub struct Chance {
    pub permutations: u32,
    pub total: u32,
}

/// A `Table` enumerates possible results: it holds one count for each
/// outcome from its lowest one upwards, and the number of permutations that
/// the counts are measured against.
///
/// A table owns its counts. It does not check that they agree with each
/// other or with the total; a table taken from a
/// [`Distribution`](crate::distribution::Distribution) is consistent because
/// the distribution is.
#[derive(Debug)]
pub struct Table {
    values: Vec<u32>,
    min: usize,
    norm: u32,
}

impl Table {
    /// The counts, that of the lowest outcome first.
    pub closed spec fn counts(&self) -> Seq<u32> {
        self.values@
    }

    /// The outcome that the first count belongs to.
    pub closed spec fn lowest(&self) -> usize {
        self.min
    }

    /// The number of permutations that chances are measured against.
    pub closed spec fn base(&self) -> u32 {
        self.norm
    }

    /// Every outcome that the table has a count for is a `usize`.
    pub open spec fn wf(&self) -> bool {
        self.lowest() + self.counts().len() <= usize::MAX + 1
    }

    /// Every table that exists is well formed.
    #[verifier::type_invariant]
    closed spec fn inv(&self) -> bool {
        self.wf()
    }

    /// The table has a count for `x`.
    pub open spec fn covers(&self, x: usize) -> bool {
        self.lowest() <= x < self.lowest() + self.counts().len()
    }

    /// The count that the table holds for `x`.
    pub open spec fn count_at(&self, x: usize) -> u32
        recommends
            self.covers(x),
    {
        self.counts()[x - self.lowest()]
    }

    /// The chance that the table gives to `x`.
    pub open spec fn chance_at(&self, x: usize) -> Chance
        recommends
            self.covers(x),
    {
        Chance { permutations: self.count_at(x), total: self.base() }
    }

    /// The outcome at position `i` of the table.
    pub open spec fn outcome(&self, i: int) -> usize {
        (self.lowest() + i) as usize
    }

    /// Each outcome of the table with its count, in ascending order.
    pub open spec fn pairs(&self) -> Seq<(usize, u32)> {
        Seq::new(self.counts().len(), |i: int| (self.outcome(i), self.counts()[i]))
    }

    /// Each outcome of the table with its chance, in ascending order.
    pub open spec fn chances(&self) -> Seq<(usize, Chance)> {
        Seq::new(
            self.counts().len(),
            |i: int|
                (self.outcome(i), Chance { permutations: self.counts()[i], total: self.base() }),
        )
    }

    /// A table whose first count is that of `min`, measured against `norm`
    /// permutations.
    ///
    /// Nothing is validated: the counts and `norm` are taken as they are,
    /// and it is for the caller to hand in numbers that agree. The one
    /// demand is that the last outcome, `min + values.len() - 1`, is a
    /// `usize`.
    pub fn new(min: usize, norm: u32, values: Vec<u32>) -> (table: Table)
        requires
            min + values@.len() <= usize::MAX + 1,
        ensures
            table.wf(),
            table.lowest() == min,
            table.base() == norm,
            table.counts() == values@,
    {
        Table { values: values, min: min, norm: norm }
    }

    /// Returns the number of possible permutations that give the result
    /// `x`, or `OutOfRange` where the table has no count for `x`.
    pub fn permutations_of(&self, x: usize) -> (r: Result<u32, DiceError>)
        ensures
            self.covers(x) ==> r == Ok::<u32, DiceError>(self.count_at(x)),
            !self.covers(x) ==> r == Err::<u32, DiceError>(DiceError::OutOfRange),
    {
        if x < self.min {
            return Err(DiceError::OutOfRange);
        }
        let i: usize = x - self.min;
        if i < self.values.len() {
            Ok(self.values[i])
        } else {
            Err(DiceError::OutOfRange)
        }
    }

    /// Returns the chance of the result `x`: its count out of the table's
    /// total, or `OutOfRange` where the table has no count for `x`.
    pub fn chance_of(&self, x: usize) -> (r: Result<Chance, DiceError>)
        ensures
            self.covers(x) ==> r == Ok::<Chance, DiceError>(self.chance_at(x)),
            !self.covers(x) ==> r == Err::<Chance, DiceError>(DiceError::OutOfRange),
    {
        match self.permutations_of(x) {
            Ok(count) => Ok(Chance { permutations: count, total: self.norm }),
            Err(e) => Err(e),
        }
    }

    /// Returns every outcome of the table with its count, the lowest
    /// outcome first.
    pub fn to_permutations(&self) -> (list: Vec<(usize, u32)>)
        ensures
            self.wf(),
            list@ == self.pairs(),
    {
        proof {
            use_type_invariant(self);
        }
        let n: usize = self.values.len();
        let mut list: Vec<(usize, u32)> = Vec::with_capacity(n);
        let mut i: usize = 0;
        while i < n
            invariant
                self.wf(),
                n == self.counts().len(),
                n == self.values@.len(),
                i <= n,
                list@.len() == i,
                forall|j: int| 0 <= j < i ==> list@[j] == self.pairs()[j],
            decreases n - i,
        {
            list.push((i + self.min, self.values[i]));
            i += 1;
        }
        assert(list@ =~= self.pairs());
        list
    }

    /// Returns every outcome of the table with its chance, the lowest
    /// outcome first.
    pub fn to_chances(&self) -> (list: Vec<(usize, Chance)>)
        ensures
            self.wf(),
            list@ == self.chances(),
    {
        proof {
            use_type_invariant(self);
        }
        let n: usize = self.values.len();
        let mut list: Vec<(usize, Chance)> = Vec::with_capacity(n);
        let mut i: usize = 0;
        while i < n
            invariant
                self.wf(),
                n == self.counts().len(),
                n == self.values@.len(),
                i <= n,
                list@.len() == i,
                forall|j: int| 0 <= j < i ==> list@[j] == self.chances()[j],
            decreases n - i,
        {
            list.push((i + self.min, Chance { permutations: self.values[i], total: self.norm }));
            i += 1;
        }
        assert(list@ =~= self.chances());
        list
    }
}

} // verus!
