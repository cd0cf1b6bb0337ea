//! The money of a gambler over time: what it is, and the least and the most
//! that it has been.

use vstd::prelude::*;

verus! {

/// Running money with its low and its high mark. Before the first change
/// the low mark is the greatest amount there is and the high mark the least.
#[derive(Debug, Clone, Copy)]
pub struct MoneyStat {
    cur: i64,
    min: i64,
    max: i64,
}

impl Default for MoneyStat {
    fn default() -> (stat: Self)
        ensures
            stat.cur() == 0,
            stat.min() == i64::MAX,
            stat.max() == i64::MIN,
    {
        Self { cur: 0, min: i64::MAX, max: i64::MIN }
    }
}

impl MoneyStat {
    /// The money now.
    pub closed spec fn cur(&self) -> int {
        self.cur as int
    }

    /// The low mark.
    pub closed spec fn min(&self) -> int {
        self.min as int
    }

    /// The high mark.
    pub closed spec fn max(&self) -> int {
        self.max as int
    }

    /// Adds `delta` to the money and moves the marks that it passes. The
    /// sum must be an amount that 64 bits hold.
    pub fn add(&mut self, delta: i64)
        requires
            i64::MIN <= old(self).cur() + delta <= i64::MAX,
        ensures
            final(self).cur() == old(self).cur() + delta,
            final(self).min() == if old(self).min() > final(self).cur() {
                final(self).cur()
            } else {
                old(self).min()
            },
            final(self).max() == if old(self).max() < final(self).cur() {
                final(self).cur()
            } else {
                old(self).max()
            },
    {
        self.cur = self.cur + delta;
        if self.min > self.cur {
            self.min = self.cur;
        }
        if self.max < self.cur {
            self.max = self.cur;
        }
    }

    /// Adds `delta` where the sum is an amount that 64 bits hold, and says
    /// whether it did.
    pub fn try_add(&mut self, delta: i64) -> (added: bool)
        ensures
            added == (i64::MIN <= old(self).cur() + delta <= i64::MAX),
            !added ==> *final(self) == *old(self),
            added ==> final(self).cur() == old(self).cur() + delta,
    {
        match self.cur.checked_add(delta) {
            Some(_) => {
                self.add(delta);
                true
            },
            None => false,
        }
    }

    pub fn cur_money(&self) -> (money: i64)
        ensures
            money == self.cur(),
    {
        self.cur
    }

    pub fn min_money(&self) -> (money: i64)
        ensures
            money == self.min(),
    {
        self.min
    }

    pub fn max_money(&self) -> (money: i64)
        ensures
            money == self.max(),
    {
        self.max
    }
}

} // verus!
