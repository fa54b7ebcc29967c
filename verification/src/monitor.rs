//! Counters that an iterator keeps for itself and hands over when asked.

use vstd::prelude::*;

verus! {

/// The sum of two counters, held at the largest value once it is reached.
pub open spec fn saturating_sum(a: u64, b: u64) -> u64 {
    if a + b > u64::MAX {
        u64::MAX
    } else {
        (a + b) as u64
    }
}

/// Counts of what an iterator loaded from the store.
#[derive(Clone, Copy, Debug, PartialEq, Eq, Structural)]
pub struct StoreLocalStatistic {
    /// Tables fetched from the store.
    pub tables_loaded: u64,
    /// Blocks fetched from the store.
    pub blocks_loaded: u64,
}

impl Default for StoreLocalStatistic {
    fn default() -> (r: Self)
        ensures
            r == Self::zero(),
    {
        StoreLocalStatistic { tables_loaded: 0, blocks_loaded: 0 }
    }
}

impl StoreLocalStatistic {
    /// Counters that have counted nothing.
    pub open spec fn zero() -> Self {
        StoreLocalStatistic { tables_loaded: 0, blocks_loaded: 0 }
    }

    /// Counter by counter, the saturating sum.
    pub open spec fn plus(self, other: Self) -> Self {
        StoreLocalStatistic {
            tables_loaded: saturating_sum(self.tables_loaded, other.tables_loaded),
            blocks_loaded: saturating_sum(self.blocks_loaded, other.blocks_loaded),
        }
    }

    /// Adds the counters of `other` to these.
    pub fn add(&mut self, other: &StoreLocalStatistic)
        ensures
            *final(self) == old(self).plus(*other),
    {
        self.tables_loaded = self.tables_loaded.saturating_add(other.tables_loaded);
        self.blocks_loaded = self.blocks_loaded.saturating_add(other.blocks_loaded);
    }

    /// Counts one more table.
    pub fn count_table(&mut self)
        ensures
            *final(self) == old(self).plus(StoreLocalStatistic { tables_loaded: 1, blocks_loaded: 0 }),
    {
        self.tables_loaded = self.tables_loaded.saturating_add(1);
    }

    /// Counts one more block.
    pub fn count_block(&mut self)
        ensures
            *final(self) == old(self).plus(StoreLocalStatistic { tables_loaded: 0, blocks_loaded: 1 }),
    {
        self.blocks_loaded = self.blocks_loaded.saturating_add(1);
    }
}

/// Adding counters does not depend on the order of the two operands.
pub proof fn lemma_plus_commutative(a: StoreLocalStatistic, b: StoreLocalStatistic)
    ensures
        a.plus(b) == b.plus(a),
{
}

/// Adding counters does not depend on how the operands are grouped.
pub proof fn lemma_plus_associative(
    a: StoreLocalStatistic,
    b: StoreLocalStatistic,
    c: StoreLocalStatistic,
)
    ensures
        a.plus(b).plus(c) == a.plus(b.plus(c)),
{
}

/// Adding counters that have counted nothing changes nothing.
pub proof fn lemma_plus_zero(a: StoreLocalStatistic)
    ensures
        a.plus(StoreLocalStatistic::zero()) == a,
        StoreLocalStatistic::zero().plus(a) == a,
{
}

/// The first `n` of a list of counters, added up.
pub open spec fn stats_sum(stats: Seq<StoreLocalStatistic>, n: int) -> StoreLocalStatistic
    decreases n,
{
    if n <= 0 {
        StoreLocalStatistic::zero()
    } else {
        stats_sum(stats, n - 1).plus(stats[n - 1])
    }
}

} // verus!
