//! The memory budget shared by the workers: a pool of bytes from which
//! guards take and to which they give back.
use vstd::prelude::*;

verus! {

/// The whole budget: 8 GiB.
pub const MEMORY_LIMIT_IN_BYTES: i64 = 8589934592;

/// The bytes still free in the shared budget.
#[derive(Debug)]
pub struct MemoryBudget {
    pub available: i64,
}

impl MemoryBudget {
    /// The full budget.
    pub fn new() -> (r: MemoryBudget)
        ensures
            r.available == MEMORY_LIMIT_IN_BYTES,
    {
        MemoryBudget { available: MEMORY_LIMIT_IN_BYTES }
    }
}

/// The bytes one user holds from the budget.
#[derive(Debug)]
pub struct BudgetGuard {
    busy_memory_in_bytes: i64,
}

impl BudgetGuard {
    /// Bytes held.
    pub closed spec fn busy(&self) -> int {
        self.busy_memory_in_bytes as int
    }

    /// The bytes a guard holds fit in an `i64`.
    pub proof fn busy_fits(&self)
        ensures
            i64::MIN <= self.busy() <= i64::MAX,
    {
    }

    /// Bytes held.
    pub fn busy_bytes(&self) -> (r: i64)
        ensures
            r == self.busy(),
    {
        self.busy_memory_in_bytes
    }

    /// Takes `additional_bytes` from the budget when that many are free
    /// (a negative amount gives bytes back). Nothing moves otherwise.
    pub fn try_grow(&mut self, budget: &mut MemoryBudget, additional_bytes: i64) -> (r: bool)
        requires
            i64::MIN <= old(self).busy() + additional_bytes <= i64::MAX,
            old(budget).available >= additional_bytes ==> old(budget).available - additional_bytes <= i64::MAX,
        ensures
            r == (old(budget).available >= additional_bytes),
            r ==> final(budget).available == old(budget).available - additional_bytes
                && final(self).busy() == old(self).busy() + additional_bytes,
            !r ==> *final(budget) == *old(budget) && final(self).busy() == old(self).busy(),
            final(budget).available + final(self).busy() == old(budget).available + old(self).busy(),
    {
        if budget.available < additional_bytes {
            return false;
        }
        budget.available = budget.available - additional_bytes;
        self.busy_memory_in_bytes = self.busy_memory_in_bytes + additional_bytes;
        true
    }

    /// Gives `realised_bytes` back to the budget.
    pub fn release(&mut self, budget: &mut MemoryBudget, realised_bytes: i64)
        requires
            old(budget).available + realised_bytes <= i64::MAX,
            old(budget).available + realised_bytes >= i64::MIN,
            old(self).busy() - realised_bytes <= i64::MAX,
            old(self).busy() - realised_bytes >= i64::MIN,
        ensures
            final(self).busy() == old(self).busy() - realised_bytes,
            final(budget).available == old(budget).available + realised_bytes,
            final(budget).available + final(self).busy() == old(budget).available + old(self).busy(),
    {
        self.busy_memory_in_bytes = self.busy_memory_in_bytes - realised_bytes;
        budget.available = budget.available + realised_bytes;
    }

    /// Ends the guard, giving back all it holds.
    pub fn finish(self, budget: &mut MemoryBudget)
        requires
            old(budget).available + self.busy() <= i64::MAX,
            old(budget).available + self.busy() >= i64::MIN,
        ensures
            final(budget).available == old(budget).available + self.busy(),
    {
        budget.available = budget.available + self.busy_memory_in_bytes;
    }
}

impl Default for BudgetGuard {
    fn default() -> (r: BudgetGuard)
        ensures
            r.busy() == 0,
    {
        BudgetGuard { busy_memory_in_bytes: 0 }
    }
}

} // verus!
