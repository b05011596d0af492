//! The two concurrency pools and what is held per pool.
use vstd::prelude::*;

verus! {

/// The two concurrency pools, one per backend-bound proof type.
#[derive(Copy, Clone, PartialEq, Eq, Hash, Debug, Structural)]
pub enum PoolId {
    /// Range proofs: GPU-bound.
    Range,
    /// Aggregation proofs: CPU-bound.
    Agg,
}

impl PoolId {
    /// The pool's label text.
    pub open spec fn spec_label(self) -> Seq<char> {
        match self {
            PoolId::Range => "range"@,
            PoolId::Agg => "agg"@,
        }
    }

    /// The pool's label in metrics and log lines.
    pub fn label(self) -> (s: &'static str)
        ensures
            s@ == self.spec_label(),
    {
        match self {
            PoolId::Range => "range",
            PoolId::Agg => "agg",
        }
    }
}

/// Why a request was (or would be) shed.
#[derive(Debug, Clone, Copy, PartialEq, Eq, Structural)]
pub enum RejectReason {
    /// Pool concurrency cap reached.
    PoolCap,
    /// Global cross-pool cap reached.
    GlobalCap,
    /// A free slot was held for a higher-priority (or earlier equal-rank) proposer.
    PriorityYield,
}

/// Why an enforcing gate turned a request away.
#[derive(Debug, Clone, Copy, PartialEq, Eq, Structural)]
pub struct Rejection {
    pub pool: PoolId,
    pub reason: RejectReason,
}

/// A `usize` held per pool.
#[derive(Clone, Copy, Debug, PartialEq, Eq, Structural)]
pub struct PerPool {
    pub range: usize,
    pub agg: usize,
}

impl PerPool {
    /// The value of `pool`.
    pub open spec fn at(self, pool: PoolId) -> usize {
        match pool {
            PoolId::Range => self.range,
            PoolId::Agg => self.agg,
        }
    }

    /// The same values, with `v` for `pool`.
    pub open spec fn with(self, pool: PoolId, v: usize) -> Self {
        match pool {
            PoolId::Range => PerPool { range: v, ..self },
            PoolId::Agg => PerPool { agg: v, ..self },
        }
    }

    /// The sum over both pools.
    pub open spec fn sum(self) -> int {
        self.range + self.agg
    }

    pub fn get(&self, pool: PoolId) -> (v: usize)
        ensures
            v == self.at(pool),
    {
        match pool {
            PoolId::Range => self.range,
            PoolId::Agg => self.agg,
        }
    }

    pub fn get_mut(&mut self, pool: PoolId) -> (v: &mut usize)
        ensures
            *v == old(self).at(pool),
            *final(self) == old(self).with(pool, *final(v)),
    {
        match pool {
            PoolId::Range => &mut self.range,
            PoolId::Agg => &mut self.agg,
        }
    }

    pub fn total(&self) -> (v: usize)
        requires
            self.sum() <= usize::MAX,
        ensures
            v == self.sum(),
    {
        self.range + self.agg
    }
}

impl Default for PerPool {
    fn default() -> (p: Self)
        ensures
            p == (PerPool { range: 0, agg: 0 }),
    {
        PerPool { range: 0, agg: 0 }
    }
}

} // verus!
