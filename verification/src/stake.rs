//! Sums of stake, kept as the terms that they are made of.

use vstd::prelude::*;

verus! {

/// An equal part of a pool's stake: the pool's relative stake divided by
/// `parts`. A sum of stake is a list of these, added from the first on.
#[derive(Clone, Copy, Debug, PartialEq, Eq, Structural)]
pub struct Share {
    pub pool: usize,
    pub parts: u64,
}

impl DeepView for Share {
    type V = Share;

    open spec fn deep_view(&self) -> Share {
        *self
    }
}

/// The whole stake of a pool.
pub open spec fn whole(pool: int) -> Share {
    Share { pool: pool as usize, parts: 1 }
}

/// The terms at the places `at`.
pub open spec fn terms(shares: Seq<Share>, at: Seq<int>) -> Seq<Share> {
    Seq::new(at.len(), |i: int| shares[at[i]])
}

/// A copy of a sum.
pub fn copy_sum(sum: &[Share]) -> (v: Vec<Share>)
    ensures
        v@ == sum@,
{
    let mut v: Vec<Share> = Vec::new();
    let mut i: usize = 0;
    while i < sum.len()
        invariant
            i <= sum.len(),
            v@ == sum@.take(i as int),
        decreases sum.len() - i,
    {
        v.push(sum[i]);
        i += 1;
    }
    v
}

} // verus!
