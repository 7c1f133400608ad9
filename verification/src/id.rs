//! Sequential identifiers for the nodes of one parse.

use vstd::prelude::*;

verus! {

/// Hands out `1, 2, 3, ...`: each call of `next_id` returns one more than the last.
pub struct NodeIdGen(u64);

impl NodeIdGen {
    /// The identifier handed out last (0 before the first call).
    pub closed spec fn last(&self) -> u64 {
        self.0
    }

    pub fn new() -> (g: Self)
        ensures
            g.last() == 0,
    {
        NodeIdGen(0)
    }

    pub fn next_id(&mut self) -> (id: u64)
        requires
            old(self).last() < u64::MAX,
        ensures
            id == old(self).last() + 1,
            final(self).last() == id,
    {
        self.0 = self.0 + 1;
        self.0
    }
}

impl Default for NodeIdGen {
    fn default() -> (g: Self)
        ensures
            g.last() == 0,
    {
        Self::new()
    }
}

} // verus!
