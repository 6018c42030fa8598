//! Permit accounting for the two admission limiters.
//!
//! The engine bounds concurrently-open directory listings and file reads
//! with two independent counting limiters. This type is the ledger of one
//! limiter: how many permits exist and how many are out. Its invariant —
//! never more permits out than the limit — holds after every operation, so
//! however the tree fans out, the number of concurrent operations admitted
//! through a limiter of capacity `n` never exceeds `n`. Blocking until a
//! permit frees is the caller's scheduling concern; the ledger only ever
//! admits or refuses.

use vstd::prelude::*;

verus! {

/// One counting admission limiter's ledger.
pub struct Governor {
    limit: usize,
    in_use: usize,
}

impl Governor {
    /// The fixed capacity: the most permits ever out at once.
    pub closed spec fn capacity(self) -> nat {
        self.limit as nat
    }

    /// How many permits are out.
    pub closed spec fn outstanding(self) -> nat {
        self.in_use as nat
    }

    /// The bound the limiter exists for: never more permits out than the
    /// capacity.
    pub open spec fn wf(self) -> bool {
        self.outstanding() <= self.capacity()
    }

    /// A limiter with this capacity and no permit out.
    pub fn new(limit: usize) -> (g: Governor)
        ensures
            g.wf(),
            g.capacity() == limit,
            g.outstanding() == 0,
    {
        Governor { limit, in_use: 0 }
    }

    /// Admit one operation if capacity is free: admitted exactly when the
    /// limiter was not full.
    pub fn try_acquire(&mut self) -> (admitted: bool)
        requires
            old(self).wf(),
        ensures
            final(self).wf(),
            final(self).capacity() == old(self).capacity(),
            admitted <==> old(self).outstanding() < old(self).capacity(),
            admitted ==> final(self).outstanding() == old(self).outstanding() + 1,
            !admitted ==> final(self).outstanding() == old(self).outstanding(),
    {
        if self.in_use < self.limit {
            self.in_use = self.in_use + 1;
            true
        } else {
            false
        }
    }

    /// Give one permit back. Every exit path of an admitted operation,
    /// including failure, must come through here.
    pub fn release(&mut self)
        requires
            old(self).wf(),
            old(self).outstanding() > 0,
        ensures
            final(self).wf(),
            final(self).capacity() == old(self).capacity(),
            final(self).outstanding() == old(self).outstanding() - 1,
    {
        self.in_use = self.in_use - 1;
    }
}

} // verus!
