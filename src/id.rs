use vstd::prelude::*;

verus! {

/// Mints internal connection ids: each id is greater than every id minted
/// before it by the same generator.
pub struct InternalConnectionIdGenerator {
    next: u64,
}

impl InternalConnectionIdGenerator {
    /// The id that the next call of `generate_id` returns.
    pub closed spec fn next_id(&self) -> u64 {
        self.next
    }

    pub fn new() -> (r: InternalConnectionIdGenerator)
        ensures
            r.next_id() == 0,
    {
        InternalConnectionIdGenerator { next: 0 }
    }

    /// Returns a fresh id, strictly greater than any returned before.
    pub fn generate_id(&mut self) -> (r: u64)
        requires
            old(self).next_id() < u64::MAX,
        ensures
            r == old(self).next_id(),
            final(self).next_id() == r + 1,
    {
        let r = self.next;
        self.next = self.next + 1;
        r
    }
}

} // verus!
