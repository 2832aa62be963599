use vstd::prelude::*;

verus! {

/// The handoff queue from the container to the acceptor.
///
/// While the acceptor is attached, sent ids queue up in order; once it is
/// dropped, the channel is closed for good and sends are discarded.
pub struct AcceptChannel {
    queue: Vec<u64>,
    closed: bool,
}

impl AcceptChannel {
    /// The ids sent and not yet received, oldest first.
    pub closed spec fn pending(&self) -> Seq<u64> {
        self.queue@
    }

    pub closed spec fn is_closed_spec(&self) -> bool {
        self.closed
    }

    pub fn new() -> (r: AcceptChannel)
        ensures
            r.pending() == Seq::<u64>::empty(),
            !r.is_closed_spec(),
    {
        AcceptChannel { queue: Vec::new(), closed: false }
    }

    /// Queues `id` for the acceptor; does nothing once the channel is closed.
    pub fn send(&mut self, id: u64)
        ensures
            final(self).is_closed_spec() == old(self).is_closed_spec(),
            old(self).is_closed_spec() ==> final(self).pending() == old(self).pending(),
            !old(self).is_closed_spec() ==> final(self).pending() == old(self).pending().push(id),
    {
        if !self.closed {
            self.queue.push(id);
        }
    }

    /// Takes every pending id, oldest first.
    pub fn receive_all(&mut self) -> (r: Vec<u64>)
        ensures
            r@ == old(self).pending(),
            final(self).pending() == Seq::<u64>::empty(),
            final(self).is_closed_spec() == old(self).is_closed_spec(),
    {
        let mut taken: Vec<u64> = Vec::new();
        std::mem::swap(&mut taken, &mut self.queue);
        taken
    }

    /// Drops the acceptor: pending ids are discarded and later sends ignored.
    pub fn close(&mut self)
        ensures
            final(self).is_closed_spec(),
            final(self).pending() == Seq::<u64>::empty(),
    {
        self.closed = true;
        self.queue = Vec::new();
    }

    pub fn is_closed(&self) -> (r: bool)
        ensures
            r == self.is_closed_spec(),
    {
        self.closed
    }
}

} // verus!
