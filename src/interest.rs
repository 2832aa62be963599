use vstd::prelude::*;

verus! {

/// What a connection currently wants from the container.
///
/// `timeout` is an absolute deadline, in microseconds of the endpoint's clock.
#[derive(Clone, Copy, Debug, PartialEq, Eq, Structural)]
pub struct InterestSet {
    pub finalization: bool,
    pub closing: bool,
    pub accept: bool,
    pub transmission: bool,
    pub new_connection_id: bool,
    pub timeout: Option<u64>,
}

/// The interest set with nothing raised.
pub open spec fn no_interest() -> InterestSet {
    InterestSet {
        finalization: false,
        closing: false,
        accept: false,
        transmission: false,
        new_connection_id: false,
        timeout: None,
    }
}

impl InterestSet {
    /// An interest set with no flag raised and no deadline.
    pub fn none() -> (r: InterestSet)
        ensures
            r == no_interest(),
    {
        InterestSet {
            finalization: false,
            closing: false,
            accept: false,
            transmission: false,
            new_connection_id: false,
            timeout: None,
        }
    }
}

} // verus!
