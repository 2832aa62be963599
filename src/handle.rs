use vstd::prelude::*;

verus! {

/// A change applied to a connection under exclusive access.
pub trait ConnectionUpdate<C>: Sized {
    /// Whether applying `self` to `before` may leave the update as `f_after`
    /// and the connection as `after`.
    spec fn applied(&self, before: C, f_after: Self, after: C) -> bool;

    fn update(&mut self, conn: &mut C)
        ensures
            old(self).applied(*old(conn), *final(self), *final(conn)),
    ;
}

/// What a visitor asks of the walk over an interest list after one visit.
#[derive(Clone, Copy, Debug, PartialEq, Eq, Structural)]
pub enum IterationResult {
    /// Put the connection just visited at the back of the list, and go on
    /// with the next one.
    Continue,
    /// Stop, and put the connection just visited at the back of the list.
    BreakAndInsertAtBack,
    /// Stop, and leave the connection just visited at the front of the list.
    BreakAndInsertAtFront,
    /// Stop; the connection just visited leaves the list if it no longer asks
    /// for it, and stays at the front otherwise.
    BreakAndRemove,
}

/// A visit to one connection during a walk over an interest list.
pub trait ConnectionVisitor<C>: Sized {
    /// Whether visiting `before` with `self` may leave the visitor as
    /// `v_after` and the connection as `after`, with result `r`.
    spec fn visited(&self, before: C, v_after: Self, after: C, r: IterationResult) -> bool;

    fn visit(&mut self, conn: &mut C) -> (r: IterationResult)
        ensures
            old(self).visited(*old(conn), *final(self), *final(conn), r),
    ;
}

/// Why a handle refused access.
#[derive(Clone, Copy, Debug, PartialEq, Eq, Structural)]
pub enum HandleError {
    Unavailable,
}

/// Exclusive access to one connection, which can be poisoned: once poisoned,
/// every later access fails without touching the connection.
///
/// Exclusion comes from ownership: every access goes through `&self` or
/// `&mut self`, and the container serialises its callers, so no lock is
/// taken and no lock can report corruption. Poisoning is the one way access
/// fails.
pub struct Handle<C> {
    connection: C,
    poisoned: bool,
}

impl<C> Handle<C> {
    pub closed spec fn is_poisoned_spec(&self) -> bool {
        self.poisoned
    }

    /// The connection held.
    pub closed spec fn connection(&self) -> C {
        self.connection
    }

    pub fn new(connection: C) -> (r: Handle<C>)
        ensures
            !r.is_poisoned_spec(),
            r.connection() == connection,
    {
        Handle { connection, poisoned: false }
    }

    /// Marks the handle unavailable for good.
    pub fn poison(&mut self)
        ensures
            final(self).is_poisoned_spec(),
            final(self).connection() == old(self).connection(),
    {
        self.poisoned = true;
    }

    pub fn is_poisoned(&self) -> (r: bool)
        ensures
            r == self.is_poisoned_spec(),
    {
        self.poisoned
    }

    /// Applies `f` to the connection unless the handle is poisoned; a
    /// poisoned handle leaves `f` untouched.
    pub fn write<F: ConnectionUpdate<C>>(&mut self, f: &mut F) -> (r: Result<(), HandleError>)
        ensures
            r is Err <==> old(self).is_poisoned_spec(),
            final(self).is_poisoned_spec() == old(self).is_poisoned_spec(),
            r is Err ==> *final(f) == *old(f) && final(self).connection() == old(self).connection(),
            r is Ok ==> old(f).applied(old(self).connection(), *final(f), final(self).connection()),
    {
        if self.poisoned {
            return Err(HandleError::Unavailable);
        }
        f.update(&mut self.connection);
        Ok(())
    }

    /// Visits the connection unless the handle is poisoned; a poisoned handle
    /// leaves `v` untouched.
    pub fn visit<V: ConnectionVisitor<C>>(&mut self, v: &mut V) -> (r: Result<
        IterationResult,
        HandleError,
    >)
        ensures
            r is Err <==> old(self).is_poisoned_spec(),
            final(self).is_poisoned_spec() == old(self).is_poisoned_spec(),
            r is Err ==> *final(v) == *old(v) && final(self).connection() == old(self).connection(),
            r matches Ok(res) ==> old(v).visited(old(self).connection(), *final(v), final(self).connection(), res),
    {
        if self.poisoned {
            return Err(HandleError::Unavailable);
        }
        Ok(v.visit(&mut self.connection))
    }

    /// Reads the connection unless the handle is poisoned.
    pub fn read(&self) -> (r: Result<&C, HandleError>)
        ensures
            r is Err <==> self.is_poisoned_spec(),
            r matches Ok(c) ==> *c == self.connection(),
    {
        if self.poisoned {
            return Err(HandleError::Unavailable);
        }
        Ok(&self.connection)
    }
}

} // verus!
