use vstd::prelude::*;

verus! {

/// A one-shot ownership cell: tagged storage that is either occupied by a
/// value or vacant. Taking the value swaps the cell to vacant, so a second
/// take observes the vacancy instead of a stale value.
pub struct Seat<T> {
    value: Option<T>,
}

impl<T> View for Seat<T> {
    type V = Option<T>;

    closed spec fn view(&self) -> Option<T> {
        self.value
    }
}

impl<T> Seat<T> {
    /// A seat that owns `value`.
    pub fn new(value: T) -> (s: Self)
        ensures
            s@ == Some(value),
    {
        Seat { value: Some(value) }
    }

    /// A seat that holds nothing.
    pub fn vacant() -> (s: Self)
        ensures
            s@ is None,
    {
        Seat { value: None }
    }

    /// Whether a value sits in the seat.
    pub fn is_occupied(&self) -> (r: bool)
        ensures
            r == self@ is Some,
    {
        self.value.is_some()
    }

    /// Moves the value out of the seat and leaves it vacant. A seat that was
    /// already vacant gives `None`.
    pub fn take(&mut self) -> (r: Option<T>)
        ensures
            r == old(self)@,
            final(self)@ is None,
    {
        self.value.take()
    }
}

} // verus!
