use vstd::prelude::*;

verus! {

/// Why a query, or one step of the aliasing tracker, was refused.
#[derive(Clone, Copy, Debug, PartialEq, Eq, Structural)]
pub enum QueryError {
    /// The component type was never inserted into the world.
    UnknownComponent,
    /// The access mode asked for cannot be granted next to the ones already
    /// granted for the same component type.
    BorrowConflict,
    /// One more shared borrow would not fit in the read counter.
    CounterOverflow,
}

} // verus!
