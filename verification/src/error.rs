use vstd::prelude::*;

verus! {

/// What can go wrong while building or evaluating a chain of range tables.
#[derive(Clone, Copy, Debug, PartialEq, Eq, Structural)]
pub enum RangeError {
    /// A table entry has length zero, or two entries overlap in source space.
    MalformedTable,
    /// A minimum was asked of an empty collection.
    EmptyDomain,
    /// A range does not fit below `u64::MAX`.
    ArithmeticOverflow,
}

} // verus!
