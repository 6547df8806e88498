//! The errors of the engine.
use vstd::prelude::*;

verus! {

#[derive(Clone, Copy, Debug, PartialEq, Eq, Structural)]
pub enum LsmError {
    /// An iterator was moved on after one of its steps had failed.
    IteratorErrored,
    /// A byte string ends before what it should hold.
    Truncated,
    /// A checksum does not belong to the bytes it stands by.
    ChecksumMismatch,
    /// A byte string is not the stored form of a table.
    Corrupted,
    /// A table has more keys than a filter can be built for.
    TooManyKeys,
    /// There is no id left for another table.
    IdsUsedUp,
    /// A record of the manifest does not fit the records before it.
    BadRecord,
}

} // verus!
