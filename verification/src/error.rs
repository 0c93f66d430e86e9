use vstd::prelude::*;

verus! {

/// The errors the store surfaces to its callers.
#[derive(Clone, Copy, Debug, PartialEq, Eq, Structural)]
pub enum KvsError {
    /// `remove` was called on a key that is not present.
    KeyNotFound,
    /// An indexed position decoded to a record that is not a `Set`.
    UnexpectedCommandType,
    /// A log file could not be decoded as a concatenation of records.
    CorruptLog,
}

} // verus!
