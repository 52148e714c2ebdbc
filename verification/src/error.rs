use vstd::prelude::*;

verus! {

/// Why an operation on a table or an index was refused.
#[derive(Clone, Copy, Debug, PartialEq, Eq, Structural)]
pub enum Error {
    /// The identity is zero or beyond the last record, the slot is out of
    /// range, or no node matches the value or pair that was looked for.
    NotFound,
    /// The record handed to an insertion already carries an identity.
    InvalidArgument,
}

} // verus!
