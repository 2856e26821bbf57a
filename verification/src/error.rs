//! The error type shared by every operation of the engine.

use vstd::prelude::*;

verus! {

/// What can go wrong in the engine.
#[derive(Debug, Clone, Copy, PartialEq, Eq, Structural)]
pub enum Error {
    /// The bytes of a file do not form a sequence of records.
    MalformedRecord,
    /// A write to a sorted segment whose key is not above the last key written.
    OutOfOrderWrite,
}

} // verus!
