//! The error type that store operations and wire responses carry.
use vstd::prelude::*;

verus! {

/// Status of a store operation, as it also travels in wire responses.
#[derive(Clone, Copy, PartialEq, Eq, Structural, Debug)]
pub enum KvsError {
    /// The key was not found by a `get` or a `remove`.
    ErrKeyNotFound,
    /// The operation succeeded.
    ErrOk,
}

} // verus!
