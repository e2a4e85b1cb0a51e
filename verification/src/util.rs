//! Small helpers around the store's backing connection.

use vstd::prelude::*;

verus! {

/// An error type for operations that never fail.
#[derive(Debug, Clone, Copy, PartialEq, Eq, Structural)]
pub struct Never {}

/// Marker for the connection customization that turns the foreign-key pragma
/// on when a pooled connection is acquired; the database-facing layer hooks
/// its pool with a copy of this.
#[derive(Debug, Clone, Copy, PartialEq, Eq, Structural)]
pub struct EnableForeignKeys;

impl EnableForeignKeys {
    /// The marker value.
    pub fn new() -> (r: Self)
        ensures
            r == EnableForeignKeys,
    {
        EnableForeignKeys
    }
}

} // verus!
