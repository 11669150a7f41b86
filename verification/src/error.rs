//! The ways in which an operation fails.

use vstd::prelude::*;

verus! {

/// Why an operation was given up.
#[derive(Clone, Copy, Debug, PartialEq, Eq)]
pub enum Error {
    /// A path does not exist, or no directory can be found for it.
    NotFound,
    /// Reading, writing, copying, deleting or creating a directory failed.
    IoFailure,
    /// A path has no final component that could serve as a name.
    NoFileName,
}

} // verus!
