//! The failures of the namespace.

use vstd::prelude::*;

verus! {

/// Why a path could not be registered or resolved.
#[derive(Debug, Clone, Copy, PartialEq, Eq, Structural)]
pub enum VfsError {
    /// No candidate at any level produced a resource.
    NotFound,
    /// The path holds a `..` segment.
    InvalidPath,
    /// A provider could not be constructed from what it was given.
    InvalidInput,
    /// Any other failure of a provider.
    Other,
}

} // verus!
