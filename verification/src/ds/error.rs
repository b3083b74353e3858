//! Errors of this title's update operations.

use crate::error::ResourceKind;
use vstd::prelude::*;

verus! {

/// A failure while updating or importing this title's resources.
#[derive(Clone, Copy, Debug, PartialEq, Eq, Structural)]
pub enum DSError {
    /// An update names a chunk index outside the container.
    InvalidLocalResourceIdx { max: usize, got: usize },
    /// The update payload's kind differs from the chunk's current kind.
    ResourceNotMatchAtIdx { input: ResourceKind, original: ResourceKind },
    /// The line-list input's line count differs from its envelope.
    LineCountDoesntMatchWithInput { expected: usize, got: usize },
    /// A recorded line range exceeds the line-list input.
    InvalidIndex { max: usize, invalid_index: usize },
    /// A replacement string is too long for its length prefix.
    StringTooLong { got: usize, max: usize },
}

} // verus!
