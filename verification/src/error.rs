//! Error taxonomy of the library.
//!
//! Structural failures abort the current container; `NoLocalResource` is
//! recoverable in group mode (the file is skipped).  I/O errors never
//! arise here: the library works on in-memory bytes, and the surrounding
//! program maps its own I/O failures itself.

use vstd::prelude::*;

verus! {

/// The kind of a resource or payload, for mismatch reports.
#[derive(Clone, Copy, Debug, PartialEq, Eq, Structural)]
pub enum ResourceKind {
    Localized,
    Cutscene,
    Others,
}

/// A failure while decoding, encoding or importing a container.
#[derive(Clone, Copy, Debug, PartialEq, Eq)]
pub enum Error {
    /// The stream ended in the middle of a record or a field.
    UnexpectedEof,
    /// A size, count or code field contradicts the format.
    InvalidStructure,
    /// A string field is not validly encoded text.
    InvalidEncoding,
    /// No localized payload was found anywhere in the stream.
    NoLocalResource,
    /// No file with the given extension was found.
    NoFileFound(&'static str),
    /// The line-list input's line count differs from its envelope.
    LineCountDoesntMatch { expected: usize, got: usize },
    /// A line range recorded in an envelope exceeds the line-list input.
    InvalidRange { max: usize },
}

/// The result type used throughout the library.
pub type DResult<T> = Result<T, Error>;

} // verus!
