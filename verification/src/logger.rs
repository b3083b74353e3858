//! Logging and progress callbacks.
//!
//! These are pure side-effecting interfaces for the surrounding program
//! to implement: they carry no data back and never alter control flow.

use vstd::prelude::*;

verus! {

/// A sink for log messages.
pub trait Logger: Sized {
    /// Logs an informational message.
    fn info(&mut self, msg: &str);

    /// Logs a success message.
    fn good(&mut self, msg: &str);

    /// Logs a warning.
    fn warn(&mut self, msg: &str);

    /// Logs an error.
    fn error(&mut self, msg: &str);
}

/// A progress report for one long-running operation.
pub trait Progress: Sized {
    /// Adds one completed unit of work.
    fn add_progress(&mut self);

    /// Ends the report; runs on every exit path of the operation.
    fn end_progress(&mut self);
}

} // verus!
