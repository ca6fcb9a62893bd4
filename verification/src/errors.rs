//! The error taxonomy shared by every fallible operation of the library.

use vstd::prelude::*;

verus! {

/// Why an operation failed.
///
/// - `AlreadyExists`: initializing over an existing config file without overwrite.
/// - `NotFound`: a missing config file, a missing filesystem path on add,
///   or a missing waypoint on edit.
/// - `ParseError`: malformed JSON, or a malformed priority or active answer.
/// - `IoError`: a filesystem read or write failure, reported by the caller.
/// - `ConfigError`: the home directory cannot be resolved.
/// - `Cancelled`: an interactive prompt was cancelled; surfaced as an error,
///   never as a silent no-op.
#[derive(Clone, Copy, Debug, PartialEq, Eq, Structural)]
pub enum WpError {
    AlreadyExists,
    NotFound,
    ParseError,
    IoError,
    ConfigError,
    Cancelled,
}

impl WpError {
    /// A short human-readable description, for the caller to print.
    pub fn describe(&self) -> (r: &'static str)
        ensures
            r@.len() > 0,
    {
        proof {
            reveal_strlit("config file already exists");
            reveal_strlit("not found");
            reveal_strlit("parse error: not a valid document");
            reveal_strlit("I/O error");
            reveal_strlit("couldn't resolve the home directory");
            reveal_strlit("cancelled");
        }
        match self {
            WpError::AlreadyExists => "config file already exists",
            WpError::NotFound => "not found",
            WpError::ParseError => "parse error: not a valid document",
            WpError::IoError => "I/O error",
            WpError::ConfigError => "couldn't resolve the home directory",
            WpError::Cancelled => "cancelled",
        }
    }
}

} // verus!
