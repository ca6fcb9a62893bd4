//! Curates the entries of an operating-system search path.
//!
//! A `Waypoint` records one search-path entry (location, tags, priority,
//! active flag); a `Config` is the persisted document holding the waypoints
//! and the derived exported path string. The library holds the whole data
//! model, the JSON codec for the on-disk document, and the command logic;
//! reading the environment, the terminal prompts and the file system stay
//! with the caller, which hands plain values in and takes plain values back.

pub mod cli;
pub mod config;
pub mod errors;
pub mod json;
pub mod text;
pub mod waypoint;

use vstd::prelude::*;

verus! {

/// The character that separates locations in an exported path string.
pub open spec fn sep_char() -> char {
    ':'
}

} // verus!
