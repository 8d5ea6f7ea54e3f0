//! A compact, binary symbol cache: it maps relative instruction addresses in a
//! compiled module to source functions, files and lines, including inlined
//! frames.
//!
//! The crate has three parts:
//! - [`raw`] declares the on-disk record layout and its constants;
//! - [`writer`] turns a stream of symbol and line records into a sorted,
//!   deduplicated byte buffer;
//! - [`lookup`] parses such a buffer, validates its invariants, and answers
//!   per-address queries with the full inline chain.

use vstd::prelude::*;

pub mod lookup;
pub mod raw;
pub mod session;
pub mod types;
pub mod writer;

verus! {

/// A row index into one of the cache tables.
pub type Index = u32;

/// A one-based source line number; zero means "unknown".
pub type LineNumber = u32;

/// An instruction address relative to the module's load address.
pub type RelativeAddress = u32;

} // verus!
