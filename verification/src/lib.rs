//! A bounded, filtered directory-tree scanner.
//!
//! The scanner walks a snapshot of a directory tree up to a fixed depth,
//! drops hidden directories and a fixed set of noise directories, orders
//! siblings by case-insensitive name, and absorbs every failure (missing
//! path, unreadable directory, undetermined file type) as "no children
//! here" rather than reporting an error.

pub mod git;
pub mod laws;
pub mod order;
pub mod scan;
pub mod tree;

use vstd::prelude::*;

verus! {

/// The fixed depth bound: the root is depth 0, and a directory at this
/// depth is never expanded further.
pub const MAX_DEPTH: u32 = 4;

} // verus!
