//! Snapshots of a git repository's remote references: a ledger of the
//! intervals during which each reference pointed at a commit, and the
//! planning of the "keeper" references that stop those commits from being
//! garbage-collected.
use vstd::prelude::*;

pub mod apis;
pub mod error;
pub mod ledger;
pub mod refs;
pub mod retention;

pub use error::Error;
pub use refs::{Ref, RefDiff};

verus! {

} // verus!
