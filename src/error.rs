use vstd::prelude::*;

verus! {

/// The ways in which one run of the snapshot engine can fail.
#[derive(Debug)]
pub enum Error {
    /// A remote reference name without a `/` between remote and branch.
    InvalidRemoteRef,
    /// A remote reference that belongs to a remote other than `origin`.
    InvalidRemote,
    /// A reference that should have an open ledger row has none.
    MissingOpenRow(String),
    /// A reference to be opened in the ledger already has an open row.
    DuplicateOpenRow(String),
}

} // verus!
