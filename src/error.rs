use crate::relay::Hash32;
use vstd::prelude::*;

verus! {

/// Failures of the payload builder.
#[derive(Debug, PartialEq, Eq)]
pub enum Error {
    /// Not aware of any proposals for the slot.
    NoProposals(u64),
    /// Missing a build request with the identifier.
    MissingBuild(u64),
    /// Missing the parent block with the hash.
    MissingParentBlock(Hash32),
    /// A payload was requested before the build produced one.
    PayloadNotPrepared(u64),
    /// Malformed consensus data.
    Consensus,
    /// The execution client failed.
    Reth,
    /// The payload builder failed.
    RethPayloadBuilder,
    /// Transaction execution failed.
    Execution,
    /// Any other failure, described.
    Internal(String),
}

} // verus!
