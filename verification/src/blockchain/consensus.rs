use vstd::prelude::*;

verus! {

/// How the nonce of a block is chosen.
#[derive(Clone, Copy, Debug, PartialEq, Eq, Structural)]
pub enum ConsensusAlgorithm {
    /// Search for a nonce that gives the block hash the required prefix.
    ProofOfWork,
    /// Keep the nonce that the block carries.
    DelegatedProofOfStake,
}

} // verus!
