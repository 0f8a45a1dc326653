use vstd::prelude::*;

verus! {

/// The role of a node in the blockchain network.
#[derive(Clone, Copy, Debug, PartialEq, Eq, Structural)]
pub enum BlockchainNodeType {
    /// Creates the genesis block and assembles the chain.
    Bootstrap,
    /// Mines blocks that others publish.
    Miner,
}

} // verus!
