use vstd::prelude::*;
use crate::blockchain::block::{pow_solvable, pow_valid, spec_block_hash, with_nonce, Block};
use crate::blockchain::blockchain::{chain_valid, mined_nonce, Blockchain};
use crate::blockchain::consensus::ConsensusAlgorithm;
use crate::constants::blockchain_node_type::BlockchainNodeType;
use crate::constants::fixed_sizes::ZEROS_HASH;
use crate::constants::multicast_info_type::MulticastInfoType;
use crate::dht::kademlia::KademliaDHT;
use crate::network::node::Node;

verus! {

/// What a node does with a payload it received by multicast.
#[derive(Clone, Copy, Debug, PartialEq, Eq, Structural)]
pub enum BlockAction {
    /// Nothing: the payload is no block, or this node has no part in it.
    Ignore,
    /// A bootstrap node with a valid chain fetches from the network the
    /// blocks before this one, from its previous hash back, until its chain
    /// takes one, then appends this block.
    CatchUpAndAdd,
    /// A miner that receives a block meeting the proof of work tells its
    /// miner that the block was mined.
    NotifyMiner,
    /// A miner that receives a block missing the proof of work mines it,
    /// appends it and broadcasts it (see `worker_nine`).
    Mine,
}

/// The action for a payload of type `payload_type` carrying `block`, on a node
/// of role `role` whose chain is `chain`.
pub open spec fn block_action(
    payload_type: MulticastInfoType,
    role: BlockchainNodeType,
    chain: Seq<Block>,
    block: Block,
) -> BlockAction {
    if payload_type != MulticastInfoType::Block {
        BlockAction::Ignore
    } else if role == BlockchainNodeType::Bootstrap && chain_valid(chain) {
        BlockAction::CatchUpAndAdd
    } else if role == BlockchainNodeType::Miner {
        if pow_valid(block.header@) {
            BlockAction::NotifyMiner
        } else {
            BlockAction::Mine
        }
    } else {
        BlockAction::Ignore
    }
}

/// Whether `add_block` appends `b` to `chain`: `b` meets the proof of work
/// and names the hash of the last block (`ZEROS_HASH` for the first block).
pub open spec fn accepts(chain: Seq<Block>, b: Block) -> bool {
    pow_valid(b.header@) && if chain.len() == 0 {
        b.header.previous_hash@ == ZEROS_HASH@
    } else {
        b.header.previous_hash@ == chain.last().header.hash@
    }
}

/// A node of the blockchain network: its node of the hash table, its chain,
/// and its role.
#[derive(Debug)]
pub struct BlockchainHandler {
    pub blockchain: Blockchain,
    pub kademlia: KademliaDHT,
    pub node_type: BlockchainNodeType,
}

impl BlockchainHandler {
    /// The chain and the hash table node are well formed, and the chain has
    /// this node's role.
    pub open spec fn wf(&self) -> bool {
        &&& self.blockchain.wf()
        &&& self.kademlia.wf()
        &&& self.blockchain.role() == self.node_type
    }

    /// A node of role `node_type` following `consensus`, with an empty chain
    /// and a hash table node that knows at most `bootstrap`.
    pub fn new(
        consensus: ConsensusAlgorithm,
        node: Node,
        node_type: BlockchainNodeType,
        bootstrap: Option<Node>,
    ) -> (h: BlockchainHandler)
        ensures
            h.wf(),
            h.node_type == node_type,
            h.blockchain.consensus() == consensus,
            h.blockchain.chain() == Seq::<Block>::empty(),
            h.kademlia.node == node,
            h.kademlia.store_values@ == Map::<Seq<char>, Seq<char>>::empty(),
    {
        let kademlia = KademliaDHT::new(node, bootstrap);
        let blockchain = Blockchain::new(consensus, node_type);
        BlockchainHandler { blockchain, kademlia, node_type }
    }

    /// What to do with a payload of type `payload_type` that carries `block`
    /// (see `block_action`).
    pub fn on_block(&self, payload_type: MulticastInfoType, block: &Block) -> (r: BlockAction)
        requires
            self.wf(),
        ensures
            r == block_action(payload_type, self.node_type, self.blockchain.chain(), *block),
    {
        if payload_type != MulticastInfoType::Block {
            return BlockAction::Ignore;
        }
        if self.node_type == BlockchainNodeType::Bootstrap && self.blockchain.is_chain_valid() {
            BlockAction::CatchUpAndAdd
        } else if self.node_type == BlockchainNodeType::Miner {
            if block.is_valid() {
                BlockAction::NotifyMiner
            } else {
                BlockAction::Mine
            }
        } else {
            BlockAction::Ignore
        }
    }

    /// Mines `block`, appends (a copy of) the result where the chain takes it
    /// (see `accepts`), and returns it to be broadcast; `None`, and no change, where the proof of
    /// work has no nonce for `block`.
    pub fn worker_nine(&mut self, block: Block) -> (res: Option<Block>)
        requires
            old(self).wf(),
        ensures
            final(self).wf(),
            final(self).kademlia == old(self).kademlia,
            final(self).blockchain.pending() == old(self).blockchain.pending(),
            match res {
                Some(b) => {
                    &&& mined_nonce(old(self).blockchain.consensus(), block.header@, b.header.nonce)
                    &&& b.header@ == with_nonce(block.header@, b.header.nonce)
                    &&& b.header.hash@ == spec_block_hash(b.header@)
                    &&& b.transactions@ == block.transactions@
                    &&& accepts(old(self).blockchain.chain(), b) ==> {
                        &&& final(self).blockchain.chain().len() == old(self).blockchain.chain().len() + 1
                        &&& final(self).blockchain.chain().drop_last() == old(self).blockchain.chain()
                        &&& final(self).blockchain.chain().last().header == b.header
                        &&& final(self).blockchain.chain().last().transactions@ == b.transactions@
                    }
                    &&& !accepts(old(self).blockchain.chain(), b) ==> final(self).blockchain.chain()
                        == old(self).blockchain.chain()
                },
                None => old(self).blockchain.consensus() == ConsensusAlgorithm::ProofOfWork
                    && !pow_solvable(block.header@) && final(self).blockchain.chain() == old(
                    self,
                ).blockchain.chain(),
            },
    {
        match self.blockchain.try_mine_block(block) {
            Some(mined) => {
                let copy = mined.clone();
                let _ = self.blockchain.try_add_block(copy);
                Some(mined)
            },
            None => None,
        }
    }
}

} // verus!
