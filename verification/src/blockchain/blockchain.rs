use vstd::prelude::*;
use crate::blockchain::block::{
    first_valid_nonce, pow_solvable, pow_valid, spec_block_hash, spec_merkle_root, with_nonce,
    Block, HeaderView,
};
use crate::blockchain::consensus::ConsensusAlgorithm;
use crate::blockchain::miner::Miner;
use crate::blockchain::transaction::Transaction;
use crate::constants::blockchain_node_type::BlockchainNodeType;
use crate::constants::fixed_sizes::{BLOCKCHAIN_VERSION, ZEROS_HASH};
use crate::constants::utils::calculate_block_hash;

verus! {

/// The header that a bootstrap node mines its genesis block from.
pub open spec fn genesis_view() -> HeaderView {
    HeaderView {
        index: 0,
        version: BLOCKCHAIN_VERSION,
        timestamp: 0,
        previous_hash: seq!['0'],
        merkle_root: spec_merkle_root(),
        nonce: 0,
    }
}

/// The nonce that `mine_block` gives a header under `consensus`.
pub open spec fn mined_nonce(consensus: ConsensusAlgorithm, h: HeaderView, n: u128) -> bool {
    match consensus {
        ConsensusAlgorithm::ProofOfWork => first_valid_nonce(h, n),
        ConsensusAlgorithm::DelegatedProofOfStake => n == h.nonce,
    }
}

/// Every block after the first names the hash its predecessor records, and
/// every block records its own hash.
pub open spec fn chain_valid(blocks: Seq<Block>) -> bool {
    forall|i: int|
        0 <= i < blocks.len() ==> (i > 0 ==> (#[trigger] blocks[i]).header.previous_hash@
            == blocks[i - 1].header.hash@) && spec_block_hash(blocks[i].header@)
            == blocks[i].header.hash@
}

/// A chain of blocks, the transactions waiting for a block, and how this
/// node takes part.
#[derive(Debug)]
pub struct Blockchain {
    blocks: Vec<Block>,
    current_transactions: Vec<Transaction>,
    miner: Miner,
    pub consensus_algorithm: ConsensusAlgorithm,
    node_type: BlockchainNodeType,
}

impl Blockchain {
    /// The blocks of the chain, in order.
    pub closed spec fn chain(&self) -> Seq<Block> {
        self.blocks@
    }

    /// The transactions waiting for a block.
    pub closed spec fn pending(&self) -> Seq<Transaction> {
        self.current_transactions@
    }

    /// The consensus algorithm of the chain.
    pub closed spec fn consensus(&self) -> ConsensusAlgorithm {
        self.consensus_algorithm
    }

    /// The role of this node.
    pub closed spec fn role(&self) -> BlockchainNodeType {
        self.node_type
    }

    /// The miner follows the consensus algorithm of the chain.
    pub closed spec fn wf(&self) -> bool {
        self.miner.consensus() == self.consensus_algorithm
    }

    /// An empty chain.
    pub fn new(consensus_algorithm: ConsensusAlgorithm, node_type: BlockchainNodeType) -> (c: Self)
        ensures
            c.wf(),
            c.chain() == Seq::<Block>::empty(),
            c.pending() == Seq::<Transaction>::empty(),
            c.consensus() == consensus_algorithm,
            c.role() == node_type,
    {
        Blockchain {
            blocks: Vec::new(),
            current_transactions: Vec::new(),
            miner: Miner::new(consensus_algorithm),
            consensus_algorithm,
            node_type,
        }
    }

    /// On a bootstrap node, mines the genesis block from `genesis_view()`,
    /// appends it and returns it; its recorded hash is that of the header
    /// with nonce 0. On other nodes, `None` and no change.
    pub fn init(&mut self) -> (res: Option<Block>)
        requires
            old(self).wf(),
            old(self).role() == BlockchainNodeType::Bootstrap && old(self).consensus()
                == ConsensusAlgorithm::ProofOfWork ==> pow_solvable(genesis_view()),
        ensures
            final(self).wf(),
            final(self).pending() == old(self).pending(),
            final(self).role() == old(self).role(),
            final(self).consensus() == old(self).consensus(),
            old(self).role() == BlockchainNodeType::Bootstrap ==> {
                &&& res matches Some(g)
                &&& mined_nonce(old(self).consensus(), genesis_view(), g.header.nonce)
                &&& g.header@ == with_nonce(genesis_view(), g.header.nonce)
                &&& g.header.hash@ == spec_block_hash(genesis_view())
                &&& g.transactions@.len() == 0
                &&& final(self).chain().len() == old(self).chain().len() + 1
                &&& final(self).chain().drop_last() == old(self).chain()
                &&& final(self).chain().last().header == g.header
            },
            old(self).role() != BlockchainNodeType::Bootstrap ==> res is None && final(self).chain()
                == old(self).chain(),
    {
        if self.node_type == BlockchainNodeType::Bootstrap {
            let mut genesis_block = Block::new(0, "0".to_owned(), "0".to_owned(), Vec::new());
            proof {
                reveal_strlit("0");
            }
            genesis_block.header.timestamp = 0;
            assert(genesis_block.header.previous_hash@ =~= seq!['0']);
            assert(genesis_block.header@ == genesis_view());
            let hash = calculate_block_hash(&genesis_block);
            genesis_block.header.hash = hash;
            let nonce = self.miner.mine_block(&genesis_block);
            genesis_block.header.nonce = nonce;
            self.blocks.push(genesis_block.clone());
            return Some(genesis_block);
        }
        None
    }

    /// Like `init`, where the genesis block can be mined: `None` and no change
    /// where the proof of work has no nonce for it.
    pub fn try_init(&mut self) -> (res: Option<Block>)
        requires
            old(self).wf(),
        ensures
            final(self).wf(),
            final(self).pending() == old(self).pending(),
            old(self).role() == BlockchainNodeType::Bootstrap && (old(self).consensus()
                != ConsensusAlgorithm::ProofOfWork || pow_solvable(genesis_view())) ==> {
                &&& res matches Some(g)
                &&& mined_nonce(old(self).consensus(), genesis_view(), g.header.nonce)
                &&& g.header@ == with_nonce(genesis_view(), g.header.nonce)
                &&& g.header.hash@ == spec_block_hash(genesis_view())
                &&& final(self).chain().len() == old(self).chain().len() + 1
                &&& final(self).chain().drop_last() == old(self).chain()
                &&& final(self).chain().last().header == g.header
            },
            old(self).role() != BlockchainNodeType::Bootstrap || (old(self).consensus()
                == ConsensusAlgorithm::ProofOfWork && !pow_solvable(genesis_view())) ==> res is None
                && final(self).chain() == old(self).chain(),
    {
        if self.node_type == BlockchainNodeType::Bootstrap {
            let mut genesis_block = Block::new(0, "0".to_owned(), "0".to_owned(), Vec::new());
            proof {
                reveal_strlit("0");
            }
            genesis_block.header.timestamp = 0;
            assert(genesis_block.header.previous_hash@ =~= seq!['0']);
            assert(genesis_block.header@ == genesis_view());
            let hash = calculate_block_hash(&genesis_block);
            genesis_block.header.hash = hash;
            match self.miner.try_mine_block(&genesis_block) {
                Some(nonce) => {
                    genesis_block.header.nonce = nonce;
                    self.blocks.push(genesis_block.clone());
                    return Some(genesis_block);
                },
                None => {
                    return None;
                },
            }
        }
        None
    }

    /// Appends `block` when it meets the proof of work and names as previous
    /// hash the hash the last block records (`ZEROS_HASH` for the first
    /// block); answers whether it was appended.
    pub fn add_block(&mut self, block: Block) -> (added: bool)
        requires
            old(self).chain().len() > 0 || (block.header.previous_hash@ == ZEROS_HASH@ && pow_valid(
                block.header@,
            )),
        ensures
            added == (pow_valid(block.header@) && if old(self).chain().len() == 0 {
                block.header.previous_hash@ == ZEROS_HASH@
            } else {
                block.header.previous_hash@ == old(self).chain().last().header.hash@
            }),
            added ==> final(self).chain() == old(self).chain().push(block),
            !added ==> final(self).chain() == old(self).chain(),
            final(self).pending() == old(self).pending(),
            final(self).wf() == old(self).wf(),
            final(self).role() == old(self).role(),
            final(self).consensus() == old(self).consensus(),
    {
        let zeros = ZEROS_HASH.to_owned();
        if self.blocks.len() == 0 && block.header.previous_hash == zeros && block.is_valid() {
            self.blocks.push(block);
            return true;
        } else {
            let prv_hsh = self.blocks[self.blocks.len() - 1].header.hash.clone();
            if block.header.previous_hash == prv_hsh && block.is_valid() {
                self.blocks.push(block);
                return true;
            }
        }
        false
    }

    /// Like `add_block`, where the chain can take `block`: `None` and no
    /// change where the chain is empty and `block` is no genesis block (its
    /// previous hash is not `ZEROS_HASH` or it misses the proof of work).
    pub fn try_add_block(&mut self, block: Block) -> (res: Option<bool>)
        ensures
            old(self).chain().len() == 0 && !(block.header.previous_hash@ == ZEROS_HASH@
                && pow_valid(block.header@)) ==> res is None && final(self).chain() == old(
                self,
            ).chain(),
            old(self).chain().len() > 0 || (block.header.previous_hash@ == ZEROS_HASH@
                && pow_valid(block.header@)) ==> res == Some(
                (pow_valid(block.header@) && if old(self).chain().len() == 0 {
                    block.header.previous_hash@ == ZEROS_HASH@
                } else {
                    block.header.previous_hash@ == old(self).chain().last().header.hash@
                }),
            ),
            res == Some(true) ==> final(self).chain() == old(self).chain().push(block),
            res != Some(true) ==> final(self).chain() == old(self).chain(),
            final(self).pending() == old(self).pending(),
            final(self).wf() == old(self).wf(),
            final(self).role() == old(self).role(),
            final(self).consensus() == old(self).consensus(),
    {
        if self.blocks.len() == 0 {
            let zeros = ZEROS_HASH.to_owned();
            if !(block.header.previous_hash == zeros && block.is_valid()) {
                return None;
            }
        }
        Some(self.add_block(block))
    }

    /// The number of blocks in the chain.
    pub fn block_count(&self) -> (n: usize)
        ensures
            n == self.chain().len(),
    {
        self.blocks.len()
    }

    /// Whether every block after the first names the hash its predecessor
    /// records, and every block records its own hash.
    pub fn is_chain_valid(&self) -> (res: bool)
        ensures
            res == chain_valid(self.chain()),
    {
        let mut i: usize = 0;
        while i < self.blocks.len()
            invariant
                i <= self.blocks@.len(),
                forall|j: int|
                    0 <= j < i ==> (j > 0 ==> (#[trigger] self.blocks@[j]).header.previous_hash@
                        == self.blocks@[j - 1].header.hash@) && spec_block_hash(
                        self.blocks@[j].header@,
                    ) == self.blocks@[j].header.hash@,
            decreases self.blocks@.len() - i,
        {
            let block = &self.blocks[i];
            if i > 0 {
                let previous_block = &self.blocks[i - 1];
                if block.header.previous_hash != previous_block.header.hash {
                    return false;
                }
            }
            let hash = calculate_block_hash(block);
            if hash != block.header.hash {
                return false;
            }
            i = i + 1;
        }
        true
    }

    /// Adds `transaction` to the transactions waiting for a block.
    pub fn add_transaction(&mut self, transaction: Transaction)
        ensures
            final(self).pending() == old(self).pending().push(transaction),
            final(self).chain() == old(self).chain(),
            final(self).wf() == old(self).wf(),
            final(self).role() == old(self).role(),
            final(self).consensus() == old(self).consensus(),
    {
        self.current_transactions.push(transaction);
    }

    /// Builds a block of the waiting transactions after the last block, then
    /// empties the waiting list; the chain does not change.
    pub fn create_block(&mut self)
        requires
            old(self).pending().len() > 0 ==> old(self).chain().len() > 0 && old(
                self,
            ).chain().last().header.index < u64::MAX,
        ensures
            final(self).pending() == Seq::<Transaction>::empty(),
            final(self).chain() == old(self).chain(),
            final(self).wf() == old(self).wf(),
            final(self).role() == old(self).role(),
            final(self).consensus() == old(self).consensus(),
    {
        if self.current_transactions.len() == 0 {
            assert(self.current_transactions@ =~= Seq::<Transaction>::empty());
            return;
        }
        let previous_block = &self.blocks[self.blocks.len() - 1];
        let index = previous_block.header.index + 1;
        let previous_hash = previous_block.header.hash.clone();
        let mut block = Block::new(index, previous_hash, String::new(), self.current_transactions.clone());
        let hash = calculate_block_hash(&block);
        block.header.hash = hash;
        self.current_transactions.clear();
    }

    /// `block` with the nonce the miner chooses and the hash of the result.
    pub fn mine_block(&self, block: Block) -> (res: Block)
        requires
            self.wf(),
            self.consensus() == ConsensusAlgorithm::ProofOfWork ==> pow_solvable(
                block.header@,
            ),
        ensures
            mined_nonce(self.consensus(), block.header@, res.header.nonce),
            res.header@ == with_nonce(block.header@, res.header.nonce),
            res.header.hash@ == spec_block_hash(res.header@),
            res.transactions@ == block.transactions@,
            self.consensus() == ConsensusAlgorithm::ProofOfWork ==> pow_valid(res.header@),
    {
        let mut blk = block.clone();
        let nonce = self.miner.mine_block(&block);
        blk.header.nonce = nonce;
        blk.header.hash = calculate_block_hash(&blk);
        blk
    }

    /// Like `mine_block`, where a nonce can be found: `None` where the proof
    /// of work has no nonce for `block`.
    pub fn try_mine_block(&self, block: Block) -> (res: Option<Block>)
        requires
            self.wf(),
        ensures
            match res {
                Some(b) => mined_nonce(self.consensus(), block.header@, b.header.nonce)
                    && b.header@ == with_nonce(block.header@, b.header.nonce) && b.header.hash@
                    == spec_block_hash(b.header@) && b.transactions@ == block.transactions@
                    && (self.consensus() == ConsensusAlgorithm::ProofOfWork ==> pow_valid(
                    b.header@,
                )),
                None => self.consensus() == ConsensusAlgorithm::ProofOfWork
                    && !pow_solvable(block.header@),
            },
    {
        match self.miner.try_mine_block(&block) {
            Some(nonce) => {
                let mut blk = block.clone();
                blk.header.nonce = nonce;
                blk.header.hash = calculate_block_hash(&blk);
                Some(blk)
            },
            None => None,
        }
    }
}

/// Appending a block that records its own hash and that `add_block` accepts
/// keeps a valid chain valid.
pub proof fn lemma_add_block_keeps_chain_valid(chain: Seq<Block>, block: Block)
    requires
        chain_valid(chain),
        spec_block_hash(block.header@) == block.header.hash@,
        chain.len() > 0 ==> block.header.previous_hash@ == chain.last().header.hash@,
    ensures
        chain_valid(chain.push(block)),
{
    let c = chain.push(block);
    assert forall|i: int| 0 <= i < c.len() implies (i > 0 ==> (#[trigger] c[i]).header.previous_hash@
        == c[i - 1].header.hash@) && spec_block_hash(c[i].header@) == c[i].header.hash@ by {
        if i < chain.len() {
            assert(c[i] == chain[i]);
            if i > 0 {
                assert(c[i - 1] == chain[i - 1]);
            }
        }
    }
}

} // verus!
