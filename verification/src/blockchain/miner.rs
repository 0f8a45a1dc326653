use vstd::prelude::*;
use crate::blockchain::block::{first_valid_nonce, pow_solvable, pow_valid, with_nonce, Block};
use crate::blockchain::consensus::ConsensusAlgorithm;

verus! {

/// Chooses the nonce of blocks by a consensus algorithm.
#[derive(Debug)]
pub struct Miner {
    consensus: ConsensusAlgorithm,
}

impl Miner {
    /// The consensus algorithm of this miner.
    pub closed spec fn consensus(&self) -> ConsensusAlgorithm {
        self.consensus
    }

    /// A miner that follows `consensus`.
    pub fn new(consensus: ConsensusAlgorithm) -> (m: Miner)
        ensures
            m.consensus() == consensus,
    {
        Miner { consensus }
    }

    /// The nonce for `block`: by proof of work, the first nonce from the one
    /// the block carries on that meets the proof of work; by delegated proof
    /// of stake, the nonce the block carries.
    pub fn mine_block(&self, block: &Block) -> (nonce: u128)
        requires
            self.consensus() == ConsensusAlgorithm::ProofOfWork ==> pow_solvable(block.header@),
        ensures
            self.consensus() == ConsensusAlgorithm::ProofOfWork ==> first_valid_nonce(
                block.header@,
                nonce,
            ),
            self.consensus() == ConsensusAlgorithm::DelegatedProofOfStake ==> nonce
                == block.header.nonce,
    {
        match self.consensus {
            ConsensusAlgorithm::ProofOfWork => self.proof_of_work(block),
            ConsensusAlgorithm::DelegatedProofOfStake => self.proof_of_stake(block),
        }
    }

    /// Like `mine_block`, where a nonce can be found: `None` where the proof
    /// of work has no nonce from the one the block carries up to `u128::MAX`.
    pub fn try_mine_block(&self, block: &Block) -> (res: Option<u128>)
        ensures
            match res {
                Some(nonce) => (self.consensus() == ConsensusAlgorithm::ProofOfWork
                    ==> first_valid_nonce(block.header@, nonce)) && (self.consensus()
                    == ConsensusAlgorithm::DelegatedProofOfStake ==> nonce == block.header.nonce),
                None => self.consensus() == ConsensusAlgorithm::ProofOfWork && !pow_solvable(
                    block.header@,
                ),
            },
    {
        match self.consensus {
            ConsensusAlgorithm::ProofOfWork => Self::search_nonce(block),
            ConsensusAlgorithm::DelegatedProofOfStake => Some(self.proof_of_stake(block)),
        }
    }

    fn search_nonce(block: &Block) -> (res: Option<u128>)
        ensures
            match res {
                Some(n) => first_valid_nonce(block.header@, n),
                None => !pow_solvable(block.header@),
            },
    {
        let ghost h = block.header@;
        let mut nonce = block.header.nonce;
        loop
            invariant
                h == block.header@,
                h.nonce <= nonce,
                forall|m: u128| h.nonce <= m < nonce ==> !#[trigger] pow_valid(with_nonce(h, m)),
            decreases u128::MAX - nonce,
        {
            if Self::valid_proof(block, nonce) {
                return Some(nonce);
            }
            if nonce == u128::MAX {
                return None;
            }
            nonce = nonce + 1;
        }
    }

    fn proof_of_work(&self, block: &Block) -> (nonce: u128)
        requires
            pow_solvable(block.header@),
        ensures
            first_valid_nonce(block.header@, nonce),
    {
        let ghost h = block.header@;
        let mut nonce = block.header.nonce;
        let ghost w = choose|n: u128| h.nonce <= n && #[trigger] pow_valid(with_nonce(h, n));
        while !Self::valid_proof(block, nonce)
            invariant
                h == block.header@,
                h.nonce <= nonce <= w,
                pow_valid(with_nonce(h, w)),
                forall|m: u128| h.nonce <= m < nonce ==> !#[trigger] pow_valid(with_nonce(h, m)),
            decreases w - nonce,
        {
            nonce = nonce + 1;
        }
        nonce
    }

    fn proof_of_stake(&self, block: &Block) -> (nonce: u128)
        ensures
            nonce == block.header.nonce,
    {
        block.header.nonce
    }

    fn valid_proof(block: &Block, nonce: u128) -> (res: bool)
        ensures
            res == pow_valid(with_nonce(block.header@, nonce)),
    {
        let mut mining_block = block.clone();
        mining_block.header.nonce = nonce;
        assert(mining_block.header@ == with_nonce(block.header@, nonce));
        mining_block.is_valid()
    }
}

} // verus!
