use vstd::prelude::*;
use crate::constants::utils::{
    decimal_chars, hex_encode, is_lower_hex, lemma_hex_shape, push_decimal, seconds_since_epoch,
    spec_hex, utf8,
};

pub mod block;
pub mod blockchain;
pub mod blockchain_handler;
pub mod consensus;
pub mod miner;
pub mod transaction;

verus! {

/// A block of the simple chain: its position, creation time, data, and the
/// hashes of its predecessor and of itself.
#[derive(Debug)]
pub struct Block {
    pub index: u64,
    pub timestamp: u64,
    pub data: String,
    pub previous_hash: String,
    pub hash: String,
}

/// What `crypto_hash::digest` with `Algorithm::SHA256` yields for a byte sequence.
pub uninterp spec fn spec_crypto_hash_sha256(data: Seq<u8>) -> Seq<u8>;

/// `crypto_hash::digest(Algorithm::SHA256, data)`: the SHA-256 digest of
/// `data`, 32 bytes long.
#[verifier::external_body]
fn crypto_hash_sha256(data: &[u8]) -> (res: Vec<u8>)
    ensures
        res@ == spec_crypto_hash_sha256(data@),
        res@.len() == 32,
{
    crypto_hash::digest(crypto_hash::Algorithm::SHA256, data)
}

impl Block {
    /// The text that is hashed: index, timestamp, data and previous hash.
    pub open spec fn preimage(&self) -> Seq<char> {
        decimal_chars(self.index as nat) + decimal_chars(self.timestamp as nat) + self.data@
            + self.previous_hash@
    }

    /// The hash this block records.
    pub open spec fn recorded_hash(&self) -> Seq<char> {
        self.hash@
    }

    /// The hash this block names for its predecessor.
    pub open spec fn previous(&self) -> Seq<char> {
        self.previous_hash@
    }
}

/// The lowercase hex SHA-256 of the block's index, timestamp, data and
/// previous hash written one after another.
pub open spec fn spec_calculate_hash(block: Block) -> Seq<char> {
    spec_hex(spec_crypto_hash_sha256(utf8(block.preimage())))
}

/// The lowercase hex SHA-256 of the block's index, timestamp, data and
/// previous hash written one after another.
pub fn calculate_hash(block: &Block) -> (res: String)
    ensures
        res@ == spec_calculate_hash(*block),
        res@.len() == 64,
        is_lower_hex(res@),
{
    let mut data = String::new();
    push_decimal(&mut data, block.index as u128);
    push_decimal(&mut data, block.timestamp as u128);
    data.append(block.data.as_str());
    data.append(block.previous_hash.as_str());
    let hash = crypto_hash_sha256(data.as_str().as_bytes());
    proof {
        lemma_hex_shape(hash@);
    }
    hex_encode(hash.as_slice())
}

/// Every block after the first names the hash its predecessor records, and
/// every block records its own hash.
pub open spec fn simple_chain_valid(blocks: Seq<Block>) -> bool {
    forall|i: int|
        0 <= i < blocks.len() ==> (i > 0 ==> (#[trigger] blocks[i]).previous() == blocks[i
            - 1].recorded_hash()) && spec_calculate_hash(blocks[i]) == blocks[i].recorded_hash()
}

/// A chain of simple blocks.
pub struct Blockchain {
    blocks: Vec<Block>,
}

impl Blockchain {
    /// The blocks of the chain, in order.
    pub closed spec fn blocks(&self) -> Seq<Block> {
        self.blocks@
    }

    /// A chain of one genesis block that records its own hash.
    pub fn new() -> (c: Self)
        ensures
            c.blocks().len() == 1,
            c.blocks()[0].index == 0,
            c.blocks()[0].timestamp == 0,
            c.blocks()[0].data@ == "Genesis block"@,
            c.blocks()[0].previous_hash@ == "0"@,
            simple_chain_valid(c.blocks()),
    {
        proof {
            reveal_strlit("Genesis block");
            reveal_strlit("0");
        }
        let genesis_block = Block {
            index: 0,
            timestamp: 0,
            data: "Genesis block".to_owned(),
            previous_hash: "0".to_owned(),
            hash: String::new(),
        };
        let hash = calculate_hash(&genesis_block);
        let mut blocks = Vec::new();
        let genesis_block = Block { hash, ..genesis_block };
        blocks.push(genesis_block);
        Self { blocks }
    }

    /// Appends a block of `data` after the last block, stamped with the
    /// current time, that records its own hash.
    pub fn add_block(&mut self, data: String)
        requires
            old(self).blocks().len() > 0,
        ensures
            final(self).blocks().len() == old(self).blocks().len() + 1,
            final(self).blocks().drop_last() == old(self).blocks(),
            final(self).blocks().last().index == old(self).blocks().len(),
            final(self).blocks().last().data == data,
            final(self).blocks().last().previous() == old(self).blocks().last().recorded_hash(),
            spec_calculate_hash(final(self).blocks().last())
                == final(self).blocks().last().recorded_hash(),
            simple_chain_valid(old(self).blocks()) ==> simple_chain_valid(final(self).blocks()),
    {
        let previous_block = &self.blocks[self.blocks.len() - 1];
        let index = self.blocks.len() as u64;
        let timestamp = seconds_since_epoch();
        let previous_hash = previous_block.hash.clone();
        let block = Block { index, timestamp, data, previous_hash, hash: String::new() };
        let hash = calculate_hash(&block);
        let block = Block { hash, ..block };
        let ghost old_blocks = self.blocks@;
        self.blocks.push(block);
        proof {
            let c = self.blocks@;
            if simple_chain_valid(old_blocks) {
                assert forall|i: int| 0 <= i < c.len() implies (i > 0 ==> (#[trigger] c[i]).previous()
                    == c[i - 1].recorded_hash()) && spec_calculate_hash(c[i])
                    == c[i].recorded_hash() by {
                    if i < old_blocks.len() {
                        assert(c[i] == old_blocks[i]);
                        if i > 0 {
                            assert(c[i - 1] == old_blocks[i - 1]);
                        }
                    }
                }
            }
            assert(c.drop_last() =~= old_blocks);
        }
    }

    /// Whether every block after the first names the hash its predecessor
    /// records, and every block records its own hash.
    pub fn is_valid(&self) -> (res: bool)
        ensures
            res == simple_chain_valid(self.blocks()),
    {
        let mut i: usize = 0;
        while i < self.blocks.len()
            invariant
                i <= self.blocks@.len(),
                forall|j: int|
                    0 <= j < i ==> (j > 0 ==> (#[trigger] self.blocks@[j]).previous()
                        == self.blocks@[j - 1].recorded_hash()) && spec_calculate_hash(
                        self.blocks@[j],
                    ) == self.blocks@[j].recorded_hash(),
            decreases self.blocks@.len() - i,
        {
            let block = &self.blocks[i];
            if i > 0 {
                let previous_block = &self.blocks[i - 1];
                if block.previous_hash != previous_block.hash {
                    return false;
                }
            }
            let hash = calculate_hash(block);
            if hash != block.hash {
                return false;
            }
            i = i + 1;
        }
        true
    }
}

} // verus!
