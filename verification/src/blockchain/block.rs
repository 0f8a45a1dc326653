use vstd::prelude::*;
use vstd::string::StrSliceExecFns;
use crate::blockchain::transaction::Transaction;
use crate::constants::fixed_sizes::{BLOCKCHAIN_VERSION, POW_DIFFICULTY};
use crate::constants::utils::{
    calculate_block_hash, calculate_sha256, decimal_chars, get_timestamp_now, hex_encode,
    spec_hex, spec_sha256, utf8,
};

verus! {

/// The header of a block.
#[derive(Debug)]
pub struct BlockHeader {
    /// Index of the block in the blockchain.
    pub index: u64,
    /// Version of the block format.
    pub version: u8,
    /// Time when the block was created.
    pub timestamp: u64,
    /// Hash of the previous block in the blockchain.
    pub previous_hash: String,
    /// Hash of the current block.
    pub hash: String,
    /// Root of the Merkle tree of the transactions.
    pub merkle_root: String,
    /// Proof of work for the block.
    pub nonce: u128,
}

/// A block: its header and the transactions it stores.
#[derive(Debug)]
pub struct Block {
    pub header: BlockHeader,
    /// Transactions stored in the block.
    pub transactions: Vec<Transaction>,
}

impl Clone for BlockHeader {
    fn clone(&self) -> (res: Self)
        ensures
            res == *self,
    {
        BlockHeader {
            index: self.index,
            version: self.version,
            timestamp: self.timestamp,
            previous_hash: self.previous_hash.clone(),
            hash: self.hash.clone(),
            merkle_root: self.merkle_root.clone(),
            nonce: self.nonce,
        }
    }
}

impl Clone for Block {
    fn clone(&self) -> (res: Self)
        ensures
            res.header == self.header,
            res.transactions@ == self.transactions@,
    {
        let transactions = self.transactions.clone();
        proof {
            assert forall|i: int| 0 <= i < transactions@.len() implies transactions@[i]
                == self.transactions@[i] by {
                assert(cloned::<Transaction>(self.transactions[i], transactions[i]));
            }
            assert(transactions@ =~= self.transactions@);
        }
        Block { header: self.header.clone(), transactions }
    }
}

/// The fields of a header that its hash covers, with the texts as characters.
pub struct HeaderView {
    pub index: u64,
    pub version: u8,
    pub timestamp: u64,
    pub previous_hash: Seq<char>,
    pub merkle_root: Seq<char>,
    pub nonce: u128,
}

impl View for BlockHeader {
    type V = HeaderView;

    open spec fn view(&self) -> HeaderView {
        HeaderView {
            index: self.index,
            version: self.version,
            timestamp: self.timestamp,
            previous_hash: self.previous_hash@,
            merkle_root: self.merkle_root@,
            nonce: self.nonce,
        }
    }
}

/// The text that is hashed for a header: index, version, timestamp, previous
/// hash, Merkle root and nonce, written one after another.
pub open spec fn header_preimage(h: HeaderView) -> Seq<char> {
    decimal_chars(h.index as nat) + decimal_chars(h.version as nat) + decimal_chars(
        h.timestamp as nat,
    ) + h.previous_hash + h.merkle_root + decimal_chars(h.nonce as nat)
}

/// The hash of a header: the lowercase hex of the SHA-256 of its preimage.
pub open spec fn spec_block_hash(h: HeaderView) -> Seq<char> {
    spec_hex(spec_sha256(utf8(header_preimage(h))))
}

/// A header meets the proof of work: its hash starts with `POW_DIFFICULTY`
/// zero digits.
pub open spec fn pow_valid(h: HeaderView) -> bool {
    &&& spec_block_hash(h).len() >= POW_DIFFICULTY
    &&& forall|i: int| 0 <= i < POW_DIFFICULTY ==> #[trigger] spec_block_hash(h)[i] == '0'
}

/// The header with another nonce.
pub open spec fn with_nonce(h: HeaderView, nonce: u128) -> HeaderView {
    HeaderView { nonce, ..h }
}

/// Some nonce from the one in `h` on gives a header that meets the proof of work.
pub open spec fn pow_solvable(h: HeaderView) -> bool {
    exists|n: u128| h.nonce <= n && #[trigger] pow_valid(with_nonce(h, n))
}

/// `n` is the first nonce, from the one in `h` on, that meets the proof of work.
pub open spec fn first_valid_nonce(h: HeaderView, n: u128) -> bool {
    &&& h.nonce <= n
    &&& pow_valid(with_nonce(h, n))
    &&& forall|m: u128| h.nonce <= m < n ==> !#[trigger] pow_valid(with_nonce(h, m))
}

/// The Merkle root of any list of transactions: the hex SHA-256 of the empty text.
pub open spec fn spec_merkle_root() -> Seq<char> {
    spec_hex(spec_sha256(utf8(Seq::<char>::empty())))
}

impl BlockHeader {
    /// A header with the given fields, stamped with the current time (see
    /// `with_timestamp`).
    pub fn new(
        index: u64,
        version: u8,
        previous_hash: String,
        hash: String,
        merkle_root: String,
        nonce: u128,
    ) -> (h: BlockHeader)
        ensures
            h.index == index,
            h.version == version,
            h.previous_hash == previous_hash,
            h.hash == hash,
            h.merkle_root == merkle_root,
            h.nonce == nonce,
    {
        let timestamp = get_timestamp_now();
        BlockHeader::with_timestamp(index, version, timestamp, previous_hash, hash, merkle_root, nonce)
    }

    /// A header with the given fields, stamped with `timestamp`.
    pub fn with_timestamp(
        index: u64,
        version: u8,
        timestamp: u64,
        previous_hash: String,
        hash: String,
        merkle_root: String,
        nonce: u128,
    ) -> (h: BlockHeader)
        ensures
            h == (BlockHeader { index, version, timestamp, previous_hash, hash, merkle_root, nonce }),
    {
        BlockHeader { index, version, timestamp, previous_hash, hash, merkle_root, nonce }
    }
}

impl Block {
    /// A block of the current version with nonce 0, stamped with the current
    /// time, whose Merkle root is computed from `transactions`.
    pub fn new(index: u64, previous_hash: String, hash: String, transactions: Vec<Transaction>) -> (b: Block)
        ensures
            b.header.index == index,
            b.header.version == BLOCKCHAIN_VERSION,
            b.header.previous_hash == previous_hash,
            b.header.hash == hash,
            b.header.merkle_root@ == spec_merkle_root(),
            b.header.nonce == 0,
            b.transactions == transactions,
    {
        let merkle_root = Block::calculate_merkle_tree(&transactions);
        Block {
            header: BlockHeader::new(index, BLOCKCHAIN_VERSION, previous_hash, hash, merkle_root, 0),
            transactions,
        }
    }

    fn calculate_merkle_tree(transactions: &Vec<Transaction>) -> (root: String)
        ensures
            root@ == spec_merkle_root(),
    {
        let data = String::new();
        let digest = calculate_sha256(&data);
        hex_encode(digest.as_slice())
    }

    /// Whether the Merkle root in the header is that of the transactions.
    pub fn validate_merkle_tree(self) -> (res: bool)
        ensures
            res == (self.header.merkle_root@ == spec_merkle_root()),
    {
        let mt = Block::calculate_merkle_tree(&self.transactions);
        self.header.merkle_root == mt
    }

    /// Whether the block meets the proof of work: its hash starts with
    /// `POW_DIFFICULTY` zero digits.
    pub fn is_valid(&self) -> (res: bool)
        ensures
            res == pow_valid(self.header@),
    {
        let hash = calculate_block_hash(self);
        let s = hash.as_str();
        let len = s.unicode_len();
        if len < POW_DIFFICULTY {
            return false;
        }
        let mut i: usize = 0;
        while i < POW_DIFFICULTY
            invariant
                i <= POW_DIFFICULTY <= len,
                len == s@.len(),
                s@ == spec_block_hash(self.header@),
                forall|j: int| 0 <= j < i ==> s@[j] == '0',
            decreases POW_DIFFICULTY - i,
        {
            if s.get_char(i) != '0' {
                return false;
            }
            i = i + 1;
        }
        true
    }
}

} // verus!
