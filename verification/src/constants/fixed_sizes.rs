use vstd::prelude::*;

verus! {

/// Bits in a byte.
pub const BYTE: usize = 8;

/// Length in bytes of a key (256 bits).
pub const KEY_SIZE: usize = 32;

/// Number of entries a k-bucket holds.
pub const K_BUCKET_SIZE: usize = 20;

/// Number of nodes queried in parallel during a lookup.
pub const ALPHA: usize = 3;

/// One bucket for each bit of a key: 32 bytes * 8 = 256 buckets.
pub const N_BUCKETS: usize = 256;

/// Buffer size used for UDP streaming.
pub const UDP_STREAMING_BUFFER_SIZE: usize = 8192;

/// Response timeout in milliseconds.
pub const RESPONSE_TIMEOUT: u64 = 8000;

/// Enables the S/Kademlia trust-weighted bucket placement.
pub const ENABLE_SECURITY: bool = false;

/// The previous hash that a genesis block carries.
pub const ZEROS_HASH: &'static str = "0000000000000000000000000000000000000000000000000000000000000000";

/// The version written in the header of new blocks.
pub const BLOCKCHAIN_VERSION: u8 = 1;

/// Number of leading `0` hex digits that the hash of a mined block has.
pub const POW_DIFFICULTY: usize = 3;

/// Period, in milliseconds, of the dumps of a node's state.
pub const DUMP_STATE_TIMEOUT: u64 = 5000;

/// Period, in milliseconds, of the republication of stored values.
pub const REPUBLISH_TIMEOUT: u64 = 60000;

} // verus!
