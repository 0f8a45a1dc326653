//! A distributed ledger: a Kademlia-style distributed hash table, a
//! proof-of-work blockchain and sealed-bid auctions, with the logic of each
//! stated and proved with Verus.
pub mod constants;
pub mod network;
pub mod dht;
pub mod blockchain;
pub mod auctions;
