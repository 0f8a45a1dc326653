use vstd::prelude::*;
use crate::network::key::Key;
use crate::network::node::Node;

verus! {

/// The messages of the hash table protocol, with values looked up by key.
#[derive(Clone, Debug)]
pub enum Rpc {
    Ping,
    Store(String, String),
    FindNode(Key),
    FindValue(Key),
    Pong,
    FindNodeReply(Vec<Node>),
    FindValueReply(Key, String),
}

} // verus!
