use vstd::prelude::*;
use crate::network::key::Key;
use crate::network::node::Node;

verus! {

/// The messages that peers exchange.
#[derive(Clone, Debug)]
pub enum Rpc {
    Ping,
    Store(String, String),
    FindNode(Key),
    FindValue(String),
    Multicasting(String, String),
    Pong,
    FindNodeReply(Vec<Node>),
    FindValueReply(String, String),
}

} // verus!
