use vstd::prelude::*;
use crate::network::datagram::{Datagram, DatagramType};

verus! {

/// What the receiving service does with a datagram it decoded.
#[derive(Debug)]
pub enum Incoming {
    /// It is not addressed to this node, or does not come from where it says:
    /// it is dropped.
    Ignore,
    /// A request to answer.
    Request(Datagram),
    /// A response to hand to the request that waits for it.
    Response(Datagram),
    /// The service stops.
    Stop,
}

/// Sorts a datagram received from `src_addr` by a node listening at
/// `node_address`: one whose destination is not this node, or whose source
/// is not `src_addr`, is ignored; the others go by their type.
pub fn classify_datagram(data: Datagram, node_address: &String, src_addr: &String) -> (res: Incoming)
    ensures
        data.destination@ != node_address@ || data.source@ != src_addr@ ==> res is Ignore,
        data.destination@ == node_address@ && data.source@ == src_addr@ ==> match data.data_type {
            DatagramType::REQUEST => res == Incoming::Request(data),
            DatagramType::RESPONSE => res == Incoming::Response(data),
            DatagramType::KILL => res is Stop,
        },
{
    if data.destination != *node_address {
        return Incoming::Ignore;
    }
    if data.source != *src_addr {
        return Incoming::Ignore;
    }
    match data.data_type {
        DatagramType::REQUEST => Incoming::Request(data),
        DatagramType::RESPONSE => Incoming::Response(data),
        DatagramType::KILL => Incoming::Stop,
    }
}

/// A response with the token and payload of `d`, from its destination to its source.
pub open spec fn spec_reply(d: Datagram) -> Datagram {
    Datagram {
        token_id: d.token_id,
        data_type: DatagramType::RESPONSE,
        source: d.destination,
        destination: d.source,
        data: d.data,
    }
}

/// The datagram that carries `response` back: a response with the same token
/// and payload, from the request's destination to its source.
pub fn reply_datagram(response: Datagram) -> (reply: Datagram)
    ensures
        reply == spec_reply(response),
{
    Datagram {
        token_id: response.token_id,
        data_type: DatagramType::RESPONSE,
        source: response.destination,
        destination: response.source,
        data: response.data,
    }
}

/// Answering a reply sends it back between the same two ends: the reply
/// of the reply of `d` is `d` as a response.
pub proof fn lemma_reply_of_reply(d: Datagram)
    ensures
        spec_reply(spec_reply(d)) == (Datagram { data_type: DatagramType::RESPONSE, ..d }),
{
}

} // verus!
