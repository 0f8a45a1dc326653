use vstd::prelude::*;
use crate::constants::utils::{decimal_chars, push_decimal};
use crate::network::key::{spec_key_of, Key};

verus! {

/// A peer of the network: where it listens and its identifier.
#[derive(Debug, PartialEq, Eq, Hash)]
pub struct Node {
    pub ip: String,
    pub port: u16,
    pub id: Key,
}

/// The address `ip:port` of a peer, as characters.
pub open spec fn address_chars(ip: Seq<char>, port: u16) -> Seq<char> {
    ip + seq![':'] + decimal_chars(port as nat)
}

impl Clone for Node {
    fn clone(&self) -> (res: Self)
        ensures
            res == *self,
    {
        Node { ip: self.ip.clone(), port: self.port, id: self.id }
    }
}

impl Node {
    /// A node is well formed when its identifier is the key of its address.
    pub open spec fn wf(&self) -> bool {
        self.id@ == spec_key_of(address_chars(self.ip@, self.port))
    }

    /// The node listening at `ip:port`, identified by the key of that address.
    pub fn new(ip: String, port: u16) -> (node: Self)
        ensures
            node.ip == ip,
            node.port == port,
            node.id@ == spec_key_of(address_chars(ip@, port)),
            node.wf(),
    {
        let node_id = Self::format_address(&ip, port);
        let id = Key::new(node_id);
        Node { ip, port, id }
    }

    /// The address `ip:port` of this node.
    pub fn get_address(&self) -> (addr: String)
        ensures
            addr@ == address_chars(self.ip@, self.port),
    {
        Self::format_address(&self.ip, self.port)
    }

    fn format_address(ip: &String, port: u16) -> (addr: String)
        ensures
            addr@ == address_chars(ip@, port),
    {
        let mut addr = ip.clone();
        proof {
            reveal_strlit(":");
        }
        addr.append(":");
        push_decimal(&mut addr, port as u128);
        addr
    }
}

/// Counts of the interactions with a peer that succeeded and that failed.
#[derive(Clone, Copy, Debug, PartialEq, Eq, Structural)]
pub struct ThrustAndReputation {
    pub successful_interactions: u64,
    pub failed_interactions: u64,
}

impl ThrustAndReputation {
    /// The counts after one more interaction: a success when `success`, a
    /// failure otherwise; a count at its maximum stays there.
    pub open spec fn recorded(self, success: bool) -> Self {
        if success {
            ThrustAndReputation {
                successful_interactions: if self.successful_interactions == u64::MAX {
                    u64::MAX
                } else {
                    (self.successful_interactions + 1) as u64
                },
                failed_interactions: self.failed_interactions,
            }
        } else {
            ThrustAndReputation {
                successful_interactions: self.successful_interactions,
                failed_interactions: if self.failed_interactions == u64::MAX {
                    u64::MAX
                } else {
                    (self.failed_interactions + 1) as u64
                },
            }
        }
    }

    /// No interaction recorded.
    pub open spec fn spec_new() -> Self {
        ThrustAndReputation { successful_interactions: 0, failed_interactions: 0 }
    }

    /// No interaction recorded yet.
    pub fn new() -> (r: Self)
        ensures
            r == Self::spec_new(),
    {
        ThrustAndReputation { successful_interactions: 0, failed_interactions: 0 }
    }

    /// Records one more interaction: a success when `success`, a failure
    /// otherwise. The counters saturate at their maximum.
    pub fn update_interaction(self, success: bool) -> (r: Self)
        ensures
            r == self.recorded(success),
    {
        if success {
            ThrustAndReputation {
                successful_interactions: self.successful_interactions.saturating_add(1),
                failed_interactions: self.failed_interactions,
            }
        } else {
            ThrustAndReputation {
                successful_interactions: self.successful_interactions,
                failed_interactions: self.failed_interactions.saturating_add(1),
            }
        }
    }
}

} // verus!
