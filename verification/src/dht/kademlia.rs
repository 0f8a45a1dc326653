use vstd::prelude::*;
use crate::constants::fixed_sizes::{K_BUCKET_SIZE, N_BUCKETS};
use crate::dht::distance::{lemma_stable_sorted_keeps_entries, rd_pairs, stable_sorted, RoutingDistance};
use crate::dht::routing_table::{
    bucket_of, distance_pairs, first_seen, lemma_candidates_are_all_contacts,
    lemma_closest_nodes_give_every_contact, PingReply, RoutingTable,
};
use crate::dht::store::StoreValues;
use crate::network::datagram::{spec_split_address, Datagram, DatagramType};
use crate::network::key::{spec_key_of, spec_xor, Key};
use crate::network::node::{address_chars, Node, ThrustAndReputation};
use crate::network::rpc::Rpc;

verus! {

/// The response to `req` that carries `data`: same token and addresses.
pub open spec fn response_to(req: Datagram, data: Rpc) -> Datagram {
    Datagram {
        data_type: DatagramType::RESPONSE,
        token_id: req.token_id,
        source: req.source,
        destination: req.destination,
        data,
    }
}

/// `res` answers `req` with the same token and addresses.
pub open spec fn answers(res: Datagram, req: Datagram) -> bool {
    &&& res.data_type == DatagramType::RESPONSE
    &&& res.token_id == req.token_id
    &&& res.source == req.source
    &&& res.destination == req.destination
}

/// `nodes` are the contacts of `rt` nearest to `key`, nearest first, as
/// `get_closest_nodes` with capacity `K_BUCKET_SIZE` gives them.
pub open spec fn closest_reply(rt: RoutingTable, key: Seq<u8>, nodes: Seq<Node>) -> bool {
    let cands = rt.closest_candidates(key, K_BUCKET_SIZE as nat);
    let n = if K_BUCKET_SIZE < cands.len() {
        K_BUCKET_SIZE as int
    } else {
        cands.len() as int
    };
    nodes == stable_sorted(distance_pairs(cands, key)).take(n).map_values(
        |p: (Node, Seq<u8>)| p.0,
    )
}

/// `nodes` are every contact of `rt` outside its last bucket, and no others.
pub open spec fn carries_every_contact(rt: RoutingTable, nodes: Seq<Node>) -> bool {
    &&& nodes.len() == rt.contacts_outside_last()
    &&& forall|b: int, i: int|
        0 <= b < N_BUCKETS - 1 && 0 <= i < rt.bucket(b).len() ==> nodes.contains(
            #[trigger] rt.bucket(b)[i],
        )
}

/// When the buckets other than the last hold fewer than `K_BUCKET_SIZE`
/// contacts, the contacts that answer a `FindNode` (or a `FindValue` that
/// finds no value) are every one of those contacts, and no others.
pub proof fn lemma_reply_carries_every_contact(rt: RoutingTable, key: Seq<u8>, nodes: Seq<Node>)
    requires
        rt.wf(),
        rt.contacts_outside_last() < K_BUCKET_SIZE,
        closest_reply(rt, key, nodes),
    ensures
        carries_every_contact(rt, nodes),
{
    let cands = rt.closest_candidates(key, K_BUCKET_SIZE as nat);
    let n = if K_BUCKET_SIZE < cands.len() {
        K_BUCKET_SIZE as int
    } else {
        cands.len() as int
    };
    lemma_candidates_are_all_contacts(rt, key, K_BUCKET_SIZE as nat);
    let dp = distance_pairs(cands, key);
    lemma_stable_sorted_keeps_entries(dp);
    let res = stable_sorted(dp).take(n);
    assert(res.take(res.len() as int) =~= res);
    lemma_closest_nodes_give_every_contact(rt, key, K_BUCKET_SIZE as nat, res);
    assert forall|b: int, i: int| 0 <= b < N_BUCKETS - 1 && 0 <= i < rt.bucket(b).len() implies nodes.contains(
        #[trigger] rt.bucket(b)[i],
    ) by {
        let x = rt.bucket(b)[i];
        let p = (x, spec_xor(x.id@, key));
        assert(res.contains(p));
        let j = choose|j: int| 0 <= j < res.len() && res[j] == p;
        assert(nodes[j] == x);
    }
}

/// The reply to a `FindNode` request.
pub open spec fn find_node_reply_of(rt: RoutingTable, req: Datagram, res: Option<Datagram>) -> bool {
    match req.data {
        Rpc::FindNode(key) => match res {
            Some(d) => answers(d, req) && match d.data {
                Rpc::FindNodeReply(ns) => closest_reply(rt, key@, ns@),
                _ => false,
            },
            None => false,
        },
        _ => res is None,
    }
}

/// The reply to a `FindValue` request: the stored value when there is one,
/// else the contacts nearest to the key of the requested key.
pub open spec fn find_value_reply_of(
    rt: RoutingTable,
    store: Map<Seq<char>, Seq<char>>,
    req: Datagram,
    res: Option<Datagram>,
) -> bool {
    match req.data {
        Rpc::FindValue(k) => if store.contains_key(k@) {
            match res {
                Some(d) => answers(d, req) && match d.data {
                    Rpc::FindValueReply(rk, rv) => rk@ == k@ && rv@ == store[k@],
                    _ => false,
                },
                None => false,
            }
        } else {
            match res {
                Some(d) => answers(d, req) && match d.data {
                    Rpc::FindNodeReply(ns) => closest_reply(rt, spec_key_of(k@), ns@),
                    _ => false,
                },
                None => false,
            }
        },
        _ => res is None,
    }
}

/// A contact that `handle_request` enters in the routing table, whose bucket
/// was full: `head` should be pinged, then `complete_contact` called.
#[derive(Debug)]
pub struct PendingPing {
    pub contact: Node,
    pub head: Node,
}

/// The state of a node of the distributed hash table: its routing table, the
/// values it stores, and the node itself.
#[derive(Debug)]
pub struct KademliaDHT {
    pub routing_table: RoutingTable,
    pub store_values: StoreValues,
    pub node: Node,
}

impl KademliaDHT {
    /// The routing table and the store are well formed, and the table is the
    /// table of this node.
    pub open spec fn wf(&self) -> bool {
        &&& self.routing_table.wf()
        &&& self.store_values.wf()
        &&& self.routing_table.node == self.node
    }

    /// A node with an empty store and a routing table that holds at most the
    /// bootstrap node.
    pub fn new(node: Node, bootstrap_node: Option<Node>) -> (k: KademliaDHT)
        ensures
            k.wf(),
            k.node == node,
            k.routing_table.ids_unique(),
            k.store_values@ == Map::<Seq<char>, Seq<char>>::empty(),
            match bootstrap_node {
                None => (forall|b: int|
                    0 <= b < crate::constants::fixed_sizes::N_BUCKETS ==> #[trigger] k.routing_table.bucket(b).len() == 0)
                    && k.routing_table.reputation@ == Map::<Seq<u8>, ThrustAndReputation>::empty(),
                Some(bn) => (forall|b: int|
                    0 <= b < crate::constants::fixed_sizes::N_BUCKETS ==> #[trigger] k.routing_table.bucket(b) == if b
                        == bucket_of(node.id@, bn.id@) {
                        seq![bn]
                    } else {
                        Seq::<Node>::empty()
                    }) && k.routing_table.reputation@ == Map::<Seq<u8>, ThrustAndReputation>::empty().insert(
                    bn.id@,
                    first_seen().recorded(true),
                ),
            },
    {
        let routing = RoutingTable::new(node.clone(), bootstrap_node);
        KademliaDHT { routing_table: routing, store_values: StoreValues::new(), node }
    }

    /// The answer to a ping: a `Pong` with the request's token and addresses.
    pub fn ping_reply(&self, payload: Datagram) -> (res: Option<Datagram>)
        ensures
            res == Some(response_to(payload, Rpc::Pong)),
    {
        Some(
            Datagram {
                token_id: payload.token_id,
                source: payload.source,
                destination: payload.destination,
                data_type: DatagramType::RESPONSE,
                data: Rpc::Pong,
            },
        )
    }

    fn closest_nodes(&self, key: &Key) -> (nodes: Vec<Node>)
        requires
            self.wf(),
        ensures
            closest_reply(self.routing_table, key@, nodes@),
    {
        let res = self.routing_table.get_closest_nodes(key, K_BUCKET_SIZE);
        let mut nodes: Vec<Node> = Vec::new();
        let mut i: usize = 0;
        while i < res.len()
            invariant
                i <= res@.len(),
                nodes@ == rd_pairs(res@).take(i as int).map_values(|p: (Node, Seq<u8>)| p.0),
            decreases res@.len() - i,
        {
            let n = res[i].0.clone();
            nodes.push(n);
            proof {
                assert(rd_pairs(res@).take(i + 1) =~= rd_pairs(res@).take(i as int).push(
                    rd_pairs(res@)[i as int],
                ));
                assert(nodes@ =~= rd_pairs(res@).take(i + 1).map_values(
                    |p: (Node, Seq<u8>)| p.0,
                ));
            }
            i = i + 1;
        }
        proof {
            assert(rd_pairs(res@).take(res@.len() as int) =~= rd_pairs(res@));
            assert(rd_pairs(res@).len() == res@.len());
        }
        nodes
    }

    /// The answer to `FindNode(key)`: the contacts nearest to `key`. `None`
    /// for any other request.
    pub fn find_node_reply(&self, payload: Datagram) -> (res: Option<Datagram>)
        requires
            self.wf(),
        ensures
            find_node_reply_of(self.routing_table, payload, res),
            payload.data is FindNode && self.routing_table.contacts_outside_last() < K_BUCKET_SIZE
                ==> (res matches Some(d) && d.data matches Rpc::FindNodeReply(ns)
                && carries_every_contact(self.routing_table, ns@)),
    {
        if let Rpc::FindNode(key) = &payload.data {
            let closest_nodes = self.closest_nodes(key);
            proof {
                if self.routing_table.contacts_outside_last() < K_BUCKET_SIZE {
                    lemma_reply_carries_every_contact(self.routing_table, key@, closest_nodes@);
                }
            }
            return Some(
                Datagram {
                    token_id: payload.token_id,
                    source: payload.source,
                    destination: payload.destination,
                    data_type: DatagramType::RESPONSE,
                    data: Rpc::FindNodeReply(closest_nodes),
                },
            );
        }
        None
    }

    /// The answer to `FindValue(k)`: the value stored under `k`, or where
    /// there is none, the contacts nearest to the key of `k`. `None` for any
    /// other request.
    pub fn find_value_reply(&self, payload: Datagram) -> (res: Option<Datagram>)
        requires
            self.wf(),
        ensures
            find_value_reply_of(self.routing_table, self.store_values@, payload, res),
            payload.data matches Rpc::FindValue(k) && !self.store_values@.contains_key(k@)
                && self.routing_table.contacts_outside_last() < K_BUCKET_SIZE ==> (res matches Some(d)
                && d.data matches Rpc::FindNodeReply(ns) && carries_every_contact(self.routing_table, ns@)),
    {
        if let Rpc::FindValue(k) = &payload.data {
            match self.store_values.get(k) {
                Some(value) => {
                    let key = k.clone();
                    return Some(
                        Datagram {
                            token_id: payload.token_id,
                            source: payload.source,
                            destination: payload.destination,
                            data_type: DatagramType::RESPONSE,
                            data: Rpc::FindValueReply(key, value),
                        },
                    );
                },
                None => {
                    let search = Key::new(k.clone());
                    let closest_nodes = self.closest_nodes(&search);
                    proof {
                        if self.routing_table.contacts_outside_last() < K_BUCKET_SIZE {
                            lemma_reply_carries_every_contact(
                                self.routing_table,
                                search@,
                                closest_nodes@,
                            );
                        }
                    }
                    return Some(
                        Datagram {
                            token_id: payload.token_id,
                            source: payload.source,
                            destination: payload.destination,
                            data_type: DatagramType::RESPONSE,
                            data: Rpc::FindNodeReply(closest_nodes),
                        },
                    );
                },
            }
        }
        None
    }

    /// Stores the value of `Store(k, v)` under `k` and answers with a `Pong`.
    /// `None`, and no change, for any other request.
    pub fn store_reply(&mut self, payload: Datagram) -> (res: Option<Datagram>)
        requires
            old(self).wf(),
        ensures
            final(self).wf(),
            final(self).routing_table == old(self).routing_table,
            final(self).node == old(self).node,
            match payload.data {
                Rpc::Store(k, v) => final(self).store_values@ == old(self).store_values@.insert(
                    k@,
                    v@,
                ) && res == Some(response_to(payload, Rpc::Pong)),
                _ => final(self).store_values@ == old(self).store_values@ && res is None,
            },
    {
        match payload.data {
            Rpc::Store(k, value) => {
                self.store_values.insert(k, value);
                Some(
                    Datagram {
                        token_id: payload.token_id,
                        source: payload.source,
                        destination: payload.destination,
                        data_type: DatagramType::RESPONSE,
                        data: Rpc::Pong,
                    },
                )
            },
            _ => None,
        }
    }

    /// Answers a request and enters its sender in the routing table.
    ///
    /// The answer is that of `ping_reply`, `find_node_reply`,
    /// `find_value_reply` or `store_reply` for `Ping`, `FindNode`, `FindValue`
    /// and `Store`, and `None` for anything else. Where the source address
    /// splits into host and port, the node at that address is then entered
    /// with `update`; where its bucket is full, the contact and the head to
    /// ping are returned.
    pub fn handle_request(&mut self, req: Datagram) -> (res: (Option<Datagram>, Option<PendingPing>))
        requires
            old(self).wf(),
        ensures
            final(self).wf(),
            final(self).node == old(self).node,
            match req.data {
                Rpc::Ping => res.0 == Some(response_to(req, Rpc::Pong)),
                Rpc::FindNode(_) => find_node_reply_of(old(self).routing_table, req, res.0),
                Rpc::FindValue(_) => find_value_reply_of(
                    old(self).routing_table,
                    old(self).store_values@,
                    req,
                    res.0,
                ),
                Rpc::Store(_, _) => res.0 == Some(response_to(req, Rpc::Pong)),
                _ => res.0 is None,
            },
            match req.data {
                Rpc::Store(k, v) => final(self).store_values@ == old(self).store_values@.insert(
                    k@,
                    v@,
                ),
                _ => final(self).store_values@ == old(self).store_values@,
            },
            match spec_split_address(req.source@) {
                Some((ip, port)) => exists|c: Node, ping: Option<Node>|
                    #![trigger final(self).routing_table.updated_from(&old(self).routing_table, c, ping)]
                    c.ip@ == ip && c.port == port && c.wf()
                        && final(self).routing_table.updated_from(&old(self).routing_table, c, ping)
                        && match res.1 {
                        Some(p) => ping == Some(p.head) && p.contact == c,
                        None => ping is None,
                    },
                None => final(self).routing_table == old(self).routing_table && res.1 is None,
            },
    {
        let ghost old_self = *self;
        let source = req.extract_src_ip_port();
        let resp: Option<Datagram> = match &req.data {
            Rpc::Ping => self.ping_reply(req),
            Rpc::FindNode(_) => self.find_node_reply(req),
            Rpc::FindValue(_) => self.find_value_reply(req),
            Rpc::Store(_, _) => self.store_reply(req),
            _ => None,
        };
        let mut pending: Option<PendingPing> = None;
        if let Some(v) = source {
            let contact = Node::new(v.0, v.1);
            let ghost c = contact;
            let ghost before = self.routing_table;
            let ping = self.routing_table.update(contact.clone());
            if let Some(head) = ping {
                pending = Some(PendingPing { contact, head });
            }
            assert(self.routing_table.updated_from(&before, c, ping));
        }
        (resp, pending)
    }

    /// Where a value that a lookup found is cached: the last of the nodes the
    /// lookup gives (the farthest of those kept), or this node where it gives
    /// none.
    pub fn cache_target(&self, nodes: &Vec<RoutingDistance>) -> (n: Node)
        ensures
            n == (if nodes@.len() > 0 {
                nodes@.last().0
            } else {
                self.node
            }),
    {
        if nodes.len() > 0 {
            nodes[nodes.len() - 1].0.clone()
        } else {
            self.node.clone()
        }
    }

    /// Whether the pending update of `contact` can be completed: its bucket
    /// is not empty and its counts are recorded.
    pub open spec fn can_complete(&self, contact: Node) -> bool {
        &&& self.routing_table.bucket(bucket_of(self.routing_table.node.id@, contact.id@)).len() > 0
        &&& self.routing_table.reputation@.contains_key(contact.id@)
    }

    /// Completes the entry of `contact` into the routing table (see
    /// `RoutingTable::complete_update`) with what the pinged head did; does
    /// nothing where its bucket is empty or its counts are not recorded.
    pub fn complete_contact(&mut self, contact: Node, reply: PingReply)
        requires
            old(self).wf(),
        ensures
            final(self).wf(),
            final(self).node == old(self).node,
            final(self).store_values == old(self).store_values,
            !old(self).can_complete(contact) ==> final(self).routing_table == old(
                self,
            ).routing_table,
            old(self).can_complete(contact) ==> final(self).routing_table.completed_from(
                &old(self).routing_table,
                contact,
                reply,
            ),
    {
        let index = self.routing_table.node_find_bucket_index(&contact.id);
        if self.routing_table.buckets[index].nodes.len() > 0
            && self.routing_table.reputation.contains_key(&contact.id) {
            self.routing_table.complete_update(contact, reply);
        }
    }

    /// Records the answer of `destination` to a ping or a store request: a
    /// `Pong` enters it with `update` and gives `true`; another answer gives
    /// `false` and changes nothing; no answer removes it and gives `false`.
    /// The head to ping, when `update` finds a full bucket, is returned too.
    pub fn record_pong_reply(&mut self, destination: Node, reply: Option<Datagram>) -> (res: (
        bool,
        Option<Node>,
    ))
        requires
            old(self).wf(),
        ensures
            final(self).wf(),
            final(self).node == old(self).node,
            final(self).store_values == old(self).store_values,
            match reply {
                Some(d) => if d.data is Pong {
                    res.0 && final(self).routing_table.updated_from(
                        &old(self).routing_table,
                        destination,
                        res.1,
                    )
                } else {
                    !res.0 && res.1 is None && final(self).routing_table == old(self).routing_table
                },
                None => !res.0 && res.1 is None && final(self).routing_table.removed_from(
                    &old(self).routing_table,
                    destination,
                ),
            },
    {
        match reply {
            Some(d) => {
                if let Rpc::Pong = d.data {
                    let ping = self.routing_table.update(destination);
                    (true, ping)
                } else {
                    (false, None)
                }
            },
            None => {
                self.routing_table.remove(&destination);
                (false, None)
            },
        }
    }

    /// Records the answer of `destination` to a `FindNode` request. A
    /// `FindNodeReply` enters it with `update` and gives the contacts of the
    /// reply, each with its distance to this node; another answer gives
    /// `None` and changes nothing; no answer removes it and gives `None`.
    pub fn record_find_node_reply(&mut self, destination: Node, reply: Option<Datagram>) -> (res: (
        Option<Vec<RoutingDistance>>,
        Option<Node>,
    ))
        requires
            old(self).wf(),
        ensures
            final(self).wf(),
            final(self).node == old(self).node,
            final(self).store_values == old(self).store_values,
            match reply {
                Some(d) => match d.data {
                    Rpc::FindNodeReply(ns) => res.0 matches Some(rs) && rd_pairs(rs@)
                        == ns@.map_values(
                        |n: Node| (n, spec_xor(old(self).node.id@, n.id@)),
                    ) && final(self).routing_table.updated_from(
                        &old(self).routing_table,
                        destination,
                        res.1,
                    ),
                    _ => res.0 is None && res.1 is None && final(self).routing_table == old(
                        self,
                    ).routing_table,
                },
                None => res.0 is None && res.1 is None && final(self).routing_table.removed_from(
                    &old(self).routing_table,
                    destination,
                ),
            },
    {
        match reply {
            Some(d) => {
                if let Rpc::FindNodeReply(n) = d.data {
                    let ping = self.routing_table.update(destination);
                    let mut ret: Vec<RoutingDistance> = Vec::new();
                    let mut i: usize = 0;
                    while i < n.len()
                        invariant
                            i <= n@.len(),
                            rd_pairs(ret@) == n@.take(i as int).map_values(
                                |a: Node| (a, spec_xor(self.node.id@, a.id@)),
                            ),
                        decreases n@.len() - i,
                    {
                        let a = n[i].clone();
                        let dist = self.node.id.distance(&a.id);
                        let ghost before = ret@;
                        ret.push(RoutingDistance(a, dist));
                        proof {
                            assert(rd_pairs(ret@) =~= rd_pairs(before).push((n@[i as int], dist@)));
                            assert(n@.take(i + 1) =~= n@.take(i as int).push(n@[i as int]));
                            assert(rd_pairs(ret@) =~= n@.take(i + 1).map_values(
                                |a: Node| (a, spec_xor(self.node.id@, a.id@)),
                            ));
                        }
                        i = i + 1;
                    }
                    assert(n@.take(n@.len() as int) =~= n@);
                    (Some(ret), ping)
                } else {
                    (None, None)
                }
            },
            None => {
                self.routing_table.remove(&destination);
                (None, None)
            },
        }
    }

    /// Records the answer of `destination` to a `FindValue` request: any
    /// answer enters it with `update` and its payload is returned; no answer
    /// removes it and gives `None`.
    pub fn record_find_value_reply(&mut self, destination: Node, reply: Option<Datagram>) -> (res: (
        Option<Rpc>,
        Option<Node>,
    ))
        requires
            old(self).wf(),
        ensures
            final(self).wf(),
            final(self).node == old(self).node,
            final(self).store_values == old(self).store_values,
            match reply {
                Some(d) => res.0 == Some(d.data) && final(self).routing_table.updated_from(
                    &old(self).routing_table,
                    destination,
                    res.1,
                ),
                None => res.0 is None && res.1 is None && final(self).routing_table.removed_from(
                    &old(self).routing_table,
                    destination,
                ),
            },
    {
        match reply {
            Some(dg) => {
                let ping = self.routing_table.update(destination);
                (Some(dg.data), ping)
            },
            None => {
                self.routing_table.remove(&destination);
                (None, None)
            },
        }
    }
}

/// What a `Store` request writes under a key, a `FindValue` request for that
/// key then reads back.
pub proof fn lemma_store_then_find_value(
    rt: RoutingTable,
    store: Map<Seq<char>, Seq<char>>,
    k: Seq<char>,
    v: Seq<char>,
    req: Datagram,
    res: Option<Datagram>,
)
    requires
        match req.data {
            Rpc::FindValue(rk) => rk@ == k,
            _ => false,
        },
        find_value_reply_of(rt, store.insert(k, v), req, res),
    ensures
        match res {
            Some(d) => answers(d, req) && match d.data {
                Rpc::FindValueReply(ak, av) => ak@ == k && av@ == v,
                _ => false,
            },
            None => false,
        },
{
}

} // verus!
