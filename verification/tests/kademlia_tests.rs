use distributed_legder::constants::fixed_sizes::K_BUCKET_SIZE;
use distributed_legder::dht::distance::RoutingDistance;
use distributed_legder::dht::kademlia::KademliaDHT;
use distributed_legder::dht::lookup::Lookup;
use distributed_legder::dht::routing_table::PingReply;
use distributed_legder::network::datagram::{Datagram, DatagramType};
use distributed_legder::network::key::Key;
use distributed_legder::network::node::Node;
use distributed_legder::network::rpc::Rpc;

fn own() -> Node {
    Node { ip: "10.0.0.2".to_string(), port: 1432, id: Key([0u8; 32]) }
}

fn request(source: &str, data: Rpc) -> Datagram {
    Datagram {
        data_type: DatagramType::REQUEST,
        token_id: Key::new("token-1".to_string()),
        source: source.to_string(),
        destination: "10.0.0.2:1432".to_string(),
        data,
    }
}

fn contact(port: u16, first: u8, last: u8) -> Node {
    let mut b = [0u8; 32];
    b[0] = first;
    b[31] = last;
    Node { ip: "10.0.0.7".to_string(), port, id: Key(b) }
}

fn entry(n: Node, first: u8) -> RoutingDistance {
    let mut d = [0u8; 32];
    d[0] = first;
    RoutingDistance(n, d)
}

#[test]
fn ping_is_answered_with_pong() {
    let kad = KademliaDHT::new(own(), None);
    let req = request("10.0.0.1:1500", Rpc::Ping);
    let res = kad.ping_reply(req.clone()).unwrap();
    assert_eq!(res.data_type, DatagramType::RESPONSE);
    assert!(res.token_id == req.token_id);
    assert_eq!(res.source, req.source);
    assert_eq!(res.destination, req.destination);
    assert!(matches!(res.data, Rpc::Pong));
}

#[test]
fn stored_value_is_found_again() {
    let mut kad = KademliaDHT::new(own(), None);
    let stored = kad.store_reply(request("10.0.0.1:1500", Rpc::Store("k".to_string(), "v".to_string())));
    assert!(matches!(stored.unwrap().data, Rpc::Pong));
    let found = kad.find_value_reply(request("10.0.0.1:1500", Rpc::FindValue("k".to_string()))).unwrap();
    match found.data {
        Rpc::FindValueReply(k, v) => {
            assert_eq!(k, "k");
            assert_eq!(v, "v");
        }
        _ => panic!("expected the stored value"),
    }
    kad.store_reply(request("10.0.0.1:1500", Rpc::Store("k".to_string(), "w".to_string())));
    match kad.find_value_reply(request("x:1", Rpc::FindValue("k".to_string()))).unwrap().data {
        Rpc::FindValueReply(_, v) => assert_eq!(v, "w"),
        _ => panic!("expected the stored value"),
    }
    assert_eq!(kad.store_values.len(), 1);
    let (k, v) = kad.store_values.entry(0);
    assert_eq!((k.as_str(), v.as_str()), ("k", "w"));
}

#[test]
fn missing_value_is_answered_with_contacts() {
    let kad = KademliaDHT::new(own(), Some(contact(1500, 0x80, 0)));
    let res = kad.find_value_reply(request("x:1", Rpc::FindValue("absent".to_string()))).unwrap();
    match res.data {
        Rpc::FindNodeReply(nodes) => assert!(nodes.len() <= K_BUCKET_SIZE),
        _ => panic!("expected contacts"),
    }
}

#[test]
fn requests_of_other_kinds_get_no_answer() {
    let mut kad = KademliaDHT::new(own(), None);
    assert!(kad.find_node_reply(request("x:1", Rpc::Ping)).is_none());
    assert!(kad.find_value_reply(request("x:1", Rpc::Ping)).is_none());
    assert!(kad.store_reply(request("x:1", Rpc::Ping)).is_none());
    let (res, pending) = kad.handle_request(request("nocolon", Rpc::Pong));
    assert!(res.is_none());
    assert!(pending.is_none());
}

#[test]
fn find_node_returns_nearest_contacts() {
    let mut kad = KademliaDHT::new(own(), None);
    kad.routing_table.update(contact(1, 0x40, 0));
    kad.routing_table.update(contact(2, 0x41, 0));
    let mut target = [0u8; 32];
    target[0] = 0x41;
    let res = kad.find_node_reply(request("x:1", Rpc::FindNode(Key(target)))).unwrap();
    match res.data {
        Rpc::FindNodeReply(nodes) => {
            assert_eq!(nodes.iter().map(|n| n.port).collect::<Vec<_>>(), vec![2, 1])
        }
        _ => panic!("expected contacts"),
    }
}

#[test]
fn request_sender_enters_routing_table() {
    let mut kad = KademliaDHT::new(own(), None);
    let (res, pending) = kad.handle_request(request("10.0.0.1:1500", Rpc::Ping));
    assert!(matches!(res.unwrap().data, Rpc::Pong));
    assert!(pending.is_none());
    let sender = Node::new("10.0.0.1".to_string(), 1500);
    let idx = kad.routing_table.node_find_bucket_index(&sender.id);
    assert_eq!(kad.routing_table.buckets[idx].nodes.len(), 1);
    assert!(kad.routing_table.buckets[idx].nodes[0].id == sender.id);
}

#[test]
fn handle_request_stores_values() {
    let mut kad = KademliaDHT::new(own(), None);
    let (res, _) = kad.handle_request(request("10.0.0.1:1500", Rpc::Store("a".to_string(), "b".to_string())));
    assert!(matches!(res.unwrap().data, Rpc::Pong));
    let (res, _) = kad.handle_request(request("10.0.0.1:1500", Rpc::FindValue("a".to_string())));
    match res.unwrap().data {
        Rpc::FindValueReply(_, v) => assert_eq!(v, "b"),
        _ => panic!("expected the stored value"),
    }
}

#[test]
fn pong_reply_updates_and_silence_removes() {
    let mut kad = KademliaDHT::new(own(), None);
    let peer = contact(7, 0x80, 0);
    let pong = request("10.0.0.7:7", Rpc::Pong);
    let (ok, ping) = kad.record_pong_reply(peer.clone(), Some(pong));
    assert!(ok);
    assert!(ping.is_none());
    assert_eq!(kad.routing_table.buckets[255].nodes.len(), 1);
    let (ok, _) = kad.record_pong_reply(peer.clone(), Some(request("10.0.0.7:7", Rpc::Ping)));
    assert!(!ok);
    assert_eq!(kad.routing_table.buckets[255].nodes.len(), 1);
    let (ok, _) = kad.record_pong_reply(peer.clone(), None);
    assert!(!ok);
    assert!(kad.routing_table.buckets[255].nodes.is_empty());
    assert_eq!(kad.routing_table.reputation.get(&peer.id).unwrap().failed_interactions, 1);
}

#[test]
fn find_node_reply_gives_distances_from_this_node() {
    let mut kad = KademliaDHT::new(own(), None);
    let peer = contact(7, 0x80, 0);
    let a = contact(8, 0x40, 0);
    let reply = request("10.0.0.7:7", Rpc::FindNodeReply(vec![a.clone()]));
    let (res, _) = kad.record_find_node_reply(peer.clone(), Some(reply));
    let res = res.unwrap();
    assert_eq!(res.len(), 1);
    assert_eq!(res[0].1, a.id.distance(&own().id));
    let (res, _) = kad.record_find_node_reply(peer.clone(), Some(request("x:1", Rpc::Pong)));
    assert!(res.is_none());
    let (res, _) = kad.record_find_node_reply(peer, None);
    assert!(res.is_none());
}

#[test]
fn find_value_reply_hands_back_payload() {
    let mut kad = KademliaDHT::new(own(), None);
    let peer = contact(7, 0x80, 0);
    let reply = request("10.0.0.7:7", Rpc::FindValueReply("k".to_string(), "v".to_string()));
    let (res, _) = kad.record_find_value_reply(peer.clone(), Some(reply));
    assert!(matches!(res, Some(Rpc::FindValueReply(_, _))));
    assert_eq!(kad.routing_table.buckets[255].nodes.len(), 1);
    let (res, _) = kad.record_find_value_reply(peer, None);
    assert!(res.is_none());
    assert!(kad.routing_table.buckets[255].nodes.is_empty());
}

#[test]
fn complete_contact_needs_a_known_contact() {
    let mut kad = KademliaDHT::new(own(), None);
    let stranger = contact(9, 0x80, 0);
    kad.complete_contact(stranger, PingReply::Unreachable);
    assert!(kad.routing_table.buckets[255].nodes.is_empty());
}

#[test]
fn lookup_queues_each_entry_once() {
    let a = entry(contact(1, 0x80, 0), 3);
    let b = entry(contact(2, 0x40, 0), 1);
    let mut l = Lookup::new(vec![a.clone(), b.clone(), a.clone()]);
    assert_eq!(l.queried.len(), 2);
    assert_eq!(l.to_query.len(), 3);
    let batch = l.next_batch();
    assert_eq!(batch.len(), 3);
    assert_eq!(batch[0].0.port, 2);
    assert!(l.is_done());
    l.absorb_find_node(batch[0].clone(), Some(vec![a.clone(), entry(contact(3, 0x20, 0), 2)]));
    assert_eq!(l.queried.len(), 3);
    assert_eq!(l.to_query.len(), 1);
    assert_eq!(l.to_query[0].0.port, 3);
    l.absorb_find_node(batch[1].clone(), None);
    assert_eq!(l.nodes.len(), 1);
    let done = l.finish();
    assert_eq!(done.len(), 1);
}

#[test]
fn lookup_batches_are_nearest_first() {
    let entries: Vec<RoutingDistance> =
        (0..5u8).map(|i| entry(contact(10 + i as u16, i, 1), 50 - i)).collect();
    let mut l = Lookup::new(entries);
    let batch = l.next_batch();
    assert_eq!(batch.iter().map(|e| e.1[0]).collect::<Vec<_>>(), vec![46, 47, 48]);
    assert_eq!(l.to_query.len(), 2);
    let batch = l.next_batch();
    assert_eq!(batch.iter().map(|e| e.1[0]).collect::<Vec<_>>(), vec![49, 50]);
    assert!(l.next_batch().is_empty());
}

#[test]
fn value_lookup_stops_at_value() {
    let a = entry(contact(1, 0x80, 0), 3);
    let mut l = Lookup::new(vec![a.clone()]);
    let batch = l.next_batch();
    let key = Key::new("k".to_string());
    let found = l.absorb_find_value(batch[0].clone(), Some(Rpc::FindValueReply("k".to_string(), "v".to_string())), &key);
    assert_eq!(found, Some("v".to_string()));
    let found = l.absorb_find_value(
        batch[0].clone(),
        Some(Rpc::FindNodeReply(vec![contact(5, 0x10, 0)])),
        &key,
    );
    assert!(found.is_none());
    assert_eq!(l.nodes.len(), 1);
    assert_eq!(l.to_query.len(), 1);
    assert_eq!(l.to_query[0].1, contact(5, 0x10, 0).id.distance(&key));
}

#[test]
fn lookup_result_keeps_nearest_k() {
    let mut l = Lookup::new(Vec::new());
    for i in 0..25u8 {
        l.absorb_find_node(entry(contact(i as u16, i, 1), 100 - i), Some(Vec::new()));
    }
    let res = l.finish();
    assert_eq!(res.len(), K_BUCKET_SIZE);
    assert_eq!(res[0].1[0], 76);
    assert_eq!(res[K_BUCKET_SIZE - 1].1[0], 95);
}

#[test]
fn found_value_is_cached_at_the_last_lookup_node() {
    let kad = KademliaDHT::new(own(), None);
    let near = entry(contact(1, 0x10, 0), 1);
    let far = entry(contact(2, 0x20, 0), 2);
    assert_eq!(kad.cache_target(&vec![near, far]).port, 2);
    assert_eq!(kad.cache_target(&Vec::new()).port, own().port);
}
