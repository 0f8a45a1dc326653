use distributed_legder::constants::fixed_sizes::{K_BUCKET_SIZE, N_BUCKETS};
use distributed_legder::dht::routing_table::{Bucket, PingReply, RoutingTable};
use distributed_legder::network::key::Key;
use distributed_legder::network::node::Node;

fn node_with_id(port: u16, bytes: [u8; 32]) -> Node {
    Node { ip: "10.0.0.1".to_string(), port, id: Key(bytes) }
}

fn own() -> Node {
    node_with_id(1, [0u8; 32])
}

/// A contact in the last bucket of `own()`: its highest bit is set.
fn last_bucket_contact(k: u8) -> Node {
    let mut b = [0u8; 32];
    b[0] = 0x80;
    b[31] = k;
    node_with_id(1000 + k as u16, b)
}

fn ports(nodes: &[Node]) -> Vec<u16> {
    nodes.iter().map(|n| n.port).collect()
}

#[test]
fn bucket_starts_empty_with_capacity_k() {
    let b = Bucket::new();
    assert!(b.nodes.is_empty());
    assert_eq!(b.size, K_BUCKET_SIZE);
}

#[test]
fn new_table_has_one_empty_bucket_per_bit() {
    let rt = RoutingTable::new(own(), None);
    assert_eq!(rt.buckets.len(), N_BUCKETS);
    assert!(rt.buckets.iter().all(|b| b.nodes.is_empty() && b.size == K_BUCKET_SIZE));
}

#[test]
fn new_table_enters_bootstrap_node() {
    let boot = last_bucket_contact(7);
    let rt = RoutingTable::new(own(), Some(boot.clone()));
    assert_eq!(ports(&rt.buckets[255].nodes), vec![boot.port]);
    let rep = rt.reputation.get(&boot.id).unwrap();
    assert_eq!(rep.successful_interactions, 2);
    assert_eq!(rep.failed_interactions, 0);
    assert_eq!(rt.buckets.iter().map(|b| b.nodes.len()).sum::<usize>(), 1);
}

#[test]
fn bucket_index_is_whole_log2_of_distance() {
    let rt = RoutingTable::new(own(), None);
    let mut k = [0u8; 32];
    k[0] = 0x80;
    assert_eq!(rt.node_find_bucket_index(&Key(k)), 255);
    k[0] = 0x01;
    assert_eq!(rt.node_find_bucket_index(&Key(k)), 248);
    k[0] = 0;
    k[1] = 0xff;
    assert_eq!(rt.node_find_bucket_index(&Key(k)), 247);
    let mut low = [0u8; 32];
    low[31] = 1;
    assert_eq!(rt.node_find_bucket_index(&Key(low)), 0);
    low[31] = 0x03;
    assert_eq!(rt.node_find_bucket_index(&Key(low)), 1);
    low[30] = 0x01;
    assert_eq!(rt.node_find_bucket_index(&Key(low)), 8);
}

#[test]
fn own_identifier_falls_in_last_bucket() {
    let me = Node::new("127.0.0.1".to_string(), 1432);
    let rt = RoutingTable::new(me.clone(), None);
    assert_eq!(rt.node_find_bucket_index(&me.id), N_BUCKETS - 1);
    assert_eq!(rt.node_find_bucket_index_thrust(&me.id), N_BUCKETS - 1);
}

#[test]
fn update_moves_contact_to_tail() {
    let mut rt = RoutingTable::new(own(), None);
    let a = last_bucket_contact(1);
    let b = last_bucket_contact(2);
    assert!(rt.update(a.clone()).is_none());
    assert!(rt.update(b.clone()).is_none());
    assert_eq!(ports(&rt.buckets[255].nodes), vec![a.port, b.port]);
    let mut a2 = a.clone();
    a2.ip = "10.9.9.9".to_string();
    assert!(rt.update(a2.clone()).is_none());
    assert_eq!(ports(&rt.buckets[255].nodes), vec![b.port, a.port]);
    assert_eq!(rt.buckets[255].nodes[1].ip, "10.9.9.9");
    assert_eq!(rt.reputation.get(&a.id).unwrap().successful_interactions, 3);
}

#[test]
fn update_reputation_keeps_known_entry() {
    let mut rt = RoutingTable::new(own(), None);
    let a = last_bucket_contact(1);
    let b = last_bucket_contact(2);
    assert!(rt.update_reputation(a.clone()).is_none());
    assert!(rt.update_reputation(b.clone()).is_none());
    let mut a2 = a.clone();
    a2.ip = "10.9.9.9".to_string();
    assert!(rt.update_reputation(a2).is_none());
    assert_eq!(ports(&rt.buckets[255].nodes), vec![b.port, a.port]);
    assert_eq!(rt.buckets[255].nodes[1].ip, "10.0.0.1");
    assert_eq!(rt.reputation.get(&a.id).unwrap().successful_interactions, 3);
}

fn full_table() -> RoutingTable {
    let mut rt = RoutingTable::new(own(), None);
    for k in 0..K_BUCKET_SIZE as u8 {
        assert!(rt.update(last_bucket_contact(k)).is_none());
    }
    rt
}

#[test]
fn full_bucket_asks_to_ping_its_head() {
    let mut rt = full_table();
    let newcomer = last_bucket_contact(100);
    let head = rt.update(newcomer.clone()).unwrap();
    assert_eq!(head.port, last_bucket_contact(0).port);
    assert_eq!(rt.buckets[255].nodes.len(), K_BUCKET_SIZE);
    assert!(rt.reputation.contains_key(&newcomer.id));
    assert!(!rt.buckets[255].nodes.iter().any(|n| n.port == newcomer.port));
}

#[test]
fn answered_ping_moves_head_to_tail() {
    let mut rt = full_table();
    let newcomer = last_bucket_contact(100);
    let head = rt.update(newcomer.clone()).unwrap();
    rt.complete_update(newcomer.clone(), PingReply::Answered);
    assert_eq!(rt.buckets[255].nodes.last().unwrap().port, head.port);
    assert_eq!(rt.buckets[255].nodes[0].port, last_bucket_contact(1).port);
    assert!(!rt.buckets[255].nodes.iter().any(|n| n.port == newcomer.port));
    assert_eq!(rt.reputation.get(&head.id).unwrap().successful_interactions, 3);
}

#[test]
fn timed_out_ping_changes_nothing() {
    let mut rt = full_table();
    let newcomer = last_bucket_contact(100);
    rt.update(newcomer.clone()).unwrap();
    let before = ports(&rt.buckets[255].nodes);
    rt.complete_update(newcomer, PingReply::TimedOut);
    assert_eq!(ports(&rt.buckets[255].nodes), before);
}

#[test]
fn unreachable_head_is_replaced() {
    let mut rt = full_table();
    let newcomer = last_bucket_contact(100);
    let head = rt.update(newcomer.clone()).unwrap();
    rt.complete_update(newcomer.clone(), PingReply::Unreachable);
    assert_eq!(rt.buckets[255].nodes.last().unwrap().port, newcomer.port);
    assert!(!rt.buckets[255].nodes.iter().any(|n| n.port == head.port));
    assert_eq!(rt.buckets[255].nodes.len(), K_BUCKET_SIZE);
    assert_eq!(rt.reputation.get(&newcomer.id).unwrap().successful_interactions, 2);
}

#[test]
fn unanswered_reputation_ping_restarts_counts() {
    let mut rt = RoutingTable::new(own(), None);
    for k in 0..K_BUCKET_SIZE as u8 {
        assert!(rt.update_reputation(last_bucket_contact(k)).is_none());
    }
    let newcomer = last_bucket_contact(100);
    let head = rt.update_reputation(newcomer.clone()).unwrap();
    rt.complete_update_reputation(newcomer.clone(), false);
    assert_eq!(rt.buckets[255].nodes.last().unwrap().port, newcomer.port);
    assert!(!rt.buckets[255].nodes.iter().any(|n| n.port == head.port));
    assert_eq!(rt.reputation.get(&newcomer.id).unwrap().successful_interactions, 1);
}

#[test]
fn answered_reputation_ping_moves_head() {
    let mut rt = RoutingTable::new(own(), None);
    for k in 0..K_BUCKET_SIZE as u8 {
        assert!(rt.update_reputation(last_bucket_contact(k)).is_none());
    }
    let newcomer = last_bucket_contact(100);
    let head = rt.update_reputation(newcomer.clone()).unwrap();
    rt.complete_update_reputation(newcomer, true);
    assert_eq!(rt.buckets[255].nodes.last().unwrap().port, head.port);
    assert_eq!(rt.reputation.get(&head.id).unwrap().successful_interactions, 3);
}

#[test]
fn remove_drops_contact_and_records_failure() {
    let mut rt = RoutingTable::new(own(), None);
    let a = last_bucket_contact(1);
    let b = last_bucket_contact(2);
    rt.update(a.clone());
    rt.update(b.clone());
    rt.remove(&a);
    assert_eq!(ports(&rt.buckets[255].nodes), vec![b.port]);
    let rep = rt.reputation.get(&a.id).unwrap();
    assert_eq!(rep.successful_interactions, 2);
    assert_eq!(rep.failed_interactions, 1);
}

#[test]
fn removing_unknown_contact_only_records_failure() {
    let mut rt = RoutingTable::new(own(), None);
    let a = last_bucket_contact(1);
    rt.remove(&a);
    assert!(rt.buckets[255].nodes.is_empty());
    let rep = rt.reputation.get(&a.id).unwrap();
    assert_eq!(rep.successful_interactions, 0);
    assert_eq!(rep.failed_interactions, 1);
}

/// A contact in bucket 254 of `own()`.
fn bucket_254_contact(k: u8) -> Node {
    let mut b = [0u8; 32];
    b[0] = 0x40;
    b[31] = k;
    node_with_id(2000 + k as u16, b)
}

#[test]
fn closest_nodes_are_sorted_and_truncated() {
    let mut rt = RoutingTable::new(own(), None);
    for k in [5u8, 1, 9, 3] {
        rt.update(bucket_254_contact(k));
    }
    let mut target = [0u8; 32];
    target[0] = 0x40;
    let res = rt.get_closest_nodes(&Key(target), 3);
    assert_eq!(res.len(), 3);
    let firsts: Vec<u8> = res.iter().map(|r| r.0.id.0[31]).collect();
    assert_eq!(firsts, vec![1, 3, 5]);
    for r in &res {
        assert_eq!(r.1, r.0.id.distance(&Key(target)));
    }
    let all = rt.get_closest_nodes(&Key(target), 10);
    assert_eq!(all.len(), 4);
}

#[test]
fn closest_nodes_gather_neighbouring_buckets() {
    let mut rt = RoutingTable::new(own(), None);
    let mut upper = [0u8; 32];
    upper[0] = 0x40;
    let mut lower = [0u8; 32];
    lower[0] = 0x20;
    rt.update(node_with_id(1, upper));
    rt.update(node_with_id(2, lower));
    rt.update(last_bucket_contact(4));
    let res = rt.get_closest_nodes(&Key(lower), 5);
    let got: Vec<u16> = ports(&res.iter().map(|r| r.0.clone()).collect::<Vec<_>>());
    assert_eq!(got, vec![2, 1]);
    let empty = rt.get_closest_nodes(&Key(lower), 0);
    assert!(empty.is_empty());
}

#[test]
fn closest_nodes_never_read_the_last_bucket() {
    let mut rt = RoutingTable::new(own(), None);
    rt.update(last_bucket_contact(1));
    let mut target = [0u8; 32];
    target[31] = 1;
    assert!(rt.get_closest_nodes(&Key(target), 5).is_empty());
}
