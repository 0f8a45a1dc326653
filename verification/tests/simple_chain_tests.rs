use distributed_legder::blockchain::{calculate_hash, Block, Blockchain};
use distributed_legder::dht::distance::RoutingDistance;
use distributed_legder::network::key::Key;
use distributed_legder::network::node::Node;
use std::cmp::Ordering;

#[test]
fn simple_block_hash_is_sha256_of_fields() {
    let block = Block {
        index: 0,
        timestamp: 0,
        data: "Genesis block".to_string(),
        previous_hash: "0".to_string(),
        hash: String::new(),
    };
    assert_eq!(calculate_hash(&block), "fd8694c790e103ec150ed0c4bf33fefb3d6f3da8db2b3e68b8fce863948792ae");
}

#[test]
fn simple_chain_stays_valid() {
    let mut chain = Blockchain::new();
    assert!(chain.is_valid());
    chain.add_block("first".to_string());
    chain.add_block("second".to_string());
    assert!(chain.is_valid());
}

fn rd(first: u8, port: u16) -> RoutingDistance {
    let mut d = [0u8; 32];
    d[0] = first;
    RoutingDistance(Node { ip: "h".to_string(), port, id: Key([port as u8; 32]) }, d)
}

#[test]
fn routing_distances_compare_by_distance_reversed() {
    assert!(rd(1, 1) == rd(1, 2));
    assert!(rd(1, 1) != rd(2, 1));
    assert_eq!(rd(1, 1).partial_cmp(&rd(2, 1)), Some(Ordering::Greater));
    assert_eq!(rd(2, 1).partial_cmp(&rd(1, 1)), Some(Ordering::Less));
    assert_eq!(rd(3, 1).partial_cmp(&rd(3, 9)), Some(Ordering::Equal));
}
