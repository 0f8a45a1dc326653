use distributed_legder::constants::utils::{
    calculate_sha1, calculate_sha256, get_timestamp_now, milliseconds_from_reading, seconds_from_reading,
    timestamp_from_nanos,
};
use distributed_legder::dht::rpc::Rpc as DhtRpc;
use distributed_legder::network::datagram::{Datagram, DatagramType};
use distributed_legder::network::key::Key;
use distributed_legder::network::node::{Node, ThrustAndReputation};
use distributed_legder::network::rpc::Rpc;
use distributed_legder::network::udp_communitations::{classify_datagram, reply_datagram, Incoming};

fn hex(bytes: &[u8]) -> String {
    bytes.iter().map(|b| format!("{:02x}", b)).collect()
}

fn datagram_from(source: &str) -> Datagram {
    Datagram {
        data_type: DatagramType::REQUEST,
        token_id: Key::new("token".to_string()),
        source: source.to_string(),
        destination: "10.0.0.2:1432".to_string(),
        data: Rpc::Ping,
    }
}

#[test]
fn sha256_of_known_text() {
    let d = calculate_sha256(&"abc".to_string());
    assert_eq!(hex(&d), "ba7816bf8f01cfea414140de5dae2223b00361a396177a9cb410ff61f20015ad");
}

#[test]
fn sha1_of_known_text() {
    let d = calculate_sha1(&"abc".to_string());
    assert_eq!(d.len(), 20);
    assert_eq!(hex(&d), "a9993e364706816aba3e25717850c26c9cd0d89d");
}

#[test]
fn key_is_sha256_of_text() {
    let k = Key::new("test".to_string());
    assert_eq!(hex(&k.0), "9f86d081884c7d659a2feaa0c55ad015a3bf4f1b2b0b822cd15d6c15b0f00a08");
}

#[test]
fn distance_is_xor_and_symmetric() {
    let a = Key::new("a".to_string());
    let b = Key::new("b".to_string());
    let d1 = a.distance(&b);
    let d2 = b.distance(&a);
    assert_eq!(d1, d2);
    for i in 0..32 {
        assert_eq!(d1[i], a.0[i] ^ b.0[i]);
    }
    assert_eq!(a.distance(&a), [0u8; 32]);
    assert_ne!(d1, [0u8; 32]);
}

#[test]
fn keys_compare_by_bytes() {
    assert!(Key::new("x".to_string()) == Key::new("x".to_string()));
    assert!(Key::new("x".to_string()) != Key::new("y".to_string()));
}

#[test]
fn node_identifier_is_key_of_address() {
    let node = Node::new("127.0.0.1".to_string(), 1432);
    assert_eq!(node.get_address(), "127.0.0.1:1432");
    assert_eq!(node.port, 1432);
    assert_eq!(node.ip, "127.0.0.1");
    assert!(node.id == Key::new(node.get_address()));
    assert_eq!(hex(&node.id.0), "03d9a491cc589c01b386b4e349e780a5c077114fb2ed1f8f3d023b429269d533");
}

#[test]
fn address_with_port_zero_and_max() {
    assert_eq!(Node::new("h".to_string(), 0).get_address(), "h:0");
    assert_eq!(Node::new("h".to_string(), 65535).get_address(), "h:65535");
}

#[test]
fn source_address_splits_into_host_and_port() {
    let d = datagram_from("192.168.1.7:8080");
    assert_eq!(d.extract_src_ip_port(), Some(("192.168.1.7".to_string(), 8080)));
}

#[test]
fn source_address_round_trips_through_get_address() {
    let node = Node::new("10.1.2.3".to_string(), 65535);
    let d = datagram_from(&node.get_address());
    assert_eq!(d.extract_src_ip_port(), Some((node.ip.clone(), node.port)));
}

#[test]
fn source_address_splits_at_last_colon() {
    let d = datagram_from("::1:80");
    assert_eq!(d.extract_src_ip_port(), Some(("::1".to_string(), 80)));
}

#[test]
fn source_address_with_leading_zeros() {
    let d = datagram_from("h:00080");
    assert_eq!(d.extract_src_ip_port(), Some(("h".to_string(), 80)));
}

#[test]
fn source_address_rejects_bad_ports() {
    assert_eq!(datagram_from("nocolon").extract_src_ip_port(), None);
    assert_eq!(datagram_from("host:").extract_src_ip_port(), None);
    assert_eq!(datagram_from("host:70000").extract_src_ip_port(), None);
    assert_eq!(datagram_from("host:65536").extract_src_ip_port(), None);
    assert_eq!(datagram_from("host:8a").extract_src_ip_port(), None);
    assert_eq!(datagram_from("host:+80").extract_src_ip_port(), None);
    assert_eq!(datagram_from("").extract_src_ip_port(), None);
}

#[test]
fn reputation_counts_interactions() {
    let r = ThrustAndReputation::new();
    assert_eq!(r.successful_interactions, 0);
    assert_eq!(r.failed_interactions, 0);
    let r = r.update_interaction(true).update_interaction(true).update_interaction(false);
    assert_eq!(r.successful_interactions, 2);
    assert_eq!(r.failed_interactions, 1);
    let top = ThrustAndReputation { successful_interactions: u64::MAX, failed_interactions: 3 };
    let top = top.update_interaction(true);
    assert_eq!(top.successful_interactions, u64::MAX);
    assert_eq!(top.failed_interactions, 3);
}

#[test]
fn datagrams_are_sorted_by_address_and_type() {
    let node = "10.0.0.2:1432".to_string();
    let src = "10.0.0.1:1500".to_string();
    let mut d = datagram_from("10.0.0.1:1500");
    assert!(matches!(classify_datagram(d.clone(), &node, &src), Incoming::Request(_)));
    d.data_type = DatagramType::RESPONSE;
    assert!(matches!(classify_datagram(d.clone(), &node, &src), Incoming::Response(_)));
    d.data_type = DatagramType::KILL;
    assert!(matches!(classify_datagram(d.clone(), &node, &src), Incoming::Stop));
    assert!(matches!(classify_datagram(d.clone(), &"10.0.0.9:1".to_string(), &src), Incoming::Ignore));
    assert!(matches!(classify_datagram(d, &node, &"10.0.0.1:1501".to_string()), Incoming::Ignore));
}

#[test]
fn reply_goes_back_to_the_sender() {
    let d = datagram_from("10.0.0.1:1500");
    let r = reply_datagram(d.clone());
    assert_eq!(r.source, "10.0.0.2:1432");
    assert_eq!(r.destination, "10.0.0.1:1500");
    assert_eq!(r.data_type, DatagramType::RESPONSE);
    assert!(r.token_id == d.token_id);
    let back = reply_datagram(r);
    assert_eq!(back.source, d.source);
    assert_eq!(back.destination, d.destination);
}

#[test]
fn dht_messages_carry_keys() {
    let k = Key::new("v".to_string());
    match DhtRpc::FindValueReply(k, "x".to_string()) {
        DhtRpc::FindValueReply(key, value) => {
            assert!(key == k);
            assert_eq!(value, "x");
        }
        _ => unreachable!(),
    }
}

#[test]
fn clock_readings_become_timestamps() {
    assert_eq!(timestamp_from_nanos(None), 0);
    assert_eq!(timestamp_from_nanos(Some(1_700_000_000_123_456_789)), 1_700_000_000_123_456_789);
    assert_eq!(timestamp_from_nanos(Some(u64::MAX as u128)), u64::MAX);
    assert_eq!(timestamp_from_nanos(Some(u64::MAX as u128 + 5)), u64::MAX);
    assert_eq!(seconds_from_reading(None), 0);
    assert_eq!(seconds_from_reading(Some(1_700_000_000)), 1_700_000_000);
    assert_eq!(milliseconds_from_reading(None), 0);
    assert_eq!(milliseconds_from_reading(Some(1_700_000_000_123)), 1_700_000_000_123);
    assert_eq!(milliseconds_from_reading(Some((1u128 << 64) + 7)), 7);
    assert!(get_timestamp_now() > 0);
}
