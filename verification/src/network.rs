pub mod datagram;
pub mod key;
pub mod node;
pub mod rpc;
pub mod udp_communitations;
