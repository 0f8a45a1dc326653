pub mod distance;
pub mod kademlia;
pub mod lookup;
pub mod routing_table;
pub mod rpc;
pub mod store;
