pub mod blockchain_node_type;
pub mod fixed_sizes;
pub mod multicast_info_type;
pub mod utils;
