pub mod kbucket;
pub mod node;
pub mod node_heap;
pub mod peer_map;
