//! Node IDs of the DHT nodes: the same 160-bit SHA-1 identifiers as the
//! messaging layer.

pub use crate::communication::node_id::NodeId;
