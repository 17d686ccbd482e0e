//! The Chord DHT nodes: ring positions, the node state machine, the
//! bootstrap coordinator and their request/response protocol.

pub mod ring;
pub mod node_id;
pub mod node;
pub mod protocol;
pub mod bootstrap;

pub use bootstrap::BootstrapNode;
pub use node::{Node, NodeInfo};
pub use protocol::{Request, Response};
pub use node_id::NodeId;
