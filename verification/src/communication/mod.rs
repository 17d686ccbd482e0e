//! The messaging layer: identifiers, the message protocol, and the request
//! handling of a node.

pub mod node_id;
pub mod protocol;
pub mod server;
pub mod client;
