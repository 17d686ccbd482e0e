//! Chordify: a Chord distributed hash table.
//!
//! The ring logic (identifiers, responsibility, routing, key storage,
//! membership coordination, request handling and message framing) lives
//! here with its contracts; sockets and the async runtime live in the
//! application, which hands the library the messages it receives and
//! carries out the sends the library asks for.

pub mod hashing;
pub mod text;
pub mod store;
pub mod communication;
pub mod nodes;
pub mod tcp;
pub mod tools;

pub use communication::node_id::NodeId;
pub use nodes::bootstrap::BootstrapNode;
pub use nodes::{Node, NodeInfo, Request, Response};
