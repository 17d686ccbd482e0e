//! Protocol - Message types for node-to-node communication.
//!
//! These travel as bytes over the messaging layer; the application turns
//! them into bytes and back. All join/depart operations are coordinated by
//! the bootstrap node. Addresses are the text `ip:port`.

use vstd::prelude::*;
use crate::store::Pair;
use super::node::NodeInfo;

verus! {

/// The data of one node in a wildcard query: its ring position and pairs.
pub type NodeData = (u64, Vec<Pair>);

/// One replicated block: the position of the node it belongs to, the
/// replication position, and the pairs.
pub type ReplicaBlock = (u64, (u64, Vec<Pair>));

/// Request messages sent between nodes.
#[derive(Debug, Clone)]
#[allow(inconsistent_fields)]
pub enum Request {
    /// Ping to check if node is alive
    Ping,
    /// Set this node's predecessor and transfer keys later
    SetPredecessorWithKeys { node: NodeInfo },
    /// Set this node's predecessor directly (sent by bootstrap during coordination)
    SetPredecessor { node: NodeInfo },
    /// Set this node's successor directly (sent by bootstrap during coordination)
    SetSuccessor { node: NodeInfo },
    /// Keys handed over to this node
    TransferData { data: Vec<Pair> },
    /// Store a key-value pair
    Insert { key: String, value: String },
    /// Retrieve a value by key
    Query { key: String, source: String },
    /// Query all the key values
    QueryAll { source: String, data: Vec<NodeData> },
    /// Delete a key
    Delete { key: String },
    /// Request to join the ring (sent to bootstrap node)
    JoinRequest { joining_node: NodeInfo },
    /// Request to depart from the ring (sent to bootstrap node)
    DepartRequest { departing_node: NodeInfo },
    /// Request to transfer replicas to new node
    TransferReplicas { new_replicated_data: Vec<ReplicaBlock>, node_addr: String },
    /// Write copies of pairs here and pass them on while `k_left` copies
    /// remain to be made after this one
    UpdateReplicas { data: Vec<Pair>, k_left: u64 },
    /// Remove the copy of a key here and pass the removal on while `k_left`
    /// copies remain after this one
    DeleteReplicas { key: String, k_left: u64 },
}

/// Response messages sent between nodes.
#[derive(Debug, Clone)]
pub enum Response {
    /// Pong response to Ping
    Pong,
    /// The successor node for a given address
    Successor(NodeInfo),
    /// The predecessor node (if any)
    Predecessor(NodeInfo),
    /// Acknowledgment
    Ack,
    /// Query response for a key
    QueryResponse { source: String, value: Option<String> },
    /// Response to QueryAll - all key-value pairs of the visited nodes
    QueryAll { source: String, data: Vec<NodeData> },
    /// Value for a key (None if not found)
    Value(Option<String>),
    /// Transferred keys
    Keys(Vec<Pair>),
    /// Error response
    Error(String),
    /// Join successful - the assigned successor, predecessor, and replication parameters
    JoinSuccess { successor: NodeInfo, predecessor: NodeInfo, k: u64, t: u8 },
    /// Depart acknowledged - node can now shut down
    DepartSuccess,
}

} // verus!
