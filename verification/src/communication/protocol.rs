//! Message protocol of the messaging layer: every message carries an
//! identifier, its sender's address and a request or response.

use vstd::prelude::*;
use vstd::utf8::*;
use super::node_id::{NodeId, text_id};

verus! {

/// Unique message identifier.
pub type MessageId = u64;

#[verifier::external_type_specification]
#[verifier::external_body]
pub struct ExSystemTime(std::time::SystemTime);

#[verifier::external_type_specification]
#[verifier::external_body]
pub struct ExSystemTimeError(std::time::SystemTimeError);

/// Calls `std::time::SystemTime::now`: the current time of the system
/// clock. Nothing is promised of it.
#[verifier::external_body]
fn clock_now() -> std::time::SystemTime {
    std::time::SystemTime::now()
}

/// Calls `SystemTime::duration_since` with `std::time::UNIX_EPOCH`: the
/// time elapsed since the epoch, or an error when the time lies before it.
/// Nothing is promised of either.
#[verifier::external_body]
fn since_epoch(t: &std::time::SystemTime) -> Result<std::time::Duration, std::time::SystemTimeError> {
    t.duration_since(std::time::UNIX_EPOCH)
}

/// Calls `Duration::as_nanos`: the whole length in nanoseconds. Nothing is
/// promised of the value.
#[verifier::external_body]
fn duration_nanos(d: &std::time::Duration) -> u128 {
    d.as_nanos()
}

/// The message identifier for a clock reading: the nanoseconds since the
/// Unix epoch (`None` when the clock reads a time before it), truncated to
/// 64 bits; 0 for a time before the epoch.
pub fn id_from_clock(nanos: Option<u128>) -> (r: MessageId)
    ensures
        match nanos {
            Some(n) => r == n % 0x1_0000_0000_0000_0000,
            None => r == 0,
        },
{
    match nanos {
        Some(n) => {
            let r = (n % 0x1_0000_0000_0000_0000) as u64;
            r
        },
        None => 0,
    }
}

/// A message identifier read from the system clock (`id_from_clock` of
/// the current reading).
fn generate_id() -> MessageId {
    let now = clock_now();
    let nanos = match since_epoch(&now) {
        Ok(d) => Some(duration_nanos(&d)),
        Err(_) => None,
    };
    id_from_clock(nanos)
}

/// Information about a node in the ring.
#[derive(Debug, PartialEq)]
pub struct NodeInfo {
    pub id: NodeId,
    pub addr: String,
}

impl Clone for NodeInfo {
    fn clone(&self) -> (r: Self)
        ensures
            r == *self,
    {
        NodeInfo { id: self.id, addr: self.addr.clone() }
    }
}

impl NodeInfo {
    /// The information of the node at an address: its identifier is the
    /// hash of the address text.
    pub fn new(addr: String) -> (r: NodeInfo)
        ensures
            r.id@ == text_id(addr@),
            r.addr == addr,
    {
        NodeInfo { id: NodeId::from_address(addr.as_str()), addr }
    }
}

/// Wrapper message for all communication.
#[derive(Debug, Clone)]
pub struct Message {
    pub id: MessageId,
    pub sender: String,
    pub payload: MessagePayload,
}

impl Message {
    /// A new message from `sender`, identified by the current time.
    pub fn new(sender: String, payload: MessagePayload) -> (r: Message)
        ensures
            r.sender == sender,
            r.payload == payload,
    {
        Message { id: generate_id(), sender, payload }
    }

    /// A response to the message `request_id`; it carries the same
    /// identifier.
    pub fn response(request_id: MessageId, sender: String, payload: MessagePayload) -> (r: Message)
        ensures
            r.id == request_id,
            r.sender == sender,
            r.payload == payload,
    {
        Message { id: request_id, sender, payload }
    }
}

/// Message payload - either request or response.
#[derive(Debug, Clone)]
pub enum MessagePayload {
    Request(Request),
    Response(Response),
}

/// All possible request types.
#[derive(Debug, Clone)]
pub enum Request {
    /// Simple ping to check connectivity
    Ping,
    /// Get node's ID
    GetId,
    /// Get node's successor
    GetSuccessor,
    /// Get node's predecessor
    GetPredecessor,
    /// Find the successor of a given ID
    FindSuccessor { id: NodeId },
    /// Notify a node that we think we're its predecessor
    Notify { node_info: NodeInfo },
    /// Join the ring via this node
    Join { node_info: NodeInfo },
    /// Node is departing the ring
    Depart { node_info: NodeInfo },
    /// Insert a key-value pair
    Insert { key: String, value: String },
    /// Query for a key
    Query { key: String },
    /// Delete a key
    Delete { key: String },
    /// Get the ring overlay/topology
    GetOverlay,
}

/// All possible response types.
#[derive(Debug, Clone)]
pub enum Response {
    /// Response to Ping
    Pong,
    /// Response with node ID
    Id(NodeId),
    /// Response with node info (successor/predecessor)
    NodeInfo(Option<NodeInfo>),
    /// Response to FindSuccessor
    FoundSuccessor(NodeInfo),
    /// Acknowledgment
    Ack,
    /// Join acknowledgment with successor and predecessor
    JoinAck { successor: NodeInfo, predecessor: Option<NodeInfo> },
    /// Insert result
    InsertAck { success: bool },
    /// Query result
    QueryResult { key: String, value: Option<String> },
    /// Delete result
    DeleteAck { success: bool },
    /// Overlay/topology response
    Overlay { nodes: Vec<NodeInfo> },
    /// Error response
    Error { message: String },
}

} // verus!
