//! What a client makes of the answers it receives: each request of the
//! messaging layer expects one kind of response. Connecting and sending is
//! done by the application.

use vstd::prelude::*;
use super::node_id::NodeId;
use super::protocol::{MessagePayload, NodeInfo, Response};

verus! {

/// Why a client call failed after an answer arrived.
#[derive(Debug, PartialEq)]
pub enum ClientError {
    /// The other node answered with an error message
    Remote(String),
    /// The answer was of another kind than the request expects
    UnexpectedResponse,
    /// A request came back where a response was expected
    UnexpectedRequest,
}

/// The answer is an error message, or something unexpected.
pub open spec fn refused(resp: Response, r: ClientError) -> bool {
    match resp {
        Response::Error { message } => r == ClientError::Remote(message),
        _ => r == ClientError::UnexpectedResponse,
    }
}

fn refusal(resp: Response) -> (r: ClientError)
    ensures
        refused(resp, r),
{
    match resp {
        Response::Error { message } => ClientError::Remote(message),
        _ => ClientError::UnexpectedResponse,
    }
}

/// The response carried by an answer message.
pub fn response_of(payload: MessagePayload) -> (r: Result<Response, ClientError>)
    ensures
        match payload {
            MessagePayload::Response(resp) => r == Ok::<Response, ClientError>(resp),
            MessagePayload::Request(_) => r == Err::<Response, ClientError>(
                ClientError::UnexpectedRequest,
            ),
        },
{
    match payload {
        MessagePayload::Response(resp) => Ok(resp),
        MessagePayload::Request(_) => Err(ClientError::UnexpectedRequest),
    }
}

/// A ping succeeded when the answer is `Pong`.
pub fn ping_reply(resp: Response) -> (r: bool)
    ensures
        r == (resp is Pong),
{
    match resp {
        Response::Pong => true,
        _ => false,
    }
}

/// The identifier in an answer to `GetId`.
pub fn id_reply(resp: Response) -> (r: Result<NodeId, ClientError>)
    ensures
        match resp {
            Response::Id(id) => r == Ok::<NodeId, ClientError>(id),
            _ => r matches Err(e) && refused(resp, e),
        },
{
    match resp {
        Response::Id(id) => Ok(id),
        other => Err(refusal(other)),
    }
}

/// The node in an answer to `GetSuccessor` or `GetPredecessor`.
pub fn node_info_reply(resp: Response) -> (r: Result<Option<NodeInfo>, ClientError>)
    ensures
        match resp {
            Response::NodeInfo(info) => r == Ok::<Option<NodeInfo>, ClientError>(info),
            _ => r matches Err(e) && refused(resp, e),
        },
{
    match resp {
        Response::NodeInfo(info) => Ok(info),
        other => Err(refusal(other)),
    }
}

/// The node in an answer to `FindSuccessor`.
pub fn found_successor_reply(resp: Response) -> (r: Result<NodeInfo, ClientError>)
    ensures
        match resp {
            Response::FoundSuccessor(info) => r == Ok::<NodeInfo, ClientError>(info),
            _ => r matches Err(e) && refused(resp, e),
        },
{
    match resp {
        Response::FoundSuccessor(info) => Ok(info),
        other => Err(refusal(other)),
    }
}

/// An acknowledgment of `Notify`.
pub fn ack_reply(resp: Response) -> (r: Result<(), ClientError>)
    ensures
        match resp {
            Response::Ack => r == Ok::<(), ClientError>(()),
            _ => r matches Err(e) && refused(resp, e),
        },
{
    match resp {
        Response::Ack => Ok(()),
        other => Err(refusal(other)),
    }
}

/// Successor and predecessor in an answer to `Join`.
pub fn join_reply(resp: Response) -> (r: Result<(NodeInfo, Option<NodeInfo>), ClientError>)
    ensures
        match resp {
            Response::JoinAck { successor, predecessor } => r == Ok::<
                (NodeInfo, Option<NodeInfo>),
                ClientError,
            >((successor, predecessor)),
            _ => r matches Err(e) && refused(resp, e),
        },
{
    match resp {
        Response::JoinAck { successor, predecessor } => Ok((successor, predecessor)),
        other => Err(refusal(other)),
    }
}

/// The outcome in an answer to `Insert`.
pub fn insert_reply(resp: Response) -> (r: Result<bool, ClientError>)
    ensures
        match resp {
            Response::InsertAck { success } => r == Ok::<bool, ClientError>(success),
            _ => r matches Err(e) && refused(resp, e),
        },
{
    match resp {
        Response::InsertAck { success } => Ok(success),
        other => Err(refusal(other)),
    }
}

/// The value in an answer to `Query`.
pub fn query_reply(resp: Response) -> (r: Result<Option<String>, ClientError>)
    ensures
        match resp {
            Response::QueryResult { value, .. } => r == Ok::<Option<String>, ClientError>(value),
            _ => r matches Err(e) && refused(resp, e),
        },
{
    match resp {
        Response::QueryResult { key: _, value } => Ok(value),
        other => Err(refusal(other)),
    }
}

/// The outcome in an answer to `Delete`.
pub fn delete_reply(resp: Response) -> (r: Result<bool, ClientError>)
    ensures
        match resp {
            Response::DeleteAck { success } => r == Ok::<bool, ClientError>(success),
            _ => r matches Err(e) && refused(resp, e),
        },
{
    match resp {
        Response::DeleteAck { success } => Ok(success),
        other => Err(refusal(other)),
    }
}

/// The nodes in an answer to `GetOverlay`.
pub fn overlay_reply(resp: Response) -> (r: Result<Vec<NodeInfo>, ClientError>)
    ensures
        match resp {
            Response::Overlay { nodes } => r == Ok::<Vec<NodeInfo>, ClientError>(nodes),
            _ => r matches Err(e) && refused(resp, e),
        },
{
    match resp {
        Response::Overlay { nodes } => Ok(nodes),
        other => Err(refusal(other)),
    }
}

} // verus!
