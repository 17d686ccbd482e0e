//! How a client reads the answers of the messaging layer.

use chordify::communication::client::{
    ack_reply, delete_reply, found_successor_reply, id_reply, insert_reply, join_reply,
    node_info_reply, overlay_reply, ping_reply, query_reply, response_of, ClientError,
};
use chordify::communication::protocol::{MessagePayload, NodeInfo, Request, Response};
use chordify::NodeId;

fn err(m: &str) -> Response {
    Response::Error { message: m.to_string() }
}

#[test]
fn test_ping_reply() {
    assert!(ping_reply(Response::Pong));
    assert!(!ping_reply(Response::Ack));
}

#[test]
fn test_id_and_node_replies() {
    let id = NodeId::from_key("x");
    assert_eq!(id_reply(Response::Id(id)), Ok(id));
    assert_eq!(id_reply(err("bad")), Err(ClientError::Remote("bad".to_string())));
    assert_eq!(id_reply(Response::Pong), Err(ClientError::UnexpectedResponse));
    let n = NodeInfo::new("127.0.0.1:9000".to_string());
    assert_eq!(node_info_reply(Response::NodeInfo(Some(n.clone()))), Ok(Some(n.clone())));
    assert_eq!(node_info_reply(Response::NodeInfo(None)), Ok(None));
    assert_eq!(found_successor_reply(Response::FoundSuccessor(n.clone())), Ok(n.clone()));
    assert_eq!(
        join_reply(Response::JoinAck { successor: n.clone(), predecessor: None }),
        Ok((n.clone(), None))
    );
    assert_eq!(overlay_reply(Response::Overlay { nodes: vec![n.clone()] }), Ok(vec![n]));
    assert_eq!(ack_reply(Response::Ack), Ok(()));
    assert_eq!(ack_reply(Response::Pong), Err(ClientError::UnexpectedResponse));
}

#[test]
fn test_data_replies() {
    assert_eq!(insert_reply(Response::InsertAck { success: true }), Ok(true));
    assert_eq!(delete_reply(Response::DeleteAck { success: false }), Ok(false));
    assert_eq!(
        query_reply(Response::QueryResult { key: "k".to_string(), value: Some("v".to_string()) }),
        Ok(Some("v".to_string()))
    );
    assert_eq!(query_reply(err("no")), Err(ClientError::Remote("no".to_string())));
}

#[test]
fn test_response_of() {
    assert!(matches!(response_of(MessagePayload::Response(Response::Pong)), Ok(Response::Pong)));
    assert_eq!(
        response_of(MessagePayload::Request(Request::Ping)).err(),
        Some(ClientError::UnexpectedRequest)
    );
}
