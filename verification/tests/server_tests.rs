//! Request handling of a messaging-layer node.

use chordify::communication::protocol::{NodeInfo, Request, Response};
use chordify::communication::server::NodeState;
use chordify::NodeId;

fn info(addr: &str) -> NodeInfo {
    NodeInfo::new(addr.to_string())
}

#[test]
fn test_state_ping_and_id() {
    let mut s = NodeState::new("127.0.0.1:7000".to_string());
    assert!(matches!(s.handle_request(Request::Ping), Response::Pong));
    match s.handle_request(Request::GetId) {
        Response::Id(id) => assert_eq!(id, NodeId::from_address("127.0.0.1:7000")),
        _ => panic!("Expected Id response"),
    }
}

#[test]
fn test_state_insert_query_delete() {
    let mut s = NodeState::new("127.0.0.1:7001".to_string());
    assert!(matches!(
        s.handle_request(Request::Insert { key: "song".to_string(), value: "a".to_string() }),
        Response::InsertAck { success: true }
    ));
    // Insert replaces the value here
    s.handle_request(Request::Insert { key: "song".to_string(), value: "b".to_string() });
    match s.handle_request(Request::Query { key: "song".to_string() }) {
        Response::QueryResult { key, value } => {
            assert_eq!(key, "song");
            assert_eq!(value, Some("b".to_string()));
        }
        _ => panic!("Expected QueryResult"),
    }
    assert!(matches!(
        s.handle_request(Request::Delete { key: "song".to_string() }),
        Response::DeleteAck { success: true }
    ));
    assert!(matches!(
        s.handle_request(Request::Delete { key: "song".to_string() }),
        Response::DeleteAck { success: false }
    ));
    match s.handle_request(Request::Query { key: "song".to_string() }) {
        Response::QueryResult { value, .. } => assert_eq!(value, None),
        _ => panic!("Expected QueryResult"),
    }
}

#[test]
fn test_state_wildcard_query() {
    let mut s = NodeState::new("127.0.0.1:7002".to_string());
    match s.handle_request(Request::Query { key: "*".to_string() }) {
        Response::QueryResult { key, value } => {
            assert_eq!(key, "*");
            assert_eq!(value, None);
        }
        _ => panic!("Expected QueryResult"),
    }
    s.handle_request(Request::Insert { key: "k".to_string(), value: "v".to_string() });
    match s.handle_request(Request::Query { key: "*".to_string() }) {
        Response::QueryResult { key, value } => {
            assert_eq!(key, "k");
            assert_eq!(value, Some("v".to_string()));
        }
        _ => panic!("Expected QueryResult"),
    }
}

#[test]
fn test_state_find_successor_and_join() {
    let mut s = NodeState::new("127.0.0.1:7003".to_string());
    match s.handle_request(Request::FindSuccessor { id: NodeId::from_key("x") }) {
        Response::FoundSuccessor(n) => assert_eq!(n, s.info()),
        _ => panic!("Expected FoundSuccessor"),
    }
    let other = info("127.0.0.1:7004");
    s.successor = Some(other.clone());
    match s.handle_request(Request::Join { node_info: info("127.0.0.1:7005") }) {
        Response::JoinAck { successor, predecessor } => {
            assert_eq!(successor, other);
            assert_eq!(predecessor, None);
        }
        _ => panic!("Expected JoinAck"),
    }
    assert!(matches!(
        s.handle_request(Request::Depart { node_info: other.clone() }),
        Response::Ack
    ));
}

#[test]
fn test_state_notify() {
    let mut s = NodeState::new("127.0.0.1:7006".to_string());
    let a = info("127.0.0.1:7007");
    assert!(matches!(s.handle_request(Request::Notify { node_info: a.clone() }), Response::Ack));
    assert_eq!(s.predecessor, Some(a.clone()));
    let b = info("127.0.0.1:7008");
    s.handle_request(Request::Notify { node_info: b.clone() });
    if b.id.is_between(&a.id, &s.id) {
        assert_eq!(s.predecessor, Some(b));
    } else {
        assert_eq!(s.predecessor, Some(a));
    }
}

#[test]
fn test_state_overlay() {
    let mut s = NodeState::new("127.0.0.1:7009".to_string());
    match s.handle_request(Request::GetOverlay) {
        Response::Overlay { nodes } => assert_eq!(nodes, vec![s.info()]),
        _ => panic!("Expected Overlay"),
    }
    let a = info("127.0.0.1:7010");
    s.successor = Some(a.clone());
    s.predecessor = Some(a.clone());
    match s.handle_request(Request::GetOverlay) {
        Response::Overlay { nodes } => assert_eq!(nodes, vec![s.info(), a.clone()]),
        _ => panic!("Expected Overlay"),
    }
    let b = info("127.0.0.1:7011");
    s.predecessor = Some(b.clone());
    match s.handle_request(Request::GetOverlay) {
        Response::Overlay { nodes } => assert_eq!(nodes, vec![s.info(), a, b]),
        _ => panic!("Expected Overlay"),
    }
}
