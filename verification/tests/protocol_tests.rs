//! Tests for the message protocol types of the messaging layer.

use chordify::communication::protocol::{
    id_from_clock, Message, MessagePayload, NodeInfo, Request, Response,
};
use chordify::NodeId;

fn addr_text(text: &str) -> String {
    text.to_string()
}

#[test]
fn test_message_response_preserves_id() {
    let addr = addr_text("127.0.0.1:8000");
    let request = Message::new(addr.clone(), MessagePayload::Request(Request::Ping));
    let response = Message::response(request.id, addr, MessagePayload::Response(Response::Pong));

    assert_eq!(request.id, response.id, "Response should have same ID as request");
}

#[test]
fn test_message_new_generates_unique_ids() {
    let addr = addr_text("127.0.0.1:8000");
    let msg1 = Message::new(addr.clone(), MessagePayload::Request(Request::Ping));
    let msg2 = Message::new(addr, MessagePayload::Request(Request::Ping));

    // IDs are nanosecond timestamps, so two messages get different IDs
    assert_ne!(msg1.id, msg2.id, "Different messages should have different IDs");
}

#[test]
fn test_node_info_creation() {
    let addr = addr_text("192.168.1.100:5000");
    let info = NodeInfo::new(addr.clone());

    assert_eq!(info.addr, addr);
    assert_eq!(info.id, NodeId::from_address(&addr));
}

#[test]
fn test_node_info_equality() {
    let addr = addr_text("10.0.0.1:3000");
    let info1 = NodeInfo::new(addr.clone());
    let info2 = NodeInfo::new(addr);

    assert_eq!(info1, info2, "Same address should produce equal NodeInfo");
}

#[test]
fn test_message_new_keeps_sender_and_payload() {
    let addr = addr_text("127.0.0.1:8000");
    let msg = Message::new(addr.clone(), MessagePayload::Request(Request::Insert {
        key: "Hello".to_string(),
        value: "World".to_string(),
    }));
    assert_eq!(msg.sender, addr);
    if let MessagePayload::Request(Request::Insert { key, value }) = msg.payload {
        assert_eq!(key, "Hello");
        assert_eq!(value, "World");
    } else {
        panic!("Expected Insert request");
    }
}

#[test]
fn test_id_from_clock() {
    assert_eq!(id_from_clock(Some(1_700_000_000_123_456_789)), 1_700_000_000_123_456_789);
    assert_eq!(id_from_clock(Some((1u128 << 64) + 5)), 5);
    assert_eq!(id_from_clock(None), 0);
}
