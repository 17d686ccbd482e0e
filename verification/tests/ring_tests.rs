//! Chord ring behaviour: nodes and the bootstrap exchanging their requests
//! in memory, the way the network runtime carries them.

use chordify::nodes::node::{
    chain_ack, forward_ack, hash_value, relay_query_all_reply, relay_query_reply, Action, Outcome,
    QueryStep,
};
use chordify::nodes::{Node, NodeInfo, Request, Response};
use chordify::nodes::ring::ring_position;
use chordify::BootstrapNode;

fn get_test_addr(port: u16) -> String {
    format!("127.0.0.1:{}", port)
}

struct Net {
    bootstrap: BootstrapNode,
    nodes: Vec<Node>,
}

impl Net {
    fn new(bs_port: u16) -> Net {
        Net::with_replication(bs_port, 1, 0)
    }

    fn with_replication(bs_port: u16, k: u64, t: u8) -> Net {
        Net { bootstrap: BootstrapNode::new(get_test_addr(bs_port), k, t), nodes: Vec::new() }
    }

    fn node(&self, addr: &str) -> &Node {
        self.nodes.iter().find(|n| n.get_addr() == addr).unwrap()
    }

    fn index(&self, addr: &str) -> Option<usize> {
        self.nodes.iter().position(|n| n.get_addr() == addr)
    }

    /// Deliver a request and return the answer; `None` when nobody answers.
    fn deliver(&mut self, to: &str, request: Request) -> Option<Response> {
        if to == self.bootstrap.get_addr() {
            let step = self.bootstrap.handle_bootstrap_request(request);
            for (addr, req) in step.notifications {
                let _ = self.deliver(&addr, req);
            }
            return Some(step.reply);
        }
        let i = self.index(to)?;
        let action = self.nodes[i].handle_request(request);
        match action {
            Action::Reply(r) => Some(r),
            Action::SendThenReply { sends, reply } => {
                for (addr, req) in sends {
                    self.deliver(&addr, req)?;
                }
                Some(reply)
            }
            Action::ForwardThenAck { to, request, wait: true } => {
                let answer = self.deliver(&to, request);
                Some(chain_ack(answer.ok_or_else(|| format!("connection to {} failed", to))))
            }
            Action::ForwardThenAck { to, request, wait: false } => {
                let outcome = match self.deliver(&to, request) {
                    Some(_) => Ok(()),
                    None => Err(format!("connection to {} failed", to)),
                };
                Some(forward_ack(outcome))
            }
            Action::RelayQuery { to, request, source } => {
                let answer = self.deliver(&to, request)?;
                Some(relay_query_reply(source, answer))
            }
            Action::RelayQueryAll { to, request, source } => {
                let answer = self.deliver(&to, request)?;
                Some(relay_query_all_reply(source, answer))
            }
            Action::Replicate { to, request, wait } => {
                let answer = self.deliver(&to, request);
                if wait {
                    Some(chain_ack(answer.ok_or_else(|| format!("connection to {} failed", to))))
                } else {
                    Some(Response::Ack)
                }
            }
        }
    }

    fn join(&mut self, port: u16) -> String {
        let addr = get_test_addr(port);
        let node = Node::new(addr.clone(), self.bootstrap.get_addr());
        let request = node.join_request();
        self.nodes.push(node);
        let bs = self.bootstrap.get_addr();
        let answer = self.deliver(&bs, request).unwrap();
        let i = self.index(&addr).unwrap();
        self.nodes[i].join(answer).unwrap();
        addr
    }

    fn depart(&mut self, addr: &str) {
        let i = self.index(addr).unwrap();
        if let Some((to, req)) = self.nodes[i].depart_transfer() {
            let _ = self.deliver(&to, req);
        }
        let request = self.nodes[i].depart_request();
        let bs = self.bootstrap.get_addr();
        let answer = self.deliver(&bs, request).unwrap();
        let i = self.index(addr).unwrap();
        self.nodes[i].depart(answer).unwrap();
        self.nodes.remove(i);
    }

    fn insert(&mut self, at: &str, key: &str, value: &str) {
        let i = self.index(at).unwrap();
        match self.nodes[i].insert(key.to_string(), value.to_string()) {
            Outcome::Done => {}
            Outcome::Send { to, request, .. } | Outcome::Replicate { to, request, .. } => {
                self.deliver(&to, request).unwrap();
            }
        }
    }

    fn delete(&mut self, at: &str, key: &str) {
        let i = self.index(at).unwrap();
        match self.nodes[i].delete(key.to_string()) {
            Outcome::Done => {}
            Outcome::Send { to, request, .. } | Outcome::Replicate { to, request, .. } => {
                self.deliver(&to, request).unwrap();
            }
        }
    }

    fn query(&mut self, at: &str, key: &str) -> Vec<(u64, Vec<String>)> {
        let i = self.index(at).unwrap();
        match self.nodes[i].query(key.to_string()) {
            QueryStep::Answer(a) => a,
            QueryStep::Ask { to, request } => {
                let answer = self.deliver(&to, request);
                self.node(at).query_answer(key, answer)
            }
        }
    }

    /// Check that following successors visits every node once and that
    /// predecessor pointers mirror successor pointers.
    fn check_ring(&self) {
        let n = self.nodes.len();
        let mut ids: Vec<u64> = self.nodes.iter().map(|x| x.get_id()).collect();
        ids.sort();
        ids.dedup();
        assert_eq!(ids.len(), n, "All node IDs should be unique");
        let start = self.nodes[0].get_addr();
        let mut cur = start.clone();
        let mut visited = std::collections::HashSet::new();
        for _ in 0..n {
            assert!(visited.insert(cur.clone()), "Ring connectivity broken");
            let node = self.node(&cur);
            let succ = node.get_successor();
            let succ_node = self.node(&succ.addr);
            assert_eq!(succ_node.get_predecessor().addr, cur);
            if n > 1 {
                assert_ne!(succ.addr, cur, "successor should not be itself");
            }
            cur = succ.addr.clone();
        }
        assert_eq!(cur, start, "Should visit all nodes by following successors");
        assert_eq!(visited.len(), n);
        assert_eq!(self.bootstrap.get_ring_members().len(), n);
    }
}

// ==================== Node Tests ====================

#[test]
fn test_node_creation() {
    let node_addr = get_test_addr(20200);
    let bootstrap_addr = get_test_addr(20201);
    let node = Node::new(node_addr.clone(), bootstrap_addr);

    assert_eq!(node.get_addr(), node_addr);
    assert!(node.get_id() > 0);
}

#[test]
fn test_node_getters() {
    let node_addr = get_test_addr(20202);
    let bootstrap_addr = get_test_addr(20203);
    let node = Node::new(node_addr.clone(), bootstrap_addr);

    assert_eq!(node.get_addr(), node_addr);
    let id = node.get_id();
    assert!(id > 0);

    let successor = node.get_successor();
    let predecessor = node.get_predecessor();
    assert_eq!(successor.id, 0);
    assert_eq!(predecessor.id, 0);
    assert_eq!(successor.addr, "0.0.0.0:0");
}

#[test]
fn test_node_ping_handler() {
    let mut node = Node::new(get_test_addr(20210), get_test_addr(20211));
    match node.handle_request(Request::Ping) {
        Action::Reply(Response::Pong) => (),
        _ => panic!("Expected Pong response"),
    }
}

#[test]
fn test_node_set_successor() {
    let mut node = Node::new(get_test_addr(20220), get_test_addr(20221));
    let successor_addr = get_test_addr(20222);
    let successor_info = NodeInfo { addr: successor_addr.clone(), id: 54321 };
    match node.handle_request(Request::SetSuccessor { node: successor_info }) {
        Action::Reply(Response::Ack) => (),
        _ => panic!("Expected Ok response"),
    }
    let successor = node.get_successor();
    assert_eq!(successor.addr, successor_addr);
    assert_eq!(successor.id, 54321);
}

#[test]
fn test_node_set_predecessor() {
    let mut node = Node::new(get_test_addr(20230), get_test_addr(20231));
    let predecessor_addr = get_test_addr(20232);
    let predecessor_info = NodeInfo { addr: predecessor_addr.clone(), id: 11111 };
    match node.handle_request(Request::SetPredecessor { node: predecessor_info }) {
        Action::Reply(Response::Ack) => (),
        _ => panic!("Expected Ok response"),
    }
    let predecessor = node.get_predecessor();
    assert_eq!(predecessor.addr, predecessor_addr);
    assert_eq!(predecessor.id, 11111);
}

#[test]
fn test_node_insert_handler() {
    let mut node = Node::new(get_test_addr(20400), get_test_addr(20401));
    let request = Request::Insert { key: "test_key".to_string(), value: "test_value".to_string() };
    match node.handle_request(request) {
        Action::Reply(Response::Ack) => (),
        _ => panic!("Expected Ok response"),
    }
}

#[test]
fn test_node_delete_handler() {
    let mut node = Node::new(get_test_addr(20410), get_test_addr(20411));
    node.handle_request(Request::Insert { key: "delete_test".to_string(), value: "value".to_string() });
    match node.handle_request(Request::Delete { key: "delete_test".to_string() }) {
        Action::Reply(Response::Ack) => (),
        _ => panic!("Expected Ok response"),
    }
    match node.query("delete_test".to_string()) {
        QueryStep::Answer(a) => assert!(a[0].1.is_empty()),
        _ => panic!("Expected local answer"),
    }
}

#[test]
fn test_transfer_data() {
    let mut node = Node::new(get_test_addr(20420), get_test_addr(20421));
    let data = vec![
        ("key1".to_string(), "value1".to_string()),
        ("key2".to_string(), "value2".to_string()),
    ];
    match node.handle_request(Request::TransferData { data }) {
        Action::Reply(Response::Ack) => (),
        _ => panic!("Expected Ok response"),
    }
    match node.query("key2".to_string()) {
        QueryStep::Answer(a) => assert_eq!(a[0].1, vec!["value2".to_string()]),
        _ => panic!("Expected local answer"),
    }
}

#[test]
fn test_hash_consistency() {
    let addr = "127.0.0.1:8080";
    let hash1 = hash_value(addr);
    let hash2 = hash_value(addr);
    assert_eq!(hash1, hash2, "Hash should be deterministic");
}

#[test]
fn test_hash_different_inputs() {
    let hash1 = hash_value("127.0.0.1:8080");
    let hash2 = hash_value("127.0.0.1:8081");
    assert_ne!(hash1, hash2, "Different inputs should produce different hashes");
}

#[test]
fn test_hash_range() {
    let hash = hash_value("127.0.0.1:8080");
    let max_value = 1u64 << 10; // N = 10
    assert!(hash < max_value, "Hash should be within the N-bit range");
}

#[test]
fn test_hash_known_value() {
    // SHA-1("abc") starts a9 99 3e 36 47 06 81 6a; the low 10 bits of that
    // big-endian u64 are 0x16a.
    assert_eq!(hash_value("abc"), 0x16a);
}

#[test]
fn test_unsupported_request_to_node() {
    let mut node = Node::new(get_test_addr(20500), get_test_addr(20501));
    let join_node = NodeInfo { addr: get_test_addr(20502), id: 99999 };
    match node.handle_request(Request::JoinRequest { joining_node: join_node }) {
        Action::Reply(Response::Error(e)) => {
            assert!(e.contains("Unsupported") || e.contains("bootstrap"));
        }
        _ => panic!("Expected Error response"),
    }
}

#[test]
fn test_multiple_sequential_inserts() {
    let mut node = Node::new(get_test_addr(20600), get_test_addr(20601));
    for i in 0..10 {
        let request = Request::Insert { key: format!("key_{}", i), value: format!("value_{}", i) };
        match node.handle_request(request) {
            Action::Reply(Response::Ack) => (),
            _ => panic!("Expected Ok response"),
        }
    }
}

#[test]
fn test_insert_concatenates_existing_value() {
    let mut node = Node::new(get_test_addr(20602), get_test_addr(20603));
    assert!(matches!(node.insert("song".to_string(), "ab".to_string()), Outcome::Done));
    assert!(matches!(node.insert("song".to_string(), "cd".to_string()), Outcome::Done));
    match node.query("song".to_string()) {
        QueryStep::Answer(a) => {
            assert_eq!(a, vec![(hash_value("song"), vec!["abcd".to_string()])]);
        }
        _ => panic!("Expected local answer"),
    }
}

#[test]
fn test_forward_ack_and_relays() {
    assert!(matches!(forward_ack(Ok(())), Response::Ack));
    match forward_ack(Err("boom".to_string())) {
        Response::Error(e) => assert_eq!(e, "boom"),
        _ => panic!("Expected Error"),
    }
    match relay_query_reply("s".to_string(), Response::Pong) {
        Response::QueryResponse { source, value } => {
            assert_eq!(source, "s");
            assert_eq!(value, None);
        }
        _ => panic!("Expected QueryResponse"),
    }
    match relay_query_all_reply("s".to_string(), Response::Pong) {
        Response::QueryAll { source, data } => {
            assert_eq!(source, "s");
            assert!(data.is_empty());
        }
        _ => panic!("Expected QueryAll"),
    }
}

#[test]
fn test_join_refused_and_unexpected() {
    let mut node = Node::new(get_test_addr(20604), get_test_addr(20605));
    assert!(node.join(Response::Error("no".to_string())).is_err());
    assert!(node.join(Response::Pong).is_err());
    assert!(node.depart(Response::Ack).is_err());
}

// ==================== Bootstrap Node Tests ====================

#[test]
fn test_bootstrap_creation() {
    let bootstrap_addr = get_test_addr(20100);
    let bootstrap = BootstrapNode::new(bootstrap_addr.clone(), 1, 0);
    assert_eq!(bootstrap.get_addr(), bootstrap_addr);
}

#[test]
fn test_bootstrap_ring_members_empty() {
    let bootstrap = BootstrapNode::new(get_test_addr(20101), 1, 0);
    let members = bootstrap.get_ring_members();
    assert_eq!(members.len(), 0);
}

#[test]
fn test_bootstrap_register_node() {
    let mut bootstrap = BootstrapNode::new(get_test_addr(20102), 1, 0);
    let node_addr = get_test_addr(20103);
    let node_info = NodeInfo { addr: node_addr.clone(), id: 12345 };

    bootstrap.register_node(node_info.clone());
    let members = bootstrap.get_ring_members();
    assert_eq!(members.len(), 1);
    assert_eq!(members[0].addr, node_addr);
    // registering the same address again changes nothing
    bootstrap.register_node(node_info);
    assert_eq!(bootstrap.get_ring_members().len(), 1);
}

#[test]
fn test_bootstrap_unregister_node() {
    let mut bootstrap = BootstrapNode::new(get_test_addr(20104), 1, 0);
    let node_addr = get_test_addr(20105);
    let node_info = NodeInfo { addr: node_addr.clone(), id: 12345 };

    bootstrap.register_node(node_info);
    assert_eq!(bootstrap.get_ring_members().len(), 1);

    bootstrap.unregister_node(&node_addr);
    assert_eq!(bootstrap.get_ring_members().len(), 0);
}

#[test]
fn test_bootstrap_ping() {
    let mut bootstrap = BootstrapNode::new(get_test_addr(20110), 1, 0);
    let step = bootstrap.handle_bootstrap_request(Request::Ping);
    match step.reply {
        Response::Pong => (),
        _ => panic!("Expected Pong response"),
    }
    let step = bootstrap.handle_bootstrap_request(Request::Delete { key: "x".to_string() });
    match step.reply {
        Response::Error(e) => assert_eq!(e, "Unrecognized request"),
        _ => panic!("Expected Error response"),
    }
}

#[test]
fn test_bootstrap_members_sorted_by_address_hash() {
    let mut bootstrap = BootstrapNode::new(get_test_addr(20120), 1, 0);
    for port in 20121..20131 {
        let addr = get_test_addr(port);
        bootstrap.register_node(NodeInfo { id: hash_value(&addr), addr });
    }
    let members = bootstrap.get_ring_members();
    assert_eq!(members.len(), 10);
    for w in members.windows(2) {
        assert!(hash_value(&w[0].addr) <= hash_value(&w[1].addr));
    }
    let topo = bootstrap.topology();
    assert_eq!(topo.len(), 11);
    assert_eq!(topo[0], (0, get_test_addr(20120)));
    assert_eq!(topo[1], (members[0].id, members[0].addr.clone()));
}

// ==================== Join/Depart Tests ====================

#[test]
fn test_single_node_join() {
    let mut net = Net::new(20300);
    let node_addr = net.join(20301);
    let node = net.node(&node_addr);
    assert_eq!(node.get_successor().addr, node_addr);
    assert_eq!(node.get_predecessor().addr, node_addr);
}

#[test]
fn test_two_nodes_join() {
    let mut net = Net::new(20310);
    let node1_addr = net.join(20311);
    let node2_addr = net.join(20312);

    assert!(net.node(&node1_addr).get_successor().addr == node2_addr);
    assert!(net.node(&node1_addr).get_predecessor().addr == node2_addr);
    assert!(net.node(&node2_addr).get_successor().addr == node1_addr);
    assert!(net.node(&node2_addr).get_predecessor().addr == node1_addr);
}

#[test]
fn test_five_nodes_join() {
    let mut net = Net::new(20330);
    for i in 0..5 {
        net.join(20331 + i);
    }
    assert_eq!(net.bootstrap.get_ring_members().len(), 5, "All 5 nodes should be in the ring");
    net.check_ring();
}

#[test]
fn test_ten_nodes_join() {
    let mut net = Net::new(20340);
    for i in 0..10 {
        net.join(20341 + i);
    }
    assert_eq!(net.bootstrap.get_ring_members().len(), 10, "All 10 nodes should be in the ring");
    net.check_ring();
}

#[test]
fn test_fifteen_nodes_join() {
    let mut net = Net::new(20360);
    for i in 0..15 {
        net.join(20361 + i);
    }
    assert_eq!(net.bootstrap.get_ring_members().len(), 15, "All 15 nodes should be in the ring");
    net.check_ring();
}

#[test]
fn test_nodes_join_with_data_insertion() {
    let mut net = Net::new(20380);
    let mut addrs = Vec::new();
    for i in 0..5 {
        addrs.push(net.join(20381 + i));
    }
    for i in 0..5 {
        let at = addrs[i].clone();
        net.insert(&at, &format!("test_key_{}", i), &format!("test_value_{}", i));
    }
    for i in 0..5 {
        let key = format!("test_key_{}", i);
        let at = addrs[(i + 2) % 5].clone();
        let r = net.query(&at, &key);
        assert_eq!(r, vec![(hash_value(&key), vec![format!("test_value_{}", i)])]);
    }
    let all = net.query(&addrs[0].clone(), "*");
    let total: usize = all.iter().map(|(_, v)| v.len()).sum();
    assert_eq!(total, 5);
    assert_eq!(all.len(), 5);
}

#[test]
fn test_node_depart() {
    let mut net = Net::new(20320);
    let node_addr = net.join(20321);
    assert_eq!(net.bootstrap.get_ring_members().len(), 1);
    net.depart(&node_addr);
    assert_eq!(net.bootstrap.get_ring_members().len(), 0);
}

#[test]
fn test_ring_single_node_crud() {
    let mut net = Net::new(19100);
    let node_addr = net.join(19101);
    net.insert(&node_addr, "foo", "bar");
    let v = net.query(&node_addr, "foo");
    assert!(!v[0].1.is_empty(), "expected to find inserted value");
    net.delete(&node_addr, "foo");
    let v2 = net.query(&node_addr, "foo");
    assert!(v2[0].1.is_empty(), "expected nothing after delete");
}

#[test]
fn test_ring_multiple_joins_and_departs() {
    let mut net = Net::new(19200);
    let node1 = net.join(19201);
    net.insert(&node1, "a", "1");
    net.insert(&node1, "b", "2");
    let node2 = net.join(19202);
    let a_hash = hash_value("a");
    assert_eq!(net.query(&node2, "a"), vec![(a_hash, vec!["1".to_string()])]);
    assert_eq!(net.query(&node2, "b"), vec![(hash_value("b"), vec!["2".to_string()])]);
    net.depart(&node1);
    let node3 = net.join(19203);
    net.check_ring();
    assert_eq!(net.query(&node2, "a"), vec![(a_hash, vec!["1".to_string()])]);
    assert_eq!(net.query(&node3, "b"), vec![(hash_value("b"), vec!["2".to_string()])]);
}

#[test]
fn test_insert_before_and_after_joins() {
    let mut net = Net::new(19300);
    let first = net.join(19301);
    net.insert(&first, "x", "100");
    let second = net.join(19302);
    net.insert(&second, "y", "200");
    assert_eq!(net.query(&first, "x"), vec![(hash_value("x"), vec!["100".to_string()])]);
    assert_eq!(net.query(&first, "y"), vec![(hash_value("y"), vec!["200".to_string()])]);
    assert_eq!(net.query(&second, "x"), vec![(hash_value("x"), vec!["100".to_string()])]);
    assert_eq!(net.query(&second, "y"), vec![(hash_value("y"), vec!["200".to_string()])]);
}

#[test]
fn test_exactly_one_node_stores_each_key() {
    let mut net = Net::new(19400);
    for i in 0..6 {
        net.join(19401 + i);
    }
    for key in ["a", "b", "c", "Hey Jude", "Let It Be", "Yesterday"] {
        let h = hash_value(key);
        let count = net.nodes.iter().filter(|n| n.is_responsible_for_hash(h)).count();
        assert_eq!(count, 1);
    }
}

#[test]
fn test_ring_position_of_digest() {
    let mut d = [0u8; 20];
    d[6] = 0x81;
    d[7] = 0x6a;
    assert_eq!(ring_position(&d), 0x16a);
    d[0] = 0xff;
    d[5] = 0x04;
    d[8] = 0x99;
    assert_eq!(ring_position(&d), 0x16a);
    assert_eq!(ring_position(&[0xffu8; 20]), 1023);
}

#[test]
fn test_join_hands_over_keys_to_new_node() {
    let mut net = Net::new(19500);
    let first = net.join(19501);
    let keys: Vec<String> = (0..20).map(|i| format!("song {}", i)).collect();
    for k in &keys {
        net.insert(&first, k, "v");
    }
    let second = net.join(19502);
    for k in &keys {
        let h = hash_value(k);
        let owner = if net.node(&second).is_responsible_for_hash(h) { &second } else { &first };
        match net.node(owner).query(k.clone()) {
            QueryStep::Answer(a) => assert_eq!(a, vec![(h, vec!["v".to_string()])]),
            QueryStep::Ask { .. } => panic!("the node that stores the key should answer it"),
        }
    }
}

#[test]
fn test_depart_hands_over_keys_to_successor() {
    let mut net = Net::new(19600);
    let first = net.join(19601);
    let second = net.join(19602);
    let keys: Vec<String> = (0..20).map(|i| format!("track {}", i)).collect();
    for k in &keys {
        net.insert(&first, k, "w");
    }
    net.depart(&second);
    for k in &keys {
        let h = hash_value(k);
        match net.node(&first).query(k.clone()) {
            QueryStep::Answer(a) => assert_eq!(a, vec![(h, vec!["w".to_string()])]),
            QueryStep::Ask { .. } => panic!("the last node should answer every key"),
        }
    }
}

#[test]
fn test_insert_copies_to_successors() {
    let mut net = Net::with_replication(19700, 3, 0);
    let mut addrs = Vec::new();
    for i in 0..5 {
        addrs.push(net.join(19701 + i));
    }
    net.insert(&addrs[0].clone(), "Hey Jude", "1001");
    let h = hash_value("Hey Jude");
    let owner = net.nodes.iter().find(|n| n.is_responsible_for_hash(h)).unwrap().get_addr();
    let first = net.node(&owner).get_successor().addr;
    let second = net.node(&first).get_successor().addr;
    let third = net.node(&second).get_successor().addr;
    // The owner and its two successors answer for the key; in linearizable
    // mode the copies are not read, so a query anywhere still reaches the owner.
    for at in [&owner, &first, &second, &third] {
        assert_eq!(net.query(at, "Hey Jude"), vec![(h, vec!["1001".to_string()])]);
    }
    net.delete(&addrs[1].clone(), "Hey Jude");
    assert_eq!(net.query(&owner, "Hey Jude"), vec![(h, vec![])]);
}

#[test]
fn test_eventual_mode_reads_copies() {
    let mut net = Net::with_replication(19800, 3, 1);
    let mut addrs = Vec::new();
    for i in 0..5 {
        addrs.push(net.join(19801 + i));
    }
    net.insert(&addrs[2].clone(), "Let It Be", "7");
    let h = hash_value("Let It Be");
    let owner = net.nodes.iter().find(|n| n.is_responsible_for_hash(h)).unwrap().get_addr();
    let first = net.node(&owner).get_successor().addr;
    let second = net.node(&first).get_successor().addr;
    let third = net.node(&second).get_successor().addr;
    for at in [&first, &second] {
        match net.node(at).query("Let It Be".to_string()) {
            QueryStep::Answer(a) => assert_eq!(a, vec![(h, vec!["7".to_string()])]),
            QueryStep::Ask { .. } => panic!("a node holding a copy answers in eventual mode"),
        }
    }
    match net.node(&third).query("Let It Be".to_string()) {
        QueryStep::Answer(_) => panic!("only k - 1 successors hold a copy"),
        QueryStep::Ask { .. } => {}
    }
    net.delete(&owner.clone(), "Let It Be");
    match net.node(&first).query("Let It Be".to_string()) {
        QueryStep::Answer(_) => panic!("the copy is removed with the key"),
        QueryStep::Ask { .. } => {}
    }
}

#[test]
fn test_neighbourhood() {
    let node = Node::new(get_test_addr(19901), get_test_addr(19900));
    assert_eq!(node.neighbourhood(), vec![(node.get_id(), get_test_addr(19901))]);
    let mut net = Net::new(19900);
    let a = net.join(19901);
    let b = net.join(19902);
    let na = net.node(&a);
    let nb = net.node(&b);
    assert_eq!(na.neighbourhood(), vec![(nb.get_id(), b.clone()), (na.get_id(), a.clone())]);
}

#[test]
fn test_depart_of_non_member_sends_nothing() {
    let mut net = Net::new(20000);
    let a = net.join(20001);
    let before = net.bootstrap.get_ring_members();
    let notes = net.bootstrap.coordinate_depart(&get_test_addr(20099));
    assert!(notes.is_empty());
    let after = net.bootstrap.get_ring_members();
    assert_eq!(after.len(), before.len());
    assert_eq!(after[0].addr, a);
}

#[test]
fn test_forwarded_write_waits_in_linearizable_mode() {
    for (t, port) in [(0u8, 20100u16), (1u8, 20200u16)] {
        let mut net = Net::with_replication(port, 3, t);
        let mut addrs = Vec::new();
        for i in 0..4 {
            addrs.push(net.join(port + 1 + i));
        }
        let key = "Yesterday".to_string();
        let h = hash_value(&key);
        let i = net.nodes.iter().position(|n| !n.is_responsible_for_hash(h)).unwrap();
        match net.nodes[i].handle_request(Request::Insert { key: key.clone(), value: "v".to_string() }) {
            Action::ForwardThenAck { wait, .. } => assert_eq!(wait, t == 0),
            other => panic!("unexpected action {:?}", other),
        }
    }
}

#[test]
fn test_handed_over_keys_leave_the_successor() {
    let mut net = Net::new(20300);
    let first = net.join(20301);
    let keys: Vec<String> = (0..30).map(|i| format!("tune {}", i)).collect();
    for k in &keys {
        net.insert(&first, k, "x");
    }
    let second = net.join(20302);
    // Every key is stored at exactly one node: a wildcard query sees each once.
    let all = net.query(&first, "*");
    let total: usize = all.iter().map(|(_, v)| v.len()).sum();
    assert_eq!(total, keys.len());
    // A delete at the new owner leaves no stale copy behind.
    for k in &keys {
        net.delete(&second, k);
    }
    let all = net.query(&first, "*");
    let total: usize = all.iter().map(|(_, v)| v.len()).sum();
    assert_eq!(total, 0);
}

#[test]
fn test_join_keeps_handed_over_keys_as_copies() {
    let mut net = Net::with_replication(20400, 2, 1);
    let first = net.join(20401);
    let keys: Vec<String> = (0..30).map(|i| format!("air {}", i)).collect();
    for k in &keys {
        net.insert(&first, k, "y");
    }
    let second = net.join(20402);
    // The keys now stored at the new node stay at its successor as copies,
    // which answers them in eventual mode.
    let mut moved = 0;
    for k in &keys {
        let h = hash_value(k);
        if net.node(&second).is_responsible_for_hash(h) {
            moved += 1;
            match net.node(&first).query(k.clone()) {
                QueryStep::Answer(a) => assert_eq!(a, vec![(h, vec!["y".to_string()])]),
                QueryStep::Ask { .. } => panic!("expected the copy of {} at the successor", k),
            }
        }
    }
    assert!(moved > 0);
}
