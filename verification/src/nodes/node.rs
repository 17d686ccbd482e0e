//! Node - A Chord DHT node.
//!
//! The node's decisions: which keys it stores, where a request for another
//! key goes, what its state becomes on each request, and what it answers.
//! Sending and receiving is done by the caller, which hands the node the
//! replies it gets (see `Outcome`, `QueryStep` and `Action`).

use vstd::prelude::*;
pub use super::ring::hash_value;
use vstd::string::*;
use crate::store::{
    Pair, Store, copy_pairs, copy_string, write_all, pairs_map, keys_unique, index_of, lemma_index_of,
    keys_of, lemma_pairs_map_keys,
    lemma_write_all,
};
use crate::text::push_char;
use super::protocol::{Request, Response, NodeData, ReplicaBlock};
use super::ring::{
    ring_hash, responsible, toward_successor, is_responsible, goes_to_successor,
    RING_SIZE,
};

verus! {

/// Address and ring position of a node.
#[derive(Debug, PartialEq)]
pub struct NodeInfo {
    /// `ip:port` of the node
    pub addr: String,
    /// Position of the node on the ring
    pub id: u64,
}

impl Clone for NodeInfo {
    fn clone(&self) -> (r: Self)
        ensures
            r == *self,
    {
        NodeInfo { addr: self.addr.clone(), id: self.id }
    }
}

/// The address `0.0.0.0:0` that marks a pointer not set yet.
pub open spec fn unassigned_addr() -> Seq<char> {
    seq!['0', '.', '0', '.', '0', '.', '0', ':', '0']
}

/// A pointer that is not set yet: address `0.0.0.0:0`, position 0.
pub open spec fn is_unassigned(n: NodeInfo) -> bool {
    n.addr@ == unassigned_addr() && n.id == 0
}

impl NodeInfo {
    /// The pointer used before a node has neighbours.
    pub fn unassigned() -> (r: NodeInfo)
        ensures
            is_unassigned(r),
    {
        let mut a = String::new();
        push_char(&mut a, '0');
        push_char(&mut a, '.');
        push_char(&mut a, '0');
        push_char(&mut a, '.');
        push_char(&mut a, '0');
        push_char(&mut a, '.');
        push_char(&mut a, '0');
        push_char(&mut a, ':');
        push_char(&mut a, '0');
        assert(a@ =~= unassigned_addr());
        NodeInfo { addr: a, id: 0 }
    }

    /// Same address and same position.
    pub fn same_as(&self, other: &NodeInfo) -> (r: bool)
        ensures
            r == (self.addr@ == other.addr@ && self.id == other.id),
    {
        self.addr == other.addr && self.id == other.id
    }
}

/// `"*"`, the wildcard key.
pub open spec fn wildcard() -> Seq<char> {
    seq!['*']
}

fn is_wildcard(key: &str) -> (r: bool)
    ensures
        r == (key@ == wildcard()),
{
    let n = key.unicode_len();
    if n != 1 {
        return false;
    }
    let c = key.get_char(0);
    if c == '*' {
        assert(key@ =~= wildcard());
        true
    } else {
        false
    }
}

/// The text `key:value` listed for a pair in a wildcard query.
pub open spec fn pair_text(p: Pair) -> Seq<char> {
    p.0@ + seq![':'] + p.1@
}

/// The text listed for a pair in a wildcard answer starts with the pair's
/// key, followed by `:`, and ends with its value; nothing else is in it.
pub proof fn lemma_pair_text_layout(p: Pair)
    ensures
        pair_text(p).len() == p.0@.len() + 1 + p.1@.len(),
        pair_text(p).take(p.0@.len() as int) == p.0@,
        pair_text(p)[p.0@.len() as int] == ':',
        pair_text(p).skip(p.0@.len() + 1int) == p.1@,
{
    assert(pair_text(p).take(p.0@.len() as int) =~= p.0@);
    assert(pair_text(p).skip(p.0@.len() + 1int) =~= p.1@);
}

fn format_pair(p: &Pair) -> (r: String)
    ensures
        r@ == pair_text(*p),
{
    let mut s = p.0.clone();
    push_char(&mut s, ':');
    s.append(p.1.as_str());
    s
}

/// What a node stores for a key, as the list a query shows: the value, or
/// nothing.
pub open spec fn value_list(v: Option<Seq<char>>, r: Seq<String>) -> bool {
    match v {
        Some(x) => r.len() == 1 && r[0]@ == x,
        None => r.len() == 0,
    }
}

/// Replicated blocks as a map: a later block for the same node overrides an
/// earlier one.
pub open spec fn blocks_map(s: Seq<ReplicaBlock>) -> Map<u64, (u64, Seq<Pair>)>
    decreases s.len(),
{
    if s.len() == 0 {
        Map::empty()
    } else {
        blocks_map(s.drop_last()).insert(s.last().0, (s.last().1.0, s.last().1.1@))
    }
}

fn copy_blocks(v: &Vec<ReplicaBlock>) -> (r: Vec<ReplicaBlock>)
    ensures
        r@.len() == v@.len(),
        forall|i: int|
            0 <= i < v@.len() ==> (#[trigger] r@[i]).0 == v@[i].0 && r@[i].1.0 == v@[i].1.0
                && r@[i].1.1@ == v@[i].1.1@,
        blocks_map(r@) == blocks_map(v@),
{
    let mut r: Vec<ReplicaBlock> = Vec::new();
    let mut i: usize = 0;
    while i < v.len()
        invariant
            0 <= i <= v.len(),
            r@.len() == i,
            forall|j: int|
                0 <= j < i ==> (#[trigger] r@[j]).0 == v@[j].0 && r@[j].1.0 == v@[j].1.0
                    && r@[j].1.1@ == v@[j].1.1@,
            blocks_map(r@) == blocks_map(v@.take(i as int)),
        decreases v.len() - i,
    {
        let b = (v[i].0, (v[i].1.0, copy_pairs(&v[i].1.1)));
        let ghost prev = r@;
        r.push(b);
        assert(v@.take(i + 1).drop_last() =~= v@.take(i as int));
        assert(r@.drop_last() =~= prev);
        assert(v@.take(i + 1).last() == v@[i as int]);
        i = i + 1;
    }
    assert(v@.take(v.len() as int) =~= v@);
    r
}

/// The keys that a node at `node_id` hands to a new predecessor at
/// `pred_id`: those it no longer stores, in storage order.
pub open spec fn moved_pairs(pairs: Seq<Pair>, node_id: u64, pred_id: u64) -> Seq<Pair> {
    pairs.filter(|p: Pair| !responsible(node_id, pred_id, ring_hash(p.0@) as u64))
}

/// The gathered data `d` of a wildcard query after the node `n`: the data
/// `data` it received, then its own position and pairs.
pub open spec fn gathered_here(n: Node, data: Seq<NodeData>, d: Seq<NodeData>) -> bool {
    &&& d.len() == data.len() + 1
    &&& d.take(data.len() as int) == data
    &&& d[data.len() as int].0 == n.id_view()
    &&& d[data.len() as int].1@ == n.data_pairs()
}

/// What a node does with a wildcard query `QueryAll { source, data }`: it
/// adds its own pairs and answers with all of it when its successor is the
/// asker `source`, else passes the query on to its successor.
pub open spec fn query_all_handled(n: Node, source: String, data: Seq<NodeData>, r: Action) -> bool {
    if source@ == n.successor_view().addr@ {
        r matches Action::Reply(Response::QueryAll { source: s, data: d }) && s == source
            && gathered_here(n, data, d@)
    } else {
        r matches Action::RelayQueryAll {
            to,
            request: Request::QueryAll { source: s1, data: d },
            source: s2,
        } && to@ == n.successor_view().addr@ && s1 == source && s2 == source && gathered_here(
            n,
            data,
            d@,
        )
    }
}

/// What a node does with a copy request `UpdateReplicas { data, k_left }`:
/// its links and stored pairs stay, the pairs are written to its copies,
/// and while more than one copy remains (`k_left > 1`) the request is
/// passed on to its successor with one copy fewer; the last answers `Ok`.
pub open spec fn copy_written(before: Node, after: Node, data: Seq<Pair>, k_left: u64, r: Action) -> bool {
    &&& after.successor_view() == before.successor_view()
    &&& after.predecessor_view() == before.predecessor_view()
    &&& after.data_view() == before.data_view()
    &&& after.data_pairs() == before.data_pairs()
    &&& after.replicas_view() == before.replicas_view()
    &&& after.copies_view() == write_all(before.copies_view(), data)
    &&& if k_left > 1 {
        &&& r matches Action::Replicate {
            to,
            request: Request::UpdateReplicas { data: d, k_left: kl },
            wait,
        }
        &&& to@ == before.successor_view().addr@
        &&& d@ == data
        &&& kl == k_left - 1
        &&& wait == (before.t_view() == 0)
    } else {
        r matches Action::Reply(Response::Ack)
    }
}

/// What a node does with a copy removal `DeleteReplicas { key, k_left }`:
/// as `copy_written`, with the key's copy removed.
pub open spec fn copy_removed(before: Node, after: Node, key: Seq<char>, k_left: u64, r: Action) -> bool {
    &&& after.successor_view() == before.successor_view()
    &&& after.predecessor_view() == before.predecessor_view()
    &&& after.data_view() == before.data_view()
    &&& after.data_pairs() == before.data_pairs()
    &&& after.replicas_view() == before.replicas_view()
    &&& after.copies_view() == before.copies_view().remove(key)
    &&& if k_left > 1 {
        &&& r matches Action::Replicate {
            to,
            request: Request::DeleteReplicas { key: k, k_left: kl },
            wait,
        }
        &&& to@ == before.successor_view().addr@
        &&& k@ == key
        &&& kl == k_left - 1
        &&& wait == (before.t_view() == 0)
    } else {
        r matches Action::Reply(Response::Ack)
    }
}

/// The pairs a node at `node_id` keeps when it takes a new predecessor at
/// `pred_id`: those it is still responsible for (the others are handed to
/// the new predecessor).
pub open spec fn kept_pairs(m: Map<Seq<char>, Seq<char>>, node_id: u64, pred_id: u64) -> Map<
    Seq<char>,
    Seq<char>,
> {
    m.restrict(Set::new(|k: Seq<char>| responsible(node_id, pred_id, ring_hash(k) as u64)))
}

/// The new value stored when `value` is inserted under `key`: appended to
/// the value already there, if any.
pub open spec fn inserted_value(m: Map<Seq<char>, Seq<char>>, key: Seq<char>, value: Seq<char>) -> Seq<
    char,
> {
    if m.contains_key(key) {
        m[key] + value
    } else {
        value
    }
}

/// A listing of nodes as plain values: position and address.
pub open spec fn listing(v: Seq<(u64, String)>) -> Seq<(u64, Seq<char>)> {
    v.map_values(|e: (u64, String)| (e.0, e.1@))
}

/// A listing with a node added at the end, unless the node is unassigned
/// or its address is listed already.
pub open spec fn list_node(l: Seq<(u64, Seq<char>)>, n: NodeInfo) -> Seq<(u64, Seq<char>)> {
    if is_unassigned(n) || exists|i: int| 0 <= i < l.len() && (#[trigger] l[i]).1 == n.addr@ {
        l
    } else {
        l.push((n.id, n.addr@))
    }
}

fn add_listed(out: &mut Vec<(u64, String)>, n: &NodeInfo)
    ensures
        listing(final(out)@) == list_node(listing(old(out)@), *n),
{
    let unassigned = NodeInfo::unassigned();
    if n.same_as(&unassigned) {
        return;
    }
    let mut i: usize = 0;
    while i < out.len()
        invariant
            0 <= i <= out@.len(),
            out@ == old(out)@,
            forall|j: int| 0 <= j < i ==> (#[trigger] listing(out@)[j]).1 != n.addr@,
        decreases out.len() - i,
    {
        if out[i].1 == n.addr {
            assert(listing(out@)[i as int].1 == n.addr@);
            return;
        }
        i = i + 1;
    }
    let ghost before = out@;
    out.push((n.id, n.addr.clone()));
    assert(listing(out@) =~= listing(before).push((n.id, n.addr@)));
}

/// Errors of joining and departing.
#[derive(Debug)]
pub enum NodeError {
    /// The bootstrap refused the join, with its message
    JoinFailed(String),
    /// The bootstrap refused the departure, with its message
    DepartFailed(String),
    /// The bootstrap answered with something else
    UnexpectedResponse,
}

/// What a node does with a write it received from its own user.
#[derive(Debug)]
pub enum Outcome {
    /// Done locally
    Done,
    /// Pass the request on to this address. With `wait` (linearizability)
    /// the write completes when its answer has come back (`chain_ack` of
    /// it); otherwise it is sent without waiting for an answer
    Send { to: String, request: Request, wait: bool },
    /// Done locally; pass the copy request to this address (the successor).
    /// With `wait` (linearizability) the write completes when the copy's
    /// answer has come back; otherwise the copy may follow the answer.
    Replicate { to: String, request: Request, wait: bool },
}

/// What a node does with a query from its own user.
#[derive(Debug)]
pub enum QueryStep {
    /// The answer, known locally
    Answer(Vec<(u64, Vec<String>)>),
    /// Ask this address; `Node::query_answer` turns the reply into the answer
    Ask { to: String, request: Request },
}

/// What a node does with a request it received.
#[derive(Debug)]
pub enum Action {
    /// Answer at once
    Reply(Response),
    /// Send each request in turn without waiting for answers, then answer;
    /// a failed send ends the handling without an answer
    SendThenReply { sends: Vec<(String, Request)>, reply: Response },
    /// Pass the request on. With `wait` (linearizability), ask the address
    /// and answer with `chain_ack` of its reply; otherwise send it without
    /// waiting, and `forward_ack` gives the answer from how the sending went
    ForwardThenAck { to: String, request: Request, wait: bool },
    /// Ask the address; `relay_query_reply` gives the answer from its reply.
    /// A failed exchange ends the handling without an answer
    RelayQuery { to: String, request: Request, source: String },
    /// Ask the address; `relay_query_all_reply` gives the answer from its
    /// reply. A failed exchange ends the handling without an answer
    RelayQueryAll { to: String, request: Request, source: String },
    /// Pass the copy request to the address. With `wait`, ask it and answer
    /// with `chain_ack` of its reply; otherwise answer `Ok` at once and send
    /// the request afterwards
    Replicate { to: String, request: Request, wait: bool },
}

/// The answer at the end of a chained copy: the downstream error, or the
/// error of the failed exchange, or `Ok`.
pub fn chain_ack(outcome: Result<Response, String>) -> (r: Response)
    ensures
        match outcome {
            Ok(Response::Error(e)) => r matches Response::Error(m) && m == e,
            Ok(_) => r is Ack,
            Err(e) => r matches Response::Error(m) && m == e,
        },
{
    match outcome {
        Ok(Response::Error(e)) => Response::Error(e),
        Ok(_) => Response::Ack,
        Err(e) => Response::Error(e),
    }
}

/// The answer to a write that was passed on: `Ok`, or the error text of the
/// failed send.
pub fn forward_ack(outcome: Result<(), String>) -> (r: Response)
    ensures
        match outcome {
            Ok(()) => r is Ack,
            Err(e) => r matches Response::Error(m) && m == e,
        },
{
    match outcome {
        Ok(()) => Response::Ack,
        Err(e) => Response::Error(e),
    }
}

/// The answer to a relayed query: the value found further on, for the
/// original asker `source`; no value when the reply is of another kind.
pub fn relay_query_reply(source: String, answer: Response) -> (r: Response)
    ensures
        match answer {
            Response::QueryResponse { value, .. } => r matches Response::QueryResponse {
                source: s,
                value: v,
            } && s == source && v == value,
            _ => r matches Response::QueryResponse { source: s, value: v } && s == source
                && v is None,
        },
{
    match answer {
        Response::QueryResponse { source: _, value } => Response::QueryResponse { source, value },
        _ => Response::QueryResponse { source, value: None },
    }
}

/// The answer to a relayed wildcard query: the data gathered further on,
/// for the original asker `source`; nothing when the reply is of another
/// kind.
pub fn relay_query_all_reply(source: String, answer: Response) -> (r: Response)
    ensures
        match answer {
            Response::QueryAll { data, .. } => r matches Response::QueryAll { source: s, data: d }
                && s == source && d == data,
            _ => r matches Response::QueryAll { source: s, data: d } && s == source && d@.len()
                == 0,
        },
{
    match answer {
        Response::QueryAll { source: _, data } => Response::QueryAll { source, data },
        _ => Response::QueryAll { source, data: Vec::new() },
    }
}

/// A Chord DHT node.
pub struct Node {
    info: NodeInfo,
    successor: NodeInfo,
    predecessor: NodeInfo,
    data: Store,
    copies: Store,
    replicated_data: Vec<ReplicaBlock>,
    k: u64,
    t: u8,
    bootstrap_addr: String,
}

impl Node {
    /// The node's address.
    pub closed spec fn addr_view(&self) -> Seq<char> {
        self.info.addr@
    }

    /// The node's ring position.
    pub closed spec fn id_view(&self) -> u64 {
        self.info.id
    }

    /// The node's own address and position.
    pub closed spec fn info_view(&self) -> NodeInfo {
        self.info
    }

    /// The node's own information holds its address and position.
    pub proof fn lemma_info_view(&self)
        ensures
            self.info_view().addr@ == self.addr_view(),
            self.info_view().id == self.id_view(),
    {
    }

    /// The node's successor pointer.
    pub closed spec fn successor_view(&self) -> NodeInfo {
        self.successor
    }

    /// The node's predecessor pointer.
    pub closed spec fn predecessor_view(&self) -> NodeInfo {
        self.predecessor
    }

    /// The keys the node stores and their values.
    pub closed spec fn data_view(&self) -> Map<Seq<char>, Seq<char>> {
        self.data@
    }

    /// The stored pairs in storage order.
    pub closed spec fn data_pairs(&self) -> Seq<Pair> {
        self.data.pairs()
    }

    /// The copies this node holds of pairs stored at the nodes before it
    /// (replication factor above 1).
    pub closed spec fn copies_view(&self) -> Map<Seq<char>, Seq<char>> {
        self.copies@
    }

    /// The replicated data held for other nodes.
    pub closed spec fn replicas_view(&self) -> Map<u64, (u64, Seq<Pair>)> {
        blocks_map(self.replicated_data@)
    }

    /// Replication factor.
    pub closed spec fn k_view(&self) -> u64 {
        self.k
    }

    /// Replication type.
    pub closed spec fn t_view(&self) -> u8 {
        self.t
    }

    /// Address of the bootstrap node.
    pub closed spec fn bootstrap_view(&self) -> Seq<char> {
        self.bootstrap_addr@
    }

    /// The node's position is the hash of its address, and its storage is
    /// well formed.
    pub closed spec fn wf(&self) -> bool {
        &&& self.info.id < RING_SIZE
        &&& self.info.id == ring_hash(self.info.addr@)
        &&& self.data.wf()
        &&& self.copies.wf()
    }

    /// The parts of the state that writes to the data leave alone.
    pub open spec fn same_links(&self, other: &Node) -> bool {
        &&& self.addr_view() == other.addr_view()
        &&& self.id_view() == other.id_view()
        &&& self.successor_view() == other.successor_view()
        &&& self.predecessor_view() == other.predecessor_view()
        &&& self.replicas_view() == other.replicas_view()
        &&& self.copies_view() == other.copies_view()
        &&& self.k_view() == other.k_view()
        &&& self.t_view() == other.t_view()
        &&& self.bootstrap_view() == other.bootstrap_view()
    }

    /// A key is stored here: its hash lies on the arc ending at this node.
    pub open spec fn stores_hash(&self, key_hash: u64) -> bool {
        responsible(self.id_view(), self.predecessor_view().id, key_hash)
    }

    /// The address a request for a key stored elsewhere is passed to.
    pub open spec fn next_hop_view(&self, key_hash: u64) -> Seq<char> {
        if toward_successor(self.id_view(), key_hash) {
            self.successor_view().addr@
        } else {
            self.predecessor_view().addr@
        }
    }

    /// Given an address and the bootstrap address, a new node with no
    /// neighbours yet and no data.
    pub fn new(addr: String, bootstrap_addr: String) -> (r: Node)
        ensures
            r.wf(),
            r.addr_view() == addr@,
            r.id_view() == ring_hash(addr@),
            is_unassigned(r.successor_view()),
            is_unassigned(r.predecessor_view()),
            r.data_view() == Map::<Seq<char>, Seq<char>>::empty(),
            r.data_pairs() == Seq::<Pair>::empty(),
            r.replicas_view() == Map::<u64, (u64, Seq<Pair>)>::empty(),
            r.copies_view() == Map::<Seq<char>, Seq<char>>::empty(),
            r.k_view() == 1,
            r.t_view() == 0,
            r.bootstrap_view() == bootstrap_addr@,
    {
        let id = hash_value(addr.as_str());
        Node {
            info: NodeInfo { addr, id },
            successor: NodeInfo::unassigned(),
            predecessor: NodeInfo::unassigned(),
            data: Store::new(),
            copies: Store::new(),
            replicated_data: Vec::new(),
            k: 1,
            t: 0,
            bootstrap_addr,
        }
    }

    /// The node's address.
    pub fn get_addr(&self) -> (r: String)
        ensures
            r@ == self.addr_view(),
    {
        self.info.addr.clone()
    }

    /// The node's ring position.
    pub fn get_id(&self) -> (r: u64)
        ensures
            r == self.id_view(),
    {
        self.info.id
    }

    /// The bootstrap address the node was created with.
    pub fn get_bootstrap_addr(&self) -> (r: String)
        ensures
            r@ == self.bootstrap_view(),
    {
        self.bootstrap_addr.clone()
    }

    /// Get the successor.
    pub fn get_successor(&self) -> (r: NodeInfo)
        ensures
            r == self.successor_view(),
    {
        self.successor.clone()
    }

    /// Get the predecessor.
    pub fn get_predecessor(&self) -> (r: NodeInfo)
        ensures
            r == self.predecessor_view(),
    {
        self.predecessor.clone()
    }

    /// The replication factor and type received when joining.
    pub fn get_replication(&self) -> (r: (u64, u8))
        ensures
            r == (self.k_view(), self.t_view()),
    {
        (self.k, self.t)
    }

    /// Check if this node is responsible for a given key hash, using its
    /// current predecessor.
    pub fn is_responsible_for_hash(&self, key_hash: u64) -> (r: bool)
        ensures
            r == self.stores_hash(key_hash),
    {
        is_responsible(self.info.id, self.predecessor.id, key_hash)
    }

    /// Check if a key belongs to this node.
    pub fn is_responsible_for_key(&self, key: &str) -> (r: bool)
        ensures
            r == self.stores_hash(ring_hash(key@) as u64),
    {
        let key_hash = hash_value(key);
        self.is_responsible_for_hash(key_hash)
    }

    fn next_hop(&self, key_hash: u64) -> (r: String)
        requires
            self.wf(),
            key_hash < RING_SIZE,
        ensures
            r@ == self.next_hop_view(key_hash),
    {
        if goes_to_successor(self.info.id, key_hash) {
            self.successor.addr.clone()
        } else {
            self.predecessor.addr.clone()
        }
    }

    /// Insert a key-value pair. If this node stores the key, the value is
    /// appended to the one already there (or stored, if none); otherwise
    /// the insert is passed on towards the node that stores it.
    pub fn insert(&mut self, key: String, value: String) -> (r: Outcome)
        requires
            old(self).wf(),
        ensures
            final(self).wf(),
            final(self).same_links(old(self)),
            ({
                let h = ring_hash(key@) as u64;
                if old(self).stores_hash(h) {
                    &&& final(self).data_view() == old(self).data_view().insert(
                        key@,
                        inserted_value(old(self).data_view(), key@, value@),
                    )
                    &&& if old(self).k_view() <= 1 {
                        r is Done
                    } else {
                        &&& r matches Outcome::Replicate {
                            to,
                            request: Request::UpdateReplicas { data, k_left },
                            wait,
                        }
                        &&& to@ == old(self).successor_view().addr@
                        &&& k_left == old(self).k_view() - 1
                        &&& wait == (old(self).t_view() == 0)
                        &&& data@.len() == 1
                        &&& data@[0].0@ == key@
                        &&& data@[0].1@ == inserted_value(old(self).data_view(), key@, value@)
                    }
                } else {
                    &&& final(self).data_view() == old(self).data_view()
                    &&& final(self).data_pairs() == old(self).data_pairs()
                    &&& r matches Outcome::Send {
                        to,
                        request: Request::Insert { key: k, value: v },
                        wait,
                    }
                    &&& to@ == old(self).next_hop_view(h) && k@ == key@ && v@ == value@
                    &&& wait == (old(self).t_view() == 0)
                }
            }),
    {
        let key_hash = hash_value(key.as_str());
        if self.is_responsible_for_hash(key_hash) {
            let new_value = match self.data.get(key.as_str()) {
                Some(existing) => {
                    let mut joined = existing;
                    joined.append(value.as_str());
                    joined
                },
                None => value,
            };
            let copy = (key.clone(), new_value.clone());
            self.data.insert(key, new_value);
            if self.k <= 1 {
                Outcome::Done
            } else {
                let mut data: Vec<Pair> = Vec::new();
                data.push(copy);
                Outcome::Replicate {
                    to: self.successor.addr.clone(),
                    request: Request::UpdateReplicas { data, k_left: self.k - 1 },
                    wait: self.t == 0,
                }
            }
        } else {
            let to = self.next_hop(key_hash);
            Outcome::Send { to, request: Request::Insert { key, value }, wait: self.t == 0 }
        }
    }

    /// Delete a key-value pair, here or at the node that stores it.
    pub fn delete(&mut self, key: String) -> (r: Outcome)
        requires
            old(self).wf(),
        ensures
            final(self).wf(),
            final(self).same_links(old(self)),
            ({
                let h = ring_hash(key@) as u64;
                if old(self).stores_hash(h) {
                    &&& final(self).data_view() == old(self).data_view().remove(key@)
                    &&& if old(self).k_view() <= 1 {
                        r is Done
                    } else {
                        &&& r matches Outcome::Replicate {
                            to,
                            request: Request::DeleteReplicas { key: k, k_left },
                            wait,
                        }
                        &&& to@ == old(self).successor_view().addr@
                        &&& k_left == old(self).k_view() - 1
                        &&& wait == (old(self).t_view() == 0)
                        &&& k@ == key@
                    }
                } else {
                    &&& final(self).data_view() == old(self).data_view()
                    &&& final(self).data_pairs() == old(self).data_pairs()
                    &&& r matches Outcome::Send { to, request: Request::Delete { key: k }, wait }
                    &&& to@ == old(self).next_hop_view(h) && k@ == key@
                    &&& wait == (old(self).t_view() == 0)
                }
            }),
    {
        let key_hash = hash_value(key.as_str());
        if self.is_responsible_for_hash(key_hash) {
            let _ = self.data.remove(key.as_str());
            if self.k <= 1 {
                Outcome::Done
            } else {
                Outcome::Replicate {
                    to: self.successor.addr.clone(),
                    request: Request::DeleteReplicas { key, k_left: self.k - 1 },
                    wait: self.t == 0,
                }
            }
        } else {
            let to = self.next_hop(key_hash);
            Outcome::Send { to, request: Request::Delete { key }, wait: self.t == 0 }
        }
    }

    /// The local answer for one key: its hash with the stored value, if any.
    fn local_answer(&self, key: &str, key_hash: u64) -> (r: Vec<(u64, Vec<String>)>)
        requires
            self.wf(),
        ensures
            r@.len() == 1,
            r@[0].0 == key_hash,
            value_list(
                if self.data_view().contains_key(key@) {
                    Some(self.data_view()[key@])
                } else {
                    None
                },
                r@[0].1@,
            ),
    {
        let mut vals: Vec<String> = Vec::new();
        match self.data.get(key) {
            Some(v) => {
                vals.push(v);
            },
            None => {},
        }
        let mut r: Vec<(u64, Vec<String>)> = Vec::new();
        r.push((key_hash, vals));
        r
    }

    /// Query a key, or all keys of the ring with the wildcard `*`.
    /// A key this node stores is answered here; any other query is asked of
    /// another node, whose reply `query_answer` reads.
    pub fn query(&self, key: String) -> (r: QueryStep)
        requires
            self.wf(),
        ensures
            ({
                let h = ring_hash(key@) as u64;
                if key@ == wildcard() {
                    &&& r matches QueryStep::Ask {
                        to,
                        request: Request::QueryAll { source, data },
                    }
                    &&& to@ == self.successor_view().addr@
                    &&& source@ == self.addr_view()
                    &&& data@.len() == 1
                    &&& data@[0].0 == self.id_view()
                    &&& data@[0].1@ == self.data_pairs()
                } else if self.stores_hash(h) {
                    &&& r matches QueryStep::Answer(a)
                    &&& a@.len() == 1
                    &&& a@[0].0 == h
                    &&& value_list(
                        if self.data_view().contains_key(key@) {
                            Some(self.data_view()[key@])
                        } else {
                            None
                        },
                        a@[0].1@,
                    )
                } else if self.t_view() == 1 && self.copies_view().contains_key(key@) {
                    &&& r matches QueryStep::Answer(a)
                    &&& a@.len() == 1
                    &&& a@[0].0 == h
                    &&& value_list(Some(self.copies_view()[key@]), a@[0].1@)
                } else {
                    &&& r matches QueryStep::Ask { to, request: Request::Query { key: k, source } }
                    &&& to@ == self.next_hop_view(h)
                    &&& k@ == key@
                    &&& source@ == self.addr_view()
                }
            }),
    {
        let key_hash = hash_value(key.as_str());
        if !is_wildcard(key.as_str()) {
            if self.is_responsible_for_hash(key_hash) {
                QueryStep::Answer(self.local_answer(key.as_str(), key_hash))
            } else {
                let copy = if self.t == 1 {
                    self.copies.get(key.as_str())
                } else {
                    None
                };
                match copy {
                    Some(v) => {
                        let mut vals: Vec<String> = Vec::new();
                        vals.push(v);
                        let mut a: Vec<(u64, Vec<String>)> = Vec::new();
                        a.push((key_hash, vals));
                        QueryStep::Answer(a)
                    },
                    None => {
                        let to = self.next_hop(key_hash);
                        let source = self.info.addr.clone();
                        QueryStep::Ask { to, request: Request::Query { key, source } }
                    },
                }
            }
        } else {
            let mut data: Vec<NodeData> = Vec::new();
            data.push((self.info.id, self.data.to_pairs()));
            let to = self.successor.addr.clone();
            let source = self.info.addr.clone();
            QueryStep::Ask { to, request: Request::QueryAll { source, data } }
        }
    }

    /// The result of a query that was asked of another node, from its reply
    /// (`None` when the exchange failed): the value found, or for the
    /// wildcard every node's pairs as `key:value` texts; nothing when the
    /// reply is missing or of another kind.
    pub fn query_answer(&self, key: &str, answer: Option<Response>) -> (r: Vec<(u64, Vec<String>)>)
        ensures
            key@ == wildcard() ==> (match answer {
                Some(Response::QueryAll { data, .. }) => {
                    &&& r@.len() == data@.len()
                    &&& forall|i: int|
                        0 <= i < data@.len() ==> (#[trigger] r@[i]).0 == data@[i].0 && r@[i].1@.len()
                            == data@[i].1@.len() && forall|j: int|
                            0 <= j < data@[i].1@.len() ==> (#[trigger] r@[i].1@[j])@ == pair_text(
                                data@[i].1@[j],
                            )
                },
                _ => r@.len() == 0,
            }),
            key@ != wildcard() ==> (match answer {
                Some(Response::QueryResponse { value, .. }) => {
                    &&& r@.len() == 1
                    &&& r@[0].0 == ring_hash(key@) as u64
                    &&& value_list(
                        match value {
                            Some(v) => Some(v@),
                            None => None,
                        },
                        r@[0].1@,
                    )
                },
                _ => r@.len() == 0,
            }),
    {
        if !is_wildcard(key) {
            let key_hash = hash_value(key);
            match answer {
                Some(Response::QueryResponse { source: _, value }) => {
                    let mut vals: Vec<String> = Vec::new();
                    match value {
                        Some(v) => {
                            vals.push(v);
                        },
                        None => {},
                    }
                    let mut r: Vec<(u64, Vec<String>)> = Vec::new();
                    r.push((key_hash, vals));
                    r
                },
                _ => Vec::new(),
            }
        } else {
            match answer {
                Some(Response::QueryAll { source: _, data }) => {
                    let mut r: Vec<(u64, Vec<String>)> = Vec::new();
                    let mut i: usize = 0;
                    while i < data.len()
                        invariant
                            0 <= i <= data@.len(),
                            r@.len() == i,
                            forall|a: int|
                                0 <= a < i ==> (#[trigger] r@[a]).0 == data@[a].0 && r@[a].1@.len()
                                    == data@[a].1@.len() && forall|j: int|
                                    0 <= j < data@[a].1@.len() ==> (#[trigger] r@[a].1@[j])@
                                        == pair_text(data@[a].1@[j]),
                        decreases data.len() - i,
                    {
                        let pairs = &data[i].1;
                        let mut texts: Vec<String> = Vec::new();
                        let mut j: usize = 0;
                        while j < pairs.len()
                            invariant
                                0 <= j <= pairs@.len(),
                                texts@.len() == j,
                                forall|b: int|
                                    0 <= b < j ==> (#[trigger] texts@[b])@ == pair_text(pairs@[b]),
                            decreases pairs.len() - j,
                        {
                            texts.push(format_pair(&pairs[j]));
                            j = j + 1;
                        }
                        r.push((data[i].0, texts));
                        i = i + 1;
                    }
                    r
                },
                _ => Vec::new(),
            }
        }
    }

    /// The request a node sends to the bootstrap to join the ring.
    pub fn join_request(&self) -> (r: Request)
        ensures
            r matches Request::JoinRequest { joining_node } && joining_node.addr@ == self.addr_view()
                && joining_node.id == self.id_view(),
    {
        Request::JoinRequest { joining_node: self.info.clone() }
    }

    /// Take the bootstrap's answer to a join: on success adopt the assigned
    /// successor, predecessor and replication parameters.
    pub fn join(&mut self, answer: Response) -> (r: Result<(), NodeError>)
        requires
            old(self).wf(),
        ensures
            final(self).wf(),
            final(self).addr_view() == old(self).addr_view(),
            final(self).id_view() == old(self).id_view(),
            final(self).data_view() == old(self).data_view(),
            final(self).data_pairs() == old(self).data_pairs(),
            final(self).replicas_view() == old(self).replicas_view(),
            final(self).copies_view() == old(self).copies_view(),
            final(self).bootstrap_view() == old(self).bootstrap_view(),
            match answer {
                Response::JoinSuccess { successor, predecessor, k, t } => {
                    &&& r is Ok
                    &&& final(self).successor_view() == successor
                    &&& final(self).predecessor_view() == predecessor
                    &&& final(self).k_view() == k
                    &&& final(self).t_view() == t
                },
                Response::Error(e) => {
                    &&& r matches Err(NodeError::JoinFailed(m)) && m == e
                    &&& *final(self) == *old(self)
                },
                _ => {
                    &&& r matches Err(NodeError::UnexpectedResponse)
                    &&& *final(self) == *old(self)
                },
            },
    {
        match answer {
            Response::JoinSuccess { successor, predecessor, k, t } => {
                self.successor = successor;
                self.predecessor = predecessor;
                self.k = k;
                self.t = t;
                Ok(())
            },
            Response::Error(e) => Err(NodeError::JoinFailed(e)),
            _ => Err(NodeError::UnexpectedResponse),
        }
    }

    /// The part of the ring this node knows, for showing the overlay: its
    /// predecessor, itself and its successor in that order, leaving out an
    /// unassigned neighbour and an address already listed.
    pub fn neighbourhood(&self) -> (r: Vec<(u64, String)>)
        ensures
            listing(r@) == list_node(
                list_node(list_node(seq![], self.predecessor_view()), self.info_view()),
                self.successor_view(),
            ),
    {
        let mut out: Vec<(u64, String)> = Vec::new();
        assert(listing(out@) =~= seq![]);
        add_listed(&mut out, &self.predecessor);
        add_listed(&mut out, &self.info);
        add_listed(&mut out, &self.successor);
        out
    }

    /// Before departing, the node hands all its data to its successor,
    /// unless it is its own successor or has none.
    pub fn depart_transfer(&self) -> (r: Option<(String, Request)>)
        requires
            self.wf(),
        ensures
            (self.successor_view().addr@ != self.addr_view() && self.successor_view().id != 0)
                ==> (r matches Some((to, Request::TransferData { data })) && to@
                == self.successor_view().addr@ && data@ == self.data_pairs()),
            !(self.successor_view().addr@ != self.addr_view() && self.successor_view().id != 0)
                ==> r is None,
    {
        if self.successor.addr != self.info.addr && self.successor.id != 0 {
            Some((self.successor.addr.clone(), Request::TransferData { data: self.data.to_pairs() }))
        } else {
            None
        }
    }

    /// The request a node sends to the bootstrap to depart.
    pub fn depart_request(&self) -> (r: Request)
        ensures
            r matches Request::DepartRequest { departing_node } && departing_node.addr@
                == self.addr_view() && departing_node.id == self.id_view(),
    {
        Request::DepartRequest { departing_node: self.info.clone() }
    }

    /// Take the bootstrap's answer to a departure: on success forget the
    /// neighbours and the data.
    pub fn depart(&mut self, answer: Response) -> (r: Result<(), NodeError>)
        requires
            old(self).wf(),
        ensures
            final(self).wf(),
            final(self).addr_view() == old(self).addr_view(),
            final(self).id_view() == old(self).id_view(),
            final(self).replicas_view() == old(self).replicas_view(),
            final(self).copies_view() == old(self).copies_view(),
            final(self).k_view() == old(self).k_view(),
            final(self).t_view() == old(self).t_view(),
            final(self).bootstrap_view() == old(self).bootstrap_view(),
            match answer {
                Response::DepartSuccess => {
                    &&& r is Ok
                    &&& is_unassigned(final(self).successor_view())
                    &&& is_unassigned(final(self).predecessor_view())
                    &&& final(self).data_view() == Map::<Seq<char>, Seq<char>>::empty()
                },
                Response::Error(e) => {
                    &&& r matches Err(NodeError::DepartFailed(m)) && m == e
                    &&& *final(self) == *old(self)
                },
                _ => {
                    &&& r matches Err(NodeError::UnexpectedResponse)
                    &&& *final(self) == *old(self)
                },
            },
    {
        match answer {
            Response::DepartSuccess => {
                self.successor = NodeInfo::unassigned();
                self.predecessor = NodeInfo::unassigned();
                self.data.clear();
                Ok(())
            },
            Response::Error(e) => Err(NodeError::DepartFailed(e)),
            _ => Err(NodeError::UnexpectedResponse),
        }
    }

    /// The pairs this node hands to a new predecessor.
    fn pairs_for(&self, pred_id: u64) -> (r: Vec<Pair>)
        requires
            self.wf(),
        ensures
            r@ == moved_pairs(self.data_pairs(), self.id_view(), pred_id),
    {
        let entries = self.data.entries();
        let mut r: Vec<Pair> = Vec::new();
        let mut i: usize = 0;
        let ghost pred = |p: Pair| !responsible(self.info.id, pred_id, ring_hash(p.0@) as u64);
        while i < entries.len()
            invariant
                0 <= i <= entries@.len(),
                entries@ == self.data.pairs(),
                r@ == entries@.take(i as int).filter(pred),
                pred == (|p: Pair| !responsible(self.info.id, pred_id, ring_hash(p.0@) as u64)),
            decreases entries.len() - i,
        {
            reveal_with_fuel(Seq::<_>::filter, 1);
            let h = hash_value(entries[i].0.as_str());
            if !is_responsible(self.info.id, pred_id, h) {
                r.push((entries[i].0.clone(), entries[i].1.clone()));
            }
            assert(entries@.take(i + 1).drop_last() =~= entries@.take(i as int));
            i = i + 1;
        }
        assert(entries@.take(entries.len() as int) =~= entries@);
        r
    }

    /// Handle an incoming request: the state change and what to do next.
    /// A new predecessor with keys gets the pairs this node no longer stores,
    /// which leave its storage; with replication (k > 1) this node keeps
    /// them as copies, being the new owner's first successor.
    pub fn handle_request(&mut self, request: Request) -> (r: Action)
        requires
            old(self).wf(),
        ensures
            final(self).wf(),
            final(self).addr_view() == old(self).addr_view(),
            final(self).id_view() == old(self).id_view(),
            final(self).k_view() == old(self).k_view(),
            final(self).t_view() == old(self).t_view(),
            final(self).bootstrap_view() == old(self).bootstrap_view(),
            !(request is UpdateReplicas || request is DeleteReplicas
                || request is SetPredecessorWithKeys) ==> final(self).copies_view()
                == old(self).copies_view(),
            match request {
                Request::Ping => r matches Action::Reply(Response::Pong) && *final(self) == *old(self),
                Request::SetPredecessor { node } => {
                    &&& r matches Action::Reply(Response::Ack)
                    &&& final(self).predecessor_view() == node
                    &&& final(self).successor_view() == old(self).successor_view()
                    &&& final(self).data_view() == old(self).data_view()
                    &&& final(self).replicas_view() == old(self).replicas_view()
                },
                Request::SetSuccessor { node } => {
                    &&& r matches Action::Reply(Response::Ack)
                    &&& final(self).successor_view() == node
                    &&& final(self).predecessor_view() == old(self).predecessor_view()
                    &&& final(self).data_view() == old(self).data_view()
                    &&& final(self).replicas_view() == old(self).replicas_view()
                },
                Request::SetPredecessorWithKeys { node } => {
                    let moved = moved_pairs(old(self).data_pairs(), old(self).id_view(), node.id);
                    &&& final(self).predecessor_view() == node
                    &&& final(self).successor_view() == old(self).successor_view()
                    &&& final(self).data_view() == kept_pairs(
                        old(self).data_view(),
                        old(self).id_view(),
                        node.id,
                    )
                    &&& final(self).copies_view() == if old(self).k_view() > 1 {
                        write_all(old(self).copies_view(), moved)
                    } else {
                        old(self).copies_view()
                    }
                    &&& final(self).replicas_view() == old(self).replicas_view()
                    &&& r matches Action::SendThenReply { sends, reply: Response::Ack }
                    &&& sends@.len() == (if moved.len() > 0 {
                        2int
                    } else {
                        1int
                    })
                    &&& forall|i: int| 0 <= i < sends@.len() ==> (#[trigger] sends@[i]).0@ == node.addr@
                    &&& moved.len() > 0 ==> (sends@[0].1 matches Request::TransferData { data }
                        && data@ == moved)
                    &&& sends@[sends@.len() - 1].1 matches Request::TransferReplicas {
                        new_replicated_data,
                        node_addr,
                    } && blocks_map(new_replicated_data@) == old(self).replicas_view()
                        && node_addr@ == old(self).addr_view()
                },
                Request::Insert { key, value } => {
                    let h = ring_hash(key@) as u64;
                    &&& final(self).same_links(old(self))
                    &&& if old(self).stores_hash(h) {
                        &&& final(self).data_view() == old(self).data_view().insert(
                            key@,
                            inserted_value(old(self).data_view(), key@, value@),
                        )
                        &&& if old(self).k_view() <= 1 {
                            r matches Action::Reply(Response::Ack)
                        } else {
                            &&& r matches Action::Replicate {
                                to,
                                request: Request::UpdateReplicas { data, k_left },
                                wait,
                            }
                            &&& to@ == old(self).successor_view().addr@
                            &&& k_left == old(self).k_view() - 1
                            &&& wait == (old(self).t_view() == 0)
                            &&& data@.len() == 1
                            &&& data@[0].0@ == key@
                            &&& data@[0].1@ == inserted_value(old(self).data_view(), key@, value@)
                        }
                    } else {
                        &&& final(self).data_view() == old(self).data_view()
                        &&& r matches Action::ForwardThenAck {
                            to,
                            request: Request::Insert { key: k, value: v },
                            wait,
                        }
                        &&& to@ == old(self).next_hop_view(h) && k@ == key@ && v@ == value@
                        &&& wait == (old(self).t_view() == 0)
                    }
                },
                Request::Delete { key } => {
                    let h = ring_hash(key@) as u64;
                    &&& final(self).same_links(old(self))
                    &&& if old(self).stores_hash(h) {
                        &&& final(self).data_view() == old(self).data_view().remove(key@)
                        &&& if old(self).k_view() <= 1 {
                            r matches Action::Reply(Response::Ack)
                        } else {
                            &&& r matches Action::Replicate {
                                to,
                                request: Request::DeleteReplicas { key: k, k_left },
                                wait,
                            }
                            &&& to@ == old(self).successor_view().addr@
                            &&& k_left == old(self).k_view() - 1
                            &&& wait == (old(self).t_view() == 0)
                            &&& k@ == key@
                        }
                    } else {
                        &&& final(self).data_view() == old(self).data_view()
                        &&& r matches Action::ForwardThenAck {
                            to,
                            request: Request::Delete { key: k },
                            wait,
                        }
                        &&& to@ == old(self).next_hop_view(h) && k@ == key@
                        &&& wait == (old(self).t_view() == 0)
                    }
                },
                Request::Query { key, source } => {
                    let h = ring_hash(key@) as u64;
                    &&& *final(self) == *old(self)
                    &&& if old(self).stores_hash(h) {
                        r matches Action::Reply(Response::QueryResponse { source: s, value })
                            && s == source && match value {
                            Some(v) => old(self).data_view().contains_key(key@) && old(self).data_view()[key@] == v@,
                            None => !old(self).data_view().contains_key(key@),
                        }
                    } else if old(self).t_view() == 1 && old(self).copies_view().contains_key(key@) {
                        r matches Action::Reply(Response::QueryResponse { source: s, value: Some(v) })
                            && s == source && v@ == old(self).copies_view()[key@]
                    } else {
                        r matches Action::RelayQuery {
                            to,
                            request: Request::Query { key: k, source: s1 },
                            source: s2,
                        } && to@ == old(self).next_hop_view(h) && k == key && s1 == source && s2
                            == source
                    }
                },
                Request::QueryAll { source, data } => {
                    &&& *final(self) == *old(self)
                    &&& query_all_handled(*old(self), source, data@, r)
                },
                Request::TransferData { data } => {
                    &&& r matches Action::Reply(Response::Ack)
                    &&& final(self).same_links(old(self))
                    &&& final(self).data_view() == write_all(old(self).data_view(), data@)
                },
                Request::TransferReplicas { new_replicated_data, .. } => {
                    &&& r matches Action::Reply(Response::Ack)
                    &&& final(self).successor_view() == old(self).successor_view()
                    &&& final(self).predecessor_view() == old(self).predecessor_view()
                    &&& final(self).data_view() == old(self).data_view()
                    &&& final(self).replicas_view() == old(self).replicas_view().union_prefer_right(
                        blocks_map(new_replicated_data@),
                    )
                },
                Request::UpdateReplicas { data, k_left } => copy_written(
                    *old(self),
                    *final(self),
                    data@,
                    k_left,
                    r,
                ),
                Request::DeleteReplicas { key, k_left } => copy_removed(
                    *old(self),
                    *final(self),
                    key@,
                    k_left,
                    r,
                ),
                Request::JoinRequest { .. } => r matches Action::Reply(Response::Error(m)) && m@
                    == unsupported_text() && *final(self) == *old(self),
                Request::DepartRequest { .. } => r matches Action::Reply(Response::Error(m)) && m@
                    == unsupported_text() && *final(self) == *old(self),
            },
    {
        match request {
            Request::Ping => Action::Reply(Response::Pong),
            Request::SetPredecessor { node } => {
                self.predecessor = node;
                Action::Reply(Response::Ack)
            },
            Request::SetSuccessor { node } => {
                self.successor = node;
                Action::Reply(Response::Ack)
            },
            Request::SetPredecessorWithKeys { node } => {
                let new_data = self.pairs_for(node.id);
                let ghost old_data = self.data@;
                self.data.remove_keys_of(&new_data);
                if self.k > 1 {
                    self.copies.write_all(copy_pairs(&new_data));
                }
                proof {
                    assert forall|k: Seq<char>| #[trigger] self.data@.contains_key(k) == kept_pairs(
                        old_data,
                        self.info.id,
                        node.id,
                    ).contains_key(k) by {
                        lemma_moved_map(old(self).data.pairs(), self.info.id, node.id, k);
                        lemma_pairs_map_keys(new_data@, k);
                    }
                    assert(self.data@ =~= kept_pairs(old_data, self.info.id, node.id));
                }
                let to = node.addr.clone();
                self.predecessor = node;
                let mut sends: Vec<(String, Request)> = Vec::new();
                if new_data.len() > 0 {
                    sends.push((to.clone(), Request::TransferData { data: new_data }));
                }
                let blocks = copy_blocks(&self.replicated_data);
                sends.push(
                    (
                        to,
                        Request::TransferReplicas {
                            new_replicated_data: blocks,
                            node_addr: self.info.addr.clone(),
                        },
                    ),
                );
                Action::SendThenReply { sends, reply: Response::Ack }
            },
            Request::Insert { key, value } => {
                match self.insert(key, value) {
                    Outcome::Done => Action::Reply(Response::Ack),
                    Outcome::Send { to, request, wait } => Action::ForwardThenAck {
                        to,
                        request,
                        wait,
                    },
                    Outcome::Replicate { to, request, wait } => Action::Replicate { to, request, wait },
                }
            },
            Request::Delete { key } => {
                match self.delete(key) {
                    Outcome::Done => Action::Reply(Response::Ack),
                    Outcome::Send { to, request, wait } => Action::ForwardThenAck {
                        to,
                        request,
                        wait,
                    },
                    Outcome::Replicate { to, request, wait } => Action::Replicate { to, request, wait },
                }
            },
            Request::Query { key, source } => {
                let key_hash = hash_value(key.as_str());
                if self.is_responsible_for_hash(key_hash) {
                    let value = self.data.get(key.as_str());
                    Action::Reply(Response::QueryResponse { source, value })
                } else {
                    let copy = if self.t == 1 {
                        self.copies.get(key.as_str())
                    } else {
                        None
                    };
                    match copy {
                        Some(v) => Action::Reply(Response::QueryResponse { source, value: Some(v) }),
                        None => {
                            let to = self.next_hop(key_hash);
                            let s2 = source.clone();
                            Action::RelayQuery {
                                to,
                                request: Request::Query { key, source },
                                source: s2,
                            }
                        },
                    }
                }
            },
            Request::QueryAll { source, data } => {
                let ghost original = data@;
                let mut current_data = data;
                current_data.push((self.info.id, self.data.to_pairs()));
                assert(current_data@.take(original.len() as int) =~= original);
                if source == self.successor.addr {
                    Action::Reply(Response::QueryAll { source, data: current_data })
                } else {
                    let to = self.successor.addr.clone();
                    let s2 = source.clone();
                    Action::RelayQueryAll {
                        to,
                        request: Request::QueryAll { source, data: current_data },
                        source: s2,
                    }
                }
            },
            Request::TransferData { data } => {
                self.data.write_all(data);
                Action::Reply(Response::Ack)
            },
            Request::TransferReplicas { new_replicated_data, node_addr: _ } => {
                self.store_replicas(new_replicated_data);
                Action::Reply(Response::Ack)
            },
            Request::UpdateReplicas { data, k_left } => {
                let forward = copy_pairs(&data);
                self.copies.write_all(data);
                if k_left > 1 {
                    Action::Replicate {
                        to: self.successor.addr.clone(),
                        request: Request::UpdateReplicas { data: forward, k_left: k_left - 1 },
                        wait: self.t == 0,
                    }
                } else {
                    Action::Reply(Response::Ack)
                }
            },
            Request::DeleteReplicas { key, k_left } => {
                let _ = self.copies.remove(key.as_str());
                if k_left > 1 {
                    Action::Replicate {
                        to: self.successor.addr.clone(),
                        request: Request::DeleteReplicas { key, k_left: k_left - 1 },
                        wait: self.t == 0,
                    }
                } else {
                    Action::Reply(Response::Ack)
                }
            },
            _ => Action::Reply(Response::Error(unsupported_message())),
        }
    }

    fn store_replicas(&mut self, blocks: Vec<ReplicaBlock>)
        requires
            old(self).wf(),
        ensures
            final(self).wf(),
            final(self).info == old(self).info,
            final(self).successor == old(self).successor,
            final(self).predecessor == old(self).predecessor,
            final(self).data == old(self).data,
            final(self).copies == old(self).copies,
            final(self).k == old(self).k,
            final(self).t == old(self).t,
            final(self).bootstrap_addr == old(self).bootstrap_addr,
            final(self).replicas_view() == old(self).replicas_view().union_prefer_right(
                blocks_map(blocks@),
            ),
    {
        let ghost start = self.replicated_data@;
        let mut i: usize = 0;
        let n = blocks.len();
        let copied = copy_blocks(&blocks);
        while i < n
            invariant
                0 <= i <= n,
                n == copied@.len(),
                blocks_map(copied@) == blocks_map(blocks@),
                self.wf(),
                self.info == old(self).info,
                self.successor == old(self).successor,
                self.predecessor == old(self).predecessor,
                self.data == old(self).data,
                self.copies == old(self).copies,
                self.k == old(self).k,
                self.t == old(self).t,
                self.bootstrap_addr == old(self).bootstrap_addr,
                blocks_map(self.replicated_data@) == blocks_map(start).union_prefer_right(
                    blocks_map(copied@.take(i as int)),
                ),
            decreases n - i,
        {
            let b = (copied[i].0, (copied[i].1.0, copy_pairs(&copied[i].1.1)));
            let ghost before = self.replicated_data@;
            self.replicated_data.push(b);
            assert(self.replicated_data@.drop_last() =~= before);
            assert(copied@.take(i + 1).drop_last() =~= copied@.take(i as int));
            assert(blocks_map(self.replicated_data@) =~= blocks_map(start).union_prefer_right(
                blocks_map(copied@.take(i + 1)),
            ));
            i = i + 1;
        }
        assert(copied@.take(n as int) =~= copied@);
    }
}

/// Once the node that stores a key has taken an insert for it (what
/// `Node::insert` leaves in that case), the key is still stored there, a
/// query there reads the inserted value appended to the one it had before,
/// and every other key keeps its value.
pub proof fn lemma_insert_then_query(before: Node, after: Node, key: Seq<char>, value: Seq<char>)
    requires
        before.stores_hash(ring_hash(key) as u64),
        after.same_links(&before),
        after.data_view() == before.data_view().insert(
            key,
            inserted_value(before.data_view(), key, value),
        ),
    ensures
        after.stores_hash(ring_hash(key) as u64),
        after.data_view().contains_key(key),
        after.data_view()[key] == (if before.data_view().contains_key(key) {
            before.data_view()[key] + value
        } else {
            value
        }),
        forall|other: Seq<char>|
            other != key ==> (#[trigger] after.data_view().contains_key(other)
                == before.data_view().contains_key(other)) && (before.data_view().contains_key(
                other,
            ) ==> after.data_view()[other] == before.data_view()[other]),
{
}

/// Two inserts under a key that the storing node did not hold leave the two
/// values concatenated in order.
pub proof fn lemma_two_inserts_concatenate(
    before: Node,
    middle: Node,
    after: Node,
    key: Seq<char>,
    v1: Seq<char>,
    v2: Seq<char>,
)
    requires
        before.stores_hash(ring_hash(key) as u64),
        !before.data_view().contains_key(key),
        middle.same_links(&before),
        middle.data_view() == before.data_view().insert(
            key,
            inserted_value(before.data_view(), key, v1),
        ),
        after.same_links(&middle),
        after.data_view() == middle.data_view().insert(
            key,
            inserted_value(middle.data_view(), key, v2),
        ),
    ensures
        after.stores_hash(ring_hash(key) as u64),
        after.data_view().contains_key(key),
        after.data_view()[key] == v1 + v2,
{
}

/// Once the node that stores a key has taken a delete for it (what
/// `Node::delete` leaves in that case), a query there finds nothing, and
/// every other key keeps its value.
pub proof fn lemma_delete_then_query(before: Node, after: Node, key: Seq<char>)
    requires
        before.stores_hash(ring_hash(key) as u64),
        after.same_links(&before),
        after.data_view() == before.data_view().remove(key),
    ensures
        after.stores_hash(ring_hash(key) as u64),
        !after.data_view().contains_key(key),
        forall|other: Seq<char>|
            other != key ==> (#[trigger] after.data_view().contains_key(other)
                == before.data_view().contains_key(other)) && (before.data_view().contains_key(
                other,
            ) ==> after.data_view()[other] == before.data_view()[other]),
{
}

/// The pairs handed over on a new predecessor hold exactly the stored keys
/// the node is no longer responsible for, with their values.
proof fn lemma_moved_map(s: Seq<Pair>, node_id: u64, pred_id: u64, key: Seq<char>)
    requires
        keys_unique(s),
    ensures
        pairs_map(moved_pairs(s, node_id, pred_id)).contains_key(key) == (pairs_map(
            s,
        ).contains_key(key) && !responsible(node_id, pred_id, ring_hash(key) as u64)),
        pairs_map(moved_pairs(s, node_id, pred_id)).contains_key(key) ==> pairs_map(
            moved_pairs(s, node_id, pred_id),
        )[key] == pairs_map(s)[key],
    decreases s.len(),
{
    if s.len() > 0 {
        let t = s.drop_last();
        let x = s.last();
        assert(keys_unique(t));
        lemma_moved_map(t, node_id, pred_id, key);
        let mt = moved_pairs(t, node_id, pred_id);
        let keep = !responsible(node_id, pred_id, ring_hash(x.0@) as u64);
        reveal(Seq::filter);
        assert(moved_pairs(s, node_id, pred_id) == (if keep {
            mt.push(x)
        } else {
            mt
        }));
        if keep {
            assert(mt.push(x).drop_last() =~= mt);
        }
        if x.0@ == key {
            lemma_index_of(t, key);
            if pairs_map(t).contains_key(key) {
                let i = index_of(t, key);
                assert(s[i] == t[i]);
                assert(s[s.len() - 1] == x);
            }
        }
    }
}

/// When a node takes a new predecessor at `pred_id`, what it hands over
/// (`SetPredecessorWithKeys`) is exactly the stored keys it is no longer
/// responsible for, each with its value; a node that takes them
/// (`TransferData`) then holds each of them with that value.
pub proof fn lemma_join_handover(
    node: Node,
    pred_id: u64,
    receiver: Map<Seq<char>, Seq<char>>,
    key: Seq<char>,
)
    requires
        node.wf(),
    ensures
        ({
            let moved = moved_pairs(node.data_pairs(), node.id_view(), pred_id);
            let handed = node.data_view().contains_key(key) && !responsible(
                node.id_view(),
                pred_id,
                ring_hash(key) as u64,
            );
            &&& pairs_map(moved).contains_key(key) == handed
            &&& handed ==> pairs_map(moved)[key] == node.data_view()[key]
            &&& handed ==> write_all(receiver, moved).contains_key(key)
            &&& handed ==> write_all(receiver, moved)[key] == node.data_view()[key]
        }),
{
    let moved = moved_pairs(node.data_pairs(), node.id_view(), pred_id);
    lemma_moved_map(node.data_pairs(), node.id_view(), pred_id, key);
    lemma_write_all(receiver, moved);
}

/// A departing node hands all its pairs to its successor
/// (`Node::depart_transfer`), and a node that takes them (`TransferData`)
/// then holds every key of the departing node with its value.
pub proof fn lemma_depart_handover(node: Node, receiver: Map<Seq<char>, Seq<char>>, key: Seq<char>)
    requires
        node.wf(),
        node.data_view().contains_key(key),
    ensures
        write_all(receiver, node.data_pairs()).contains_key(key),
        write_all(receiver, node.data_pairs())[key] == node.data_view()[key],
{
    lemma_write_all(receiver, node.data_pairs());
}

/// The copy requests of a chain, as delivered: node `j + 1` is the
/// successor that node `j` passed the request to, and handles what it was
/// passed.
pub open spec fn copy_chain(data: Seq<Pair>, before: Seq<Node>, after: Seq<Node>, acts: Seq<Action>) -> bool {
    &&& before.len() == after.len() == acts.len()
    &&& forall|j: int|
        0 <= j < acts.len() - 1 ==> {
            &&& #[trigger] acts[j] matches Action::Replicate {
                to,
                request: Request::UpdateReplicas { data: d, k_left: kl },
                ..
            }
            &&& before[j + 1].addr_view() == to@
            &&& copy_written(before[j + 1], after[j + 1], d@, kl, acts[j + 1])
        }
}

proof fn lemma_copy_chain_step(
    k: u64,
    data: Seq<Pair>,
    before: Seq<Node>,
    after: Seq<Node>,
    acts: Seq<Action>,
    j: int,
)
    requires
        k >= 2,
        acts.len() >= 1,
        copy_written(before[0], after[0], data, (k - 1) as u64, acts[0]),
        copy_chain(data, before, after, acts),
        0 <= j < acts.len(),
    ensures
        k - 1 - j >= 1,
        copy_written(before[j], after[j], data, (k - 1 - j) as u64, acts[j]),
    decreases j,
{
    if j > 0 {
        lemma_copy_chain_step(k, data, before, after, acts, j - 1);
        assert(acts[j - 1] matches Action::Replicate { .. });
    }
}

/// A write at a node that stores its key, with replication factor k ≥ 2,
/// is copied by exactly k − 1 nodes: the storing node's copy request
/// (carrying the written pairs with `k_left == k - 1`) goes to its
/// successor, which passes it on to its own successor, and so on. Once the
/// chain has ended (its last node answers), it has passed through k − 1
/// nodes and each of them holds the written pairs among its copies.
pub proof fn lemma_copy_chain(
    k: u64,
    data: Seq<Pair>,
    before: Seq<Node>,
    after: Seq<Node>,
    acts: Seq<Action>,
)
    requires
        k >= 2,
        acts.len() >= 1,
        copy_written(before[0], after[0], data, (k - 1) as u64, acts[0]),
        copy_chain(data, before, after, acts),
        acts.last() is Reply,
    ensures
        acts.len() == k - 1,
        forall|j: int|
            0 <= j < acts.len() ==> (#[trigger] after[j]).copies_view() == write_all(
                before[j].copies_view(),
                data,
            ),
{
    let n = acts.len() as int;
    lemma_copy_chain_step(k, data, before, after, acts, n - 1);
    if n - 1 > 0 {
        lemma_copy_chain_step(k, data, before, after, acts, n - 2);
        assert(acts[n - 2] matches Action::Replicate { .. });
    }
    assert forall|j: int| 0 <= j < n implies (#[trigger] after[j]).copies_view() == write_all(
        before[j].copies_view(),
        data,
    ) by {
        lemma_copy_chain_step(k, data, before, after, acts, j);
    }
}

/// The removals of a chain, as delivered (see `copy_chain`).
pub open spec fn removal_chain(key: Seq<char>, before: Seq<Node>, after: Seq<Node>, acts: Seq<Action>) -> bool {
    &&& before.len() == after.len() == acts.len()
    &&& forall|j: int|
        0 <= j < acts.len() - 1 ==> {
            &&& #[trigger] acts[j] matches Action::Replicate {
                to,
                request: Request::DeleteReplicas { key: kk, k_left: kl },
                ..
            }
            &&& before[j + 1].addr_view() == to@
            &&& copy_removed(before[j + 1], after[j + 1], kk@, kl, acts[j + 1])
        }
}

proof fn lemma_removal_chain_step(
    k: u64,
    key: Seq<char>,
    before: Seq<Node>,
    after: Seq<Node>,
    acts: Seq<Action>,
    j: int,
)
    requires
        k >= 2,
        acts.len() >= 1,
        copy_removed(before[0], after[0], key, (k - 1) as u64, acts[0]),
        removal_chain(key, before, after, acts),
        0 <= j < acts.len(),
    ensures
        k - 1 - j >= 1,
        copy_removed(before[j], after[j], key, (k - 1 - j) as u64, acts[j]),
    decreases j,
{
    if j > 0 {
        lemma_removal_chain_step(k, key, before, after, acts, j - 1);
        assert(acts[j - 1] matches Action::Replicate { .. });
    }
}

/// A delete at a node that stores its key, with replication factor k ≥ 2,
/// removes the key's copy at exactly k − 1 nodes, passed on from successor
/// to successor as for a write (`lemma_copy_chain`); once the chain has
/// ended none of them holds a copy of the key.
pub proof fn lemma_removal_chain(
    k: u64,
    key: Seq<char>,
    before: Seq<Node>,
    after: Seq<Node>,
    acts: Seq<Action>,
)
    requires
        k >= 2,
        acts.len() >= 1,
        copy_removed(before[0], after[0], key, (k - 1) as u64, acts[0]),
        removal_chain(key, before, after, acts),
        acts.last() is Reply,
    ensures
        acts.len() == k - 1,
        forall|j: int|
            0 <= j < acts.len() ==> !(#[trigger] after[j]).copies_view().contains_key(key),
{
    let n = acts.len() as int;
    lemma_removal_chain_step(k, key, before, after, acts, n - 1);
    if n - 1 > 0 {
        lemma_removal_chain_step(k, key, before, after, acts, n - 2);
        assert(acts[n - 2] matches Action::Replicate { .. });
    }
    assert forall|j: int| 0 <= j < n implies !(#[trigger] after[j]).copies_view().contains_key(
        key,
    ) by {
        lemma_removal_chain_step(k, key, before, after, acts, j);
    }
}

/// The relays of a wildcard query as delivered: it starts at `nodes[0]`
/// with the asker's data `first`; each node handles it (adding its pairs),
/// and node `j + 1` is the successor that node `j` passed it to.
pub open spec fn gather_chain(
    source: String,
    first: Seq<NodeData>,
    nodes: Seq<Node>,
    acts: Seq<Action>,
    datas: Seq<Seq<NodeData>>,
) -> bool {
    &&& nodes.len() == acts.len()
    &&& datas.len() == acts.len()
    &&& acts.len() >= 1
    &&& datas[0] == first
    &&& forall|j: int|
        0 <= j < acts.len() ==> query_all_handled(
            #[trigger] nodes[j],
            source,
            datas[j],
            acts[j],
        )
    &&& forall|j: int|
        0 <= j < acts.len() - 1 ==> (#[trigger] acts[j] matches Action::RelayQueryAll {
            to,
            request: Request::QueryAll { data: d, .. },
            ..
        } && nodes[j + 1].addr_view() == to@ && datas[j + 1] == d@)
}

proof fn lemma_gather_step(
    source: String,
    first: Seq<NodeData>,
    nodes: Seq<Node>,
    acts: Seq<Action>,
    datas: Seq<Seq<NodeData>>,
    j: int,
)
    requires
        gather_chain(source, first, nodes, acts, datas),
        0 <= j < acts.len(),
    ensures
        datas[j].len() == first.len() + j,
        datas[j].take(first.len() as int) == first,
        forall|m: int|
            0 <= m < j ==> (#[trigger] datas[j][first.len() + m]).0 == nodes[m].id_view()
                && datas[j][first.len() + m].1@ == nodes[m].data_pairs(),
    decreases j,
{
    if j > 0 {
        lemma_gather_step(source, first, nodes, acts, datas, j - 1);
        let prev = datas[j - 1];
        assert(query_all_handled(nodes[j - 1], source, prev, acts[j - 1]));
        assert(acts[j - 1] matches Action::RelayQueryAll { .. });
        let d = datas[j];
        assert(gathered_here(nodes[j - 1], prev, d));
        assert forall|m: int| 0 <= m < j implies (#[trigger] datas[j][first.len() + m]).0
            == nodes[m].id_view() && datas[j][first.len() + m].1@ == nodes[m].data_pairs() by {
            if m < j - 1 {
                assert(d[first.len() + m] == d.take(prev.len() as int)[first.len() + m]);
            }
        }
        assert(d.take(first.len() as int) =~= prev.take(first.len() as int)) by {
            assert forall|x: int| 0 <= x < first.len() implies d.take(first.len() as int)[x]
                == prev.take(first.len() as int)[x] by {
                assert(d[x] == d.take(prev.len() as int)[x]);
            }
        }
    }
}

/// A wildcard query gathers every node it passes, in ring order: starting
/// from the asker's own pairs, it goes from successor to successor; once it
/// has ended (the last node, whose successor is the asker, answers), the
/// answer holds the asker's data and then each visited node's position and
/// pairs, in the order visited, and no node before the last had the asker
/// as its successor.
pub proof fn lemma_wildcard_gathers(
    source: String,
    first: Seq<NodeData>,
    nodes: Seq<Node>,
    acts: Seq<Action>,
    datas: Seq<Seq<NodeData>>,
)
    requires
        gather_chain(source, first, nodes, acts, datas),
        acts.last() is Reply,
    ensures
        nodes.last().successor_view().addr@ == source@,
        forall|j: int|
            0 <= j < nodes.len() - 1 ==> (#[trigger] nodes[j]).successor_view().addr@ != source@,
        acts.last() matches Action::Reply(Response::QueryAll { data: d, .. }) && d@.len()
            == first.len() + nodes.len() && d@.take(first.len() as int) == first && forall|m: int|
            0 <= m < nodes.len() ==> (#[trigger] d@[first.len() + m]).0 == nodes[m].id_view()
                && d@[first.len() + m].1@ == nodes[m].data_pairs(),
{
    let n = acts.len() as int;
    lemma_gather_step(source, first, nodes, acts, datas, n - 1);
    let prev = datas[n - 1];
    assert(query_all_handled(nodes[n - 1], source, prev, acts[n - 1]));
    assert forall|j: int| 0 <= j < n - 1 implies (#[trigger] nodes[j]).successor_view().addr@
        != source@ by {
        assert(query_all_handled(nodes[j], source, datas[j], acts[j]));
        assert(acts[j] matches Action::RelayQueryAll { .. });
    }
    let d = match acts[n - 1] {
        Action::Reply(Response::QueryAll { data, .. }) => data@,
        _ => arbitrary(),
    };
    assert(gathered_here(nodes[n - 1], prev, d));
    assert forall|m: int| 0 <= m < n implies (#[trigger] d[first.len() + m]).0
        == nodes[m].id_view() && d[first.len() + m].1@ == nodes[m].data_pairs() by {
        if m < n - 1 {
            assert(d[first.len() + m] == d.take(prev.len() as int)[first.len() + m]);
        }
    }
    assert(d.take(first.len() as int) =~= first) by {
        assert forall|x: int| 0 <= x < first.len() implies d.take(first.len() as int)[x]
            == first[x] by {
            assert(d[x] == d.take(prev.len() as int)[x]);
            assert(prev[x] == prev.take(first.len() as int)[x]);
        }
    }
}

/// The text `Unsupported request`.
pub open spec fn unsupported_text() -> Seq<char> {
    seq![
        'U', 'n', 's', 'u', 'p', 'p', 'o', 'r', 't', 'e', 'd', ' ', 'r', 'e', 'q', 'u', 'e', 's', 't',
    ]
}

fn unsupported_message() -> (r: String)
    ensures
        r@ == unsupported_text(),
{
    let s = String::from_str("Unsupported request");
    proof {
        reveal_strlit("Unsupported request");
    }
    assert(s@ =~= unsupported_text());
    s
}

} // verus!
