//! The request handling of a messaging-layer node: its state and the answer
//! to each request. Accepting connections and framing is done by the
//! caller.

use vstd::prelude::*;
use vstd::string::*;
use super::node_id::{NodeId, text_id, in_arc};
use super::protocol::{NodeInfo, Request, Response};
use crate::store::Store;

verus! {

/// The text `*`.
pub open spec fn star() -> Seq<char> {
    seq!['*']
}

fn is_star(key: &String) -> (r: bool)
    ensures
        r == (key@ == star()),
{
    let k = key.as_str();
    if k.unicode_len() != 1 {
        return false;
    }
    if k.get_char(0) == '*' {
        assert(key@ =~= star());
        true
    } else {
        false
    }
}

fn copy_info(o: &Option<NodeInfo>) -> (r: Option<NodeInfo>)
    ensures
        r == *o,
{
    match o {
        Some(n) => Some(n.clone()),
        None => None,
    }
}

/// Shared node state for the server.
pub struct NodeState {
    pub id: NodeId,
    pub addr: String,
    pub successor: Option<NodeInfo>,
    pub predecessor: Option<NodeInfo>,
    pub storage: Store,
}

/// The nodes listed in an overlay answer: the node itself, then its
/// successor and its predecessor when they are other nodes, each listed
/// once.
pub open spec fn overlay_nodes(
    me: NodeInfo,
    successor: Option<NodeInfo>,
    predecessor: Option<NodeInfo>,
) -> Seq<NodeInfo> {
    overlay_add_pred(overlay_with_succ(me, successor), me, predecessor)
}

/// The node itself, then its successor when that is another node.
pub open spec fn overlay_with_succ(me: NodeInfo, successor: Option<NodeInfo>) -> Seq<NodeInfo> {
    match successor {
        Some(s) => if s.id@ != me.id@ {
            seq![me, s]
        } else {
            seq![me]
        },
        None => seq![me],
    }
}

/// Add the predecessor when it is another node not listed yet.
pub open spec fn overlay_add_pred(
    listed: Seq<NodeInfo>,
    me: NodeInfo,
    predecessor: Option<NodeInfo>,
) -> Seq<NodeInfo> {
    match predecessor {
        Some(p) => if p.id@ != me.id@ && !(exists|i: int|
            0 <= i < listed.len() && (#[trigger] listed[i]).id@ == p.id@) {
            listed.push(p)
        } else {
            listed
        },
        None => listed,
    }
}

impl NodeState {
    /// The state of a new node at an address: no neighbours and no data.
    pub fn new(addr: String) -> (r: NodeState)
        ensures
            r.id@ == text_id(addr@),
            r.addr == addr,
            r.successor is None,
            r.predecessor is None,
            r.storage.wf(),
            r.storage@ == Map::<Seq<char>, Seq<char>>::empty(),
    {
        NodeState {
            id: NodeId::from_address(addr.as_str()),
            addr,
            successor: None,
            predecessor: None,
            storage: Store::new(),
        }
    }

    /// The node's own information.
    pub open spec fn spec_info(&self) -> NodeInfo {
        NodeInfo { id: self.id, addr: self.addr }
    }

    /// The node's own information.
    pub fn info(&self) -> (r: NodeInfo)
        ensures
            r == self.spec_info(),
    {
        NodeInfo { id: self.id, addr: self.addr.clone() }
    }

    /// Handle a single request: update the state and give the answer.
    pub fn handle_request(&mut self, request: Request) -> (r: Response)
        requires
            old(self).storage.wf(),
        ensures
            final(self).storage.wf(),
            final(self).id == old(self).id,
            final(self).addr == old(self).addr,
            final(self).successor == old(self).successor,
            match request {
                Request::Ping => r is Pong && *final(self) == *old(self),
                Request::GetId => r == Response::Id(old(self).id) && *final(self) == *old(self),
                Request::GetSuccessor => r == Response::NodeInfo(old(self).successor)
                    && *final(self) == *old(self),
                Request::GetPredecessor => r == Response::NodeInfo(old(self).predecessor)
                    && *final(self) == *old(self),
                Request::FindSuccessor { .. } => {
                    &&& *final(self) == *old(self)
                    &&& match old(self).successor {
                        Some(s) => r == Response::FoundSuccessor(s),
                        None => r == Response::FoundSuccessor(old(self).spec_info()),
                    }
                },
                Request::Notify { node_info } => {
                    &&& r is Ack
                    &&& final(self).storage == old(self).storage
                    &&& match old(self).predecessor {
                        None => final(self).predecessor == Some(node_info),
                        Some(p) => if in_arc(node_info.id@, p.id@, old(self).id@) {
                            final(self).predecessor == Some(node_info)
                        } else {
                            final(self).predecessor == old(self).predecessor
                        },
                    }
                },
                Request::Join { .. } => *final(self) == *old(self) && r == Response::JoinAck {
                    successor: match old(self).successor {
                        Some(s) => s,
                        None => old(self).spec_info(),
                    },
                    predecessor: old(self).predecessor,
                },
                Request::Depart { .. } => r is Ack && *final(self) == *old(self),
                Request::Insert { key, value } => {
                    &&& r == Response::InsertAck { success: true }
                    &&& final(self).predecessor == old(self).predecessor
                    &&& final(self).storage@ == old(self).storage@.insert(key@, value@)
                },
                Request::Query { key } => {
                    &&& *final(self) == *old(self)
                    &&& if key@ == star() {
                        if old(self).storage.pairs().len() == 0 {
                            r == Response::QueryResult { key, value: None }
                        } else {
                            r matches Response::QueryResult { key: k, value: Some(v) } && k
                                == old(self).storage.pairs()[0].0 && v == old(self).storage.pairs()[0].1
                        }
                    } else {
                        r matches Response::QueryResult { key: k, value } && k == key && match value {
                            Some(v) => old(self).storage@.contains_key(key@) && old(self).storage@[key@] == v@,
                            None => !old(self).storage@.contains_key(key@),
                        }
                    }
                },
                Request::Delete { key } => {
                    &&& r == Response::DeleteAck {
                        success: old(self).storage@.contains_key(key@),
                    }
                    &&& final(self).predecessor == old(self).predecessor
                    &&& final(self).storage@ == old(self).storage@.remove(key@)
                },
                Request::GetOverlay => {
                    &&& *final(self) == *old(self)
                    &&& r matches Response::Overlay { nodes } && nodes@ == overlay_nodes(
                        old(self).spec_info(),
                        old(self).successor,
                        old(self).predecessor,
                    )
                },
            },
    {
        match request {
            Request::Ping => Response::Pong,
            Request::GetId => Response::Id(self.id),
            Request::GetSuccessor => Response::NodeInfo(copy_info(&self.successor)),
            Request::GetPredecessor => Response::NodeInfo(copy_info(&self.predecessor)),
            Request::FindSuccessor { id: _ } => {
                match &self.successor {
                    Some(successor) => Response::FoundSuccessor(successor.clone()),
                    None => Response::FoundSuccessor(self.info()),
                }
            },
            Request::Notify { node_info } => {
                let replace = match &self.predecessor {
                    None => true,
                    Some(pred) => node_info.id.is_between(&pred.id, &self.id),
                };
                if replace {
                    self.predecessor = Some(node_info);
                }
                Response::Ack
            },
            Request::Join { node_info: _ } => {
                let successor = match &self.successor {
                    Some(s) => s.clone(),
                    None => self.info(),
                };
                Response::JoinAck { successor, predecessor: copy_info(&self.predecessor) }
            },
            Request::Depart { node_info: _ } => Response::Ack,
            Request::Insert { key, value } => {
                self.storage.insert(key, value);
                Response::InsertAck { success: true }
            },
            Request::Query { key } => {
                if is_star(&key) {
                    let pairs = self.storage.entries();
                    if pairs.len() > 0 {
                        Response::QueryResult {
                            key: pairs[0].0.clone(),
                            value: Some(pairs[0].1.clone()),
                        }
                    } else {
                        Response::QueryResult { key, value: None }
                    }
                } else {
                    let value = self.storage.get(key.as_str());
                    Response::QueryResult { key, value }
                }
            },
            Request::Delete { key } => {
                let existed = self.storage.remove(key.as_str()).is_some();
                Response::DeleteAck { success: existed }
            },
            Request::GetOverlay => {
                let me = self.info();
                let mut nodes: Vec<NodeInfo> = Vec::new();
                nodes.push(me);
                match &self.successor {
                    Some(succ) => {
                        if !succ.id.equals(&self.id) {
                            nodes.push(succ.clone());
                        }
                    },
                    None => {},
                }
                assert(nodes@ =~= overlay_with_succ(self.spec_info(), self.successor));
                match &self.predecessor {
                    Some(pred) => {
                        if !pred.id.equals(&self.id) && !Self::has_id(&nodes, &pred.id) {
                            nodes.push(pred.clone());
                        }
                    },
                    None => {},
                }
                assert(nodes@ =~= overlay_nodes(self.spec_info(), self.successor, self.predecessor));
                Response::Overlay { nodes }
            },
        }
    }

    fn has_id(nodes: &Vec<NodeInfo>, id: &NodeId) -> (r: bool)
        ensures
            r == exists|i: int| 0 <= i < nodes@.len() && (#[trigger] nodes@[i]).id@ == id@,
    {
        let mut i: usize = 0;
        while i < nodes.len()
            invariant
                0 <= i <= nodes@.len(),
                forall|j: int| 0 <= j < i ==> (#[trigger] nodes@[j]).id@ != id@,
            decreases nodes.len() - i,
        {
            if nodes[i].id.equals(id) {
                return true;
            }
            i = i + 1;
        }
        false
    }
}

/// After an insert (what `NodeState::handle_request` leaves for
/// `Insert`), a query for the same key finds the value just written: an
/// insert here replaces the earlier value. Other keys keep their values.
pub proof fn lemma_insert_then_query(before: NodeState, after: NodeState, key: Seq<char>, value: Seq<char>)
    requires
        after.storage@ == before.storage@.insert(key, value),
    ensures
        after.storage@.contains_key(key),
        after.storage@[key] == value,
        forall|other: Seq<char>|
            other != key ==> (#[trigger] after.storage@.contains_key(other)
                == before.storage@.contains_key(other)) && (before.storage@.contains_key(other)
                ==> after.storage@[other] == before.storage@[other]),
{
}

/// After a delete (what `NodeState::handle_request` leaves for `Delete`),
/// a query for the key finds nothing, and a second delete reports that
/// nothing was removed.
pub proof fn lemma_delete_then_query(before: NodeState, after: NodeState, key: Seq<char>)
    requires
        after.storage@ == before.storage@.remove(key),
    ensures
        !after.storage@.contains_key(key),
        forall|other: Seq<char>|
            other != key ==> (#[trigger] after.storage@.contains_key(other)
                == before.storage@.contains_key(other)) && (before.storage@.contains_key(other)
                ==> after.storage@[other] == before.storage@[other]),
{
}

} // verus!
