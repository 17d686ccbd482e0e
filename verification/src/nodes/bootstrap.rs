//! Bootstrap Node - The stable entry point for the Chord ring.
//!
//! The bootstrap node is always connected, known to all nodes, and handles
//! all join and depart requests. It keeps the members of the ring sorted by
//! the ring position of their address, and tells the neighbours of a
//! joining or departing node how to update their pointers.

use vstd::prelude::*;
use vstd::string::*;
use super::node::{NodeInfo, is_unassigned};
use super::protocol::{Request, Response};
use super::ring::{hash_value, ring_hash, RING_SIZE};

verus! {

/// Ring position of an address text (same function as `hash_value`).
pub fn hash_string_to_u64(data: &str) -> (r: u64)
    ensures
        r == ring_hash(data@),
        r < RING_SIZE,
{
    hash_value(data)
}

/// Sort key of a member: the ring position of its address.
pub open spec fn addr_key(n: NodeInfo) -> nat {
    ring_hash(n.addr@)
}

/// Members are sorted by the ring position of their address and no address
/// occurs twice.
pub open spec fn members_wf(s: Seq<NodeInfo>) -> bool {
    &&& forall|i: int, j: int| 0 <= i < j < s.len() ==> addr_key(s[i]) <= addr_key(s[j])
    &&& forall|i: int, j: int|
        0 <= i < j < s.len() ==> (#[trigger] s[i]).addr@ != (#[trigger] s[j]).addr@
}

/// Some member has this address.
pub open spec fn has_addr(s: Seq<NodeInfo>, addr: Seq<char>) -> bool {
    exists|i: int| 0 <= i < s.len() && (#[trigger] s[i]).addr@ == addr
}

/// Index of the first member at or after position `id`, scanning from `i`;
/// the length when there is none.
pub open spec fn first_at_or_after(s: Seq<NodeInfo>, id: u64, i: int) -> int
    decreases s.len() - i,
{
    if i < 0 || i >= s.len() {
        s.len() as int
    } else if s[i].id >= id {
        i
    } else {
        first_at_or_after(s, id, i + 1)
    }
}

/// Successor and predecessor the bootstrap assigns to a node joining at
/// position `id` of a non-empty ring: the first member at or after `id` and
/// the member before it, wrapping around the ends; a neighbour that reads
/// as unassigned is replaced by the first (successor) or last
/// (predecessor) member.
pub open spec fn join_neighbours(s: Seq<NodeInfo>, id: u64) -> (NodeInfo, NodeInfo) {
    let f = first_at_or_after(s, id, 0);
    let succ = if f < s.len() && !is_unassigned(s[f]) {
        s[f]
    } else {
        s[0]
    };
    let pred = if f > 0 && !is_unassigned(s[f - 1]) {
        s[f - 1]
    } else {
        s[s.len() - 1]
    };
    (succ, pred)
}

proof fn lemma_first_at_or_after(s: Seq<NodeInfo>, id: u64, i: int)
    requires
        0 <= i <= s.len(),
    ensures
        i <= first_at_or_after(s, id, i) <= s.len(),
        forall|j: int| i <= j < first_at_or_after(s, id, i) ==> (#[trigger] s[j]).id < id,
        first_at_or_after(s, id, i) < s.len() ==> s[first_at_or_after(s, id, i)].id >= id,
    decreases s.len() - i,
{
    if i < s.len() && s[i].id < id {
        lemma_first_at_or_after(s, id, i + 1);
    }
}

/// A ring whose members sit at the positions of their addresses, in
/// strictly increasing order, none of them the unassigned pointer (address
/// `0.0.0.0:0` at position 0, which the join puts in place of a missing
/// neighbour).
pub open spec fn consistent_ring(s: Seq<NodeInfo>) -> bool {
    &&& members_wf(s)
    &&& forall|i: int| 0 <= i < s.len() ==> (#[trigger] s[i]).id == addr_key(s[i])
    &&& forall|i: int, j: int| 0 <= i < j < s.len() ==> s[i].id < s[j].id
    &&& forall|i: int| 0 <= i < s.len() ==> !is_unassigned(#[trigger] s[i])
}

/// A node joining a consistent ring at a free position gets as successor
/// and predecessor exactly the members after and before it in the new ring
/// order (wrapping around the ends).
pub proof fn lemma_join_between_neighbours(s: Seq<NodeInfo>, n: NodeInfo, p: int)
    requires
        consistent_ring(s),
        s.len() > 0,
        n.id == addr_key(n),
        forall|i: int| 0 <= i < s.len() ==> (#[trigger] s[i]).id != n.id,
        0 <= p <= s.len(),
        forall|i: int| 0 <= i < p ==> addr_key(#[trigger] s[i]) <= n.id,
        forall|i: int| p <= i < s.len() ==> n.id < addr_key(#[trigger] s[i]),
    ensures
        ({
            let t = s.insert(p, n);
            let m = t.len() as int;
            &&& join_neighbours(s, n.id).0 == t[if p + 1 == m {
                0
            } else {
                p + 1
            }]
            &&& join_neighbours(s, n.id).1 == t[if p == 0 {
                m - 1
            } else {
                p - 1
            }]
        }),
{
    lemma_first_at_or_after(s, n.id, 0);
    let f = first_at_or_after(s, n.id, 0);
    if f < p {
        assert(addr_key(s[f]) <= n.id);
        assert(s[f].id != n.id);
    }
    if p < f {
        assert(s[p].id < n.id);
    }
    assert(f == p);
}

/// The index after `i` in a ring of `n` members.
pub open spec fn next_index(i: int, n: int) -> int {
    if i + 1 == n {
        0
    } else {
        i + 1
    }
}

/// The index before `i` in a ring of `n` members.
pub open spec fn prev_index(i: int, n: int) -> int {
    if i == 0 {
        n - 1
    } else {
        i - 1
    }
}

/// The pointers of the members (`succ[i]` and `pred[i]` those of `s[i]`)
/// follow the member order: each member's successor is the next member and
/// its predecessor the previous one, cyclically.
pub open spec fn pointers_agree(s: Seq<NodeInfo>, succ: Seq<NodeInfo>, pred: Seq<NodeInfo>) -> bool {
    &&& succ.len() == s.len()
    &&& pred.len() == s.len()
    &&& forall|i: int| 0 <= i < s.len() ==> #[trigger] succ[i] == s[next_index(i, s.len() as int)]
    &&& forall|i: int| 0 <= i < s.len() ==> #[trigger] pred[i] == s[prev_index(i, s.len() as int)]
}

/// The successor pointers after a join at index `p` of `n`: the joining
/// node takes `nb.0`; the member at the address of `nb.1` (told by
/// `SetSuccessor`) points to the joining node; the others keep theirs.
pub open spec fn succ_after_join(
    s: Seq<NodeInfo>,
    succ: Seq<NodeInfo>,
    p: int,
    n: NodeInfo,
    nb: (NodeInfo, NodeInfo),
) -> Seq<NodeInfo> {
    Seq::new(
        (s.len() + 1) as nat,
        |j: int|
            if j == p {
                nb.0
            } else {
                let i = if j < p {
                    j
                } else {
                    j - 1
                };
                if s[i].addr@ == nb.1.addr@ {
                    n
                } else {
                    succ[i]
                }
            },
    )
}

/// The predecessor pointers after a join at index `p` of `n`: the joining
/// node takes `nb.1`; the member at the address of `nb.0` (told by
/// `SetPredecessorWithKeys`) points to the joining node; the others keep
/// theirs.
pub open spec fn pred_after_join(
    s: Seq<NodeInfo>,
    pred: Seq<NodeInfo>,
    p: int,
    n: NodeInfo,
    nb: (NodeInfo, NodeInfo),
) -> Seq<NodeInfo> {
    Seq::new(
        (s.len() + 1) as nat,
        |j: int|
            if j == p {
                nb.1
            } else {
                let i = if j < p {
                    j
                } else {
                    j - 1
                };
                if s[i].addr@ == nb.0.addr@ {
                    n
                } else {
                    pred[i]
                }
            },
    )
}

/// The conditions of a join at a free index `p` of a consistent ring whose
/// pointers follow the member order.
pub open spec fn join_setting(
    s: Seq<NodeInfo>,
    succ: Seq<NodeInfo>,
    pred: Seq<NodeInfo>,
    n: NodeInfo,
    p: int,
) -> bool {
    &&& consistent_ring(s)
    &&& s.len() > 0
    &&& pointers_agree(s, succ, pred)
    &&& n.id == addr_key(n)
    &&& forall|i: int| 0 <= i < s.len() ==> (#[trigger] s[i]).id != n.id
    &&& forall|i: int| 0 <= i < s.len() ==> (#[trigger] s[i]).addr@ != n.addr@
    &&& 0 <= p <= s.len()
    &&& forall|i: int| 0 <= i < p ==> addr_key(#[trigger] s[i]) <= n.id
    &&& forall|i: int| p <= i < s.len() ==> n.id < addr_key(#[trigger] s[i])
}

proof fn lemma_join_succ_at(
    s: Seq<NodeInfo>,
    succ: Seq<NodeInfo>,
    pred: Seq<NodeInfo>,
    n: NodeInfo,
    p: int,
    j: int,
)
    requires
        join_setting(s, succ, pred, n, p),
        0 <= j <= s.len(),
        j != p,
    ensures
        succ_after_join(s, succ, p, n, join_neighbours(s, n.id))[j] == s.insert(p, n)[next_index(
            j,
            s.len() + 1int,
        )],
{
    lemma_join_between_neighbours(s, n, p);
    let t = s.insert(p, n);
    let m = t.len() as int;
    let nb = join_neighbours(s, n.id);
    let i = if j < p {
        j
    } else {
        j - 1
    };
    assert(t[j] == s[i]);
    let pj = prev_index(p, m);
    assert(nb.1 == t[pj]);
    if s[i].addr@ == nb.1.addr@ {
        let q = if pj < p {
            pj
        } else {
            pj - 1
        };
        assert(t[pj] == s[q]);
        if q != i {
            assert(s[q].addr@ != s[i].addr@);
        }
        assert(j == pj);
    } else {
        assert(j != pj);
        assert(succ[i] == s[next_index(i, s.len() as int)]);
    }
}

proof fn lemma_join_pred_at(
    s: Seq<NodeInfo>,
    succ: Seq<NodeInfo>,
    pred: Seq<NodeInfo>,
    n: NodeInfo,
    p: int,
    j: int,
)
    requires
        join_setting(s, succ, pred, n, p),
        0 <= j <= s.len(),
        j != p,
    ensures
        pred_after_join(s, pred, p, n, join_neighbours(s, n.id))[j] == s.insert(p, n)[prev_index(
            j,
            s.len() + 1int,
        )],
{
    lemma_join_between_neighbours(s, n, p);
    let t = s.insert(p, n);
    let m = t.len() as int;
    let nb = join_neighbours(s, n.id);
    let i = if j < p {
        j
    } else {
        j - 1
    };
    assert(t[j] == s[i]);
    let nj = next_index(p, m);
    assert(nb.0 == t[nj]);
    if s[i].addr@ == nb.0.addr@ {
        let q = if nj < p {
            nj
        } else {
            nj - 1
        };
        assert(t[nj] == s[q]);
        if q != i {
            assert(s[q].addr@ != s[i].addr@);
        }
        assert(j == nj);
    } else {
        assert(j != nj);
        assert(pred[i] == s[prev_index(i, s.len() as int)]);
    }
}

/// A join keeps the whole ring linked: if the members' pointers followed
/// the member order before, then once the two updates of the join are
/// delivered and the joining node has taken its neighbours, every
/// pointer follows the new member order.
pub proof fn lemma_join_keeps_ring(
    s: Seq<NodeInfo>,
    succ: Seq<NodeInfo>,
    pred: Seq<NodeInfo>,
    n: NodeInfo,
    p: int,
)
    requires
        join_setting(s, succ, pred, n, p),
    ensures
        pointers_agree(
            s.insert(p, n),
            succ_after_join(s, succ, p, n, join_neighbours(s, n.id)),
            pred_after_join(s, pred, p, n, join_neighbours(s, n.id)),
        ),
{
    lemma_join_between_neighbours(s, n, p);
    let t = s.insert(p, n);
    let m = t.len() as int;
    let nb = join_neighbours(s, n.id);
    let su = succ_after_join(s, succ, p, n, nb);
    let pr = pred_after_join(s, pred, p, n, nb);
    assert forall|j: int| 0 <= j < m implies #[trigger] su[j] == t[next_index(j, m)] by {
        if j != p {
            lemma_join_succ_at(s, succ, pred, n, p, j);
        }
    }
    assert forall|j: int| 0 <= j < m implies #[trigger] pr[j] == t[prev_index(j, m)] by {
        if j != p {
            lemma_join_pred_at(s, succ, pred, n, p, j);
        }
    }
}

/// The successor pointers after the member at index `i` departs: the
/// member before it (told by `SetSuccessor`) points to the member after
/// it; the others keep theirs.
pub open spec fn succ_after_depart(s: Seq<NodeInfo>, succ: Seq<NodeInfo>, i: int) -> Seq<NodeInfo> {
    let n = s.len() as int;
    Seq::new(
        (n - 1) as nat,
        |j: int|
            {
                let k = if j < i {
                    j
                } else {
                    j + 1
                };
                if s[k].addr@ == s[prev_index(i, n)].addr@ {
                    s[next_index(i, n)]
                } else {
                    succ[k]
                }
            },
    )
}

/// The predecessor pointers after the member at index `i` departs: the
/// member after it (told by `SetPredecessor`) points to the member before
/// it; the others keep theirs.
pub open spec fn pred_after_depart(s: Seq<NodeInfo>, pred: Seq<NodeInfo>, i: int) -> Seq<NodeInfo> {
    let n = s.len() as int;
    Seq::new(
        (n - 1) as nat,
        |j: int|
            {
                let k = if j < i {
                    j
                } else {
                    j + 1
                };
                if s[k].addr@ == s[next_index(i, n)].addr@ {
                    s[prev_index(i, n)]
                } else {
                    pred[k]
                }
            },
    )
}

/// A departure keeps the whole ring linked: if the members' pointers
/// followed the member order before, then once the two updates of the
/// departure are delivered, every remaining pointer follows the new member
/// order.
pub proof fn lemma_depart_keeps_ring(
    s: Seq<NodeInfo>,
    succ: Seq<NodeInfo>,
    pred: Seq<NodeInfo>,
    i: int,
)
    requires
        members_wf(s),
        pointers_agree(s, succ, pred),
        0 <= i < s.len(),
    ensures
        pointers_agree(s.remove(i), succ_after_depart(s, succ, i), pred_after_depart(s, pred, i)),
{
    let n = s.len() as int;
    let t = s.remove(i);
    let m = t.len() as int;
    let su = succ_after_depart(s, succ, i);
    let pr = pred_after_depart(s, pred, i);
    let pi = prev_index(i, n);
    let ni = next_index(i, n);
    assert forall|j: int| 0 <= j < m implies #[trigger] su[j] == t[next_index(j, m)] by {
        let k = if j < i {
            j
        } else {
            j + 1
        };
        assert(t[j] == s[k]);
        if k == pi {
            assert(su[j] == s[ni]);
        } else {
            assert(s[k].addr@ != s[pi].addr@);
            assert(succ[k] == s[next_index(k, n)]);
        }
    }
    assert forall|j: int| 0 <= j < m implies #[trigger] pr[j] == t[prev_index(j, m)] by {
        let k = if j < i {
            j
        } else {
            j + 1
        };
        assert(t[j] == s[k]);
        if k == ni {
            assert(pr[j] == s[pi]);
        } else {
            assert(s[k].addr@ != s[ni].addr@);
            assert(pred[k] == s[prev_index(k, n)]);
        }
    }
}

/// Registering a new address and then unregistering it gives back the
/// members as they were.
pub proof fn lemma_register_then_unregister(s: Seq<NodeInfo>, n: NodeInfo, p: int)
    requires
        0 <= p <= s.len(),
        members_wf(s.insert(p, n)),
    ensures
        forall|i: int|
            0 <= i <= s.len() && (#[trigger] s.insert(p, n)[i]).addr@ == n.addr@ ==> s.insert(
                p,
                n,
            ).remove(i) == s,
{
    let t = s.insert(p, n);
    assert forall|i: int| 0 <= i <= s.len() && (#[trigger] t[i]).addr@ == n.addr@ implies t.remove(
        i,
    ) == s by {
        if i != p {
            assert(t[p] == n);
        }
        assert(t.remove(i) =~= s);
    }
}

/// What a join of `joining_addr` does to the members `s`: the joining
/// node gets the neighbours of its position (itself in an empty ring), it
/// is inserted at its sorted place (nothing changes if it is a member
/// already), and its successor and predecessor are told about it, each
/// unless it is the joining node itself.
pub open spec fn join_done(
    s: Seq<NodeInfo>,
    joining_addr: String,
    successor: NodeInfo,
    predecessor: NodeInfo,
    after: Seq<NodeInfo>,
    notifications: Seq<(String, Request)>,
) -> bool {
    let id = ring_hash(joining_addr@) as u64;
    &&& s.len() == 0 ==> successor.addr@ == joining_addr@ && successor.id == id
        && predecessor.addr@ == joining_addr@ && predecessor.id == id
    &&& s.len() > 0 ==> (successor, predecessor) == join_neighbours(s, id)
    &&& has_addr(s, joining_addr@) ==> after == s
    &&& has_addr(after, joining_addr@)
    &&& !has_addr(s, joining_addr@) ==> exists|p: int|
        0 <= p <= s.len() && after == #[trigger] s.insert(
            p,
            NodeInfo { addr: joining_addr, id },
        ) && (forall|i: int| 0 <= i < p ==> addr_key(#[trigger] s[i]) <= id) && (
        forall|i: int| p <= i < s.len() ==> id < addr_key(#[trigger] s[i]))
    &&& notifications.len() == (if successor.addr@ != joining_addr@ {
        1int
    } else {
        0int
    }) + (if predecessor.addr@ != joining_addr@ {
        1int
    } else {
        0int
    })
    &&& successor.addr@ != joining_addr@ ==> (notifications[0].1 matches Request::SetPredecessorWithKeys { node }
        && node.addr@ == joining_addr@ && node.id == id && notifications[0].0@
        == successor.addr@)
    &&& predecessor.addr@ != joining_addr@ ==> ({
        let last = notifications[notifications.len() - 1];
        last.1 matches Request::SetSuccessor { node } && node.addr@ == joining_addr@
            && node.id == id && last.0@ == predecessor.addr@
    })
}

/// What a departure of the node at `addr` does to the members `s`: the
/// member is removed, and the member after it and the one before it
/// (cyclically) are pointed at each other, each unless it is the departing
/// node itself. An address that is not a member has no neighbours: the
/// members stay as they are and nothing is sent.
pub open spec fn depart_done(
    s: Seq<NodeInfo>,
    addr: Seq<char>,
    after: Seq<NodeInfo>,
    r: Seq<(String, Request)>,
) -> bool {
    let n = s.len() as int;
    &&& !has_addr(after, addr)
    &&& !has_addr(s, addr) ==> after == s && r.len() == 0
    &&& forall|i: int|
        0 <= i < n && (#[trigger] s[i]).addr@ == addr ==> {
            let succ = s[if i + 1 == n {
                0
            } else {
                i + 1
            }];
            let pred = s[if i == 0 {
                n - 1
            } else {
                i - 1
            }];
            &&& after == s.remove(i)
            &&& r.len() == (if succ.addr@ != addr {
                1int
            } else {
                0int
            }) + (if pred.addr@ != addr {
                1int
            } else {
                0int
            })
            &&& succ.addr@ != addr ==> (r[0].1 matches Request::SetPredecessor { node }
                && node == pred && r[0].0@ == succ.addr@)
            &&& pred.addr@ != addr ==> (r[r.len() - 1].1 matches Request::SetSuccessor {
                node,
            } && node == succ && r[r.len() - 1].0@ == pred.addr@)
        }
}

/// The plan for a join: the neighbours assigned to the joining node and the
/// pointer updates to send to them.
#[derive(Debug)]
pub struct JoinPlan {
    pub successor: NodeInfo,
    pub predecessor: NodeInfo,
    pub notifications: Vec<(String, Request)>,
}

/// What the bootstrap does with a request: the pointer updates to send (in
/// order, failures ignored) and then the reply.
#[derive(Debug)]
pub struct BootstrapStep {
    pub notifications: Vec<(String, Request)>,
    pub reply: Response,
}

/// The stable coordinator of the ring.
pub struct BootstrapNode {
    addr: String,
    ring_members: Vec<NodeInfo>,
    k: u64,
    t: u8,
}

/// The text `Unrecognized request`.
pub open spec fn unrecognized_text() -> Seq<char> {
    seq![
        'U', 'n', 'r', 'e', 'c', 'o', 'g', 'n', 'i', 'z', 'e', 'd', ' ', 'r', 'e', 'q', 'u', 'e', 's',
        't',
    ]
}

fn unrecognized_message() -> (r: String)
    ensures
        r@ == unrecognized_text(),
{
    let s = String::from_str("Unrecognized request");
    proof {
        reveal_strlit("Unrecognized request");
    }
    assert(s@ =~= unrecognized_text());
    s
}

impl BootstrapNode {
    /// The bootstrap's address.
    pub closed spec fn addr_view(&self) -> Seq<char> {
        self.addr@
    }

    /// The ring members, in ring order.
    pub closed spec fn members(&self) -> Seq<NodeInfo> {
        self.ring_members@
    }

    /// Replication factor handed to joining nodes.
    pub closed spec fn k_view(&self) -> u64 {
        self.k
    }

    /// Replication type handed to joining nodes.
    pub closed spec fn t_view(&self) -> u8 {
        self.t
    }

    /// Members are kept sorted and unique.
    pub open spec fn wf(&self) -> bool {
        members_wf(self.members())
    }

    /// Create a new bootstrap node at the given address with the
    /// replication parameters of the ring. This is the first node in the
    /// ring; it has no members yet.
    pub fn new(addr: String, k: u64, t: u8) -> (r: BootstrapNode)
        ensures
            r.wf(),
            r.addr_view() == addr@,
            r.members() == Seq::<NodeInfo>::empty(),
            r.k_view() == k,
            r.t_view() == t,
    {
        BootstrapNode { addr, ring_members: Vec::new(), k, t }
    }

    /// Get the bootstrap's address.
    pub fn get_addr(&self) -> (r: String)
        ensures
            r@ == self.addr_view(),
    {
        self.addr.clone()
    }

    /// Get all ring members.
    pub fn get_ring_members(&self) -> (r: Vec<NodeInfo>)
        ensures
            r@ == self.members(),
    {
        let mut r: Vec<NodeInfo> = Vec::new();
        let mut i: usize = 0;
        while i < self.ring_members.len()
            invariant
                0 <= i <= self.ring_members@.len(),
                r@ == self.ring_members@.take(i as int),
            decreases self.ring_members.len() - i,
        {
            r.push(self.ring_members[i].clone());
            assert(r@ =~= self.ring_members@.take(i + 1));
            i = i + 1;
        }
        assert(self.ring_members@.take(self.ring_members.len() as int) =~= self.ring_members@);
        r
    }

    /// The ring topology shown to users: the bootstrap itself at position 0,
    /// then every member with its position.
    pub fn topology(&self) -> (r: Vec<(u64, String)>)
        ensures
            r@.len() == self.members().len() + 1,
            r@[0].0 == 0 && r@[0].1@ == self.addr_view(),
            forall|i: int|
                0 <= i < self.members().len() ==> (#[trigger] r@[i + 1]).0 == self.members()[i].id
                    && r@[i + 1].1@ == self.members()[i].addr@,
    {
        let mut r: Vec<(u64, String)> = Vec::new();
        r.push((0, self.addr.clone()));
        let mut i: usize = 0;
        while i < self.ring_members.len()
            invariant
                0 <= i <= self.ring_members@.len(),
                r@.len() == i + 1,
                r@[0].0 == 0 && r@[0].1@ == self.addr@,
                forall|j: int|
                    0 <= j < i ==> (#[trigger] r@[j + 1]).0 == self.ring_members@[j].id && r@[j
                        + 1].1@ == self.ring_members@[j].addr@,
            decreases self.ring_members.len() - i,
        {
            r.push((self.ring_members[i].id, self.ring_members[i].addr.clone()));
            i = i + 1;
        }
        r
    }

    fn position_of(&self, addr: &String) -> (r: Option<usize>)
        requires
            self.wf(),
        ensures
            match r {
                Some(i) => i < self.members().len() && self.members()[i as int].addr@ == addr@,
                None => !has_addr(self.members(), addr@),
            },
    {
        let mut i: usize = 0;
        while i < self.ring_members.len()
            invariant
                0 <= i <= self.ring_members@.len(),
                forall|j: int| 0 <= j < i ==> (#[trigger] self.ring_members@[j]).addr@ != addr@,
            decreases self.ring_members.len() - i,
        {
            if self.ring_members[i].addr == *addr {
                return Some(i);
            }
            i = i + 1;
        }
        None
    }

    /// Register a new node in the ring, keeping the members sorted by the
    /// ring position of their address (a new member goes after those with
    /// an equal position). A node whose address is already registered is
    /// not added again.
    pub fn register_node(&mut self, node_info: NodeInfo)
        requires
            old(self).wf(),
        ensures
            final(self).wf(),
            final(self).addr_view() == old(self).addr_view(),
            final(self).k_view() == old(self).k_view(),
            final(self).t_view() == old(self).t_view(),
            has_addr(final(self).members(), node_info.addr@),
            has_addr(old(self).members(), node_info.addr@) ==> final(self).members() == old(self).members(),
            !has_addr(old(self).members(), node_info.addr@) ==> exists|p: int|
                0 <= p <= old(self).members().len() && final(self).members() == old(self).members().insert(p, node_info) && (forall|i: int|
                    0 <= i < p ==> addr_key(#[trigger] old(self).members()[i]) <= addr_key(
                        node_info,
                    )) && (forall|i: int|
                    p <= i < old(self).members().len() ==> addr_key(node_info) < addr_key(
                        #[trigger] old(self).members()[i],
                    )),
    {
        if self.position_of(&node_info.addr).is_some() {
            return;
        }
        let key = hash_string_to_u64(node_info.addr.as_str());
        let mut p: usize = 0;
        let mut done = false;
        while p < self.ring_members.len() && !done
            invariant
                0 <= p <= self.ring_members@.len(),
                members_wf(self.ring_members@),
                key == addr_key(node_info),
                forall|i: int| 0 <= i < p ==> addr_key(#[trigger] self.ring_members@[i]) <= key,
                done ==> p < self.ring_members@.len() && addr_key(self.ring_members@[p as int])
                    > key,
            decreases self.ring_members.len() - p + (if done {
                0int
            } else {
                1int
            }),
        {
            let kp = hash_string_to_u64(self.ring_members[p].addr.as_str());
            if kp > key {
                done = true;
            } else {
                p = p + 1;
            }
        }
        let ghost before = self.ring_members@;
        assert forall|i: int| p <= i < before.len() implies addr_key(node_info) < addr_key(
            #[trigger] before[i],
        ) by {
            assert(addr_key(before[p as int]) > key);
            assert(addr_key(before[p as int]) <= addr_key(before[i]));
        }
        let ghost n_addr = node_info.addr@;
        self.ring_members.insert(p, node_info);
        let ghost after = self.ring_members@;
        assert(after[p as int].addr@ == n_addr);
        assert forall|i: int, j: int| 0 <= i < j < after.len() implies addr_key(after[i])
            <= addr_key(after[j]) by {
            if i < p {
                assert(after[i] == before[i]);
            } else if i > p {
                assert(after[i] == before[i - 1]);
            }
            if j < p {
                assert(after[j] == before[j]);
            } else if j > p {
                assert(after[j] == before[j - 1]);
            }
        }
        assert forall|i: int, j: int| 0 <= i < j < after.len() implies (#[trigger] after[i]).addr@
            != (#[trigger] after[j]).addr@ by {
            if i < p {
                assert(after[i] == before[i]);
            } else if i > p {
                assert(after[i] == before[i - 1]);
            }
            if j < p {
                assert(after[j] == before[j]);
            } else if j > p {
                assert(after[j] == before[j - 1]);
            }
        }
    }

    /// Unregister a node from the ring (called when a node departs).
    pub fn unregister_node(&mut self, addr: &String)
        requires
            old(self).wf(),
        ensures
            final(self).wf(),
            final(self).addr_view() == old(self).addr_view(),
            final(self).k_view() == old(self).k_view(),
            final(self).t_view() == old(self).t_view(),
            !has_addr(final(self).members(), addr@),
            !has_addr(old(self).members(), addr@) ==> final(self).members() == old(self).members(),
            forall|i: int|
                0 <= i < old(self).members().len() && (#[trigger] old(self).members()[i]).addr@
                    == addr@ ==> final(self).members() == old(self).members().remove(i),
    {
        match self.position_of(addr) {
            Some(i) => {
                let ghost before = self.ring_members@;
                self.ring_members.remove(i);
                let ghost after = self.ring_members@;
                assert forall|a: int, b: int| 0 <= a < b < after.len() implies addr_key(after[a])
                    <= addr_key(after[b]) by {
                    if a >= i {
                        assert(after[a] == before[a + 1]);
                    }
                    if b >= i {
                        assert(after[b] == before[b + 1]);
                    }
                }
                assert forall|j: int| 0 <= j < after.len() implies (#[trigger] after[j]).addr@
                    != addr@ by {
                    if j >= i {
                        assert(after[j] == before[j + 1]);
                    } else {
                        assert(after[j] == before[j]);
                    }
                }
                assert forall|a: int, b: int| 0 <= a < b < after.len() implies (
                #[trigger] after[a]).addr@ != (#[trigger] after[b]).addr@ by {
                    if a >= i {
                        assert(after[a] == before[a + 1]);
                    } else {
                        assert(after[a] == before[a]);
                    }
                    if b >= i {
                        assert(after[b] == before[b + 1]);
                    } else {
                        assert(after[b] == before[b]);
                    }
                }
            },
            None => {},
        }
    }

    /// Handle a join from a new node: find its successor and predecessor,
    /// register it, and plan the pointer updates of its neighbours (none to
    /// a neighbour that is the joining node itself).
    pub fn coordinate_join(&mut self, joining_addr: String) -> (r: JoinPlan)
        requires
            old(self).wf(),
        ensures
            final(self).wf(),
            final(self).addr_view() == old(self).addr_view(),
            final(self).k_view() == old(self).k_view(),
            final(self).t_view() == old(self).t_view(),
            join_done(
                old(self).members(),
                joining_addr,
                r.successor,
                r.predecessor,
                final(self).members(),
                r.notifications@,
            ),
    {
        let id = hash_string_to_u64(joining_addr.as_str());
        let joining_node = NodeInfo { addr: joining_addr.clone(), id };
        let ghost s = self.ring_members@;
        let successor: NodeInfo;
        let predecessor: NodeInfo;
        if self.ring_members.len() == 0 {
            successor = joining_node.clone();
            predecessor = joining_node.clone();
        } else {
            let mut f: usize = 0;
            let mut found = false;
            while f < self.ring_members.len() && !found
                invariant
                    0 <= f <= self.ring_members@.len(),
                    self.ring_members@ == s,
                    s.len() > 0,
                    first_at_or_after(s, id, 0) == first_at_or_after(s, id, f as int),
                    found ==> f < s.len() && s[f as int].id >= id,
                decreases self.ring_members.len() - f + (if found {
                    0int
                } else {
                    1int
                }),
            {
                if self.ring_members[f].id >= id {
                    found = true;
                } else {
                    f = f + 1;
                }
            }
            assert(first_at_or_after(s, id, 0) == f);
            let n = self.ring_members.len();
            let unassigned = NodeInfo::unassigned();
            if f < n && !self.ring_members[f].same_as(&unassigned) {
                successor = self.ring_members[f].clone();
            } else {
                successor = self.ring_members[0].clone();
            }
            if f > 0 && !self.ring_members[f - 1].same_as(&unassigned) {
                predecessor = self.ring_members[f - 1].clone();
            } else {
                predecessor = self.ring_members[n - 1].clone();
            }
        }
        let ghost s_node = joining_node;
        self.register_node(joining_node);
        let mut notifications: Vec<(String, Request)> = Vec::new();
        if successor.addr != joining_addr {
            notifications.push(
                (
                    successor.addr.clone(),
                    Request::SetPredecessorWithKeys {
                        node: NodeInfo { addr: joining_addr.clone(), id },
                    },
                ),
            );
        }
        if predecessor.addr != joining_addr {
            notifications.push(
                (
                    predecessor.addr.clone(),
                    Request::SetSuccessor { node: NodeInfo { addr: joining_addr.clone(), id } },
                ),
            );
        }
        JoinPlan { successor, predecessor, notifications }
    }

    /// Handle a depart: remove the departing node and plan the pointer
    /// updates of its successor and predecessor (the members after and
    /// before it, wrapping around). An address that is not a member
    /// changes nothing and nothing is sent.
    pub fn coordinate_depart(&mut self, departing_addr: &String) -> (r: Vec<(String, Request)>)
        requires
            old(self).wf(),
        ensures
            final(self).wf(),
            final(self).addr_view() == old(self).addr_view(),
            final(self).k_view() == old(self).k_view(),
            final(self).t_view() == old(self).t_view(),
            depart_done(old(self).members(), departing_addr@, final(self).members(), r@),
    {
        let ghost s = self.ring_members@;
        let successor: NodeInfo;
        let predecessor: NodeInfo;
        match self.position_of(departing_addr) {
            Some(i) => {
                let n = self.ring_members.len();
                let si = if i + 1 == n {
                    0
                } else {
                    i + 1
                };
                let pi = if i == 0 {
                    n - 1
                } else {
                    i - 1
                };
                successor = self.ring_members[si].clone();
                predecessor = self.ring_members[pi].clone();
                self.unregister_node(departing_addr);
            },
            None => {
                return Vec::new();
            },
        }
        let mut notifications: Vec<(String, Request)> = Vec::new();
        if successor.addr != *departing_addr {
            notifications.push(
                (successor.addr.clone(), Request::SetPredecessor { node: predecessor.clone() }),
            );
        }
        if predecessor.addr != *departing_addr {
            notifications.push(
                (predecessor.addr.clone(), Request::SetSuccessor { node: successor.clone() }),
            );
        }
        notifications
    }

    /// Handle an incoming request: join and depart requests are
    /// coordinated, a ping is answered, anything else is refused.
    pub fn handle_bootstrap_request(&mut self, request: Request) -> (r: BootstrapStep)
        requires
            old(self).wf(),
        ensures
            final(self).wf(),
            final(self).addr_view() == old(self).addr_view(),
            final(self).k_view() == old(self).k_view(),
            final(self).t_view() == old(self).t_view(),
            match request {
                Request::Ping => r.reply is Pong && r.notifications@.len() == 0 && final(self).members() == old(self).members(),
                Request::JoinRequest { joining_node } => {
                    &&& r.reply matches Response::JoinSuccess { successor, predecessor, k, t }
                    &&& k == old(self).k_view() && t == old(self).t_view()
                    &&& join_done(
                        old(self).members(),
                        joining_node.addr,
                        successor,
                        predecessor,
                        final(self).members(),
                        r.notifications@,
                    )
                },
                Request::DepartRequest { departing_node } => {
                    &&& r.reply is DepartSuccess
                    &&& depart_done(
                        old(self).members(),
                        departing_node.addr@,
                        final(self).members(),
                        r.notifications@,
                    )
                },
                _ => r.reply matches Response::Error(m) && m@ == unrecognized_text()
                    && r.notifications@.len() == 0 && final(self).members() == old(self).members(),
            },
    {
        match request {
            Request::Ping => BootstrapStep { notifications: Vec::new(), reply: Response::Pong },
            Request::JoinRequest { joining_node } => {
                let plan = self.coordinate_join(joining_node.addr);
                BootstrapStep {
                    notifications: plan.notifications,
                    reply: Response::JoinSuccess {
                        successor: plan.successor,
                        predecessor: plan.predecessor,
                        k: self.k,
                        t: self.t,
                    },
                }
            },
            Request::DepartRequest { departing_node } => {
                let notifications = self.coordinate_depart(&departing_node.addr);
                BootstrapStep { notifications, reply: Response::DepartSuccess }
            },
            _ => BootstrapStep {
                notifications: Vec::new(),
                reply: Response::Error(unrecognized_message()),
            },
        }
    }
}


} // verus!
