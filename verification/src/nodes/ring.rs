//! The small identifier ring used by the DHT nodes: positions are the low
//! `N` bits of the first eight SHA-1 bytes of a text.

use vstd::prelude::*;
use vstd::utf8::*;
use crate::hashing::{sha1_digest, sha1_spec};

verus! {

/// Number of bits in the identifier space.
pub const N: u64 = 10;

/// Number of positions on the ring (2^N).
pub const RING_SIZE: u64 = 1024;

/// Big-endian value of a byte sequence.
pub open spec fn be_value(s: Seq<u8>) -> nat
    decreases s.len(),
{
    if s.len() == 0 {
        0
    } else {
        be_value(s.drop_last()) * 256 + s.last() as nat
    }
}

/// 256 to the power `n`.
pub open spec fn pow256(n: nat) -> nat
    decreases n,
{
    if n == 0 {
        1
    } else {
        256 * pow256((n - 1) as nat)
    }
}

/// Ring position of a text: the first eight bytes of its SHA-1 digest read
/// as a big-endian `u64`, modulo 2^N.
pub open spec fn ring_hash(text: Seq<char>) -> nat {
    be_value(sha1_spec(encode_utf8(text)).take(8)) % (RING_SIZE as nat)
}

proof fn lemma_pow_mono(i: nat, j: nat)
    requires
        i <= j,
    ensures
        pow256(i) <= pow256(j),
    decreases j,
{
    if i < j {
        lemma_pow_mono(i, (j - 1) as nat);
    }
}

/// Ring position of a text (an address `ip:port` or a key).
pub fn hash_value(data: &str) -> (r: u64)
    ensures
        r == ring_hash(data@),
        r < RING_SIZE,
{
    ring_position(&sha1_digest(data.as_bytes()))
}

/// Ring position given by a SHA-1 digest: its first eight bytes read as a
/// big-endian `u64`, modulo 2^N.
pub fn ring_position(digest: &[u8; 20]) -> (r: u64)
    ensures
        r == be_value(digest@.take(8)) % (RING_SIZE as nat),
        r < RING_SIZE,
{
    let d = digest;
    let mut v: u64 = 0;
    let mut i: usize = 0;
    proof {
        reveal_with_fuel(pow256, 8);
        assert(pow256(7) == 72057594037927936);
    }
    assert(d@.take(0) =~= Seq::<u8>::empty());
    while i < 8
        invariant
            0 <= i <= 8,
            d@.len() == 20,
            pow256(7) == 72057594037927936,
            v == be_value(d@.take(i as int)),
            v < pow256(i as nat),
        decreases 8 - i,
    {
        proof {
            lemma_pow_mono(i as nat, 7);
        }
        let b = d[i];
        assert(d@.take(i + 1).drop_last() =~= d@.take(i as int));
        v = v * 256 + b as u64;
        i = i + 1;
    }
    v % 1024
}

/// Whether a node at `node_id` whose predecessor is at `pred_id` stores
/// the key at `key_hash`: the arc (pred_id, node_id], the whole ring when
/// the node is alone, or when its predecessor is unassigned (0).
pub open spec fn responsible(node_id: u64, pred_id: u64, key_hash: u64) -> bool {
    if pred_id == node_id || pred_id == 0 {
        true
    } else if pred_id < node_id {
        pred_id < key_hash <= node_id
    } else {
        key_hash > pred_id || key_hash <= node_id
    }
}

/// Clockwise distance from a node to a key on the ring.
pub open spec fn forward_distance(node_id: u64, key_hash: u64) -> int {
    if node_id >= key_hash {
        RING_SIZE - node_id + key_hash
    } else {
        key_hash - node_id
    }
}

/// A request for a key another node stores goes to the successor when the
/// key lies less than half a ring ahead, else to the predecessor.
pub open spec fn toward_successor(node_id: u64, key_hash: u64) -> bool {
    forward_distance(node_id, key_hash) < RING_SIZE / 2
}

/// Check whether a node stores a key.
pub fn is_responsible(node_id: u64, pred_id: u64, key_hash: u64) -> (r: bool)
    ensures
        r == responsible(node_id, pred_id, key_hash),
{
    if pred_id == node_id || pred_id == 0 {
        return true;
    }
    if pred_id < node_id {
        key_hash > pred_id && key_hash <= node_id
    } else {
        key_hash > pred_id || key_hash <= node_id
    }
}

/// Choose the direction in which to forward a request for a key.
pub fn goes_to_successor(node_id: u64, key_hash: u64) -> (r: bool)
    requires
        node_id < RING_SIZE,
        key_hash < RING_SIZE,
    ensures
        r == toward_successor(node_id, key_hash),
{
    let forward_dist = if node_id >= key_hash {
        RING_SIZE - node_id + key_hash
    } else {
        key_hash - node_id
    };
    forward_dist < RING_SIZE / 2
}

// ---------------------------------------------------------------------------
// Responsibility over a whole ring
// ---------------------------------------------------------------------------

/// Node positions of a ring in increasing order, none at the unassigned
/// position 0.
pub open spec fn sorted_ring(ids: Seq<u64>) -> bool {
    &&& ids.len() >= 1
    &&& forall|i: int, j: int| 0 <= i < j < ids.len() ==> ids[i] < ids[j]
    &&& forall|i: int| 0 <= i < ids.len() ==> 0 < #[trigger] ids[i]
}

/// Index of the predecessor of the `i`-th node in a ring of `n` nodes.
pub open spec fn pred_index(n: int, i: int) -> int {
    if i == 0 {
        n - 1
    } else {
        i - 1
    }
}

/// Node `i` of the ring stores `key`, its predecessor being the previous
/// node in ring order.
pub open spec fn stores(ids: Seq<u64>, i: int, key: u64) -> bool {
    responsible(ids[i], ids[pred_index(ids.len() as int, i)], key)
}

proof fn lemma_find_interval(ids: Seq<u64>, key: u64, i: int) -> (j: int)
    requires
        sorted_ring(ids),
        1 <= i < ids.len(),
        ids[i - 1] < key,
        key <= ids[ids.len() - 1],
    ensures
        i <= j < ids.len(),
        ids[j - 1] < key <= ids[j],
    decreases ids.len() - i,
{
    if key <= ids[i] {
        i
    } else {
        lemma_find_interval(ids, key, i + 1)
    }
}

/// In a ring whose nodes know their true predecessors, every key is stored
/// by exactly one node.
pub proof fn lemma_unique_responsible(ids: Seq<u64>, key: u64)
    requires
        sorted_ring(ids),
    ensures
        exists|i: int| 0 <= i < ids.len() && #[trigger] stores(ids, i, key),
        forall|i: int, j: int|
            0 <= i < ids.len() && 0 <= j < ids.len() && #[trigger] stores(ids, i, key)
                && #[trigger] stores(ids, j, key) ==> i == j,
{
    let n = ids.len() as int;
    if n == 1 {
        assert(stores(ids, 0, key));
    } else {
        assert(ids[0] < ids[n - 1]);
        if key <= ids[0] || key > ids[n - 1] {
            assert(stores(ids, 0, key));
        } else {
            let j = lemma_find_interval(ids, key, 1);
            assert(stores(ids, j, key));
        }
        assert forall|i: int, j: int|
            0 <= i < n && 0 <= j < n && #[trigger] stores(ids, i, key) && #[trigger] stores(
                ids,
                j,
                key,
            ) implies i == j by {
            if i != j {
                if i > 0 {
                    assert(ids[i - 1] < ids[i]);
                }
                if j > 0 {
                    assert(ids[j - 1] < ids[j]);
                }
                if i < j {
                    if i > 0 {
                        assert(ids[i] <= ids[j - 1]);
                    } else {
                        assert(ids[0] <= ids[j - 1]);
                        assert(ids[j] <= ids[n - 1]);
                    }
                } else {
                    if j > 0 {
                        assert(ids[j] <= ids[i - 1]);
                    } else {
                        assert(ids[0] <= ids[i - 1]);
                        assert(ids[i] <= ids[n - 1]);
                    }
                }
            }
        }
    }
}

/// The index of the node after the `i`-th in a ring of `n` nodes.
pub open spec fn succ_index(n: int, i: int) -> int {
    if i + 1 == n {
        0
    } else {
        i + 1
    }
}

/// Where the `i`-th node passes a request for `key`: itself when it stores
/// the key, else its successor or predecessor as `toward_successor`
/// chooses (what `Node::next_hop` does when the pointers follow the ring
/// order).
pub open spec fn hop(ids: Seq<u64>, i: int, key: u64) -> int {
    let n = ids.len() as int;
    if stores(ids, i, key) {
        i
    } else if toward_successor(ids[i], key) {
        succ_index(n, i)
    } else {
        pred_index(n, i)
    }
}

/// The node a request for `key` reaches from node `i` after at most
/// `steps` hops, stopping at a node that stores the key.
pub open spec fn route(ids: Seq<u64>, i: int, key: u64, steps: nat) -> int
    decreases steps,
{
    if steps == 0 || stores(ids, i, key) {
        i
    } else {
        route(ids, hop(ids, i, key), key, (steps - 1) as nat)
    }
}

/// Hops still needed at most: the distance to the key in the direction in
/// which the node passes the request.
pub open spec fn route_measure(id: u64, key: u64) -> int {
    if toward_successor(id, key) {
        forward_distance(id, key)
    } else {
        RING_SIZE - forward_distance(id, key)
    }
}

proof fn lemma_hop_progress(ids: Seq<u64>, i: int, key: u64)
    requires
        sorted_ring(ids),
        forall|j: int| 0 <= j < ids.len() ==> #[trigger] ids[j] < RING_SIZE,
        key < RING_SIZE,
        0 <= i < ids.len(),
        !stores(ids, i, key),
    ensures
        0 <= hop(ids, i, key) < ids.len(),
        1 <= route_measure(ids[i], key),
        stores(ids, hop(ids, i, key), key) || (toward_successor(ids[hop(ids, i, key)], key)
            == toward_successor(ids[i], key) && route_measure(ids[hop(ids, i, key)], key)
            < route_measure(ids[i], key)),
{
    let n = ids.len() as int;
    assert(n >= 2);
    let j = hop(ids, i, key);
    if i > 0 {
        assert(ids[i - 1] < ids[i]);
    }
    if i + 1 < n {
        assert(ids[i] < ids[i + 1]);
    }
    assert(ids[0] < ids[n - 1]);
    assert(ids[0] <= ids[i] <= ids[n - 1]);
    if toward_successor(ids[i], key) {
        assert(j == succ_index(n, i));
        if j > 0 {
            assert(pred_index(n, j) == i);
        } else {
            assert(pred_index(n, j) == n - 1);
        }
    } else {
        assert(j == pred_index(n, i));
        if j > 0 {
            assert(ids[j - 1] < ids[j]);
            assert(pred_index(n, j) == j - 1);
        } else {
            assert(pred_index(n, j) == n - 1);
        }
        if j < n - 1 {
            assert(ids[j] < ids[j + 1]);
        }
    }
}

proof fn lemma_route_reaches(ids: Seq<u64>, i: int, key: u64, steps: nat)
    requires
        sorted_ring(ids),
        forall|j: int| 0 <= j < ids.len() ==> #[trigger] ids[j] < RING_SIZE,
        key < RING_SIZE,
        0 <= i < ids.len(),
        stores(ids, i, key) || route_measure(ids[i], key) <= steps,
    ensures
        0 <= route(ids, i, key, steps) < ids.len(),
        stores(ids, route(ids, i, key, steps), key),
    decreases steps,
{
    if !stores(ids, i, key) {
        lemma_hop_progress(ids, i, key);
        let j = hop(ids, i, key);
        lemma_route_reaches(ids, j, key, (steps - 1) as nat);
    }
}

/// Routing reaches the node that stores a key: in a ring whose nodes know
/// their true successors and predecessors, a request for a key passed on
/// as `Node::next_hop` does, from any node, arrives within
/// `RING_SIZE` hops at the node that stores it.
pub proof fn lemma_routing_reaches_owner(ids: Seq<u64>, i: int, key: u64)
    requires
        sorted_ring(ids),
        forall|j: int| 0 <= j < ids.len() ==> #[trigger] ids[j] < RING_SIZE,
        key < RING_SIZE,
        0 <= i < ids.len(),
    ensures
        0 <= route(ids, i, key, RING_SIZE as nat) < ids.len(),
        stores(ids, route(ids, i, key, RING_SIZE as nat), key),
{
    if !stores(ids, i, key) {
        lemma_hop_progress(ids, i, key);
    }
    lemma_route_reaches(ids, i, key, RING_SIZE as nat);
}

} // verus!
