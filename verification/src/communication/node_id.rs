//! 160-bit ring identifiers derived from SHA-1.
//!
//! A `NodeId` is a position on the identifier circle. Identifiers are ordered
//! as big-endian numbers, which is the lexicographic order of their bytes.

use vstd::prelude::*;
use vstd::utf8::*;
use crate::hashing::{sha1_digest, sha1_spec};
use crate::text::push_char;

verus! {

/// A 160-bit identifier on the Chord ring.
#[derive(Clone, Copy, PartialEq, Eq, PartialOrd, Ord, Hash, Debug)]
pub struct NodeId {
    bytes: [u8; 20],
}

impl View for NodeId {
    type V = Seq<u8>;

    closed spec fn view(&self) -> Seq<u8> {
        self.bytes@
    }
}

// ---------------------------------------------------------------------------
// Ordering on the ring
// ---------------------------------------------------------------------------

/// Three-way lexicographic comparison of byte sequences (-1, 0 or 1).
pub open spec fn byte_order(a: Seq<u8>, b: Seq<u8>) -> int
    decreases a.len(),
{
    if a.len() == 0 || b.len() == 0 {
        if a.len() == b.len() {
            0
        } else if a.len() == 0 {
            -1
        } else {
            1
        }
    } else if a[0] < b[0] {
        -1
    } else if a[0] > b[0] {
        1
    } else {
        byte_order(a.drop_first(), b.drop_first())
    }
}

/// `a` comes strictly before `b` in identifier order.
pub open spec fn precedes(a: Seq<u8>, b: Seq<u8>) -> bool {
    byte_order(a, b) < 0
}

/// `x` lies on the arc (start, end] of the ring, walking clockwise.
/// When `start` is not below `end` the arc wraps around zero.
pub open spec fn in_arc(x: Seq<u8>, start: Seq<u8>, end: Seq<u8>) -> bool {
    if precedes(start, end) {
        precedes(start, x) && !precedes(end, x)
    } else {
        precedes(start, x) || !precedes(end, x)
    }
}

/// Byte order is antisymmetric and only equal sequences compare equal.
pub proof fn lemma_byte_order_antisym(a: Seq<u8>, b: Seq<u8>)
    ensures
        byte_order(a, b) == -byte_order(b, a),
        byte_order(a, b) == 0 <==> a == b,
        -1 <= byte_order(a, b) <= 1,
    decreases a.len(),
{
    if a.len() == 0 || b.len() == 0 {
        if a.len() == 0 && b.len() == 0 {
            assert(a =~= b);
        }
    } else if a[0] != b[0] {
    } else {
        lemma_byte_order_antisym(a.drop_first(), b.drop_first());
        if a.drop_first() == b.drop_first() {
            assert(a =~= seq![a[0]] + a.drop_first());
            assert(b =~= seq![b[0]] + b.drop_first());
        }
        if a == b {
            assert(a.drop_first() =~= b.drop_first());
        }
    }
}

/// Byte order is transitive.
pub proof fn lemma_byte_order_trans(a: Seq<u8>, b: Seq<u8>, c: Seq<u8>)
    requires
        byte_order(a, b) < 0,
        byte_order(b, c) < 0,
    ensures
        byte_order(a, c) < 0,
    decreases a.len(),
{
    if a.len() == 0 || b.len() == 0 || c.len() == 0 {
    } else if a[0] == b[0] && b[0] == c[0] {
        lemma_byte_order_trans(a.drop_first(), b.drop_first(), c.drop_first());
    }
}

/// No sequence of a given length comes before the all-zero sequence of that
/// length, and none comes after the all-0xff one.
pub proof fn lemma_extremes(x: Seq<u8>)
    ensures
        !precedes(x, Seq::new(x.len(), |i: int| 0u8)),
        !precedes(Seq::new(x.len(), |i: int| 0xffu8), x),
    decreases x.len(),
{
    let z = Seq::new(x.len(), |i: int| 0u8);
    let f = Seq::new(x.len(), |i: int| 0xffu8);
    if x.len() > 0 {
        lemma_extremes(x.drop_first());
        assert(z.drop_first() =~= Seq::new(x.drop_first().len(), |i: int| 0u8));
        assert(f.drop_first() =~= Seq::new(x.drop_first().len(), |i: int| 0xffu8));
    }
}

/// The smallest identifier comes before the largest, and every identifier
/// lies between them.
pub proof fn lemma_min_max_bound(id: Seq<u8>)
    requires
        id.len() == 20,
    ensures
        precedes(Seq::new(20, |i: int| 0u8), Seq::new(20, |i: int| 0xffu8)),
        !precedes(id, Seq::new(20, |i: int| 0u8)),
        !precedes(Seq::new(20, |i: int| 0xffu8), id),
{
    lemma_extremes(id);
    let z = Seq::new(20, |i: int| 0u8);
    let f = Seq::new(20, |i: int| 0xffu8);
    assert(z[0] < f[0]);
}

/// Start of an arc is excluded (unless the arc is the whole ring), its end
/// is included, and an arc from a point to itself is the whole ring.
pub proof fn lemma_arc_ends(x: Seq<u8>, start: Seq<u8>, end: Seq<u8>)
    ensures
        in_arc(end, start, end),
        start != end ==> !in_arc(start, start, end),
        in_arc(x, start, start),
{
    lemma_byte_order_antisym(start, end);
    lemma_byte_order_antisym(end, end);
    lemma_byte_order_antisym(start, start);
    lemma_byte_order_antisym(x, start);
}

/// For two distinct points, the arcs (start, end] and (end, start] split the
/// ring: every point lies on exactly one of them.
pub proof fn lemma_arc_partition(x: Seq<u8>, start: Seq<u8>, end: Seq<u8>)
    requires
        start != end,
    ensures
        in_arc(x, start, end) <==> !in_arc(x, end, start),
{
    lemma_byte_order_antisym(start, end);
    lemma_byte_order_antisym(x, start);
    lemma_byte_order_antisym(x, end);
    if precedes(start, x) && precedes(end, x) {
    }
    if precedes(start, end) && !precedes(start, x) && precedes(end, x) {
        lemma_byte_order_trans(x, start, end);
    }
    if precedes(end, start) && precedes(start, x) && !precedes(end, x) {
        if x != end {
            lemma_byte_order_trans(end, start, x);
        }
    }
}

/// Three-way comparison of two identifiers' bytes.
fn bytes_less_than(a: &[u8; 20], b: &[u8; 20]) -> (r: bool)
    ensures
        r == precedes(a@, b@),
{
    let mut i: usize = 0;
    assert(a@.skip(0) =~= a@);
    assert(b@.skip(0) =~= b@);
    while i < 20
        invariant
            0 <= i <= 20,
            a@.len() == 20,
            b@.len() == 20,
            byte_order(a@, b@) == byte_order(a@.skip(i as int), b@.skip(i as int)),
        decreases 20 - i,
    {
        let x = a[i];
        let y = b[i];
        assert(a@.skip(i as int)[0] == x);
        assert(b@.skip(i as int)[0] == y);
        if x < y {
            return true;
        }
        if x > y {
            return false;
        }
        assert(a@.skip(i as int).drop_first() =~= a@.skip(i + 1));
        assert(b@.skip(i as int).drop_first() =~= b@.skip(i + 1));
        i = i + 1;
    }
    false
}

// ---------------------------------------------------------------------------
// Hexadecimal text
// ---------------------------------------------------------------------------

/// The lowercase hexadecimal digit for a nibble value below 16.
pub open spec fn hex_char(n: int) -> char {
    if n < 10 {
        (n + 48) as char
    } else {
        (n + 87) as char
    }
}

/// Lowercase hexadecimal text of a byte sequence: two digits per byte,
/// high nibble first.
pub open spec fn hex_encode(bytes: Seq<u8>) -> Seq<char> {
    Seq::new(
        2 * bytes.len(),
        |k: int|
            if k % 2 == 0 {
                hex_char((bytes[k / 2] / 16) as int)
            } else {
                hex_char((bytes[k / 2] % 16) as int)
            },
    )
}

/// The value of one ASCII hexadecimal digit (either case), as read by
/// `u8::from_str_radix` with radix 16.
pub open spec fn hex_digit_value(b: u8) -> Option<u8> {
    if 48 <= b <= 57 {
        Some((b - 48) as u8)
    } else if 97 <= b <= 102 {
        Some((b - 87) as u8)
    } else if 65 <= b <= 70 {
        Some((b - 55) as u8)
    } else {
        None
    }
}

/// The byte written by two hexadecimal digits `[hi, lo]` (high digit
/// first); nothing unless both are hexadecimal digits.
pub open spec fn hex_pair_value(hi: u8, lo: u8) -> Option<u8> {
    match (hex_digit_value(hi), hex_digit_value(lo)) {
        (Some(h), Some(l)) => Some((h * 16 + l) as u8),
        _ => None,
    }
}

/// The value of the `i`-th two-byte pair of `bytes`.
pub open spec fn pair_at(bytes: Seq<u8>, i: int) -> Option<u8> {
    hex_pair_value(bytes[2 * i], bytes[2 * i + 1])
}

/// The first `n` pairs of `bytes` are all valid.
pub open spec fn pairs_valid(bytes: Seq<u8>, n: int) -> bool {
    forall|i: int| 0 <= i < n ==> (#[trigger] pair_at(bytes, i)) is Some
}

/// The identifier described by the UTF-8 bytes of a hexadecimal text, if any:
/// exactly 40 bytes, read as 20 pairs.
pub open spec fn parse_hex_id(bytes: Seq<u8>) -> Option<Seq<u8>> {
    if bytes.len() == 40 && pairs_valid(bytes, 20) {
        Some(Seq::new(20, |i: int| pair_at(bytes, i)->0))
    } else {
        None
    }
}

fn nibble_char(n: u8) -> (c: char)
    requires
        n < 16,
    ensures
        c == hex_char(n as int),
{
    if n < 10 {
        (n + 48) as char
    } else {
        (n + 87) as char
    }
}

fn digit_value(b: u8) -> (r: Option<u8>)
    ensures
        r == hex_digit_value(b),
{
    if 48 <= b && b <= 57 {
        Some(b - 48)
    } else if 97 <= b && b <= 102 {
        Some(b - 87)
    } else if 65 <= b && b <= 70 {
        Some(b - 55)
    } else {
        None
    }
}

fn pair_value(hi: u8, lo: u8) -> (r: Option<u8>)
    ensures
        r == hex_pair_value(hi, lo),
{
    match (digit_value(hi), digit_value(lo)) {
        (Some(h), Some(l)) => Some(h * 16 + l),
        _ => None,
    }
}

/// Three-way lexicographic comparison of texts by character code (-1, 0
/// or 1): the order of `str` on texts of ASCII characters.
pub open spec fn char_order(a: Seq<char>, b: Seq<char>) -> int
    decreases a.len(),
{
    if a.len() == 0 || b.len() == 0 {
        if a.len() == b.len() {
            0
        } else if a.len() == 0 {
            -1
        } else {
            1
        }
    } else if (a[0] as int) < (b[0] as int) {
        -1
    } else if (a[0] as int) > (b[0] as int) {
        1
    } else {
        char_order(a.drop_first(), b.drop_first())
    }
}

proof fn lemma_hex_char(n: int, m: int)
    requires
        0 <= n < 16,
        0 <= m < 16,
    ensures
        (n < m) == ((hex_char(n) as int) < (hex_char(m) as int)),
        (n == m) == ((hex_char(n) as int) == (hex_char(m) as int)),
{
}

proof fn lemma_hex_encode_drop(a: Seq<u8>)
    requires
        a.len() > 0,
    ensures
        hex_encode(a).drop_first().drop_first() == hex_encode(a.drop_first()),
        hex_encode(a)[0] == hex_char((a[0] / 16) as int),
        hex_encode(a)[1] == hex_char((a[0] % 16) as int),
{
    let h = hex_encode(a);
    let t = hex_encode(a.drop_first());
    assert forall|k: int| 0 <= k < t.len() implies #[trigger] h.drop_first().drop_first()[k] == t[k] by {
        assert(h.drop_first().drop_first()[k] == h[k + 2]);
        assert((k + 2) % 2 == k % 2);
        assert((k + 2) / 2 == k / 2 + 1);
    }
    assert(h.drop_first().drop_first() =~= t);
}

/// The hexadecimal texts of byte sequences compare as the sequences do:
/// text order of `to_hex` agrees with identifier order.
pub proof fn lemma_hex_order(a: Seq<u8>, b: Seq<u8>)
    ensures
        char_order(hex_encode(a), hex_encode(b)) == byte_order(a, b),
    decreases a.len(),
{
    if a.len() == 0 || b.len() == 0 {
    } else {
        lemma_hex_encode_drop(a);
        lemma_hex_encode_drop(b);
        let ha = hex_encode(a);
        let hb = hex_encode(b);
        let x = a[0];
        let y = b[0];
        lemma_hex_char((x / 16) as int, (y / 16) as int);
        lemma_hex_char((x % 16) as int, (y % 16) as int);
        assert(x == y <==> (x / 16 == y / 16 && x % 16 == y % 16));
        assert(x < y <==> (x / 16 < y / 16 || (x / 16 == y / 16 && x % 16 < y % 16)));
        lemma_hex_order(a.drop_first(), b.drop_first());
        assert(ha.drop_first().len() > 0 && hb.drop_first().len() > 0);
        assert(ha.drop_first()[0] == ha[1] && hb.drop_first()[0] == hb[1]);
        let inner = char_order(ha.drop_first(), hb.drop_first());
        if x / 16 == y / 16 {
            assert(char_order(ha, hb) == inner);
            if x % 16 == y % 16 {
                assert(inner == char_order(
                    ha.drop_first().drop_first(),
                    hb.drop_first().drop_first(),
                ));
                assert(x == y);
            }
        }
    }
}

/// Decoding the encoding of an identifier gives back the identifier.
pub proof fn lemma_hex_roundtrip(id: Seq<u8>)
    requires
        id.len() == 20,
    ensures
        parse_hex_id(encode_utf8(hex_encode(id))) == Some(id),
{
    let chars = hex_encode(id);
    assert(is_ascii_chars(chars)) by {
        assert forall|k: int| 0 <= k < chars.len() implies '\0' <= #[trigger] chars[k] <= '\u{7f}' by {
            let n = if k % 2 == 0 { id[k / 2] / 16 } else { id[k / 2] % 16 };
            assert(0 <= n < 16);
        }
    }
    is_ascii_chars_encode_utf8(chars);
    let bytes = encode_utf8(chars);
    assert(bytes.len() == 40);
    assert forall|i: int| 0 <= i < 20 implies #[trigger] pair_at(bytes, i) == Some(id[i]) by {
        let b = id[i];
        assert(bytes[2 * i] == chars[2 * i] as u8);
        assert(bytes[2 * i + 1] == chars[2 * i + 1] as u8);
        assert((2 * i) / 2 == i);
        assert((2 * i + 1) / 2 == i);
        assert((2 * i) % 2 == 0);
        assert((2 * i + 1) % 2 == 1);
        assert(b / 16 * 16 + b % 16 == b);
    }
    assert(pairs_valid(bytes, 20));
    assert(Seq::new(20, |i: int| pair_at(bytes, i)->0) =~= id);
}

// ---------------------------------------------------------------------------
// The identifier type
// ---------------------------------------------------------------------------

/// The identifier of a UTF-8 text: its SHA-1 digest.
pub open spec fn text_id(text: Seq<char>) -> Seq<u8> {
    sha1_spec(encode_utf8(text))
}

impl NodeId {
    /// Create a NodeId from raw bytes.
    pub fn from_bytes(bytes: [u8; 20]) -> (r: NodeId)
        ensures
            r@ == bytes@,
    {
        NodeId { bytes }
    }

    /// Get the raw bytes.
    pub fn as_bytes(&self) -> (r: &[u8; 20])
        ensures
            r@ == self@,
    {
        &self.bytes
    }

    /// The identifier of a node: the SHA-1 digest of its address text
    /// (`ip:port`).
    pub fn from_address(addr: &str) -> (r: NodeId)
        ensures
            r@ == text_id(addr@),
    {
        NodeId { bytes: sha1_digest(addr.as_bytes()) }
    }

    /// The identifier of a data key (a song title): the SHA-1 digest of the
    /// key.
    pub fn from_key(key: &str) -> (r: NodeId)
        ensures
            r@ == text_id(key@),
    {
        NodeId { bytes: sha1_digest(key.as_bytes()) }
    }

    /// The full lowercase hexadecimal text (40 characters).
    pub fn to_hex(&self) -> (r: String)
        ensures
            r@ == hex_encode(self@),
    {
        self.hex_prefix(20)
    }

    /// The hexadecimal text of the first `n` bytes.
    fn hex_prefix(&self, n: usize) -> (r: String)
        requires
            n <= 20,
        ensures
            r@ == hex_encode(self@.take(n as int)),
    {
        let mut s = String::new();
        let mut i: usize = 0;
        while i < n
            invariant
                0 <= i <= n <= 20,
                self.bytes@.len() == 20,
                s@ == hex_encode(self.bytes@.take(i as int)),
            decreases n - i,
        {
            let b = self.bytes[i];
            push_char(&mut s, nibble_char(b / 16));
            push_char(&mut s, nibble_char(b % 16));
            assert(s@ =~= hex_encode(self.bytes@.take(i + 1)));
            i = i + 1;
        }
        s
    }

    /// Read an identifier back from hexadecimal text (either case).
    /// `None` unless the text is exactly 40 hexadecimal digits.
    pub fn from_hex(hex: &str) -> (r: Option<NodeId>)
        ensures
            match parse_hex_id(encode_utf8(hex@)) {
                Some(b) => r matches Some(id) && id@ == b,
                None => r is None,
            },
    {
        let bytes = hex.as_bytes();
        if bytes.len() != 40 {
            return None;
        }
        let mut out = [0u8; 20];
        let mut i: usize = 0;
        while i < 20
            invariant
                0 <= i <= 20,
                bytes@ == encode_utf8(hex@),
                bytes@.len() == 40,
                out@.len() == 20,
                pairs_valid(bytes@, i as int),
                forall|j: int| 0 <= j < i ==> out@[j] == (#[trigger] pair_at(bytes@, j))->0,
            decreases 20 - i,
        {
            match pair_value(bytes[2 * i], bytes[2 * i + 1]) {
                Some(v) => {
                    out[i] = v;
                },
                None => {
                    assert(pair_at(bytes@, i as int) is None);
                    return None;
                },
            }
            i = i + 1;
        }
        assert(out@ =~= Seq::new(20, |j: int| pair_at(bytes@, j)->0));
        Some(NodeId { bytes: out })
    }

    /// Check if self is in the range (start, end] on the circular ring.
    /// When `start` is not below `end` the range wraps around zero; when
    /// `start == end` it is the whole ring.
    pub fn is_between(&self, start: &NodeId, end: &NodeId) -> (r: bool)
        ensures
            r == in_arc(self@, start@, end@),
    {
        if bytes_less_than(&start.bytes, &end.bytes) {
            bytes_less_than(&start.bytes, &self.bytes) && !bytes_less_than(&end.bytes, &self.bytes)
        } else {
            bytes_less_than(&start.bytes, &self.bytes) || !bytes_less_than(&end.bytes, &self.bytes)
        }
    }

    /// Strict identifier order.
    pub fn precedes(&self, other: &NodeId) -> (r: bool)
        ensures
            r == precedes(self@, other@),
    {
        bytes_less_than(&self.bytes, &other.bytes)
    }

    /// Identifier equality.
    pub fn equals(&self, other: &NodeId) -> (r: bool)
        ensures
            r == (self@ == other@),
    {
        proof {
            lemma_byte_order_antisym(self@, other@);
        }
        !bytes_less_than(&self.bytes, &other.bytes) && !bytes_less_than(&other.bytes, &self.bytes)
    }

    /// Minimum possible ID (all zeros).
    /// Not associated with any real node; for ring arithmetic only.
    pub fn min() -> (r: NodeId)
        ensures
            r@ == Seq::new(20, |i: int| 0u8),
    {
        let r = NodeId { bytes: [0u8; 20] };
        assert(r.bytes@ =~= Seq::new(20, |i: int| 0u8));
        r
    }

    /// Maximum possible ID (all ones).
    /// Not associated with any real node; for ring arithmetic only.
    pub fn max() -> (r: NodeId)
        ensures
            r@ == Seq::new(20, |i: int| 0xffu8),
    {
        let r = NodeId { bytes: [0xffu8; 20] };
        assert(r.bytes@ =~= Seq::new(20, |i: int| 0xffu8));
        r
    }

    /// Short form shown to people: the first 8 hexadecimal characters.
    pub fn to_display_string(&self) -> (r: String)
        ensures
            r@ == hex_encode(self@).take(8),
    {
        let r = self.hex_prefix(4);
        assert(hex_encode(self@.take(4)) =~= hex_encode(self@).take(8));
        r
    }

    /// Debug form: `NodeId(<full hex>)`.
    pub fn to_debug_string(&self) -> (r: String)
        ensures
            r@ == seq!['N', 'o', 'd', 'e', 'I', 'd', '('] + hex_encode(self@) + seq![')'],
    {
        let mut s = String::new();
        push_char(&mut s, 'N');
        push_char(&mut s, 'o');
        push_char(&mut s, 'd');
        push_char(&mut s, 'e');
        push_char(&mut s, 'I');
        push_char(&mut s, 'd');
        push_char(&mut s, '(');
        let hex = self.to_hex();
        let mut i: usize = 0;
        let ghost start = s@;
        let n = hex.as_str().unicode_len();
        while i < n
            invariant
                0 <= i <= n,
                n == hex@.len(),
                s@ == start + hex@.take(i as int),
            decreases n - i,
        {
            push_char(&mut s, hex.as_str().get_char(i));
            assert(s@ =~= start + hex@.take(i + 1));
            i = i + 1;
        }
        push_char(&mut s, ')');
        assert(s@ =~= seq!['N', 'o', 'd', 'e', 'I', 'd', '('] + hex_encode(self@) + seq![')']);
        s
    }
}

} // verus!
