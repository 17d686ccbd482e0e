//! Length-prefixed message framing.
//!
//! A message goes over a stream as a 4-byte big-endian length followed by
//! the message bytes. A receiver refuses lengths above `MAX_MESSAGE_SIZE`.
//! The streams themselves are handled by the application.

use vstd::prelude::*;
use crate::nodes::ring::be_value;

verus! {

/// Maximum message size (16 MB).
pub const MAX_MESSAGE_SIZE: usize = 16 * 1024 * 1024;

/// The four big-endian bytes of a value below 2^32.
pub open spec fn be_bytes_u32(v: nat) -> Seq<u8> {
    seq![
        (v / 16777216 % 256) as u8,
        (v / 65536 % 256) as u8,
        (v / 256 % 256) as u8,
        (v % 256) as u8,
    ]
}

/// Errors of reading a frame.
#[derive(Debug, PartialEq, Eq)]
pub enum FrameError {
    /// The announced length is above the maximum; it carries that length
    TooLarge(usize),
}

/// The length prefix of a message of `len` bytes: the length as a `u32`
/// (truncated to 32 bits), big-endian.
pub fn frame_header(len: usize) -> (r: [u8; 4])
    ensures
        r@ == be_bytes_u32(len as nat % 4294967296),
{
    let v: u64 = (len as u64) % 4294967296;
    let r = [
        (v / 16777216 % 256) as u8,
        (v / 65536 % 256) as u8,
        (v / 256 % 256) as u8,
        (v % 256) as u8,
    ];
    assert(r@ =~= be_bytes_u32(len as nat % 4294967296));
    r
}

/// A whole frame: the length prefix followed by the message.
pub fn frame_message(data: &[u8]) -> (r: Vec<u8>)
    ensures
        r@ == be_bytes_u32(data@.len() % 4294967296) + data@,
{
    let header = frame_header(data.len());
    let mut r: Vec<u8> = Vec::new();
    r.push(header[0]);
    r.push(header[1]);
    r.push(header[2]);
    r.push(header[3]);
    assert(r@ =~= header@);
    let mut i: usize = 0;
    while i < data.len()
        invariant
            0 <= i <= data@.len(),
            r@ == header@ + data@.take(i as int),
        decreases data.len() - i,
    {
        r.push(data[i]);
        assert(r@ =~= header@ + data@.take(i + 1));
        i = i + 1;
    }
    assert(data@.take(data@.len() as int) =~= data@);
    r
}

/// The message length announced by a frame's prefix, refused when above
/// the maximum.
pub fn frame_length(header: [u8; 4]) -> (r: Result<usize, FrameError>)
    ensures
        be_value(header@) <= MAX_MESSAGE_SIZE ==> r == Ok::<usize, FrameError>(
            be_value(header@) as usize,
        ),
        be_value(header@) > MAX_MESSAGE_SIZE ==> r == Err::<usize, FrameError>(
            FrameError::TooLarge(be_value(header@) as usize),
        ),
{
    let h = header;
    proof {
        reveal_with_fuel(be_value, 5);
    }
    assert(h@.drop_last().drop_last().drop_last().drop_last() =~= Seq::<u8>::empty());
    assert(h@.drop_last().drop_last().drop_last() =~= seq![h[0]]);
    assert(h@.drop_last().drop_last() =~= seq![h[0], h[1]]);
    assert(h@.drop_last() =~= seq![h[0], h[1], h[2]]);
    let v: u64 = ((h[0] as u64 * 256 + h[1] as u64) * 256 + h[2] as u64) * 256 + h[3] as u64;
    assert(v == be_value(h@));
    if v > 16777216 {
        Err(FrameError::TooLarge(v as usize))
    } else {
        Ok(v as usize)
    }
}

/// Reading the prefix of a frame gives back the length of its message,
/// for every message within the maximum size.
pub proof fn lemma_frame_roundtrip(len: nat)
    requires
        len <= MAX_MESSAGE_SIZE,
    ensures
        be_value(be_bytes_u32(len % 4294967296)) == len,
{
    reveal_with_fuel(be_value, 5);
    assert(len % 4294967296 == len);
    let b = be_bytes_u32(len);
    assert(b.drop_last().drop_last().drop_last().drop_last() =~= Seq::<u8>::empty());
    assert(b.drop_last().drop_last().drop_last() =~= seq![b[0]]);
    assert(b.drop_last().drop_last() =~= seq![b[0], b[1]]);
    assert(b.drop_last() =~= seq![b[0], b[1], b[2]]);
    assert(((len / 16777216 % 256) * 256 + len / 65536 % 256) * 256 + len / 256 % 256 == len / 256)
        by (nonlinear_arith)
        requires
            len <= 16777216,
    ;
    assert((len / 256) * 256 + len % 256 == len) by (nonlinear_arith);
}

} // verus!
