//! The actor stream: message framing and the plain message parts.
//!
//! A message travels as a frame: four bytes that give the length of the
//! payload as an unsigned big-endian number, then the payload itself.
//! The payload is JSON text; turning it into messages is the caller's
//! business.

use vstd::prelude::*;

verus! {

/// Tells that an actor has left.
#[derive(Debug, Clone)]
pub struct ActorDespawn {
    pub id: String,
}

impl ActorDespawn {
    pub fn new(id: String) -> (message: Self)
        ensures
            message.id == id,
    {
        Self { id }
    }
}

/// Length of a frame header in bytes.
pub const HEADER_LEN: usize = 4;

/// The number that four bytes spell, most significant byte first.
pub open spec fn big_endian(header: Seq<u8>) -> int {
    header[0] * 16777216 + header[1] * 65536 + header[2] * 256 + header[3]
}

/// The header that announces a payload of `len` bytes.
pub open spec fn header_of(len: int) -> Seq<u8> {
    seq![
        (len / 16777216 % 256) as u8,
        (len / 65536 % 256) as u8,
        (len / 256 % 256) as u8,
        (len % 256) as u8,
    ]
}

/// The payload length that a frame header announces.
pub fn frame_length(header: &[u8; 4]) -> (len: u32)
    ensures
        len == big_endian(header@),
{
    let a: u32 = header[0] as u32;
    let b: u32 = header[1] as u32;
    let c: u32 = header[2] as u32;
    let d: u32 = header[3] as u32;
    a * 16777216 + b * 65536 + c * 256 + d
}

/// Puts a payload into a frame: its header, then the payload. A payload
/// whose length does not fit the header cannot be framed.
pub fn encode_frame(payload: &[u8]) -> (frame: Option<Vec<u8>>)
    ensures
        payload@.len() > u32::MAX ==> frame is None,
        payload@.len() <= u32::MAX ==> frame is Some && frame->Some_0@ == header_of(payload@.len() as int)
            + payload@,
{
    let len: usize = payload.len();
    if len > 0xffff_ffff {
        return None;
    }
    let mut frame: Vec<u8> = Vec::new();
    frame.push((len / 16777216 % 256) as u8);
    frame.push((len / 65536 % 256) as u8);
    frame.push((len / 256 % 256) as u8);
    frame.push((len % 256) as u8);
    let mut k: usize = 0;
    while k < len
        invariant
            k <= len,
            len == payload@.len(),
            frame@ == header_of(len as int) + payload@.take(k as int),
        decreases len - k,
    {
        proof {
            assert(payload@.take(k + 1) =~= payload@.take(k as int).push(payload@[k as int]));
            assert((header_of(len as int) + payload@.take(k as int)).push(payload@[k as int])
                =~= header_of(len as int) + payload@.take(k + 1));
        }
        frame.push(payload[k]);
        k += 1;
    }
    proof {
        assert(payload@.take(len as int) =~= payload@);
    }
    Some(frame)
}

/// The span of the payload in a buffer that starts with a frame, or
/// `None` while the buffer does not hold the whole frame yet.
pub fn frame_payload(buffer: &[u8]) -> (span: Option<(usize, usize)>)
    ensures
        match span {
            Some((start, end)) => {
                &&& start == HEADER_LEN
                &&& end == HEADER_LEN + big_endian(buffer@.take(4))
                &&& end <= buffer@.len()
            },
            None => buffer@.len() < HEADER_LEN || buffer@.len() < HEADER_LEN + big_endian(buffer@.take(4)),
        },
{
    if buffer.len() < HEADER_LEN {
        return None;
    }
    let header: [u8; 4] = [buffer[0], buffer[1], buffer[2], buffer[3]];
    let len: u32 = frame_length(&header);
    proof {
        assert(big_endian(header@) == big_endian(buffer@.take(4)));
    }
    let len: usize = len as usize;
    if buffer.len() - HEADER_LEN < len {
        return None;
    }
    Some((HEADER_LEN, HEADER_LEN + len))
}

/// A header announces the length it was made for.
pub proof fn lemma_header_round_trip(len: int)
    requires
        0 <= len <= u32::MAX,
    ensures
        header_of(len).len() == 4,
        big_endian(header_of(len)) == len,
{
}

/// Framing loses nothing: the header of a frame announces its payload's
/// length, and the payload follows the header unchanged.
pub proof fn lemma_frame_round_trip(payload: Seq<u8>)
    requires
        payload.len() <= u32::MAX,
    ensures
        big_endian((header_of(payload.len() as int) + payload).take(4)) == payload.len(),
        (header_of(payload.len() as int) + payload).subrange(4, 4 + payload.len() as int) == payload,
{
    let frame = header_of(payload.len() as int) + payload;
    lemma_header_round_trip(payload.len() as int);
    assert(frame.take(4) =~= header_of(payload.len() as int));
    assert(frame.subrange(4, 4 + payload.len() as int) =~= payload);
}

} // verus!
