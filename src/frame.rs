use vstd::prelude::*;

use crate::varint::{
    VarintRead, varint_at, varint_value, varint_encoding, read_varint, write_varint,
    lemma_encoding_is_varint, lemma_varint_at_unique,
};

verus! {

/// The largest payload that one frame may carry, in bytes.
pub const MAX_FRAME_SIZE: usize = 1024;

/// Why a frame could not be read.
#[derive(Clone, Copy, Debug, PartialEq, Eq, Structural)]
pub enum FrameError {
    /// The declared payload length exceeds the maximum frame size.
    FrameTooLarge,
    /// The input ended before the whole frame was there.
    Truncated,
    /// The length prefix is not a minimal varint.
    Corrupted,
}

/// One frame on the wire: the payload's length as a varint, then the payload.
pub open spec fn frame_encoding(payload: Seq<u8>) -> Seq<u8> {
    varint_encoding(payload.len()) + payload
}

/// What reading one frame from the start of `buf` yields, with payloads of at
/// most `max` bytes.
pub open spec fn frame_result(buf: Seq<u8>, max: nat) -> Result<Seq<u8>, FrameError> {
    if forall|i: int| 0 <= i < buf.len() ==> buf[i] >= 128 {
        Err(FrameError::Truncated)
    } else if !exists|next: int| varint_at(buf, 0, next) {
        Err(FrameError::Corrupted)
    } else {
        let next = choose|next: int| varint_at(buf, 0, next);
        let n = varint_value(buf.subrange(0, next));
        if n > max {
            Err(FrameError::FrameTooLarge)
        } else if buf.len() < next + n {
            Err(FrameError::Truncated)
        } else {
            Ok(buf.subrange(next, next + n))
        }
    }
}

/// The spec-level view of a read's outcome.
pub open spec fn frame_read_view(r: Result<Vec<u8>, FrameError>) -> Result<Seq<u8>, FrameError> {
    match r {
        Ok(v) => Ok(v@),
        Err(e) => Err(e),
    }
}

/// Frames a payload: its length as a varint, then its bytes.
pub fn write_frame(payload: &[u8]) -> (r: Vec<u8>)
    ensures
        r@ == frame_encoding(payload@),
{
    let mut out: Vec<u8> = Vec::new();
    write_varint(&mut out, payload.len() as u64);
    let mut i: usize = 0;
    while i < payload.len()
        invariant
            0 <= i <= payload@.len(),
            out@ == varint_encoding(payload@.len()) + payload@.subrange(0, i as int),
        decreases payload@.len() - i,
    {
        out.push(payload[i]);
        proof {
            assert(payload@.subrange(0, i + 1) =~= payload@.subrange(0, i as int).push(payload@[i as int]));
        }
        i = i + 1;
    }
    assert(payload@.subrange(0, payload@.len() as int) =~= payload@);
    out
}

/// Reads one frame from the start of `buf`, refusing payloads over `max` bytes
/// before looking at any payload byte.
pub fn read_frame(buf: &[u8], max: usize) -> (r: Result<Vec<u8>, FrameError>)
    ensures
        frame_read_view(r) == frame_result(buf@, max as nat),
{
    match read_varint(buf, 0, max as u64) {
        VarintRead::Incomplete => Err(FrameError::Truncated),
        VarintRead::Malformed => Err(FrameError::Corrupted),
        VarintRead::TooLarge => {
            proof {
                let w = choose|next: int| varint_at(buf@, 0, next) && varint_value(buf@.subrange(0, next)) > max;
                let c = choose|next: int| varint_at(buf@, 0, next);
                lemma_varint_at_unique(buf@, 0, w, c);
                assert(buf@[w - 1] < 128) by {
                    assert(buf@.subrange(0, w).last() == buf@[w - 1]);
                }
            }
            Err(FrameError::FrameTooLarge)
        },
        VarintRead::Value(v, next) => {
            proof {
                let c = choose|next: int| varint_at(buf@, 0, next);
                lemma_varint_at_unique(buf@, 0, next as int, c);
                assert(buf@[next - 1] < 128) by {
                    assert(buf@.subrange(0, next as int).last() == buf@[next - 1]);
                }
            }
            if ((buf.len() - next) as u64) < v {
                return Err(FrameError::Truncated);
            }
            let end: usize = next + v as usize;
            let mut out: Vec<u8> = Vec::new();
            let mut i: usize = next;
            while i < end
                invariant
                    next <= i <= end <= buf@.len(),
                    out@ == buf@.subrange(next as int, i as int),
                decreases end - i,
            {
                out.push(buf[i]);
                proof {
                    assert(buf@.subrange(next as int, i + 1) =~= buf@.subrange(next as int, i as int).push(buf@[i as int]));
                }
                i = i + 1;
            }
            Ok(out)
        },
    }
}

/// The request/response protocol whose frames this module defines.
#[derive(Clone, Copy, Debug)]
pub struct GenericProtocol;

impl GenericProtocol {
    /// The name under which peers negotiate the protocol. It changes with the
    /// frame format or the maximum frame size.
    pub fn protocol_name(&self) -> (r: &'static str)
        ensures
            r@ == "/Generic/1"@,
    {
        "/Generic/1"
    }
}

/// Frames requests and responses alike; the payload is opaque to it.
#[derive(Clone, Copy, Debug, Default)]
pub struct GenericCodec;

impl GenericCodec {
    /// Reads a request frame received on a stream.
    pub fn read_request(&self, received: &[u8]) -> (r: Result<Vec<u8>, FrameError>)
        ensures
            frame_read_view(r) == frame_result(received@, MAX_FRAME_SIZE as nat),
    {
        read_frame(received, MAX_FRAME_SIZE)
    }

    /// Reads a response frame received on a stream.
    pub fn read_response(&self, received: &[u8]) -> (r: Result<Vec<u8>, FrameError>)
        ensures
            frame_read_view(r) == frame_result(received@, MAX_FRAME_SIZE as nat),
    {
        read_frame(received, MAX_FRAME_SIZE)
    }

    /// The bytes to send for a request; the sender then closes its write half.
    pub fn write_request(&self, req: &[u8]) -> (r: Vec<u8>)
        ensures
            r@ == frame_encoding(req@),
    {
        write_frame(req)
    }

    /// The bytes to send for a response; the sender then closes its write half.
    pub fn write_response(&self, res: &[u8]) -> (r: Vec<u8>)
        ensures
            r@ == frame_encoding(res@),
    {
        write_frame(res)
    }
}

/// A frame read from its own encoding, followed by anything, gives back the
/// payload whenever the payload is within the size bound.
pub proof fn lemma_frame_round_trip(payload: Seq<u8>, rest: Seq<u8>, max: nat)
    requires
        payload.len() <= max,
    ensures
        frame_result(frame_encoding(payload) + rest, max) == Ok::<Seq<u8>, FrameError>(payload),
{
    let buf = frame_encoding(payload) + rest;
    let pre = varint_encoding(payload.len());
    let k = pre.len() as int;
    lemma_encoding_is_varint(payload.len());
    assert(buf.subrange(0, k) =~= pre);
    assert(varint_at(buf, 0, k));
    assert(buf[k - 1] == pre.last());
    let c = choose|next: int| varint_at(buf, 0, next);
    lemma_varint_at_unique(buf, 0, k, c);
    assert(buf.subrange(k, k + payload.len()) =~= payload);
}

/// A frame whose declared length is over the bound fails as too large,
/// whatever follows the length prefix.
pub proof fn lemma_frame_too_large(n: nat, rest: Seq<u8>, max: nat)
    requires
        n > max,
    ensures
        frame_result(varint_encoding(n) + rest, max) == Err::<Seq<u8>, FrameError>(FrameError::FrameTooLarge),
{
    let buf = varint_encoding(n) + rest;
    let pre = varint_encoding(n);
    let k = pre.len() as int;
    lemma_encoding_is_varint(n);
    assert(buf.subrange(0, k) =~= pre);
    assert(varint_at(buf, 0, k));
    assert(buf[k - 1] == pre.last());
    let c = choose|next: int| varint_at(buf, 0, next);
    lemma_varint_at_unique(buf, 0, k, c);
}

} // verus!
