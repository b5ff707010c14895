//! Length-prefixed framing: each frame is its payload length as a
//! 4-byte big-endian integer, followed by the payload itself.
use vstd::prelude::*;

use crate::{CodecError, DecodeStep};

verus! {

/// Default maximum payload size accepted by a framing codec.
pub const DEFAULT_MAX_FRAME_LEN: usize = 8388608;

/// Big-endian 32-bit value of four bytes.
pub open spec fn be32(b0: u8, b1: u8, b2: u8, b3: u8) -> nat {
    (b0 as nat) * 0x1000000 + (b1 as nat) * 0x10000 + (b2 as nat) * 0x100 + (b3 as nat)
}

/// The payload length declared by a buffer's length prefix.
pub open spec fn declared_len(buf: Seq<u8>) -> nat
    recommends
        buf.len() >= 4,
{
    be32(buf[0], buf[1], buf[2], buf[3])
}

/// Too few bytes for the prefix, or for the declared payload.
pub open spec fn frame_incomplete(buf: Seq<u8>, max: nat) -> bool {
    buf.len() < 4 || (declared_len(buf) <= max && buf.len() < 4 + declared_len(buf))
}

/// The prefix declares a payload over the configured maximum.
pub open spec fn frame_too_large(buf: Seq<u8>, max: nat) -> bool {
    buf.len() >= 4 && declared_len(buf) > max
}

/// A whole frame is buffered.
pub open spec fn frame_complete(buf: Seq<u8>, max: nat) -> bool {
    buf.len() >= 4 && declared_len(buf) <= max && buf.len() >= 4 + declared_len(buf)
}

/// The buffered frame's payload.
pub open spec fn frame_payload(buf: Seq<u8>) -> Seq<u8>
    recommends
        buf.len() >= 4 + declared_len(buf),
{
    buf.subrange(4, 4 + declared_len(buf) as int)
}

/// What remains in the buffer after the frame.
pub open spec fn frame_rest(buf: Seq<u8>) -> Seq<u8>
    recommends
        buf.len() >= 4 + declared_len(buf),
{
    buf.subrange(4 + declared_len(buf) as int, buf.len() as int)
}

/// The four prefix bytes encoding `n`, most significant first.
pub open spec fn be_bytes(n: nat) -> Seq<u8> {
    seq![
        (n / 0x1000000 % 0x100) as u8,
        (n / 0x10000 % 0x100) as u8,
        (n / 0x100 % 0x100) as u8,
        (n % 0x100) as u8,
    ]
}

/// A whole frame on the wire: prefix, then payload.
pub open spec fn frame_bytes(payload: Seq<u8>) -> Seq<u8> {
    be_bytes(payload.len()) + payload
}

/// Reading the prefix bytes back yields the encoded length.
pub proof fn lemma_be_bytes(n: nat)
    requires
        n <= 0xFFFFFFFF,
    ensures
        be32(be_bytes(n)[0], be_bytes(n)[1], be_bytes(n)[2], be_bytes(n)[3]) == n,
{
    let m = n as u64;
    assert((m / 0x1000000 % 0x100) * 0x1000000 + (m / 0x10000 % 0x100) * 0x10000 + (m / 0x100
        % 0x100) * 0x100 + (m % 0x100) == m) by (bit_vector)
        requires
            m <= 0xFFFFFFFFu64,
    ;
}

/// A full frame followed by anything decodes to exactly that payload,
/// leaving the rest.
pub proof fn lemma_frame_bytes_decode(p: Seq<u8>, rest: Seq<u8>, max: nat)
    requires
        p.len() <= max,
        p.len() <= 0xFFFFFFFF,
    ensures
        frame_complete(frame_bytes(p) + rest, max),
        frame_payload(frame_bytes(p) + rest) == p,
        frame_rest(frame_bytes(p) + rest) == rest,
{
    let buf = frame_bytes(p) + rest;
    lemma_be_bytes(p.len());
    assert(declared_len(buf) == p.len());
    assert(frame_payload(buf) =~= p);
    assert(frame_rest(buf) =~= rest);
}

/// Chunk-boundary independence of the whole decode, one step at a
/// time.  Bytes arriving later never change an already decodable
/// frame: a complete frame stays complete with the same payload (so
/// every payload-determined outcome -- syntax error, shape error,
/// message, or dropped frame -- is the same) and the rest gains
/// exactly the appended bytes; an oversized declaration stays
/// oversized with the same declared length; and on an incomplete
/// prefix the decoder leaves the buffer untouched, so the next call
/// sees precisely the bytes of a one-shot delivery.  The codec holds
/// no other state, so the outcome sequence of any split delivery
/// equals that of delivering the bytes at once.
pub proof fn lemma_frame_decode_append(a: Seq<u8>, b: Seq<u8>, max: nat)
    ensures
        frame_complete(a, max) ==> frame_complete(a + b, max) && frame_payload(a + b)
            == frame_payload(a) && frame_rest(a + b) == frame_rest(a) + b,
        frame_too_large(a, max) ==> frame_too_large(a + b, max) && declared_len(a + b)
            == declared_len(a),
{
    if a.len() >= 4 {
        assert(declared_len(a + b) == declared_len(a));
        if frame_complete(a, max) {
            assert(frame_payload(a + b) =~= frame_payload(a));
            assert(frame_rest(a + b) =~= frame_rest(a) + b);
        }
    }
}

/// The framing stage.  It holds only configuration; all buffered
/// bytes stay in the caller's buffer.
#[derive(Clone, Copy, Debug)]
pub struct FrameCodec {
    pub max_frame_len: usize,
}

impl FrameCodec {
    /// A framing codec with the default maximum frame size.
    pub fn new() -> (r: Self)
        ensures
            r.max_frame_len == DEFAULT_MAX_FRAME_LEN,
    {
        FrameCodec { max_frame_len: DEFAULT_MAX_FRAME_LEN }
    }

    /// A framing codec with the given maximum frame size.
    pub fn with_max_frame_len(max_frame_len: usize) -> (r: Self)
        ensures
            r.max_frame_len == max_frame_len,
    {
        FrameCodec { max_frame_len }
    }

    /// Takes one frame off the front of `src` if a whole one is
    /// buffered; otherwise asks for more bytes, or rejects an
    /// oversized declaration outright, in both cases leaving `src`
    /// untouched.
    pub fn decode(&self, src: &mut Vec<u8>) -> (r: Result<DecodeStep<Vec<u8>>, CodecError>)
        ensures
            frame_incomplete(old(src)@, self.max_frame_len as nat) ==> (r matches Ok(s)
                && s is Incomplete) && final(src)@ == old(src)@,
            frame_too_large(old(src)@, self.max_frame_len as nat) ==> (r matches Err(e)
                && e matches CodecError::FrameTooLarge { declared, limit } && declared as nat
                == declared_len(old(src)@) && limit == self.max_frame_len) && final(src)@ == old(src)@,
            frame_complete(old(src)@, self.max_frame_len as nat) ==> (r matches Ok(s)
                && s matches DecodeStep::Item(p) && p@ == frame_payload(old(src)@)) && final(src)@
                == frame_rest(old(src)@),
    {
        let n = src.len();
        if n < 4 {
            return Ok(DecodeStep::Incomplete);
        }
        let b0 = src[0];
        let b1 = src[1];
        let b2 = src[2];
        let b3 = src[3];
        let need: u64 = (b0 as u64) * 16777216 + (b1 as u64) * 65536 + (b2 as u64) * 256 + (
        b3 as u64);
        proof {
            assert(need as nat == declared_len(src@));
        }
        if need > self.max_frame_len as u64 {
            return Err(
                CodecError::FrameTooLarge { declared: need as usize, limit: self.max_frame_len },
            );
        }
        let len = need as usize;
        if n - 4 < len {
            return Ok(DecodeStep::Incomplete);
        }
        let mut payload: Vec<u8> = Vec::new();
        let mut i: usize = 0;
        while i < len
            invariant
                i <= len,
                n == src@.len(),
                len + 4 <= src@.len(),
                payload@ == src@.subrange(4, 4 + i as int),
            decreases len - i,
        {
            payload.push(src[4 + i]);
            proof {
                assert(payload@ =~= src@.subrange(4, 4 + (i + 1)));
            }
            i = i + 1;
        }
        let mut rest: Vec<u8> = Vec::new();
        let mut j: usize = 4 + len;
        while j < n
            invariant
                4 + len <= j <= n,
                n == src@.len(),
                rest@ == src@.subrange(4 + len as int, j as int),
            decreases n - j,
        {
            rest.push(src[j]);
            proof {
                assert(rest@ =~= src@.subrange(4 + len as int, j + 1));
            }
            j = j + 1;
        }
        proof {
            assert(payload@ =~= frame_payload(src@));
            assert(rest@ =~= frame_rest(src@));
        }
        *src = rest;
        Ok(DecodeStep::Item(payload))
    }

    /// Appends the whole frame for `item` to `dst`, or fails before
    /// touching `dst` if the payload exceeds the configured maximum
    /// or the prefix width.
    pub fn encode(&self, item: Vec<u8>, dst: &mut Vec<u8>) -> (r: Result<(), CodecError>)
        ensures
            item@.len() <= self.max_frame_len && item@.len() <= 0xFFFFFFFF ==> r is Ok
                && final(dst)@ == old(dst)@ + frame_bytes(item@),
            !(item@.len() <= self.max_frame_len && item@.len() <= 0xFFFFFFFF) ==> (r matches Err(e)
                && e matches CodecError::FrameTooLarge { declared, limit } && declared == item@.len()
                && limit == self.max_frame_len) && final(dst)@ == old(dst)@,
    {
        let len = item.len();
        if len > self.max_frame_len {
            return Err(CodecError::FrameTooLarge { declared: len, limit: self.max_frame_len });
        }
        if (len as u64) > 4294967295u64 {
            return Err(CodecError::FrameTooLarge { declared: len, limit: self.max_frame_len });
        }
        let m = len as u64;
        let b0 = ((m / 16777216) % 256) as u8;
        let b1 = ((m / 65536) % 256) as u8;
        let b2 = ((m / 256) % 256) as u8;
        let b3 = (m % 256) as u8;
        dst.push(b0);
        dst.push(b1);
        dst.push(b2);
        dst.push(b3);
        let mut i: usize = 0;
        while i < len
            invariant
                i <= len,
                len == item@.len(),
                dst@ == old(dst)@ + be_bytes(item@.len()) + item@.subrange(0, i as int),
            decreases len - i,
        {
            dst.push(item[i]);
            proof {
                assert(dst@ =~= old(dst)@ + be_bytes(item@.len()) + item@.subrange(0, i + 1));
            }
            i = i + 1;
        }
        proof {
            assert(dst@ =~= old(dst)@ + frame_bytes(item@));
        }
        Ok(())
    }
}

} // verus!
