//! The RPC transport's wire framing: length-prefixed binary messages
//! with a fixed-width little-endian header. Encoding a message body and
//! decoding it from a byte stream are exact inverses; sockets, typed
//! schemas and dispatch sit outside the library on top of these frames.

use vstd::prelude::*;
use vstd::bytes::{
    lemma_auto_spec_u64_to_from_le_bytes, spec_u64_from_le_bytes, spec_u64_to_le_bytes,
    u64_from_le_bytes, u64_to_le_bytes,
};

verus! {

/// A framed message: eight header bytes carrying the body length,
/// little-endian, then the body.
pub open spec fn spec_encode_frame(body: Seq<u8>) -> Seq<u8>
    recommends
        body.len() <= u64::MAX,
{
    spec_u64_to_le_bytes(body.len() as u64) + body
}

/// What a receive buffer decodes to: `None` while the header or body is
/// still incomplete, otherwise the body and how many bytes the frame
/// consumed.
pub open spec fn spec_decode_frame(data: Seq<u8>) -> Option<(Seq<u8>, int)> {
    if data.len() < 8 {
        None
    } else {
        let len = spec_u64_from_le_bytes(data.take(8)) as int;
        if data.len() - 8 < len {
            None
        } else {
            Some((data.subrange(8, 8 + len), 8 + len))
        }
    }
}

/// Frames one message body.
pub fn encode_frame(body: &Vec<u8>) -> (r: Vec<u8>)
    ensures
        r@ == spec_encode_frame(body@),
{
    let mut out = u64_to_le_bytes(body.len() as u64);
    let ghost header = out@;
    let mut i: usize = 0;
    proof {
        lemma_auto_spec_u64_to_from_le_bytes();
        assert(out@ =~= header + body@.take(0));
    }
    while i < body.len()
        invariant
            i <= body@.len(),
            out@ == header + body@.take(i as int),
        decreases body@.len() - i,
    {
        out.push(body[i]);
        proof {
            assert(out@ =~= header + body@.take(i as int + 1));
        }
        i += 1;
    }
    proof {
        assert(body@.take(body@.len() as int) == body@);
    }
    out
}

/// Decodes the frame at the head of a receive buffer, if it has arrived
/// whole: the body and the number of bytes consumed. An incomplete
/// header or body decodes to nothing; the caller reads on and retries.
pub fn decode_frame(data: &Vec<u8>) -> (r: Option<(Vec<u8>, usize)>)
    ensures
        match r {
            Some((body, consumed)) => spec_decode_frame(data@) matches Some(d) && d.0 == body@
                && d.1 == consumed,
            None => spec_decode_frame(data@) is None,
        },
{
    if data.len() < 8 {
        return None;
    }
    let mut header: Vec<u8> = Vec::new();
    let mut i: usize = 0;
    while i < 8
        invariant
            i <= 8,
            data@.len() >= 8,
            header@ == data@.take(i as int),
        decreases 8 - i,
    {
        header.push(data[i]);
        proof {
            assert(header@ =~= data@.take(i as int + 1));
        }
        i += 1;
    }
    let len = u64_from_le_bytes(header.as_slice());
    proof {
        assert(header@ == data@.take(8));
    }
    let total = data.len();
    if ((total - 8) as u64) < len {
        return None;
    }
    let body_len = len as usize;
    let mut body: Vec<u8> = Vec::new();
    let mut k: usize = 0;
    proof {
        assert(body@ =~= data@.subrange(8, 8int));
    }
    while k < body_len
        invariant
            k <= body_len,
            body_len == spec_u64_from_le_bytes(data@.take(8)),
            total == data@.len(),
            8 + body_len <= total,
            body@ == data@.subrange(8, 8 + k as int),
        decreases body_len - k,
    {
        body.push(data[8 + k]);
        proof {
            assert(body@ =~= data@.subrange(8, 8 + k as int + 1));
        }
        k += 1;
    }
    Some((body, 8 + body_len))
}

/// Framing round-trips: a receive buffer that starts with an encoded
/// frame decodes to exactly that body, consuming exactly the frame,
/// whatever else has already arrived behind it.
pub proof fn lemma_frame_round_trip(body: Seq<u8>, rest: Seq<u8>)
    requires
        body.len() <= u64::MAX,
    ensures
        spec_decode_frame(spec_encode_frame(body) + rest) == Some(
            (body, 8 + body.len() as int),
        ),
{
    lemma_auto_spec_u64_to_from_le_bytes();
    let data = spec_encode_frame(body) + rest;
    assert(data.take(8) =~= spec_u64_to_le_bytes(body.len() as u64));
    assert(spec_u64_from_le_bytes(data.take(8)) == body.len() as u64);
    assert(data.subrange(8, 8 + body.len() as int) =~= body);
}

} // verus!
