//! Wire codec: length-delimited framing of a single message on a substream.
//!
//! Each substream carries exactly one message per direction. A message is
//! framed as a four-byte big-endian length prefix followed by exactly that
//! many payload bytes; the sender half-closes afterwards, so the reader
//! treats the end of the stream as the end of the message. The payload is an
//! opaque, canonical serialization of the application value, produced and
//! consumed by the facade; both peers must agree on it.
//!
//! Decoding failures (truncated or oversized frames, trailing bytes) are
//! reported as [`CodecError::InvalidData`]; transport errors never reach this
//! layer.

use vstd::prelude::*;

verus! {

/// Largest payload length that the four-byte prefix can express.
pub open spec fn max_frame_payload() -> nat {
    0xffff_ffff
}

/// Error of the codec: the bytes were not a well-formed frame within the cap.
#[derive(Clone, Copy, PartialEq, Eq, Structural, Debug)]
pub enum CodecError {
    InvalidData,
}

/// The four-byte big-endian encoding of a payload length.
pub open spec fn len_bytes(n: nat) -> Seq<u8> {
    seq![
        (n / 0x100_0000) as u8,
        ((n / 0x1_0000) % 0x100) as u8,
        ((n / 0x100) % 0x100) as u8,
        (n % 0x100) as u8,
    ]
}

/// The framed form of a payload: its length prefix followed by its bytes.
pub open spec fn frame_bytes(payload: Seq<u8>) -> Seq<u8> {
    len_bytes(payload.len()) + payload
}

/// Whether `bytes` is exactly the framed form of `payload`.
pub open spec fn valid_frame(bytes: Seq<u8>, payload: Seq<u8>) -> bool {
    &&& payload.len() <= max_frame_payload()
    &&& bytes == frame_bytes(payload)
}

/// What decoding a byte string under a payload cap yields: the unique payload
/// whose frame the bytes are, if the bytes are such a frame and the payload
/// is within the cap.
pub open spec fn spec_decode_frame(bytes: Seq<u8>, max_len: nat) -> Option<Seq<u8>> {
    if exists|p: Seq<u8>| valid_frame(bytes, p) && p.len() <= max_len {
        Some(choose|p: Seq<u8>| valid_frame(bytes, p) && p.len() <= max_len)
    } else {
        None
    }
}

/// A length below 2^32 is recovered from its four prefix bytes.
proof fn lemma_len_bytes_inverse(n: nat)
    requires
        n <= max_frame_payload(),
    ensures
        len_bytes(n)[0] * 0x100_0000 + len_bytes(n)[1] * 0x1_0000 + len_bytes(n)[2] * 0x100
            + len_bytes(n)[3] == n,
{
    assert((n / 0x100_0000) * 0x100_0000 + ((n / 0x1_0000) % 0x100) * 0x1_0000 + ((n / 0x100)
        % 0x100) * 0x100 + n % 0x100 == n) by (nonlinear_arith)
        requires
            n <= 0xffff_ffff,
    ;
}

/// Two payloads with the same frame are the same payload.
pub proof fn lemma_frame_injective(bytes: Seq<u8>, p1: Seq<u8>, p2: Seq<u8>)
    requires
        valid_frame(bytes, p1),
        valid_frame(bytes, p2),
    ensures
        p1 == p2,
{
    lemma_len_bytes_inverse(p1.len());
    lemma_len_bytes_inverse(p2.len());
    assert(len_bytes(p1.len())[0] == bytes[0] && len_bytes(p2.len())[0] == bytes[0]);
    assert(len_bytes(p1.len())[1] == bytes[1] && len_bytes(p2.len())[1] == bytes[1]);
    assert(len_bytes(p1.len())[2] == bytes[2] && len_bytes(p2.len())[2] == bytes[2]);
    assert(len_bytes(p1.len())[3] == bytes[3] && len_bytes(p2.len())[3] == bytes[3]);
    assert(p1.len() == p2.len());
    assert forall|i: int| 0 <= i < p1.len() implies p1[i] == p2[i] by {
        assert(bytes[i + 4] == frame_bytes(p1)[i + 4]);
        assert(bytes[i + 4] == frame_bytes(p2)[i + 4]);
    }
    assert(p1 =~= p2);
}

/// Encoding then decoding a payload yields the payload back: the frame of
/// `payload` decodes to `payload` under any cap that admits its length.
pub proof fn lemma_frame_round_trip(payload: Seq<u8>, max_len: nat)
    requires
        payload.len() <= max_frame_payload(),
        payload.len() <= max_len,
    ensures
        spec_decode_frame(frame_bytes(payload), max_len) == Some(payload),
{
    let bytes = frame_bytes(payload);
    assert(valid_frame(bytes, payload));
    let q = choose|p: Seq<u8>| valid_frame(bytes, p) && p.len() <= max_len;
    lemma_frame_injective(bytes, q, payload);
}

/// A payload above the cap is rejected: its frame decodes to nothing under
/// that cap.
pub proof fn lemma_frame_over_cap_rejected(payload: Seq<u8>, max_len: nat)
    requires
        payload.len() <= max_frame_payload(),
        payload.len() > max_len,
    ensures
        spec_decode_frame(frame_bytes(payload), max_len) is None,
{
    let bytes = frame_bytes(payload);
    assert forall|p: Seq<u8>| valid_frame(bytes, p) implies p.len() > max_len by {
        lemma_frame_injective(bytes, p, payload);
    }
}

/// Frame a payload for the wire: the four-byte length prefix, then the bytes.
pub fn encode_frame(payload: &Vec<u8>) -> (r: Vec<u8>)
    requires
        payload@.len() <= max_frame_payload(),
    ensures
        r@ == frame_bytes(payload@),
{
    let n: u64 = payload.len() as u64;
    let mut out: Vec<u8> = Vec::new();
    out.push((n / 0x100_0000) as u8);
    out.push(((n / 0x1_0000) % 0x100) as u8);
    out.push(((n / 0x100) % 0x100) as u8);
    out.push((n % 0x100) as u8);
    assert(out@ =~= len_bytes(payload@.len()));
    let mut i: usize = 0;
    while i < payload.len()
        invariant
            i <= payload@.len(),
            payload@.len() <= max_frame_payload(),
            out@ == len_bytes(payload@.len()) + payload@.subrange(0, i as int),
        decreases payload@.len() - i,
    {
        out.push(payload[i]);
        i = i + 1;
        assert(out@ =~= len_bytes(payload@.len()) + payload@.subrange(0, i as int));
    }
    assert(out@ =~= frame_bytes(payload@));
    out
}

/// Read back the one message framed in `bytes`, rejecting frames whose
/// payload exceeds `max_len` and any byte string that is not exactly one
/// well-formed frame.
pub fn decode_frame(bytes: &Vec<u8>, max_len: usize) -> (r: Result<Vec<u8>, CodecError>)
    ensures
        match r {
            Ok(p) => spec_decode_frame(bytes@, max_len as nat) == Some(p@),
            Err(e) => spec_decode_frame(bytes@, max_len as nat) is None && e
                == CodecError::InvalidData,
        },
{
    if bytes.len() < 4 {
        assert(forall|p: Seq<u8>| !valid_frame(bytes@, p));
        return Err(CodecError::InvalidData);
    }
    let b0: u64 = bytes[0] as u64;
    let b1: u64 = bytes[1] as u64;
    let b2: u64 = bytes[2] as u64;
    let b3: u64 = bytes[3] as u64;
    let n: u64 = b0 * 0x100_0000 + b1 * 0x1_0000 + b2 * 0x100 + b3;
    proof {
        lemma_len_bytes_mul(b0 as nat, b1 as nat, b2 as nat, b3 as nat);
    }
    assert(len_bytes(n as nat) =~= bytes@.subrange(0, 4));
    if n > max_len as u64 {
        proof {
            reject_unless_payload_is(bytes@, n as nat, max_len as nat);
        }
        return Err(CodecError::InvalidData);
    }
    if bytes.len() - 4 != (n as usize) {
        proof {
            reject_unless_payload_is(bytes@, n as nat, max_len as nat);
        }
        return Err(CodecError::InvalidData);
    }
    let mut payload: Vec<u8> = Vec::new();
    let mut i: usize = 4;
    while i < bytes.len()
        invariant
            4 <= i <= bytes@.len(),
            payload@ == bytes@.subrange(4, i as int),
        decreases bytes@.len() - i,
    {
        payload.push(bytes[i]);
        i = i + 1;
        assert(payload@ =~= bytes@.subrange(4, i as int));
    }
    proof {
        assert(bytes@ =~= len_bytes(payload@.len()) + payload@);
        assert(valid_frame(bytes@, payload@));
        let q = choose|p: Seq<u8>| valid_frame(bytes@, p) && p.len() <= max_len as nat;
        lemma_frame_injective(bytes@, q, payload@);
    }
    Ok(payload)
}

/// The four prefix bytes encode exactly the length they spell in base 256.
proof fn lemma_len_bytes_mul(b0: nat, b1: nat, b2: nat, b3: nat)
    requires
        b0 < 0x100,
        b1 < 0x100,
        b2 < 0x100,
        b3 < 0x100,
    ensures
        len_bytes(b0 * 0x100_0000 + b1 * 0x1_0000 + b2 * 0x100 + b3) == seq![
            b0 as u8,
            b1 as u8,
            b2 as u8,
            b3 as u8,
        ],
{
    let n = b0 * 0x100_0000 + b1 * 0x1_0000 + b2 * 0x100 + b3;
    assert(n / 0x100_0000 == b0 && (n / 0x1_0000) % 0x100 == b1 && (n / 0x100) % 0x100 == b2 && n
        % 0x100 == b3) by (nonlinear_arith)
        requires
            b0 < 0x100 && b1 < 0x100 && b2 < 0x100 && b3 < 0x100 && n == b0 * 0x100_0000 + b1
                * 0x1_0000 + b2 * 0x100 + b3,
    ;
    assert(len_bytes(n) =~= seq![b0 as u8, b1 as u8, b2 as u8, b3 as u8]);
}

/// If the prefix of `bytes` spells `n`, any payload framed by `bytes` has
/// length `n`; so if `n` is over the cap or disagrees with the remaining
/// byte count, nothing decodes.
proof fn reject_unless_payload_is(bytes: Seq<u8>, n: nat, max_len: nat)
    requires
        bytes.len() >= 4,
        n <= max_frame_payload(),
        len_bytes(n) == bytes.subrange(0, 4),
        n > max_len || bytes.len() - 4 != n,
    ensures
        spec_decode_frame(bytes, max_len) is None,
{
    assert forall|p: Seq<u8>| valid_frame(bytes, p) implies !(p.len() <= max_len) by {
        lemma_len_bytes_inverse(p.len());
        lemma_len_bytes_inverse(n);
        assert(len_bytes(p.len()) =~= bytes.subrange(0, 4));
        assert(p.len() == n);
        assert(bytes.len() - 4 == p.len());
    }
}

} // verus!
