//! Mathematical model of the COBS wire format.
//!
//! A frame is a sequence of (length-prefix, data) groups followed by a single
//! zero delimiter. A length-prefix `n` in `1..=255` announces `n - 1` data
//! bytes; a prefix other than `255` additionally stands for a zero byte of the
//! original payload ("implied zero"), while `255` marks a chunk split inside a
//! long zero-free run and stands for no payload byte at all.

use vstd::prelude::*;

verus! {

/// Length of the longest zero-free prefix of `s`; equivalently the index of
/// the first zero byte, or `s.len()` when `s` holds no zero.
pub open spec fn run_len(s: Seq<u8>) -> nat
    decreases s.len(),
{
    if s.len() == 0 || s[0] == 0 {
        0
    } else {
        (1 + run_len(s.skip(1))) as nat
    }
}

/// Encoding of one zero-free run of the payload: chunks of at most 254 data
/// bytes, each preceded by a length-prefix of chunk length + 1. An empty run
/// is the single prefix byte `1`.
pub open spec fn encode_run(s: Seq<u8>) -> Seq<u8>
    decreases s.len(),
{
    if s.len() == 0 {
        seq![1u8]
    } else if s.len() <= 254 {
        seq![(s.len() + 1) as u8] + s
    } else {
        seq![255u8] + s.take(254) + encode_run(s.skip(254))
    }
}

/// Zero-free body of the frame for payload `p`: the payload is split at every
/// zero byte (the zeros themselves are discarded) and each run is encoded in
/// order.
pub open spec fn encode_body(p: Seq<u8>) -> Seq<u8>
    decreases p.len(),
{
    let r = run_len(p) as int;
    if r >= p.len() {
        encode_run(p)
    } else {
        encode_run(p.take(r)) + encode_body(p.skip(r + 1))
    }
}

/// The complete frame for payload `p`: zero-free body plus the single zero
/// delimiter.
pub open spec fn encode_frame(p: Seq<u8>) -> Seq<u8> {
    encode_body(p) + seq![0u8]
}

/// The per-frame decoding state machine. `rem` is what is left of the frame
/// (always ending in the frame's zero delimiter until it is consumed) and
/// `out` the payload bytes accumulated so far. `None` means the frame is
/// malformed and yields no payload.
pub open spec fn decode_groups(rem: Seq<u8>, out: Seq<u8>) -> Option<Seq<u8>>
    decreases rem.len(),
{
    if rem.len() == 0 {
        None
    } else {
        let length = rem[0] as int;
        if length == 0 {
            None
        } else if rem.len() - 1 < length {
            None
        } else if exists|k: int| 1 <= k < length && rem[k] == 0 {
            None
        } else {
            let out2 = out + rem.subrange(1, length);
            let rest = rem.skip(length);
            if rest[0] == 0 {
                Some(out2)
            } else if length != 255 {
                decode_groups(rest, out2.push(0))
            } else {
                decode_groups(rest, out2)
            }
        }
    }
}

/// Decoding of one complete frame (body bytes up to and including its zero
/// delimiter): the payload, or `None` for a malformed frame.
pub open spec fn decode_frame(frame: Seq<u8>) -> Option<Seq<u8>> {
    decode_groups(frame, Seq::empty())
}

/// All payloads that a decoder drains from buffer `buf`: one candidate frame
/// per zero byte, in order; malformed frames are dropped silently.
pub open spec fn decoded_packets(buf: Seq<u8>) -> Seq<Seq<u8>>
    decreases buf.len(),
{
    let r = run_len(buf) as int;
    if r >= buf.len() {
        Seq::empty()
    } else {
        match decode_frame(buf.take(r + 1)) {
            Some(p) => seq![p] + decoded_packets(buf.skip(r + 1)),
            None => decoded_packets(buf.skip(r + 1)),
        }
    }
}

/// What remains in the decoder's buffer after draining every complete frame
/// from `buf`: the zero-free suffix after the last zero byte.
pub open spec fn leftover(buf: Seq<u8>) -> Seq<u8>
    decreases buf.len(),
{
    let r = run_len(buf) as int;
    if r >= buf.len() {
        buf
    } else {
        leftover(buf.skip(r + 1))
    }
}

/// Payloads whose frame decodes back to them exactly. A zero-free run whose
/// length is a positive multiple of 254 ends in a chunk with prefix `255`;
/// when a payload zero follows such a run, the prefix suppresses the implied
/// zero and that payload byte is lost, so such payloads are excluded.
pub open spec fn round_trip_safe(p: Seq<u8>) -> bool
    decreases p.len(),
{
    let r = run_len(p) as int;
    if r >= p.len() {
        true
    } else {
        (r == 0 || r % 254 != 0) && round_trip_safe(p.skip(r + 1))
    }
}

/// `run_len` is at most the length, everything before it is non-zero, and the
/// byte at it (when inside the sequence) is zero.
pub proof fn lemma_run_len_char(s: Seq<u8>)
    ensures
        run_len(s) <= s.len(),
        forall|k: int| 0 <= k < run_len(s) ==> s[k] != 0,
        run_len(s) < s.len() ==> s[run_len(s) as int] == 0,
    decreases s.len(),
{
    if s.len() == 0 || s[0] == 0 {
    } else {
        lemma_run_len_char(s.skip(1));
        assert forall|k: int| 0 <= k < run_len(s) implies s[k] != 0 by {
            if k > 0 {
                assert(s.skip(1)[k - 1] == s[k]);
            }
        }
        if run_len(s) < s.len() {
            assert(s.skip(1)[run_len(s) as int - 1] == s[run_len(s) as int]);
        }
    }
}

/// Converse characterization: an index `r` with only non-zero bytes before it
/// and a zero at it (or the end of the sequence) is `run_len(s)`.
pub proof fn lemma_run_len_from_char(s: Seq<u8>, r: nat)
    requires
        r <= s.len(),
        forall|k: int| 0 <= k < r ==> s[k] != 0,
        r < s.len() ==> s[r as int] == 0,
    ensures
        run_len(s) == r,
    decreases s.len(),
{
    if s.len() == 0 {
    } else if s[0] == 0 {
        assert(r == 0);
    } else {
        assert(r >= 1);
        assert forall|k: int| 0 <= k < r - 1 implies s.skip(1)[k] != 0 by {
            assert(s.skip(1)[k] == s[k + 1]);
        }
        if r - 1 < s.skip(1).len() {
            assert(s.skip(1)[r - 1] == s[r as int]);
        }
        lemma_run_len_from_char(s.skip(1), (r - 1) as nat);
    }
}

} // verus!
