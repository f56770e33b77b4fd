//! The laws of the codec: the frame shape of `encode`, the round trip
//! through `decode`, and the behaviour of the streaming decoder under
//! fragmentation, back-to-back frames and malformed frames.

use vstd::prelude::*;

use crate::model::decode_frame;
use crate::model::decode_groups;
use crate::model::decoded_packets;
use crate::model::encode_body;
use crate::model::encode_frame;
use crate::model::encode_run;
use crate::model::leftover;
use crate::model::lemma_run_len_char;
use crate::model::lemma_run_len_from_char;
use crate::model::round_trip_safe;
use crate::model::run_len;

verus! {

/// The encoding of a zero-free run is non-empty and itself zero-free.
proof fn lemma_encode_run_zero_free(s: Seq<u8>)
    requires
        forall|k: int| 0 <= k < s.len() ==> s[k] != 0,
    ensures
        encode_run(s).len() >= 1,
        forall|k: int| 0 <= k < encode_run(s).len() ==> encode_run(s)[k] != 0,
    decreases s.len(),
{
    if s.len() == 0 {
        assert(encode_run(s) == seq![1u8]);
        assert(encode_run(s)[0] == 1);
    } else if s.len() <= 254 {
        assert forall|k: int| 0 <= k < encode_run(s).len() implies encode_run(s)[k] != 0 by {
            if k == 0 {
                assert(encode_run(s)[0] == (s.len() + 1) as u8);
            } else {
                assert(encode_run(s)[k] == s[k - 1]);
            }
        }
    } else {
        assert forall|k: int| 0 <= k < s.skip(254).len() implies s.skip(254)[k] != 0 by {
            assert(s.skip(254)[k] == s[k + 254]);
        }
        lemma_encode_run_zero_free(s.skip(254));
        assert forall|k: int| 0 <= k < encode_run(s).len() implies encode_run(s)[k] != 0 by {
            if k == 0 {
                assert(encode_run(s)[0] == 255);
            } else if k <= 254 {
                assert(encode_run(s)[k] == s.take(254)[k - 1]);
                assert(s.take(254)[k - 1] == s[k - 1]);
            } else {
                assert(encode_run(s)[k] == encode_run(s.skip(254))[k - 255]);
            }
        }
    }
}

/// The body of any frame is non-empty and zero-free.
proof fn lemma_encode_body_zero_free(p: Seq<u8>)
    ensures
        encode_body(p).len() >= 1,
        forall|k: int| 0 <= k < encode_body(p).len() ==> encode_body(p)[k] != 0,
    decreases p.len(),
{
    lemma_run_len_char(p);
    let r = run_len(p) as int;
    if r >= p.len() {
        lemma_encode_run_zero_free(p);
    } else {
        assert forall|k: int| 0 <= k < p.take(r).len() implies p.take(r)[k] != 0 by {
            assert(p.take(r)[k] == p[k]);
        }
        lemma_encode_run_zero_free(p.take(r));
        lemma_encode_body_zero_free(p.skip(r + 1));
        assert forall|k: int| 0 <= k < encode_body(p).len() implies encode_body(p)[k] != 0 by {
            if k < encode_run(p.take(r)).len() {
                assert(encode_body(p)[k] == encode_run(p.take(r))[k]);
            } else {
                assert(encode_body(p)[k] == encode_body(p.skip(r + 1))[k - encode_run(
                    p.take(r)).len()]);
            }
        }
    }
}

/// The frame of any payload ends in exactly one zero byte, and that final
/// delimiter is the only zero anywhere in the frame.
pub proof fn lemma_frame_delimiter(p: Seq<u8>)
    ensures
        encode_frame(p).len() >= 2,
        encode_frame(p)[encode_frame(p).len() - 1] == 0,
        forall|k: int| 0 <= k < encode_frame(p).len() - 1 ==> encode_frame(p)[k] != 0,
{
    lemma_encode_body_zero_free(p);
    let f = encode_frame(p);
    assert(f[f.len() - 1] == seq![0u8][0]);
    assert forall|k: int| 0 <= k < f.len() - 1 implies f[k] != 0 by {
        assert(f[k] == encode_body(p)[k]);
    }
}

/// Decoding the last run of a frame: the encoded run followed directly by the
/// delimiter completes the frame with the run's bytes appended to `out`.
proof fn lemma_decode_final_run(s: Seq<u8>, out: Seq<u8>)
    requires
        forall|k: int| 0 <= k < s.len() ==> s[k] != 0,
    ensures
        decode_groups(encode_run(s) + seq![0u8], out) == Some(out + s),
    decreases s.len(),
{
    let rem = encode_run(s) + seq![0u8];
    if s.len() == 0 {
        assert(rem =~= seq![1u8, 0u8]);
        assert(rem[0] == 1);
        assert(rem.skip(1)[0] == 0);
        assert(out + rem.subrange(1, 1) =~= out + s);
    } else if s.len() <= 254 {
        let c = s.len() + 1;
        assert(rem[0] == (seq![c as u8] + s)[0]);
        assert(rem[0] == c as u8);
        assert(rem.len() == s.len() + 2);
        assert forall|k: int| 1 <= k < c implies rem[k] != 0 by {
            assert(rem[k] == (seq![c as u8] + s)[k]);
            assert(rem[k] == s[k - 1]);
        }
        assert(rem.subrange(1, c as int) =~= s);
        assert(rem.skip(c as int) =~= seq![0u8]);
        assert(rem.skip(c as int)[0] == 0);
        assert(out + rem.subrange(1, c as int) =~= out + s);
    } else {
        assert forall|k: int| 0 <= k < s.skip(254).len() implies s.skip(254)[k] != 0 by {
            assert(s.skip(254)[k] == s[k + 254]);
        }
        lemma_encode_run_zero_free(s.skip(254));
        assert(rem =~= seq![255u8] + s.take(254) + (encode_run(s.skip(254)) + seq![0u8]));
        assert(rem[0] == 255);
        assert(rem.len() >= 257);
        assert forall|k: int| 1 <= k < 255 implies rem[k] != 0 by {
            assert(rem[k] == s.take(254)[k - 1]);
            assert(s.take(254)[k - 1] == s[k - 1]);
        }
        assert(rem.subrange(1, 255) =~= s.take(254));
        assert(rem.skip(255) =~= encode_run(s.skip(254)) + seq![0u8]);
        assert(rem.skip(255)[0] == encode_run(s.skip(254))[0]);
        assert(rem.skip(255)[0] != 0);
        lemma_decode_final_run(s.skip(254), out + s.take(254));
        assert(out + rem.subrange(1, 255) =~= out + s.take(254));
        assert(out + s.take(254) + s.skip(254) =~= out + s);
    }
}

/// Decoding a run that more groups follow (so the byte after it is not the
/// delimiter): a run of length not a positive multiple of 254 ends in a
/// prefix other than 255, so the decoder reinserts the implied zero and goes
/// on with the rest of the frame.
proof fn lemma_decode_mid_run(s: Seq<u8>, tail: Seq<u8>, out: Seq<u8>)
    requires
        forall|k: int| 0 <= k < s.len() ==> s[k] != 0,
        s.len() == 0 || s.len() % 254 != 0,
        tail.len() >= 1,
        tail[0] != 0,
    ensures
        decode_groups(encode_run(s) + tail, out) == decode_groups(tail, out + s + seq![0u8]),
    decreases s.len(),
{
    let rem = encode_run(s) + tail;
    if s.len() == 0 {
        assert(rem =~= seq![1u8] + tail);
        assert(rem[0] == 1);
        assert(rem.skip(1) =~= tail);
        let out2 = out + rem.subrange(1, 1);
        assert(out2.push(0) =~= out + s + seq![0u8]);
    } else if s.len() <= 254 {
        assert(s.len() < 254);
        let c = s.len() + 1;
        assert(c < 255);
        assert(rem[0] == (seq![c as u8] + s)[0]);
        assert(rem[0] == c as u8);
        assert forall|k: int| 1 <= k < c implies rem[k] != 0 by {
            assert(rem[k] == (seq![c as u8] + s)[k]);
            assert(rem[k] == s[k - 1]);
        }
        assert(rem.subrange(1, c as int) =~= s);
        assert(rem.skip(c as int) =~= tail);
        let out2 = out + rem.subrange(1, c as int);
        assert(out2.push(0) =~= out + s + seq![0u8]);
    } else {
        assert forall|k: int| 0 <= k < s.skip(254).len() implies s.skip(254)[k] != 0 by {
            assert(s.skip(254)[k] == s[k + 254]);
        }
        lemma_encode_run_zero_free(s.skip(254));
        assert(s.skip(254).len() == s.len() - 254);
        assert((s.len() - 254) % 254 != 0) by {
            assert(s.len() % 254 != 0);
            vstd::arithmetic::div_mod::lemma_mod_sub_multiples_vanish(
                s.len() as int, 254);
        }
        assert(rem =~= seq![255u8] + s.take(254) + (encode_run(s.skip(254)) + tail));
        assert(rem[0] == 255);
        assert(rem.len() >= 257);
        assert forall|k: int| 1 <= k < 255 implies rem[k] != 0 by {
            assert(rem[k] == s.take(254)[k - 1]);
            assert(s.take(254)[k - 1] == s[k - 1]);
        }
        assert(rem.subrange(1, 255) =~= s.take(254));
        assert(rem.skip(255) =~= encode_run(s.skip(254)) + tail);
        assert(rem.skip(255)[0] == encode_run(s.skip(254))[0]);
        assert(rem.skip(255)[0] != 0);
        lemma_decode_mid_run(s.skip(254), tail, out + s.take(254));
        assert(out + rem.subrange(1, 255) =~= out + s.take(254));
        assert(out + s.take(254) + s.skip(254) + seq![0u8] =~= out + s + seq![0u8]);
    }
}

/// Decoding a whole frame body with accumulator `out` yields `out` followed
/// by the payload, for every round-trip-safe payload.
proof fn lemma_decode_body(p: Seq<u8>, out: Seq<u8>)
    requires
        round_trip_safe(p),
    ensures
        decode_groups(encode_body(p) + seq![0u8], out) == Some(out + p),
    decreases p.len(),
{
    lemma_run_len_char(p);
    let r = run_len(p) as int;
    if r >= p.len() {
        lemma_decode_final_run(p, out);
    } else {
        let seg = p.take(r);
        let rest_p = p.skip(r + 1);
        assert forall|k: int| 0 <= k < seg.len() implies seg[k] != 0 by {
            assert(seg[k] == p[k]);
        }
        let tail = encode_body(rest_p) + seq![0u8];
        lemma_encode_body_zero_free(rest_p);
        assert(tail[0] == encode_body(rest_p)[0]);
        assert(tail[0] != 0);
        assert(seg.len() == r);
        lemma_decode_mid_run(seg, tail, out);
        assert(encode_body(p) + seq![0u8] =~= encode_run(seg) + tail);
        lemma_decode_body(rest_p, out + seg + seq![0u8]);
        assert(p[r] == 0);
        assert(out + seg + seq![0u8] + rest_p =~= out + p);
    }
}

/// Round trip: the frame of a round-trip-safe payload decodes back to
/// exactly that payload, as the single packet drained from a buffer holding
/// the frame, leaving the buffer empty.
pub proof fn lemma_round_trip(p: Seq<u8>)
    requires
        round_trip_safe(p),
    ensures
        decode_frame(encode_frame(p)) == Some(p),
        decoded_packets(encode_frame(p)) == seq![p],
        leftover(encode_frame(p)) == Seq::<u8>::empty(),
{
    lemma_decode_body(p, Seq::empty());
    assert(Seq::<u8>::empty() + p =~= p);
    let f = encode_frame(p);
    lemma_frame_delimiter(p);
    lemma_run_len_from_char(f, (f.len() - 1) as nat);
    assert(f.take(f.len() as int) =~= f);
    assert(f.skip(f.len() as int) =~= Seq::<u8>::empty());
    assert(run_len(Seq::<u8>::empty()) == 0);
    assert(decoded_packets(Seq::<u8>::empty()) == Seq::<Seq<u8>>::empty());
    assert(decoded_packets(f) =~= seq![p]);
    assert(leftover(Seq::<u8>::empty()) == Seq::<u8>::empty());
    assert(leftover(f) == leftover(f.skip(f.len() as int)));
}

/// The decoder's buffer invariant: what is left after draining every
/// complete frame holds no zero byte, so a later chunk can only complete a
/// frame, never re-deliver consumed bytes.
pub proof fn lemma_leftover_zero_free(buf: Seq<u8>)
    ensures
        forall|k: int| 0 <= k < leftover(buf).len() ==> leftover(buf)[k] != 0,
    decreases buf.len(),
{
    lemma_run_len_char(buf);
    let r = run_len(buf) as int;
    if r >= buf.len() {
        assert(leftover(buf) == buf);
    } else {
        lemma_leftover_zero_free(buf.skip(r + 1));
        assert(leftover(buf) == leftover(buf.skip(r + 1)));
    }
}

/// Feeding a buffer in two pieces equals feeding it at once: the packets of
/// `a + b` are those of `a` followed by those of `a`'s leftover extended by
/// `b`, and the leftovers agree likewise.
pub proof fn lemma_feed_append(a: Seq<u8>, b: Seq<u8>)
    ensures
        leftover(a + b) == leftover(leftover(a) + b),
        decoded_packets(a + b) == decoded_packets(a) + decoded_packets(leftover(a) + b),
    decreases a.len(),
{
    lemma_run_len_char(a);
    let r = run_len(a) as int;
    if r >= a.len() {
        assert(leftover(a) == a);
        assert(decoded_packets(a) == Seq::<Seq<u8>>::empty());
        assert(Seq::<Seq<u8>>::empty() + decoded_packets(a + b) =~= decoded_packets(a + b));
    } else {
        assert forall|k: int| 0 <= k < r implies (a + b)[k] != 0 by {
            assert((a + b)[k] == a[k]);
        }
        assert((a + b)[r] == a[r]);
        lemma_run_len_from_char(a + b, r as nat);
        assert((a + b).take(r + 1) =~= a.take(r + 1));
        assert((a + b).skip(r + 1) =~= a.skip(r + 1) + b);
        lemma_feed_append(a.skip(r + 1), b);
        assert(leftover(a) == leftover(a.skip(r + 1)));
        match decode_frame(a.take(r + 1)) {
            Some(p) => {
                assert(decoded_packets(a + b) == seq![p] + decoded_packets(a.skip(r + 1)
                    + b));
                assert(decoded_packets(a) == seq![p] + decoded_packets(a.skip(r + 1)));
                assert(seq![p] + (decoded_packets(a.skip(r + 1)) + decoded_packets(
                    leftover(a) + b)) =~= (seq![p] + decoded_packets(a.skip(r + 1)))
                    + decoded_packets(leftover(a) + b));
            },
            None => {
                assert(decoded_packets(a + b) == decoded_packets(a.skip(r + 1) + b));
                assert(decoded_packets(a) == decoded_packets(a.skip(r + 1)));
            },
        }
    }
}

/// Two frames fed back to back decode to their two payloads, in order.
pub proof fn lemma_two_frames(p1: Seq<u8>, p2: Seq<u8>)
    requires
        round_trip_safe(p1),
        round_trip_safe(p2),
    ensures
        decoded_packets(encode_frame(p1) + encode_frame(p2)) == seq![p1, p2],
        leftover(encode_frame(p1) + encode_frame(p2)) == Seq::<u8>::empty(),
{
    lemma_round_trip(p1);
    lemma_round_trip(p2);
    lemma_feed_append(encode_frame(p1), encode_frame(p2));
    assert(Seq::<u8>::empty() + encode_frame(p2) =~= encode_frame(p2));
    assert(seq![p1] + seq![p2] =~= seq![p1, p2]);
}

/// Malformed recovery: a corrupted frame (one whose span up to its delimiter
/// does not decode) followed by a well-formed frame yields exactly the
/// well-formed frame's payload; the corrupted frame is dropped silently.
pub proof fn lemma_malformed_recovery(junk: Seq<u8>, p: Seq<u8>)
    requires
        junk.len() >= 1,
        junk[junk.len() - 1] == 0,
        forall|k: int| 0 <= k < junk.len() - 1 ==> junk[k] != 0,
        decode_frame(junk) is None,
        round_trip_safe(p),
    ensures
        decoded_packets(junk + encode_frame(p)) == seq![p],
        leftover(junk + encode_frame(p)) == Seq::<u8>::empty(),
{
    lemma_round_trip(p);
    lemma_feed_append(junk, encode_frame(p));
    lemma_run_len_from_char(junk, (junk.len() - 1) as nat);
    assert(junk.take(junk.len() as int) =~= junk);
    assert(junk.skip(junk.len() as int) =~= Seq::<u8>::empty());
    assert(decoded_packets(Seq::<u8>::empty()) == Seq::<Seq<u8>>::empty());
    assert(leftover(Seq::<u8>::empty()) == Seq::<u8>::empty());
    assert(decoded_packets(junk) == Seq::<Seq<u8>>::empty());
    assert(leftover(junk) == Seq::<u8>::empty());
    assert(Seq::<u8>::empty() + encode_frame(p) =~= encode_frame(p));
    assert(Seq::<Seq<u8>>::empty() + seq![p] =~= seq![p]);
}

/// All packets returned when the chunks of `chunks` are fed, in order, to a
/// decoder whose buffer starts as `state`, concatenated over the calls.
pub open spec fn feed_packets(state: Seq<u8>, chunks: Seq<Seq<u8>>) -> Seq<Seq<u8>>
    decreases chunks.len(),
{
    if chunks.len() == 0 {
        Seq::empty()
    } else {
        decoded_packets(state + chunks[0]) + feed_packets(
            leftover(state + chunks[0]),
            chunks.skip(1),
        )
    }
}

/// The decoder's buffer after the chunks of `chunks` are fed, in order, to a
/// decoder whose buffer starts as `state`.
pub open spec fn feed_state(state: Seq<u8>, chunks: Seq<Seq<u8>>) -> Seq<u8>
    decreases chunks.len(),
{
    if chunks.len() == 0 {
        state
    } else {
        feed_state(leftover(state + chunks[0]), chunks.skip(1))
    }
}

/// Feeding chunk by chunk from a zero-free buffer equals feeding all the
/// bytes at once.
pub proof fn lemma_feed_chunks(state: Seq<u8>, chunks: Seq<Seq<u8>>)
    requires
        forall|k: int| 0 <= k < state.len() ==> state[k] != 0,
    ensures
        feed_packets(state, chunks) == decoded_packets(state + chunks.flatten()),
        feed_state(state, chunks) == leftover(state + chunks.flatten()),
    decreases chunks.len(),
{
    if chunks.len() == 0 {
        lemma_run_len_from_char(state, state.len());
        assert(state + chunks.flatten() =~= state);
        assert(decoded_packets(state) == Seq::<Seq<u8>>::empty());
        assert(feed_packets(state, chunks) =~= decoded_packets(state));
        assert(leftover(state) == state);
    } else {
        let c0 = chunks[0];
        let rest_flat = chunks.skip(1).flatten();
        assert(chunks.first() == c0);
        assert(chunks.drop_first() =~= chunks.skip(1));
        assert(chunks.flatten() == c0 + rest_flat);
        assert(state + chunks.flatten() =~= (state + c0) + rest_flat);
        lemma_feed_append(state + c0, rest_flat);
        lemma_leftover_zero_free(state + c0);
        lemma_feed_chunks(leftover(state + c0), chunks.skip(1));
        assert(decoded_packets(state) == Seq::<Seq<u8>>::empty()) by {
            lemma_run_len_from_char(state, state.len());
        }
        assert(decoded_packets((state + c0) + rest_flat) == decoded_packets(state + c0)
            + decoded_packets(leftover(state + c0) + rest_flat));
    }
}

/// Fragmentation invariance: however a frame of a round-trip-safe payload is
/// split into consecutive chunks, feeding the chunks one call at a time to a
/// fresh decoder returns exactly that payload over all the calls, and leaves
/// the buffer empty.
pub proof fn lemma_fragmentation_invariance(p: Seq<u8>, chunks: Seq<Seq<u8>>)
    requires
        round_trip_safe(p),
        chunks.flatten() == encode_frame(p),
    ensures
        feed_packets(Seq::empty(), chunks) == seq![p],
        feed_state(Seq::empty(), chunks) == Seq::<u8>::empty(),
{
    lemma_feed_chunks(Seq::empty(), chunks);
    assert(Seq::<u8>::empty() + chunks.flatten() =~= encode_frame(p));
    lemma_round_trip(p);
}

} // verus!
