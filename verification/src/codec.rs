//! Executable COBS encoder and streaming decoder.

use vstd::prelude::*;

use crate::model::decode_frame;
use crate::model::decode_groups;
use crate::model::decoded_packets;
use crate::model::encode_body;
use crate::model::encode_frame;
use crate::model::encode_run;
use crate::model::leftover;
use crate::model::lemma_run_len_from_char;
use crate::model::run_len;

verus! {

/// A streaming COBS decoder.
///
/// `bytes` buffers stream bytes that have been received but are not yet part
/// of a drained frame; it persists across `decode` calls so a frame split
/// over many chunks still decodes once its delimiter arrives.
pub struct Cobs {
    bytes: Vec<u8>,
}

impl View for Cobs {
    type V = Seq<u8>;

    closed spec fn view(&self) -> Seq<u8> {
        self.bytes@
    }
}

impl Default for Cobs {
    /// A decoder with an empty buffer.
    fn default() -> (r: Self)
        ensures
            r@ == Seq::<u8>::empty(),
    {
        let r = Cobs { bytes: Vec::new() };
        proof {
            assert(r@ =~= Seq::<u8>::empty());
        }
        r
    }
}

impl Cobs {
    /// Encodes one payload as a COBS frame.
    ///
    /// Returns the zero-free body followed by the single zero delimiter.
    pub fn encode(bytes: &[u8]) -> (r: Vec<u8>)
        ensures
            r@ == encode_frame(bytes@),
    {
        let n: usize = bytes.len();
        let mut output: Vec<u8> = Vec::new();
        let mut i: usize = 0;
        proof {
            assert(bytes@.skip(0) =~= bytes@);
            assert(output@ + encode_body(bytes@) + seq![0u8] =~= encode_body(bytes@)
                + seq![0u8]);
        }
        loop
            invariant_except_break
                i <= n,
                n == bytes@.len(),
                encode_frame(bytes@) == output@ + encode_body(bytes@.skip(i as int)) + seq![0u8],
            ensures
                encode_frame(bytes@) == output@ + seq![0u8],
            decreases n - i,
        {
            // Find the end of the zero-free run that starts at `i`.
            let mut j: usize = i;
            while j < n && bytes[j] != 0
                invariant
                    i <= j <= n,
                    n == bytes@.len(),
                    forall|k: int| i <= k < j ==> bytes@[k] != 0,
                decreases n - j,
            {
                j += 1;
            }
            let ghost s = bytes@.skip(i as int);
            proof {
                assert forall|k: int| 0 <= k < (j - i) implies s[k] != 0 by {
                    assert(s[k] == bytes@[i + k]);
                }
                if (j - i) < s.len() {
                    assert(s[(j - i) as int] == bytes@[j as int]);
                }
                lemma_run_len_from_char(s, (j - i) as nat);
            }
            let ghost out_seg = output@;
            let ghost tail = if j < n {
                encode_body(bytes@.skip(j as int + 1)) + seq![0u8]
            } else {
                seq![0u8]
            };
            let ghost seg = bytes@.subrange(i as int, j as int);
            proof {
                // encode_frame(bytes@) == out_seg + encode_run(seg) + tail
                if j == n {
                    assert(s =~= seg);
                    assert(encode_body(s) == encode_run(s));
                } else {
                    assert(s.take(j - i) =~= seg);
                    assert(s.skip(j - i + 1) =~= bytes@.skip(j as int + 1));
                    assert(encode_body(s) == encode_run(seg) + encode_body(
                        bytes@.skip(j as int + 1)));
                }
                assert(out_seg + encode_body(s) + seq![0u8] =~= out_seg + encode_run(seg)
                    + tail);
            }
            if j == i {
                output.push(1);
                proof {
                    assert(seg.len() == 0);
                    assert(encode_run(seg) == seq![1u8]);
                    assert(out_seg + encode_run(seg) + tail =~= output@ + tail);
                }
            } else {
                let mut k: usize = i;
                while k < j
                    invariant
                        i <= k <= j <= n,
                        n == bytes@.len(),
                        k < j ==> encode_frame(bytes@) == output@ + encode_run(
                            bytes@.subrange(k as int, j as int)) + tail,
                        k == j ==> encode_frame(bytes@) == output@ + tail,
                    decreases j - k,
                {
                    let ghost chunk_start = bytes@.subrange(k as int, j as int);
                    let ghost out_chunk = output@;
                    let rem: usize = j - k;
                    if rem <= 254 {
                        output.push((rem + 1) as u8);
                        let mut t: usize = k;
                        let ghost out_mid = output@;
                        while t < j
                            invariant
                                k <= t <= j <= n,
                                n == bytes@.len(),
                                output@ == out_mid + bytes@.subrange(k as int, t as int),
                            decreases j - t,
                        {
                            output.push(bytes[t]);
                            proof {
                                assert(bytes@.subrange(k as int, t + 1) =~= bytes@.subrange(
                                    k as int, t as int).push(bytes@[t as int]));
                            }
                            t += 1;
                        }
                        proof {
                            assert(encode_run(chunk_start) == seq![(rem + 1) as u8]
                                + chunk_start);
                            assert(out_chunk + encode_run(chunk_start) + tail =~= output@
                                + tail);
                        }
                        k = j;
                    } else {
                        output.push(255);
                        let mut t: usize = k;
                        let ghost out_mid = output@;
                        while t < k + 254
                            invariant
                                k <= t <= k + 254 <= j <= n,
                                n == bytes@.len(),
                                output@ == out_mid + bytes@.subrange(k as int, t as int),
                            decreases k + 254 - t,
                        {
                            output.push(bytes[t]);
                            proof {
                                assert(bytes@.subrange(k as int, t + 1) =~= bytes@.subrange(
                                    k as int, t as int).push(bytes@[t as int]));
                            }
                            t += 1;
                        }
                        proof {
                            assert(chunk_start.take(254) =~= bytes@.subrange(k as int, k
                                + 254));
                            assert(chunk_start.skip(254) =~= bytes@.subrange(k + 254,
                                j as int));
                            assert(encode_run(chunk_start) == seq![255u8] + chunk_start.take(
                                254) + encode_run(chunk_start.skip(254)));
                            assert(out_chunk + encode_run(chunk_start) + tail =~= output@
                                + encode_run(bytes@.subrange(k + 254, j as int)) + tail);
                        }
                        k += 254;
                    }
                }
            }
            if j == n {
                proof {
                    assert(output@ + tail =~= output@ + seq![0u8]);
                }
                break;
            } else {
                proof {
                    assert(output@ + tail =~= output@ + encode_body(bytes@.skip(j as int
                        + 1)) + seq![0u8]);
                }
                i = j + 1;
            }
        }
        output.push(0);
        proof {
            assert(encode_frame(bytes@) =~= output@);
        }
        output
    }
    /// Feeds one chunk of the stream into the decoder.
    ///
    /// The chunk is appended to the buffer; every complete frame (bytes up to
    /// and including a zero delimiter) is then drained from the buffer's
    /// front and decoded. Returns the payloads of the well-formed frames in
    /// order, or `None` when no frame completed in this call; malformed
    /// frames are dropped silently.
    pub fn decode(&mut self, bytes: &[u8]) -> (r: Option<Vec<Vec<u8>>>)
        ensures
            final(self)@ == leftover(old(self)@ + bytes@),
            match r {
                Some(packets) => packets.deep_view() == decoded_packets(old(self)@ + bytes@)
                    && packets@.len() > 0,
                None => decoded_packets(old(self)@ + bytes@) == Seq::<Seq<u8>>::empty(),
            },
    {
        self.bytes.extend_from_slice(bytes);
        proof {
            assert(self.bytes@ =~= old(self)@ + bytes@);
        }
        let ghost buf0 = self.bytes@;
        let mut packets: Vec<Vec<u8>> = Vec::new();
        proof {
            assert(packets.deep_view() =~= Seq::<Seq<u8>>::empty());
            assert(packets.deep_view() + decoded_packets(buf0) =~= decoded_packets(buf0));
        }
        loop
            invariant_except_break
                decoded_packets(buf0) == packets.deep_view() + decoded_packets(self.bytes@),
                leftover(buf0) == leftover(self.bytes@),
            ensures
                decoded_packets(buf0) == packets.deep_view(),
                leftover(buf0) == self.bytes@,
            decreases self.bytes@.len(),
        {
            let n: usize = self.bytes.len();
            let mut pos: usize = 0;
            while pos < n && self.bytes[pos] != 0
                invariant
                    pos <= n,
                    n == self.bytes@.len(),
                    forall|k: int| 0 <= k < pos ==> self.bytes@[k] != 0,
                decreases n - pos,
            {
                pos += 1;
            }
            if pos == n {
                proof {
                    lemma_run_len_from_char(self.bytes@, n as nat);
                    assert(decoded_packets(self.bytes@) == Seq::<Seq<u8>>::empty());
                    assert(packets.deep_view() + Seq::<Seq<u8>>::empty()
                        =~= packets.deep_view());
                    assert(leftover(self.bytes@) == self.bytes@);
                }
                break;
            }
            proof {
                lemma_run_len_from_char(self.bytes@, pos as nat);
            }
            let mut frame: Vec<u8> = Vec::new();
            let mut t: usize = 0;
            while t <= pos
                invariant
                    t <= pos + 1 <= n,
                    n == self.bytes@.len(),
                    frame@ == self.bytes@.subrange(0, t as int),
                decreases pos + 1 - t,
            {
                frame.push(self.bytes[t]);
                proof {
                    assert(self.bytes@.subrange(0, t + 1) =~= self.bytes@.subrange(0,
                        t as int).push(self.bytes@[t as int]));
                }
                t += 1;
            }
            let mut rest: Vec<u8> = Vec::new();
            let mut t2: usize = pos + 1;
            while t2 < n
                invariant
                    pos + 1 <= t2 <= n,
                    n == self.bytes@.len(),
                    rest@ == self.bytes@.subrange(pos + 1, t2 as int),
                decreases n - t2,
            {
                rest.push(self.bytes[t2]);
                proof {
                    assert(self.bytes@.subrange(pos + 1, t2 + 1) =~= self.bytes@.subrange(
                        pos + 1, t2 as int).push(self.bytes@[t2 as int]));
                }
                t2 += 1;
            }
            let ghost prev = self.bytes@;
            self.bytes = rest;
            proof {
                assert(frame@ =~= prev.take(pos + 1));
                assert(self.bytes@ =~= prev.skip(pos + 1));
                assert(run_len(prev) < prev.len());
            }
            let ghost packets_prev = packets.deep_view();
            let ghost packets_snap = packets@;
            match decode_one(frame.as_slice()) {
                Some(p) => {
                    proof {
                        assert(decoded_packets(prev) == seq![p@] + decoded_packets(
                            self.bytes@));
                    }
                    let ghost pv = p@;
                    packets.push(p);
                    proof {
                        assert forall|i: int| 0 <= i < packets_snap.len() implies
                            packets.deep_view()[i] == packets_prev[i] by {
                            assert(packets@[i] == packets_snap[i]);
                        }
                        assert(packets.deep_view()[packets_snap.len() as int] =~= pv);
                        assert(packets.deep_view() =~= packets_prev.push(pv));
                        assert(packets_prev + (seq![pv] + decoded_packets(self.bytes@))
                            =~= packets.deep_view() + decoded_packets(self.bytes@));
                    }
                }
                None => {
                    proof {
                        assert(decoded_packets(prev) == decoded_packets(self.bytes@));
                    }
                }
            }
        }
        if packets.len() == 0 {
            proof {
                assert(packets.deep_view() =~= Seq::<Seq<u8>>::empty());
            }
            None
        } else {
            Some(packets)
        }
    }
}

/// Decodes one complete frame (its zero delimiter included), following the
/// per-frame state machine: `None` for a malformed frame.
fn decode_one(frame: &[u8]) -> (r: Option<Vec<u8>>)
    ensures
        match r {
            Some(p) => decode_frame(frame@) == Some(p@),
            None => decode_frame(frame@) is None,
        },
{
    let n: usize = frame.len();
    let mut out: Vec<u8> = Vec::new();
    let mut idx: usize = 0;
    proof {
        assert(frame@.skip(0) =~= frame@);
        assert(out@ =~= Seq::<u8>::empty());
    }
    loop
        invariant
            idx <= n,
            n == frame@.len(),
            decode_groups(frame@.skip(idx as int), out@) == decode_frame(frame@),
        decreases n - idx,
    {
        let ghost rem = frame@.skip(idx as int);
        if idx >= n {
            return None;
        }
        let length = frame[idx];
        proof {
            assert(rem[0] == frame@[idx as int]);
        }
        if length == 0 {
            return None;
        }
        let li: usize = length as usize;
        if n - idx - 1 < li {
            return None;
        }
        let ghost out_group = out@;
        let mut t: usize = idx + 1;
        while t < idx + li
            invariant
                idx + 1 <= t <= idx + li,
                idx + li < n,
                1 <= li <= 255,
                li == frame@[idx as int] as int,
                n == frame@.len(),
                decode_groups(frame@.skip(idx as int), out_group) == decode_frame(frame@),
                out@ == out_group + frame@.subrange(idx + 1, t as int),
                forall|k: int| idx + 1 <= k < t ==> frame@[k] != 0,
            decreases idx + li - t,
        {
            if frame[t] == 0 {
                proof {
                    let rem_in = frame@.skip(idx as int);
                    assert(rem_in[0] == frame@[idx as int]);
                    assert(rem_in[t - idx] == frame@[t as int]);
                    assert(1 <= t - idx < li);
                    assert(decode_groups(rem_in, out_group) is None);
                }
                return None;
            }
            out.push(frame[t]);
            proof {
                assert(frame@.subrange(idx + 1, t + 1) =~= frame@.subrange(idx + 1,
                    t as int).push(frame@[t as int]));
            }
            t += 1;
        }
        proof {
            assert forall|k: int| 1 <= k < li implies rem[k] != 0 by {
                assert(rem[k] == frame@[idx + k]);
            }
            assert(!(exists|k: int| 1 <= k < rem[0] as int && rem[k] == 0));
            assert(rem.subrange(1, li as int) =~= frame@.subrange(idx + 1, idx + li));
            assert(rem.skip(li as int) =~= frame@.skip(idx + li));
        }
        idx += li;
        proof {
            assert(frame@.skip(idx as int)[0] == frame@[idx as int]);
        }
        if frame[idx] == 0 {
            return Some(out);
        }
        if length != 255 {
            out.push(0);
            proof {
                assert(out@ =~= (out_group + frame@.subrange(idx - li + 1, idx as int)).push(
                    0u8));
            }
        }
    }
}

} // verus!
