//! Consistent Overhead Byte Stuffing (COBS).
//!
//! `Cobs::encode` turns an arbitrary byte payload into a zero-free body
//! followed by a single zero delimiter, so that zero can serve as an
//! unambiguous packet boundary on a byte stream. A `Cobs` decoder consumes a
//! possibly fragmented stream of such frames, buffering incomplete data
//! across calls, and reconstructs the payloads.

mod codec;
mod laws;
mod model;

pub use codec::Cobs;
pub use laws::feed_packets;
pub use laws::feed_state;
pub use laws::lemma_feed_append;
pub use laws::lemma_feed_chunks;
pub use laws::lemma_fragmentation_invariance;
pub use laws::lemma_frame_delimiter;
pub use laws::lemma_leftover_zero_free;
pub use laws::lemma_malformed_recovery;
pub use laws::lemma_round_trip;
pub use laws::lemma_two_frames;
pub use model::decode_frame;
pub use model::decode_groups;
pub use model::decoded_packets;
pub use model::encode_body;
pub use model::encode_frame;
pub use model::encode_run;
pub use model::leftover;
pub use model::round_trip_safe;
pub use model::run_len;
