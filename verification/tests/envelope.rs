use borg_extract::envelope::next_attempt;
use borg_extract::envelope::unpack_data;
use borg_extract::envelope::Attempt;
use borg_extract::envelope::BlockError;
use borg_extract::envelope::EnvelopeError;
use borg_extract::envelope::MAX_BUFFER;

fn lz4_blob(payload: &[u8]) -> Vec<u8> {
    let mut blob = vec![0x02, 0x01, 0x00];
    blob.extend_from_slice(&lz4::block::compress(payload, None, false).unwrap());
    blob
}

#[test]
fn uncompressed_envelope_unwraps_to_payload() {
    let blob = vec![0x02, 0x00, 0x00, b'h', b'i'];
    assert_eq!(unpack_data(&blob), Ok(b"hi".to_vec()));
}

#[test]
fn uncompressed_envelope_may_be_empty() {
    assert_eq!(unpack_data(&[0x02, 0x00, 0x00]), Ok(Vec::new()));
}

#[test]
fn uncompressed_round_trip_keeps_every_byte() {
    let payload: Vec<u8> = (0..=255u8).collect();
    let mut blob = vec![0x02, 0x00, 0x00];
    blob.extend_from_slice(&payload);
    assert_eq!(unpack_data(&blob), Ok(payload));
}

#[test]
fn unsupported_encryption_is_refused() {
    let blob = vec![0x03, 0x00, 0x00, b'h', b'i'];
    assert_eq!(unpack_data(&blob), Err(EnvelopeError::UnsupportedEncryption));
}

#[test]
fn short_header_is_truncated() {
    assert_eq!(unpack_data(&[]), Err(EnvelopeError::Truncated));
    assert_eq!(unpack_data(&[0x02]), Err(EnvelopeError::Truncated));
    assert_eq!(unpack_data(&[0x02, 0x00]), Err(EnvelopeError::Truncated));
}

#[test]
fn short_header_is_reported_before_the_encryption_tag() {
    assert_eq!(unpack_data(&[0x03, 0x00]), Err(EnvelopeError::Truncated));
}

#[test]
fn unknown_compression_is_refused() {
    assert_eq!(
        unpack_data(&[0x02, 0x02, 0x00, 1, 2, 3]),
        Err(EnvelopeError::UnsupportedCompression)
    );
    // The tag is little-endian: 0x0100 is not LZ4.
    assert_eq!(
        unpack_data(&[0x02, 0x00, 0x01, 1, 2, 3]),
        Err(EnvelopeError::UnsupportedCompression)
    );
}

#[test]
fn encryption_is_checked_before_compression() {
    assert_eq!(
        unpack_data(&[0x05, 0x09, 0x09]),
        Err(EnvelopeError::UnsupportedEncryption)
    );
}

#[test]
fn lz4_envelope_round_trips() {
    let payload = b"hello from file.txt".to_vec();
    let blob = lz4_blob(&payload);
    assert_ne!(&blob[3..], &payload[..]);
    assert_eq!(unpack_data(&blob), Ok(payload));
}

#[test]
fn lz4_envelope_round_trips_mixed_data() {
    let mut payload = Vec::new();
    let mut state: u32 = 12345;
    for _ in 0..4000 {
        state = state.wrapping_mul(1_103_515_245).wrapping_add(12345);
        payload.push((state >> 16) as u8);
    }
    let blob = lz4_blob(&payload);
    assert_eq!(unpack_data(&blob), Ok(payload));
}

#[test]
fn lz4_payload_over_three_times_its_block_fails() {
    // The first buffer is three times the block, and the decoder reports a
    // payload that does not fit as a failure, not as a refusal.
    let payload = vec![0u8; 1000];
    let blob = lz4_blob(&payload);
    assert!((blob.len() - 3) * 3 < payload.len());
    assert_eq!(unpack_data(&blob), Err(EnvelopeError::Lz4Failed));
}

#[test]
fn lz4_garbage_fails() {
    let blob = vec![0x02, 0x01, 0x00, 0xff, 0xff, 0xff, 0xff, 0xff];
    assert_eq!(unpack_data(&blob), Err(EnvelopeError::Lz4Failed));
}

#[test]
fn lz4_without_block_fails() {
    assert_eq!(unpack_data(&[0x02, 0x01, 0x00]), Err(EnvelopeError::Lz4Failed));
}

#[test]
fn lz4_block_over_a_third_of_the_cap_is_too_large() {
    let mut blob = vec![0u8; MAX_BUFFER / 3 + 1 + 3];
    blob[0] = 0x02;
    blob[1] = 0x01;
    assert_eq!(unpack_data(&blob), Err(EnvelopeError::TooLarge));
}

#[test]
fn cap_is_128_mib() {
    assert_eq!(MAX_BUFFER, 128 * 1024 * 1024);
    assert_eq!(MAX_BUFFER, 1 << 27);
}

#[test]
fn attempt_with_payload_is_done() {
    assert_eq!(next_attempt(10, Ok(vec![1, 2, 3])), Attempt::Done(vec![1, 2, 3]));
}

#[test]
fn failed_attempt_gives_up() {
    assert_eq!(
        next_attempt(10, Err(BlockError::Failed)),
        Attempt::GiveUp(EnvelopeError::Lz4Failed)
    );
}

#[test]
fn refused_attempt_grows_by_half() {
    assert_eq!(next_attempt(3, Err(BlockError::Refused)), Attempt::Retry(4));
    assert_eq!(next_attempt(100, Err(BlockError::Refused)), Attempt::Retry(150));
    assert_eq!(next_attempt(101, Err(BlockError::Refused)), Attempt::Retry(151));
    assert_eq!(next_attempt(2, Err(BlockError::Refused)), Attempt::Retry(3));
}

#[test]
fn refused_attempt_stops_at_the_cap() {
    // 89478485 * 3 / 2 = 134217727 is the last size within the cap.
    assert_eq!(
        next_attempt(89_478_485, Err(BlockError::Refused)),
        Attempt::Retry(134_217_727)
    );
    assert_eq!(
        next_attempt(89_478_486, Err(BlockError::Refused)),
        Attempt::GiveUp(EnvelopeError::TooLarge)
    );
    assert_eq!(
        next_attempt(MAX_BUFFER, Err(BlockError::Refused)),
        Attempt::GiveUp(EnvelopeError::TooLarge)
    );
    assert_eq!(
        next_attempt(usize::MAX, Err(BlockError::Refused)),
        Attempt::GiveUp(EnvelopeError::TooLarge)
    );
}

#[test]
fn refused_attempt_that_cannot_grow_gives_up() {
    assert_eq!(
        next_attempt(0, Err(BlockError::Refused)),
        Attempt::GiveUp(EnvelopeError::Lz4Failed)
    );
    assert_eq!(
        next_attempt(1, Err(BlockError::Refused)),
        Attempt::GiveUp(EnvelopeError::Lz4Failed)
    );
}
