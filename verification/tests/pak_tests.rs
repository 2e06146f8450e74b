use pakcodec::{
    decode_sections, pack, read_u64, unpack, write_u64, PakError, HEADER_SIZE, MAX_SECTION_COUNT,
    SECTION_SIZE,
};

fn le_u64(bytes: &[u8], pos: usize) -> u64 {
    let mut buf = [0u8; 8];
    buf.copy_from_slice(&bytes[pos..pos + 8]);
    u64::from_le_bytes(buf)
}

/// A payload that compresses but is not constant, so that a broken codec
/// that handed bytes through unchanged would be caught.
fn sample_payload(len: usize) -> Vec<u8> {
    let mut v = Vec::with_capacity(len);
    for i in 0..len {
        v.push(((i / 7) % 251) as u8);
    }
    v
}

#[test]
fn round_trip_one_byte() {
    let input = vec![0xABu8];
    let packed = pack(&input).unwrap();
    assert_eq!(le_u64(&packed, 0), 1);
    let output = unpack(&packed).unwrap();
    assert_eq!(output, input);
}

#[test]
fn round_trip_exactly_one_section() {
    let input = sample_payload(SECTION_SIZE as usize);
    let packed = pack(&input).unwrap();
    assert_eq!(le_u64(&packed, 0), 1);
    assert_eq!(unpack(&packed).unwrap(), input);
}

#[test]
fn round_trip_several_sections() {
    let input = sample_payload(3 * SECTION_SIZE as usize + 123);
    let packed = pack(&input).unwrap();
    assert_eq!(le_u64(&packed, 0), 4);
    assert_eq!(unpack(&packed).unwrap(), input);
}

#[test]
fn section_count_is_length_rounded_up() {
    for (len, expect) in [
        (1usize, 1u64),
        (2, 1),
        (SECTION_SIZE as usize - 1, 1),
        (SECTION_SIZE as usize, 1),
        (SECTION_SIZE as usize + 1, 2),
        (2 * SECTION_SIZE as usize, 2),
        (2 * SECTION_SIZE as usize + 5, 3),
    ] {
        let packed = pack(&sample_payload(len)).unwrap();
        assert_eq!(le_u64(&packed, 0), expect, "length {}", len);
    }
}

#[test]
fn offsets_start_after_header_and_increase() {
    let input = sample_payload(5 * SECTION_SIZE as usize + 17);
    let packed = pack(&input).unwrap();
    let count = le_u64(&packed, 0) as usize;
    assert_eq!(count, 6);
    let mut offsets = Vec::new();
    for i in 0..count {
        offsets.push(le_u64(&packed, 8 * (i + 1)));
    }
    assert_eq!(offsets[0], HEADER_SIZE);
    for i in 0..count - 1 {
        assert!(offsets[i] < offsets[i + 1]);
    }
}

#[test]
fn concrete_two_section_scenario() {
    let input = sample_payload(0x9000);
    let packed = pack(&input).unwrap();
    assert_eq!(le_u64(&packed, 0), 2);
    let c0 = miniz_oxide::deflate::compress_to_vec_zlib(&input[..0x8000], 1).len() as u64;
    assert_eq!(le_u64(&packed, 8), HEADER_SIZE);
    assert_eq!(le_u64(&packed, 16), HEADER_SIZE + c0);
    assert_eq!(unpack(&packed).unwrap(), input);
}

#[test]
fn empty_payload_packs_to_count_zero_which_unpack_rejects() {
    let packed = pack(&Vec::new()).unwrap();
    assert_eq!(packed.len() as u64, HEADER_SIZE);
    assert_eq!(le_u64(&packed, 0), 0);
    assert!(matches!(unpack(&packed), Err(PakError::BadSectionCount)));
}

#[test]
fn zero_section_count_is_rejected() {
    let stream = vec![0u8; 64];
    assert!(matches!(unpack(&stream), Err(PakError::BadSectionCount)));
}

#[test]
fn oversized_section_count_is_rejected() {
    let mut stream = vec![0u8; 64];
    stream[..8].copy_from_slice(&(MAX_SECTION_COUNT + 1).to_le_bytes());
    assert!(matches!(unpack(&stream), Err(PakError::BadSectionCount)));
}

#[test]
fn largest_section_count_is_not_rejected_as_count() {
    let mut stream = vec![0u8; 64];
    stream[..8].copy_from_slice(&MAX_SECTION_COUNT.to_le_bytes());
    // The count itself is admissible; the stream is far too short for its
    // table, which is a different failure.
    assert!(matches!(unpack(&stream), Err(PakError::TruncatedInput)));
}

#[test]
fn stream_shorter_than_count_field_is_truncated() {
    let stream = vec![1u8; 5];
    assert!(matches!(unpack(&stream), Err(PakError::TruncatedInput)));
}

#[test]
fn stream_shorter_than_table_is_truncated() {
    let mut stream = vec![0u8; 20];
    stream[..8].copy_from_slice(&2u64.to_le_bytes());
    assert!(matches!(unpack(&stream), Err(PakError::TruncatedInput)));
}

#[test]
fn non_increasing_offsets_are_truncated_input() {
    let mut stream = vec![0u8; 40];
    stream[..8].copy_from_slice(&2u64.to_le_bytes());
    stream[8..16].copy_from_slice(&30u64.to_le_bytes());
    stream[16..24].copy_from_slice(&25u64.to_le_bytes());
    assert!(matches!(unpack(&stream), Err(PakError::TruncatedInput)));
}

#[test]
fn last_offset_past_end_is_truncated_input() {
    let mut stream = vec![0u8; 40];
    stream[..8].copy_from_slice(&1u64.to_le_bytes());
    stream[8..16].copy_from_slice(&40u64.to_le_bytes());
    assert!(matches!(unpack(&stream), Err(PakError::TruncatedInput)));
}

#[test]
fn undecodable_section_reports_its_index() {
    let mut stream = vec![0u8; 64];
    stream[..8].copy_from_slice(&1u64.to_le_bytes());
    stream[8..16].copy_from_slice(&16u64.to_le_bytes());
    for i in 16..64 {
        stream[i] = 0xFF;
    }
    match unpack(&stream) {
        Err(PakError::DecodeError { section, message: _ }) => assert_eq!(section, 0),
        other => panic!("expected a decode error, got {:?}", other),
    }
}

#[test]
fn second_undecodable_section_reports_index_one() {
    // Section 0 is a genuine compressed chunk; section 1 is garbage.
    let payload = sample_payload(100);
    let good = miniz_oxide::deflate::compress_to_vec_zlib(&payload, 1);
    let table_end = 8 * 3;
    let off0 = HEADER_SIZE;
    let off1 = HEADER_SIZE + good.len() as u64;
    let mut stream = vec![0u8; HEADER_SIZE as usize];
    stream[..8].copy_from_slice(&2u64.to_le_bytes());
    stream[8..16].copy_from_slice(&off0.to_le_bytes());
    stream[16..24].copy_from_slice(&off1.to_le_bytes());
    assert!(table_end <= HEADER_SIZE as usize);
    stream.extend_from_slice(&good);
    stream.extend_from_slice(&[0xFFu8; 32]);
    match unpack(&stream) {
        Err(PakError::DecodeError { section, message: _ }) => assert_eq!(section, 1),
        other => panic!("expected a decode error, got {:?}", other),
    }
}

#[test]
fn unpack_twice_gives_identical_output() {
    let input = sample_payload(2 * SECTION_SIZE as usize + 999);
    let packed = pack(&input).unwrap();
    let first = unpack(&packed).unwrap();
    let second = unpack(&packed).unwrap();
    assert_eq!(first, second);
    assert_eq!(first, input);
}

#[test]
fn decode_sections_lists_offsets_and_sizes() {
    let input = sample_payload(2 * SECTION_SIZE as usize + 40);
    let packed = pack(&input).unwrap();
    let sections = decode_sections(&packed).unwrap();
    assert_eq!(sections.len(), 3);
    assert_eq!(sections[0].offset, HEADER_SIZE);
    for i in 0..2 {
        assert_eq!(
            sections[i].size,
            sections[i + 1].offset - sections[i].offset
        );
    }
    assert_eq!(
        sections[2].offset + sections[2].size,
        packed.len() as u64
    );
    for s in &sections {
        assert!(s.size > 0);
    }
}

#[test]
fn read_write_u64_round_trip() {
    let mut buf = vec![7u8; 24];
    write_u64(&mut buf, 8, 0x0123_4567_89AB_CDEF);
    assert_eq!(read_u64(&buf, 8), 0x0123_4567_89AB_CDEF);
    // Bytes outside the written window are untouched.
    assert_eq!(&buf[..8], &[7u8; 8]);
    assert_eq!(&buf[16..], &[7u8; 8]);
    assert_eq!(buf[8], 0xEF);
    assert_eq!(buf[15], 0x01);
}

#[test]
fn header_padding_is_zero() {
    let input = sample_payload(10);
    let packed = pack(&input).unwrap();
    let table_end = 8 * 2;
    for i in table_end..HEADER_SIZE as usize {
        assert_eq!(packed[i], 0, "padding byte {}", i);
    }
}
