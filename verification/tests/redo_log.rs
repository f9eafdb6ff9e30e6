use bionic_graph::storage::redo_log::{
    batch_bytes, decode_log, encode_entry, is_redo_file, parse_entry, plan_flush, FlushPlan,
    ParseStep, ReplayError, ReplayErrorKind, ENTRY_OVERHEAD, ROTATION_THRESHOLD,
};
use bionic_graph::storage::types::OpType;

#[test]
fn test_append_and_replay() {
    let mut log = encode_entry(OpType::VertexCreate, 1, b"hello");
    log.extend_from_slice(&encode_entry(OpType::EdgeCreate, 2, b"world"));

    let (entries, err) = decode_log(&log);
    assert!(err.is_none());
    assert_eq!(entries.len(), 2);
    assert_eq!(entries[0].op_type.to_u8(), OpType::VertexCreate.to_u8());
    assert_eq!(entries[0].op_id, 1);
    assert_eq!(&entries[0].data, b"hello");
    assert_eq!(entries[1].op_type.to_u8(), OpType::EdgeCreate.to_u8());
    assert_eq!(entries[1].op_id, 2);
    assert_eq!(&entries[1].data, b"world");
}

#[test]
fn test_crc_mismatch_detected() {
    let mut log = encode_entry(OpType::VertexCreate, 1, b"data");
    // Corrupt byte 0 (op_type).
    log[0] = 0xFF;
    let (entries, err) = decode_log(&log);
    assert!(entries.is_empty());
    assert!(err.is_some());
    match err.unwrap().kind {
        ReplayErrorKind::CrcMismatch { stored, computed } => assert_ne!(stored, computed),
        other => panic!("unexpected error {:?}", other),
    }
}

#[test]
fn test_batch_ordering() {
    let mut log = Vec::new();
    for i in 0..10u64 {
        log.extend_from_slice(&encode_entry(OpType::VertexCreate, i, b"batch-test"));
    }
    let (entries, err) = decode_log(&log);
    assert!(err.is_none());
    assert_eq!(entries.len(), 10);
    for (i, entry) in entries.iter().enumerate() {
        assert_eq!(entry.op_id, i as u64);
        assert_eq!(entry.op_type, OpType::VertexCreate);
    }
}

#[test]
fn encoded_entry_layout() {
    let bytes = encode_entry(OpType::EdgeCreate, 0x0102_0304_0506_0708, b"abc");
    assert_eq!(bytes.len(), ENTRY_OVERHEAD + 3);
    assert_eq!(bytes[0], 0x03);
    assert_eq!(&bytes[1..9], &[8, 7, 6, 5, 4, 3, 2, 1]);
    assert_eq!(&bytes[9..13], &[3, 0, 0, 0]);
    assert_eq!(&bytes[13..16], b"abc");
    let crc = crc32fast::hash(&bytes[..16]);
    assert_eq!(&bytes[16..20], &crc.to_le_bytes());
}

#[test]
fn entry_checksum_covers_data() {
    let a = encode_entry(OpType::VertexCreate, 7, b"x");
    let b = encode_entry(OpType::VertexCreate, 7, b"y");
    assert_ne!(&a[14..18], &b[14..18]);
}

#[test]
fn truncated_entry_is_reported_after_good_ones() {
    let mut log = encode_entry(OpType::VertexCreate, 1, b"one");
    let second = encode_entry(OpType::VertexDelete, 2, b"two");
    log.extend_from_slice(&second[..second.len() - 2]);
    let (entries, err) = decode_log(&log);
    assert_eq!(entries.len(), 1);
    assert_eq!(err, Some(ReplayError { seq: 1, kind: ReplayErrorKind::Truncated }));
}

#[test]
fn unknown_op_type_with_valid_checksum() {
    let mut body = vec![0x42u8];
    body.extend_from_slice(&9u64.to_le_bytes());
    body.extend_from_slice(&0u32.to_le_bytes());
    let crc = crc32fast::hash(&body);
    body.extend_from_slice(&crc.to_le_bytes());
    let (entries, err) = decode_log(&body);
    assert!(entries.is_empty());
    assert_eq!(err, Some(ReplayError { seq: 0, kind: ReplayErrorKind::UnknownOpType(0x42) }));
}

#[test]
fn short_tail_is_the_end_of_the_log() {
    let mut log = encode_entry(OpType::TokenCreate, 3, b"tok");
    log.extend_from_slice(&[1, 2, 3, 4, 5]);
    let (entries, err) = decode_log(&log);
    assert_eq!(entries.len(), 1);
    assert!(err.is_none());
    assert!(decode_log(&[]).0.is_empty());
}

#[test]
fn parse_entry_reports_next_position() {
    let log = encode_entry(OpType::VertexUpdate, 5, b"12345");
    match parse_entry(&log, 0) {
        ParseStep::Entry(e, next) => {
            assert_eq!(e.op_id, 5);
            assert_eq!(next, log.len());
        }
        _ => panic!("expected an entry"),
    }
    assert!(matches!(parse_entry(&log, log.len()), ParseStep::End));
}

#[test]
fn batch_bytes_sums_lengths() {
    let batch = vec![vec![0u8; 10], vec![0u8; 7], vec![]];
    assert_eq!(batch_bytes(&batch), Some(17));
    assert_eq!(batch_bytes(&Vec::new()), Some(0));
}

#[test]
fn flush_plan_rotation() {
    assert_eq!(
        plan_flush(100, 0, 0, ROTATION_THRESHOLD, true),
        FlushPlan { rotate_for_age: false, rotate_for_size: false, new_size: 100 }
    );
    assert_eq!(
        plan_flush(100, 2, 50, 1000, false),
        FlushPlan { rotate_for_age: false, rotate_for_size: false, new_size: 150 }
    );
    assert_eq!(
        plan_flush(990, 2, 50, 1000, false),
        FlushPlan { rotate_for_age: false, rotate_for_size: true, new_size: 50 }
    );
    assert_eq!(
        plan_flush(990, 2, 50, 1000, true),
        FlushPlan { rotate_for_age: true, rotate_for_size: false, new_size: 50 }
    );
}

#[test]
fn redo_file_names() {
    assert!(is_redo_file("redo_00000000000000000001.log"));
    assert!(!is_redo_file("redo"));
    assert!(!is_redo_file("data.bin"));
}

/// CRC-32 (IEEE) one bit at a time, as the library's contracts define it.
fn crc32_bitwise(bytes: &[u8]) -> u32 {
    let mut c: u32 = 0xFFFF_FFFF;
    for &b in bytes {
        c ^= b as u32;
        for _ in 0..8 {
            c = if c & 1 == 1 { (c >> 1) ^ 0xEDB8_8320 } else { c >> 1 };
        }
    }
    c ^ 0xFFFF_FFFF
}

#[test]
fn entry_checksum_is_the_ieee_crc32() {
    assert_eq!(crc32_bitwise(b"hello world"), 0x0D4A_1185);
    for data in [&b""[..], b"abc", b"hello world", &[0xFFu8; 40][..]] {
        let bytes = encode_entry(OpType::VertexUpdate, 77, data);
        let n = bytes.len();
        assert_eq!(&bytes[n - 4..], &crc32_bitwise(&bytes[..n - 4]).to_le_bytes());
    }
}
