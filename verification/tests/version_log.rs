use bionic_graph::storage::version_log::{
    encode_vlog, index_position, lookup_vertex_in_vlog, read_vlog, read_vlog_with_index,
    scan_range_for_vertex, VlogEntry, VlogError, VlogIndexEntry, VLOG_MAGIC,
};

fn make_record(version: u64) -> Vec<u8> {
    let mut r = b"record-".to_vec();
    r.extend_from_slice(&version.to_le_bytes());
    r
}

fn entry(vertex_id: u64, version: u64) -> VlogEntry {
    VlogEntry { vertex_id, version, record: make_record(version) }
}

fn encode(entries: &[VlogEntry]) -> (Vec<u8>, Vec<VlogIndexEntry>) {
    let est: Vec<usize> = entries.iter().map(|e| e.record.len()).collect();
    encode_vlog(entries, &est)
}

#[test]
fn test_write_and_read_vlog_v2() {
    let entries: Vec<VlogEntry> =
        (0..200u64).map(|i| entry(i % 10 + 1, i / 10 + 1)).collect();
    let (bytes, index) = encode(&entries);
    assert_eq!(index.len(), 4);
    assert!(!bytes.is_empty());

    let (loaded, read_index) = read_vlog_with_index(&bytes).unwrap();
    assert_eq!(loaded.len(), 200);
    assert!(!read_index.is_empty(), "Should have sparse index");
    assert_eq!(read_index, index);
    for (a, b) in loaded.iter().zip(entries.iter()) {
        assert_eq!(a.vertex_id, b.vertex_id);
        assert_eq!(a.version, b.version);
        assert_eq!(a.record, b.record);
    }
}

#[test]
fn test_lookup_by_vertex_id() {
    let mut entries = Vec::new();
    for v in 1..=3u64 {
        for ver in 1..=(6 - v) {
            entries.push(entry(v, ver));
        }
    }
    let (bytes, _) = encode(&entries);
    let results = lookup_vertex_in_vlog(&bytes, 2).unwrap();
    assert_eq!(results.len(), 4, "vertex 2 should have 4 versions");
    assert!(results.iter().all(|e| e.vertex_id == 2));
}

#[test]
fn test_v1_backward_compat() {
    let e = entry(99, 1);
    let mut data = VLOG_MAGIC.to_vec();
    data.extend_from_slice(&1u32.to_le_bytes()); // version = 1
    data.extend_from_slice(&1u32.to_le_bytes()); // count = 1
    data.extend_from_slice(&e.vertex_id.to_le_bytes());
    data.extend_from_slice(&e.version.to_le_bytes());
    data.extend_from_slice(&(e.record.len() as u32).to_le_bytes());
    data.extend_from_slice(&e.record);

    let (loaded, index) = read_vlog_with_index(&data).unwrap();
    assert_eq!(loaded.len(), 1);
    assert_eq!(loaded[0].vertex_id, 99);
    assert_eq!(loaded[0].record, e.record);
    assert!(index.is_empty(), "v1 should have no index");
}

#[test]
fn test_lookup_nonexistent_vertex() {
    let (bytes, _) = encode(&[entry(1, 1)]);
    let results = lookup_vertex_in_vlog(&bytes, 999).unwrap();
    assert!(results.is_empty());
}

#[test]
fn vlog_header_layout() {
    let (bytes, index) = encode(&[entry(5, 1), entry(6, 2)]);
    assert_eq!(&bytes[0..4], &VLOG_MAGIC);
    assert_eq!(&bytes[4..8], &2u32.to_le_bytes());
    assert_eq!(&bytes[8..12], &2u32.to_le_bytes());
    assert_eq!(&bytes[12..16], &64u32.to_le_bytes());
    assert_eq!(&bytes[16..20], &1u32.to_le_bytes());
    assert_eq!(index, vec![VlogIndexEntry { entry_idx: 0, file_offset: 40, first_vertex_id: 5 }]);
    assert_eq!(bytes.len(), 40 + 2 * (20 + 15));
}

#[test]
fn vlog_read_errors() {
    assert_eq!(read_vlog(&[0u8; 10]).unwrap_err(), VlogError::TooSmall);
    assert_eq!(read_vlog(&[0u8; 20]).unwrap_err(), VlogError::BadMagic);
    let mut data = VLOG_MAGIC.to_vec();
    data.extend_from_slice(&3u32.to_le_bytes());
    data.extend_from_slice(&[0u8; 12]);
    assert_eq!(read_vlog(&data).unwrap_err(), VlogError::UnsupportedVersion(3));

    let (mut bytes, _) = encode(&[entry(1, 1)]);
    bytes.truncate(bytes.len() - 1);
    assert_eq!(read_vlog(&bytes).unwrap_err(), VlogError::TruncatedPayload);
    assert_eq!(lookup_vertex_in_vlog(&bytes, 1).unwrap_err(), VlogError::TruncatedPayload);
}

#[test]
fn vlog_v1_header_only() {
    // A version 1 file of 20 bytes holds its count and one partial entry,
    // which is not read.
    let mut data = VLOG_MAGIC.to_vec();
    data.extend_from_slice(&1u32.to_le_bytes());
    data.extend_from_slice(&[0u8; 12]);
    let (loaded, index) = read_vlog_with_index(&data).unwrap();
    assert!(loaded.is_empty());
    assert!(index.is_empty());
}

#[test]
fn index_positions_in_sorted_index() {
    let idx: Vec<VlogIndexEntry> = [10u64, 20, 20, 30]
        .iter()
        .enumerate()
        .map(|(i, v)| VlogIndexEntry { entry_idx: i as u32, file_offset: 0, first_vertex_id: *v })
        .collect();
    assert_eq!(index_position(&idx, 5), None);
    assert_eq!(index_position(&idx, 10), Some(0));
    assert_eq!(index_position(&idx, 15), Some(0));
    assert_eq!(index_position(&idx, 20), Some(1));
    assert_eq!(index_position(&idx, 25), Some(2));
    assert_eq!(index_position(&idx, 99), Some(3));
    assert_eq!(index_position(&[], 1), None);
}

#[test]
fn lookup_scans_only_the_indexed_range() {
    // 130 entries sorted by vertex: three index entries, at 0, 64 and 128.
    let entries: Vec<VlogEntry> = (0..130u64).map(|i| entry(i / 10, i)).collect();
    let (bytes, index) = encode(&entries);
    assert_eq!(index.len(), 3);
    assert_eq!(index[1].first_vertex_id, 6);
    let found = lookup_vertex_in_vlog(&bytes, 8).unwrap();
    assert_eq!(found.len(), 10);
    assert!(found.iter().all(|e| e.vertex_id == 8));
    assert_eq!(found[0].version, 80);
}

#[test]
fn scan_range_filters_by_vertex() {
    let (bytes, _) = encode(&[entry(1, 1), entry(2, 1), entry(1, 2)]);
    let found = scan_range_for_vertex(&bytes[40..], 1);
    assert_eq!(found.len(), 2);
    assert_eq!(found[1].version, 2);
}
