use bionic_graph::storage::index_file::{
    alloc_in_block, read_chunk2_at, read_chunk_at, scan_block, write_chunk_at, EdgeIndexRecord,
    TokenIndexRecord, VertexIndexRecord,
};
use bionic_graph::storage::memory_index_builder::scan_data_block;
use bionic_graph::storage::types::{BlockHeader, ChunkType, DataHeader, DataStatus, BLOCK_SIZE};

/// A freshly appended index block: its header reserves chunk 0.
fn fresh_block() -> Box<[u8; BLOCK_SIZE]> {
    let mut block = Box::new([0u8; BLOCK_SIZE]);
    BlockHeader::fresh().encode(&mut block);
    block
}

fn vertex_bytes(rec: &VertexIndexRecord) -> [u8; 128] {
    let mut buf = [0u8; 128];
    rec.encode(&mut buf);
    buf
}

/// Allocate in the last block, appending a fresh one when it is full.
fn alloc_record(blocks: &mut Vec<Box<[u8; BLOCK_SIZE]>>, num_chunks: u8, data: &[u8]) -> (usize, u8) {
    if blocks.is_empty() {
        blocks.push(fresh_block());
    }
    for i in (0..blocks.len()).rev() {
        if let Some(c) = alloc_in_block(&mut blocks[i], num_chunks, data) {
            return (i, c);
        }
    }
    blocks.push(fresh_block());
    let last = blocks.len() - 1;
    let c = alloc_in_block(&mut blocks[last], num_chunks, data).expect("fresh block must have free chunks");
    (last, c)
}

#[test]
fn test_vertex_record_roundtrip() {
    let mut blocks = Vec::new();
    let rec = VertexIndexRecord::new(42, 7, 3, 128);
    let (block, chunk) = alloc_record(&mut blocks, 2, &vertex_bytes(&rec));
    assert_eq!((block, chunk), (0, 1));

    let read_back = VertexIndexRecord::decode(&read_chunk2_at(&blocks[block], chunk));
    assert_eq!(read_back.vertex_id, 42);
    assert_eq!(read_back.data_block_idx, 7);
    assert_eq!(read_back.data_chunk_offset, 3);
    assert_eq!(read_back.data_len, 128);
    assert_eq!(read_back.status, DataStatus::Normal);
    assert_eq!(read_back, rec);
}

#[test]
fn test_edge_record_roundtrip() {
    let mut blocks = Vec::new();
    let rec = EdgeIndexRecord::new(100, 1, 2, 0, 1, 64);
    let mut buf = [0u8; 128];
    rec.encode(&mut buf);
    let (block, chunk) = alloc_record(&mut blocks, 2, &buf);

    let read_back = EdgeIndexRecord::decode(&read_chunk2_at(&blocks[block], chunk));
    assert_eq!(read_back.edge_id, 100);
    assert_eq!(read_back.source, 1);
    assert_eq!(read_back.target, 2);
}

#[test]
fn test_token_record_roundtrip() {
    let mut blocks = Vec::new();
    let rec = TokenIndexRecord::new(5, "hello", 0, 1, 12);
    let mut buf = [0u8; 64];
    rec.encode(&mut buf);
    let (block, chunk) = alloc_record(&mut blocks, 1, &buf);

    let read_back = TokenIndexRecord::decode(&read_chunk_at(&blocks[block], chunk));
    assert_eq!(read_back.token_id, 5);
    assert_eq!(read_back.token_str(), "hello");
}

#[test]
fn test_scan_records() {
    let mut blocks = Vec::new();
    for vid in 0..3 {
        let rec = VertexIndexRecord::new(vid, 0, 1, 64);
        alloc_record(&mut blocks, 2, &vertex_bytes(&rec));
    }
    let mut count = 0;
    for block in &blocks {
        for (_chunk, data) in scan_block(block) {
            if data[0] == ChunkType::Vertex.to_u8() {
                let buf: &[u8; 128] = data.as_slice().try_into().unwrap();
                let rec = VertexIndexRecord::decode(buf);
                assert_eq!(rec.vertex_id, count);
                count += 1;
            }
        }
    }
    assert_eq!(count, 3);
}

#[test]
fn test_delete_record() {
    let mut blocks = Vec::new();
    let rec = VertexIndexRecord::new(1, 0, 1, 64);
    let (block, chunk) = alloc_record(&mut blocks, 2, &vertex_bytes(&rec));

    // Delete it.
    write_chunk_at(&mut blocks[block], chunk, &[0u8; 64]);

    // Should read as empty chunk type.
    let read_back = VertexIndexRecord::decode(&read_chunk2_at(&blocks[block], chunk));
    assert_eq!(read_back.chunk_type, ChunkType::Empty);
    assert!(scan_block(&blocks[block]).is_empty());
}

#[test]
fn test_multiple_blocks() {
    let mut blocks = Vec::new();
    let n = 300u32;
    for i in 0..n {
        let rec = VertexIndexRecord::new(i, 0, 1, 64);
        alloc_record(&mut blocks, 2, &vertex_bytes(&rec));
    }
    assert!(blocks.len() >= 2);

    let mut found = Vec::new();
    for block in &blocks {
        for (_chunk, data) in scan_block(block) {
            if data[0] == ChunkType::Vertex.to_u8() {
                let buf: &[u8; 128] = data.as_slice().try_into().unwrap();
                found.push(VertexIndexRecord::decode(buf).vertex_id);
            }
        }
    }
    found.sort();
    assert_eq!(found.len(), n as usize);
    for i in 0..n {
        assert_eq!(found[i as usize], i);
    }
}

#[test]
fn full_block_is_left_unchanged() {
    let mut block = fresh_block();
    let mut count = 0;
    while alloc_in_block(&mut block, 2, &[1u8; 128]).is_some() {
        count += 1;
    }
    assert_eq!(count, 127);
    let before = block.clone();
    assert_eq!(alloc_in_block(&mut block, 2, &[1u8; 128]), None);
    assert_eq!(block, before);
    // The last chunk still takes a one-chunk record.
    assert_eq!(alloc_in_block(&mut block, 1, &[3u8; 64]), Some(255));
    assert_eq!(alloc_in_block(&mut block, 1, &[3u8; 64]), None);
}

#[test]
fn names_are_nul_terminated() {
    let mut rec = VertexIndexRecord::new(1, 0, 1, 64);
    rec.set_name("alice");
    assert_eq!(rec.get_name(), "alice");
    let back = VertexIndexRecord::decode(&vertex_bytes(&rec));
    assert_eq!(back.get_name(), "alice");
    let long = "x".repeat(100);
    rec.set_name(&long);
    assert_eq!(rec.get_name().len(), 63);
}

#[test]
fn long_names_read_back_as_their_first_63_bytes() {
    let mut rec = VertexIndexRecord::new(1, 0, 1, 64);
    let long: String = (0..80).map(|i| (b'a' + (i % 26) as u8) as char).collect();
    rec.set_name(&long);
    assert_eq!(rec.get_name(), &long[..63]);
}

#[test]
fn data_block_records_are_found_with_payloads() {
    let mut block = fresh_block();
    // A vertex with a 10-byte payload (one chunk) and an edge with a
    // 100-byte payload (three chunks).
    let v = DataHeader::new_vertex_at(7, 10, 1);
    let mut rec = vec![0u8; 64 + 10];
    let mut h = [0u8; 64];
    v.encode(&mut h);
    rec[..64].copy_from_slice(&h);
    rec[64..].copy_from_slice(b"0123456789");
    rec.resize(128, 0);
    let c1 = alloc_in_block(&mut block, 2, &rec).unwrap();

    let e = DataHeader::new_edge_at(9, 100, 2);
    e.encode(&mut h);
    let mut first = [0u8; 64];
    first.copy_from_slice(&h);
    let c2 = alloc_in_block(&mut block, 1, &first).unwrap();
    let c3 = alloc_in_block(&mut block, 2, &[5u8; 128]).unwrap();
    assert_eq!((c1, c2, c3), (1, 3, 4));

    let found = scan_data_block(&block);
    assert_eq!(found.len(), 2);
    assert_eq!(found[0].chunk_offset, 1);
    assert_eq!(found[0].header, v);
    assert_eq!(found[0].payload, b"0123456789".to_vec());
    assert_eq!(found[1].chunk_offset, 3);
    assert_eq!(found[1].header.entity_id, 9);
    assert_eq!(found[1].payload, vec![5u8; 100]);
}
