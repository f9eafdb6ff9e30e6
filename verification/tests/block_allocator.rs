use bionic_graph::storage::block_allocator::BlockAllocator;

fn empty_bitmap() -> [u8; 32] {
    let mut b = [0u8; 32];
    b[0] = 0x01; // bit 0 = header
    b
}

#[test]
fn test_alloc_one_chunk() {
    let mut bm = empty_bitmap();
    let mut offset = 0u8;
    // Bit 1 = first data chunk → data offset 1
    let off = BlockAllocator::alloc_chunks(&mut bm, &mut offset, 1);
    assert_eq!(off, Some(1));
    assert!(BlockAllocator::test_bit(&bm, 1));
}

#[test]
fn test_alloc_frees_and_reallocates() {
    let mut bm = empty_bitmap();
    let mut offset = 0u8;
    let off1 = BlockAllocator::alloc_chunks(&mut bm, &mut offset, 2).unwrap();
    assert_eq!(off1, 1); // first free data chunk at offset 1
    BlockAllocator::free_chunks(&mut bm, off1, 2);
    // The allocation cursor advanced past the freed region; a fresh
    // allocation continues from the cursor (3) instead of reusing [1,2].
    let off2 = BlockAllocator::alloc_chunks(&mut bm, &mut offset, 2).unwrap();
    assert_eq!(off2, 3);
    // Freed chunks are still reusable via the fallback scan with a
    // reset cursor.
    let mut offset2 = 0u8;
    let off3 = BlockAllocator::alloc_chunks(&mut bm, &mut offset2, 2).unwrap();
    assert_eq!(off3, 1);
}

#[test]
fn test_block_full() {
    let mut bm = empty_bitmap();
    let mut offset = 0u8;
    // Fill all 255 data chunks: offsets 1..=255
    for expected_off in 1u8..=255u8 {
        let off = BlockAllocator::alloc_chunks(&mut bm, &mut offset, 1).unwrap();
        assert_eq!(off, expected_off);
    }
    assert!(BlockAllocator::is_block_full(&bm));
    assert!(BlockAllocator::alloc_chunks(&mut bm, &mut offset, 1).is_none());
}

#[test]
fn test_block_empty() {
    let bm = empty_bitmap();
    assert!(BlockAllocator::is_block_empty(&bm));
}

#[test]
fn block_empty_ignores_header_bit() {
    let zero = [0u8; 32];
    assert!(BlockAllocator::is_block_empty(&zero));
    let mut bm = [0u8; 32];
    bm[31] = 0x80;
    assert!(!BlockAllocator::is_block_empty(&bm));
    let mut bm2 = [0u8; 32];
    bm2[0] = 0x03;
    assert!(!BlockAllocator::is_block_empty(&bm2));
}

#[test]
fn test_chunk_count() {
    let mut bm = empty_bitmap();
    let mut offset = 0u8;
    assert_eq!(BlockAllocator::chunk_count(&bm), 0);
    BlockAllocator::alloc_chunks(&mut bm, &mut offset, 3).unwrap();
    assert_eq!(BlockAllocator::chunk_count(&bm), 3);
}

#[test]
fn test_padded_length() {
    assert_eq!(BlockAllocator::padded_length(64), 64);
    assert_eq!(BlockAllocator::padded_length(65), 128);
    assert_eq!(BlockAllocator::padded_length(1), 64);
}

#[test]
fn test_chunks_needed() {
    assert_eq!(BlockAllocator::chunks_needed(1), 1);
    assert_eq!(BlockAllocator::chunks_needed(64), 1);
    assert_eq!(BlockAllocator::chunks_needed(65), 2);
    assert_eq!(BlockAllocator::chunks_needed(128), 2);
}
