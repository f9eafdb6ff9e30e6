use bionic_graph::storage::bitmap_file::{is_bit_set, set_bit, BlockBitmap};

#[test]
fn test_create_and_alloc() {
    // A new, empty data file: one zero byte of bitmap, no blocks.
    let mut bf = BlockBitmap::new(vec![0u8; 1], 0);
    assert_eq!(bf.free_block_count(), 0);

    // Allocate: the free list is empty, so blocks 0..128 are added.
    assert_eq!(bf.take_free(), None);
    let start = 0u32;
    assert!(bf.grow_for(start));
    let idx = bf.fill_from(start);
    assert_eq!(idx, 0);
    assert_eq!(bf.free_block_count(), 127);
    assert_eq!(bf.bytes().len(), 16);
}

#[test]
fn test_mark_full_then_free() {
    let mut bf = BlockBitmap::new(vec![0u8; 2], 10);
    // Initially all 10 blocks are free.
    assert!(bf.free_block_count() > 0);
    assert_eq!(bf.free_list(), &[0, 1, 2, 3, 4, 5, 6, 7, 8, 9]);

    bf.mark_full_bits(3);
    bf.scan_for_free_blocks();
    assert!(!bf.free_list().contains(&3));
    assert!(is_bit_set(bf.bytes(), 3));

    assert!(bf.mark_free_bits(3));
    assert!(bf.free_list().contains(&3));
    assert!(!is_bit_set(bf.bytes(), 3));
    // Marking a free block free again changes nothing.
    assert!(!bf.mark_free_bits(3));
}

#[test]
fn free_list_skips_full_blocks_and_stays_sorted() {
    let mut bits = vec![0u8; 2];
    set_bit(&mut bits, 1, true);
    set_bit(&mut bits, 4, true);
    assert_eq!(bits, vec![0b0001_0010, 0]);
    let mut bf = BlockBitmap::new(bits, 6);
    assert_eq!(bf.free_list(), &[0, 2, 3, 5]);
    assert_eq!(bf.take_free(), Some(0));
    assert!(bf.mark_free_bits(4));
    assert_eq!(bf.free_list(), &[2, 3, 4, 5]);
}

#[test]
fn scan_refills_from_last_position() {
    let mut bf = BlockBitmap::new(vec![0u8; 2], 3);
    assert_eq!(bf.free_list(), &[0, 1, 2]);
    bf.mark_full_bits(0);
    bf.scan_for_free_blocks();
    // The scan resumes at block 2 and collects the zero bits after it.
    let list = bf.free_list().to_vec();
    assert!(!list.contains(&0));
    assert!(list.windows(2).all(|w| w[0] < w[1]));
    assert!(list.contains(&15));
    assert!(list.len() <= 128);
}

#[test]
fn bits_outside_the_bitmap() {
    let mut bits = vec![0u8; 1];
    set_bit(&mut bits, 100, true);
    assert_eq!(bits, vec![0]);
    assert!(!is_bit_set(&bits, 100));
}

#[test]
fn grow_only_when_needed() {
    let mut bf = BlockBitmap::new(vec![0u8; 32], 0);
    assert!(!bf.grow_for(0));
    assert_eq!(bf.bytes().len(), 32);
    assert!(bf.grow_for(200));
    assert_eq!(bf.bytes().len(), (200 + 128 + 7) / 8);
}
