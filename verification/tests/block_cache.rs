use std::cell::{Cell, RefCell};

use bionic_graph::storage::block_cache::{BlockShard, CacheStats, ShardedBlockCache};
use bionic_graph::storage::types::BLOCK_SIZE;

fn load(i: u32) -> Result<[u8; BLOCK_SIZE], String> {
    Ok([i as u8; BLOCK_SIZE])
}

fn first_byte(cache: &ShardedBlockCache, idx: u32) -> Option<u8> {
    cache.peek_block(idx, |o| o.map(|d| d[0]))
}

#[test]
fn miss_then_hit() {
    let mut cache = ShardedBlockCache::new(4, 1);
    let loads = Cell::new(0);
    let no_flush = |_: u32, _: &[u8; BLOCK_SIZE]| Ok::<(), String>(());
    let data = cache
        .read_block_data(7, |i| { loads.set(loads.get() + 1); load(i) }, &no_flush)
        .unwrap();
    assert_eq!(data[0], 7);
    let again = cache
        .read_block_data(7, |i| { loads.set(loads.get() + 1); load(i) }, &no_flush)
        .unwrap();
    assert_eq!(again[100], 7);
    assert_eq!(loads.get(), 1);
    assert_eq!(cache.stats(), CacheStats { hits: 1, misses: 1, evictions: 0, dirty_flushes: 0 });
    assert_eq!(cache.len(), 1);
}

#[test]
fn lru_eviction_prefers_clean_blocks_and_writes_dirty_back() {
    let mut cache = ShardedBlockCache::new(2, 1);
    let flushed = RefCell::new(Vec::new());
    let flusher = |i: u32, d: &[u8; BLOCK_SIZE]| {
        flushed.borrow_mut().push((i, d[0]));
        Ok::<(), String>(())
    };

    cache.write_block_data(1, &[0xAA; BLOCK_SIZE], load, &flusher).unwrap();
    cache.read_block_data(2, load, &flusher).unwrap();
    // Full: the least recently used clean block (2) goes, not the dirty 1.
    cache.read_block_data(3, load, &flusher).unwrap();
    assert_eq!(first_byte(&cache, 2), None);
    assert_eq!(first_byte(&cache, 1), Some(0xAA));
    cache.read_block_data(4, load, &flusher).unwrap();
    assert_eq!(first_byte(&cache, 3), None);
    assert!(flushed.borrow().is_empty());

    // Both cached blocks dirty: the least recently used one is written back.
    cache.write_block_data(4, &[0xBB; BLOCK_SIZE], load, &flusher).unwrap();
    cache.read_block_data(5, load, &flusher).unwrap();
    assert_eq!(*flushed.borrow(), vec![(1, 0xAA)]);
    assert_eq!(first_byte(&cache, 1), None);
    assert_eq!(cache.stats(), CacheStats { hits: 1, misses: 5, evictions: 3, dirty_flushes: 1 });

    assert_eq!(cache.flush_dirty(&flusher), Ok(1));
    assert_eq!(*flushed.borrow(), vec![(1, 0xAA), (4, 0xBB)]);
    assert_eq!(cache.flush_dirty(&flusher), Ok(0));
    assert_eq!(cache.stats().dirty_flushes, 2);
}

#[test]
fn read_after_write_sees_the_write() {
    let mut cache = ShardedBlockCache::new(8, 4);
    let no_flush = |_: u32, _: &[u8; BLOCK_SIZE]| Ok::<(), String>(());
    let mut data = [0u8; BLOCK_SIZE];
    data[10] = 42;
    cache.write_block_data(9, &data, load, &no_flush).unwrap();
    let back = cache.read_block_data(9, load, &no_flush).unwrap();
    assert_eq!(back[10], 42);
    assert_eq!(back[0], 0);
}

#[test]
fn loader_error_is_handed_back() {
    let mut cache = ShardedBlockCache::new(2, 1);
    let no_flush = |_: u32, _: &[u8; BLOCK_SIZE]| Ok::<(), String>(());
    let r = cache.read_block_data(3, |_| Err::<[u8; BLOCK_SIZE], String>("disk".to_string()), &no_flush);
    assert_eq!(r.unwrap_err(), "disk");
    assert_eq!(cache.len(), 0);
    assert_eq!(cache.stats().misses, 1);
}

#[test]
fn flush_error_keeps_blocks_dirty() {
    let mut cache = ShardedBlockCache::new(4, 1);
    let ok = |_: u32, _: &[u8; BLOCK_SIZE]| Ok::<(), String>(());
    cache.write_block_data(1, &[1; BLOCK_SIZE], load, &ok).unwrap();
    let failing = |_: u32, _: &[u8; BLOCK_SIZE]| Err::<(), String>("io".to_string());
    assert_eq!(cache.flush_dirty(&failing), Err("io".to_string()));
    assert_eq!(cache.flush_dirty(&ok), Ok(1));
}

#[test]
fn remove_drops_dirty_blocks() {
    let mut cache = ShardedBlockCache::new(4, 2);
    let ok = |_: u32, _: &[u8; BLOCK_SIZE]| Ok::<(), String>(());
    cache.write_block_data(3, &[3; BLOCK_SIZE], load, &ok).unwrap();
    cache.remove(3);
    assert_eq!(first_byte(&cache, 3), None);
    assert_eq!(cache.flush_dirty(&ok), Ok(0));
    assert_eq!(cache.len(), 0);
}

#[test]
fn shards_split_by_low_bits() {
    let mut cache = ShardedBlockCache::new(4, 2);
    let ok = |_: u32, _: &[u8; BLOCK_SIZE]| Ok::<(), String>(());
    // Two blocks per shard: the even blocks never evict the odd ones.
    for i in [0u32, 2, 4] {
        cache.read_block_data(i, load, &ok).unwrap();
    }
    cache.read_block_data(1, load, &ok).unwrap();
    assert_eq!(cache.len(), 3);
    assert_eq!(first_byte(&cache, 0), None);
    assert_eq!(first_byte(&cache, 1), Some(1));
    assert_eq!(cache.stats().evictions, 1);
}

#[test]
fn shard_level_operations() {
    let mut shard = BlockShard::new(1);
    let ok = |_: u32, _: &[u8; BLOCK_SIZE]| Ok::<(), String>(());
    shard.ensure_loaded(5, load, &ok).unwrap();
    assert_eq!(shard.read_block(5, |o| o.map(|d| d[0])), Some(5));
    shard.write_block(5, &[9; BLOCK_SIZE]);
    assert_eq!(shard.read_block(5, |o| o.map(|d| d[0])), Some(9));
    assert_eq!(shard.len(), 1);
    assert_eq!(shard.flush_dirty(&ok), Ok(1));
    shard.remove(5);
    assert_eq!(shard.len(), 0);
}

#[test]
fn stats_add_fieldwise() {
    let a = CacheStats { hits: 1, misses: 2, evictions: 3, dirty_flushes: 4 };
    let b = CacheStats { hits: 10, misses: 20, evictions: 30, dirty_flushes: 40 };
    assert_eq!(a + b, CacheStats { hits: 11, misses: 22, evictions: 33, dirty_flushes: 44 });
    assert_eq!(CacheStats::default(), CacheStats { hits: 0, misses: 0, evictions: 0, dirty_flushes: 0 });
}
