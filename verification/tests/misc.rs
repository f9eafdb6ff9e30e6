use bionic_graph::lock::lock_manager::LockStatsSnapshot;
use bionic_graph::lock::stripes::{
    block_lock_order, block_stripe_index, edge_stripe_index, vertex_stripe_index,
    BLOCK_STRIPE_COUNT, STRIPE_COUNT,
};
use bionic_graph::neuron::learning::FiringHistory;
use bionic_graph::neuron::neuron::SearchMode;
use bionic_graph::persistence::auto_save::AutoSaveConfig;
use bionic_graph::storage::index::VertexIndex;
use bionic_graph::storage::partition::{assign_vertex_to_subgraph, PartitionConfig, PartitionStrategy};
use bionic_graph::storage::str_map::{bytes_eq, bytes_lt, StrMap};
use bionic_graph::storage::types::{
    BlockHeader, BlockStatus, ChunkType, DataHeader, DataStatus, OpType, BLOCK_SIZE,
};

#[test]
fn stripes_use_low_bits() {
    assert_eq!(block_stripe_index(0), 0);
    assert_eq!(block_stripe_index(257), 1);
    assert_eq!(block_stripe_index(u32::MAX), BLOCK_STRIPE_COUNT - 1);
    assert_eq!(vertex_stripe_index(1024 + 5), 5);
    assert_eq!(edge_stripe_index(3 * 1024 + 1023), STRIPE_COUNT - 1);
}

#[test]
fn block_locks_in_ascending_order() {
    assert_eq!(block_lock_order(9, 3), (3, 9));
    assert_eq!(block_lock_order(3, 9), (3, 9));
    assert_eq!(block_lock_order(4, 4), (4, 4));
}

#[test]
fn lock_stats_snapshot_default_is_zero() {
    let s = LockStatsSnapshot::default();
    assert_eq!(s.block_reads + s.block_writes + s.vertex_reads + s.vertex_writes, 0);
    assert_eq!(s.edge_reads + s.edge_writes, 0);
}

#[test]
fn firing_history_window_of_two_keeps_one_tick() {
    let mut hist = FiringHistory::new(2);
    hist.record_tick(&[1]);
    assert!(hist.fired_recently(1));
    hist.record_tick(&[2, 2]);
    assert!(!hist.fired_recently(1));
    assert!(hist.fired_recently(2));
    let recent = hist.recent_firings();
    assert_eq!(recent.len(), 1);
}

#[test]
fn firing_history_collects_all_kept_ticks() {
    let mut hist = FiringHistory::new(4);
    hist.record_tick(&[1, 2]);
    hist.record_tick(&[]);
    hist.record_tick(&[3]);
    let mut recent: Vec<u64> = hist.recent_firings().into_iter().collect();
    recent.sort();
    assert_eq!(recent, vec![1, 2, 3]);
    hist.record_tick(&[4]);
    assert!(!hist.fired_recently(1));
    assert!(hist.fired_recently(3));
}

#[test]
fn defaults() {
    assert_eq!(SearchMode::default(), SearchMode::Greedy);
    let c = AutoSaveConfig::default();
    assert_eq!(c.graph_path, "data/graph.bin");
    assert_eq!(c.neural_path, "data/neural.bin");
    assert_eq!(c.disk_data_dir, "data");
    assert_eq!(c.check_interval_secs, 5);
    assert_eq!(c.checkpoint_interval_entries, 1000);
    assert!(c.save_on_shutdown);
    let p = PartitionConfig::default();
    assert_eq!(p.max_vertices_per_subgraph, 10_000);
    assert_eq!(p.cluster_bfs_depth, 3);
    assert_eq!(p.strategy, PartitionStrategy::AutoCluster);
}

#[test]
fn partition_single_subgraph() {
    let config = PartitionConfig { strategy: PartitionStrategy::SingleSubgraph, ..PartitionConfig::default() };
    let index = VertexIndex::new();
    assert_eq!(assign_vertex_to_subgraph(&[], &config, &[(7, 100), (8, 0)], &index, &[]), Some(7));
    assert_eq!(assign_vertex_to_subgraph(&[], &config, &[], &index, &[]), None);
}

#[test]
fn partition_by_label_takes_first_with_room() {
    let config = PartitionConfig {
        max_vertices_per_subgraph: 10,
        cluster_bfs_depth: 3,
        strategy: PartitionStrategy::ByLabel,
    };
    let index = VertexIndex::new();
    let labels = vec!["Person".to_string()];
    let current = [(1, 10), (2, 3), (3, 0)];
    assert_eq!(assign_vertex_to_subgraph(&labels, &config, &current, &index, &[vec![]]), Some(2));
    assert_eq!(assign_vertex_to_subgraph(&[], &config, &current, &index, &[]), None);
    assert_eq!(assign_vertex_to_subgraph(&labels, &config, &[(1, 10)], &index, &[vec![]]), None);
}

#[test]
fn partition_auto_cluster_follows_peers() {
    let config = PartitionConfig { max_vertices_per_subgraph: 10, ..PartitionConfig::default() };
    let mut index = VertexIndex::new();
    index.insert(100, 1, 0);
    index.insert(200, 2, 0);
    let labels = vec!["A".to_string(), "B".to_string()];
    let current = [(1, 10), (2, 4)];
    // Vertex 100's subgraph is full, vertex 200's has room.
    let peers = vec![vec![100, 999], vec![200]];
    assert_eq!(assign_vertex_to_subgraph(&labels, &config, &current, &index, &peers), Some(2));
    // No peer with room: a new subgraph.
    let peers = vec![vec![100]];
    assert_eq!(assign_vertex_to_subgraph(&labels[..1], &config, &current, &index, &peers), None);
}

#[test]
fn str_map_keeps_keys_sorted() {
    let mut m: StrMap<u32> = StrMap::new();
    m.insert("b".to_string(), 2);
    m.insert("a".to_string(), 1);
    m.insert("c".to_string(), 3);
    m.insert("b".to_string(), 20);
    assert_eq!(m.len(), 3);
    assert_eq!(m.key_at(0), "a");
    assert_eq!(m.key_at(2), "c");
    assert_eq!(m.get("b"), Some(&20));
    assert_eq!(m.find("bb"), Err(2));
    assert_eq!(m.remove("a"), Some(1));
    assert!(!m.contains("a"));
    assert!(bytes_lt(b"ab", b"b"));
    assert!(bytes_lt(b"a", b"ab"));
    assert!(!bytes_lt(b"ab", b"ab"));
    assert!(bytes_eq(b"xy", b"xy"));
}

#[test]
fn type_bytes_roundtrip() {
    for b in 0u8..=3 {
        assert_eq!(ChunkType::from_u8(b).to_u8(), b);
    }
    assert_eq!(ChunkType::from_u8(200), ChunkType::Empty);
    for b in 0u8..=9 {
        assert_eq!(OpType::from_u8(b).map(|o| o.to_u8()), if b <= 8 { Some(b) } else { None });
    }
    assert_eq!(DataStatus::from_u8(DataStatus::Deleted.to_u8()), DataStatus::Deleted);
    assert_eq!(BlockStatus::from_u8(BlockStatus::Normal.to_u8()), BlockStatus::Normal);
}

#[test]
fn block_header_roundtrip() {
    let mut buf = Box::new([7u8; BLOCK_SIZE]);
    let h = BlockHeader::fresh();
    h.encode(&mut buf);
    assert_eq!(buf[0], 1);
    assert_eq!(buf[1], 1);
    assert_eq!(buf[42], 7);
    let back = BlockHeader::decode(&buf);
    assert_eq!(back.offset, 1);
    assert_eq!(back.bitmap, h.bitmap);
    assert_eq!(back.status, BlockStatus::Normal);
    assert_eq!(back.timestamp, 0);
}

#[test]
fn data_header_roundtrip() {
    let h = DataHeader::new_vertex_at(42, 300, 123_456);
    assert_eq!(h.chunk_type, ChunkType::Vertex);
    assert_eq!(h.ctime, 123_456);
    let mut buf = [0u8; 64];
    h.encode(&mut buf);
    assert_eq!(DataHeader::decode(&buf), h);
    let e = DataHeader::new_edge_at(1, 2, 3);
    assert_eq!(e.chunk_type, ChunkType::Edge);
    let t = DataHeader::new_token_at(1, 2, 3);
    assert_eq!(t.chunk_type, ChunkType::Token);
}
