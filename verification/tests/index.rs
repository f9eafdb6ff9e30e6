use bionic_graph::storage::index::{IndexBundle, LabelIndex, SubgraphIndex, SubgraphMeta, VertexIndex};

#[test]
fn test_vertex_index() {
    let mut idx = VertexIndex::new();
    idx.insert(1, 0, 0);
    idx.insert(2, 0, 1);
    idx.insert(100, 3, 5);

    assert_eq!(idx.lookup(1), Some((0, 0)));
    assert_eq!(idx.lookup(100), Some((3, 5)));
    assert_eq!(idx.lookup(999), None);

    idx.remove(1);
    assert_eq!(idx.lookup(1), None);
    assert_eq!(idx.len(), 2);
}

#[test]
fn test_subgraph_index() {
    let mut idx = SubgraphIndex::new();
    idx.insert(SubgraphMeta {
        id: 1,
        file_path: "data/subgraph/00000001.bin".to_string(),
        vertex_count: 100,
        edge_count: 200,
        cross_edge_count: 5,
        size_bytes: 4096,
        checksum: 0xDEADBEEF,
    });

    let meta = idx.get(1).unwrap();
    assert_eq!(meta.vertex_count, 100);
    assert_eq!(idx.len(), 1);
}

#[test]
fn test_label_index() {
    let mut idx = LabelIndex::new();
    idx.add("person", 1);
    idx.add("person", 2);
    idx.add("company", 3);

    assert_eq!(idx.get("person").len(), 2);
    assert_eq!(idx.get("company"), vec![3]);
    assert_eq!(idx.get("animal").len(), 0);

    idx.remove("person", 1);
    assert_eq!(idx.get("person"), vec![2]);
}

#[test]
fn index_bundle_starts_ids_at_one() {
    let b = IndexBundle::new();
    assert_eq!(b.global_next_vertex_id, 1);
    assert_eq!(b.global_next_edge_id, 1);
    assert!(b.vertex_index.is_empty());
    assert!(b.subgraph_index.is_empty());
    assert_eq!(b.label_index.label_count(), 0);
}
