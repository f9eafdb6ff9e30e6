use bionic_graph::storage::memory_index::{
    AdjacencyIndex, AtimeIndex, EdgeBTree, MemoryIndex, MetaPointer, RankIndex, TokenMap,
    VertexBTree,
};

fn p(block_idx: u32, chunk_offset: u8) -> MetaPointer {
    MetaPointer::new(block_idx, chunk_offset)
}

#[test]
fn vertex_btree_map_operations() {
    let mut t = VertexBTree::new();
    t.insert(5, p(1, 2));
    t.insert(3, p(1, 4));
    t.insert(5, p(2, 2));
    assert_eq!(t.len(), 2);
    assert_eq!(t.get(5), Some(&p(2, 2)));
    assert!(t.contains(3));
    assert_eq!(t.keys(), vec![3, 5]);
    assert_eq!(t.iter(), vec![(3, p(1, 4)), (5, p(2, 2))]);
    assert_eq!(t.remove(3), Some(p(1, 4)));
    assert_eq!(t.remove(3), None);
    assert_eq!(t.get(3), None);
}

#[test]
fn edge_btree_map_operations() {
    let mut t = EdgeBTree::new();
    t.insert(9, p(0, 1));
    assert_eq!(t.get(9), Some(&p(0, 1)));
    assert_eq!(t.keys(), vec![9]);
    assert_eq!(t.remove(9), Some(p(0, 1)));
    assert_eq!(t.len(), 0);
}

#[test]
fn token_map_insert_and_prefix_search() {
    let mut m = TokenMap::new();
    m.insert("graph".to_string(), p(1, 1));
    m.insert("grape".to_string(), p(1, 2));
    m.insert("apple".to_string(), p(1, 3));
    m.insert("graph".to_string(), p(2, 1));
    assert_eq!(m.len(), 3);
    assert_eq!(m.get("graph"), Some(&vec![p(1, 1), p(2, 1)]));
    assert_eq!(m.get("nope"), None);

    let found = m.search_prefix("gra");
    assert_eq!(
        found,
        vec![("grape".to_string(), vec![p(1, 2)]), ("graph".to_string(), vec![p(1, 1), p(2, 1)])]
    );
    assert!(m.search_prefix("z").is_empty());
    let all: Vec<String> = m.iter().into_iter().map(|(t, _)| t).collect();
    assert_eq!(all, vec!["apple", "grape", "graph"]);

    m.remove_pointer("graph", &p(1, 1));
    assert_eq!(m.get("graph"), Some(&vec![p(2, 1)]));
    m.remove_pointer("graph", &p(2, 1));
    assert!(!m.contains("graph"));
    m.remove_token("apple");
    assert_eq!(m.len(), 1);
}

#[test]
fn rank_index_orders_by_rank_descending() {
    let mut r = RankIndex::new();
    r.insert(10, p(0, 1));
    r.insert(30, p(0, 2));
    r.insert(20, p(0, 3));
    r.insert(30, p(0, 4));
    assert_eq!(r.len(), 3);
    let above: Vec<MetaPointer> = r.get_above(20).into_iter().copied().collect();
    assert_eq!(above, vec![p(0, 2), p(0, 4), p(0, 3)]);
    let all: Vec<MetaPointer> = r.all_by_rank().into_iter().copied().collect();
    assert_eq!(all, vec![p(0, 2), p(0, 4), p(0, 3), p(0, 1)]);
    assert_eq!(r.top_pointers(2, None), vec![p(0, 2), p(0, 4)]);
    assert_eq!(r.top_pointers(10, Some(15)), vec![p(0, 2), p(0, 4), p(0, 3)]);
    assert!(r.top_pointers(0, None).is_empty());

    r.remove(30, &p(0, 2));
    r.remove(30, &p(0, 4));
    assert_eq!(r.len(), 2);
    r.remove(99, &p(0, 1));
    assert_eq!(r.len(), 2);
}

#[test]
fn atime_range_is_inclusive_and_oldest_first() {
    let mut a = AtimeIndex::new();
    a.insert(300, p(3, 1));
    a.insert(100, p(1, 1));
    a.insert(200, p(2, 1));
    a.insert(100, p(1, 2));
    assert_eq!(a.range_up_to(200), vec![(100, p(1, 1)), (100, p(1, 2)), (200, p(2, 1))]);
    assert!(a.range_up_to(50).is_empty());
    a.remove(100, &p(1, 1));
    a.remove(100, &p(1, 2));
    assert_eq!(a.len(), 2);
}

#[test]
fn adjacency_tracks_both_directions() {
    let mut adj = AdjacencyIndex::new();
    adj.add_edge(1, 10, 20, p(5, 1));
    adj.add_edge(2, 10, 30, p(5, 3));
    adj.add_edge(3, 30, 10, p(5, 5));
    assert_eq!(adj.out_edges(10), &[(1, 20, p(5, 1)), (2, 30, p(5, 3))]);
    assert_eq!(adj.in_edges(10), &[(3, 30, p(5, 5))]);
    assert_eq!(adj.in_edges(20), &[(1, 10, p(5, 1))]);
    assert!(adj.out_edges(99).is_empty());
    assert_eq!(adj.all_vertices(), vec![10, 20, 30]);

    adj.remove_edge(10, 20, &p(5, 1));
    assert_eq!(adj.out_edges(10), &[(2, 30, p(5, 3))]);
    assert!(adj.in_edges(20).is_empty());
    assert_eq!(adj.all_vertices(), vec![10, 30]);
}

#[test]
fn all_vertices_skips_vertices_whose_edges_are_gone() {
    let mut adj = AdjacencyIndex::new();
    adj.add_edge(7, 1, 2, p(9, 1));
    assert_eq!(adj.all_vertices(), vec![1, 2]);
    adj.remove_edge(1, 2, &p(9, 1));
    assert!(adj.all_vertices().is_empty());
}

#[test]
fn entity_tokens_are_kept_per_entity() {
    let mut mi = MemoryIndex::new();
    mi.add_entity_token(0, 7, "alpha");
    mi.add_entity_token(0, 7, "beta");
    mi.add_entity_token(1, 7, "gamma");
    assert_eq!(mi.get_entity_tokens(0, 7), vec!["alpha".to_string(), "beta".to_string()]);
    assert_eq!(mi.get_entity_tokens(1, 7), vec!["gamma".to_string()]);
    assert!(mi.get_entity_tokens(0, 8).is_empty());
    assert_eq!(mi.remove_entity_token_refs(0, 7), vec!["alpha".to_string(), "beta".to_string()]);
    assert!(mi.get_entity_tokens(0, 7).is_empty());
    assert!(mi.remove_entity_token_refs(0, 7).is_empty());
}

#[test]
fn names_resolve_to_ids() {
    let mut mi = MemoryIndex::new();
    mi.vertex_name.insert("alice".to_string(), 1);
    mi.edge_name.insert("knows".to_string(), 2);
    assert_eq!(mi.get_vertex_id_by_name("alice"), Some(1));
    assert_eq!(mi.get_vertex_id_by_name("bob"), None);
    assert_eq!(mi.get_edge_id_by_name("knows"), Some(2));
}
