use bionic_graph::neuron::activation::rank_references;
use bionic_graph::neuron::neuron::{levenshtein_distance, link_vertex, DeletionState};

#[test]
fn levenshtein_classic_examples() {
    assert_eq!(levenshtein_distance("kitten", "sitting"), (3, 7));
    assert_eq!(levenshtein_distance("flaw", "lawn"), (2, 4));
    assert_eq!(levenshtein_distance("", "abc"), (3, 3));
    assert_eq!(levenshtein_distance("abc", ""), (3, 3));
    assert_eq!(levenshtein_distance("", ""), (0, 0));
}

#[test]
fn levenshtein_identical_is_zero() {
    assert_eq!(levenshtein_distance("graph", "graph"), (0, 5));
    assert_ne!(levenshtein_distance("graph", "grape").0, 0);
}

#[test]
fn levenshtein_counts_characters_not_bytes() {
    // Two-byte and three-byte characters count once each.
    assert_eq!(levenshtein_distance("héllo", "hello"), (1, 5));
    assert_eq!(levenshtein_distance("知识图谱", "知识"), (2, 4));
}

#[test]
fn rank_references_by_count() {
    let lists = vec![vec![101, 102], vec![102, 103], vec![103, 104, 102]];
    let ranked = rank_references(&lists);
    assert_eq!(ranked[0], (102, 3));
    assert_eq!(ranked[1], (103, 2));
    let mut rest: Vec<(u64, u32)> = ranked[2..].to_vec();
    rest.sort();
    assert_eq!(rest, vec![(101, 1), (104, 1)]);
    assert!(rank_references(&[]).is_empty());
    assert!(rank_references(&[vec![], vec![]]).is_empty());
}

#[test]
fn rank_references_counts_repeats_in_one_list() {
    let ranked = rank_references(&[vec![7, 7, 7], vec![8]]);
    assert_eq!(ranked, vec![(7, 3), (8, 1)]);
}

#[test]
fn deletion_keeps_first_time() {
    let mut d = DeletionState { is_deleted: false, deleted_at: 0 };
    assert!(!d.is_deleted_at(None));
    d.mark_deleted(100);
    assert_eq!(d, DeletionState { is_deleted: true, deleted_at: 100 });
    d.mark_deleted(200);
    assert_eq!(d.deleted_at, 100);
    assert!(d.is_deleted_at(None));
    assert!(d.is_deleted_at(Some(100)));
    assert!(!d.is_deleted_at(Some(99)));
}

#[test]
fn link_vertex_skips_known_vertices() {
    let mut refs = vec![1, 2];
    link_vertex(&mut refs, 2);
    assert_eq!(refs, vec![1, 2]);
    link_vertex(&mut refs, 3);
    assert_eq!(refs, vec![1, 2, 3]);
}
