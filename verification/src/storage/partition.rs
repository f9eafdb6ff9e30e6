//! Placement of vertices in subgraphs.
use vstd::prelude::*;
use crate::storage::index::VertexIndex;

verus! {

/// How to assign vertices to subgraphs.
#[derive(Debug, Clone, Copy, PartialEq, Eq, Structural)]
pub enum PartitionStrategy {
    /// Auto-cluster: a vertex joins the subgraph of a peer with one of its
    /// labels.
    AutoCluster,
    /// Label-based: vertices with a label go to the first subgraph with
    /// room.
    ByLabel,
    /// All in one subgraph (simple, for small graphs).
    SingleSubgraph,
}

/// Configuration for subgraph partitioning.
#[derive(Debug, Clone, Copy)]
pub struct PartitionConfig {
    /// Maximum number of vertices per subgraph.
    pub max_vertices_per_subgraph: usize,
    /// BFS depth for clustering (how far from a seed to include).
    pub cluster_bfs_depth: usize,
    /// Strategy for assigning new vertices to subgraphs.
    pub strategy: PartitionStrategy,
}

impl Default for PartitionConfig {
    fn default() -> (c: Self)
        ensures
            c.max_vertices_per_subgraph == 10_000,
            c.cluster_bfs_depth == 3,
            c.strategy == PartitionStrategy::AutoCluster,
    {
        PartitionConfig {
            max_vertices_per_subgraph: 10_000,
            cluster_bfs_depth: 3,
            strategy: PartitionStrategy::AutoCluster,
        }
    }
}

/// The vertex count listed for subgraph `sg` (the first listing), or 0 when
/// it is not listed.
pub open spec fn listed_count(current: Seq<(u64, usize)>, sg: u64) -> usize
    decreases current.len(),
{
    if current.len() == 0 {
        0
    } else if current[0].0 == sg {
        current[0].1
    } else {
        listed_count(current.drop_first(), sg)
    }
}

/// The first listed subgraph with fewer than `max` vertices.
pub open spec fn first_with_room(current: Seq<(u64, usize)>, max: usize) -> Option<u64>
    decreases current.len(),
{
    if current.len() == 0 {
        None
    } else if current[0].1 < max {
        Some(current[0].0)
    } else {
        first_with_room(current.drop_first(), max)
    }
}

/// The subgraph of the first of `peers` that is indexed in a subgraph with
/// fewer than `max` listed vertices.
pub open spec fn first_peer_with_room(
    peers: Seq<u64>,
    index: Map<u64, (u64, u32)>,
    current: Seq<(u64, usize)>,
    max: usize,
) -> Option<u64>
    decreases peers.len(),
{
    if peers.len() == 0 {
        None
    } else if index.contains_key(peers[0]) && listed_count(current, index[peers[0]].0) < max {
        Some(index[peers[0]].0)
    } else {
        first_peer_with_room(peers.drop_first(), index, current, max)
    }
}

/// The peers of every label, one label after another.
pub open spec fn all_peers(peers_by_label: Seq<Vec<u64>>) -> Seq<u64>
    decreases peers_by_label.len(),
{
    if peers_by_label.len() == 0 {
        Seq::empty()
    } else {
        peers_by_label[0]@ + all_peers(peers_by_label.drop_first())
    }
}

/// Where a vertex with `label_count` labels goes under `config`.
pub open spec fn assignment(
    label_count: nat,
    config: PartitionConfig,
    current: Seq<(u64, usize)>,
    index: Map<u64, (u64, u32)>,
    peers_by_label: Seq<Vec<u64>>,
) -> Option<u64> {
    match config.strategy {
        PartitionStrategy::SingleSubgraph => if current.len() > 0 {
            Some(current[0].0)
        } else {
            None
        },
        PartitionStrategy::ByLabel => if label_count == 0 {
            None
        } else {
            first_with_room(current, config.max_vertices_per_subgraph)
        },
        PartitionStrategy::AutoCluster => first_peer_with_room(
            all_peers(peers_by_label),
            index,
            current,
            config.max_vertices_per_subgraph,
        ),
    }
}

/// Peer `p` is indexed in a subgraph whose listed vertex count is below
/// `max`.
pub open spec fn peer_has_room(
    p: u64,
    index: Map<u64, (u64, u32)>,
    current: Seq<(u64, usize)>,
    max: usize,
) -> bool {
    index.contains_key(p) && listed_count(current, index[p].0) < max
}

/// No peer before peer `k` of label `l` (all peers of the labels before `l`,
/// and the first `k` peers of label `l`) has room.
pub open spec fn no_earlier_room(
    peers_by_label: Seq<Vec<u64>>,
    l: int,
    k: int,
    index: Map<u64, (u64, u32)>,
    current: Seq<(u64, usize)>,
    max: usize,
) -> bool {
    forall|l2: int, k2: int|
        ((0 <= l2 < l && 0 <= k2 < peers_by_label[l2]@.len()) || (l2 == l && 0 <= k2 < k)) ==> !peer_has_room(
            #[trigger] peers_by_label[l2]@[k2],
            index,
            current,
            max,
        )
}

proof fn lemma_first_peer_flat(
    s: Seq<u64>,
    index: Map<u64, (u64, u32)>,
    current: Seq<(u64, usize)>,
    max: usize,
)
    ensures
        first_peer_with_room(s, index, current, max) is None <==> forall|i: int|
            0 <= i < s.len() ==> !peer_has_room(#[trigger] s[i], index, current, max),
        forall|i: int|
            0 <= i < s.len() && peer_has_room(#[trigger] s[i], index, current, max) && (forall|j: int|
                0 <= j < i ==> !peer_has_room(#[trigger] s[j], index, current, max))
                ==> first_peer_with_room(s, index, current, max) == Some(index[s[i]].0),
    decreases s.len(),
{
    if s.len() > 0 {
        let t = s.drop_first();
        lemma_first_peer_flat(t, index, current, max);
        assert forall|i: int| 1 <= i < s.len() implies s[i] == t[i - 1] by {}
        if !peer_has_room(s[0], index, current, max) {
            assert forall|i: int|
                0 <= i < s.len() && peer_has_room(#[trigger] s[i], index, current, max) && (forall|j: int|
                    0 <= j < i ==> !peer_has_room(#[trigger] s[j], index, current, max))
                implies first_peer_with_room(s, index, current, max) == Some(index[s[i]].0) by {
                assert(i > 0);
                assert(t[i - 1] == s[i]);
                assert forall|j: int| 0 <= j < i - 1 implies !peer_has_room(#[trigger] t[j], index, current, max) by {
                    assert(t[j] == s[j + 1]);
                }
            }
            if first_peer_with_room(s, index, current, max) is None {
                assert forall|i: int| 0 <= i < s.len() implies !peer_has_room(#[trigger] s[i], index, current, max) by {
                    if i > 0 {
                        assert(t[i - 1] == s[i]);
                    }
                }
            }
            if forall|i: int| 0 <= i < s.len() ==> !peer_has_room(#[trigger] s[i], index, current, max) {
                assert forall|i: int| 0 <= i < t.len() implies !peer_has_room(#[trigger] t[i], index, current, max) by {
                    assert(t[i] == s[i + 1]);
                }
            }
        } else {
            assert forall|i: int|
                0 <= i < s.len() && peer_has_room(#[trigger] s[i], index, current, max) && (forall|j: int|
                    0 <= j < i ==> !peer_has_room(#[trigger] s[j], index, current, max))
                implies first_peer_with_room(s, index, current, max) == Some(index[s[i]].0) by {
                if i > 0 {
                    assert(!peer_has_room(s[0], index, current, max));
                }
            }
        }
    }
}

proof fn lemma_first_peer_concat(
    a: Seq<u64>,
    b: Seq<u64>,
    index: Map<u64, (u64, u32)>,
    current: Seq<(u64, usize)>,
    max: usize,
)
    ensures
        first_peer_with_room(a + b, index, current, max) == if first_peer_with_room(
            a,
            index,
            current,
            max,
        ) is Some {
            first_peer_with_room(a, index, current, max)
        } else {
            first_peer_with_room(b, index, current, max)
        },
    decreases a.len(),
{
    if a.len() == 0 {
        assert(a + b =~= b);
    } else {
        assert((a + b).drop_first() =~= a.drop_first() + b);
        assert((a + b)[0] == a[0]);
        lemma_first_peer_concat(a.drop_first(), b, index, current, max);
    }
}

/// Under `AutoCluster`, a new vertex joins an existing subgraph exactly when
/// some peer of one of its labels is indexed in a subgraph with room; it then
/// joins the subgraph of the first such peer, labels taken in order and the
/// peers of a label in order. Only when no peer of any label has room is a
/// new subgraph asked for (`None`).
pub proof fn lemma_auto_cluster_placement(
    label_count: nat,
    config: PartitionConfig,
    current: Seq<(u64, usize)>,
    index: Map<u64, (u64, u32)>,
    peers_by_label: Seq<Vec<u64>>,
)
    requires
        config.strategy == PartitionStrategy::AutoCluster,
    ensures
        assignment(label_count, config, current, index, peers_by_label) is None <==> forall|l: int, k: int|
            0 <= l < peers_by_label.len() && 0 <= k < peers_by_label[l]@.len() ==> !peer_has_room(
                #[trigger] peers_by_label[l]@[k],
                index,
                current,
                config.max_vertices_per_subgraph,
            ),
        forall|l: int, k: int|
            0 <= l < peers_by_label.len() && 0 <= k < peers_by_label[l]@.len() && peer_has_room(
                #[trigger] peers_by_label[l]@[k],
                index,
                current,
                config.max_vertices_per_subgraph,
            ) && no_earlier_room(peers_by_label, l, k, index, current, config.max_vertices_per_subgraph)
                ==> assignment(label_count, config, current, index, peers_by_label) == Some(
                index[peers_by_label[l]@[k]].0,
            ),
    decreases peers_by_label.len(),
{
    let max = config.max_vertices_per_subgraph;
    let pbl = peers_by_label;
    if pbl.len() > 0 {
        let a = pbl[0]@;
        let rest = pbl.drop_first();
        lemma_auto_cluster_placement(label_count, config, current, index, rest);
        lemma_first_peer_flat(a, index, current, max);
        lemma_first_peer_concat(a, all_peers(rest), index, current, max);
        assert(all_peers(pbl) == a + all_peers(rest));
        assert forall|l: int| 1 <= l < pbl.len() implies pbl[l] == rest[l - 1] by {}
        // Which result comes back is `None` exactly when no peer has room.
        if assignment(label_count, config, current, index, pbl) is None {
            assert forall|l: int, k: int|
                0 <= l < pbl.len() && 0 <= k < pbl[l]@.len() implies !peer_has_room(
                #[trigger] pbl[l]@[k],
                index,
                current,
                max,
            ) by {
                if l == 0 {
                    assert(a[k] == pbl[l]@[k]);
                } else {
                    assert(rest[l - 1]@[k] == pbl[l]@[k]);
                }
            }
        }
        if forall|l: int, k: int|
            0 <= l < pbl.len() && 0 <= k < pbl[l]@.len() ==> !peer_has_room(
                #[trigger] pbl[l]@[k],
                index,
                current,
                max,
            ) {
            assert forall|k: int| 0 <= k < a.len() implies !peer_has_room(#[trigger] a[k], index, current, max) by {
                assert(pbl[0]@[k] == a[k]);
            }
            assert forall|l: int, k: int|
                0 <= l < rest.len() && 0 <= k < rest[l]@.len() implies !peer_has_room(
                #[trigger] rest[l]@[k],
                index,
                current,
                max,
            ) by {
                assert(pbl[l + 1]@[k] == rest[l]@[k]);
            }
        }
        // The first peer with room decides.
        assert forall|l: int, k: int|
            0 <= l < pbl.len() && 0 <= k < pbl[l]@.len() && peer_has_room(
                #[trigger] pbl[l]@[k],
                index,
                current,
                max,
            ) && no_earlier_room(pbl, l, k, index, current, max) implies assignment(
            label_count,
            config,
            current,
            index,
            pbl,
        ) == Some(index[pbl[l]@[k]].0) by {
            if l == 0 {
                assert forall|j: int| 0 <= j < k implies !peer_has_room(#[trigger] a[j], index, current, max) by {
                    assert(pbl[0]@[j] == a[j]);
                }
                assert(a[k] == pbl[l]@[k]);
            } else {
                assert forall|j: int| 0 <= j < a.len() implies !peer_has_room(#[trigger] a[j], index, current, max) by {
                    assert(pbl[0]@[j] == a[j]);
                }
                assert(rest[l - 1]@[k] == pbl[l]@[k]);
                assert forall|l2: int, k2: int|
                    ((0 <= l2 < l - 1 && 0 <= k2 < rest[l2]@.len()) || (l2 == l - 1 && 0 <= k2 < k))
                    implies !peer_has_room(#[trigger] rest[l2]@[k2], index, current, max) by {
                    assert(pbl[l2 + 1]@[k2] == rest[l2]@[k2]);
                }
                assert(no_earlier_room(rest, l - 1, k, index, current, max));
            }
        }
    }
}

/// Under `ByLabel`, a vertex with at least one label goes to the first
/// listed subgraph whose vertex count is below the maximum, and to a new
/// subgraph (`None`) only when no listed subgraph has room; a vertex without
/// labels always gets `None`.
pub proof fn lemma_by_label_placement(
    label_count: nat,
    config: PartitionConfig,
    current: Seq<(u64, usize)>,
    index: Map<u64, (u64, u32)>,
    peers_by_label: Seq<Vec<u64>>,
)
    requires
        config.strategy == PartitionStrategy::ByLabel,
    ensures
        label_count == 0 ==> assignment(label_count, config, current, index, peers_by_label) is None,
        label_count > 0 ==> (assignment(label_count, config, current, index, peers_by_label) is None
            <==> forall|i: int|
            0 <= i < current.len() ==> (#[trigger] current[i]).1 >= config.max_vertices_per_subgraph),
        forall|i: int|
            0 <= i < current.len() && (#[trigger] current[i]).1 < config.max_vertices_per_subgraph
                && label_count > 0 && (forall|j: int|
                0 <= j < i ==> (#[trigger] current[j]).1 >= config.max_vertices_per_subgraph) ==> assignment(
                label_count,
                config,
                current,
                index,
                peers_by_label,
            ) == Some(current[i].0),
{
    lemma_first_with_room(current, config.max_vertices_per_subgraph);
}

proof fn lemma_first_with_room(current: Seq<(u64, usize)>, max: usize)
    ensures
        first_with_room(current, max) is None <==> forall|i: int|
            0 <= i < current.len() ==> (#[trigger] current[i]).1 >= max,
        forall|i: int|
            0 <= i < current.len() && (#[trigger] current[i]).1 < max && (forall|j: int|
                0 <= j < i ==> (#[trigger] current[j]).1 >= max) ==> first_with_room(current, max) == Some(
                current[i].0,
            ),
    decreases current.len(),
{
    if current.len() > 0 {
        let t = current.drop_first();
        lemma_first_with_room(t, max);
        assert forall|i: int| 1 <= i < current.len() implies current[i] == t[i - 1] by {}
        if current[0].1 >= max {
            assert forall|i: int|
                0 <= i < current.len() && (#[trigger] current[i]).1 < max && (forall|j: int|
                    0 <= j < i ==> (#[trigger] current[j]).1 >= max) implies first_with_room(current, max)
                == Some(current[i].0) by {
                assert(t[i - 1] == current[i]);
                assert forall|j: int| 0 <= j < i - 1 implies (#[trigger] t[j]).1 >= max by {
                    assert(t[j] == current[j + 1]);
                }
            }
            if first_with_room(current, max) is None {
                assert forall|i: int| 0 <= i < current.len() implies (#[trigger] current[i]).1 >= max by {
                    if i > 0 {
                        assert(t[i - 1] == current[i]);
                    }
                }
            }
            if forall|i: int| 0 <= i < current.len() ==> (#[trigger] current[i]).1 >= max {
                assert forall|i: int| 0 <= i < t.len() implies (#[trigger] t[i]).1 >= max by {
                    assert(t[i] == current[i + 1]);
                }
            }
        } else {
            assert forall|i: int|
                0 <= i < current.len() && (#[trigger] current[i]).1 < max && (forall|j: int|
                    0 <= j < i ==> (#[trigger] current[j]).1 >= max) implies first_with_room(current, max)
                == Some(current[i].0) by {
                if i > 0 {
                    assert(current[0].1 >= max);
                }
            }
        }
    }
}

fn count_listed(current: &[(u64, usize)], sg: u64) -> (c: usize)
    ensures
        c == listed_count(current@, sg),
{
    let mut i: usize = 0;
    assert(current@.skip(0) =~= current@);
    while i < current.len()
        invariant
            i <= current@.len(),
            listed_count(current@, sg) == listed_count(current@.skip(i as int), sg),
        decreases current@.len() - i,
    {
        assert(current@.skip(i as int).drop_first() =~= current@.skip(i + 1));
        assert(current@.skip(i as int)[0] == current@[i as int]);
        if current[i].0 == sg {
            return current[i].1;
        }
        i += 1;
    }
    0
}

/// The subgraph for a newly created vertex with labels `labels`, or `None`
/// when a new subgraph should be created. `current_subgraphs` lists
/// (subgraph ID, vertex count); `peers_by_label[i]` holds the vertices
/// that carry `labels[i]`.
pub fn assign_vertex_to_subgraph(
    labels: &[String],
    config: &PartitionConfig,
    current_subgraphs: &[(u64, usize)],
    vertex_index: &VertexIndex,
    peers_by_label: &[Vec<u64>],
) -> (r: Option<u64>)
    requires
        peers_by_label@.len() == labels@.len(),
    ensures
        r == assignment(labels@.len(), *config, current_subgraphs@, vertex_index@, peers_by_label@),
{
    match config.strategy {
        PartitionStrategy::SingleSubgraph => {
            if current_subgraphs.len() > 0 {
                Some(current_subgraphs[0].0)
            } else {
                None
            }
        },
        PartitionStrategy::ByLabel => {
            if labels.len() == 0 {
                return None;
            }
            let mut i: usize = 0;
            assert(current_subgraphs@.skip(0) =~= current_subgraphs@);
            while i < current_subgraphs.len()
                invariant
                    i <= current_subgraphs@.len(),
                    config.strategy == PartitionStrategy::ByLabel,
                    labels@.len() > 0,
                    first_with_room(current_subgraphs@, config.max_vertices_per_subgraph)
                        == first_with_room(current_subgraphs@.skip(i as int), config.max_vertices_per_subgraph),
                decreases current_subgraphs@.len() - i,
            {
                assert(current_subgraphs@.skip(i as int).drop_first() =~= current_subgraphs@.skip(i + 1));
                assert(current_subgraphs@.skip(i as int)[0] == current_subgraphs@[i as int]);
                if current_subgraphs[i].1 < config.max_vertices_per_subgraph {
                    return Some(current_subgraphs[i].0);
                }
                i += 1;
            }
            None
        },
        PartitionStrategy::AutoCluster => {
            let ghost max = config.max_vertices_per_subgraph;
            let ghost idx = vertex_index@;
            let mut l: usize = 0;
            assert(peers_by_label@.skip(0) =~= peers_by_label@);
            while l < peers_by_label.len()
                invariant
                    l <= peers_by_label@.len(),
                    config.strategy == PartitionStrategy::AutoCluster,
                    max == config.max_vertices_per_subgraph,
                    idx == vertex_index@,
                    first_peer_with_room(all_peers(peers_by_label@), idx, current_subgraphs@, max)
                        == first_peer_with_room(all_peers(peers_by_label@.skip(l as int)), idx, current_subgraphs@, max),
                decreases peers_by_label@.len() - l,
            {
                let peers = &peers_by_label[l];
                let ghost rest = all_peers(peers_by_label@.skip(l + 1));
                assert(peers_by_label@.skip(l as int).drop_first() =~= peers_by_label@.skip(l + 1));
                assert(peers_by_label@.skip(l as int)[0] == peers_by_label@[l as int]);
                assert(all_peers(peers_by_label@.skip(l as int)) == peers@ + rest);
                assert(peers@.skip(0) =~= peers@);
                let mut j: usize = 0;
                while j < peers.len()
                    invariant
                        j <= peers@.len(),
                        config.strategy == PartitionStrategy::AutoCluster,
                        max == config.max_vertices_per_subgraph,
                        idx == vertex_index@,
                        first_peer_with_room(all_peers(peers_by_label@), idx, current_subgraphs@, max)
                            == first_peer_with_room(peers@.skip(j as int) + rest, idx, current_subgraphs@, max),
                    decreases peers@.len() - j,
                {
                    let p = peers[j];
                    assert((peers@.skip(j as int) + rest).drop_first() =~= peers@.skip(j + 1) + rest);
                    assert((peers@.skip(j as int) + rest)[0] == p);
                    match vertex_index.lookup(p) {
                        Some((sg, _)) => {
                            let c = count_listed(current_subgraphs, sg);
                            if c < config.max_vertices_per_subgraph {
                                return Some(sg);
                            }
                        },
                        None => {},
                    }
                    j += 1;
                }
                assert(peers@.skip(peers@.len() as int) + rest =~= rest);
                l += 1;
            }
            None
        },
    }
}

} // verus!
