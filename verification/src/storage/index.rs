//! Subgraph-level indexes: which subgraph holds each vertex, the metadata of
//! each subgraph file, and the vertices of each label.
use std::collections::HashMap;
use vstd::prelude::*;
use vstd::std_specs::hash::spec_hash_map_iter;
use vstd::std_specs::iter::IteratorSpec;
use crate::storage::str_map::{
    contains_key, has_key_at, insertion_point, key_lt, keys_sorted, lemma_insertion_point_unique, lemma_key_unique,
    lemma_removed_insertion_point, StrMap,
};

verus! {

/// Metadata about a subgraph file on disk.
#[derive(Debug, Clone)]
pub struct SubgraphMeta {
    pub id: u64,
    pub file_path: String,
    pub vertex_count: u32,
    pub edge_count: u32,
    pub cross_edge_count: u32,
    pub size_bytes: u64,
    pub checksum: u32,
}

/// The entries of `m`, in the order the map is walked.
fn hash_entries<V: Copy>(m: &HashMap<u64, V>) -> (r: Vec<(u64, V)>)
    ensures
        r@.len() == m@.len(),
        r@.to_set() == m@.kv_pairs(),
        forall|i: int| 0 <= i < r@.len() ==> #[trigger] m@.contains_key(r@[i].0) && m@[r@[i].0]
            == r@[i].1,
{
    broadcast use vstd::std_specs::hash::group_hash_axioms;

    let ghost es = spec_hash_map_iter(m).remaining();
    let mut r: Vec<(u64, V)> = Vec::new();
    for e in it: m.iter()
        invariant
            it.seq() == es,
            r@ == es.take(it.index() as int).unref(),
    {
        let (k, v) = e;
        r.push((*k, *v));
        assert(r@ =~= es.take(it.index() as int + 1).unref());
    }
    proof {
        assert(r@ =~= es.unref());
        assert forall|i: int| 0 <= i < r@.len() implies #[trigger] m@.contains_key(r@[i].0)
            && m@[r@[i].0] == r@[i].1 by {
            assert(m@.contains_key(*es[i].0));
        }
    }
    r
}

/// Vertex → (subgraph ID, offset of the vertex in the subgraph's vertex
/// list).
#[derive(Debug, Clone)]
pub struct VertexIndex {
    inner: HashMap<u64, (u64, u32)>,
}

impl View for VertexIndex {
    type V = Map<u64, (u64, u32)>;

    closed spec fn view(&self) -> Map<u64, (u64, u32)> {
        self.inner@
    }
}

impl VertexIndex {
    pub fn new() -> (t: Self)
        ensures
            t@ == Map::<u64, (u64, u32)>::empty(),
    {
        broadcast use vstd::std_specs::hash::group_hash_axioms;

        Self { inner: HashMap::new() }
    }

    /// Register a vertex in a subgraph.
    pub fn insert(&mut self, vertex_id: u64, subgraph_id: u64, offset: u32)
        ensures
            final(self)@ == old(self)@.insert(vertex_id, (subgraph_id, offset)),
    {
        broadcast use vstd::std_specs::hash::group_hash_axioms;

        self.inner.insert(vertex_id, (subgraph_id, offset));
    }

    /// Which subgraph a vertex belongs to, and where in it.
    pub fn lookup(&self, vertex_id: u64) -> (r: Option<(u64, u32)>)
        ensures
            r == if self@.contains_key(vertex_id) {
                Some(self@[vertex_id])
            } else {
                None
            },
    {
        broadcast use vstd::std_specs::hash::group_hash_axioms;

        match self.inner.get(&vertex_id) {
            Some(e) => Some(*e),
            None => None,
        }
    }

    /// Remove a vertex from the index.
    pub fn remove(&mut self, vertex_id: u64)
        ensures
            final(self)@ == old(self)@.remove(vertex_id),
    {
        broadcast use vstd::std_specs::hash::group_hash_axioms;

        self.inner.remove(&vertex_id);
    }

    /// Number of indexed vertices.
    pub fn len(&self) -> (r: usize)
        ensures
            r == self@.len(),
            self@.dom().finite(),
    {
        broadcast use vstd::std_specs::hash::group_hash_axioms;

        self.inner.len()
    }

    pub fn is_empty(&self) -> (r: bool)
        ensures
            r == (self@.len() == 0),
    {
        broadcast use vstd::std_specs::hash::group_hash_axioms;

        self.inner.is_empty()
    }

    /// All entries, each once, in no particular order.
    pub fn iter(&self) -> (r: Vec<(u64, (u64, u32))>)
        ensures
            r@.len() == self@.len(),
            r@.to_set() == self@.kv_pairs(),
    {
        hash_entries(&self.inner)
    }
}

impl Default for VertexIndex {
    fn default() -> (t: Self)
        ensures
            t@ == Map::<u64, (u64, u32)>::empty(),
    {
        Self::new()
    }
}

/// Hands out the value stored under `k`, to be changed in place.
/// std's `HashMap::get_mut`: `Some` with the value when `k` has one (the
/// map then holds, under `k`, whatever the reference holds at the end), and
/// `None`, with the map unchanged, when it has none.
#[verifier::external_body]
fn meta_get_mut<'a>(m: &'a mut HashMap<u64, SubgraphMeta>, k: u64) -> (r: Option<&'a mut SubgraphMeta>)
    ensures
        match r {
            Some(v) => old(m)@.contains_key(k) && *v == old(m)@[k] && final(m)@ == old(m)@.insert(
                k,
                *final(v),
            ),
            None => !old(m)@.contains_key(k) && final(m)@ == old(m)@,
        },
{
    m.get_mut(&k)
}

/// Subgraph ID → metadata.
#[derive(Debug, Clone)]
pub struct SubgraphIndex {
    inner: HashMap<u64, SubgraphMeta>,
}

impl View for SubgraphIndex {
    type V = Map<u64, SubgraphMeta>;

    closed spec fn view(&self) -> Map<u64, SubgraphMeta> {
        self.inner@
    }
}

impl SubgraphIndex {
    pub fn new() -> (t: Self)
        ensures
            t@ == Map::<u64, SubgraphMeta>::empty(),
    {
        broadcast use vstd::std_specs::hash::group_hash_axioms;

        Self { inner: HashMap::new() }
    }

    /// Store the metadata of a subgraph under its ID.
    pub fn insert(&mut self, meta: SubgraphMeta)
        ensures
            final(self)@ == old(self)@.insert(meta.id, meta),
    {
        broadcast use vstd::std_specs::hash::group_hash_axioms;

        let id = meta.id;
        self.inner.insert(id, meta);
    }

    pub fn get(&self, id: u64) -> (r: Option<&SubgraphMeta>)
        ensures
            match r {
                Some(m) => self@.contains_key(id) && *m == self@[id],
                None => !self@.contains_key(id),
            },
    {
        broadcast use vstd::std_specs::hash::group_hash_axioms;

        self.inner.get(&id)
    }

    /// The metadata of a subgraph, to be changed in place.
    pub fn get_mut(&mut self, id: u64) -> (r: Option<&mut SubgraphMeta>)
        ensures
            match r {
                Some(m) => old(self)@.contains_key(id) && *m == old(self)@[id] && final(self)@
                    == old(self)@.insert(id, *final(m)),
                None => !old(self)@.contains_key(id) && final(self)@ == old(self)@,
            },
    {
        meta_get_mut(&mut self.inner, id)
    }

    pub fn remove(&mut self, id: u64)
        ensures
            final(self)@ == old(self)@.remove(id),
    {
        broadcast use vstd::std_specs::hash::group_hash_axioms;

        self.inner.remove(&id);
    }

    pub fn len(&self) -> (r: usize)
        ensures
            r == self@.len(),
            self@.dom().finite(),
    {
        broadcast use vstd::std_specs::hash::group_hash_axioms;

        self.inner.len()
    }

    pub fn is_empty(&self) -> (r: bool)
        ensures
            r == (self@.len() == 0),
    {
        broadcast use vstd::std_specs::hash::group_hash_axioms;

        self.inner.is_empty()
    }

    /// The IDs of all subgraphs, each once, in no particular order.
    pub fn iter(&self) -> (r: Vec<u64>)
        ensures
            r@.len() == self@.len(),
            r@.to_set() == self@.dom(),
    {
        broadcast use vstd::std_specs::hash::group_hash_axioms;

        let ghost ks = vstd::std_specs::hash::spec_keys_iter(&self.inner).remaining();
        let mut r: Vec<u64> = Vec::new();
        for k in it: self.inner.keys()
            invariant
                it.seq() == ks,
                r@ == ks.take(it.index() as int).unref(),
        {
            r.push(*k);
            assert(r@ =~= ks.take(it.index() as int + 1).unref());
        }
        assert(r@ =~= ks.unref());
        r
    }
}

impl Default for SubgraphIndex {
    fn default() -> (t: Self)
        ensures
            t@ == Map::<u64, SubgraphMeta>::empty(),
    {
        Self::new()
    }
}


/// `s` without the occurrences of `id`, in order.
pub open spec fn ids_without(s: Seq<u64>, id: u64) -> Seq<u64>
    decreases s.len(),
{
    if s.len() == 0 {
        s
    } else {
        let r = ids_without(s.drop_last(), id);
        if s.last() == id {
            r
        } else {
            r.push(s.last())
        }
    }
}

fn copy_ids(v: &Vec<u64>) -> (r: Vec<u64>)
    ensures
        r@ == v@,
{
    let mut r: Vec<u64> = Vec::new();
    let mut i: usize = 0;
    while i < v.len()
        invariant
            i <= v@.len(),
            r@ == v@.take(i as int),
        decreases v@.len() - i,
    {
        r.push(v[i]);
        i += 1;
        assert(r@ =~= v@.take(i as int));
    }
    assert(v@.take(v@.len() as int) =~= v@);
    r
}

fn copy_ids_without(v: &Vec<u64>, id: u64) -> (r: Vec<u64>)
    ensures
        r@ == ids_without(v@, id),
{
    let mut r: Vec<u64> = Vec::new();
    let mut i: usize = 0;
    while i < v.len()
        invariant
            i <= v@.len(),
            r@ == ids_without(v@.take(i as int), id),
        decreases v@.len() - i,
    {
        assert(v@.take(i + 1).drop_last() =~= v@.take(i as int));
        if v[i] != id {
            r.push(v[i]);
        }
        i += 1;
    }
    assert(v@.take(v@.len() as int) =~= v@);
    r
}

/// The entries of a label map with each vertex list taken by its view.
pub open spec fn label_view(s: Seq<(Seq<char>, Vec<u64>)>) -> Seq<(Seq<char>, Seq<u64>)> {
    s.map_values(|e: (Seq<char>, Vec<u64>)| (e.0, e.1@))
}

proof fn lemma_label_view(s: Seq<(Seq<char>, Vec<u64>)>, k: Seq<char>)
    ensures
        label_view(s).len() == s.len(),
        forall|i: int| has_key_at(label_view(s), k, i) == has_key_at(s, k, i),
        contains_key(label_view(s), k) == contains_key(s, k),
        keys_sorted(label_view(s)) == keys_sorted(s),
        forall|p: int| insertion_point(label_view(s), k, p) == insertion_point(s, k, p),
{
    let t = label_view(s);
    assert forall|p: int| insertion_point(t, k, p) == insertion_point(s, k, p) by {
        if insertion_point(s, k, p) {
            assert forall|j: int| 0 <= j < p implies key_lt(t[j].0, k) by { assert(key_lt(s[j].0, k)); }
            assert forall|j: int| p <= j < t.len() implies key_lt(k, t[j].0) by { assert(key_lt(k, s[j].0)); }
        }
        if insertion_point(t, k, p) {
            assert forall|j: int| 0 <= j < p implies key_lt(s[j].0, k) by { assert(key_lt(t[j].0, k)); }
            assert forall|j: int| p <= j < s.len() implies key_lt(k, s[j].0) by { assert(key_lt(k, t[j].0)); }
        }
    }
    assert forall|i: int| has_key_at(t, k, i) == has_key_at(s, k, i) by {}
    if contains_key(s, k) {
        let i = choose|i: int| has_key_at(s, k, i);
        assert(has_key_at(t, k, i));
    }
    if contains_key(t, k) {
        let i = choose|i: int| has_key_at(t, k, i);
        assert(has_key_at(s, k, i));
    }
    if keys_sorted(s) {
        assert forall|a: int, b: int| 0 <= a < b < t.len() implies key_lt(t[a].0, t[b].0) by {
            assert(key_lt(s[a].0, s[b].0));
        }
    }
    if keys_sorted(t) {
        assert forall|a: int, b: int| 0 <= a < b < s.len() implies key_lt(s[a].0, s[b].0) by {
            assert(key_lt(t[a].0, t[b].0));
        }
    }
}

/// Label → the vertices carrying it, in the order they were added.
pub struct LabelIndex {
    inner: StrMap<Vec<u64>>,
}

impl View for LabelIndex {
    type V = Seq<(Seq<char>, Seq<u64>)>;

    closed spec fn view(&self) -> Seq<(Seq<char>, Seq<u64>)> {
        label_view(self.inner@)
    }
}

impl LabelIndex {
    pub fn new() -> (t: Self)
        ensures
            t@ == Seq::<(Seq<char>, Seq<u64>)>::empty(),
            keys_sorted(t@),
    {
        let t = Self { inner: StrMap::new() };
        assert(t@ =~= Seq::<(Seq<char>, Seq<u64>)>::empty());
        t
    }

    /// Add a vertex to a label group: it goes at the end of the label's
    /// list; a new label gets a list of its own at its place in label order.
    pub fn add(&mut self, label: &str, vertex_id: u64)
        ensures
            contains_key(old(self)@, label@) ==> exists|i: int|
                has_key_at(old(self)@, label@, i) && final(self)@ == old(self)@.update(
                    i,
                    (label@, old(self)@[i].1.push(vertex_id)),
                ),
            !contains_key(old(self)@, label@) ==> exists|p: int|
                insertion_point(old(self)@, label@, p) && final(self)@ == old(self)@.insert(
                    p,
                    (label@, seq![vertex_id]),
                ),
            keys_sorted(final(self)@),
    {
        let ghost s = self.inner@;
        let ghost k = label@;
        self.inner.len();
        proof {
            lemma_label_view(s, k);
        }
        match self.inner.remove(label) {
            Some(mut v) => {
                let ghost i = choose|i: int| has_key_at(s, k, i) && self.inner@ == s.remove(i) && Some(v) == Some(s[i].1);
                let ghost s1 = self.inner@;
                proof {
                    lemma_removed_insertion_point(s, i);
                    assert forall|j: int| 0 <= j < s1.len() implies s1[j].0 != k by {
                        if j < i {
                            if s1[j].0 == k { lemma_key_unique(s, k, i, j); }
                        } else {
                            if s1[j].0 == k { lemma_key_unique(s, k, i, j + 1); }
                        }
                    }
                }
                v.push(vertex_id);
                self.inner.insert(label.to_owned(), v);
                proof {
                    let p = choose|p: int| insertion_point(s1, k, p) && self.inner@ == s1.insert(p, (k, v));
                    lemma_insertion_point_unique(s1, k, p, i);
                    assert(self.inner@ =~= s.update(i, (k, v)));
                    assert(self@ =~= old(self)@.update(i, (k, old(self)@[i].1.push(vertex_id))));
                }
            },
            None => {
                let mut v: Vec<u64> = Vec::new();
                v.push(vertex_id);
                self.inner.insert(label.to_owned(), v);
                proof {
                    let p = choose|p: int| insertion_point(s, k, p) && self.inner@ == s.insert(p, (k, v));
                    assert(self@ =~= old(self)@.insert(p, (k, seq![vertex_id])));
                }
            },
        }
        proof {
            lemma_label_view(self.inner@, k);
        }
    }

    /// Remove a vertex from a label group (the label stays, even with no
    /// vertex left).
    pub fn remove(&mut self, label: &str, vertex_id: u64)
        ensures
            contains_key(old(self)@, label@) ==> exists|i: int|
                has_key_at(old(self)@, label@, i) && final(self)@ == old(self)@.update(
                    i,
                    (label@, ids_without(old(self)@[i].1, vertex_id)),
                ),
            !contains_key(old(self)@, label@) ==> final(self)@ == old(self)@,
            keys_sorted(final(self)@),
    {
        let ghost s = self.inner@;
        let ghost k = label@;
        self.inner.len();
        proof {
            lemma_label_view(s, k);
        }
        match self.inner.remove(label) {
            Some(v) => {
                let ghost i = choose|i: int| has_key_at(s, k, i) && self.inner@ == s.remove(i) && Some(v) == Some(s[i].1);
                let ghost s1 = self.inner@;
                proof {
                    lemma_removed_insertion_point(s, i);
                    assert forall|j: int| 0 <= j < s1.len() implies s1[j].0 != k by {
                        if j < i {
                            if s1[j].0 == k { lemma_key_unique(s, k, i, j); }
                        } else {
                            if s1[j].0 == k { lemma_key_unique(s, k, i, j + 1); }
                        }
                    }
                }
                let kept = copy_ids_without(&v, vertex_id);
                self.inner.insert(label.to_owned(), kept);
                proof {
                    let p = choose|p: int| insertion_point(s1, k, p) && self.inner@ == s1.insert(p, (k, kept));
                    lemma_insertion_point_unique(s1, k, p, i);
                    assert(self.inner@ =~= s.update(i, (k, kept)));
                    assert(self@ =~= old(self)@.update(i, (k, ids_without(old(self)@[i].1, vertex_id))));
                }
            },
            None => {},
        }
        proof {
            lemma_label_view(self.inner@, k);
        }
    }

    /// The vertices with a given label (none for an unknown label).
    pub fn get(&self, label: &str) -> (r: Vec<u64>)
        ensures
            contains_key(self@, label@) ==> exists|i: int| has_key_at(self@, label@, i) && r@ == self@[i].1,
            !contains_key(self@, label@) ==> r@.len() == 0,
            keys_sorted(self@),
    {
        proof {
            lemma_label_view(self.inner@, label@);
        }
        match self.inner.get(label) {
            Some(v) => {
                let r = copy_ids(v);
                proof {
                    let i = choose|i: int| has_key_at(self.inner@, label@, i) && *v == self.inner@[i].1;
                    assert(has_key_at(self@, label@, i) && r@ == self@[i].1);
                }
                r
            },
            None => Vec::new(),
        }
    }

    /// Label `i` in label order, and the vertices carrying it.
    pub fn entry_at(&self, i: usize) -> (r: (&String, &Vec<u64>))
        requires
            i < self@.len(),
        ensures
            r.0@ == self@[i as int].0,
            r.1@ == self@[i as int].1,
    {
        (self.inner.key_at(i), self.inner.value_at(i))
    }

    /// Number of labels.
    pub fn label_count(&self) -> (r: usize)
        ensures
            r == self@.len(),
            keys_sorted(self@),
    {
        proof {
            lemma_label_view(self.inner@, Seq::empty());
        }
        self.inner.len()
    }
}

impl Default for LabelIndex {
    fn default() -> (t: Self)
        ensures
            t@ == Seq::<(Seq<char>, Seq<u64>)>::empty(),
    {
        Self::new()
    }
}

/// All subgraph-level indexes, saved and loaded as one unit.
pub struct IndexBundle {
    pub vertex_index: VertexIndex,
    pub subgraph_index: SubgraphIndex,
    pub label_index: LabelIndex,
    /// The next vertex ID to hand out (global, not per subgraph).
    pub global_next_vertex_id: u64,
    /// The next edge ID to hand out (global, not per subgraph).
    pub global_next_edge_id: u64,
}

impl IndexBundle {
    /// Empty indexes; IDs start at 1.
    pub fn new() -> (b: Self)
        ensures
            b.vertex_index@ == Map::<u64, (u64, u32)>::empty(),
            b.subgraph_index@ == Map::<u64, SubgraphMeta>::empty(),
            b.label_index@ == Seq::<(Seq<char>, Seq<u64>)>::empty(),
            b.global_next_vertex_id == 1,
            b.global_next_edge_id == 1,
    {
        Self {
            vertex_index: VertexIndex::new(),
            subgraph_index: SubgraphIndex::new(),
            label_index: LabelIndex::new(),
            global_next_vertex_id: 1,
            global_next_edge_id: 1,
        }
    }
}

impl Default for IndexBundle {
    fn default() -> (b: Self)
        ensures
            b.vertex_index@ == Map::<u64, (u64, u32)>::empty(),
            b.subgraph_index@ == Map::<u64, SubgraphMeta>::empty(),
            b.label_index@ == Seq::<(Seq<char>, Seq<u64>)>::empty(),
            b.global_next_vertex_id == 1,
            b.global_next_edge_id == 1,
    {
        Self::new()
    }
}

} // verus!
