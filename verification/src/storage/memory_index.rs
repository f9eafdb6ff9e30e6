//! In-memory index structures for fast lookups during query execution.
//!
//! These structures are rebuilt from the data file at graph startup and
//! updated in lockstep with mutations.
use std::collections::{BTreeMap, BTreeSet, HashMap};
use vstd::prelude::*;
use crate::storage::ordered::{
    increasing_u32, increasing_u64, keys_u32, keys_u64, lemma_is_sorted_u32, lemma_is_sorted_u64,
    set_elems_u32, sorted_u32, sorted_u64,
};
use crate::storage::str_map::{
    contains_key, has_key_at, insertion_point, key_lt, keys_sorted, lemma_key_unique,
    key_bytes, lemma_insertion_point_unique, lemma_removed_insertion_point, StrMap,
};
use vstd::std_specs::hash::spec_keys_iter;
use vstd::std_specs::iter::IteratorSpec;
use vstd::string::StringSliceAdditionalSpecFns;

verus! {

broadcast use vstd::std_specs::btree::group_btree_axioms;

/// Points to the DataHeader of a vertex/edge/token record in the data file.
#[derive(Clone, Copy, Debug, PartialEq, Eq, Structural)]
pub struct MetaPointer {
    pub block_idx: u32,
    pub chunk_offset: u8,
}

impl MetaPointer {
    pub fn new(block_idx: u32, chunk_offset: u8) -> (p: Self)
        ensures
            p == (MetaPointer { block_idx, chunk_offset }),
    {
        Self { block_idx, chunk_offset }
    }
}


/// The entries of `m` in ascending key order.
fn entries_u32(m: &BTreeMap<u32, MetaPointer>) -> (r: Vec<(u32, MetaPointer)>)
    ensures
        increasing_u32(r@.map_values(|e: (u32, MetaPointer)| e.0)),
        r@.map_values(|e: (u32, MetaPointer)| e.0).to_set() == m@.dom(),
        forall|i: int| 0 <= i < r@.len() ==> #[trigger] m@[r@[i].0] == r@[i].1,
        r@.len() == m@.len(),
{
    let keys = keys_u32(m);
    let mut r: Vec<(u32, MetaPointer)> = Vec::new();
    let mut i: usize = 0;
    while i < keys.len()
        invariant
            i <= keys@.len(),
            keys@.to_set() == m@.dom(),
            r@.map_values(|e: (u32, MetaPointer)| e.0) == keys@.take(i as int),
            forall|j: int| 0 <= j < r@.len() ==> #[trigger] m@[r@[j].0] == r@[j].1,
        decreases keys@.len() - i,
    {
        let k = keys[i];
        assert(keys@.to_set().contains(k));
        let p = *m.get(&k).unwrap();
        let ghost before = r@;
        r.push((k, p));
        assert forall|j: int| 0 <= j < r@.len() implies #[trigger] m@[r@[j].0] == r@[j].1 by {
            if j < before.len() {
                assert(r@[j] == before[j]);
            }
        }
        assert(r@.map_values(|e: (u32, MetaPointer)| e.0) =~= before.map_values(|e: (u32, MetaPointer)| e.0).push(k));
        assert(keys@.take(i + 1) =~= keys@.take(i as int).push(k));
        i += 1;
    }
    assert(keys@.take(keys@.len() as int) =~= keys@);
    r
}

/// B-tree mapping `VertexId` → `MetaPointer`.
#[derive(Clone, Debug)]
pub struct VertexBTree {
    inner: BTreeMap<u32, MetaPointer>,
}

impl View for VertexBTree {
    type V = Map<u32, MetaPointer>;

    closed spec fn view(&self) -> Map<u32, MetaPointer> {
        self.inner@
    }
}

impl VertexBTree {
    pub fn new() -> (t: Self)
        ensures
            t@ == Map::<u32, MetaPointer>::empty(),
    {
        Self { inner: BTreeMap::new() }
    }

    /// Insert or update a mapping.
    pub fn insert(&mut self, vertex_id: u32, ptr: MetaPointer)
        ensures
            final(self)@ == old(self)@.insert(vertex_id, ptr),
    {
        self.inner.insert(vertex_id, ptr);
    }

    /// Look up a vertex by ID.
    pub fn get(&self, vertex_id: u32) -> (r: Option<&MetaPointer>)
        ensures
            match r {
                Some(p) => self@.contains_key(vertex_id) && *p == self@[vertex_id],
                None => !self@.contains_key(vertex_id),
            },
    {
        self.inner.get(&vertex_id)
    }

    /// Remove a vertex mapping, returning the pointer it had.
    pub fn remove(&mut self, vertex_id: u32) -> (r: Option<MetaPointer>)
        ensures
            final(self)@ == old(self)@.remove(vertex_id),
            match r {
                Some(p) => old(self)@.contains_key(vertex_id) && p == old(self)@[vertex_id],
                None => !old(self)@.contains_key(vertex_id),
            },
    {
        self.inner.remove(&vertex_id)
    }

    /// Whether the vertex exists.
    pub fn contains(&self, vertex_id: u32) -> (r: bool)
        ensures
            r == self@.contains_key(vertex_id),
    {
        self.inner.contains_key(&vertex_id)
    }

    /// Number of entries.
    pub fn len(&self) -> (r: usize)
        ensures
            r == self@.len(),
            self@.dom().finite(),
    {
        broadcast use vstd::std_specs::btree::group_btree_axioms;

        self.inner.len()
    }

    /// All entries, in ascending vertex-ID order.
    pub fn iter(&self) -> (r: Vec<(u32, MetaPointer)>)
        ensures
            increasing_u32(r@.map_values(|e: (u32, MetaPointer)| e.0)),
            r@.map_values(|e: (u32, MetaPointer)| e.0).to_set() == self@.dom(),
            forall|i: int| 0 <= i < r@.len() ==> #[trigger] self@[r@[i].0] == r@[i].1,
    {
        entries_u32(&self.inner)
    }

    /// Vertex IDs in ascending order.
    pub fn keys(&self) -> (r: Vec<u32>)
        ensures
            increasing_u32(r@),
            r@.to_set() == self@.dom(),
    {
        keys_u32(&self.inner)
    }
}

/// B-tree mapping `EdgeId` → `MetaPointer`.
#[derive(Clone, Debug)]
pub struct EdgeBTree {
    inner: BTreeMap<u32, MetaPointer>,
}

impl View for EdgeBTree {
    type V = Map<u32, MetaPointer>;

    closed spec fn view(&self) -> Map<u32, MetaPointer> {
        self.inner@
    }
}

impl EdgeBTree {
    pub fn new() -> (t: Self)
        ensures
            t@ == Map::<u32, MetaPointer>::empty(),
    {
        Self { inner: BTreeMap::new() }
    }

    /// Insert or update a mapping.
    pub fn insert(&mut self, edge_id: u32, ptr: MetaPointer)
        ensures
            final(self)@ == old(self)@.insert(edge_id, ptr),
    {
        self.inner.insert(edge_id, ptr);
    }

    /// Look up an edge by ID.
    pub fn get(&self, edge_id: u32) -> (r: Option<&MetaPointer>)
        ensures
            match r {
                Some(p) => self@.contains_key(edge_id) && *p == self@[edge_id],
                None => !self@.contains_key(edge_id),
            },
    {
        self.inner.get(&edge_id)
    }

    /// Remove an edge mapping, returning the pointer it had.
    pub fn remove(&mut self, edge_id: u32) -> (r: Option<MetaPointer>)
        ensures
            final(self)@ == old(self)@.remove(edge_id),
            match r {
                Some(p) => old(self)@.contains_key(edge_id) && p == old(self)@[edge_id],
                None => !old(self)@.contains_key(edge_id),
            },
    {
        self.inner.remove(&edge_id)
    }

    /// Whether the edge exists.
    pub fn contains(&self, edge_id: u32) -> (r: bool)
        ensures
            r == self@.contains_key(edge_id),
    {
        self.inner.contains_key(&edge_id)
    }

    /// Number of entries.
    pub fn len(&self) -> (r: usize)
        ensures
            r == self@.len(),
            self@.dom().finite(),
    {
        broadcast use vstd::std_specs::btree::group_btree_axioms;

        self.inner.len()
    }

    /// All entries, in ascending edge-ID order.
    pub fn iter(&self) -> (r: Vec<(u32, MetaPointer)>)
        ensures
            increasing_u32(r@.map_values(|e: (u32, MetaPointer)| e.0)),
            r@.map_values(|e: (u32, MetaPointer)| e.0).to_set() == self@.dom(),
            forall|i: int| 0 <= i < r@.len() ==> #[trigger] self@[r@[i].0] == r@[i].1,
    {
        entries_u32(&self.inner)
    }

    /// Edge IDs in ascending order.
    pub fn keys(&self) -> (r: Vec<u32>)
        ensures
            increasing_u32(r@),
            r@.to_set() == self@.dom(),
    {
        keys_u32(&self.inner)
    }
}

/// `s` without the occurrences of `p`, in order.
pub open spec fn ptrs_without(s: Seq<MetaPointer>, p: MetaPointer) -> Seq<MetaPointer>
    decreases s.len(),
{
    if s.len() == 0 {
        s
    } else {
        let r = ptrs_without(s.drop_last(), p);
        if s.last() == p {
            r
        } else {
            r.push(s.last())
        }
    }
}

/// `k` starts with the bytes `pre`.
pub open spec fn has_prefix(k: Seq<u8>, pre: Seq<u8>) -> bool {
    pre.len() <= k.len() && k.subrange(0, pre.len() as int) == pre
}

/// The entries of `s` whose key starts with the bytes `pre`, in order.
pub open spec fn prefix_entries(s: Seq<(Seq<char>, Seq<MetaPointer>)>, pre: Seq<u8>) -> Seq<
    (Seq<char>, Seq<MetaPointer>),
>
    decreases s.len(),
{
    if s.len() == 0 {
        s
    } else {
        let r = prefix_entries(s.drop_last(), pre);
        if has_prefix(key_bytes(s.last().0), pre) {
            r.push(s.last())
        } else {
            r
        }
    }
}

/// The entries of a sorted map whose keys start with `pre` are sorted too,
/// and each is an entry of the map.
pub proof fn lemma_prefix_entries_sorted(s: Seq<(Seq<char>, Seq<MetaPointer>)>, pre: Seq<u8>)
    requires
        keys_sorted(s),
    ensures
        keys_sorted(prefix_entries(s, pre)),
        forall|j: int|
            #![trigger prefix_entries(s, pre)[j]]
            0 <= j < prefix_entries(s, pre).len() ==> exists|i: int|
                0 <= i < s.len() && #[trigger] s[i] == prefix_entries(s, pre)[j],
    decreases s.len(),
{
    if s.len() > 0 {
        let d = s.drop_last();
        assert forall|a: int, b: int| 0 <= a < b < d.len() implies key_lt(d[a].0, d[b].0) by {
            assert(key_lt(s[a].0, s[b].0));
        }
        lemma_prefix_entries_sorted(d, pre);
        let r = prefix_entries(d, pre);
        let last = s.len() - 1;
        if has_prefix(key_bytes(s.last().0), pre) {
            let t = r.push(s.last());
            assert(prefix_entries(s, pre) == t);
            assert forall|a: int, b: int| 0 <= a < b < t.len() implies key_lt(t[a].0, t[b].0) by {
                if b == r.len() {
                    let i = choose|i: int| 0 <= i < d.len() && #[trigger] d[i] == r[a];
                    assert(key_lt(s[i].0, s[last].0));
                } else {
                    assert(key_lt(r[a].0, r[b].0));
                }
            }
            assert forall|j: int| #![trigger t[j]] 0 <= j < t.len() implies exists|i: int|
                0 <= i < s.len() && #[trigger] s[i] == t[j] by {
                if j < r.len() {
                    let i = choose|i: int| 0 <= i < d.len() && #[trigger] d[i] == r[j];
                    assert(s[i] == t[j]);
                } else {
                    assert(s[last] == t[j]);
                }
            }
        } else {
            assert(prefix_entries(s, pre) == r);
            assert forall|j: int| #![trigger r[j]] 0 <= j < r.len() implies exists|i: int|
                0 <= i < s.len() && #[trigger] s[i] == r[j] by {
                let i = choose|i: int| 0 <= i < d.len() && #[trigger] d[i] == r[j];
                assert(s[i] == r[j]);
            }
        }
    }
}

/// A copy of the pointers of `v`.
fn copy_ptrs(v: &Vec<MetaPointer>) -> (r: Vec<MetaPointer>)
    ensures
        r@ == v@,
{
    let mut r: Vec<MetaPointer> = Vec::new();
    let mut i: usize = 0;
    while i < v.len()
        invariant
            i <= v@.len(),
            r@ == v@.take(i as int),
        decreases v@.len() - i,
    {
        r.push(v[i]);
        i += 1;
        assert(r@ =~= v@.take(i as int));
    }
    assert(v@.take(v@.len() as int) =~= v@);
    r
}

/// The pointers of `v` other than `p`, in order.
fn copy_ptrs_without(v: &Vec<MetaPointer>, p: &MetaPointer) -> (r: Vec<MetaPointer>)
    ensures
        r@ == ptrs_without(v@, *p),
{
    let mut r: Vec<MetaPointer> = Vec::new();
    let mut i: usize = 0;
    while i < v.len()
        invariant
            i <= v@.len(),
            r@ == ptrs_without(v@.take(i as int), *p),
        decreases v@.len() - i,
    {
        assert(v@.take(i + 1).drop_last() =~= v@.take(i as int));
        if v[i] != *p {
            r.push(v[i]);
        }
        i += 1;
    }
    assert(v@.take(v@.len() as int) =~= v@);
    r
}

/// Whether the bytes `k` start with the bytes `pre`.
pub(crate) fn bytes_start_with(k: &[u8], pre: &[u8]) -> (r: bool)
    ensures
        r == has_prefix(k@, pre@),
{
    if pre.len() > k.len() {
        return false;
    }
    let mut i: usize = 0;
    while i < pre.len()
        invariant
            i <= pre@.len() <= k@.len(),
            forall|j: int| 0 <= j < i ==> k@[j] == pre@[j],
        decreases pre@.len() - i,
    {
        if k[i] != pre[i] {
            assert(k@.subrange(0, pre@.len() as int)[i as int] != pre@[i as int]);
            return false;
        }
        i += 1;
    }
    assert(k@.subrange(0, pre@.len() as int) =~= pre@);
    true
}

/// The entries of a token map with each pointer list taken by its view.
pub open spec fn token_view(s: Seq<(Seq<char>, Vec<MetaPointer>)>) -> Seq<(Seq<char>, Seq<MetaPointer>)> {
    s.map_values(|e: (Seq<char>, Vec<MetaPointer>)| (e.0, e.1@))
}

proof fn lemma_token_view(s: Seq<(Seq<char>, Vec<MetaPointer>)>, k: Seq<char>)
    ensures
        token_view(s).len() == s.len(),
        forall|i: int| has_key_at(token_view(s), k, i) == has_key_at(s, k, i),
        contains_key(token_view(s), k) == contains_key(s, k),
        keys_sorted(token_view(s)) == keys_sorted(s),
        forall|p: int| insertion_point(token_view(s), k, p) == insertion_point(s, k, p),
{
    let t = token_view(s);
    assert forall|p: int| insertion_point(t, k, p) == insertion_point(s, k, p) by {
        if insertion_point(s, k, p) {
            assert forall|j: int| 0 <= j < p implies key_lt(t[j].0, k) by { assert(key_lt(s[j].0, k)); }
            assert forall|j: int| p <= j < t.len() implies key_lt(k, t[j].0) by { assert(key_lt(k, s[j].0)); }
        }
        if insertion_point(t, k, p) {
            assert forall|j: int| 0 <= j < p implies key_lt(s[j].0, k) by { assert(key_lt(t[j].0, k)); }
            assert forall|j: int| p <= j < s.len() implies key_lt(k, s[j].0) by { assert(key_lt(k, t[j].0)); }
        }
    }
    assert forall|i: int| has_key_at(t, k, i) == has_key_at(s, k, i) by {}
    if contains_key(s, k) {
        let i = choose|i: int| has_key_at(s, k, i);
        assert(has_key_at(t, k, i));
    }
    if contains_key(t, k) {
        let i = choose|i: int| has_key_at(t, k, i);
        assert(has_key_at(s, k, i));
    }
    if keys_sorted(s) {
        assert forall|a: int, b: int| 0 <= a < b < t.len() implies key_lt(t[a].0, t[b].0) by {
            assert(key_lt(s[a].0, s[b].0));
        }
    }
    if keys_sorted(t) {
        assert forall|a: int, b: int| 0 <= a < b < s.len() implies key_lt(s[a].0, s[b].0) by {
            assert(key_lt(t[a].0, t[b].0));
        }
    }
}

/// Token map: token text → pointers, ordered by token for prefix search.
pub struct TokenMap {
    inner: StrMap<Vec<MetaPointer>>,
}

impl View for TokenMap {
    type V = Seq<(Seq<char>, Seq<MetaPointer>)>;

    closed spec fn view(&self) -> Seq<(Seq<char>, Seq<MetaPointer>)> {
        token_view(self.inner@)
    }
}

impl TokenMap {
    pub fn new() -> (t: Self)
        ensures
            t@ == Seq::<(Seq<char>, Seq<MetaPointer>)>::empty(),
            keys_sorted(t@),
    {
        let t = Self { inner: StrMap::new() };
        assert(t@ =~= Seq::<(Seq<char>, Seq<MetaPointer>)>::empty());
        t
    }

    /// Add a token → pointer mapping: the pointer goes at the end of the
    /// token's list, a new token gets a list of its own at its place in token
    /// order.
    pub fn insert(&mut self, token: String, ptr: MetaPointer)
        ensures
            contains_key(old(self)@, token@) ==> exists|i: int|
                has_key_at(old(self)@, token@, i) && final(self)@ == old(self)@.update(
                    i,
                    (token@, old(self)@[i].1.push(ptr)),
                ),
            !contains_key(old(self)@, token@) ==> exists|p: int|
                insertion_point(old(self)@, token@, p) && final(self)@ == old(self)@.insert(
                    p,
                    (token@, seq![ptr]),
                ),
            keys_sorted(final(self)@),
    {
        let ghost s = self.inner@;
        let ghost k = token@;
        self.inner.len();
        proof {
            lemma_token_view(s, k);
        }
        match self.inner.remove(token.as_str()) {
            Some(mut v) => {
                let ghost i = choose|i: int| has_key_at(s, k, i) && self.inner@ == s.remove(i) && Some(v) == Some(s[i].1);
                let ghost s1 = self.inner@;
                proof {
                    lemma_removed_insertion_point(s, i);
                    assert forall|j: int| 0 <= j < s1.len() implies s1[j].0 != k by {
                        if j < i {
                            if s1[j].0 == k { lemma_key_unique(s, k, i, j); }
                        } else {
                            if s1[j].0 == k { lemma_key_unique(s, k, i, j + 1); }
                        }
                    }
                }
                v.push(ptr);
                self.inner.insert(token, v);
                proof {
                    let p = choose|p: int| insertion_point(s1, k, p) && self.inner@ == s1.insert(p, (k, v));
                    lemma_insertion_point_unique(s1, k, p, i);
                    assert(self.inner@ =~= s.update(i, (k, v)));
                    assert(self@ =~= old(self)@.update(i, (k, old(self)@[i].1.push(ptr))));
                }
            },
            None => {
                let mut v: Vec<MetaPointer> = Vec::new();
                v.push(ptr);
                self.inner.insert(token, v);
                proof {
                    let p = choose|p: int| insertion_point(s, k, p) && self.inner@ == s.insert(p, (k, v));
                    assert(self@ =~= old(self)@.insert(p, (k, seq![ptr])));
                }
            },
        }
        proof {
            lemma_token_view(self.inner@, k);
        }
    }

    /// Exact match lookup.
    pub fn get(&self, token: &str) -> (r: Option<&Vec<MetaPointer>>)
        ensures
            match r {
                Some(v) => exists|i: int| has_key_at(self@, token@, i) && v@ == self@[i].1,
                None => !contains_key(self@, token@),
            },
            keys_sorted(self@),
    {
        proof {
            lemma_token_view(self.inner@, token@);
        }
        let r = self.inner.get(token);
        proof {
            if let Some(v) = r {
                let i = choose|i: int| has_key_at(self.inner@, token@, i) && *v == self.inner@[i].1;
                assert(has_key_at(self@, token@, i) && v@ == self@[i].1);
            }
        }
        r
    }

    /// The entries whose token starts with `prefix` (byte-wise), in token
    /// order.
    pub fn search_prefix(&self, prefix: &str) -> (r: Vec<(String, Vec<MetaPointer>)>)
        ensures
            r@.map_values(|e: (String, Vec<MetaPointer>)| (e.0@, e.1@)) == prefix_entries(
                self@,
                prefix.spec_bytes(),
            ),
            keys_sorted(self@),
            keys_sorted(r@.map_values(|e: (String, Vec<MetaPointer>)| (e.0@, e.1@))),
    {
        let pre = prefix.as_bytes();
        let mut r: Vec<(String, Vec<MetaPointer>)> = Vec::new();
        let mut i: usize = 0;
        while i < self.inner.len()
            invariant
                i <= self@.len(),
                self@.len() == self.inner@.len(),
                pre@ == prefix.spec_bytes(),
                r@.map_values(|e: (String, Vec<MetaPointer>)| (e.0@, e.1@)) == prefix_entries(
                    self@.take(i as int),
                    pre@,
                ),
            decreases self@.len() - i,
        {
            let k = self.inner.key_at(i);
            assert(self@.take(i + 1).drop_last() =~= self@.take(i as int));
            if bytes_start_with(k.as_str().as_bytes(), pre) {
                let ghost before = r@;
                r.push((k.clone(), copy_ptrs(self.inner.value_at(i))));
                assert(r@.map_values(|e: (String, Vec<MetaPointer>)| (e.0@, e.1@)) =~= before.map_values(|e: (String, Vec<MetaPointer>)| (e.0@, e.1@)).push(self@[i as int]));
            }
            i += 1;
        }
        assert(self@.take(self@.len() as int) =~= self@);
        proof {
            lemma_token_view(self.inner@, Seq::empty());
            lemma_prefix_entries_sorted(self@, pre@);
        }
        r
    }

    /// Whether a token exists.
    pub fn contains(&self, token: &str) -> (r: bool)
        ensures
            r == contains_key(self@, token@),
            keys_sorted(self@),
    {
        proof {
            lemma_token_view(self.inner@, token@);
        }
        self.inner.contains(token)
    }

    /// Number of unique tokens.
    pub fn len(&self) -> (r: usize)
        ensures
            r == self@.len(),
            keys_sorted(self@),
    {
        proof {
            lemma_token_view(self.inner@, Seq::empty());
        }
        self.inner.len()
    }

    pub fn is_empty(&self) -> (r: bool)
        ensures
            r == (self@.len() == 0),
            keys_sorted(self@),
    {
        proof {
            lemma_token_view(self.inner@, Seq::empty());
        }
        self.inner.len() == 0
    }

    /// All (token, pointers) entries, in token order.
    pub fn iter(&self) -> (r: Vec<(String, Vec<MetaPointer>)>)
        ensures
            r@.map_values(|e: (String, Vec<MetaPointer>)| (e.0@, e.1@)) == self@,
            keys_sorted(self@),
    {
        let mut r: Vec<(String, Vec<MetaPointer>)> = Vec::new();
        let mut i: usize = 0;
        while i < self.inner.len()
            invariant
                i <= self@.len(),
                self@.len() == self.inner@.len(),
                r@.map_values(|e: (String, Vec<MetaPointer>)| (e.0@, e.1@)) == self@.take(i as int),
            decreases self@.len() - i,
        {
            let k = self.inner.key_at(i);
            let ghost before = r@;
            r.push((k.clone(), copy_ptrs(self.inner.value_at(i))));
            assert(r@.map_values(|e: (String, Vec<MetaPointer>)| (e.0@, e.1@)) =~= before.map_values(|e: (String, Vec<MetaPointer>)| (e.0@, e.1@)).push(self@[i as int]));
            i += 1;
            assert(self@.take(i as int) =~= self@.take(i - 1).push(self@[i - 1]));
        }
        assert(self@.take(self@.len() as int) =~= self@);
        proof {
            lemma_token_view(self.inner@, Seq::empty());
        }
        r
    }

    /// Remove a pointer from a token's list; a token left with no pointer
    /// goes away.
    pub fn remove_pointer(&mut self, token: &str, ptr: &MetaPointer)
        ensures
            contains_key(old(self)@, token@) ==> exists|i: int|
                has_key_at(old(self)@, token@, i) && final(self)@ == if ptrs_without(
                    old(self)@[i].1,
                    *ptr,
                ).len() == 0 {
                    old(self)@.remove(i)
                } else {
                    old(self)@.update(i, (token@, ptrs_without(old(self)@[i].1, *ptr)))
                },
            !contains_key(old(self)@, token@) ==> final(self)@ == old(self)@,
            keys_sorted(final(self)@),
    {
        let ghost s = self.inner@;
        let ghost k = token@;
        self.inner.len();
        proof {
            lemma_token_view(s, k);
        }
        match self.inner.remove(token) {
            Some(v) => {
                let ghost i = choose|i: int| has_key_at(s, k, i) && self.inner@ == s.remove(i) && Some(v) == Some(s[i].1);
                let ghost s1 = self.inner@;
                let kept = copy_ptrs_without(&v, ptr);
                if kept.len() > 0 {
                    proof {
                        lemma_removed_insertion_point(s, i);
                        assert forall|j: int| 0 <= j < s1.len() implies s1[j].0 != k by {
                            if j < i {
                                if s1[j].0 == k { lemma_key_unique(s, k, i, j); }
                            } else {
                                if s1[j].0 == k { lemma_key_unique(s, k, i, j + 1); }
                            }
                        }
                    }
                    self.inner.insert(token.to_owned(), kept);
                    proof {
                        let p = choose|p: int| insertion_point(s1, k, p) && self.inner@ == s1.insert(p, (k, kept));
                        lemma_insertion_point_unique(s1, k, p, i);
                        assert(self.inner@ =~= s.update(i, (k, kept)));
                        assert(self@ =~= old(self)@.update(i, (k, ptrs_without(old(self)@[i].1, *ptr))));
                    }
                } else {
                    assert(self@ =~= old(self)@.remove(i));
                }
            },
            None => {},
        }
        proof {
            lemma_token_view(self.inner@, k);
        }
    }

    /// Remove all pointers for a token.
    pub fn remove_token(&mut self, token: &str)
        ensures
            contains_key(old(self)@, token@) ==> exists|i: int|
                has_key_at(old(self)@, token@, i) && final(self)@ == old(self)@.remove(i),
            !contains_key(old(self)@, token@) ==> final(self)@ == old(self)@,
            keys_sorted(final(self)@),
    {
        let ghost s = self.inner@;
        proof {
            lemma_token_view(s, token@);
        }
        match self.inner.remove(token) {
            Some(_) => {
                proof {
                    let i = choose|i: int| has_key_at(s, token@, i) && self.inner@ == s.remove(i);
                    assert(self@ =~= old(self)@.remove(i));
                }
            },
            None => {},
        }
        proof {
            lemma_token_view(self.inner@, token@);
        }
    }
}


/// The pointer lists of `m` at the ranks `ks`, one after another.
pub open spec fn rank_lists(m: Map<u32, Seq<MetaPointer>>, ks: Seq<u32>) -> Seq<MetaPointer>
    decreases ks.len(),
{
    if ks.len() == 0 {
        Seq::empty()
    } else {
        rank_lists(m, ks.drop_last()) + m[ks.last()]
    }
}

/// The ranks of `m` at or above `min_rank`, highest first.
pub open spec fn ranks_desc_from(m: Map<u32, Seq<MetaPointer>>, min_rank: u32) -> Seq<u32> {
    sorted_u32(m.dom().filter(|k: u32| k >= min_rank)).reverse()
}

/// The pointers of `m` at ranks at or above `min_rank`: highest rank first,
/// and within a rank in insertion order.
pub open spec fn pointers_from_rank(m: Map<u32, Seq<MetaPointer>>, min_rank: u32) -> Seq<MetaPointer> {
    rank_lists(m, ranks_desc_from(m, min_rank))
}

/// No key of `m` maps to an empty list.
pub open spec fn lists_nonempty<K>(m: Map<K, Seq<MetaPointer>>) -> bool {
    forall|k: K| #[trigger] m.contains_key(k) ==> m[k].len() > 0
}

/// `m` with `p` appended to the list at `k` (a new list if `k` has none).
pub open spec fn push_at<K, T>(m: Map<K, Seq<T>>, k: K, p: T) -> Map<K, Seq<T>> {
    if m.contains_key(k) {
        m.insert(k, m[k].push(p))
    } else {
        m.insert(k, seq![p])
    }
}

/// `m` with every `p` taken out of the list at `k`; a list left empty goes
/// away with its key.
pub open spec fn remove_at<K>(m: Map<K, Seq<MetaPointer>>, k: K, p: MetaPointer) -> Map<K, Seq<MetaPointer>> {
    if m.contains_key(k) {
        if ptrs_without(m[k], p).len() == 0 {
            m.remove(k)
        } else {
            m.insert(k, ptrs_without(m[k], p))
        }
    } else {
        m
    }
}

proof fn lemma_rank_lists_push(m: Map<u32, Seq<MetaPointer>>, ks: Seq<u32>, k: u32)
    ensures
        rank_lists(m, ks.push(k)) == rank_lists(m, ks) + m[k],
{
    assert(ks.push(k).drop_last() =~= ks);
}

/// The keys of an ascending `keys` from index `i` on, when every key before
/// `i` is below `min_rank` and every key from `i` on is not, are the
/// ascending ranks at or above `min_rank`.
proof fn lemma_suffix_is_sorted_from(keys: Seq<u32>, dom: Set<u32>, i: int, min_rank: u32)
    requires
        increasing_u32(keys),
        keys.to_set() == dom,
        0 <= i <= keys.len(),
        forall|j: int| 0 <= j < i ==> keys[j] < min_rank,
        forall|j: int| i <= j < keys.len() ==> keys[j] >= min_rank,
    ensures
        sorted_u32(dom.filter(|k: u32| k >= min_rank)) == keys.subrange(i, keys.len() as int),
{
    let suf = keys.subrange(i, keys.len() as int);
    let f = dom.filter(|k: u32| k >= min_rank);
    assert forall|x: u32| suf.to_set().contains(x) <==> f.contains(x) by {
        if suf.to_set().contains(x) {
            let j = choose|j: int| 0 <= j < suf.len() && suf[j] == x;
            assert(keys[j + i] == x);
            assert(keys.to_set().contains(x));
        }
        if f.contains(x) {
            assert(keys.to_set().contains(x));
            let j = choose|j: int| 0 <= j < keys.len() && keys[j] == x;
            assert(suf[j - i] == x);
        }
    }
    assert(suf.to_set() =~= f);
    lemma_is_sorted_u32(suf, f);
}

/// The index of the first key of `keys` at or above `min_rank` (its length
/// when there is none), for ascending `keys`.
pub open spec fn first_at_least(keys: Seq<u32>, min_rank: u32) -> int
    decreases keys.len(),
{
    if keys.len() == 0 {
        0
    } else if keys.last() < min_rank {
        keys.len() as int
    } else {
        first_at_least(keys.drop_last(), min_rank)
    }
}

/// The first `n` elements of `s`, or all of them when it has fewer.
pub open spec fn first_n<T>(s: Seq<T>, n: int) -> Seq<T> {
    if n < s.len() {
        s.take(n)
    } else {
        s
    }
}

proof fn lemma_first_at_least(keys: Seq<u32>, min_rank: u32)
    requires
        increasing_u32(keys),
    ensures
        0 <= first_at_least(keys, min_rank) <= keys.len(),
        forall|j: int| 0 <= j < first_at_least(keys, min_rank) ==> keys[j] < min_rank,
        forall|j: int| first_at_least(keys, min_rank) <= j < keys.len() ==> keys[j] >= min_rank,
    decreases keys.len(),
{
    if keys.len() > 0 {
        let d = keys.drop_last();
        assert(increasing_u32(d));
        lemma_first_at_least(d, min_rank);
        if keys.last() < min_rank {
            assert forall|j: int| 0 <= j < keys.len() implies keys[j] < min_rank by {
                if j < keys.len() - 1 {
                    assert(keys[j] < keys[keys.len() - 1]);
                }
            }
        } else {
            assert forall|j: int| 0 <= j < first_at_least(keys, min_rank) implies keys[j]
                < min_rank by {
                assert(keys[j] == d[j]);
            }
            assert forall|j: int| first_at_least(keys, min_rank) <= j < keys.len() implies keys[j]
                >= min_rank by {
                if j < keys.len() - 1 {
                    assert(keys[j] == d[j]);
                }
            }
        }
    }
}

proof fn lemma_rank_lists_concat(m: Map<u32, Seq<MetaPointer>>, a: Seq<u32>, b: Seq<u32>)
    ensures
        rank_lists(m, a + b) == rank_lists(m, a) + rank_lists(m, b),
    decreases b.len(),
{
    if b.len() == 0 {
        assert(a + b =~= a);
        assert(rank_lists(m, a) + rank_lists(m, b) =~= rank_lists(m, a));
    } else {
        lemma_rank_lists_concat(m, a, b.drop_last());
        assert((a + b).drop_last() =~= a + b.drop_last());
        assert(rank_lists(m, a + b) =~= rank_lists(m, a) + rank_lists(m, b));
    }
}

/// Walking an ascending `keys` down from the top: the lists of the keys from
/// `i` on come first, then those from `f` to `i`.
proof fn lemma_rank_lists_split(m: Map<u32, Seq<MetaPointer>>, keys: Seq<u32>, f: int, i: int)
    requires
        0 <= f <= i <= keys.len(),
    ensures
        rank_lists(m, keys.subrange(f, keys.len() as int).reverse()) == rank_lists(
            m,
            keys.subrange(i, keys.len() as int).reverse(),
        ) + rank_lists(m, keys.subrange(f, i).reverse()),
{
    assert(keys.subrange(f, keys.len() as int).reverse() =~= keys.subrange(i, keys.len() as int).reverse()
        + keys.subrange(f, i).reverse());
    lemma_rank_lists_concat(
        m,
        keys.subrange(i, keys.len() as int).reverse(),
        keys.subrange(f, i).reverse(),
    );
}

proof fn lemma_first_n_concat(a: Seq<MetaPointer>, b: Seq<MetaPointer>, n: int)
    requires
        n >= 0,
    ensures
        first_n(first_n(a, n) + b, n) == first_n(a + b, n),
{
    assert(first_n(first_n(a, n) + b, n) =~= first_n(a + b, n));
}

proof fn lemma_first_n_prefix(a: Seq<MetaPointer>, b: Seq<MetaPointer>, n: int)
    requires
        0 <= n,
        first_n(a, n).len() >= n,
    ensures
        first_n(a + b, n) == first_n(a, n),
{
    assert(first_n(a + b, n) =~= first_n(a, n));
}

/// Append the elements of `v` to `r` in order while `r` holds fewer than
/// `limit`.
fn append_up_to(r: &mut Vec<MetaPointer>, v: &Vec<MetaPointer>, limit: usize)
    requires
        old(r)@.len() <= limit,
    ensures
        final(r)@ == first_n(old(r)@ + v@, limit as int),
{
    let ghost r0 = r@;
    let mut j: usize = 0;
    while j < v.len() && r.len() < limit
        invariant
            j <= v@.len(),
            r@ == r0 + v@.take(j as int),
            r@.len() <= limit,
            r0.len() <= limit,
        decreases v@.len() - j,
    {
        r.push(v[j]);
        j += 1;
        assert(r@ =~= r0 + v@.take(j as int));
    }
    assert(r@ =~= first_n(r0 + v@, limit as int));
}

/// Rank-ordered pointers: rank → the pointers at that rank.
#[derive(Clone, Debug)]
pub struct RankIndex {
    inner: BTreeMap<u32, Vec<MetaPointer>>,
}

impl View for RankIndex {
    type V = Map<u32, Seq<MetaPointer>>;

    closed spec fn view(&self) -> Map<u32, Seq<MetaPointer>> {
        self.inner@.map_values(|v: Vec<MetaPointer>| v@)
    }
}

impl RankIndex {
    pub fn new() -> (t: Self)
        ensures
            t@ == Map::<u32, Seq<MetaPointer>>::empty(),
            lists_nonempty(t@),
    {
        let t = Self { inner: BTreeMap::new() };
        assert(t@ =~= Map::<u32, Seq<MetaPointer>>::empty());
        t
    }

    /// Add a pointer at a given rank, after those already there.
    pub fn insert(&mut self, rank: u32, ptr: MetaPointer)
        ensures
            final(self)@ == push_at(old(self)@, rank, ptr),
            lists_nonempty(old(self)@) ==> lists_nonempty(final(self)@),
    {
        let v = match self.inner.remove(&rank) {
            Some(mut v) => {
                v.push(ptr);
                v
            },
            None => {
                let mut v: Vec<MetaPointer> = Vec::new();
                v.push(ptr);
                v
            },
        };
        self.inner.insert(rank, v);
        assert(self@ =~= push_at(old(self)@, rank, ptr));
    }

    /// Remove a pointer from the rank index; a rank left with no pointer
    /// goes away.
    pub fn remove(&mut self, rank: u32, ptr: &MetaPointer)
        ensures
            final(self)@ == remove_at(old(self)@, rank, *ptr),
            lists_nonempty(old(self)@) ==> lists_nonempty(final(self)@),
    {
        match self.inner.remove(&rank) {
            Some(v) => {
                let kept = copy_ptrs_without(&v, ptr);
                if kept.len() > 0 {
                    self.inner.insert(rank, kept);
                }
            },
            None => {},
        }
        assert(self@ =~= remove_at(old(self)@, rank, *ptr));
    }

    /// Each rank with its pointers, lowest rank first.
    pub fn entries(&self) -> (r: Vec<(u32, Vec<MetaPointer>)>)
        ensures
            increasing_u32(r@.map_values(|e: (u32, Vec<MetaPointer>)| e.0)),
            r@.map_values(|e: (u32, Vec<MetaPointer>)| e.0).to_set() == self@.dom(),
            forall|i: int| 0 <= i < r@.len() ==> #[trigger] self@[r@[i].0] == r@[i].1@,
    {
        let keys = keys_u32(&self.inner);
        let mut r: Vec<(u32, Vec<MetaPointer>)> = Vec::new();
        let mut i: usize = 0;
        while i < keys.len()
            invariant
                i <= keys@.len(),
                keys@.to_set() == self.inner@.dom(),
                increasing_u32(keys@),
                r@.map_values(|e: (u32, Vec<MetaPointer>)| e.0) == keys@.take(i as int),
                forall|j: int| 0 <= j < r@.len() ==> #[trigger] self@[r@[j].0] == r@[j].1@,
            decreases keys@.len() - i,
        {
            let k = keys[i];
            assert(keys@.to_set().contains(k));
            let v = copy_ptrs(self.inner.get(&k).unwrap());
            let ghost before = r@;
            r.push((k, v));
            assert forall|j: int| 0 <= j < r@.len() implies #[trigger] self@[r@[j].0] == r@[j].1@ by {
                if j < before.len() {
                    assert(r@[j] == before[j]);
                }
            }
            assert(r@.map_values(|e: (u32, Vec<MetaPointer>)| e.0) =~= before.map_values(
                |e: (u32, Vec<MetaPointer>)| e.0,
            ).push(k));
            assert(keys@.take(i + 1) =~= keys@.take(i as int).push(k));
            i += 1;
        }
        assert(keys@.take(keys@.len() as int) =~= keys@);
        assert(self@.dom() =~= self.inner@.dom());
        r
    }

    /// All pointers at or above a minimum rank, highest rank first.
    pub fn get_above(&self, min_rank: u32) -> (r: Vec<&MetaPointer>)
        ensures
            r@.map_values(|p: &MetaPointer| *p) == pointers_from_rank(self@, min_rank),
    {
        let keys = keys_u32(&self.inner);
        let ghost m = self@;
        let mut result: Vec<&MetaPointer> = Vec::new();
        let mut i: usize = keys.len();
        while i > 0
            invariant_except_break
                i <= keys@.len(),
                increasing_u32(keys@),
                keys@.to_set() == m.dom(),
                m == self@,
                forall|j: int| i <= j < keys@.len() ==> keys@[j] >= min_rank,
                result@.map_values(|p: &MetaPointer| *p) == rank_lists(
                    m,
                    keys@.subrange(i as int, keys@.len() as int).reverse(),
                ),
            ensures
                i <= keys@.len(),
                increasing_u32(keys@),
                keys@.to_set() == m.dom(),
                forall|j: int| 0 <= j < i ==> keys@[j] < min_rank,
                forall|j: int| i <= j < keys@.len() ==> keys@[j] >= min_rank,
                result@.map_values(|p: &MetaPointer| *p) == rank_lists(
                    m,
                    keys@.subrange(i as int, keys@.len() as int).reverse(),
                ),
            decreases i,
        {
            let k = keys[i - 1];
            if k < min_rank {
                assert forall|j: int| 0 <= j < i implies keys@[j] < min_rank by {
                    if j < i - 1 {
                        assert(keys@[j] < keys@[i - 1]);
                    }
                }
                break;
            }
            assert(keys@.to_set().contains(k));
            let v = self.inner.get(&k).unwrap();
            let ghost before = result@.map_values(|p: &MetaPointer| *p);
            let mut j: usize = 0;
            while j < v.len()
                invariant
                    j <= v@.len(),
                    result@.map_values(|p: &MetaPointer| *p) == before + v@.take(j as int),
                decreases v@.len() - j,
            {
                let ghost r0 = result@;
                result.push(&v[j]);
                assert(result@.map_values(|p: &MetaPointer| *p) =~= r0.map_values(|p: &MetaPointer| *p).push(v@[j as int]));
                assert(v@.take(j + 1) =~= v@.take(j as int).push(v@[j as int]));
                j += 1;
            }
            assert(v@.take(v@.len() as int) =~= v@);
            proof {
                let suf = keys@.subrange(i - 1, keys@.len() as int);
                assert(suf.reverse() =~= keys@.subrange(i as int, keys@.len() as int).reverse().push(k));
                lemma_rank_lists_push(m, keys@.subrange(i as int, keys@.len() as int).reverse(), k);
            }
            i -= 1;
        }
        proof {
            lemma_suffix_is_sorted_from(keys@, m.dom(), i as int, min_rank);
        }
        result
    }

    /// All pointers, highest rank first.
    pub fn all_by_rank(&self) -> (r: Vec<&MetaPointer>)
        ensures
            r@.map_values(|p: &MetaPointer| *p) == pointers_from_rank(self@, 0),
    {
        self.get_above(0)
    }

    /// Up to `limit` pointers from the highest ranks down, skipping the ranks
    /// below `min_rank` when one is given.
    pub fn top_pointers(&self, limit: usize, min_rank: Option<u32>) -> (r: Vec<MetaPointer>)
        ensures
            r@ == first_n(
                pointers_from_rank(
                    self@,
                    match min_rank {
                        Some(mr) => mr,
                        None => 0,
                    },
                ),
                limit as int,
            ),
    {
        let ghost mr0: u32 = match min_rank {
            Some(mr) => mr,
            None => 0,
        };
        if limit == 0 {
            return Vec::new();
        }
        let keys = keys_u32(&self.inner);
        let ghost m = self@;
        let ghost f = first_at_least(keys@, mr0);
        proof {
            assert(m.dom() =~= self.inner@.dom());
            lemma_first_at_least(keys@, mr0);
            lemma_suffix_is_sorted_from(keys@, m.dom(), f, mr0);
        }
        let ghost total = rank_lists(m, keys@.subrange(f, keys@.len() as int).reverse());
        assert(total == pointers_from_rank(self@, mr0));
        let mut result: Vec<MetaPointer> = Vec::new();
        let mut i: usize = keys.len();
        while i > 0
            invariant_except_break
                0 <= f <= i <= keys@.len(),
                keys@.to_set() == m.dom(),
                m == self@,
                forall|j: int| 0 <= j < f ==> keys@[j] < mr0,
                forall|j: int| f <= j < keys@.len() ==> keys@[j] >= mr0,
                total == rank_lists(m, keys@.subrange(f, keys@.len() as int).reverse()),
                total == pointers_from_rank(self@, mr0),
                result@ == first_n(
                    rank_lists(m, keys@.subrange(i as int, keys@.len() as int).reverse()),
                    limit as int,
                ),
                mr0 == match min_rank {
                    Some(mr) => mr,
                    None => 0u32,
                },
            ensures
                result@ == first_n(total, limit as int),
            decreases i,
        {
            let k = keys[i - 1];
            let pass = match min_rank {
                Some(mr) => k >= mr,
                None => true,
            };
            if !pass {
                assert(i == f);
                break;
            }
            assert(i - 1 >= f);
            assert(keys@.to_set().contains(k));
            let v = self.inner.get(&k).unwrap();
            let ghost before = rank_lists(m, keys@.subrange(i as int, keys@.len() as int).reverse());
            let ghost after = rank_lists(m, keys@.subrange(i - 1, keys@.len() as int).reverse());
            proof {
                assert(v@ == m[k]);
                assert(keys@.subrange(i - 1, keys@.len() as int).reverse() =~= keys@.subrange(
                    i as int,
                    keys@.len() as int,
                ).reverse().push(k));
                lemma_rank_lists_push(m, keys@.subrange(i as int, keys@.len() as int).reverse(), k);
                lemma_first_n_concat(before, v@, limit as int);
            }
            append_up_to(&mut result, v, limit);
            if result.len() >= limit {
                proof {
                    lemma_rank_lists_split(m, keys@, f, i - 1);
                    lemma_first_n_prefix(after, rank_lists(m, keys@.subrange(f, i - 1).reverse()), limit as int);
                }
                return result;
            }
            i -= 1;
        }
        result
    }

    /// Number of distinct rank values.
    pub fn len(&self) -> (r: usize)
        ensures
            r == self@.len(),
            self@.dom().finite(),
    {
        broadcast use vstd::std_specs::btree::group_btree_axioms;

        proof {
            assert(self@.dom() =~= self.inner@.dom());
        }
        self.inner.len()
    }
}


/// The pointers of `m` at the access times `ks`, one after another, each
/// paired with its access time.
pub open spec fn atime_pairs(m: Map<u64, Seq<MetaPointer>>, ks: Seq<u64>) -> Seq<(u64, MetaPointer)>
    decreases ks.len(),
{
    if ks.len() == 0 {
        Seq::empty()
    } else {
        atime_pairs(m, ks.drop_last()) + m[ks.last()].map_values(|p: MetaPointer| (ks.last(), p))
    }
}

/// The (access time, pointer) pairs of `m` with access time at most
/// `threshold`: oldest first, and within one access time in insertion order.
pub open spec fn pairs_up_to(m: Map<u64, Seq<MetaPointer>>, threshold: u64) -> Seq<(u64, MetaPointer)> {
    atime_pairs(m, sorted_u64(times_up_to(m.dom(), threshold)))
}

/// The access times of `dom` that are at most `threshold`.
pub open spec fn times_up_to(dom: Set<u64>, threshold: u64) -> Set<u64> {
    dom.filter(|k: u64| k <= threshold)
}

/// The keys of an ascending `keys` before index `i`, when every key before
/// `i` is at most `threshold` and every key from `i` on is above it, are the
/// ascending access times at most `threshold`.
proof fn lemma_prefix_is_sorted_up_to(keys: Seq<u64>, dom: Set<u64>, i: int, threshold: u64)
    requires
        increasing_u64(keys),
        keys.to_set() == dom,
        0 <= i <= keys.len(),
        forall|j: int| 0 <= j < i ==> keys[j] <= threshold,
        forall|j: int| i <= j < keys.len() ==> keys[j] > threshold,
    ensures
        sorted_u64(times_up_to(dom, threshold)) == keys.take(i),
        keys.take(i).to_set() == times_up_to(dom, threshold),
        increasing_u64(keys.take(i)),
{
    let pre = keys.take(i);
    let f = times_up_to(dom, threshold);
    assert forall|x: u64| pre.to_set().contains(x) <==> f.contains(x) by {
        if pre.to_set().contains(x) {
            let j = choose|j: int| 0 <= j < pre.len() && pre[j] == x;
            assert(keys[j] == x);
            assert(keys.to_set().contains(x));
        }
        if f.contains(x) {
            assert(keys.to_set().contains(x));
            let j = choose|j: int| 0 <= j < keys.len() && keys[j] == x;
            assert(pre[j] == x);
        }
    }
    assert(pre.to_set() =~= f);
    lemma_is_sorted_u64(pre, f);
}

/// Access-time ordered pointers: access time (µs) → the pointers last
/// accessed then.
#[derive(Clone, Debug)]
pub struct AtimeIndex {
    inner: BTreeMap<u64, Vec<MetaPointer>>,
}

impl View for AtimeIndex {
    type V = Map<u64, Seq<MetaPointer>>;

    closed spec fn view(&self) -> Map<u64, Seq<MetaPointer>> {
        self.inner@.map_values(|v: Vec<MetaPointer>| v@)
    }
}

impl AtimeIndex {
    pub fn new() -> (t: Self)
        ensures
            t@ == Map::<u64, Seq<MetaPointer>>::empty(),
            lists_nonempty(t@),
    {
        let t = Self { inner: BTreeMap::new() };
        assert(t@ =~= Map::<u64, Seq<MetaPointer>>::empty());
        t
    }

    /// Add a pointer at the given access time, after those already there.
    pub fn insert(&mut self, atime: u64, ptr: MetaPointer)
        ensures
            final(self)@ == push_at(old(self)@, atime, ptr),
            lists_nonempty(old(self)@) ==> lists_nonempty(final(self)@),
    {
        let v = match self.inner.remove(&atime) {
            Some(mut v) => {
                v.push(ptr);
                v
            },
            None => {
                let mut v: Vec<MetaPointer> = Vec::new();
                v.push(ptr);
                v
            },
        };
        self.inner.insert(atime, v);
        assert(self@ =~= push_at(old(self)@, atime, ptr));
    }

    /// Remove a pointer from the access-time index; an access time left with
    /// no pointer goes away.
    pub fn remove(&mut self, atime: u64, ptr: &MetaPointer)
        ensures
            final(self)@ == remove_at(old(self)@, atime, *ptr),
            lists_nonempty(old(self)@) ==> lists_nonempty(final(self)@),
    {
        match self.inner.remove(&atime) {
            Some(v) => {
                let kept = copy_ptrs_without(&v, ptr);
                if kept.len() > 0 {
                    self.inner.insert(atime, kept);
                }
            },
            None => {},
        }
        assert(self@ =~= remove_at(old(self)@, atime, *ptr));
    }

    /// All pointers with access time at most `threshold`, oldest first.
    pub fn range_up_to(&self, threshold: u64) -> (r: Vec<(u64, MetaPointer)>)
        ensures
            r@ == pairs_up_to(self@, threshold),
            self@.dom().finite(),
            increasing_u64(sorted_u64(times_up_to(self@.dom(), threshold))),
            sorted_u64(times_up_to(self@.dom(), threshold)).to_set() == times_up_to(
                self@.dom(),
                threshold,
            ),
    {
        let keys = keys_u64(&self.inner);
        let ghost m = self@;
        proof {
            assert(m.dom() =~= self.inner@.dom());
        }
        let mut result: Vec<(u64, MetaPointer)> = Vec::new();
        let mut i: usize = 0;
        while i < keys.len()
            invariant_except_break
                i <= keys@.len(),
                increasing_u64(keys@),
                keys@.to_set() == m.dom(),
                m == self@,
                forall|j: int| 0 <= j < i ==> keys@[j] <= threshold,
                result@ == atime_pairs(m, keys@.take(i as int)),
            ensures
                i <= keys@.len(),
                increasing_u64(keys@),
                keys@.to_set() == m.dom(),
                forall|j: int| 0 <= j < i ==> keys@[j] <= threshold,
                forall|j: int| i <= j < keys@.len() ==> keys@[j] > threshold,
                result@ == atime_pairs(m, keys@.take(i as int)),
            decreases keys@.len() - i,
        {
            let k = keys[i];
            if k > threshold {
                assert forall|j: int| i <= j < keys@.len() implies keys@[j] > threshold by {
                    if j > i {
                        assert(keys@[i as int] < keys@[j]);
                    }
                }
                break;
            }
            assert(keys@.to_set().contains(k));
            let v = self.inner.get(&k).unwrap();
            let ghost before = result@;
            let mut j: usize = 0;
            while j < v.len()
                invariant
                    j <= v@.len(),
                    result@ == before + v@.take(j as int).map_values(|p: MetaPointer| (k, p)),
                decreases v@.len() - j,
            {
                result.push((k, v[j]));
                j += 1;
                assert(result@ =~= before + v@.take(j as int).map_values(|p: MetaPointer| (k, p)));
            }
            proof {
                assert(v@.take(v@.len() as int) =~= v@);
                assert(keys@.take(i + 1).drop_last() =~= keys@.take(i as int));
            }
            i += 1;
        }
        proof {
            lemma_prefix_is_sorted_up_to(keys@, m.dom(), i as int, threshold);
        }
        result
    }

    /// Number of distinct access times.
    pub fn len(&self) -> (r: usize)
        ensures
            r == self@.len(),
            self@.dom().finite(),
    {
        broadcast use vstd::std_specs::btree::group_btree_axioms;

        proof {
            assert(self@.dom() =~= self.inner@.dom());
        }
        self.inner.len()
    }
}


/// An adjacency entry: (edge ID, vertex at the other end, edge pointer).
pub open spec fn edges_without(s: Seq<(u32, u32, MetaPointer)>, other: u32, p: MetaPointer) -> Seq<
    (u32, u32, MetaPointer),
>
    decreases s.len(),
{
    if s.len() == 0 {
        s
    } else {
        let r = edges_without(s.drop_last(), other, p);
        if s.last().1 == other && s.last().2 == p {
            r
        } else {
            r.push(s.last())
        }
    }
}

/// `m` with the entries of `k`'s list that lead to `other` through `p` taken
/// out (the list stays, even when left empty).
pub open spec fn drop_edges(
    m: Map<u32, Seq<(u32, u32, MetaPointer)>>,
    k: u32,
    other: u32,
    p: MetaPointer,
) -> Map<u32, Seq<(u32, u32, MetaPointer)>> {
    if m.contains_key(k) {
        m.insert(k, edges_without(m[k], other, p))
    } else {
        m
    }
}

/// The entries of `v` other than those leading to `other` through `p`, in
/// order.
fn copy_edges_without(v: &Vec<(u32, u32, MetaPointer)>, other: u32, p: &MetaPointer) -> (r: Vec<
    (u32, u32, MetaPointer),
>)
    ensures
        r@ == edges_without(v@, other, *p),
{
    let mut r: Vec<(u32, u32, MetaPointer)> = Vec::new();
    let mut i: usize = 0;
    while i < v.len()
        invariant
            i <= v@.len(),
            r@ == edges_without(v@.take(i as int), other, *p),
        decreases v@.len() - i,
    {
        assert(v@.take(i + 1).drop_last() =~= v@.take(i as int));
        let e = v[i];
        if e.1 != other || e.2 != *p {
            r.push(e);
        }
        i += 1;
    }
    assert(v@.take(v@.len() as int) =~= v@);
    r
}

/// Edges of each vertex, both ways.
#[derive(Clone, Debug)]
pub struct AdjacencyIndex {
    /// forward[v]: (edge ID, target vertex, edge pointer) of each edge out of v.
    forward: HashMap<u32, Vec<(u32, u32, MetaPointer)>>,
    /// backward[v]: (edge ID, source vertex, edge pointer) of each edge into v.
    backward: HashMap<u32, Vec<(u32, u32, MetaPointer)>>,
}

impl AdjacencyIndex {
    /// The outgoing lists: vertex → (edge ID, target, edge pointer).
    pub closed spec fn out_map(&self) -> Map<u32, Seq<(u32, u32, MetaPointer)>> {
        self.forward@.map_values(|v: Vec<(u32, u32, MetaPointer)>| v@)
    }

    /// The incoming lists: vertex → (edge ID, source, edge pointer).
    pub closed spec fn in_map(&self) -> Map<u32, Seq<(u32, u32, MetaPointer)>> {
        self.backward@.map_values(|v: Vec<(u32, u32, MetaPointer)>| v@)
    }

    pub fn new() -> (t: Self)
        ensures
            t.out_map() == Map::<u32, Seq<(u32, u32, MetaPointer)>>::empty(),
            t.in_map() == Map::<u32, Seq<(u32, u32, MetaPointer)>>::empty(),
            paired(t.out_map(), t.in_map()),
    {
        broadcast use vstd::std_specs::hash::group_hash_axioms;

        let t = Self { forward: HashMap::new(), backward: HashMap::new() };
        assert(t.out_map() =~= Map::<u32, Seq<(u32, u32, MetaPointer)>>::empty());
        assert(t.in_map() =~= Map::<u32, Seq<(u32, u32, MetaPointer)>>::empty());
        t
    }

    /// Register an edge: it goes at the end of its source's outgoing list and
    /// of its target's incoming list.
    pub fn add_edge(&mut self, edge_id: u32, source: u32, target: u32, edge_ptr: MetaPointer)
        ensures
            final(self).out_map() == push_at(old(self).out_map(), source, (edge_id, target, edge_ptr)),
            final(self).in_map() == push_at(old(self).in_map(), target, (edge_id, source, edge_ptr)),
            paired(old(self).out_map(), old(self).in_map()) ==> paired(
                final(self).out_map(),
                final(self).in_map(),
            ),
    {
        broadcast use vstd::std_specs::hash::group_hash_axioms;

        let mut f = match self.forward.remove(&source) {
            Some(v) => v,
            None => Vec::new(),
        };
        f.push((edge_id, target, edge_ptr));
        self.forward.insert(source, f);
        let mut b = match self.backward.remove(&target) {
            Some(v) => v,
            None => Vec::new(),
        };
        b.push((edge_id, source, edge_ptr));
        self.backward.insert(target, b);
        assert(self.out_map() =~= push_at(old(self).out_map(), source, (edge_id, target, edge_ptr)));
        assert(self.in_map() =~= push_at(old(self).in_map(), target, (edge_id, source, edge_ptr)));
        proof {
            if paired(old(self).out_map(), old(self).in_map()) {
                lemma_add_edge_keeps_pairing(
                    old(self).out_map(),
                    old(self).in_map(),
                    edge_id,
                    source,
                    target,
                    edge_ptr,
                );
            }
        }
    }

    /// Set the outgoing list of `vertex_id` (used when loading a saved
    /// index).
    pub fn set_out_edges(&mut self, vertex_id: u32, edges: Vec<(u32, u32, MetaPointer)>)
        ensures
            final(self).out_map() == old(self).out_map().insert(vertex_id, edges@),
            final(self).in_map() == old(self).in_map(),
    {
        broadcast use vstd::std_specs::hash::group_hash_axioms;

        let ghost e = edges@;
        self.forward.insert(vertex_id, edges);
        assert(self.out_map() =~= old(self).out_map().insert(vertex_id, e));
        assert(self.in_map() =~= old(self).in_map());
    }

    /// Set the incoming list of `vertex_id` (used when loading a saved
    /// index).
    pub fn set_in_edges(&mut self, vertex_id: u32, edges: Vec<(u32, u32, MetaPointer)>)
        ensures
            final(self).in_map() == old(self).in_map().insert(vertex_id, edges@),
            final(self).out_map() == old(self).out_map(),
    {
        broadcast use vstd::std_specs::hash::group_hash_axioms;

        let ghost e = edges@;
        self.backward.insert(vertex_id, edges);
        assert(self.in_map() =~= old(self).in_map().insert(vertex_id, e));
        assert(self.out_map() =~= old(self).out_map());
    }

    /// Remove an edge: the entries from `source` to `target` through
    /// `edge_ptr` leave both lists.
    pub fn remove_edge(&mut self, source: u32, target: u32, edge_ptr: &MetaPointer)
        ensures
            final(self).out_map() == drop_edges(old(self).out_map(), source, target, *edge_ptr),
            final(self).in_map() == drop_edges(old(self).in_map(), target, source, *edge_ptr),
            paired(old(self).out_map(), old(self).in_map()) ==> paired(
                final(self).out_map(),
                final(self).in_map(),
            ),
    {
        broadcast use vstd::std_specs::hash::group_hash_axioms;

        match self.forward.remove(&source) {
            Some(v) => {
                let kept = copy_edges_without(&v, target, edge_ptr);
                self.forward.insert(source, kept);
            },
            None => {},
        }
        match self.backward.remove(&target) {
            Some(v) => {
                let kept = copy_edges_without(&v, source, edge_ptr);
                self.backward.insert(target, kept);
            },
            None => {},
        }
        assert(self.out_map() =~= drop_edges(old(self).out_map(), source, target, *edge_ptr));
        assert(self.in_map() =~= drop_edges(old(self).in_map(), target, source, *edge_ptr));
        proof {
            if paired(old(self).out_map(), old(self).in_map()) {
                lemma_remove_edge_keeps_pairing(
                    old(self).out_map(),
                    old(self).in_map(),
                    source,
                    target,
                    *edge_ptr,
                );
            }
        }
    }

    /// Outgoing edges of a vertex: (edge ID, target, edge pointer).
    pub fn out_edges(&self, vertex_id: u32) -> (r: &[(u32, u32, MetaPointer)])
        ensures
            r@ == if self.out_map().contains_key(vertex_id) {
                self.out_map()[vertex_id]
            } else {
                Seq::empty()
            },
    {
        broadcast use vstd::std_specs::hash::group_hash_axioms;

        match self.forward.get(&vertex_id) {
            Some(v) => v.as_slice(),
            None => &[],
        }
    }

    /// Incoming edges of a vertex: (edge ID, source, edge pointer).
    pub fn in_edges(&self, vertex_id: u32) -> (r: &[(u32, u32, MetaPointer)])
        ensures
            r@ == if self.in_map().contains_key(vertex_id) {
                self.in_map()[vertex_id]
            } else {
                Seq::empty()
            },
    {
        broadcast use vstd::std_specs::hash::group_hash_axioms;

        match self.backward.get(&vertex_id) {
            Some(v) => v.as_slice(),
            None => &[],
        }
    }

    /// All vertices with at least one edge either way, ascending.
    pub fn all_vertices(&self) -> (r: Vec<u32>)
        ensures
            r@ == sorted_u32(linked_vertices(self.out_map(), self.in_map())),
            increasing_u32(r@),
            r@.to_set() == linked_vertices(self.out_map(), self.in_map()),
            self.out_map().dom().finite(),
            self.in_map().dom().finite(),
    {
        broadcast use vstd::std_specs::hash::group_hash_axioms;

        let ghost om = self.out_map();
        let ghost im = self.in_map();
        let ghost linked = linked_vertices(om, im);
        let mut set: BTreeSet<u32> = BTreeSet::new();
        let ghost fk = self.forward@.dom();
        for k in it: self.forward.keys()
            invariant
                fk == self.forward@.dom(),
                om == self.out_map(),
                linked == linked_vertices(om, im),
                set@.subset_of(linked),
                forall|j: int|
                    0 <= j < it.index() && om[*#[trigger] it.seq()[j]].len() > 0 ==> set@.contains(
                        *it.seq()[j],
                    ),
                it.seq() == spec_keys_iter(&self.forward).remaining(),
        {
            proof {
                assert(it.seq().unref().to_set().contains(*k)) by {
                    assert(it.seq().unref()[it.index() as int] == *k);
                }
            }
            match self.forward.get(k) {
                Some(v) => {
                    if v.len() > 0 {
                        set.insert(*k);
                    }
                },
                None => {},
            }
        }
        proof {
            assert forall|x: u32| om.contains_key(x) && om[x].len() > 0 implies set@.contains(x) by {
                let ks = spec_keys_iter(&self.forward).remaining();
                assert(ks.unref().to_set().contains(x));
                let j = choose|j: int| 0 <= j < ks.unref().len() && ks.unref()[j] == x;
                assert(*ks[j] == x);
            }
        }
        let ghost bk = self.backward@.dom();
        for k in it: self.backward.keys()
            invariant
                bk == self.backward@.dom(),
                om == self.out_map(),
                im == self.in_map(),
                linked == linked_vertices(om, im),
                set@.subset_of(linked),
                forall|x: u32| om.contains_key(x) && om[x].len() > 0 ==> #[trigger] set@.contains(x),
                forall|j: int|
                    0 <= j < it.index() && im[*#[trigger] it.seq()[j]].len() > 0 ==> set@.contains(
                        *it.seq()[j],
                    ),
                it.seq() == spec_keys_iter(&self.backward).remaining(),
        {
            proof {
                assert(it.seq().unref().to_set().contains(*k)) by {
                    assert(it.seq().unref()[it.index() as int] == *k);
                }
            }
            match self.backward.get(k) {
                Some(v) => {
                    if v.len() > 0 {
                        set.insert(*k);
                    }
                },
                None => {},
            }
        }
        proof {
            assert forall|x: u32| im.contains_key(x) && im[x].len() > 0 implies set@.contains(x) by {
                let ks = spec_keys_iter(&self.backward).remaining();
                assert(ks.unref().to_set().contains(x));
                let j = choose|j: int| 0 <= j < ks.unref().len() && ks.unref()[j] == x;
                assert(*ks[j] == x);
            }
        }
        let r = set_elems_u32(&set);
        proof {
            assert(set@ =~= linked);
            lemma_is_sorted_u32(r@, linked);
            assert(self.out_map().dom() =~= self.forward@.dom());
            assert(self.in_map().dom() =~= self.backward@.dom());
        }
        r
    }
}

/// The vertices with a non-empty outgoing or incoming list.
pub open spec fn linked_vertices(
    out_map: Map<u32, Seq<(u32, u32, MetaPointer)>>,
    in_map: Map<u32, Seq<(u32, u32, MetaPointer)>>,
) -> Set<u32> {
    Set::new(
        |v: u32|
            (out_map.contains_key(v) && out_map[v].len() > 0) || (in_map.contains_key(v)
                && in_map[v].len() > 0),
    )
}

/// The list of `v` in `m`; empty where `m` has none.
pub open spec fn list_at(m: Map<u32, Seq<(u32, u32, MetaPointer)>>, v: u32) -> Seq<
    (u32, u32, MetaPointer),
> {
    if m.contains_key(v) {
        m[v]
    } else {
        Seq::empty()
    }
}

/// How many times `x` occurs in `s`.
pub open spec fn occurrences(s: Seq<(u32, u32, MetaPointer)>, x: (u32, u32, MetaPointer)) -> nat
    decreases s.len(),
{
    if s.len() == 0 {
        0
    } else {
        occurrences(s.drop_last(), x) + if s.last() == x {
            1nat
        } else {
            0nat
        }
    }
}

/// Every edge (ID `e`, pointer `p`) from `s` to `t` is listed as often among
/// the outgoing edges of `s` as among the incoming edges of `t`.
pub open spec fn paired(
    out_map: Map<u32, Seq<(u32, u32, MetaPointer)>>,
    in_map: Map<u32, Seq<(u32, u32, MetaPointer)>>,
) -> bool {
    forall|s: u32, t: u32, e: u32, p: MetaPointer|
        #![trigger occurrences(list_at(out_map, s), (e, t, p))]
        #![trigger occurrences(list_at(in_map, t), (e, s, p))]
        occurrences(list_at(out_map, s), (e, t, p)) == occurrences(list_at(in_map, t), (e, s, p))
}

/// Appending one entry adds one occurrence of it.
pub proof fn lemma_occurrences_push(
    s: Seq<(u32, u32, MetaPointer)>,
    a: (u32, u32, MetaPointer),
    x: (u32, u32, MetaPointer),
)
    ensures
        occurrences(s.push(a), x) == occurrences(s, x) + if a == x {
            1nat
        } else {
            0nat
        },
{
    assert(s.push(a).drop_last() =~= s);
}

/// Dropping the entries that lead to `other` through `q` takes away every
/// occurrence of such an entry and keeps the others.
pub proof fn lemma_occurrences_without(
    s: Seq<(u32, u32, MetaPointer)>,
    other: u32,
    q: MetaPointer,
    x: (u32, u32, MetaPointer),
)
    ensures
        occurrences(edges_without(s, other, q), x) == if x.1 == other && x.2 == q {
            0nat
        } else {
            occurrences(s, x)
        },
    decreases s.len(),
{
    if s.len() > 0 {
        lemma_occurrences_without(s.drop_last(), other, q, x);
        let r = edges_without(s.drop_last(), other, q);
        if !(s.last().1 == other && s.last().2 == q) {
            lemma_occurrences_push(r, s.last(), x);
        }
    }
}

/// Registering an edge (`AdjacencyIndex::add_edge`) keeps the outgoing and
/// incoming lists paired.
pub proof fn lemma_add_edge_keeps_pairing(
    out_map: Map<u32, Seq<(u32, u32, MetaPointer)>>,
    in_map: Map<u32, Seq<(u32, u32, MetaPointer)>>,
    edge_id: u32,
    source: u32,
    target: u32,
    edge_ptr: MetaPointer,
)
    requires
        paired(out_map, in_map),
    ensures
        paired(
            push_at(out_map, source, (edge_id, target, edge_ptr)),
            push_at(in_map, target, (edge_id, source, edge_ptr)),
        ),
{
    let o2 = push_at(out_map, source, (edge_id, target, edge_ptr));
    let i2 = push_at(in_map, target, (edge_id, source, edge_ptr));
    assert forall|s: u32, t: u32, e: u32, p: MetaPointer|
        occurrences(list_at(o2, s), (e, t, p)) == occurrences(list_at(i2, t), (e, s, p)) by {
        assert(occurrences(list_at(out_map, s), (e, t, p)) == occurrences(
            list_at(in_map, t),
            (e, s, p),
        ));
        if s == source {
            assert(list_at(o2, s) =~= list_at(out_map, s).push((edge_id, target, edge_ptr)));
            lemma_occurrences_push(list_at(out_map, s), (edge_id, target, edge_ptr), (e, t, p));
        } else {
            assert(list_at(o2, s) == list_at(out_map, s));
        }
        if t == target {
            assert(list_at(i2, t) =~= list_at(in_map, t).push((edge_id, source, edge_ptr)));
            lemma_occurrences_push(list_at(in_map, t), (edge_id, source, edge_ptr), (e, s, p));
        } else {
            assert(list_at(i2, t) == list_at(in_map, t));
        }
    }
}

/// Removing an edge (`AdjacencyIndex::remove_edge`) keeps the outgoing and
/// incoming lists paired.
pub proof fn lemma_remove_edge_keeps_pairing(
    out_map: Map<u32, Seq<(u32, u32, MetaPointer)>>,
    in_map: Map<u32, Seq<(u32, u32, MetaPointer)>>,
    source: u32,
    target: u32,
    edge_ptr: MetaPointer,
)
    requires
        paired(out_map, in_map),
    ensures
        paired(
            drop_edges(out_map, source, target, edge_ptr),
            drop_edges(in_map, target, source, edge_ptr),
        ),
{
    let o2 = drop_edges(out_map, source, target, edge_ptr);
    let i2 = drop_edges(in_map, target, source, edge_ptr);
    assert forall|s: u32, t: u32, e: u32, p: MetaPointer|
        occurrences(list_at(o2, s), (e, t, p)) == occurrences(list_at(i2, t), (e, s, p)) by {
        assert(occurrences(list_at(out_map, s), (e, t, p)) == occurrences(
            list_at(in_map, t),
            (e, s, p),
        ));
        if s == source && out_map.contains_key(s) {
            lemma_occurrences_without(list_at(out_map, s), target, edge_ptr, (e, t, p));
        } else {
            assert(list_at(o2, s) == list_at(out_map, s));
        }
        if t == target && in_map.contains_key(t) {
            lemma_occurrences_without(list_at(in_map, t), source, edge_ptr, (e, s, p));
        } else {
            assert(list_at(i2, t) == list_at(in_map, t));
        }
    }
}

/// One change of an adjacency index, with the arguments of the call that
/// makes it: `AdjacencyIndex::add_edge` or `AdjacencyIndex::remove_edge`.
pub enum AdjacencyChange {
    Add { edge_id: u32, source: u32, target: u32, edge_ptr: MetaPointer },
    Remove { source: u32, target: u32, edge_ptr: MetaPointer },
}

/// The (outgoing, incoming) lists of an index built by `AdjacencyIndex::new`
/// and then given `changes`, in order (the effects that `add_edge` and
/// `remove_edge` state).
pub open spec fn lists_after(changes: Seq<AdjacencyChange>) -> (
    Map<u32, Seq<(u32, u32, MetaPointer)>>,
    Map<u32, Seq<(u32, u32, MetaPointer)>>,
)
    decreases changes.len(),
{
    if changes.len() == 0 {
        (Map::empty(), Map::empty())
    } else {
        let before = lists_after(changes.drop_last());
        match changes.last() {
            AdjacencyChange::Add { edge_id, source, target, edge_ptr } => (
                push_at(before.0, source, (edge_id, target, edge_ptr)),
                push_at(before.1, target, (edge_id, source, edge_ptr)),
            ),
            AdjacencyChange::Remove { source, target, edge_ptr } => (
                drop_edges(before.0, source, target, edge_ptr),
                drop_edges(before.1, target, source, edge_ptr),
            ),
        }
    }
}

/// The sources of the edges that `changes` add.
pub open spec fn added_sources(changes: Seq<AdjacencyChange>) -> Set<u32>
    decreases changes.len(),
{
    if changes.len() == 0 {
        Set::empty()
    } else {
        match changes.last() {
            AdjacencyChange::Add { source, .. } => added_sources(changes.drop_last()).insert(source),
            AdjacencyChange::Remove { .. } => added_sources(changes.drop_last()),
        }
    }
}

/// After any sequence of `add_edge` and `remove_edge` calls on a new
/// adjacency index, every edge is listed as often among its source's
/// outgoing edges as among its target's incoming edges, and a vertex that was
/// never the source of an added edge has no outgoing edges.
pub proof fn lemma_changes_keep_lists_paired(changes: Seq<AdjacencyChange>)
    ensures
        paired(lists_after(changes).0, lists_after(changes).1),
        lists_after(changes).0.dom().subset_of(added_sources(changes)),
        forall|v: u32|
            !added_sources(changes).contains(v) ==> #[trigger] list_at(lists_after(changes).0, v).len()
                == 0,
    decreases changes.len(),
{
    if changes.len() > 0 {
        let d = changes.drop_last();
        lemma_changes_keep_lists_paired(d);
        let before = lists_after(d);
        match changes.last() {
            AdjacencyChange::Add { edge_id, source, target, edge_ptr } => {
                lemma_add_edge_keeps_pairing(before.0, before.1, edge_id, source, target, edge_ptr);
            },
            AdjacencyChange::Remove { source, target, edge_ptr } => {
                lemma_remove_edge_keeps_pairing(before.0, before.1, source, target, edge_ptr);
            },
        }
    }
}

/// The key of an entity in the token reference map: its kind (0 vertex,
/// 1 edge) in the high 32 bits, its ID in the low 32 bits.
pub open spec fn entity_key(ref_type: u8, ref_id: u32) -> u64 {
    (ref_type * 0x1_0000_0000 + ref_id) as u64
}

/// Distinct entities have distinct keys.
pub proof fn lemma_entity_key_injective(t1: u8, id1: u32, t2: u8, id2: u32)
    ensures
        entity_key(t1, id1) == entity_key(t2, id2) <==> (t1 == t2 && id1 == id2),
{
}

/// The key of entity (`ref_type`, `ref_id`) in `MemoryIndex::token_ref`.
pub fn entity_key_of(ref_type: u8, ref_id: u32) -> (k: u64)
    ensures
        k == entity_key(ref_type, ref_id),
{
    (ref_type as u64) * 0x1_0000_0000u64 + (ref_id as u64)
}

/// The entity whose key is `k`.
pub fn entity_of_key(k: u64) -> (r: (u8, u32))
    requires
        k < 0x100_0000_0000,
    ensures
        entity_key(r.0, r.1) == k,
{
    let t = (k / 0x1_0000_0000u64) as u8;
    let id = (k % 0x1_0000_0000u64) as u32;
    (t, id)
}

/// The texts of a list of strings.
pub open spec fn texts(v: Seq<String>) -> Seq<Seq<char>> {
    v.map_values(|s: String| s@)
}

/// A copy of the strings of `v`.
fn copy_strings(v: &Vec<String>) -> (r: Vec<String>)
    ensures
        texts(r@) == texts(v@),
{
    let mut r: Vec<String> = Vec::new();
    let mut i: usize = 0;
    while i < v.len()
        invariant
            i <= v@.len(),
            texts(r@) == texts(v@.take(i as int)),
        decreases v@.len() - i,
    {
        let ghost before = r@;
        r.push(v[i].clone());
        assert(texts(r@) =~= texts(before).push(v@[i as int]@));
        i += 1;
        assert(texts(v@.take(i as int)) =~= texts(v@.take(i - 1)).push(v@[i - 1]@));
    }
    assert(v@.take(v@.len() as int) =~= v@);
    r
}

/// All in-memory index structures of one graph.
pub struct MemoryIndex {
    pub vertex_id: VertexBTree,
    pub edge_id: EdgeBTree,
    pub token: TokenMap,
    pub rank: RankIndex,
    pub atime: AtimeIndex,
    pub vertex_adjacency: AdjacencyIndex,
    /// Entity (see `entity_key`) → the token strings that reference it.
    pub token_ref: HashMap<u64, Vec<String>>,
    /// Name → vertex ID.
    pub vertex_name: StrMap<u32>,
    /// (source name, target name, edge name) key → edge ID.
    pub edge_name: StrMap<u32>,
}

impl MemoryIndex {
    /// The token reference map by its texts.
    pub closed spec fn token_refs(&self) -> Map<u64, Seq<Seq<char>>> {
        self.token_ref@.map_values(|v: Vec<String>| texts(v@))
    }

    /// All indexes empty.
    pub fn new() -> (mi: Self)
        ensures
            mi.vertex_id@ == Map::<u32, MetaPointer>::empty(),
            mi.edge_id@ == Map::<u32, MetaPointer>::empty(),
            mi.token@ == Seq::<(Seq<char>, Seq<MetaPointer>)>::empty(),
            mi.rank@ == Map::<u32, Seq<MetaPointer>>::empty(),
            mi.atime@ == Map::<u64, Seq<MetaPointer>>::empty(),
            mi.vertex_adjacency.out_map() == Map::<u32, Seq<(u32, u32, MetaPointer)>>::empty(),
            mi.vertex_adjacency.in_map() == Map::<u32, Seq<(u32, u32, MetaPointer)>>::empty(),
            mi.token_refs() == Map::<u64, Seq<Seq<char>>>::empty(),
            mi.vertex_name@ == Seq::<(Seq<char>, u32)>::empty(),
            mi.edge_name@ == Seq::<(Seq<char>, u32)>::empty(),
    {
        broadcast use vstd::std_specs::hash::group_hash_axioms;

        let mi = MemoryIndex {
            vertex_id: VertexBTree::new(),
            edge_id: EdgeBTree::new(),
            token: TokenMap::new(),
            rank: RankIndex::new(),
            atime: AtimeIndex::new(),
            vertex_adjacency: AdjacencyIndex::new(),
            token_ref: HashMap::new(),
            vertex_name: StrMap::new(),
            edge_name: StrMap::new(),
        };
        assert(mi.token_refs() =~= Map::<u64, Seq<Seq<char>>>::empty());
        mi
    }

    /// Record that a token references an entity: the token goes at the end
    /// of the entity's list.
    pub fn add_entity_token(&mut self, ref_type: u8, ref_id: u32, token_str: &str)
        ensures
            final(self).token_refs() == push_at(
                old(self).token_refs(),
                entity_key(ref_type, ref_id),
                token_str@,
            ),
    {
        broadcast use vstd::std_specs::hash::group_hash_axioms;

        let key = entity_key_of(ref_type, ref_id);
        let mut list = match self.token_ref.remove(&key) {
            Some(v) => v,
            None => Vec::new(),
        };
        let ghost before = list@;
        list.push(token_str.to_owned());
        assert(texts(list@) =~= texts(before).push(token_str@));
        proof {
            if !old(self).token_refs().contains_key(key) {
                assert(texts(list@) =~= seq![token_str@]);
            }
        }
        self.token_ref.insert(key, list);
        assert(self.token_refs() =~= push_at(old(self).token_refs(), key, token_str@));
    }

    /// The token strings referencing an entity, in the order they were
    /// recorded.
    pub fn get_entity_tokens(&self, ref_type: u8, ref_id: u32) -> (r: Vec<String>)
        ensures
            texts(r@) == if self.token_refs().contains_key(entity_key(ref_type, ref_id)) {
                self.token_refs()[entity_key(ref_type, ref_id)]
            } else {
                Seq::empty()
            },
    {
        broadcast use vstd::std_specs::hash::group_hash_axioms;

        let key = entity_key_of(ref_type, ref_id);
        match self.token_ref.get(&key) {
            Some(v) => copy_strings(v),
            None => {
                let r: Vec<String> = Vec::new();
                assert(texts(r@) =~= Seq::<Seq<char>>::empty());
                r
            },
        }
    }

    /// Remove all references to an entity, returning the token strings that
    /// referenced it.
    pub fn remove_entity_token_refs(&mut self, ref_type: u8, ref_id: u32) -> (r: Vec<String>)
        ensures
            final(self).token_refs() == old(self).token_refs().remove(entity_key(ref_type, ref_id)),
            texts(r@) == if old(self).token_refs().contains_key(entity_key(ref_type, ref_id)) {
                old(self).token_refs()[entity_key(ref_type, ref_id)]
            } else {
                Seq::empty()
            },
    {
        broadcast use vstd::std_specs::hash::group_hash_axioms;

        let key = entity_key_of(ref_type, ref_id);
        let r = match self.token_ref.remove(&key) {
            Some(v) => v,
            None => {
                let r: Vec<String> = Vec::new();
                assert(texts(r@) =~= Seq::<Seq<char>>::empty());
                r
            },
        };
        assert(self.token_refs() =~= old(self).token_refs().remove(key));
        r
    }

    /// Look up a vertex ID by name.
    pub fn get_vertex_id_by_name(&self, name: &str) -> (r: Option<u32>)
        ensures
            match r {
                Some(id) => exists|i: int|
                    has_key_at(self.vertex_name@, name@, i) && id == self.vertex_name@[i].1,
                None => !contains_key(self.vertex_name@, name@),
            },
    {
        match self.vertex_name.get(name) {
            Some(id) => Some(*id),
            None => None,
        }
    }

    /// Look up an edge ID by its name key.
    pub fn get_edge_id_by_name(&self, name: &str) -> (r: Option<u32>)
        ensures
            match r {
                Some(id) => exists|i: int|
                    has_key_at(self.edge_name@, name@, i) && id == self.edge_name@[i].1,
                None => !contains_key(self.edge_name@, name@),
            },
    {
        match self.edge_name.get(name) {
            Some(id) => Some(*id),
            None => None,
        }
    }
}

} // verus!
