//! LRU block cache with dirty-page tracking and writeback, split across
//! independent shards.
use std::collections::{HashMap, VecDeque};
use vstd::prelude::*;
use vstd::std_specs::iter::IteratorSpec;
use crate::storage::types::BLOCK_SIZE;

verus! {

pub const DEFAULT_CACHE_CAPACITY: usize = 4096;

pub const DEFAULT_SHARD_COUNT: usize = 64;

/// Counters of a cache.
#[derive(Clone, Copy, Debug, PartialEq, Eq, Structural)]
pub struct CacheStats {
    pub hits: u64,
    pub misses: u64,
    pub evictions: u64,
    pub dirty_flushes: u64,
}

impl Default for CacheStats {
    fn default() -> (s: Self)
        ensures
            s == (CacheStats { hits: 0, misses: 0, evictions: 0, dirty_flushes: 0 }),
    {
        CacheStats { hits: 0, misses: 0, evictions: 0, dirty_flushes: 0 }
    }
}

/// The counters of two caches together; each sum must fit in a `u64`.
impl std::ops::Add for CacheStats {
    type Output = Self;

    fn add(self, rhs: Self) -> (r: Self) {
        CacheStats {
            hits: self.hits + rhs.hits,
            misses: self.misses + rhs.misses,
            evictions: self.evictions + rhs.evictions,
            dirty_flushes: self.dirty_flushes + rhs.dirty_flushes,
        }
    }
}

impl vstd::std_specs::ops::AddSpecImpl for CacheStats {
    open spec fn obeys_add_spec() -> bool {
        true
    }

    open spec fn add_req(self, rhs: Self) -> bool {
        &&& self.hits + rhs.hits <= u64::MAX
        &&& self.misses + rhs.misses <= u64::MAX
        &&& self.evictions + rhs.evictions <= u64::MAX
        &&& self.dirty_flushes + rhs.dirty_flushes <= u64::MAX
    }

    open spec fn add_spec(self, rhs: Self) -> Self {
        CacheStats {
            hits: (self.hits + rhs.hits) as u64,
            misses: (self.misses + rhs.misses) as u64,
            evictions: (self.evictions + rhs.evictions) as u64,
            dirty_flushes: (self.dirty_flushes + rhs.dirty_flushes) as u64,
        }
    }
}

/// `x + 1`, wrapping at the top of `u64`.
pub open spec fn bump(x: u64) -> u64 {
    if x == u64::MAX {
        0
    } else {
        (x + 1) as u64
    }
}

fn bump_exec(x: u64) -> (r: u64)
    ensures
        r == bump(x),
{
    x.wrapping_add(1)
}

/// A cached block.
pub struct CachedBlock {
    pub data: Box<[u8; BLOCK_SIZE]>,
    pub is_dirty: bool,
}

/// What a shard holds: block index → (contents, dirty), the recency order
/// (most recently used first), and its counters.
pub struct ShardState {
    pub cached: Map<u32, (Seq<u8>, bool)>,
    pub order: Seq<u32>,
    pub stats: CacheStats,
}

/// `s` without the occurrences of `x`, in order.
pub open spec fn without(s: Seq<u32>, x: u32) -> Seq<u32>
    decreases s.len(),
{
    if s.len() == 0 {
        s
    } else {
        let r = without(s.drop_last(), x);
        if s.last() == x {
            r
        } else {
            r.push(s.last())
        }
    }
}

/// The least recently used clean block, if any.
pub open spec fn clean_victim(order: Seq<u32>, cached: Map<u32, (Seq<u8>, bool)>) -> Option<u32>
    decreases order.len(),
{
    if order.len() == 0 {
        None
    } else if cached.contains_key(order.last()) && !cached[order.last()].1 {
        Some(order.last())
    } else {
        clean_victim(order.drop_last(), cached)
    }
}

/// The block to evict: the least recently used clean block; when every
/// block is dirty, the least recently used one.
pub open spec fn victim(s: ShardState) -> Option<u32> {
    match clean_victim(s.order, s.cached) {
        Some(v) => Some(v),
        None => if s.order.len() > 0 && s.cached.contains_key(s.order.last())
            && s.cached[s.order.last()].1 {
            Some(s.order.last())
        } else {
            None
        },
    }
}

/// The shard once block `v` is evicted.
pub open spec fn evicted(s: ShardState, v: u32) -> ShardState {
    ShardState {
        cached: s.cached.remove(v),
        order: without(s.order, v),
        stats: CacheStats {
            evictions: bump(s.stats.evictions),
            dirty_flushes: if s.cached[v].1 {
                bump(s.stats.dirty_flushes)
            } else {
                s.stats.dirty_flushes
            },
            ..s.stats
        },
    }
}

/// The shard once blocks are evicted, one victim at a time, until it holds
/// fewer than `cap` blocks or has none left to evict.
pub open spec fn evict_until(s: ShardState, cap: nat) -> ShardState
    decreases s.cached.len(),
{
    if s.cached.len() >= cap && s.cached.dom().finite() && victim(s) is Some && s.cached.contains_key(
        victim(s)->0,
    ) {
        evict_until(evicted(s, victim(s)->0), cap)
    } else {
        s
    }
}

/// The shard after a hit on block `idx`: it becomes the most recently used.
pub open spec fn touched(s: ShardState, idx: u32) -> ShardState {
    ShardState {
        cached: s.cached,
        order: seq![idx] + without(s.order, idx),
        stats: CacheStats { hits: bump(s.stats.hits), ..s.stats },
    }
}

/// The shard once block `idx` is loaded clean with contents `data`, as the
/// most recently used.
pub open spec fn loaded(s: ShardState, idx: u32, data: Seq<u8>) -> ShardState {
    ShardState {
        cached: s.cached.insert(idx, (data, false)),
        order: seq![idx] + s.order,
        stats: s.stats,
    }
}

/// The shard after a miss is counted.
pub open spec fn missed(s: ShardState) -> ShardState {
    ShardState { stats: CacheStats { misses: bump(s.stats.misses), ..s.stats }, ..s }
}

/// The flusher wrote block `k` with contents `d`, and succeeded.
pub open spec fn flushed<E, G: Fn(u32, &[u8; BLOCK_SIZE]) -> Result<(), E>>(
    flusher: G,
    k: u32,
    d: Seq<u8>,
) -> bool {
    exists|arr: &[u8; BLOCK_SIZE], r: Result<(), E>|
        arr@ == d && r is Ok && #[trigger] call_ensures(flusher, (k, arr), r)
}

/// A copy of `q` without the occurrences of `x`, in order.
fn deque_without(q: &VecDeque<u32>, x: u32) -> (r: VecDeque<u32>)
    ensures
        r@ == without(q@, x),
{
    let mut r: VecDeque<u32> = VecDeque::new();
    let mut i: usize = 0;
    while i < q.len()
        invariant
            i <= q@.len(),
            r@ == without(q@.take(i as int), x),
        decreases q@.len() - i,
    {
        assert(q@.take(i + 1).drop_last() =~= q@.take(i as int));
        let k = q[i];
        if k != x {
            r.push_back(k);
        }
        i += 1;
    }
    assert(q@.take(q@.len() as int) =~= q@);
    r
}

proof fn lemma_push_contains(d: Seq<u32>, a: u32, y: u32)
    ensures
        d.push(a).contains(y) <==> (d.contains(y) || y == a),
{
    if d.contains(y) {
        let i = choose|i: int| 0 <= i < d.len() && d[i] == y;
        assert(d.push(a)[i] == y);
    }
    if y == a {
        assert(d.push(a)[d.len() as int] == y);
    }
    if d.push(a).contains(y) {
        let i = choose|i: int| 0 <= i < d.push(a).len() && d.push(a)[i] == y;
        if i < d.len() {
            assert(d[i] == y);
        }
    }
}

proof fn lemma_prepend_contains(a: u32, d: Seq<u32>, y: u32)
    ensures
        (seq![a] + d).contains(y) <==> (d.contains(y) || y == a),
{
    let s = seq![a] + d;
    if d.contains(y) {
        let i = choose|i: int| 0 <= i < d.len() && d[i] == y;
        assert(s[i + 1] == y);
    }
    if y == a {
        assert(s[0] == y);
    }
    if s.contains(y) {
        let i = choose|i: int| 0 <= i < s.len() && s[i] == y;
        if i > 0 {
            assert(d[i - 1] == y);
        }
    }
}

proof fn lemma_prepend_no_dup(a: u32, d: Seq<u32>)
    requires
        d.no_duplicates(),
        !d.contains(a),
    ensures
        (seq![a] + d).no_duplicates(),
{
    let s = seq![a] + d;
    assert forall|i: int, j: int| 0 <= i < s.len() && 0 <= j < s.len() && i != j implies s[i] != s[j] by {
        if i > 0 && j > 0 {
            assert(s[i] == d[i - 1]);
            assert(s[j] == d[j - 1]);
        } else if i == 0 {
            assert(s[j] == d[j - 1]);
        } else {
            assert(s[i] == d[i - 1]);
        }
    }
}

proof fn lemma_without_facts(s: Seq<u32>, x: u32)
    ensures
        !without(s, x).contains(x),
        forall|y: u32| y != x ==> (without(s, x).contains(y) <==> s.contains(y)),
        s.no_duplicates() ==> without(s, x).no_duplicates(),
        without(s, x).len() <= s.len(),
    decreases s.len(),
{
    if s.len() > 0 {
        let d = s.drop_last();
        let a = s.last();
        lemma_without_facts(d, x);
        assert(s =~= d.push(a));
        assert forall|y: u32| #![trigger s.contains(y)] y != x implies (without(s, x).contains(y) <==> s.contains(y)) by {
            lemma_push_contains(d, a, y);
            if a != x {
                lemma_push_contains(without(d, x), a, y);
            }
        }
        if a != x {
            lemma_push_contains(without(d, x), a, x);
        }
        if s.no_duplicates() {
            assert(d.no_duplicates());
            if a != x {
                assert(!d.contains(a)) by {
                    if d.contains(a) {
                        let i = choose|i: int| 0 <= i < d.len() && d[i] == a;
                        assert(s[i] == s[s.len() - 1]);
                    }
                }
                assert(!without(d, x).contains(a));
                let w = without(s, x);
                let wd = without(d, x);
                assert forall|i: int, j: int| 0 <= i < w.len() && 0 <= j < w.len() && i != j implies w[i]
                    != w[j] by {
                    if i < w.len() - 1 && j < w.len() - 1 {
                        assert(w[i] == wd[i]);
                        assert(w[j] == wd[j]);
                    } else if i == w.len() - 1 {
                        assert(wd[j] == w[j]);
                        assert(wd.contains(w[j]));
                    } else {
                        assert(wd[i] == w[i]);
                        assert(wd.contains(w[i]));
                    }
                }
            }
        }
    }
}

/// The cached blocks that are dirty.
pub open spec fn dirty_blocks(cached: Map<u32, (Seq<u8>, bool)>) -> Set<u32> {
    cached.dom().filter(|k: u32| cached[k].1)
}

/// The cached blocks, all marked clean.
pub open spec fn all_clean(cached: Map<u32, (Seq<u8>, bool)>) -> Map<u32, (Seq<u8>, bool)> {
    cached.map_values(|e: (Seq<u8>, bool)| (e.0, false))
}

/// The flusher failed with `e` writing block `k` with contents `d`.
pub open spec fn flush_failed<E, G: Fn(u32, &[u8; BLOCK_SIZE]) -> Result<(), E>>(
    flusher: G,
    k: u32,
    d: Seq<u8>,
    e: E,
) -> bool {
    exists|arr: &[u8; BLOCK_SIZE]| arr@ == d && #[trigger] call_ensures(flusher, (k, arr), Err::<(), E>(e))
}

/// A shard once its dirty blocks are written back: all marked clean, and
/// their number added to the write-back counter.
pub open spec fn flushed_shard(s: ShardState) -> ShardState {
    ShardState {
        cached: all_clean(s.cached),
        order: s.order,
        stats: CacheStats {
            dirty_flushes: add_wrap(s.stats.dirty_flushes, dirty_blocks(s.cached).len() as u64),
            ..s.stats
        },
    }
}

/// The number of dirty blocks over all shards.
pub open spec fn dirty_total(shards: Seq<ShardState>) -> int
    decreases shards.len(),
{
    if shards.len() == 0 {
        0
    } else {
        dirty_total(shards.drop_last()) + dirty_blocks(shards.last().cached).len()
    }
}

/// `x + n`, wrapping at the top of `u64`.
pub open spec fn add_wrap(x: u64, n: u64) -> u64 {
    if x + n > u64::MAX {
        (x + n - 0x1_0000_0000_0000_0000) as u64
    } else {
        (x + n) as u64
    }
}

/// What making block `idx` cached takes a shard from `old` to `new`, with
/// `ok` telling whether it succeeded: a hit makes the block the most
/// recently used; a successful miss evicts blocks while the shard holds
/// `cap` or more, then loads the block with what the loader gave. Whatever
/// happens, the blocks that stay keep their contents and state, and a dirty
/// block leaves only once the flusher wrote it back.
pub open spec fn load_outcome<
    E,
    F: FnOnce(u32) -> Result<[u8; BLOCK_SIZE], E>,
    G: Fn(u32, &[u8; BLOCK_SIZE]) -> Result<(), E>,
>(old: ShardState, new: ShardState, cap: nat, idx: u32, loader: F, flusher: G, ok: bool) -> bool {
    &&& old.cached.contains_key(idx) ==> ok && new == touched(old, idx)
    &&& !old.cached.contains_key(idx) && ok ==> exists|res: Result<[u8; BLOCK_SIZE], E>|
        res is Ok && #[trigger] call_ensures(loader, (idx,), res) && new == loaded(
            evict_until(missed(old), cap),
            idx,
            res->Ok_0@,
        )
    &&& forall|k: u32|
        #![trigger new.cached.contains_key(k)]
        new.cached.contains_key(k) && k != idx ==> old.cached.contains_key(k) && new.cached[k]
            == old.cached[k]
    &&& forall|k: u32|
        #![trigger old.cached.contains_key(k)]
        old.cached.contains_key(k) && !new.cached.contains_key(k) && old.cached[k].1 ==> flushed(
            flusher,
            k,
            old.cached[k].0,
        )
}

/// The recency order lists each cached block exactly once.
pub open spec fn consistent(s: ShardState) -> bool {
    &&& s.order.no_duplicates()
    &&& s.order.to_set() == s.cached.dom()
    &&& s.cached.dom().finite()
}

/// The larger of `cap` and 1: a shard never holds more blocks than this
/// after a load (a shard of capacity 0 still keeps the block just loaded).
pub open spec fn load_bound(cap: nat) -> nat {
    if cap == 0 {
        1
    } else {
        cap
    }
}

proof fn lemma_clean_victim_in(order: Seq<u32>, cached: Map<u32, (Seq<u8>, bool)>)
    ensures
        clean_victim(order, cached) matches Some(v) ==> order.contains(v) && cached.contains_key(v),
    decreases order.len(),
{
    if order.len() > 0 {
        lemma_clean_victim_in(order.drop_last(), cached);
        if let Some(v) = clean_victim(order.drop_last(), cached) {
            let i = choose|i: int| 0 <= i < order.drop_last().len() && order.drop_last()[i] == v;
            assert(order[i] == v);
        }
        assert(order[order.len() - 1] == order.last());
    }
}

/// A consistent shard has a victim exactly when it holds a block, and the
/// victim is one of its blocks.
proof fn lemma_victim(s: ShardState)
    requires
        consistent(s),
    ensures
        victim(s) is Some <==> s.cached.len() > 0,
        victim(s) matches Some(v) ==> s.cached.contains_key(v),
{
    lemma_clean_victim_in(s.order, s.cached);
    if s.order.len() > 0 {
        assert(s.order.to_set().contains(s.order.last())) by {
            assert(s.order[s.order.len() - 1] == s.order.last());
        }
        assert(s.cached.dom().contains(s.order.last()));
        assert(s.cached.len() > 0) by {
            vstd::set_lib::lemma_set_empty_equivalency_len(s.cached.dom());
        }
    } else {
        assert(s.cached.dom() =~= Set::<u32>::empty());
    }
}

proof fn lemma_evicted_consistent(s: ShardState, v: u32)
    requires
        consistent(s),
        s.cached.contains_key(v),
    ensures
        consistent(evicted(s, v)),
        evicted(s, v).cached.len() == s.cached.len() - 1,
{
    lemma_without_facts(s.order, v);
    let e = evicted(s, v);
    assert forall|y: u32| e.order.to_set().contains(y) <==> e.cached.dom().contains(y) by {
        if y != v {
            assert(e.order.contains(y) <==> s.order.contains(y));
        }
    }
    assert(e.order.to_set() =~= e.cached.dom());
}

/// Evicting until fewer than `cap` blocks are left leaves a consistent shard
/// with fewer than `cap` blocks, or none.
proof fn lemma_evict_until(s: ShardState, cap: nat)
    requires
        consistent(s),
    ensures
        consistent(evict_until(s, cap)),
        evict_until(s, cap).cached.len() < cap || evict_until(s, cap).cached.len() == 0,
        evict_until(s, cap).cached.dom().subset_of(s.cached.dom()),
    decreases s.cached.len(),
{
    lemma_victim(s);
    if s.cached.len() >= cap && victim(s) is Some {
        let v = victim(s)->0;
        lemma_evicted_consistent(s, v);
        lemma_evict_until(evicted(s, v), cap);
    }
}

/// Loading a block keeps a shard within its bound: after a successful load
/// a consistent shard that was within `load_bound(cap)` blocks still is, and
/// holds the block.
pub proof fn lemma_load_within_bound<
    E,
    F: FnOnce(u32) -> Result<[u8; BLOCK_SIZE], E>,
    G: Fn(u32, &[u8; BLOCK_SIZE]) -> Result<(), E>,
>(old: ShardState, new: ShardState, cap: nat, idx: u32, loader: F, flusher: G)
    requires
        consistent(old),
        old.cached.len() <= load_bound(cap),
        load_outcome(old, new, cap, idx, loader, flusher, true),
    ensures
        new.cached.len() <= load_bound(cap),
        new.cached.contains_key(idx),
{
    if !old.cached.contains_key(idx) {
        let m = missed(old);
        assert(consistent(m));
        lemma_evict_until(m, cap);
        let e = evict_until(m, cap);
        assert(!e.cached.contains_key(idx));
        let res = choose|res: Result<[u8; BLOCK_SIZE], E>|
            res is Ok && #[trigger] call_ensures(loader, (idx,), res) && new == loaded(e, idx, res->Ok_0@);
        assert(new.cached.dom() =~= e.cached.dom().insert(idx));
    }
}

/// A block written into a shard is what the next read of it gives back,
/// dirty: the read is a hit, so nothing is loaded or evicted.
pub proof fn lemma_read_after_write<
    E,
    F: FnOnce(u32) -> Result<[u8; BLOCK_SIZE], E>,
    G: Fn(u32, &[u8; BLOCK_SIZE]) -> Result<(), E>,
>(written: ShardState, read: ShardState, cap: nat, idx: u32, data: Seq<u8>, ok: bool, loader: F, flusher: G)
    requires
        written.cached.contains_key(idx),
        written.cached[idx] == (data, true),
        load_outcome(written, read, cap, idx, loader, flusher, ok),
    ensures
        ok,
        read.cached.contains_key(idx),
        read.cached[idx] == (data, true),
        read.cached == written.cached,
{
}

/// One shard of the cache.
pub struct BlockShard {
    blocks: HashMap<u32, CachedBlock>,
    lru: VecDeque<u32>,
    capacity: usize,
    stats: CacheStats,
}

impl View for BlockShard {
    type V = ShardState;

    closed spec fn view(&self) -> ShardState {
        ShardState {
            cached: self.blocks@.map_values(|b: CachedBlock| (b.data@, b.is_dirty)),
            order: self.lru@,
            stats: self.stats,
        }
    }
}

impl BlockShard {
    /// How many blocks the shard is meant to hold.
    pub closed spec fn capacity(&self) -> nat {
        self.capacity as nat
    }

    /// The recency order lists each cached block once.
    pub closed spec fn wf(&self) -> bool {
        &&& self.lru@.no_duplicates()
        &&& self.lru@.to_set() == self.blocks@.dom()
        &&& self.blocks@.dom().finite()
    }

    /// A well-formed shard is consistent.
    pub proof fn lemma_consistent(&self)
        requires
            self.wf(),
        ensures
            consistent(self@),
    {
        assert(self@.cached.dom() =~= self.blocks@.dom());
    }

    pub fn new(capacity: usize) -> (s: Self)
        ensures
            s.wf(),
            s.capacity() == capacity,
            s@.cached == Map::<u32, (Seq<u8>, bool)>::empty(),
            s@.order == Seq::<u32>::empty(),
            s@.stats == (CacheStats { hits: 0, misses: 0, evictions: 0, dirty_flushes: 0 }),
    {
        broadcast use vstd::std_specs::hash::group_hash_axioms;

        let s = BlockShard {
            blocks: HashMap::new(),
            lru: VecDeque::new(),
            capacity,
            stats: CacheStats::default(),
        };
        assert(s@.cached =~= Map::<u32, (Seq<u8>, bool)>::empty());
        assert(s.lru@.to_set() =~= s.blocks@.dom());
        s
    }

    /// The block to evict next.
    fn pick_victim(&self) -> (r: Option<u32>)
        requires
            self.wf(),
        ensures
            r == victim(self@),
            r matches Some(v) ==> self@.cached.contains_key(v),
    {
        broadcast use vstd::std_specs::hash::group_hash_axioms;

        let ghost st = self@;
        let mut i: usize = self.lru.len();
        assert(st.order.take(i as int) =~= st.order);
        while i > 0
            invariant
                i <= st.order.len(),
                st == self@,
                self.wf(),
                clean_victim(st.order, st.cached) == clean_victim(st.order.take(i as int), st.cached),
            decreases i,
        {
            let k = self.lru[i - 1];
            assert(st.order.take(i as int).drop_last() =~= st.order.take(i - 1));
            assert(st.order.to_set().contains(k));
            let b = self.blocks.get(&k).unwrap();
            if !b.is_dirty {
                return Some(k);
            }
            i -= 1;
        }
        let n = self.lru.len();
        if n > 0 {
            let k = self.lru[n - 1];
            assert(st.order.to_set().contains(k));
            let b = self.blocks.get(&k).unwrap();
            if b.is_dirty {
                return Some(k);
            }
        }
        None
    }

    /// Make a cached block the most recently used.
    fn touch(&mut self, idx: u32)
        requires
            old(self).wf(),
            old(self)@.cached.contains_key(idx),
        ensures
            final(self).wf(),
            final(self).capacity() == old(self).capacity(),
            final(self)@.cached == old(self)@.cached,
            final(self)@.order == seq![idx] + without(old(self)@.order, idx),
            final(self)@.stats == old(self)@.stats,
    {
        let mut q = deque_without(&self.lru, idx);
        proof {
            lemma_without_facts(self.lru@, idx);
        }
        q.push_front(idx);
        self.lru = q;
        proof {
            assert(self.lru@.to_set() =~= self.blocks@.dom()) by {
                assert forall|y: u32| self.lru@.to_set().contains(y) <==> self.blocks@.dom().contains(y) by {
                    lemma_prepend_contains(idx, without(old(self).lru@, idx), y);
                }
            }
            let w = without(old(self).lru@, idx);
            assert forall|i: int, j: int| 0 <= i < self.lru@.len() && 0 <= j < self.lru@.len() && i != j
                implies self.lru@[i] != self.lru@[j] by {
                if i > 0 && j > 0 {
                    assert(self.lru@[i] == w[i - 1]);
                    assert(self.lru@[j] == w[j - 1]);
                } else if i == 0 {
                    assert(w.contains(self.lru@[j]));
                } else {
                    assert(w.contains(self.lru@[i]));
                }
            }
        }
    }

    /// Evict one block, writing it back first when dirty: `Ok(false)` when
    /// there is none to evict, `Err` (with nothing changed) when the
    /// write-back fails.
    fn evict_one<E, G: Fn(u32, &[u8; BLOCK_SIZE]) -> Result<(), E>>(&mut self, flusher: &G) -> (r:
        Result<bool, E>)
        requires
            old(self).wf(),
            forall|k: u32, d: &[u8; BLOCK_SIZE]| flusher.requires((k, d)),
        ensures
            final(self).wf(),
            final(self).capacity() == old(self).capacity(),
            match r {
                Ok(false) => victim(old(self)@) is None && final(self)@ == old(self)@,
                Ok(true) => victim(old(self)@) is Some && old(self)@.cached.contains_key(
                    victim(old(self)@)->0,
                ) && final(self)@ == evicted(old(self)@, victim(old(self)@)->0) && (old(self)@.cached[victim(
                    old(self)@,
                )->0].1 ==> flushed(flusher, victim(old(self)@)->0, old(self)@.cached[victim(
                    old(self)@,
                )->0].0)),
                Err(_) => victim(old(self)@) is Some && final(self)@ == old(self)@,
            },
    {
        broadcast use vstd::std_specs::hash::group_hash_axioms;

        match self.pick_victim() {
            None => Ok(false),
            Some(v) => {
                let dirty = {
                    let b = self.blocks.get(&v).unwrap();
                    if b.is_dirty {
                        let d: &[u8; BLOCK_SIZE] = &b.data;
                        let res = flusher(v, d);
                        assert(call_ensures(flusher, (v, d), res));
                        if let Err(e) = res {
                            return Err(e);
                        }
                        proof {
                            assert(d@ == old(self)@.cached[v].0);
                            assert(flushed(flusher, v, old(self)@.cached[v].0));
                        }
                    }
                    b.is_dirty
                };
                if dirty {
                    self.stats.dirty_flushes = bump_exec(self.stats.dirty_flushes);
                }
                self.blocks.remove(&v);
                let q = deque_without(&self.lru, v);
                self.lru = q;
                self.stats.evictions = bump_exec(self.stats.evictions);
                proof {
                    lemma_without_facts(old(self).lru@, v);
                    assert(self@.cached =~= old(self)@.cached.remove(v));
                    assert forall|y: u32| self.lru@.to_set().contains(y) <==> self.blocks@.dom().contains(y) by {
                        if y != v {
                            assert(self.lru@.contains(y) <==> old(self).lru@.contains(y));
                        }
                    }
                    assert(self.lru@.to_set() =~= self.blocks@.dom());
                    assert(self@ == evicted(old(self)@, v));
                }
                Ok(true)
            },
        }
    }

    /// Make block `idx` cached: a hit makes it the most recently used; a
    /// miss evicts blocks (least recently used clean ones first, writing
    /// dirty ones back) while the shard is full, then loads the block.
    /// Errors of the write-back or of the load are handed back.
    pub fn ensure_loaded<E, F, G>(&mut self, idx: u32, loader: F, flusher: &G) -> (r: Result<(), E>) where
        F: FnOnce(u32) -> Result<[u8; BLOCK_SIZE], E>,
        G: Fn(u32, &[u8; BLOCK_SIZE]) -> Result<(), E>,
        requires
            old(self).wf(),
            loader.requires((idx,)),
            forall|k: u32, d: &[u8; BLOCK_SIZE]| flusher.requires((k, d)),
        ensures
            final(self).wf(),
            final(self).capacity() == old(self).capacity(),
            load_outcome(old(self)@, final(self)@, old(self).capacity(), idx, loader, flusher, r is Ok),
    {
        broadcast use vstd::std_specs::hash::group_hash_axioms;

        if self.blocks.contains_key(&idx) {
            self.touch(idx);
            self.stats.hits = bump_exec(self.stats.hits);
            return Ok(());
        }
        self.stats.misses = bump_exec(self.stats.misses);
        let ghost s1 = self@;
        assert(s1 == missed(old(self)@));
        loop
            invariant
                self.wf(),
                self.capacity() == old(self).capacity(),
                !self@.cached.contains_key(idx),
                !old(self)@.cached.contains_key(idx),
                evict_until(self@, self.capacity()) == evict_until(s1, self.capacity()),
                forall|k: u32|
                    #![trigger self@.cached.contains_key(k)]
                    self@.cached.contains_key(k) ==> old(self)@.cached.contains_key(k) && self@.cached[k]
                        == old(self)@.cached[k],
                forall|k: u32|
                    #![trigger old(self)@.cached.contains_key(k)]
                    old(self)@.cached.contains_key(k) && !self@.cached.contains_key(k)
                        && old(self)@.cached[k].1 ==> flushed(flusher, k, old(self)@.cached[k].0),
                forall|k: u32, d: &[u8; BLOCK_SIZE]| flusher.requires((k, d)),
            ensures
                self.wf(),
                self.capacity() == old(self).capacity(),
                !self@.cached.contains_key(idx),
                self@ == evict_until(s1, self.capacity()),
                forall|k: u32|
                    #![trigger self@.cached.contains_key(k)]
                    self@.cached.contains_key(k) ==> old(self)@.cached.contains_key(k) && self@.cached[k]
                        == old(self)@.cached[k],
                forall|k: u32|
                    #![trigger old(self)@.cached.contains_key(k)]
                    old(self)@.cached.contains_key(k) && !self@.cached.contains_key(k)
                        && old(self)@.cached[k].1 ==> flushed(flusher, k, old(self)@.cached[k].0),
            decreases self@.cached.len(),
        {
            let n = self.len();
            if n < self.capacity {
                break;
            }
            let ghost before = self@;
            assert(before.cached.dom() =~= self.blocks@.dom());
            match self.evict_one(flusher) {
                Err(e) => {
                    return Err(e);
                },
                Ok(false) => {
                    break;
                },
                Ok(true) => {
                    proof {
                        let v = victim(before)->0;
                        assert(self@.cached =~= before.cached.remove(v));
                        assert(before.cached.dom().finite());
                        assert(self@.cached.dom() =~= before.cached.dom().remove(v));
                        assert(self@.cached.len() < before.cached.len());
                    }
                },
            }
        }
        let ghost s2 = self@;
        let res = loader(idx);
        let raw = match res {
            Err(e) => {
                return Err(e);
            },
            Ok(raw) => raw,
        };
        self.blocks.insert(idx, CachedBlock { data: Box::new(raw), is_dirty: false });
        self.lru.push_front(idx);
        proof {
            assert(!s2.order.contains(idx)) by {
                if s2.order.contains(idx) {
                    assert(s2.order.to_set().contains(idx));
                }
            }
            lemma_prepend_no_dup(idx, s2.order);
            assert forall|y: u32| self.lru@.to_set().contains(y) <==> self.blocks@.dom().contains(y) by {
                lemma_prepend_contains(idx, s2.order, y);
                if y != idx {
                    assert(s2.order.contains(y) <==> s2.order.to_set().contains(y));
                }
            }
            assert(self.lru@.to_set() =~= self.blocks@.dom());
            assert(self@.cached =~= s2.cached.insert(idx, (raw@, false)));
            assert(self@ == loaded(s2, idx, raw@));
        }
        Ok(())
    }

    /// Hand the contents of block `idx` (`None` when it is not cached) to
    /// `f`, and return what `f` returns.
    pub fn read_block<R, F: FnOnce(Option<&[u8; BLOCK_SIZE]>) -> R>(&self, idx: u32, f: F) -> (r: R)
        requires
            forall|o: Option<&[u8; BLOCK_SIZE]>| f.requires((o,)),
        ensures
            exists|o: Option<&[u8; BLOCK_SIZE]>|
                #[trigger] call_ensures(f, (o,), r) && match o {
                    Some(d) => self@.cached.contains_key(idx) && d@ == self@.cached[idx].0,
                    None => !self@.cached.contains_key(idx),
                },
    {
        broadcast use vstd::std_specs::hash::group_hash_axioms;

        let o: Option<&[u8; BLOCK_SIZE]> = match self.blocks.get(&idx) {
            Some(b) => Some(&b.data),
            None => None,
        };
        f(o)
    }

    /// A copy of the contents of a cached block.
    fn copy_of(&self, idx: u32) -> (r: [u8; BLOCK_SIZE])
        requires
            self@.cached.contains_key(idx),
        ensures
            r@ == self@.cached[idx].0,
    {
        broadcast use vstd::std_specs::hash::group_hash_axioms;

        let b = self.blocks.get(&idx).unwrap();
        *b.data
    }

    /// Replace the contents of a cached block and mark it dirty.
    pub fn write_block(&mut self, idx: u32, data: &[u8; BLOCK_SIZE])
        requires
            old(self).wf(),
            old(self)@.cached.contains_key(idx),
        ensures
            final(self).wf(),
            final(self).capacity() == old(self).capacity(),
            final(self)@ == (ShardState {
                cached: old(self)@.cached.insert(idx, (data@, true)),
                ..old(self)@
            }),
    {
        broadcast use vstd::std_specs::hash::group_hash_axioms;

        self.blocks.insert(idx, CachedBlock { data: Box::new(*data), is_dirty: true });
        proof {
            assert(self.blocks@.dom() =~= old(self).blocks@.dom());
            assert(self@.cached =~= old(self)@.cached.insert(idx, (data@, true)));
        }
    }

    /// Drop block `idx` from the shard, dirty or not.
    pub fn remove(&mut self, idx: u32)
        requires
            old(self).wf(),
        ensures
            final(self).wf(),
            final(self).capacity() == old(self).capacity(),
            final(self)@ == (ShardState {
                cached: old(self)@.cached.remove(idx),
                order: without(old(self)@.order, idx),
                stats: old(self)@.stats,
            }),
    {
        broadcast use vstd::std_specs::hash::group_hash_axioms;

        self.blocks.remove(&idx);
        let q = deque_without(&self.lru, idx);
        self.lru = q;
        proof {
            lemma_without_facts(old(self).lru@, idx);
            assert forall|y: u32| self.lru@.to_set().contains(y) <==> self.blocks@.dom().contains(y) by {
                if y != idx {
                    assert(self.lru@.contains(y) <==> old(self).lru@.contains(y));
                }
            }
            assert(self.lru@.to_set() =~= self.blocks@.dom());
            assert(self@.cached =~= old(self)@.cached.remove(idx));
        }
    }

    /// Write every dirty block back and mark it clean; `Err` (with nothing
    /// marked) on the first write-back that fails.
    pub fn flush_dirty<E, G: Fn(u32, &[u8; BLOCK_SIZE]) -> Result<(), E>>(&mut self, flusher: &G) -> (r:
        Result<usize, E>)
        requires
            old(self).wf(),
            forall|k: u32, d: &[u8; BLOCK_SIZE]| flusher.requires((k, d)),
        ensures
            final(self).wf(),
            final(self).capacity() == old(self).capacity(),
            match r {
                Ok(n) => {
                    &&& n == dirty_blocks(old(self)@.cached).len()
                    &&& final(self)@ == (ShardState {
                        cached: all_clean(old(self)@.cached),
                        order: old(self)@.order,
                        stats: CacheStats {
                            dirty_flushes: add_wrap(old(self)@.stats.dirty_flushes, n as u64),
                            ..old(self)@.stats
                        },
                    })
                    &&& forall|k: u32| #[trigger]
                        dirty_blocks(old(self)@.cached).contains(k) ==> flushed(
                            flusher,
                            k,
                            old(self)@.cached[k].0,
                        )
                },
                Err(e) => {
                    &&& final(self)@ == old(self)@
                    &&& exists|k: u32|
                        #[trigger] dirty_blocks(old(self)@.cached).contains(k) && flush_failed(
                            flusher,
                            k,
                            old(self)@.cached[k].0,
                            e,
                        )
                },
            },
    {
        broadcast use vstd::std_specs::hash::group_hash_axioms;

        let ghost c = old(self)@.cached;
        let ghost ks = vstd::std_specs::hash::spec_keys_iter(&self.blocks).remaining();
        let mut dirty: Vec<u32> = Vec::new();
        for k in it: self.blocks.keys()
            invariant
                it.seq() == ks,
                c == self@.cached,
                dirty@.no_duplicates(),
                forall|x: u32| #[trigger] dirty@.contains(x) <==> (ks.take(it.index() as int).unref().contains(x) && c[x].1),
                forall|x: u32| #[trigger] dirty@.contains(x) ==> c.contains_key(x),
        {
            assert(ks.unref().to_set().contains(*k)) by {
                assert(ks.unref()[it.index() as int] == *k);
            }
            assert(ks.take(it.index() + 1).unref() =~= ks.take(it.index() as int).unref().push(*k));
            let b = self.blocks.get(k).unwrap();
            if b.is_dirty {
                proof {
                    assert(!ks.take(it.index() as int).unref().contains(*k)) by {
                        if ks.take(it.index() as int).unref().contains(*k) {
                            let j = choose|j: int| 0 <= j < it.index() && ks.take(it.index() as int).unref()[j] == *k;
                            assert(ks[j] == ks[it.index() as int]);
                        }
                    }
                }
                let ghost d0 = dirty@;
                dirty.push(*k);
                proof {
                    assert forall|x: u32| #[trigger] dirty@.contains(x) <==> (d0.contains(x) || x == *k) by {
                        lemma_push_contains(d0, *k, x);
                    }
                    assert forall|i: int, j: int| 0 <= i < dirty@.len() && 0 <= j < dirty@.len() && i != j
                        implies dirty@[i] != dirty@[j] by {
                        if i < d0.len() && j < d0.len() {
                        } else if i == d0.len() {
                            assert(d0.contains(dirty@[j]));
                        } else {
                            assert(d0.contains(dirty@[i]));
                        }
                    }
                }
            }
            proof {
                assert forall|x: u32| #[trigger] dirty@.contains(x) <==> (ks.take(it.index() + 1).unref().contains(x) && c[x].1) by {
                    lemma_push_contains(ks.take(it.index() as int).unref(), *k, x);
                }
            }
        }
        proof {
            assert(ks.take(ks.len() as int) =~= ks);
            assert(dirty@.to_set() =~= dirty_blocks(c)) by {
                assert forall|x: u32| dirty@.to_set().contains(x) <==> dirty_blocks(c).contains(x) by {
                    assert(ks.unref().contains(x) <==> ks.unref().to_set().contains(x));
                }
            }
            dirty@.unique_seq_to_set();
            assert forall|x: u32| #[trigger] dirty@.contains(x) implies dirty_blocks(c).contains(x) by {
                assert(dirty@.to_set().contains(x));
            }
        }
        let mut i: usize = 0;
        while i < dirty.len()
            invariant
                i <= dirty@.len(),
                c == self@.cached,
                self@ == old(self)@,
                self.wf(),
                self.capacity() == old(self).capacity(),
                forall|x: u32| #[trigger] dirty@.contains(x) ==> c.contains_key(x),
                forall|x: u32| #[trigger] dirty@.contains(x) ==> dirty_blocks(c).contains(x),
                forall|j: int| 0 <= j < i ==> #[trigger] flushed(flusher, dirty@[j], c[dirty@[j]].0),
                forall|k: u32, d: &[u8; BLOCK_SIZE]| flusher.requires((k, d)),
            decreases dirty@.len() - i,
        {
            let k = dirty[i];
            assert(dirty@.contains(k));
            let b = self.blocks.get(&k).unwrap();
            let d: &[u8; BLOCK_SIZE] = &b.data;
            let res = flusher(k, d);
            if let Err(e) = res {
                proof {
                    assert(dirty_blocks(c).contains(k));
                    assert(call_ensures(*flusher, (k, d), Err::<(), E>(e)));
                    assert(flush_failed(*flusher, k, c[k].0, e));
                }
                return Err(e);
            }
            assert(flushed(flusher, dirty@[i as int], c[dirty@[i as int]].0));
            i += 1;
        }
        let mut j: usize = 0;
        while j < dirty.len()
            invariant
                j <= dirty@.len(),
                dirty@.no_duplicates(),
                forall|x: u32| #[trigger] dirty@.contains(x) ==> c.contains_key(x),
                self.wf(),
                self.capacity() == old(self).capacity(),
                self@.order == old(self)@.order,
                self@.stats == old(self)@.stats,
                self@.cached.dom() == c.dom(),
                forall|x: u32| #[trigger] self@.cached.contains_key(x) ==> self@.cached[x] == if dirty@.take(j as int).contains(x) {
                    (c[x].0, false)
                } else {
                    c[x]
                },
            decreases dirty@.len() - j,
        {
            let k = dirty[j];
            assert(dirty@.contains(k));
            let ghost prev = self.blocks@.dom();
            assert(prev =~= self@.cached.dom());
            let b = self.blocks.remove(&k).unwrap();
            self.blocks.insert(k, CachedBlock { data: b.data, is_dirty: false });
            proof {
                assert(self.blocks@.dom() =~= prev);
                assert forall|x: u32| #[trigger] self@.cached.contains_key(x) implies self@.cached[x] == if dirty@.take(j + 1).contains(x) {
                    (c[x].0, false)
                } else {
                    c[x]
                } by {
                    assert(dirty@.take(j + 1) =~= dirty@.take(j as int).push(k));
                    lemma_push_contains(dirty@.take(j as int), k, x);
                    if x == k {
                        assert(!dirty@.take(j as int).contains(k)) by {
                            if dirty@.take(j as int).contains(k) {
                                let m = choose|m: int| 0 <= m < j && dirty@.take(j as int)[m] == k;
                                assert(dirty@[m] == dirty@[j as int]);
                            }
                        }
                    }
                }
                assert(self@.cached.dom() =~= c.dom());
            }
            j += 1;
        }
        let n = dirty.len();
        self.stats.dirty_flushes = self.stats.dirty_flushes.wrapping_add(n as u64);
        proof {
            assert(dirty@.take(dirty@.len() as int) =~= dirty@);
            assert(self@.cached =~= all_clean(c)) by {
                assert forall|x: u32| #[trigger] self@.cached.contains_key(x) implies self@.cached[x] == all_clean(c)[x] by {
                    if !dirty@.contains(x) {
                        assert(!dirty_blocks(c).contains(x)) by {
                            assert(dirty@.to_set().contains(x) == dirty@.contains(x));
                        }
                    }
                }
            }
            assert forall|k: u32| #[trigger] dirty_blocks(c).contains(k) implies flushed(flusher, k, c[k].0) by {
                assert(dirty@.to_set().contains(k));
                let m = choose|m: int| 0 <= m < dirty@.len() && dirty@[m] == k;
                assert(flushed(flusher, dirty@[m], c[dirty@[m]].0));
            }
        }
        Ok(n)
    }

    /// Number of cached blocks.
    pub fn len(&self) -> (r: usize)
        ensures
            r == self@.cached.len(),
    {
        broadcast use vstd::std_specs::hash::group_hash_axioms;

        assert(self@.cached.dom() =~= self.blocks@.dom());
        self.blocks.len()
    }

    /// The counters.
    pub fn stats(&self) -> (r: CacheStats)
        ensures
            r == self@.stats,
    {
        self.stats
    }
}


/// The shard of block `idx` among `n` shards: the low bits of the index
/// (all shards take blocks when `n` is a power of two).
pub open spec fn shard_of(idx: u32, n: nat) -> int {
    ((idx as usize) & ((n - 1) as usize)) as int
}

/// The number of shards the cache is made with.
pub open spec fn shard_total(shard_count: usize) -> nat {
    if shard_count == 0 {
        1
    } else {
        shard_count as nat
    }
}

/// The number of blocks each shard is meant to hold: the total capacity
/// divided among the shards, rounded up.
pub open spec fn per_shard(total_capacity: usize, shard_count: usize) -> nat {
    ((total_capacity + shard_total(shard_count) - 1) / (shard_total(shard_count) as int)) as nat
}

/// The sum of the numbers of blocks of the shards, wrapping at the top of
/// `u64`.
pub open spec fn total_len(shards: Seq<ShardState>) -> int
    decreases shards.len(),
{
    if shards.len() == 0 {
        0
    } else {
        total_len(shards.drop_last()) + shards.last().cached.len()
    }
}

/// The counters of the shards added up field by field (each sum wrapping
/// at the top of `u64`).
pub open spec fn total_stats(shards: Seq<ShardState>) -> CacheStats
    decreases shards.len(),
{
    if shards.len() == 0 {
        CacheStats { hits: 0, misses: 0, evictions: 0, dirty_flushes: 0 }
    } else {
        let a = total_stats(shards.drop_last());
        let b = shards.last().stats;
        CacheStats {
            hits: add_wrap(a.hits, b.hits),
            misses: add_wrap(a.misses, b.misses),
            evictions: add_wrap(a.evictions, b.evictions),
            dirty_flushes: add_wrap(a.dirty_flushes, b.dirty_flushes),
        }
    }
}

/// A block cache split into independent shards; a block always goes to the
/// shard `shard_of` picks.
pub struct ShardedBlockCache {
    shards: Vec<BlockShard>,
    shard_count: usize,
}

impl View for ShardedBlockCache {
    type V = Seq<ShardState>;

    closed spec fn view(&self) -> Seq<ShardState> {
        self.shards@.map_values(|s: BlockShard| s@)
    }
}

impl ShardedBlockCache {
    /// The capacity of shard `i`.
    pub closed spec fn capacity_of(&self, i: int) -> nat {
        self.shards@[i].capacity()
    }

    /// Every shard well formed, and at least one of them.
    pub closed spec fn wf(&self) -> bool {
        &&& self.shards@.len() == self.shard_count
        &&& self.shard_count >= 1
        &&& forall|i: int| 0 <= i < self.shards@.len() ==> (#[trigger] self.shards@[i]).wf()
    }

    /// Every shard of a well-formed cache is consistent.
    pub proof fn lemma_consistent(&self)
        requires
            self.wf(),
        ensures
            forall|i: int| 0 <= i < self@.len() ==> consistent(#[trigger] self@[i]),
    {
        assert forall|i: int| 0 <= i < self@.len() implies consistent(#[trigger] self@[i]) by {
            self.shards@[i].lemma_consistent();
        }
    }

    /// A cache of `shard_count` shards (at least one), each empty and meant
    /// to hold `total_capacity` divided among them, rounded up.
    pub fn new(total_capacity: usize, shard_count: usize) -> (c: Self)
        requires
            total_capacity + shard_total(shard_count) - 1 <= usize::MAX,
        ensures
            c.wf(),
            c@.len() == shard_total(shard_count),
            forall|i: int|
                0 <= i < c@.len() ==> c.capacity_of(i) == per_shard(total_capacity, shard_count) && (
                #[trigger] c@[i]).cached == Map::<u32, (Seq<u8>, bool)>::empty() && c@[i].order == Seq::<
                    u32,
                >::empty() && c@[i].stats == (CacheStats {
                    hits: 0,
                    misses: 0,
                    evictions: 0,
                    dirty_flushes: 0,
                }),
    {
        let n = if shard_count == 0 {
            1
        } else {
            shard_count
        };
        let per = (total_capacity + (n - 1)) / n;
        let mut shards: Vec<BlockShard> = Vec::new();
        let mut i: usize = 0;
        while i < n
            invariant
                i <= n,
                n == shard_total(shard_count),
                per == per_shard(total_capacity, shard_count),
                shards@.len() == i,
                forall|j: int|
                    0 <= j < i ==> (#[trigger] shards@[j]).wf() && shards@[j].capacity() == per
                        && shards@[j]@.cached == Map::<u32, (Seq<u8>, bool)>::empty() && shards@[j]@.order
                        == Seq::<u32>::empty() && shards@[j]@.stats == (CacheStats {
                        hits: 0,
                        misses: 0,
                        evictions: 0,
                        dirty_flushes: 0,
                    }),
            decreases n - i,
        {
            shards.push(BlockShard::new(per));
            i += 1;
        }
        ShardedBlockCache { shards, shard_count: n }
    }

    /// The shard of block `idx`.
    fn shard_index(&self, idx: u32) -> (s: usize)
        requires
            self.wf(),
        ensures
            s == shard_of(idx, self@.len()),
            s < self@.len(),
    {
        let m = self.shard_count - 1;
        let x = idx as usize;
        assert((x & m) <= m) by (bit_vector);
        x & m
    }

    /// The contents of block `idx`, loaded into its shard first when it is
    /// not cached (see `load_outcome`).
    pub fn read_block_data<E, F, G>(&mut self, idx: u32, loader: F, flusher: &G) -> (r: Result<
        [u8; BLOCK_SIZE],
        E,
    >) where
        F: FnOnce(u32) -> Result<[u8; BLOCK_SIZE], E>,
        G: Fn(u32, &[u8; BLOCK_SIZE]) -> Result<(), E>,
        requires
            old(self).wf(),
            loader.requires((idx,)),
            forall|k: u32, d: &[u8; BLOCK_SIZE]| flusher.requires((k, d)),
        ensures
            final(self).wf(),
            final(self)@.len() == old(self)@.len(),
            forall|i: int| 0 <= i < old(self)@.len() ==> final(self).capacity_of(i) == old(self).capacity_of(i),
            forall|i: int|
                0 <= i < old(self)@.len() && i != shard_of(idx, old(self)@.len()) ==> #[trigger] final(self)@[i]
                    == old(self)@[i],
            load_outcome(
                old(self)@[shard_of(idx, old(self)@.len())],
                final(self)@[shard_of(idx, old(self)@.len())],
                old(self).capacity_of(shard_of(idx, old(self)@.len())),
                idx,
                loader,
                flusher,
                r is Ok,
            ),
            r matches Ok(buf) ==> final(self)@[shard_of(idx, old(self)@.len())].cached.contains_key(idx)
                && buf@ == final(self)@[shard_of(idx, old(self)@.len())].cached[idx].0,
    {
        let s = self.shard_index(idx);
        let res = self.shards[s].ensure_loaded(idx, loader, flusher);
        proof {
            assert(self@ =~= old(self)@.update(s as int, self.shards@[s as int]@));
            assert forall|i: int| 0 <= i < self.shards@.len() implies (#[trigger] self.shards@[i]).wf() by {
                if i != s {
                    assert(self.shards@[i] == old(self).shards@[i]);
                }
            }
        }
        match res {
            Err(e) => Err(e),
            Ok(()) => {
                assert(self@[s as int].cached.contains_key(idx));
                Ok(self.shards[s].copy_of(idx))
            },
        }
    }

    /// Replace the contents of block `idx` (loaded into its shard first when
    /// it is not cached, see `load_outcome`) and mark it dirty.
    pub fn write_block_data<E, F, G>(
        &mut self,
        idx: u32,
        data: &[u8; BLOCK_SIZE],
        loader: F,
        flusher: &G,
    ) -> (r: Result<(), E>) where
        F: FnOnce(u32) -> Result<[u8; BLOCK_SIZE], E>,
        G: Fn(u32, &[u8; BLOCK_SIZE]) -> Result<(), E>,
        requires
            old(self).wf(),
            loader.requires((idx,)),
            forall|k: u32, d: &[u8; BLOCK_SIZE]| flusher.requires((k, d)),
        ensures
            final(self).wf(),
            final(self)@.len() == old(self)@.len(),
            forall|i: int| 0 <= i < old(self)@.len() ==> final(self).capacity_of(i) == old(self).capacity_of(i),
            forall|i: int|
                0 <= i < old(self)@.len() && i != shard_of(idx, old(self)@.len()) ==> #[trigger] final(self)@[i]
                    == old(self)@[i],
            r is Err ==> load_outcome(
                old(self)@[shard_of(idx, old(self)@.len())],
                final(self)@[shard_of(idx, old(self)@.len())],
                old(self).capacity_of(shard_of(idx, old(self)@.len())),
                idx,
                loader,
                flusher,
                false,
            ),
            r is Ok ==> exists|mid: ShardState|
                load_outcome(
                    old(self)@[shard_of(idx, old(self)@.len())],
                    mid,
                    old(self).capacity_of(shard_of(idx, old(self)@.len())),
                    idx,
                    loader,
                    flusher,
                    true,
                ) && mid.cached.contains_key(idx) && #[trigger] final(self)@[shard_of(idx, old(self)@.len())]
                    == (ShardState { cached: mid.cached.insert(idx, (data@, true)), ..mid }),
    {
        let s = self.shard_index(idx);
        let res = self.shards[s].ensure_loaded(idx, loader, flusher);
        let ghost mid = self.shards@[s as int]@;
        proof {
            assert forall|i: int| 0 <= i < self.shards@.len() implies (#[trigger] self.shards@[i]).wf() by {
                if i != s {
                    assert(self.shards@[i] == old(self).shards@[i]);
                }
            }
        }
        match res {
            Err(e) => {
                assert(self@ =~= old(self)@.update(s as int, mid));
                Err(e)
            },
            Ok(()) => {
                assert(mid.cached.contains_key(idx));
                self.shards[s].write_block(idx, data);
                proof {
                    assert(self@ =~= old(self)@.update(s as int, self.shards@[s as int]@));
                    assert(self@[s as int] == (ShardState { cached: mid.cached.insert(idx, (data@, true)), ..mid }));
                    assert(load_outcome(old(self)@[s as int], mid, old(self).capacity_of(s as int), idx, loader, flusher, true));
                    assert forall|i: int| 0 <= i < self.shards@.len() implies (#[trigger] self.shards@[i]).wf() by {
                        if i != s {
                            assert(self.shards@[i] == old(self).shards@[i]);
                        }
                    }
                }
                Ok(())
            },
        }
    }

    /// Change block `idx` (loaded into its shard first when it is not
    /// cached, see `load_outcome`): `f` gets its contents and gives back the
    /// new contents and a result, which is returned; the block is marked
    /// dirty.
    pub fn with_block<E, R, F, G, M>(&mut self, idx: u32, loader: F, flusher: &G, f: M) -> (r: Result<R, E>) where
        F: FnOnce(u32) -> Result<[u8; BLOCK_SIZE], E>,
        G: Fn(u32, &[u8; BLOCK_SIZE]) -> Result<(), E>,
        M: FnOnce([u8; BLOCK_SIZE]) -> ([u8; BLOCK_SIZE], R),
        requires
            old(self).wf(),
            loader.requires((idx,)),
            forall|k: u32, d: &[u8; BLOCK_SIZE]| flusher.requires((k, d)),
            forall|b: [u8; BLOCK_SIZE]| f.requires((b,)),
        ensures
            final(self).wf(),
            final(self)@.len() == old(self)@.len(),
            forall|i: int| 0 <= i < old(self)@.len() ==> final(self).capacity_of(i) == old(self).capacity_of(i),
            forall|i: int|
                0 <= i < old(self)@.len() && i != shard_of(idx, old(self)@.len()) ==> #[trigger] final(self)@[i]
                    == old(self)@[i],
            r is Err ==> load_outcome(
                old(self)@[shard_of(idx, old(self)@.len())],
                final(self)@[shard_of(idx, old(self)@.len())],
                old(self).capacity_of(shard_of(idx, old(self)@.len())),
                idx,
                loader,
                flusher,
                false,
            ),
            r matches Ok(v) ==> exists|mid: ShardState, input: [u8; BLOCK_SIZE], out: ([u8; BLOCK_SIZE], R)|
                #[trigger] load_outcome(
                    old(self)@[shard_of(idx, old(self)@.len())],
                    mid,
                    old(self).capacity_of(shard_of(idx, old(self)@.len())),
                    idx,
                    loader,
                    flusher,
                    true,
                ) && mid.cached.contains_key(idx) && input@ == mid.cached[idx].0 && #[trigger] call_ensures(
                    f,
                    (input,),
                    out,
                ) && out.1 == v && final(self)@[shard_of(idx, old(self)@.len())] == (ShardState {
                    cached: mid.cached.insert(idx, (out.0@, true)),
                    ..mid
                }),
    {
        let s = self.shard_index(idx);
        let res = self.shards[s].ensure_loaded(idx, loader, flusher);
        let ghost mid = self.shards@[s as int]@;
        proof {
            assert forall|i: int| 0 <= i < self.shards@.len() implies (#[trigger] self.shards@[i]).wf() by {
                if i != s {
                    assert(self.shards@[i] == old(self).shards@[i]);
                }
            }
        }
        match res {
            Err(e) => {
                assert(self@ =~= old(self)@.update(s as int, mid));
                Err(e)
            },
            Ok(()) => {
                assert(mid.cached.contains_key(idx));
                let input = self.shards[s].copy_of(idx);
                let out = f(input);
                let (data, v) = out;
                self.shards[s].write_block(idx, &data);
                proof {
                    assert(self@ =~= old(self)@.update(s as int, self.shards@[s as int]@));
                    assert(self@[s as int] == (ShardState { cached: mid.cached.insert(idx, (data@, true)), ..mid }));
                    assert(load_outcome(old(self)@[s as int], mid, old(self).capacity_of(s as int), idx, loader, flusher, true));
                    assert forall|i: int| 0 <= i < self.shards@.len() implies (#[trigger] self.shards@[i]).wf() by {
                        if i != s {
                            assert(self.shards@[i] == old(self).shards@[i]);
                        }
                    }
                    assert(call_ensures(f, (input,), out));
                }
                Ok(v)
            },
        }
    }

    /// Hand the contents of block `idx` (`None` when it is not cached) to
    /// `f`, and return what `f` returns.
    pub fn peek_block<R, F: FnOnce(Option<&[u8; BLOCK_SIZE]>) -> R>(&self, idx: u32, f: F) -> (r: R)
        requires
            self.wf(),
            forall|o: Option<&[u8; BLOCK_SIZE]>| f.requires((o,)),
        ensures
            exists|o: Option<&[u8; BLOCK_SIZE]>|
                #[trigger] call_ensures(f, (o,), r) && match o {
                    Some(d) => self@[shard_of(idx, self@.len())].cached.contains_key(idx) && d@
                        == self@[shard_of(idx, self@.len())].cached[idx].0,
                    None => !self@[shard_of(idx, self@.len())].cached.contains_key(idx),
                },
    {
        let s = self.shard_index(idx);
        self.shards[s].read_block(idx, f)
    }

    /// Drop block `idx` from its shard, dirty or not.
    pub fn remove(&mut self, idx: u32)
        requires
            old(self).wf(),
        ensures
            final(self).wf(),
            final(self)@.len() == old(self)@.len(),
            forall|i: int| 0 <= i < old(self)@.len() ==> final(self).capacity_of(i) == old(self).capacity_of(i),
            final(self)@ == old(self)@.update(
                shard_of(idx, old(self)@.len()),
                ShardState {
                    cached: old(self)@[shard_of(idx, old(self)@.len())].cached.remove(idx),
                    order: without(old(self)@[shard_of(idx, old(self)@.len())].order, idx),
                    stats: old(self)@[shard_of(idx, old(self)@.len())].stats,
                },
            ),
    {
        let s = self.shard_index(idx);
        self.shards[s].remove(idx);
        proof {
            assert(self@ =~= old(self)@.update(s as int, self.shards@[s as int]@));
            assert forall|i: int| 0 <= i < self.shards@.len() implies (#[trigger] self.shards@[i]).wf() by {
                if i != s {
                    assert(self.shards@[i] == old(self).shards@[i]);
                }
            }
        }
    }

    /// Write every dirty block of every shard back and mark it clean, shard
    /// by shard; the number written back, or the first error (the shards
    /// before it are then flushed, the others untouched).
    pub fn flush_dirty<E, G: Fn(u32, &[u8; BLOCK_SIZE]) -> Result<(), E>>(&mut self, flusher: &G) -> (r:
        Result<usize, E>)
        requires
            old(self).wf(),
            forall|k: u32, d: &[u8; BLOCK_SIZE]| flusher.requires((k, d)),
        ensures
            final(self).wf(),
            final(self)@.len() == old(self)@.len(),
            forall|i: int| 0 <= i < old(self)@.len() ==> final(self).capacity_of(i) == old(self).capacity_of(i),
            r is Ok ==> forall|i: int|
                0 <= i < old(self)@.len() ==> (#[trigger] final(self)@[i]).cached == all_clean(
                    old(self)@[i].cached,
                ) && final(self)@[i].order == old(self)@[i].order,
            forall|i: int, k: u32|
                0 <= i < old(self)@.len() && #[trigger] dirty_blocks(old(self)@[i].cached).contains(k)
                    && !(#[trigger] final(self)@[i].cached[k]).1 ==> flushed(flusher, k, old(self)@[i].cached[k].0),
            forall|i: int|
                0 <= i < old(self)@.len() ==> (#[trigger] final(self)@[i]).cached.dom() == old(
                    self,
                )@[i].cached.dom(),
            r matches Ok(n) ==> {
                &&& n == dirty_total(old(self)@) % (usize::MAX as int + 1)
                &&& forall|i: int|
                    0 <= i < old(self)@.len() ==> #[trigger] final(self)@[i] == flushed_shard(old(self)@[i])
            },
            r matches Err(e) ==> exists|f: int, k: u32|
                0 <= f < old(self)@.len() && #[trigger] dirty_blocks(old(self)@[f].cached).contains(k)
                    && flush_failed(flusher, k, old(self)@[f].cached[k].0, e) && (forall|j: int|
                    0 <= j < f ==> #[trigger] final(self)@[j] == flushed_shard(old(self)@[j])) && (forall|
                    j: int,
                |
                    f <= j < old(self)@.len() ==> #[trigger] final(self)@[j] == old(self)@[j]),
    {
        let mut total: usize = 0;
        let mut i: usize = 0;
        assert(dirty_total(old(self)@.take(0)) == 0);
        while i < self.shards.len()
            invariant
                i <= self@.len(),
                self.wf(),
                self@.len() == old(self)@.len(),
                forall|j: int| 0 <= j < old(self)@.len() ==> self.capacity_of(j) == old(self).capacity_of(j),
                forall|j: int| 0 <= j < i ==> (#[trigger] self@[j]).cached == all_clean(old(self)@[j].cached)
                    && self@[j].order == old(self)@[j].order,
                forall|j: int| 0 <= j < i ==> #[trigger] self@[j] == flushed_shard(old(self)@[j]),
                forall|j: int| i <= j < self@.len() ==> #[trigger] self@[j] == old(self)@[j],
                total == dirty_total(old(self)@.take(i as int)) % (usize::MAX as int + 1),
                forall|j: int, k: u32|
                    0 <= j < i && #[trigger] dirty_blocks(old(self)@[j].cached).contains(k) ==> flushed(
                        flusher,
                        k,
                        old(self)@[j].cached[k].0,
                    ),
                forall|j: int|
                    0 <= j < self@.len() ==> (#[trigger] self@[j]).cached.dom() == old(self)@[j].cached.dom(),
                forall|k: u32, d: &[u8; BLOCK_SIZE]| flusher.requires((k, d)),
            decreases self@.len() - i,
        {
            let ghost before = self@;
            let ghost before_shards = self.shards@;
            assert(before_shards[i as int].wf());
            let res = self.shards[i].flush_dirty(flusher);
            proof {
                assert(self@ =~= before.update(i as int, self.shards@[i as int]@));
                assert forall|j: int| 0 <= j < self.shards@.len() implies (#[trigger] self.shards@[j]).wf() by {
                    if j != i {
                        assert(self.shards@[j] == before_shards[j]);
                        assert(before_shards[j].wf());
                    }
                }
                assert forall|j: int| 0 <= j < old(self)@.len() implies self.capacity_of(j) == old(self).capacity_of(j) by {
                    if j != i {
                        assert(self.shards@[j] == before_shards[j]);
                    }
                }
            }
            match res {
                Err(e) => {
                    proof {
                        assert forall|j: int, k: u32|
                            0 <= j < old(self)@.len() && #[trigger] dirty_blocks(old(self)@[j].cached).contains(k)
                                && !(#[trigger] self@[j].cached[k]).1 implies flushed(flusher, k, old(self)@[j].cached[k].0) by {
                            if j > i {
                                assert(self@[j] == before[j]);
                            } else if j == i {
                                assert(self@[j] == before[j]);
                            }
                        }
                    }
                    proof {
                        assert forall|j: int| 0 <= j < old(self)@.len() implies (#[trigger] self@[j]).cached.dom()
                            == old(self)@[j].cached.dom() by {
                            assert(self@[j] == before[j]);
                        }
                    }
                    proof {
                        assert(before[i as int] == old(self)@[i as int]);
                        assert(before_shards[i as int]@ == before[i as int]);
                        assert(self.shards@[i as int]@ == before_shards[i as int]@);
                        assert(self@[i as int] == old(self)@[i as int]);
                        let k = choose|k: u32|
                            #[trigger] dirty_blocks(before[i as int].cached).contains(k) && flush_failed(
                                *flusher,
                                k,
                                before[i as int].cached[k].0,
                                e,
                            );
                        assert forall|j: int| 0 <= j < i implies #[trigger] self@[j] == flushed_shard(old(self)@[j]) by {
                            assert(self@[j] == before[j]);
                        }
                        assert forall|j: int| i <= j < old(self)@.len() implies #[trigger] self@[j] == old(self)@[j] by {
                            assert(self@[j] == before[j]);
                        }
                        assert(dirty_blocks(old(self)@[i as int].cached).contains(k));
                    }
                    return Err(e);
                },
                Ok(n) => {
                    let t = total.wrapping_add(n);
                    proof {
                        let m = usize::MAX as int + 1;
                        let a = dirty_total(old(self)@.take(i as int));
                        assert(old(self)@.take(i + 1).drop_last() =~= old(self)@.take(i as int));
                        assert(old(self)@.take(i + 1).last() == old(self)@[i as int]);
                        assert(t == (total + n) % m);
                        vstd::arithmetic::div_mod::lemma_add_mod_noop(a, n as int, m);
                        vstd::arithmetic::div_mod::lemma_mod_twice(n as int, m);
                        vstd::arithmetic::div_mod::lemma_small_mod(n as nat, m as nat);
                        assert forall|j: int| 0 <= j < i + 1 implies #[trigger] self@[j] == flushed_shard(old(self)@[j]) by {
                            if j < i {
                                assert(self@[j] == before[j]);
                            } else {
                                let o = old(self)@[j];
                                assert(before[i as int] == old(self)@[i as int]);
                                assert(before_shards[i as int]@ == before[i as int]);
                                assert(before_shards[i as int]@ == o);
                                assert(self@[j] == self.shards@[i as int]@);
                                assert(n == dirty_blocks(o.cached).len());
                                assert(self@[j].stats.dirty_flushes == add_wrap(o.stats.dirty_flushes, n as u64));
                                assert(self@[j].stats == flushed_shard(o).stats);
                            }
                        }
                    }
                    total = t;
                    proof {
                        assert(before[i as int] == old(self)@[i as int]);
                        assert(all_clean(old(self)@[i as int].cached).dom() =~= old(self)@[i as int].cached.dom());
                        assert forall|j: int| 0 <= j < i + 1 implies (#[trigger] self@[j]).cached == all_clean(
                            old(self)@[j].cached,
                        ) && self@[j].order == old(self)@[j].order by {
                            if j < i {
                                assert(self@[j] == before[j]);
                            }
                        }
                    }
                },
            }
            i += 1;
        }
        proof {
            assert forall|j: int, k: u32|
                0 <= j < old(self)@.len() && #[trigger] dirty_blocks(old(self)@[j].cached).contains(k)
                    && !(#[trigger] self@[j].cached[k]).1 implies flushed(flusher, k, old(self)@[j].cached[k].0) by {
            }
            assert(old(self)@.take(old(self)@.len() as int) =~= old(self)@);
        }
        Ok(total)
    }

    /// Number of cached blocks over all shards (the sum wraps at the top of
    /// `usize`).
    pub fn len(&self) -> (r: usize)
        requires
            self.wf(),
        ensures
            r == total_len(self@) % (usize::MAX as int + 1),
    {
        let mut total: usize = 0;
        let mut i: usize = 0;
        while i < self.shards.len()
            invariant
                i <= self@.len(),
                self@.len() == self.shards@.len(),
                total == total_len(self@.take(i as int)) % (usize::MAX as int + 1),
            decreases self@.len() - i,
        {
            let n = self.shards[i].len();
            proof {
                assert(self@.take(i + 1).drop_last() =~= self@.take(i as int));
                assert(self@.take(i + 1).last() == self.shards@[i as int]@);
            }
            let t = total.wrapping_add(n);
            proof {
                let m = usize::MAX as int + 1;
                let a = total_len(self@.take(i as int));
                assert(t == (total + n) % m);
                vstd::arithmetic::div_mod::lemma_add_mod_noop(a, n as int, m);
                vstd::arithmetic::div_mod::lemma_mod_twice(n as int, m);
                vstd::arithmetic::div_mod::lemma_small_mod(n as nat, m as nat);
            }
            total = t;
            i += 1;
        }
        assert(self@.take(self@.len() as int) =~= self@);
        total
    }

    /// The counters of all shards added up.
    pub fn stats(&self) -> (r: CacheStats)
        requires
            self.wf(),
        ensures
            r == total_stats(self@),
    {
        let mut total = CacheStats { hits: 0, misses: 0, evictions: 0, dirty_flushes: 0 };
        let mut i: usize = 0;
        while i < self.shards.len()
            invariant
                i <= self@.len(),
                self@.len() == self.shards@.len(),
                total == total_stats(self@.take(i as int)),
            decreases self@.len() - i,
        {
            let st = self.shards[i].stats();
            proof {
                assert(self@.take(i + 1).drop_last() =~= self@.take(i as int));
                assert(self@.take(i + 1).last() == self.shards@[i as int]@);
            }
            total = CacheStats {
                hits: total.hits.wrapping_add(st.hits),
                misses: total.misses.wrapping_add(st.misses),
                evictions: total.evictions.wrapping_add(st.evictions),
                dirty_flushes: total.dirty_flushes.wrapping_add(st.dirty_flushes),
            };
            i += 1;
        }
        assert(self@.take(self@.len() as int) =~= self@);
        total
    }
}

} // verus!
