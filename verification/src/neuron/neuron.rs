//! Neuron-level value types.
use vstd::prelude::*;

verus! {

/// Unique identifier for a neuron.
pub type NeuronId = u64;

/// What graph entity a neuron represents.
#[derive(Debug, Clone, Copy, PartialEq, Eq, Structural)]
pub enum EntityType {
    /// The neuron indexes a single vertex.
    Vertex(u64),
    /// The neuron indexes a single edge.
    Edge(u64),
}

/// Search mode for keyword matching.
#[derive(Debug, Clone, Copy, PartialEq, Eq, Structural)]
pub enum SearchMode {
    Greedy,
    Exact,
}

impl Default for SearchMode {
    fn default() -> (m: Self)
        ensures
            m == SearchMode::Greedy,
    {
        SearchMode::Greedy
    }
}

} // verus!

verus! {

/// The Levenshtein distance between two character sequences: the fewest
/// single-character insertions, deletions and substitutions that turn `a`
/// into `b`.
pub open spec fn edit_distance(a: Seq<char>, b: Seq<char>) -> nat
    decreases a.len() + b.len(),
{
    if a.len() == 0 {
        b.len()
    } else if b.len() == 0 {
        a.len()
    } else {
        let del = edit_distance(a.drop_last(), b) + 1;
        let ins = edit_distance(a, b.drop_last()) + 1;
        let sub = edit_distance(a.drop_last(), b.drop_last()) + if a.last() == b.last() {
            0nat
        } else {
            1nat
        };
        let m = if del <= ins {
            del
        } else {
            ins
        };
        if m <= sub {
            m
        } else {
            sub
        }
    }
}

/// The distance is at most the length of the longer sequence.
pub proof fn lemma_edit_distance_bound(a: Seq<char>, b: Seq<char>)
    ensures
        edit_distance(a, b) <= if a.len() >= b.len() {
            a.len()
        } else {
            b.len()
        },
    decreases a.len() + b.len(),
{
    if a.len() > 0 && b.len() > 0 {
        lemma_edit_distance_bound(a.drop_last(), b.drop_last());
    }
}

/// The distance is zero exactly when the two sequences are the same, so a
/// similarity of one means identical strings.
pub proof fn lemma_edit_distance_zero(a: Seq<char>, b: Seq<char>)
    ensures
        (edit_distance(a, b) == 0) <==> (a == b),
    decreases a.len() + b.len(),
{
    if a.len() > 0 && b.len() > 0 {
        lemma_edit_distance_zero(a.drop_last(), b.drop_last());
        if a == b {
            assert(a.drop_last() == b.drop_last());
        }
        if edit_distance(a, b) == 0 {
            assert(a =~= a.drop_last().push(a.last()));
            assert(b =~= b.drop_last().push(b.last()));
        }
    } else if a.len() == 0 && b.len() > 0 {
        assert(a != b);
    } else if b.len() == 0 && a.len() > 0 {
        assert(a != b);
    } else {
        assert(a =~= b);
    }
}

/// The characters of `s`, in order.
fn chars_of(s: &str) -> (r: Vec<char>)
    ensures
        r@ == s@,
{
    broadcast use vstd::string::axiom_spec_iter;

    let mut r: Vec<char> = Vec::new();
    for c in it: s.chars()
        invariant
            r@ == it.seq().take(it.index() as int),
    {
        r.push(c);
    }
    r
}

/// The Levenshtein distance between `a` and `b` (counted in characters),
/// and the length of the longer of the two. Two rows of the distance
/// table are kept: row `i` holds the distances from the first `i`
/// characters of `a` to each prefix of `b`.
pub fn levenshtein_distance(a: &str, b: &str) -> (r: (usize, usize))
    requires
        a@.len() < usize::MAX,
        b@.len() < usize::MAX,
    ensures
        r.0 == edit_distance(a@, b@),
        r.1 == if a@.len() >= b@.len() {
            a@.len()
        } else {
            b@.len()
        },
{
    let ac = chars_of(a);
    let bc = chars_of(b);
    let m = ac.len();
    let n = bc.len();
    let ghost sa = a@;
    let ghost sb = b@;
    let mut prev: Vec<usize> = Vec::new();
    let mut j: usize = 0;
    while j <= n
        invariant
            j <= n + 1,
            n == sb.len(),
            n < usize::MAX,
            prev@.len() == j,
            forall|k: int| 0 <= k < j ==> prev@[k] == edit_distance(sa.take(0), sb.take(k)),
        decreases n + 1 - j,
    {
        assert(sa.take(0).len() == 0);
        prev.push(j);
        j += 1;
    }
    let mut i: usize = 1;
    while i <= m
        invariant
            1 <= i <= m + 1,
            m == sa.len(),
            n == sb.len(),
            m < usize::MAX,
            n < usize::MAX,
            ac@ == sa,
            bc@ == sb,
            prev@.len() == n + 1,
            forall|k: int| 0 <= k <= n ==> prev@[k] == edit_distance(sa.take(i - 1), sb.take(k)),
        decreases m + 1 - i,
    {
        let ghost ai = sa.take(i as int);
        assert(ai.drop_last() =~= sa.take(i - 1));
        assert(ai.last() == sa[i - 1]);
        let mut curr: Vec<usize> = Vec::new();
        assert(sb.take(0).len() == 0);
        curr.push(i);
        let mut j: usize = 1;
        while j <= n
            invariant
                1 <= i <= m,
                1 <= j <= n + 1,
                m == sa.len(),
                n == sb.len(),
                m < usize::MAX,
                n < usize::MAX,
                ac@ == sa,
                bc@ == sb,
                ai == sa.take(i as int),
                ai.drop_last() == sa.take(i - 1),
                ai.last() == sa[i - 1],
                prev@.len() == n + 1,
                forall|k: int| 0 <= k <= n ==> prev@[k] == edit_distance(sa.take(i - 1), sb.take(k)),
                curr@.len() == j,
                forall|k: int| 0 <= k < j ==> curr@[k] == edit_distance(ai, sb.take(k)),
            decreases n + 1 - j,
        {
            let ghost bj = sb.take(j as int);
            assert(bj.drop_last() =~= sb.take(j - 1));
            assert(bj.last() == sb[j - 1]);
            proof {
                lemma_edit_distance_bound(sa.take(i - 1), bj);
                lemma_edit_distance_bound(ai, sb.take(j - 1));
                lemma_edit_distance_bound(sa.take(i - 1), sb.take(j - 1));
            }
            let cost: usize = if ac[i - 1] == bc[j - 1] {
                0
            } else {
                1
            };
            let del = prev[j] + 1;
            let ins = curr[j - 1] + 1;
            let sub = prev[j - 1] + cost;
            let low = if del <= ins {
                del
            } else {
                ins
            };
            let best = if low <= sub {
                low
            } else {
                sub
            };
            assert(best == edit_distance(ai, bj));
            curr.push(best);
            j += 1;
        }
        prev = curr;
        i += 1;
    }
    assert(sa.take(m as int) =~= sa);
    assert(sb.take(n as int) =~= sb);
    let longer = if m >= n {
        m
    } else {
        n
    };
    (prev[n], longer)
}

/// The soft-deletion state of a neuron: whether it is deleted, and when
/// (µs) it was.
#[derive(Clone, Copy, Debug, PartialEq, Eq, Structural)]
pub struct DeletionState {
    pub is_deleted: bool,
    pub deleted_at: i64,
}

impl DeletionState {
    /// Mark the neuron deleted at `deleted_at`; one already deleted keeps
    /// its first time.
    pub fn mark_deleted(&mut self, deleted_at: i64)
        ensures
            *final(self) == if old(self).is_deleted {
                *old(self)
            } else {
                DeletionState { is_deleted: true, deleted_at }
            },
    {
        if !self.is_deleted {
            self.is_deleted = true;
            self.deleted_at = deleted_at;
        }
    }

    /// Whether the neuron was already deleted at time `search_at` (at all,
    /// when `None`).
    pub fn is_deleted_at(&self, search_at: Option<i64>) -> (r: bool)
        ensures
            r == (self.is_deleted && match search_at {
                Some(ts) => self.deleted_at <= ts,
                None => true,
            }),
    {
        if !self.is_deleted {
            return false;
        }
        match search_at {
            Some(ts) => self.deleted_at <= ts,
            None => true,
        }
    }
}

/// Link a neuron to vertex `vertex_id`: it joins the neuron's vertex
/// references unless it is one of them already.
pub fn link_vertex(vertex_refs: &mut Vec<u64>, vertex_id: u64)
    ensures
        final(vertex_refs)@ == if old(vertex_refs)@.contains(vertex_id) {
            old(vertex_refs)@
        } else {
            old(vertex_refs)@.push(vertex_id)
        },
{
    let mut i: usize = 0;
    while i < vertex_refs.len()
        invariant
            i <= vertex_refs@.len(),
            vertex_refs@ == old(vertex_refs)@,
            forall|j: int| 0 <= j < i ==> vertex_refs@[j] != vertex_id,
        decreases vertex_refs@.len() - i,
    {
        if vertex_refs[i] == vertex_id {
            return;
        }
        i += 1;
    }
    vertex_refs.push(vertex_id);
}

} // verus!
