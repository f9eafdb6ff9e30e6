//! Which replicated operation a successful write request stands for, so that
//! the master can hand it on to its workers.
use vstd::prelude::*;
use vstd::string::StringSliceAdditionalSpecFns;
use crate::storage::memory_index::{bytes_start_with, has_prefix};
use crate::storage::str_map::bytes_eq;
use crate::storage::types::OpType;

verus! {

/// The position of the first `c` in `s`, or `s.len()` when there is none.
pub open spec fn first_index_of(s: Seq<u8>, c: u8) -> int
    decreases s.len(),
{
    if s.len() == 0 {
        0
    } else if s[0] == c {
        0
    } else {
        1 + first_index_of(s.drop_first(), c)
    }
}

/// The bytes of `s` after its last `c` (all of `s` when there is none).
pub open spec fn after_last(s: Seq<u8>, c: u8) -> Seq<u8>
    decreases s.len(),
{
    if s.len() == 0 {
        s
    } else if s.last() == c {
        Seq::empty()
    } else {
        after_last(s.drop_last(), c).push(s.last())
    }
}

/// The value of a string of decimal digits.
pub open spec fn digits_value(s: Seq<u8>) -> nat
    decreases s.len(),
{
    if s.len() == 0 {
        0
    } else {
        digits_value(s.drop_last()) * 10 + (s.last() - 48) as nat
    }
}

/// Every byte of `s` is an ASCII digit.
pub open spec fn all_digits(s: Seq<u8>) -> bool {
    forall|i: int| 0 <= i < s.len() ==> 48 <= #[trigger] s[i] <= 57
}

/// `s` read as an unsigned 64-bit decimal number: an optional `+`, then one
/// or more digits, of a value that fits.
pub open spec fn decimal_u64(s: Seq<u8>) -> Option<u64> {
    let d = if s.len() > 0 && s[0] == 43 {
        s.drop_first()
    } else {
        s
    };
    if d.len() > 0 && all_digits(d) && digits_value(d) <= u64::MAX {
        Some(digits_value(d) as u64)
    } else {
        None
    }
}

/// The ID that a DELETE request names: the last `/`-separated segment of
/// its path, the query string left out, read as a number.
pub open spec fn deleted_id(path: Seq<u8>) -> Option<u64> {
    decimal_u64(after_last(path.take(first_index_of(path, 63)), 47))
}

pub open spec fn post_bytes() -> Seq<u8> {
    seq![80u8, 79, 83, 84]
}

pub open spec fn put_bytes() -> Seq<u8> {
    seq![80u8, 85, 84]
}

pub open spec fn delete_bytes() -> Seq<u8> {
    seq![68u8, 69, 76, 69, 84, 69]
}

/// `/vertices`
pub open spec fn vertices_path() -> Seq<u8> {
    seq![47u8, 118, 101, 114, 116, 105, 99, 101, 115]
}

/// `/edges`
pub open spec fn edges_path() -> Seq<u8> {
    seq![47u8, 101, 100, 103, 101, 115]
}

/// The operation that a successful write of `method` on `path` is replayed
/// as on the workers, with the ID it concerns; `response_id` is the `id`
/// field of the JSON response (`None` when it has none that is a `u64`).
/// `None` when the write is not replicated.
pub open spec fn write_op(method: Seq<u8>, path: Seq<u8>, response_id: Option<u64>) -> Option<
    (OpType, u64),
> {
    let id = match response_id {
        Some(v) => v,
        None => 0,
    };
    let in_vertices = has_prefix(path, vertices_path().push(47));
    let in_edges = has_prefix(path, edges_path().push(47));
    if method == post_bytes() {
        if id == 0 {
            None
        } else if path == vertices_path() || in_vertices {
            Some((OpType::VertexCreate, id))
        } else if path == edges_path() || in_edges {
            Some((OpType::EdgeCreate, id))
        } else {
            None
        }
    } else if method == put_bytes() {
        if id == 0 {
            None
        } else if in_vertices {
            Some((OpType::VertexUpdate, id))
        } else if in_edges {
            Some((OpType::EdgeUpdate, id))
        } else {
            None
        }
    } else if method == delete_bytes() {
        match deleted_id(path) {
            None => None,
            Some(d) => if in_vertices {
                Some((OpType::VertexDelete, d))
            } else if in_edges {
                Some((OpType::EdgeDelete, d))
            } else {
                None
            },
        }
    } else {
        None
    }
}

proof fn lemma_first_index_of(s: Seq<u8>, c: u8, i: int)
    requires
        0 <= i <= s.len(),
        forall|j: int| 0 <= j < i ==> s[j] != c,
        i == s.len() || s[i] == c,
    ensures
        first_index_of(s, c) == i,
    decreases s.len(),
{
    if s.len() > 0 && i > 0 {
        lemma_first_index_of(s.drop_first(), c, i - 1);
    }
}

proof fn lemma_after_last(s: Seq<u8>, c: u8, k: int)
    requires
        0 <= k <= s.len(),
        forall|j: int| k <= j < s.len() ==> s[j] != c,
        k == 0 || s[k - 1] == c,
    ensures
        after_last(s, c) == s.subrange(k, s.len() as int),
    decreases s.len(),
{
    if s.len() > 0 {
        if k == s.len() {
            assert(s.subrange(k, s.len() as int) =~= Seq::<u8>::empty());
        } else {
            lemma_after_last(s.drop_last(), c, k);
            assert(s.subrange(k, s.len() as int) =~= s.drop_last().subrange(k, s.len() - 1).push(
                s.last(),
            ));
        }
    }
}

proof fn lemma_digits_prefix(d: Seq<u8>, i: int)
    requires
        0 <= i <= d.len(),
    ensures
        digits_value(d.take(i)) <= digits_value(d),
    decreases d.len(),
{
    if i < d.len() {
        assert(d.drop_last().take(i) =~= d.take(i));
        lemma_digits_prefix(d.drop_last(), i);
    } else {
        assert(d.take(i) =~= d);
    }
}

/// The position of the first `c` in `s`, or its length.
fn first_index(s: &[u8], c: u8) -> (r: usize)
    ensures
        r == first_index_of(s@, c),
        r <= s@.len(),
{
    let mut i: usize = 0;
    while i < s.len() && s[i] != c
        invariant
            i <= s@.len(),
            forall|j: int| 0 <= j < i ==> s@[j] != c,
        decreases s@.len() - i,
    {
        i += 1;
    }
    proof {
        lemma_first_index_of(s@, c, i as int);
    }
    i
}

/// Where the bytes after the last `c` before `end` begin.
fn after_last_start(s: &[u8], end: usize, c: u8) -> (k: usize)
    requires
        end <= s@.len(),
    ensures
        k <= end,
        s@.subrange(k as int, end as int) == after_last(s@.take(end as int), c),
{
    let mut k: usize = end;
    while k > 0 && s[k - 1] != c
        invariant
            k <= end <= s@.len(),
            forall|j: int| k <= j < end ==> s@[j] != c,
        decreases k,
    {
        k -= 1;
    }
    proof {
        let t = s@.take(end as int);
        lemma_after_last(t, c, k as int);
        assert(t.subrange(k as int, end as int) =~= s@.subrange(k as int, end as int));
    }
    k
}

/// The bytes `s[start..end]` read as an unsigned 64-bit decimal number, as
/// `u64::from_str` reads them.
pub fn parse_decimal_u64(s: &[u8], start: usize, end: usize) -> (r: Option<u64>)
    requires
        start <= end <= s@.len(),
    ensures
        r == decimal_u64(s@.subrange(start as int, end as int)),
{
    let ghost all = s@.subrange(start as int, end as int);
    let mut first = start;
    if start < end && s[start] == 43 {
        first = start + 1;
    }
    let ghost d = s@.subrange(first as int, end as int);
    assert(d =~= if all.len() > 0 && all[0] == 43 {
        all.drop_first()
    } else {
        all
    });
    assert(decimal_u64(all) == if d.len() > 0 && all_digits(d) && digits_value(d) <= u64::MAX {
        Some(digits_value(d) as u64)
    } else {
        None::<u64>
    });
    if first == end {
        return None;
    }
    let mut v: u64 = 0;
    let mut i: usize = first;
    while i < end
        invariant
            first <= i <= end <= s@.len(),
            d == s@.subrange(first as int, end as int),
            decimal_u64(s@.subrange(start as int, end as int)) == if d.len() > 0 && all_digits(d)
                && digits_value(d) <= u64::MAX {
                Some(digits_value(d) as u64)
            } else {
                None::<u64>
            },
            all_digits(d.take(i - first)),
            v == digits_value(d.take(i - first)),
        decreases end - i,
    {
        let b = s[i];
        if b < 48 || b > 57 {
            assert(!all_digits(d)) by {
                assert(d[i - first] == b);
            }
            return None;
        }
        proof {
            assert(d.take(i - first + 1).drop_last() =~= d.take(i - first));
            assert(d.take(i - first + 1).last() == b);
        }
        let m = v.checked_mul(10);
        match m {
            None => {
                proof {
                    if all_digits(d) {
                        lemma_digits_prefix(d, i - first + 1);
                    }
                }
                return None;
            },
            Some(m) => {
                let a = m.checked_add((b - 48) as u64);
                match a {
                    None => {
                        proof {
                            if all_digits(d) {
                                lemma_digits_prefix(d, i - first + 1);
                            }
                        }
                        return None;
                    },
                    Some(a) => {
                        v = a;
                    },
                }
            },
        }
        i += 1;
    }
    assert(d.take(end - first) =~= d);
    Some(v)
}

/// The operation that a successful write of `method` on `path` is replayed
/// as on the workers, with the ID it concerns (see `write_op`).
pub fn write_op_of(method: &str, path: &str, response_id: Option<u64>) -> (r: Option<(OpType, u64)>)
    ensures
        r == write_op(method.spec_bytes(), path.spec_bytes(), response_id),
{
    let m = method.as_bytes();
    let p = path.as_bytes();
    let id: u64 = match response_id {
        Some(v) => v,
        None => 0,
    };
    let post: [u8; 4] = [80, 79, 83, 84];
    let put: [u8; 3] = [80, 85, 84];
    let delete: [u8; 6] = [68, 69, 76, 69, 84, 69];
    let vertices: [u8; 9] = [47, 118, 101, 114, 116, 105, 99, 101, 115];
    let vertices_dir: [u8; 10] = [47, 118, 101, 114, 116, 105, 99, 101, 115, 47];
    let edges: [u8; 6] = [47, 101, 100, 103, 101, 115];
    let edges_dir: [u8; 7] = [47, 101, 100, 103, 101, 115, 47];
    proof {
        assert(post@ =~= post_bytes());
        assert(put@ =~= put_bytes());
        assert(delete@ =~= delete_bytes());
        assert(vertices@ =~= vertices_path());
        assert(vertices_dir@ =~= vertices_path().push(47));
        assert(edges@ =~= edges_path());
        assert(edges_dir@ =~= edges_path().push(47));
    }
    let in_vertices = bytes_start_with(p, vertices_dir.as_slice());
    let in_edges = bytes_start_with(p, edges_dir.as_slice());
    if bytes_eq(m, post.as_slice()) {
        if id == 0 {
            None
        } else if bytes_eq(p, vertices.as_slice()) || in_vertices {
            Some((OpType::VertexCreate, id))
        } else if bytes_eq(p, edges.as_slice()) || in_edges {
            Some((OpType::EdgeCreate, id))
        } else {
            None
        }
    } else if bytes_eq(m, put.as_slice()) {
        if id == 0 {
            None
        } else if in_vertices {
            Some((OpType::VertexUpdate, id))
        } else if in_edges {
            Some((OpType::EdgeUpdate, id))
        } else {
            None
        }
    } else if bytes_eq(m, delete.as_slice()) {
        let end = first_index(p, 63);
        let k = after_last_start(p, end, 47);
        match parse_decimal_u64(p, k, end) {
            None => None,
            Some(d) => if in_vertices {
                Some((OpType::VertexDelete, d))
            } else if in_edges {
                Some((OpType::EdgeDelete, d))
            } else {
                None
            },
        }
    } else {
        None
    }
}

} // verus!
