//! Ranking of the entities that the active neurons of a search refer to:
//! an entity referred to by more active neurons comes first.
use vstd::prelude::*;

verus! {

/// The IDs of `lists`, one list after another.
pub open spec fn flatten(lists: Seq<Seq<u64>>) -> Seq<u64>
    decreases lists.len(),
{
    if lists.len() == 0 {
        Seq::empty()
    } else {
        flatten(lists.drop_last()) + lists.last()
    }
}

/// How many times `x` occurs in `s`.
pub open spec fn occurrences(s: Seq<u64>, x: u64) -> nat
    decreases s.len(),
{
    if s.len() == 0 {
        0
    } else {
        occurrences(s.drop_last(), x) + if s.last() == x {
            1nat
        } else {
            0nat
        }
    }
}

/// `r` tallies `s`: every ID of `s` once, with the number of times it
/// occurs in `s`.
pub open spec fn tallies(r: Seq<(u64, u32)>, s: Seq<u64>) -> bool {
    &&& forall|i: int, j: int| 0 <= i < j < r.len() ==> r[i].0 != r[j].0
    &&& forall|i: int| 0 <= i < r.len() ==> r[i].1 == occurrences(s, r[i].0) && s.contains(r[i].0)
    &&& forall|x: u64| s.contains(x) ==> exists|i: int| 0 <= i < r.len() && r[i].0 == x
}

/// Highest count first.
pub open spec fn by_count_desc(r: Seq<(u64, u32)>) -> bool {
    forall|i: int, j: int| 0 <= i < j < r.len() ==> r[i].1 >= r[j].1
}

proof fn lemma_occurrences_bound(s: Seq<u64>, x: u64)
    ensures
        occurrences(s, x) <= s.len(),
        !s.contains(x) ==> occurrences(s, x) == 0,
    decreases s.len(),
{
    if s.len() > 0 {
        lemma_occurrences_bound(s.drop_last(), x);
        if !s.contains(x) {
            assert forall|i: int| 0 <= i < s.drop_last().len() implies s.drop_last()[i] != x by {
                assert(s[i] != x);
            }
            assert(s.last() != x) by {
                assert(s[s.len() - 1] != x);
            }
        }
    }
}

proof fn lemma_occurrences_push(s: Seq<u64>, a: u64, x: u64)
    ensures
        occurrences(s.push(a), x) == occurrences(s, x) + if a == x {
            1nat
        } else {
            0nat
        },
{
    assert(s.push(a).drop_last() =~= s);
}

/// Each ID of `lists` once, in the order of first occurrence, with the
/// number of times it occurs.
fn tally(lists: &[Vec<u64>]) -> (r: Vec<(u64, u32)>)
    requires
        flatten(lists@.map_values(|v: Vec<u64>| v@)).len() <= u32::MAX,
    ensures
        tallies(r@, flatten(lists@.map_values(|v: Vec<u64>| v@))),
{
    let ghost ls = lists@.map_values(|v: Vec<u64>| v@);
    let mut out: Vec<(u64, u32)> = Vec::new();
    let mut li: usize = 0;
    while li < lists.len()
        invariant
            li <= lists@.len(),
            ls == lists@.map_values(|v: Vec<u64>| v@),
            flatten(ls).len() <= u32::MAX,
            tallies(out@, flatten(ls.take(li as int))),
        decreases lists@.len() - li,
    {
        let v = &lists[li];
        proof {
            lemma_flatten_prefix(ls, li as int + 1);
        }
        let mut ei: usize = 0;
        assert(flatten(ls.take(li as int)) + v@.take(0) =~= flatten(ls.take(li as int)));
        while ei < v.len()
            invariant
                li < lists@.len(),
                ei <= v@.len(),
                ls == lists@.map_values(|v: Vec<u64>| v@),
                v@ == ls[li as int],
                flatten(ls.take(li as int)).len() + v@.len() <= u32::MAX,
                tallies(out@, flatten(ls.take(li as int)) + v@.take(ei as int)),
            decreases v@.len() - ei,
        {
            let ghost seen = flatten(ls.take(li as int)) + v@.take(ei as int);
            let x = v[ei];
            assert(flatten(ls.take(li as int)) + v@.take(ei + 1) =~= seen.push(x));
            proof {
                lemma_occurrences_bound(seen, x);
                assert forall|y: u64| #[trigger] occurrences(seen.push(x), y) == occurrences(seen, y) + if x == y {
                    1nat
                } else {
                    0nat
                } by {
                    lemma_occurrences_push(seen, x, y);
                }
                assert forall|y: u64| seen.push(x).contains(y) <==> seen.contains(y) || y == x by {
                    if seen.contains(y) {
                        let k = choose|k: int| 0 <= k < seen.len() && seen[k] == y;
                        assert(seen.push(x)[k] == y);
                    }
                    if y == x {
                        assert(seen.push(x)[seen.len() as int] == y);
                    }
                    if seen.push(x).contains(y) && y != x {
                        let k = choose|k: int| 0 <= k < seen.push(x).len() && seen.push(x)[k] == y;
                        assert(seen[k] == y);
                    }
                }
            }
            let mut k: usize = 0;
            while k < out.len()
                invariant_except_break
                    k <= out@.len(),
                    forall|j: int| 0 <= j < k ==> out@[j].0 != x,
                ensures
                    k <= out@.len(),
                    forall|j: int| 0 <= j < k ==> out@[j].0 != x,
                    k < out@.len() ==> out@[k as int].0 == x,
                decreases out@.len() - k,
            {
                if out[k].0 == x {
                    break;
                }
                k += 1;
            }
            if k < out.len() {
                let c = out[k].1;
                assert(c == occurrences(seen, x));
                assert(c < u32::MAX);
                let ghost before = out@;
                out.set(k, (x, c + 1));
                proof {
                    assert forall|i: int| 0 <= i < out@.len() implies out@[i].1 == occurrences(seen.push(x), out@[i].0)
                        && seen.push(x).contains(out@[i].0) by {
                        if i != k {
                            assert(before[i].0 != x);
                        }
                    }
                    assert forall|y: u64| seen.push(x).contains(y) implies exists|i: int|
                        0 <= i < out@.len() && out@[i].0 == y by {
                        if y == x {
                            assert(out@[k as int].0 == y);
                        } else {
                            assert(seen.push(x).contains(y) <==> seen.contains(y) || y == x);
                            assert(seen.contains(y));
                            let i = choose|i: int| 0 <= i < before.len() && before[i].0 == y;
                            assert(out@[i].0 == y);
                        }
                    }
                }
            } else {
                assert(!seen.contains(x));
                let ghost before = out@;
                out.push((x, 1));
                proof {
                    assert forall|i: int| 0 <= i < out@.len() implies out@[i].1 == occurrences(seen.push(x), out@[i].0)
                        && seen.push(x).contains(out@[i].0) by {
                        if i < before.len() {
                            assert(before[i].0 != x);
                        }
                    }
                    assert forall|y: u64| seen.push(x).contains(y) implies exists|i: int|
                        0 <= i < out@.len() && out@[i].0 == y by {
                        if y == x {
                            assert(out@[before.len() as int].0 == y);
                        } else {
                            assert(seen.push(x).contains(y) <==> seen.contains(y) || y == x);
                            assert(seen.contains(y));
                            let i = choose|i: int| 0 <= i < before.len() && before[i].0 == y;
                            assert(out@[i].0 == y);
                        }
                    }
                }
            }
            ei += 1;
        }
        assert(v@.take(v@.len() as int) =~= v@);
        li += 1;
    }
    assert(ls.take(ls.len() as int) =~= ls);
    out
}

proof fn lemma_flatten_prefix(ls: Seq<Seq<u64>>, k: int)
    requires
        1 <= k <= ls.len(),
    ensures
        flatten(ls.take(k)) == flatten(ls.take(k - 1)) + ls[k - 1],
        flatten(ls.take(k)).len() <= flatten(ls).len(),
    decreases ls.len(),
{
    assert(ls.take(k).drop_last() =~= ls.take(k - 1));
    if k < ls.len() {
        lemma_flatten_prefix(ls.drop_last(), k);
        assert(ls.drop_last().take(k) =~= ls.take(k));
    } else {
        assert(ls.take(k) =~= ls);
    }
}

/// `r` holds the pairs of `v`, rearranged.
pub open spec fn rearranged(r: Seq<(u64, u32)>, v: Seq<(u64, u32)>) -> bool {
    &&& r.len() == v.len()
    &&& forall|i: int| 0 <= i < r.len() ==> v.contains(r[i])
    &&& forall|i: int| 0 <= i < v.len() ==> r.contains(v[i])
}

/// Inserting `e` at `p`, after the pairs of a count at least its own and
/// before the others, keeps the pairs ordered by count and their IDs
/// distinct.
proof fn lemma_insert_by_count(before: Seq<(u64, u32)>, p: int, e: (u64, u32))
    requires
        0 <= p <= before.len(),
        by_count_desc(before),
        forall|q: int| 0 <= q < p ==> before[q].1 >= e.1,
        p < before.len() ==> before[p].1 < e.1,
        forall|k: int| 0 <= k < before.len() ==> before[k].0 != e.0,
        forall|a: int, b: int| 0 <= a < b < before.len() ==> before[a].0 != before[b].0,
    ensures
        by_count_desc(before.insert(p, e)),
        forall|a: int, b: int|
            0 <= a < b < before.insert(p, e).len() ==> before.insert(p, e)[a].0 != before.insert(p, e)[b].0,
        forall|k: int| 0 <= k < before.len() ==> before.insert(p, e).contains(before[k]),
        before.insert(p, e).contains(e),
        forall|k: int|
            0 <= k < before.insert(p, e).len() ==> before.insert(p, e)[k] == e || before.contains(
                before.insert(p, e)[k],
            ),
{
    let r = before.insert(p, e);
    assert forall|q: int| p <= q < before.len() implies before[q].1 < e.1 by {
        if q > p {
            assert(before[p].1 >= before[q].1);
        }
    }
    assert forall|a: int, b: int| 0 <= a < b < r.len() implies r[a].1 >= r[b].1 && r[a].0 != r[b].0 by {
        if a < p && b > p {
            assert(r[b] == before[b - 1]);
        }
        if a > p {
            assert(r[a] == before[a - 1]);
            assert(r[b] == before[b - 1]);
        }
    }
    assert forall|k: int| 0 <= k < before.len() implies r.contains(before[k]) by {
        if k < p {
            assert(r[k] == before[k]);
        } else {
            assert(r[k + 1] == before[k]);
        }
    }
    assert(r[p] == e);
    assert forall|k: int| 0 <= k < r.len() implies r[k] == e || before.contains(r[k]) by {
        if k < p {
            assert(r[k] == before[k]);
        } else if k > p {
            assert(r[k] == before[k - 1]);
        }
    }
}

/// The pairs of `v` by count, highest first; pairs of equal count keep
/// their order.
fn sort_by_count_desc(v: &Vec<(u64, u32)>) -> (r: Vec<(u64, u32)>)
    requires
        forall|i: int, j: int| 0 <= i < j < v@.len() ==> v@[i].0 != v@[j].0,
    ensures
        by_count_desc(r@),
        rearranged(r@, v@),
        forall|i: int, j: int| 0 <= i < j < r@.len() ==> r@[i].0 != r@[j].0,
{
    let mut r: Vec<(u64, u32)> = Vec::new();
    let mut i: usize = 0;
    while i < v.len()
        invariant
            i <= v@.len(),
            r@.len() == i,
            forall|a: int, b: int| 0 <= a < b < v@.len() ==> v@[a].0 != v@[b].0,
            by_count_desc(r@),
            forall|k: int| 0 <= k < r@.len() ==> v@.take(i as int).contains(#[trigger] r@[k]),
            forall|k: int| 0 <= k < i ==> r@.contains(#[trigger] v@[k]),
            forall|a: int, b: int| 0 <= a < b < r@.len() ==> r@[a].0 != r@[b].0,
        decreases v@.len() - i,
    {
        let e = v[i];
        let mut p: usize = 0;
        while p < r.len() && r[p].1 >= e.1
            invariant
                p <= r@.len(),
                forall|q: int| 0 <= q < p ==> r@[q].1 >= e.1,
            decreases r@.len() - p,
        {
            p += 1;
        }
        let ghost before = r@;
        proof {
            assert forall|k: int| 0 <= k < before.len() implies before[k].0 != e.0 by {
                assert(v@.take(i as int).contains(before[k]));
                let j = choose|j: int| 0 <= j < i && v@.take(i as int)[j] == before[k];
                assert(v@[j].0 != v@[i as int].0);
            }
            lemma_insert_by_count(before, p as int, e);
        }
        r.insert(p, e);
        proof {
            let vt = v@.take(i + 1);
            assert forall|k: int| 0 <= k < r@.len() implies vt.contains(#[trigger] r@[k]) by {
                if r@[k] == e {
                    assert(vt[i as int] == e);
                } else {
                    let q = choose|q: int| 0 <= q < before.len() && before[q] == r@[k];
                    assert(v@.take(i as int).contains(before[q]));
                    let j = choose|j: int| 0 <= j < i && v@.take(i as int)[j] == before[q];
                    assert(vt[j] == r@[k]);
                }
            }
            assert forall|k: int| 0 <= k < i + 1 implies r@.contains(#[trigger] v@[k]) by {
                if k == i {
                    assert(r@.contains(e));
                } else {
                    let q = choose|q: int| 0 <= q < before.len() && before[q] == v@[k];
                    assert(r@.contains(before[q]));
                }
            }
        }
        i += 1;
    }
    proof {
        assert(v@.take(i as int) =~= v@);
    }
    r
}

/// Each ID of `lists` (the references of the active neurons of a search)
/// with the number of times it occurs in them, highest count first.
pub fn rank_references(lists: &[Vec<u64>]) -> (r: Vec<(u64, u32)>)
    requires
        flatten(lists@.map_values(|v: Vec<u64>| v@)).len() <= u32::MAX,
    ensures
        tallies(r@, flatten(lists@.map_values(|v: Vec<u64>| v@))),
        by_count_desc(r@),
{
    let t = tally(lists);
    let r = sort_by_count_desc(&t);
    proof {
        let s = flatten(lists@.map_values(|v: Vec<u64>| v@));
        assert forall|i: int| 0 <= i < r@.len() implies r@[i].1 == occurrences(s, r@[i].0) && s.contains(r@[i].0) by {
            let j = choose|j: int| 0 <= j < t@.len() && t@[j] == r@[i];
        }
        assert forall|x: u64| s.contains(x) implies exists|i: int| 0 <= i < r@.len() && r@[i].0 == x by {
            let j = choose|j: int| 0 <= j < t@.len() && t@[j].0 == x;
            assert(r@.contains(t@[j]));
            let i = choose|i: int| 0 <= i < r@.len() && r@[i] == t@[j];
            assert(r@[i].0 == x);
        }
    }
    r
}

} // verus!
