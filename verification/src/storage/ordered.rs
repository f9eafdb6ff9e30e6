//! Ordered walks over `BTreeMap`s with integer keys: the keys in ascending
//! order, as a vector.
use std::collections::{BTreeMap, BTreeSet};
use vstd::prelude::*;
use vstd::std_specs::btree::{
    axiom_increasing_seq_meaning, increasing_seq, spec_btree_keys_iter, spec_keys_iter,
};
use vstd::std_specs::cmp::OrdSpec;
use vstd::std_specs::iter::IteratorSpec;

verus! {

broadcast use vstd::std_specs::btree::group_btree_axioms;

/// `s` is strictly increasing.
pub open spec fn increasing_u32(s: Seq<u32>) -> bool {
    forall|i: int, j: int| 0 <= i < j < s.len() ==> s[i] < s[j]
}

/// `s` is strictly increasing.
pub open spec fn increasing_u64(s: Seq<u64>) -> bool {
    forall|i: int, j: int| 0 <= i < j < s.len() ==> s[i] < s[j]
}

proof fn lemma_increasing_u32_refs(s: Seq<&u32>)
    requires
        increasing_seq(s),
    ensures
        increasing_u32(s.map_values(|x: &u32| *x)),
{
    assert(vstd::laws_cmp::obeys_cmp::<&u32>());
    axiom_increasing_seq_meaning(s);
    assert forall|i: int, j: int| 0 <= i < j < s.len() implies *s[i] < *s[j] by {
        assert(OrdSpec::cmp_spec(&s[i], &s[j]) is Less);
    }
}

proof fn lemma_increasing_u64_refs(s: Seq<&u64>)
    requires
        increasing_seq(s),
    ensures
        increasing_u64(s.map_values(|x: &u64| *x)),
{
    assert(vstd::laws_cmp::obeys_cmp::<&u64>());
    axiom_increasing_seq_meaning(s);
    assert forall|i: int, j: int| 0 <= i < j < s.len() implies *s[i] < *s[j] by {
        assert(OrdSpec::cmp_spec(&s[i], &s[j]) is Less);
    }
}

/// The keys of `m` in ascending order.
pub fn keys_u32<V>(m: &BTreeMap<u32, V>) -> (r: Vec<u32>)
    ensures
        increasing_u32(r@),
        r@.to_set() == m@.dom(),
        r@.len() == m@.len(),
{
    let ghost ks = spec_keys_iter(m).remaining();
    let mut r: Vec<u32> = Vec::new();
    for k in it: m.keys()
        invariant
            it.seq() == ks,
            r@ == ks.take(it.index() as int).map_values(|x: &u32| *x),
    {
        r.push(*k);
    }
    proof {
        lemma_increasing_u32_refs(ks);
        assert(r@ =~= ks.map_values(|x: &u32| *x));
        assert(r@.to_set() =~= m@.dom()) by {
            assert(ks.unref().to_set() == m@.dom());
            assert(r@ =~= ks.unref());
        }
    }
    r
}

/// The keys of `m` in ascending order.
pub fn keys_u64<V>(m: &BTreeMap<u64, V>) -> (r: Vec<u64>)
    ensures
        increasing_u64(r@),
        r@.to_set() == m@.dom(),
        r@.len() == m@.len(),
{
    let ghost ks = spec_keys_iter(m).remaining();
    let mut r: Vec<u64> = Vec::new();
    for k in it: m.keys()
        invariant
            it.seq() == ks,
            r@ == ks.take(it.index() as int).map_values(|x: &u64| *x),
    {
        r.push(*k);
    }
    proof {
        lemma_increasing_u64_refs(ks);
        assert(r@ =~= ks.map_values(|x: &u64| *x));
        assert(r@.to_set() =~= m@.dom()) by {
            assert(ks.unref().to_set() == m@.dom());
            assert(r@ =~= ks.unref());
        }
    }
    r
}

/// The elements of `s` in ascending order.
pub fn set_elems_u32(s: &BTreeSet<u32>) -> (r: Vec<u32>)
    ensures
        increasing_u32(r@),
        r@.to_set() == s@,
        r@.len() == s@.len(),
{
    let ghost ks = spec_btree_keys_iter(s).remaining();
    let mut r: Vec<u32> = Vec::new();
    for k in it: s.iter()
        invariant
            it.seq() == ks,
            r@ == ks.take(it.index() as int).map_values(|x: &u32| *x),
    {
        r.push(*k);
    }
    proof {
        lemma_increasing_u32_refs(ks);
        assert(r@ =~= ks.map_values(|x: &u32| *x));
        assert(r@.to_set() =~= s@) by {
            assert(ks.unref().to_set() == s@);
            assert(r@ =~= ks.unref());
        }
    }
    r
}

/// The elements of the finite set `s` in ascending order.
pub open spec fn sorted_u32(s: Set<u32>) -> Seq<u32> {
    choose|ks: Seq<u32>| increasing_u32(ks) && ks.to_set() == s
}

/// The elements of the finite set `s` in ascending order.
pub open spec fn sorted_u64(s: Set<u64>) -> Seq<u64> {
    choose|ks: Seq<u64>| increasing_u64(ks) && ks.to_set() == s
}

/// Two ascending sequences with the same elements are the same sequence.
pub proof fn lemma_sorted_u32_unique(a: Seq<u32>, b: Seq<u32>)
    requires
        increasing_u32(a),
        increasing_u32(b),
        a.to_set() == b.to_set(),
    ensures
        a == b,
    decreases a.len(),
{
    if a.len() == 0 {
        if b.len() > 0 {
            assert(b.to_set().contains(b[0]));
        }
        assert(a =~= b);
    } else {
        assert(a.to_set().contains(a[0]));
        assert(b.to_set().contains(a[0]));
        let j = choose|j: int| 0 <= j < b.len() && b[j] == a[0];
        assert(b.to_set().contains(b[0]));
        let i = choose|i: int| 0 <= i < a.len() && a[i] == b[0];
        assert(a[0] == b[0]) by {
            if i > 0 {
                assert(a[0] < a[i]);
            }
            if j > 0 {
                assert(b[0] < b[j]);
            }
        }
        let a1 = a.drop_first();
        let b1 = b.drop_first();
        assert forall|x: u32| a1.to_set().contains(x) <==> b1.to_set().contains(x) by {
            if a1.to_set().contains(x) {
                let k = choose|k: int| 0 <= k < a1.len() && a1[k] == x;
                assert(a[k + 1] == x);
                assert(a[0] < a[k + 1]);
                assert(a.to_set().contains(x));
                let l = choose|l: int| 0 <= l < b.len() && b[l] == x;
                assert(l != 0);
                assert(b1[l - 1] == x);
            }
            if b1.to_set().contains(x) {
                let k = choose|k: int| 0 <= k < b1.len() && b1[k] == x;
                assert(b[k + 1] == x);
                assert(b[0] < b[k + 1]);
                assert(b.to_set().contains(x));
                let l = choose|l: int| 0 <= l < a.len() && a[l] == x;
                assert(l != 0);
                assert(a1[l - 1] == x);
            }
        }
        assert(a1.to_set() =~= b1.to_set());
        lemma_sorted_u32_unique(a1, b1);
        assert(a =~= seq![a[0]] + a1);
        assert(b =~= seq![b[0]] + b1);
    }
}

/// Two ascending sequences with the same elements are the same sequence.
pub proof fn lemma_sorted_u64_unique(a: Seq<u64>, b: Seq<u64>)
    requires
        increasing_u64(a),
        increasing_u64(b),
        a.to_set() == b.to_set(),
    ensures
        a == b,
    decreases a.len(),
{
    if a.len() == 0 {
        if b.len() > 0 {
            assert(b.to_set().contains(b[0]));
        }
        assert(a =~= b);
    } else {
        assert(a.to_set().contains(a[0]));
        assert(b.to_set().contains(a[0]));
        let j = choose|j: int| 0 <= j < b.len() && b[j] == a[0];
        assert(b.to_set().contains(b[0]));
        let i = choose|i: int| 0 <= i < a.len() && a[i] == b[0];
        assert(a[0] == b[0]) by {
            if i > 0 {
                assert(a[0] < a[i]);
            }
            if j > 0 {
                assert(b[0] < b[j]);
            }
        }
        let a1 = a.drop_first();
        let b1 = b.drop_first();
        assert forall|x: u64| a1.to_set().contains(x) <==> b1.to_set().contains(x) by {
            if a1.to_set().contains(x) {
                let k = choose|k: int| 0 <= k < a1.len() && a1[k] == x;
                assert(a[k + 1] == x);
                assert(a[0] < a[k + 1]);
                assert(a.to_set().contains(x));
                let l = choose|l: int| 0 <= l < b.len() && b[l] == x;
                assert(l != 0);
                assert(b1[l - 1] == x);
            }
            if b1.to_set().contains(x) {
                let k = choose|k: int| 0 <= k < b1.len() && b1[k] == x;
                assert(b[k + 1] == x);
                assert(b[0] < b[k + 1]);
                assert(b.to_set().contains(x));
                let l = choose|l: int| 0 <= l < a.len() && a[l] == x;
                assert(l != 0);
                assert(a1[l - 1] == x);
            }
        }
        assert(a1.to_set() =~= b1.to_set());
        lemma_sorted_u64_unique(a1, b1);
        assert(a =~= seq![a[0]] + a1);
        assert(b =~= seq![b[0]] + b1);
    }
}

/// An ascending sequence is the sorted form of its elements.
pub proof fn lemma_is_sorted_u32(ks: Seq<u32>, s: Set<u32>)
    requires
        increasing_u32(ks),
        ks.to_set() == s,
    ensures
        sorted_u32(s) == ks,
{
    let c = sorted_u32(s);
    assert(increasing_u32(c) && c.to_set() == s);
    lemma_sorted_u32_unique(c, ks);
}

/// An ascending sequence is the sorted form of its elements.
pub proof fn lemma_is_sorted_u64(ks: Seq<u64>, s: Set<u64>)
    requires
        increasing_u64(ks),
        ks.to_set() == s,
    ensures
        sorted_u64(s) == ks,
{
    let c = sorted_u64(s);
    assert(increasing_u64(c) && c.to_set() == s);
    lemma_sorted_u64_unique(c, ks);
}

} // verus!
