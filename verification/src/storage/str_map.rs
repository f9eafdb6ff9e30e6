//! An ordered map keyed by strings: entries kept in ascending byte order of
//! their keys (the order of `str`), so that lookups, prefix scans and walks
//! see the keys sorted.
use vstd::prelude::*;
use vstd::string::StringSliceAdditionalSpecFns;
use vstd::utf8::{encode_utf8, encode_utf8_decode_utf8};

verus! {

/// Byte-wise lexicographic order: `a` sorts before `b`.
pub open spec fn lex_lt(a: Seq<u8>, b: Seq<u8>) -> bool
    decreases a.len(),
{
    if a.len() == 0 {
        b.len() > 0
    } else if b.len() == 0 {
        false
    } else if a[0] < b[0] {
        true
    } else if a[0] > b[0] {
        false
    } else {
        lex_lt(a.drop_first(), b.drop_first())
    }
}

/// The UTF-8 bytes of a key, by which keys are ordered.
pub open spec fn key_bytes(k: Seq<char>) -> Seq<u8> {
    encode_utf8(k)
}

/// Key `a` sorts before key `b`.
pub open spec fn key_lt(a: Seq<char>, b: Seq<char>) -> bool {
    lex_lt(key_bytes(a), key_bytes(b))
}

/// The keys of `s` are strictly ascending.
pub open spec fn keys_sorted<V>(s: Seq<(Seq<char>, V)>) -> bool {
    forall|i: int, j: int| 0 <= i < j < s.len() ==> key_lt(s[i].0, s[j].0)
}

/// The index of key `k` in `s`, when there is one.
pub open spec fn has_key_at<V>(s: Seq<(Seq<char>, V)>, k: Seq<char>, i: int) -> bool {
    0 <= i < s.len() && s[i].0 == k
}

/// Key `k` occurs in `s`.
pub open spec fn contains_key<V>(s: Seq<(Seq<char>, V)>, k: Seq<char>) -> bool {
    exists|i: int| has_key_at(s, k, i)
}

/// `p` is where key `k` would go in the sorted `s`: every key before it
/// sorts before `k`, every key from it on sorts after `k`.
pub open spec fn insertion_point<V>(s: Seq<(Seq<char>, V)>, k: Seq<char>, p: int) -> bool {
    &&& 0 <= p <= s.len()
    &&& forall|j: int| 0 <= j < p ==> key_lt(s[j].0, k)
    &&& forall|j: int| p <= j < s.len() ==> key_lt(k, s[j].0)
}

pub proof fn lemma_lex_irreflexive(a: Seq<u8>)
    ensures
        !lex_lt(a, a),
    decreases a.len(),
{
    if a.len() > 0 {
        lemma_lex_irreflexive(a.drop_first());
    }
}

pub proof fn lemma_lex_asymmetric(a: Seq<u8>, b: Seq<u8>)
    requires
        lex_lt(a, b),
    ensures
        !lex_lt(b, a),
    decreases a.len(),
{
    if a.len() > 0 && b.len() > 0 && a[0] == b[0] {
        lemma_lex_asymmetric(a.drop_first(), b.drop_first());
    }
}

pub proof fn lemma_lex_transitive(a: Seq<u8>, b: Seq<u8>, c: Seq<u8>)
    requires
        lex_lt(a, b),
        lex_lt(b, c),
    ensures
        lex_lt(a, c),
    decreases a.len(),
{
    if a.len() > 0 && b.len() > 0 && c.len() > 0 && a[0] == b[0] && b[0] == c[0] {
        lemma_lex_transitive(a.drop_first(), b.drop_first(), c.drop_first());
    }
}

pub proof fn lemma_lex_total(a: Seq<u8>, b: Seq<u8>)
    requires
        a != b,
    ensures
        lex_lt(a, b) || lex_lt(b, a),
    decreases a.len(),
{
    if a.len() > 0 && b.len() > 0 && a[0] == b[0] {
        if a.drop_first() == b.drop_first() {
            assert(a =~= seq![a[0]] + a.drop_first());
            assert(b =~= seq![b[0]] + b.drop_first());
        }
        lemma_lex_total(a.drop_first(), b.drop_first());
    } else if a.len() == 0 && b.len() == 0 {
        assert(a =~= b);
    }
}

/// Distinct keys are ordered one way or the other.
pub proof fn lemma_key_total(a: Seq<char>, b: Seq<char>)
    requires
        a != b,
    ensures
        key_lt(a, b) || key_lt(b, a),
{
    encode_utf8_decode_utf8(a);
    encode_utf8_decode_utf8(b);
    lemma_lex_total(key_bytes(a), key_bytes(b));
}

/// Whether `a` sorts before `b` byte-wise.
pub fn bytes_lt(a: &[u8], b: &[u8]) -> (r: bool)
    ensures
        r == lex_lt(a@, b@),
{
    let mut i: usize = 0;
    assert(a@.skip(0) =~= a@);
    assert(b@.skip(0) =~= b@);
    while i < a.len() && i < b.len() && a[i] == b[i]
        invariant
            i <= a@.len(),
            i <= b@.len(),
            lex_lt(a@, b@) == lex_lt(a@.skip(i as int), b@.skip(i as int)),
        decreases a@.len() - i,
    {
        assert(a@.skip(i + 1) =~= a@.skip(i as int).drop_first());
        assert(b@.skip(i + 1) =~= b@.skip(i as int).drop_first());
        i += 1;
    }
    if i == a.len() {
        i < b.len()
    } else if i == b.len() {
        false
    } else {
        a[i] < b[i]
    }
}

/// Whether `a` and `b` hold the same bytes.
pub fn bytes_eq(a: &[u8], b: &[u8]) -> (r: bool)
    ensures
        r == (a@ == b@),
{
    if a.len() != b.len() {
        return false;
    }
    let mut i: usize = 0;
    while i < a.len()
        invariant
            i <= a@.len(),
            a@.len() == b@.len(),
            forall|j: int| 0 <= j < i ==> a@[j] == b@[j],
        decreases a@.len() - i,
    {
        if a[i] != b[i] {
            return false;
        }
        i += 1;
    }
    assert(a@ =~= b@);
    true
}

/// In sorted entries a key occurs at most once.
pub proof fn lemma_key_unique<V>(s: Seq<(Seq<char>, V)>, k: Seq<char>, i: int, j: int)
    requires
        keys_sorted(s),
        has_key_at(s, k, i),
        has_key_at(s, k, j),
    ensures
        i == j,
{
    lemma_lex_irreflexive(key_bytes(k));
    if i < j {
        assert(key_lt(s[i].0, s[j].0));
    } else if j < i {
        assert(key_lt(s[j].0, s[i].0));
    }
}

/// The place where a key goes in a sorted sequence is unique.
pub proof fn lemma_insertion_point_unique<V>(s: Seq<(Seq<char>, V)>, k: Seq<char>, p: int, q: int)
    requires
        insertion_point(s, k, p),
        insertion_point(s, k, q),
    ensures
        p == q,
{
    if p < q {
        lemma_lex_asymmetric(key_bytes(k), key_bytes(s[p].0));
    } else if q < p {
        lemma_lex_asymmetric(key_bytes(k), key_bytes(s[q].0));
    }
}

/// Removing entry `i` of sorted entries leaves `i` as the place of its key.
pub proof fn lemma_removed_insertion_point<V>(s: Seq<(Seq<char>, V)>, i: int)
    requires
        keys_sorted(s),
        0 <= i < s.len(),
    ensures
        insertion_point(s.remove(i), s[i].0, i),
{
    let t = s.remove(i);
    assert forall|j: int| 0 <= j < i implies key_lt(t[j].0, s[i].0) by {
        assert(key_lt(s[j].0, s[i].0));
    }
    assert forall|j: int| i <= j < t.len() implies key_lt(s[i].0, t[j].0) by {
        assert(key_lt(s[i].0, s[j + 1].0));
    }
}

/// Strings with the same UTF-8 bytes are the same text.
proof fn lemma_key_bytes_injective(a: Seq<char>, b: Seq<char>)
    requires
        key_bytes(a) == key_bytes(b),
    ensures
        a == b,
{
    encode_utf8_decode_utf8(a);
    encode_utf8_decode_utf8(b);
}

/// An ordered map from strings to values.
pub struct StrMap<V> {
    entries: Vec<(String, V)>,
}

impl<V> View for StrMap<V> {
    type V = Seq<(Seq<char>, V)>;

    closed spec fn view(&self) -> Seq<(Seq<char>, V)> {
        self.entries@.map_values(|e: (String, V)| (e.0@, e.1))
    }
}

impl<V> StrMap<V> {
    #[verifier::type_invariant]
    spec fn sorted(&self) -> bool {
        keys_sorted(self@)
    }

    /// An empty map.
    pub fn new() -> (m: Self)
        ensures
            m@ == Seq::<(Seq<char>, V)>::empty(),
            keys_sorted(m@),
    {
        let m = StrMap { entries: Vec::new() };
        assert(m@ =~= Seq::<(Seq<char>, V)>::empty());
        m
    }

    /// Number of entries.
    pub fn len(&self) -> (r: usize)
        ensures
            r == self@.len(),
            keys_sorted(self@),
    {
        proof {
            use_type_invariant(self);
        }
        self.entries.len()
    }

    /// The key of entry `i`.
    pub fn key_at(&self, i: usize) -> (r: &String)
        requires
            i < self@.len(),
        ensures
            r@ == self@[i as int].0,
    {
        &self.entries[i].0
    }

    /// The value of entry `i`.
    pub fn value_at(&self, i: usize) -> (r: &V)
        requires
            i < self@.len(),
        ensures
            *r == self@[i as int].1,
    {
        &self.entries[i].1
    }

    /// Where `key` is: `Ok(i)` with `i` its index, or `Err(p)` with `p` the
    /// place where it would be inserted.
    pub fn find(&self, key: &str) -> (r: Result<usize, usize>)
        ensures
            match r {
                Ok(i) => has_key_at(self@, key@, i as int),
                Err(p) => !contains_key(self@, key@) && insertion_point(self@, key@, p as int),
            },
            keys_sorted(self@),
    {
        proof {
            use_type_invariant(self);
        }
        let kb = key.as_bytes();
        let mut i: usize = 0;
        while i < self.entries.len()
            invariant
                i <= self@.len(),
                kb@ == key_bytes(key@),
                keys_sorted(self@),
                self@.len() == self.entries@.len(),
                forall|j: int| 0 <= j < i ==> key_lt(self@[j].0, key@),
            decreases self@.len() - i,
        {
            let eb = self.entries[i].0.as_str().as_bytes();
            assert(eb@ == key_bytes(self@[i as int].0));
            if bytes_eq(eb, kb) {
                proof {
                    lemma_key_bytes_injective(self@[i as int].0, key@);
                }
                return Ok(i);
            }
            if bytes_lt(kb, eb) {
                proof {
                    assert forall|j: int| i <= j < self@.len() implies key_lt(key@, self@[j].0) by {
                        if j > i {
                            assert(key_lt(self@[i as int].0, self@[j].0));
                            lemma_lex_transitive(key_bytes(key@), key_bytes(self@[i as int].0), key_bytes(self@[j].0));
                        }
                    }
                    assert forall|j: int| 0 <= j < self@.len() implies self@[j].0 != key@ by {
                        if j < i {
                            lemma_lex_irreflexive(key_bytes(key@));
                        } else {
                            lemma_lex_irreflexive(key_bytes(key@));
                        }
                    }
                }
                return Err(i);
            }
            proof {
                lemma_key_total(self@[i as int].0, key@);
            }
            i += 1;
        }
        proof {
            assert forall|j: int| 0 <= j < self@.len() implies self@[j].0 != key@ by {
                lemma_lex_irreflexive(key_bytes(key@));
            }
        }
        Err(i)
    }

    /// The value stored under `key`.
    pub fn get(&self, key: &str) -> (r: Option<&V>)
        ensures
            match r {
                Some(v) => exists|i: int| has_key_at(self@, key@, i) && *v == self@[i].1,
                None => !contains_key(self@, key@),
            },
            keys_sorted(self@),
    {
        match self.find(key) {
            Ok(i) => Some(&self.entries[i].1),
            Err(_) => None,
        }
    }

    /// Whether `key` has an entry.
    pub fn contains(&self, key: &str) -> (r: bool)
        ensures
            r == contains_key(self@, key@),
            keys_sorted(self@),
    {
        self.find(key).is_ok()
    }

    /// Store `v` under `key`: the entry of `key` is replaced when there is
    /// one, else a new entry goes in at its place in key order.
    pub fn insert(&mut self, key: String, v: V)
        ensures
            contains_key(old(self)@, key@) ==> exists|i: int|
                has_key_at(old(self)@, key@, i) && final(self)@ == old(self)@.update(i, (key@, v)),
            !contains_key(old(self)@, key@) ==> exists|p: int|
                insertion_point(old(self)@, key@, p) && final(self)@ == old(self)@.insert(
                    p,
                    (key@, v),
                ),
            keys_sorted(final(self)@),
    {
        proof {
            use_type_invariant(&*self);
        }
        let ghost k = key@;
        match self.find(key.as_str()) {
            Ok(i) => {
                let ghost s = self@;
                let mut entries: Vec<(String, V)> = Vec::new();
                std::mem::swap(&mut entries, &mut self.entries);
                let _old = entries.remove(i);
                entries.insert(i, (key, v));
                assert(entries@.map_values(|e: (String, V)| (e.0@, e.1)) =~= s.update(i as int, (k, v)));
                self.entries = entries;
            },
            Err(p) => {
                let ghost s = self@;
                let mut entries: Vec<(String, V)> = Vec::new();
                std::mem::swap(&mut entries, &mut self.entries);
                entries.insert(p, (key, v));
                let ghost t = entries@.map_values(|e: (String, V)| (e.0@, e.1));
                assert(t =~= s.insert(p as int, (k, v)));
                assert forall|a: int, b: int| 0 <= a < b < t.len() implies key_lt(
                    t[a].0,
                    t[b].0,
                ) by {
                    if a < p && b > p {
                        assert(key_lt(s[a].0, k));
                        assert(key_lt(k, s[b - 1].0));
                        lemma_lex_transitive(key_bytes(s[a].0), key_bytes(k), key_bytes(s[b - 1].0));
                    } else if a < p && b < p {
                        assert(key_lt(s[a].0, s[b].0));
                    } else if a > p {
                        assert(key_lt(s[a - 1].0, s[b - 1].0));
                    }
                }
                self.entries = entries;
            },
        }
        proof {
            use_type_invariant(&*self);
        }
    }

    /// Remove the entry of `key`, returning its value.
    pub fn remove(&mut self, key: &str) -> (r: Option<V>)
        ensures
            contains_key(old(self)@, key@) ==> exists|i: int|
                has_key_at(old(self)@, key@, i) && final(self)@ == old(self)@.remove(i) && r == Some(
                    old(self)@[i].1,
                ),
            !contains_key(old(self)@, key@) ==> final(self)@ == old(self)@ && r is None,
            keys_sorted(final(self)@),
    {
        proof {
            use_type_invariant(&*self);
        }
        match self.find(key) {
            Ok(i) => {
                let ghost s = self@;
                let mut entries: Vec<(String, V)> = Vec::new();
                std::mem::swap(&mut entries, &mut self.entries);
                let e = entries.remove(i);
                assert(entries@.map_values(|e: (String, V)| (e.0@, e.1)) =~= s.remove(i as int));
                self.entries = entries;
                proof {
                    use_type_invariant(&*self);
                }
                Some(e.1)
            },
            Err(_) => None,
        }
    }
}

} // verus!
