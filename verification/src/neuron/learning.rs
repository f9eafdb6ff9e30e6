//! Firing history for Hebbian learning: which neurons fired in each of the
//! last few ticks.
use std::collections::HashSet;
use vstd::prelude::*;
use vstd::std_specs::hash::spec_hash_keys_iter;
use vstd::std_specs::iter::IteratorSpec;
use crate::neuron::neuron::NeuronId;

verus! {

/// The neurons that fired in any of the ticks of `h`.
pub open spec fn fired_in_any(h: Seq<Set<NeuronId>>) -> Set<NeuronId>
    decreases h.len(),
{
    if h.len() == 0 {
        Set::empty()
    } else {
        fired_in_any(h.drop_last()) + h.last()
    }
}

/// The ticks after recording `fired` on `h`: the oldest tick goes once more
/// than `kept_ticks(window)` ticks are held.
pub open spec fn after_tick(h: Seq<Set<NeuronId>>, fired: Seq<NeuronId>, window: nat) -> Seq<Set<NeuronId>> {
    let h1 = h.push(fired.to_set());
    if h1.len() > kept_ticks(window) {
        h1.drop_first()
    } else {
        h1
    }
}

/// The most ticks a history of window `window` keeps: one fewer than the
/// window, but the current tick always stays in a window of 1 (and nothing
/// in a window of 0).
pub open spec fn kept_ticks(window: nat) -> nat {
    if window <= 1 {
        window
    } else {
        (window - 1) as nat
    }
}

proof fn lemma_fired_in_any(h: Seq<Set<NeuronId>>, id: NeuronId)
    ensures
        fired_in_any(h).contains(id) <==> exists|i: int| 0 <= i < h.len() && #[trigger] h[i].contains(id),
    decreases h.len(),
{
    if h.len() > 0 {
        lemma_fired_in_any(h.drop_last(), id);
        if fired_in_any(h.drop_last()).contains(id) {
            let i = choose|i: int| 0 <= i < h.drop_last().len() && #[trigger] h.drop_last()[i].contains(id);
            assert(h[i].contains(id));
        }
        if h.last().contains(id) {
            assert(h[h.len() - 1].contains(id));
        }
        if exists|i: int| 0 <= i < h.len() && #[trigger] h[i].contains(id) {
            let i = choose|i: int| 0 <= i < h.len() && #[trigger] h[i].contains(id);
            if i < h.len() - 1 {
                assert(h.drop_last()[i].contains(id));
            }
        }
    }
}

/// The history left by recording each tick of `ticks` in turn, oldest first,
/// on an empty history of window `window`.
pub open spec fn history_of(ticks: Seq<Seq<NeuronId>>, window: nat) -> Seq<Set<NeuronId>>
    decreases ticks.len(),
{
    if ticks.len() == 0 {
        Seq::empty()
    } else {
        after_tick(history_of(ticks.drop_last(), window), ticks.last(), window)
    }
}

/// The last `n` of `ticks` (all of them when there are fewer), each as the
/// set of neurons that fired in it.
pub open spec fn last_ticks(ticks: Seq<Seq<NeuronId>>, n: nat) -> Seq<Set<NeuronId>> {
    let k = if ticks.len() > n {
        ticks.len() - n
    } else {
        0
    };
    ticks.subrange(k, ticks.len() as int).map_values(|t: Seq<NeuronId>| t.to_set())
}

/// A history of window `window` keeps exactly the last `kept_ticks(window)`
/// recorded ticks: older ticks are forgotten.
pub proof fn lemma_history_keeps_last_ticks(ticks: Seq<Seq<NeuronId>>, window: nat)
    ensures
        history_of(ticks, window) == last_ticks(ticks, kept_ticks(window)),
    decreases ticks.len(),
{
    if ticks.len() > 0 {
        let d = ticks.drop_last();
        let n = ticks.len();
        let kk = kept_ticks(window);
        lemma_history_keeps_last_ticks(d, window);
        let h = history_of(d, window);
        let h1 = h.push(ticks.last().to_set());
        if n - 1 < kk {
            assert(h1 =~= last_ticks(ticks, kk));
        } else {
            assert(h1.drop_first() =~= last_ticks(ticks, kk));
        }
    }
}

/// A neuron fired recently, after `ticks` were recorded on an empty history
/// of window `window`, exactly when it fired in one of the last
/// `kept_ticks(window)` of them.
pub proof fn lemma_fired_recently_in_last_ticks(
    ticks: Seq<Seq<NeuronId>>,
    window: nat,
    id: NeuronId,
)
    ensures
        fired_in_any(history_of(ticks, window)).contains(id) <==> exists|i: int|
            ticks.len() - kept_ticks(window) <= i < ticks.len() && 0 <= i && #[trigger] ticks[i].contains(
                id,
            ),
{
    lemma_history_keeps_last_ticks(ticks, window);
    let h = history_of(ticks, window);
    let kk = kept_ticks(window);
    let k = if ticks.len() > kk {
        ticks.len() - kk
    } else {
        0
    };
    lemma_fired_in_any(h, id);
    if fired_in_any(h).contains(id) {
        let j = choose|j: int| 0 <= j < h.len() && #[trigger] h[j].contains(id);
        assert(h[j] == ticks[k + j].to_set());
        assert(ticks[k + j].contains(id));
    }
    if exists|i: int| ticks.len() - kk <= i < ticks.len() && 0 <= i && #[trigger] ticks[i].contains(id) {
        let i = choose|i: int|
            ticks.len() - kk <= i < ticks.len() && 0 <= i && #[trigger] ticks[i].contains(id);
        assert(h[i - k] == ticks[i].to_set());
        assert(h[i - k].contains(id));
    }
}

/// The neurons that fired in each of the last few ticks (see `kept_ticks`),
/// oldest first.
#[derive(Debug, Clone)]
pub struct FiringHistory {
    history: Vec<HashSet<NeuronId>>,
    window: usize,
}

impl View for FiringHistory {
    type V = Seq<Set<NeuronId>>;

    closed spec fn view(&self) -> Seq<Set<NeuronId>> {
        self.history@.map_values(|s: HashSet<NeuronId>| s@)
    }
}

impl FiringHistory {
    /// How many ticks are kept.
    pub closed spec fn window(&self) -> nat {
        self.window as nat
    }

    pub fn new(window: usize) -> (h: Self)
        ensures
            h@ == Seq::<Set<NeuronId>>::empty(),
            h.window() == window,
            h@.len() <= kept_ticks(h.window()),
    {
        let h = Self { history: Vec::new(), window };
        assert(h@ =~= Seq::<Set<NeuronId>>::empty());
        h
    }

    /// Record which neurons fired this tick; the oldest tick goes once more
    /// than `kept_ticks(window)` ticks are held.
    pub fn record_tick(&mut self, fired: &[NeuronId])
        ensures
            final(self)@ == after_tick(old(self)@, fired@, old(self).window()),
            final(self).window() == old(self).window(),
            old(self)@.len() <= kept_ticks(old(self).window()) ==> final(self)@.len() <= kept_ticks(
                final(self).window(),
            ),
    {
        broadcast use vstd::std_specs::hash::group_hash_axioms;

        let mut set: HashSet<NeuronId> = HashSet::new();
        let mut i: usize = 0;
        while i < fired.len()
            invariant
                i <= fired@.len(),
                set@ == fired@.take(i as int).to_set(),
            decreases fired@.len() - i,
        {
            set.insert(fired[i]);
            proof {
                assert(fired@.take(i + 1) =~= fired@.take(i as int).push(fired@[i as int]));
                fired@.take(i as int).lemma_push_to_set_commute(fired@[i as int]);
            }
            i += 1;
        }
        assert(fired@.take(fired@.len() as int) =~= fired@);
        let ghost h1 = old(self)@.push(fired@.to_set());
        self.history.push(set);
        assert(self@ =~= h1);
        let kept: usize = if self.window <= 1 {
            self.window
        } else {
            self.window - 1
        };
        if self.history.len() > kept {
            self.history.remove(0);
            assert(self@ =~= h1.drop_first());
        }
    }

    /// All neurons that fired in the kept ticks.
    pub fn recent_firings(&self) -> (r: HashSet<NeuronId>)
        ensures
            r@ == fired_in_any(self@),
    {
        broadcast use vstd::std_specs::hash::group_hash_axioms;

        let mut r: HashSet<NeuronId> = HashSet::new();
        let mut i: usize = 0;
        while i < self.history.len()
            invariant
                i <= self@.len(),
                self@.len() == self.history@.len(),
                r@ == fired_in_any(self@.take(i as int)),
            decreases self@.len() - i,
        {
            let tick = &self.history[i];
            let ghost before = r@;
            let ghost ks = spec_hash_keys_iter(tick).remaining();
            for id in it: tick.iter()
                invariant
                    it.seq() == ks,
                    r@ == before + ks.take(it.index() as int).unref().to_set(),
            {
                r.insert(*id);
                proof {
                    assert(ks.take(it.index() + 1).unref() =~= ks.take(it.index() as int).unref().push(*id));
                    ks.take(it.index() as int).unref().lemma_push_to_set_commute(*id);
                    assert(r@ =~= before + ks.take(it.index() + 1).unref().to_set());
                }
            }
            proof {
                assert(ks.take(ks.len() as int) =~= ks);
                assert(self@.take(i + 1).drop_last() =~= self@.take(i as int));
                assert(r@ =~= fired_in_any(self@.take(i + 1)));
            }
            i += 1;
        }
        assert(self@.take(self@.len() as int) =~= self@);
        r
    }

    /// Whether a neuron fired in one of the kept ticks.
    pub fn fired_recently(&self, neuron_id: NeuronId) -> (r: bool)
        ensures
            r == fired_in_any(self@).contains(neuron_id),
    {
        broadcast use vstd::std_specs::hash::group_hash_axioms;

        proof {
            lemma_fired_in_any(self@, neuron_id);
        }
        let mut i: usize = 0;
        while i < self.history.len()
            invariant
                i <= self@.len(),
                self@.len() == self.history@.len(),
                forall|j: int| 0 <= j < i ==> !(#[trigger] self@[j]).contains(neuron_id),
            decreases self@.len() - i,
        {
            if self.history[i].contains(&neuron_id) {
                assert(self@[i as int].contains(neuron_id));
                assert(fired_in_any(self@).contains(neuron_id)) by {
                    lemma_fired_in_any(self@, neuron_id);
                }
                return true;
            }
            i += 1;
        }
        false
    }
}

} // verus!
