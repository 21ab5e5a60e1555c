//! A map from `u64` keys to values, kept in ascending key order.
use vstd::prelude::*;

verus! {

/// Strictly ascending keys.
pub open spec fn ascending(s: Seq<u64>) -> bool {
    forall|i: int, j: int| 0 <= i < j < s.len() ==> s[i] < s[j]
}

/// A longer prefix has one more element.
pub proof fn lemma_prefix(s: Seq<u64>, i: int)
    requires
        0 <= i < s.len(),
    ensures
        forall|y: u64| #[trigger] s.take(i + 1).contains(y) <==> s.take(i).contains(y) || y == s[i],
{
    assert forall|y: u64| #[trigger] s.take(i + 1).contains(y) <==> s.take(i).contains(y) || y
        == s[i] by {
        if s.take(i).contains(y) {
            let j = s.take(i).index_of(y);
            assert(s.take(i + 1)[j] == y);
        }
        assert(s.take(i + 1)[i] == s[i]);
        if s.take(i + 1).contains(y) && y != s[i] {
            let j = s.take(i + 1).index_of(y);
            assert(s.take(i)[j] == y);
        }
    }
}

/// An ordered map. The view is the mathematical map; [`OrdMap::ks`] is the
/// ascending sequence of its keys.
pub struct OrdMap<V> {
    keys: Vec<u64>,
    vals: Vec<V>,
}

impl<V> View for OrdMap<V> {
    type V = Map<u64, V>;

    closed spec fn view(&self) -> Map<u64, V> {
        Map::new(
            |k: u64| self.keys@.contains(k),
            |k: u64| self.vals@[self.keys@.index_of(k)],
        )
    }
}

impl<V> OrdMap<V> {
    pub closed spec fn wf(&self) -> bool {
        &&& self.keys@.len() == self.vals@.len()
        &&& ascending(self.keys@)
    }

    /// The keys in ascending order.
    pub closed spec fn ks(&self) -> Seq<u64> {
        self.keys@
    }

    proof fn lemma_at(&self, i: int)
        requires
            self.wf(),
            0 <= i < self.keys@.len(),
        ensures
            self@.dom().contains(self.keys@[i]),
            self@[self.keys@[i]] == self.vals@[i],
    {
        let k = self.keys@[i];
        assert(self.keys@.contains(k));
        let j = self.keys@.index_of(k);
        assert(self.keys@[j] == k);
        assert(i == j);
    }

    /// The keys in order are exactly the domain.
    pub proof fn lemma_ks(&self)
        requires
            self.wf(),
        ensures
            ascending(self.ks()),
            self.ks().no_duplicates(),
            self.ks().to_set() == self@.dom(),
            self@.dom().finite(),
            self@.dom().len() == self.ks().len(),
            forall|k: u64| #[trigger] self@.dom().contains(k) <==> self.ks().contains(k),
    {
        assert(self.keys@.no_duplicates());
        self.keys@.unique_seq_to_set();
        assert(self.keys@.to_set() =~= self@.dom());
    }

    pub fn new() -> (m: Self)
        ensures
            m.wf(),
            m@ == Map::<u64, V>::empty(),
            m.ks() == Seq::<u64>::empty(),
    {
        let m = OrdMap { keys: Vec::new(), vals: Vec::new() };
        assert(m@ =~= Map::empty());
        m
    }

    pub fn len(&self) -> (n: usize)
        requires
            self.wf(),
        ensures
            n == self@.dom().len(),
            n == self.ks().len(),
            self@.dom().finite(),
    {
        proof {
            self.lemma_ks();
        }
        self.keys.len()
    }

    /// The `i`-th smallest key.
    pub fn key_at(&self, i: usize) -> (k: u64)
        requires
            self.wf(),
            i < self.ks().len(),
        ensures
            k == self.ks()[i as int],
            self@.dom().contains(k),
    {
        proof {
            self.lemma_at(i as int);
        }
        self.keys[i]
    }

    /// The value under the `i`-th smallest key.
    pub fn val_at(&self, i: usize) -> (v: &V)
        requires
            self.wf(),
            i < self.ks().len(),
        ensures
            self@.dom().contains(self.ks()[i as int]),
            *v == self@[self.ks()[i as int]],
    {
        proof {
            self.lemma_at(i as int);
        }
        &self.vals[i]
    }

    /// The number of keys below `k`.
    fn rank(&self, k: u64) -> (p: usize)
        requires
            self.wf(),
        ensures
            p <= self.keys@.len(),
            forall|i: int| 0 <= i < p ==> self.keys@[i] < k,
            forall|i: int| p <= i < self.keys@.len() ==> k <= self.keys@[i],
            self@.dom().contains(k) <==> p < self.keys@.len() && self.keys@[p as int] == k,
            p < self.keys@.len() && self.keys@[p as int] == k ==> self@[k] == self.vals@[p as int],
    {
        let mut lo: usize = 0;
        let mut hi: usize = self.keys.len();
        while lo < hi
            invariant
                lo <= hi <= self.keys@.len(),
                self.wf(),
                forall|i: int| 0 <= i < lo ==> self.keys@[i] < k,
                forall|i: int| hi <= i < self.keys@.len() ==> k <= self.keys@[i],
            decreases hi - lo,
        {
            let mid: usize = lo + (hi - lo) / 2;
            if self.keys[mid] < k {
                lo = mid + 1;
            } else {
                hi = mid;
            }
        }
        proof {
            if self@.dom().contains(k) {
                let j = self.keys@.index_of(k);
                assert(self.keys@[j] == k);
            }
            if lo < self.keys@.len() && self.keys@[lo as int] == k {
                self.lemma_at(lo as int);
            }
        }
        lo
    }

    pub fn get(&self, k: u64) -> (r: Option<&V>)
        requires
            self.wf(),
        ensures
            r is Some <==> self@.dom().contains(k),
            r matches Some(v) ==> *v == self@[k],
    {
        let p: usize = self.rank(k);
        if p < self.keys.len() && self.keys[p] == k {
            Some(&self.vals[p])
        } else {
            None
        }
    }

    pub fn contains_key(&self, k: u64) -> (b: bool)
        requires
            self.wf(),
        ensures
            b == self@.dom().contains(k),
    {
        let p: usize = self.rank(k);
        p < self.keys.len() && self.keys[p] == k
    }

    /// Insert or overwrite.
    pub fn insert(&mut self, k: u64, v: V)
        requires
            old(self).wf(),
        ensures
            final(self).wf(),
            final(self)@ == old(self)@.insert(k, v),
            old(self)@.dom().contains(k) ==> final(self).ks() == old(self).ks(),
    {
        let p: usize = self.rank(k);
        let ghost o = *self;
        if p < self.keys.len() && self.keys[p] == k {
            self.vals.set(p, v);
            proof {
                assert forall|x: u64| #[trigger] self@.dom().contains(x) implies self@[x]
                    == o@.insert(k, v)[x] by {
                    let j = self.keys@.index_of(x);
                    assert(self.keys@[j] == x);
                    self.lemma_at(j);
                    o.lemma_at(j);
                }
                assert(self@ =~= o@.insert(k, v));
            }
        } else {
            self.keys.insert(p, k);
            self.vals.insert(p, v);
            proof {
                assert(self.keys@ == o.keys@.insert(p as int, k));
                assert(ascending(self.keys@)) by {
                    assert forall|i: int, j: int| 0 <= i < j < self.keys@.len() implies self.keys@[i]
                        < self.keys@[j] by {
                        let a = if i < p { i } else { i - 1 };
                        let b = if j < p { j } else { j - 1 };
                        if i != p && j != p {
                            assert(self.keys@[i] == o.keys@[a]);
                            assert(self.keys@[j] == o.keys@[b]);
                        }
                    }
                }
                assert forall|x: u64| self.keys@.contains(x) <==> (x == k || o.keys@.contains(x)) by {
                    if o.keys@.contains(x) {
                        let j = o.keys@.index_of(x);
                        assert(o.keys@[j] == x);
                        let j2 = if j < p { j } else { j + 1 };
                        assert(self.keys@[j2] == x);
                    }
                    assert(self.keys@[p as int] == k);
                    if self.keys@.contains(x) && x != k {
                        let j = self.keys@.index_of(x);
                        assert(self.keys@[j] == x);
                        let j2 = if j < p { j } else { j - 1 };
                        assert(o.keys@[j2] == x);
                    }
                }
                assert forall|x: u64| #[trigger] self@.dom().contains(x) implies self@[x]
                    == o@.insert(k, v)[x] by {
                    let j = self.keys@.index_of(x);
                    assert(self.keys@[j] == x);
                    self.lemma_at(j);
                    if j != p {
                        let j2 = if j < p { j } else { j - 1 };
                        o.lemma_at(j2);
                        assert(o.keys@[j2] == x);
                        assert(self.vals@[j] == o.vals@[j2]);
                    }
                }
                assert(self@ =~= o@.insert(k, v));
            }
        }
    }

    /// Remove a key, handing out its value.
    pub fn remove(&mut self, k: u64) -> (r: Option<V>)
        requires
            old(self).wf(),
        ensures
            final(self).wf(),
            final(self)@ == old(self)@.remove(k),
            r is Some <==> old(self)@.dom().contains(k),
            r matches Some(v) ==> v == old(self)@[k],
    {
        let p: usize = self.rank(k);
        let ghost o = *self;
        if p < self.keys.len() && self.keys[p] == k {
            self.keys.remove(p);
            let v = self.vals.remove(p);
            proof {
                assert forall|i: int, j: int| 0 <= i < j < self.keys@.len() implies self.keys@[i]
                    < self.keys@[j] by {
                    let a = if i < p { i } else { i + 1 };
                    let b = if j < p { j } else { j + 1 };
                    assert(self.keys@[i] == o.keys@[a]);
                    assert(self.keys@[j] == o.keys@[b]);
                }
                assert forall|x: u64| self.keys@.contains(x) <==> (x != k && o.keys@.contains(x)) by {
                    if o.keys@.contains(x) && x != k {
                        let j = o.keys@.index_of(x);
                        assert(o.keys@[j] == x);
                        let j2 = if j < p { j } else { j - 1 };
                        assert(self.keys@[j2] == x);
                    }
                    if self.keys@.contains(x) {
                        let j = self.keys@.index_of(x);
                        assert(self.keys@[j] == x);
                        let j2 = if j < p { j } else { j + 1 };
                        assert(o.keys@[j2] == x);
                    }
                }
                assert forall|x: u64| #[trigger] self@.dom().contains(x) implies self@[x]
                    == o@.remove(k)[x] by {
                    let j = self.keys@.index_of(x);
                    assert(self.keys@[j] == x);
                    self.lemma_at(j);
                    let j2 = if j < p { j } else { j + 1 };
                    o.lemma_at(j2);
                    assert(self.vals@[j] == o.vals@[j2]);
                }
                assert(self@ =~= o@.remove(k));
            }
            Some(v)
        } else {
            assert(self@ =~= o@.remove(k));
            None
        }
    }

    /// A mutable view of the value under `k`.
    pub fn get_mut(&mut self, k: u64) -> (r: Option<&mut V>)
        requires
            old(self).wf(),
        ensures
            final(self).wf(),
            final(self).ks() == old(self).ks(),
            r is Some <==> old(self)@.dom().contains(k),
            r is None ==> *final(self) == *old(self),
            r matches Some(v) ==> *v == old(self)@[k] && final(self)@ == old(self)@.insert(
                k,
                *final(v),
            ),
    {
        let p: usize = self.rank(k);
        if p < self.keys.len() && self.keys[p] == k {
            Some(&mut self.vals[p])
        } else {
            None
        }
    }
}

} // verus!
