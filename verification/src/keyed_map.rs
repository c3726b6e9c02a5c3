//! An ordered association map from `usize` keys to values.
//!
//! The mapper keys branches, calls, blocks, couplings, variables and
//! operations by byte position or variable id. The entries are kept in a
//! vector sorted by strictly increasing key, so lookups are unambiguous and
//! iteration order is the key order, which the collapser relies on.

use vstd::prelude::*;

verus! {

pub struct KeyedMap<V> {
    entries: Vec<(usize, V)>,
}

impl<V> KeyedMap<V> {
    /// The entries as a sequence of key/value pairs, in storage order.
    pub closed spec fn entries_seq(self) -> Seq<(usize, V)> {
        self.entries@
    }

    /// The keys in storage order.
    pub open spec fn spec_keys(self) -> Seq<usize> {
        self.entries_seq().map_values(|p: (usize, V)| p.0)
    }

    /// Keys strictly increase along the entry vector.
    pub open spec fn wf(self) -> bool {
        forall|i: int, j: int|
            0 <= i < j < self.entries_seq().len()
                ==> (#[trigger] self.entries_seq()[i]).0 < (#[trigger] self.entries_seq()[j]).0
    }

    /// Some index of an entry carrying key `k`, if one exists.
    pub open spec fn index_of_key(self, k: usize) -> int {
        seq_index_of(self.entries_seq(), k)
    }

    pub open spec fn has_key(self, k: usize) -> bool {
        seq_has(self.entries_seq(), k)
    }
}

/// Whether some pair of `s` carries the key `k`.
pub open spec fn seq_has<V>(s: Seq<(usize, V)>, k: usize) -> bool {
    exists|i: int| 0 <= i < s.len() && (#[trigger] s[i]).0 == k
}

/// Some index of a pair of `s` carrying the key `k`, if one exists.
pub closed spec fn seq_index_of<V>(s: Seq<(usize, V)>, k: usize) -> int {
    choose|i: int| 0 <= i < s.len() && (#[trigger] s[i]).0 == k
}

impl<V> View for KeyedMap<V> {
    type V = Map<usize, V>;

    closed spec fn view(&self) -> Map<usize, V> {
        Map::new(
            |k: usize| self.has_key(k),
            |k: usize| self.entries_seq()[self.index_of_key(k)].1,
        )
    }
}

impl<V> KeyedMap<V> {
    /// Each entry is reflected in the map view, and under `wf` the entry at
    /// any index is the one the view returns for its key.
    pub proof fn lemma_entry_view(self, i: int)
        requires
            self.wf(),
            0 <= i < self.entries_seq().len(),
        ensures
            self@.contains_key(self.entries_seq()[i].0),
            self@[self.entries_seq()[i].0] == self.entries_seq()[i].1,
            self.spec_keys()[i] == self.entries_seq()[i].0,
    {
        let k = self.entries_seq()[i].0;
        assert(self.has_key(k));
        let j = self.index_of_key(k);
        assert(j == i) by {
            if j < i {
                assert(self.entries_seq()[j].0 < self.entries_seq()[i].0);
            } else if j > i {
                assert(self.entries_seq()[i].0 < self.entries_seq()[j].0);
            }
        }
    }

    /// The view's domain is exactly the key set of the entries.
    pub proof fn lemma_dom(self, k: usize)
        ensures
            self@.contains_key(k) <==> self.has_key(k),
    {
    }

    /// A map without entries has the empty view.
    pub proof fn lemma_empty(self)
        requires
            self.entries_seq().len() == 0,
        ensures
            self@ == Map::<usize, V>::empty(),
    {
        assert(self@ =~= Map::<usize, V>::empty());
    }

    /// A value held at some key is a value of some entry.
    pub proof fn lemma_value_witness(self, k: usize, v: V)
        requires
            self.wf(),
            self@.contains_key(k),
            self@[k] == v,
        ensures
            exists|e: int|
                0 <= e < self.entries_seq().len() && (#[trigger] self.entries_seq()[e]).1 == v,
    {
        self.lemma_dom(k);
        let e = choose|e: int|
            0 <= e < self.entries_seq().len() && (#[trigger] self.entries_seq()[e]).0 == k;
        self.lemma_entry_view(e);
        assert(self.entries_seq()[e].1 == v);
    }

    /// Two maps with the same entries have the same view.
    pub proof fn lemma_view_from_entries(self, other: Self)
        requires
            self.entries_seq() == other.entries_seq(),
        ensures
            self@ == other@,
            self.wf() == other.wf(),
    {
        assert(self@ =~= other@);
        if self.wf() {
            assert forall|i: int, j: int| 0 <= i < j < other.entries_seq().len() implies (
            #[trigger] other.entries_seq()[i]).0 < (#[trigger] other.entries_seq()[j]).0 by {
                assert(self.entries_seq()[i] == other.entries_seq()[i]);
                assert(self.entries_seq()[j] == other.entries_seq()[j]);
            }
        }
        if other.wf() {
            assert forall|i: int, j: int| 0 <= i < j < self.entries_seq().len() implies (
            #[trigger] self.entries_seq()[i]).0 < (#[trigger] self.entries_seq()[j]).0 by {
                assert(self.entries_seq()[i] == other.entries_seq()[i]);
                assert(self.entries_seq()[j] == other.entries_seq()[j]);
            }
        }
    }
}

impl<V: Copy> KeyedMap<V> {
    pub fn new() -> (r: Self)
        ensures
            r.wf(),
            r@ == Map::<usize, V>::empty(),
            r.entries_seq() == Seq::<(usize, V)>::empty(),
    {
        let r = KeyedMap { entries: Vec::new() };
        proof {
            assert(r@ =~= Map::<usize, V>::empty());
        }
        r
    }

    pub fn len(&self) -> (r: usize)
        ensures
            r == self.entries_seq().len(),
            r == self.spec_keys().len(),
    {
        self.entries.len()
    }

    /// The key of the `i`-th entry in key order.
    pub fn key_at(&self, i: usize) -> (r: usize)
        requires
            i < self.entries_seq().len(),
        ensures
            r == self.entries_seq()[i as int].0,
            r == self.spec_keys()[i as int],
            self.wf() ==> self@.contains_key(r),
    {
        proof {
            if self.wf() {
                self.lemma_entry_view(i as int);
            }
        }
        self.entries[i].0
    }

    /// The value of the `i`-th entry in key order.
    pub fn val_at(&self, i: usize) -> (r: V)
        requires
            self.wf(),
            i < self.entries_seq().len(),
        ensures
            r == self.entries_seq()[i as int].1,
            r == self@[self.spec_keys()[i as int]],
    {
        proof {
            self.lemma_entry_view(i as int);
        }
        self.entries[i].1
    }

    pub fn contains_key(&self, k: usize) -> (r: bool)
        requires
            self.wf(),
        ensures
            r == self@.contains_key(k),
    {
        let n = self.entries.len();
        let mut i: usize = 0;
        while i < n
            invariant
                n == self.entries_seq().len(),
                0 <= i <= n,
                forall|j: int| 0 <= j < i ==> (#[trigger] self.entries_seq()[j]).0 != k,
            decreases n - i,
        {
            if self.entries[i].0 == k {
                proof {
                    assert(self.has_key(k));
                }
                return true;
            }
            i = i + 1;
        }
        proof {
            assert(!self.has_key(k));
        }
        false
    }

    pub fn get(&self, k: usize) -> (r: Option<V>)
        requires
            self.wf(),
        ensures
            match r {
                Some(v) => self@.contains_key(k) && self@[k] == v,
                None => !self@.contains_key(k),
            },
    {
        let n = self.entries.len();
        let mut i: usize = 0;
        while i < n
            invariant
                self.wf(),
                n == self.entries_seq().len(),
                0 <= i <= n,
                forall|j: int| 0 <= j < i ==> (#[trigger] self.entries_seq()[j]).0 != k,
            decreases n - i,
        {
            if self.entries[i].0 == k {
                proof {
                    self.lemma_entry_view(i as int);
                }
                return Some(self.entries[i].1);
            }
            i = i + 1;
        }
        proof {
            assert(!self.has_key(k));
        }
        None
    }

    /// Inserts `k -> v`, replacing any entry with the same key.
    pub fn insert(&mut self, k: usize, v: V)
        requires
            old(self).wf(),
        ensures
            final(self).wf(),
            final(self)@ == old(self)@.insert(k, v),
            old(self)@.contains_key(k) ==> final(self).entries_seq().len() == old(
                self,
            ).entries_seq().len(),
            !old(self)@.contains_key(k) ==> final(self).entries_seq().len() == old(
                self,
            ).entries_seq().len() + 1,
    {
        let n = self.entries.len();
        let mut i: usize = 0;
        while i < n && self.entries[i].0 < k
            invariant
                self.wf(),
                self == old(self),
                n == self.entries_seq().len(),
                0 <= i <= n,
                forall|j: int| 0 <= j < i ==> (#[trigger] self.entries_seq()[j]).0 < k,
            decreases n - i,
        {
            i = i + 1;
        }
        if i < n && self.entries[i].0 == k {
            // replace in place
            proof {
                self.lemma_entry_view(i as int);
            }
            self.entries[i] = (k, v);
            proof {
                assert forall|k2: usize| self@.contains_key(k2) implies old(self)@.insert(
                    k,
                    v,
                ).contains_key(k2) by {
                    let j = choose|j: int|
                        0 <= j < self.entries_seq().len() && (#[trigger] self.entries_seq()[j]).0
                            == k2;
                    if j != i {
                        assert(old(self).entries_seq()[j].0 == k2);
                    }
                }
                assert forall|k2: usize| old(self)@.insert(k, v).contains_key(k2) implies self@.contains_key(
                    k2,
                ) by {
                    if k2 != k {
                        let j = choose|j: int|
                            0 <= j < old(self).entries_seq().len() && (#[trigger] old(
                                self,
                            ).entries_seq()[j]).0 == k2;
                        assert(self.entries_seq()[j].0 == k2);
                    } else {
                        assert(self.entries_seq()[i as int].0 == k);
                    }
                }
                assert forall|k2: usize| #[trigger]
                    self@.contains_key(k2) && old(self)@.insert(k, v).contains_key(k2) implies self@[k2]
                    == old(self)@.insert(k, v)[k2] by {
                    self.lemma_entry_view(self.index_of_key(k2));
                    if k2 != k {
                        old(self).lemma_entry_view(old(self).index_of_key(k2));
                        let j = old(self).index_of_key(k2);
                        assert(self.entries_seq()[j].0 == k2);
                        self.lemma_entry_view(j);
                    } else {
                        self.lemma_entry_view(i as int);
                    }
                }
                assert(self@ =~= old(self)@.insert(k, v));
                assert(old(self).has_key(k));
            }
            return ;
        }
        // no entry with key k; keys before position i are < k, keys at or
        // after are > k
        proof {
            assert forall|j: int| i <= j < self.entries_seq().len() implies (
            #[trigger] self.entries_seq()[j]).0 > k by {
                assert(self.entries_seq()[i as int].0 >= k);
                assert(self.entries_seq()[i as int].0 != k);
                if j > i {
                    assert(self.entries_seq()[i as int].0 < self.entries_seq()[j].0);
                }
            }
            assert(!old(self).has_key(k));
        }
        self.entries.insert(i, (k, v));
        proof {
            let os = old(self).entries_seq();
            let ns = self.entries_seq();
            assert forall|a: int, b: int| 0 <= a < b < ns.len() implies (#[trigger] ns[a]).0 < (
            #[trigger] ns[b]).0 by {
                if a < i && b > i {
                    assert(os[a] == ns[a]);
                    assert(os[b - 1] == ns[b]);
                    assert(os[a].0 < k || a == i);
                    assert(os[b - 1].0 > k);
                    if os[a].0 != k && a < b - 1 {
                        assert(os[a].0 < os[b - 1].0);
                    }
                } else if a < i && b == i {
                    assert(os[a] == ns[a]);
                    assert(os[a].0 < k);
                } else if a == i && b > i {
                    assert(os[b - 1] == ns[b]);
                    assert(os[b - 1].0 > k);
                } else if b < i {
                    assert(os[a] == ns[a] && os[b] == ns[b]);
                } else {
                    assert(a > i && b > i);
                    assert(os[a - 1] == ns[a] && os[b - 1] == ns[b]);
                }
            }
            assert forall|k2: usize| self@.contains_key(k2) implies old(self)@.insert(
                k,
                v,
            ).contains_key(k2) by {
                let j = choose|j: int|
                    0 <= j < ns.len() && (#[trigger] ns[j]).0 == k2;
                if j < i {
                    assert(os[j].0 == k2);
                } else if j > i {
                    assert(os[j - 1].0 == k2);
                }
            }
            assert forall|k2: usize| old(self)@.insert(k, v).contains_key(k2) implies self@.contains_key(
                k2,
            ) by {
                if k2 == k {
                    assert(ns[i as int].0 == k);
                } else {
                    let j = choose|j: int|
                        0 <= j < os.len() && (#[trigger] os[j]).0 == k2;
                    if j < i {
                        assert(ns[j].0 == k2);
                    } else {
                        assert(ns[j + 1].0 == k2);
                    }
                }
            }
            assert forall|k2: usize| #[trigger]
                self@.contains_key(k2) && old(self)@.insert(k, v).contains_key(k2) implies self@[k2]
                == old(self)@.insert(k, v)[k2] by {
                let j = self.index_of_key(k2);
                self.lemma_entry_view(j);
                if k2 != k {
                    if j < i {
                        assert(os[j].0 == k2);
                        old(self).lemma_entry_view(j);
                    } else {
                        assert(j != i);
                        assert(os[j - 1].0 == k2);
                        old(self).lemma_entry_view(j - 1);
                    }
                }
            }
            assert(self@ =~= old(self)@.insert(k, v));
        }
    }

    /// Removes the entry with key `k`, if present.
    pub fn remove(&mut self, k: usize)
        requires
            old(self).wf(),
        ensures
            final(self).wf(),
            final(self)@ == old(self)@.remove(k),
            old(self)@.contains_key(k) ==> final(self).entries_seq().len() == old(
                self,
            ).entries_seq().len() - 1,
            !old(self)@.contains_key(k) ==> *final(self) == *old(self),
    {
        let n = self.entries.len();
        let mut i: usize = 0;
        while i < n
            invariant
                self.wf(),
                self == old(self),
                n == self.entries_seq().len(),
                0 <= i <= n,
                forall|j: int| 0 <= j < i ==> (#[trigger] self.entries_seq()[j]).0 != k,
            decreases n - i,
        {
            if self.entries[i].0 == k {
                proof {
                    self.lemma_entry_view(i as int);
                }
                self.entries.remove(i);
                proof {
                    let os = old(self).entries_seq();
                    let ns = self.entries_seq();
                    assert forall|a: int, b: int| 0 <= a < b < ns.len() implies (
                    #[trigger] ns[a]).0 < (#[trigger] ns[b]).0 by {
                        if b < i {
                            assert(os[a] == ns[a] && os[b] == ns[b]);
                        } else if a < i {
                            assert(os[a] == ns[a] && os[b + 1] == ns[b]);
                        } else {
                            assert(os[a + 1] == ns[a] && os[b + 1] == ns[b]);
                        }
                    }
                    assert forall|k2: usize| self@.contains_key(k2) implies old(self)@.remove(
                        k,
                    ).contains_key(k2) by {
                        let j = choose|j: int|
                            0 <= j < ns.len() && (#[trigger] ns[j]).0 == k2;
                        if j < i {
                            assert(os[j].0 == k2);
                            if k2 == k {
                                assert(os[j].0 < os[i as int].0);
                            }
                        } else {
                            assert(os[j + 1].0 == k2);
                            if k2 == k {
                                assert(os[i as int].0 < os[j + 1].0);
                            }
                        }
                    }
                    assert forall|k2: usize| old(self)@.remove(k).contains_key(k2) implies self@.contains_key(
                        k2,
                    ) by {
                        let j = choose|j: int|
                            0 <= j < os.len() && (#[trigger] os[j]).0 == k2;
                        if j < i {
                            assert(ns[j].0 == k2);
                        } else {
                            assert(j != i);
                            assert(ns[j - 1].0 == k2);
                        }
                    }
                    assert forall|k2: usize| #[trigger]
                        self@.contains_key(k2) && old(self)@.remove(k).contains_key(k2) implies self@[k2]
                        == old(self)@.remove(k)[k2] by {
                        let j = self.index_of_key(k2);
                        self.lemma_entry_view(j);
                        if j < i {
                            assert(os[j].0 == k2);
                            old(self).lemma_entry_view(j);
                        } else {
                            assert(os[j + 1].0 == k2);
                            old(self).lemma_entry_view(j + 1);
                        }
                    }
                    assert(self@ =~= old(self)@.remove(k));
                }
                return ;
            }
            i = i + 1;
        }
        proof {
            assert(!old(self).has_key(k));
            assert(self@ =~= old(self)@.remove(k));
        }
    }

    /// The least key, if the map is not empty.
    pub fn min_key(&self) -> (r: Option<usize>)
        requires
            self.wf(),
        ensures
            match r {
                Some(k) => {
                    &&& self@.contains_key(k)
                    &&& forall|j: usize| self@.contains_key(j) ==> k <= j
                    &&& k == self.spec_keys()[0]
                },
                None => self.entries_seq().len() == 0,
            },
    {
        if self.entries.len() == 0 {
            None
        } else {
            proof {
                self.lemma_entry_view(0);
                assert forall|j: usize| self@.contains_key(j) implies self.entries_seq()[0].0 <= j by {
                    let i = self.index_of_key(j);
                    self.lemma_entry_view(i);
                    if i > 0 {
                        assert(self.entries_seq()[0].0 < self.entries_seq()[i].0);
                    }
                }
            }
            Some(self.entries[0].0)
        }
    }

    /// The greatest key, if the map is not empty.
    pub fn max_key(&self) -> (r: Option<usize>)
        requires
            self.wf(),
        ensures
            match r {
                Some(k) => {
                    &&& self@.contains_key(k)
                    &&& forall|j: usize| self@.contains_key(j) ==> j <= k
                    &&& k == self.spec_keys()[self.spec_keys().len() - 1]
                },
                None => self.entries_seq().len() == 0,
            },
    {
        let n = self.entries.len();
        if n == 0 {
            None
        } else {
            proof {
                self.lemma_entry_view(n - 1);
                assert forall|j: usize| self@.contains_key(j) implies j <= self.entries_seq()[n
                    - 1].0 by {
                    let i = self.index_of_key(j);
                    self.lemma_entry_view(i);
                    if i < n - 1 {
                        assert(self.entries_seq()[i].0 < self.entries_seq()[n - 1].0);
                    }
                }
            }
            Some(self.entries[n - 1].0)
        }
    }

    /// An entry-for-entry copy.
    pub fn duplicate(&self) -> (r: Self)
        ensures
            r.entries_seq() == self.entries_seq(),
            r@ == self@,
            r.wf() == self.wf(),
    {
        let n = self.entries.len();
        let mut out: Vec<(usize, V)> = Vec::new();
        let mut i: usize = 0;
        while i < n
            invariant
                n == self.entries_seq().len(),
                0 <= i <= n,
                out@ == self.entries_seq().subrange(0, i as int),
            decreases n - i,
        {
            out.push(self.entries[i]);
            proof {
                assert(out@ =~= self.entries_seq().subrange(0, i + 1));
            }
            i = i + 1;
        }
        let r = KeyedMap { entries: out };
        proof {
            assert(r.entries_seq() =~= self.entries_seq());
            assert(r@ =~= self@);
        }
        r
    }
}

} // verus!
