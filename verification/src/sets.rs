//! A sorted immutable map from type identities to small payloads, looked up
//! by binary search.

use vstd::prelude::*;

verus! {

/// Keys are sorted weakly ascending.
pub open spec fn sorted_pairs<V>(s: Seq<(u64, V)>) -> bool {
    forall|k1: int, k2: int| 0 <= k1 < k2 < s.len() ==> (s[k1].0) <= (s[k2].0)
}

/// Keys are sorted strictly ascending, so every key occurs once.
pub open spec fn strictly_sorted_pairs<V>(s: Seq<(u64, V)>) -> bool {
    forall|k1: int, k2: int| 0 <= k1 < k2 < s.len() ==> (s[k1].0) < (s[k2].0)
}

/// A dense sorted array of `(type_id, payload)` pairs. Built once, never
/// mutated; lookups are by binary search over the keys.
pub struct TypeIdSet<V>(pub Vec<(u64, V)>);

impl<V> TypeIdSet<V> {
    /// The set supports exact lookups when its keys are strictly sorted.
    pub open spec fn wf(&self) -> bool {
        strictly_sorted_pairs(self.0@)
    }

    pub open spec fn has_key(&self, id: u64) -> bool {
        exists|k: int| 0 <= k < self.0@.len() && (#[trigger] self.0@[k]).0 == id
    }

    pub open spec fn key_index(&self, id: u64) -> int {
        choose|k: int| 0 <= k < self.0@.len() && (#[trigger] self.0@[k]).0 == id
    }

    /// Sorts the given contents by key. The result holds exactly the given
    /// pairs, in ascending key order.
    pub fn new(contents: Vec<(u64, V)>) -> (r: TypeIdSet<V>)
        ensures
            sorted_pairs(r.0@),
            r.0@.to_multiset() == contents@.to_multiset(),
    {
        broadcast use vstd::seq_lib::group_to_multiset_ensures;

        let mut v = contents;
        let ghost orig = v@;
        if v.len() < 2 {
            return TypeIdSet(v);
        }
        let mut i: usize = 1;
        while i < v.len()
            invariant
                1 <= i <= v@.len(),
                v@.len() == orig.len(),
                v@.to_multiset() == orig.to_multiset(),
                sorted_pairs(v@.take(i as int)),
            decreases v@.len() - i,
        {
            let ghost prev = v@;
            let x = v.remove(i);
            let ghost removed = v@;
            let mut j: usize = i;
            while j > 0 && v[j - 1].0 > x.0
                invariant
                    j <= i,
                    i < removed.len() + 1,
                    v@ == removed,
                    forall|m: int| j <= m < i ==> (v@[m].0) > x.0,
                decreases j,
            {
                j -= 1;
            }
            v.insert(j, x);
            proof {
                assert(v@ == removed.insert(j as int, x));
                assert(v@.to_multiset() == orig.to_multiset()) by {
                    broadcast use vstd::multiset::group_multiset_axioms;

                    vstd::seq_lib::to_multiset_remove(prev, i as int);
                    vstd::seq_lib::to_multiset_insert(removed, j as int, x);
                    vstd::seq_lib::to_multiset_contains(prev, x);
                    assert(prev.contains(x));
                    assert(prev.to_multiset().remove(x).insert(x) =~= prev.to_multiset());
                }
                assert forall|k1: int, k2: int|
                    0 <= k1 < k2 < i + 1 implies (#[trigger] v@.take(i + 1)[k1].0) <= (#[trigger] v@.take(
                    i + 1,
                )[k2].0) by {
                    let s = removed;
                    if k2 < j {
                    } else if k2 == j {
                        assert(v@[k1] == s[k1]);
                        assert((s[k1].0) <= x.0) by {
                            if j > 0 && k1 < j {
                                assert((s[k1].0) <= (s[j - 1].0) || k1 == j - 1);
                            }
                        }
                    } else {
                        assert(v@[k2] == s[k2 - 1]);
                        if k1 < j {
                            assert(v@[k1] == s[k1]);
                        } else if k1 == j {
                            if j <= k2 - 1 < i {
                                assert((s[k2 - 1].0) > x.0);
                            }
                        } else {
                            assert(v@[k1] == s[k1 - 1]);
                        }
                    }
                }
            }
            i += 1;
        }
        proof {
            assert(v@.take(v@.len() as int) =~= v@);
        }
        TypeIdSet(v)
    }

    /// Binary search for a key. Returns the index of the pair holding the
    /// key, or `None` when no pair does.
    pub fn search(&self, id: u64) -> (r: Option<usize>)
        requires
            self.wf(),
        ensures
            match r {
                Some(k) => k < self.0@.len() && (self.0@[k as int].0) == id,
                None => !self.has_key(id),
            },
    {
        let mut lo: usize = 0;
        let mut hi: usize = self.0.len();
        while lo < hi
            invariant
                lo <= hi <= self.0@.len(),
                self.wf(),
                forall|k: int| 0 <= k < lo ==> (#[trigger] self.0@[k]).0 < id,
                forall|k: int| hi <= k < self.0@.len() ==> (#[trigger] self.0@[k]).0 > id,
            decreases hi - lo,
        {
            let mid = lo + (hi - lo) / 2;
            let key = self.0[mid].0;
            if key == id {
                return Some(mid);
            } else if key < id {
                lo = mid + 1;
            } else {
                hi = mid;
            }
        }
        None
    }

    /// Looks a key up, returning a reference to its payload.
    pub fn get(&self, id: u64) -> (r: Option<&V>)
        requires
            self.wf(),
        ensures
            match r {
                Some(v) => self.has_key(id) && *v == self.0@[self.key_index(id)].1,
                None => !self.has_key(id),
            },
    {
        match self.search(id) {
            Some(k) => {
                proof {
                    let w = self.key_index(id);
                    assert(0 <= w < self.0@.len() && (self.0@[w].0) == id);
                    assert(w == k as int) by {
                        if w < k as int {
                            assert((self.0@[w].0) < (self.0@[k as int].0));
                        }
                        if w > k as int {
                            assert((self.0@[k as int].0) < (self.0@[w].0));
                        }
                    }
                }
                Some(&self.0[k].1)
            },
            None => None,
        }
    }
}

} // verus!
