//! Component metadata and byte-level bundles.
//!
//! A component type is described by a stable numeric type identity and the
//! byte size of one value. Rows of a slab interleave the columns in the
//! order of the sorted signature, so a column's byte offset inside a row is
//! the sum of the sizes of the columns before it.

use vstd::prelude::*;

verus! {

/// The information about a component: its stable type identity and the
/// number of bytes one value of it occupies inside a row. Values are moved
/// and destroyed bytewise, so no further layout detail is tracked here.
#[derive(Clone, Copy, Debug, PartialEq, Eq, Structural)]
pub struct ComponentInfo {
    /// Stable, process-wide unique token for the component type.
    pub id: u64,
    /// Size in bytes of one component value.
    pub size: usize,
}

impl ComponentInfo {
    pub fn new(id: u64, size: usize) -> (r: ComponentInfo)
        ensures
            r.id == id,
            r.size == size,
    {
        ComponentInfo { id, size }
    }
}

/// Deterministic total order used to sort a signature: by type identity,
/// ties broken by size so that the order is antisymmetric on values.
pub open spec fn ci_leq(a: ComponentInfo, b: ComponentInfo) -> bool {
    a.id < b.id || (a.id == b.id && a.size <= b.size)
}

/// All component type ids in the sequence are distinct.
pub open spec fn distinct_ids(cs: Seq<ComponentInfo>) -> bool {
    forall|k1: int, k2: int|
        0 <= k1 < k2 < cs.len() ==> cs[k1].id != cs[k2].id
}

/// Strictly sorted by type id; implies `distinct_ids`.
pub open spec fn strictly_sorted(cs: Seq<ComponentInfo>) -> bool {
    forall|k1: int, k2: int|
        0 <= k1 < k2 < cs.len() ==> cs[k1].id < cs[k2].id
}

/// The row stride of a signature: the sum of all component sizes.
pub open spec fn total_size(cs: Seq<ComponentInfo>) -> nat
    decreases cs.len(),
{
    if cs.len() == 0 {
        0
    } else {
        (total_size(cs.drop_last()) + cs.last().size) as nat
    }
}

/// Byte offset of column `c` within a row: the sizes of the columns before it.
pub open spec fn col_off(cs: Seq<ComponentInfo>, c: int) -> nat {
    total_size(cs.take(c))
}

pub proof fn lemma_total_size_take_succ(cs: Seq<ComponentInfo>, c: int)
    requires
        0 <= c < cs.len(),
    ensures
        total_size(cs.take(c + 1)) == total_size(cs.take(c)) + cs[c].size,
{
    assert(cs.take(c + 1).drop_last() =~= cs.take(c));
    assert(cs.take(c + 1).last() == cs[c]);
}

pub proof fn lemma_total_size_monotonic(cs: Seq<ComponentInfo>, k1: int, k2: int)
    requires
        0 <= k1 <= k2 <= cs.len(),
    ensures
        total_size(cs.take(k1)) <= total_size(cs.take(k2)),
    decreases k2 - k1,
{
    if k1 < k2 {
        lemma_total_size_take_succ(cs, k1);
        lemma_total_size_monotonic(cs, k1 + 1, k2);
    }
}

/// A column's bytes end at or before the end of the row.
pub proof fn lemma_col_off_bound(cs: Seq<ComponentInfo>, c: int)
    requires
        0 <= c < cs.len(),
    ensures
        col_off(cs, c) + cs[c].size <= total_size(cs),
{
    lemma_total_size_take_succ(cs, c);
    lemma_total_size_monotonic(cs, c + 1, cs.len() as int);
    assert(cs.take(cs.len() as int) =~= cs);
}

/// Distinct columns occupy disjoint byte ranges of a row.
pub proof fn lemma_cols_disjoint(cs: Seq<ComponentInfo>, c1: int, c2: int)
    requires
        0 <= c1 < c2 < cs.len(),
    ensures
        col_off(cs, c1) + cs[c1].size <= col_off(cs, c2),
{
    lemma_total_size_take_succ(cs, c1);
    lemma_total_size_monotonic(cs, c1 + 1, c2);
}

/// One component of a bundle: its metadata and the bytes of one value,
/// already moved out of the caller's representation.
pub struct BundlePart {
    pub info: ComponentInfo,
    pub bytes: Vec<u8>,
}

/// A caller-facing aggregate of component values, emplaced row-wise into a
/// slab. It stands in for the raw move-emplace callback of the unsafe
/// engine: every component is handed over as plain bytes.
pub struct Bundle {
    /// Stable key of the archetype this bundle belongs to.
    pub archetype_id: u32,
    /// One entry per component the bundle carries.
    pub parts: Vec<BundlePart>,
}

impl Bundle {
    /// Every part's byte length matches its declared size and no component
    /// type occurs twice.
    pub open spec fn wf(&self) -> bool {
        &&& forall|j: int|
            0 <= j < self.parts@.len() ==> (#[trigger] self.parts@[j]).bytes@.len()
                == self.parts@[j].info.size
        &&& forall|j1: int, j2: int|
            0 <= j1 < j2 < self.parts@.len() ==> self.parts@[j1].info.id
                != self.parts@[j2].info.id
    }

    /// Whether the bundle carries a component with the given type id.
    pub open spec fn has_part(&self, id: u64) -> bool {
        exists|j: int| 0 <= j < self.parts@.len() && (#[trigger] self.parts@[j]).info.id == id
    }

    /// Index of the part carrying the given type id.
    pub open spec fn part_index(&self, id: u64) -> int {
        choose|j: int| 0 <= j < self.parts@.len() && (#[trigger] self.parts@[j]).info.id == id
    }
}

pub proof fn lemma_total_size_remove(cs: Seq<ComponentInfo>, k: int)
    requires
        0 <= k < cs.len(),
    ensures
        total_size(cs) == total_size(cs.remove(k)) + cs[k].size,
    decreases cs.len(),
{
    if k == cs.len() - 1 {
        assert(cs.remove(k) =~= cs.drop_last());
    } else {
        assert(cs.remove(k).drop_last() =~= cs.drop_last().remove(k));
        assert(cs.remove(k).last() == cs.last());
        lemma_total_size_remove(cs.drop_last(), k);
    }
}

/// The row stride of a signature does not depend on the order of its
/// components.
pub proof fn lemma_total_size_permutation(a: Seq<ComponentInfo>, b: Seq<ComponentInfo>)
    requires
        a.to_multiset() == b.to_multiset(),
    ensures
        total_size(a) == total_size(b),
    decreases b.len(),
{
    broadcast use vstd::seq_lib::group_to_multiset_ensures;
    broadcast use vstd::multiset::group_multiset_axioms;

    if b.len() == 0 {
        if a.len() != 0 {
            assert(a.to_multiset().len() == a.len());
        }
    } else {
        let x = b.last();
        assert(b.to_multiset().contains(x)) by {
            assert(b.contains(x));
        }
        assert(a.contains(x));
        let k = choose|k: int| 0 <= k < a.len() && a[k] == x;
        lemma_total_size_remove(a, k);
        assert(b.drop_last() =~= b.remove(b.len() - 1));
        assert(a.remove(k).to_multiset() == b.drop_last().to_multiset()) by {
            assert(a.remove(k).to_multiset() == a.to_multiset().remove(x));
            assert(b.remove(b.len() - 1).to_multiset() == b.to_multiset().remove(x));
        }
        lemma_total_size_permutation(a.remove(k), b.drop_last());
    }
}

/// Distinctness of component type ids survives reordering.
pub proof fn lemma_distinct_ids_permutation(a: Seq<ComponentInfo>, b: Seq<ComponentInfo>)
    requires
        distinct_ids(a),
        a.to_multiset() == b.to_multiset(),
    ensures
        distinct_ids(b),
{
    broadcast use vstd::seq_lib::group_to_multiset_ensures;
    broadcast use vstd::multiset::group_multiset_axioms;

    assert(a.no_duplicates()) by {
        assert forall|i: int, j: int| 0 <= i < j < a.len() implies a[i] != a[j] by {
            assert(a[i].id != a[j].id);
        }
    }
    a.lemma_multiset_has_no_duplicates();
    b.lemma_multiset_has_no_duplicates_conv();
    assert forall|k1: int, k2: int| 0 <= k1 < k2 < b.len() implies b[k1].id != b[k2].id by {
        if b[k1].id == b[k2].id {
            let x = b[k1];
            let y = b[k2];
            assert(x != y);
            assert(b.contains(x) && b.contains(y));
            assert(a.contains(x)) by {
                assert(b.to_multiset().count(x) > 0);
            }
            assert(a.contains(y)) by {
                assert(b.to_multiset().count(y) > 0);
            }
            let i1 = choose|i: int| 0 <= i < a.len() && a[i] == x;
            let i2 = choose|i: int| 0 <= i < a.len() && a[i] == y;
            assert(i1 != i2);
            if i1 < i2 {
                assert(a[i1].id != a[i2].id);
            } else {
                assert(a[i2].id != a[i1].id);
            }
        }
    }
}

/// Weakly sorted under the deterministic signature order.
pub open spec fn sorted_ci(cs: Seq<ComponentInfo>) -> bool {
    forall|k1: int, k2: int| 0 <= k1 < k2 < cs.len() ==> ci_leq(cs[k1], cs[k2])
}

/// Sorts a signature in place under `ci_leq`: ascending type ids, ties by
/// size.
pub fn sort_components(v: &mut Vec<ComponentInfo>)
    ensures
        sorted_ci(final(v)@),
        final(v)@.to_multiset() == old(v)@.to_multiset(),
        final(v)@.len() == old(v)@.len(),
{
    broadcast use vstd::seq_lib::group_to_multiset_ensures;

    let ghost orig = v@;
    if v.len() < 2 {
        return ;
    }
    let mut i: usize = 1;
    while i < v.len()
        invariant
            1 <= i <= v@.len(),
            v@.len() == orig.len(),
            v@.to_multiset() == orig.to_multiset(),
            sorted_ci(v@.take(i as int)),
        decreases v@.len() - i,
    {
        let ghost prev = v@;
        let x = v.remove(i);
        let ghost removed = v@;
        let mut j: usize = i;
        while j > 0 && (v[j - 1].id > x.id || (v[j - 1].id == x.id && v[j - 1].size > x.size))
            invariant
                j <= i,
                i < removed.len() + 1,
                v@ == removed,
                forall|m: int| j <= m < i ==> !ci_leq(#[trigger] v@[m], x),
            decreases j,
        {
            j -= 1;
        }
        v.insert(j, x);
        proof {
            assert(v@ == removed.insert(j as int, x));
            assert(v@.to_multiset() == orig.to_multiset()) by {
                broadcast use vstd::multiset::group_multiset_axioms;

                vstd::seq_lib::to_multiset_remove(prev, i as int);
                vstd::seq_lib::to_multiset_insert(removed, j as int, x);
                vstd::seq_lib::to_multiset_contains(prev, x);
                assert(prev.contains(x));
                assert(prev.to_multiset().remove(x).insert(x) =~= prev.to_multiset());
            }
            assert forall|k1: int, k2: int| 0 <= k1 < k2 < i + 1 implies ci_leq(
                #[trigger] v@.take(i + 1)[k1],
                #[trigger] v@.take(i + 1)[k2],
            ) by {
                let s = removed;
                if k2 < j {
                } else if k2 == j {
                    assert(v@[k1] == s[k1]);
                    assert(ci_leq(s[k1], x)) by {
                        if j > 0 && k1 < j {
                            assert(ci_leq(s[k1], s[j - 1]) || k1 == j - 1);
                        }
                    }
                } else {
                    assert(v@[k2] == s[k2 - 1]);
                    if k1 < j {
                        assert(v@[k1] == s[k1]);
                    } else if k1 == j {
                        if j <= k2 - 1 < i {
                            assert(!ci_leq(s[k2 - 1], x));
                        }
                    } else {
                        assert(v@[k1] == s[k1 - 1]);
                    }
                }
            }
        }
        i += 1;
    }
    proof {
        assert(v@.take(v@.len() as int) =~= v@);
    }
}

} // verus!
