//! The archetype slab: a columnar store for every entity of one archetype.
//!
//! A slab owns `capacity` rows of `row_stride` bytes each; the columns of a
//! row are the archetype's components in sorted type-id order. Each row
//! carries a three-state lock and one borrow byte per column: 0 is idle,
//! 1..=254 counts shared readers, 255 marks the single exclusive writer.
//! Insertion reuses recently freed slots (a LIFO free list) before bumping
//! the high-water mark `entities_len`; removal and resizing first drive the
//! row locks through `Locking` and reach `Locked` only over fully idle
//! borrow bytes.

use vstd::prelude::*;

use crate::component::{
    col_off, distinct_ids, lemma_col_off_bound, lemma_cols_disjoint,
    lemma_distinct_ids_permutation, lemma_total_size_monotonic, lemma_total_size_permutation,
    lemma_total_size_take_succ, sort_components, strictly_sorted, total_size, Bundle,
    ComponentInfo,
};
use crate::component_ref::{ComponentRef, MutComponentRef};
use crate::sets::TypeIdSet;

verus! {

/// One row descriptor: the row's bytes, its entity tag, its lock, and one
/// borrow byte per column.
pub struct EntityData {
    /// The row's entity id offset by one; zero marks a vacant row.
    pub entity_tag: u32,
    /// Row lock: 0 unlocked, 1 locking, 2 locked.
    pub locked: u8,
    /// Per-column borrow bytes: 0 idle, 1..=254 shared readers, 255 writer.
    pub anti_racey_bytes: Vec<u8>,
    /// The row's slice of the arena: `row_stride` bytes, columns interleaved.
    pub row: Vec<u8>,
}

impl EntityData {
    /// Every borrow byte of the row is idle.
    pub open spec fn all_idle(&self) -> bool {
        forall|c: int| 0 <= c < self.anti_racey_bytes@.len() ==> self.anti_racey_bytes@[c] == 0
    }

    pub fn is_locked(&self) -> (r: bool)
        ensures
            r == (self.locked == 2),
    {
        self.locked == 2
    }

    pub fn is_locking(&self) -> (r: bool)
        ensures
            r == (self.locked == 1),
    {
        self.locked == 1
    }

    pub fn is_unlocked(&self) -> (r: bool)
        ensures
            r == (self.locked == 0),
    {
        self.locked == 0
    }

    /// Signals intent to freeze the row: new borrows are refused while the
    /// row is locking, but outstanding ones may still drain.
    pub fn mark_locking(&mut self)
        ensures
            *final(self) == (EntityData { locked: 1u8, ..*old(self) }),
    {
        self.locked = 1;
    }

    /// Locks the row if every borrow byte is idle; otherwise leaves the
    /// lock state untouched and reports failure.
    pub fn try_mark_locked(&mut self) -> (r: bool)
        ensures
            r == old(self).all_idle(),
            r ==> *final(self) == (EntityData { locked: 2u8, ..*old(self) }),
            !r ==> *final(self) == *old(self),
    {
        let n = self.anti_racey_bytes.len();
        let mut c: usize = 0;
        while c < n
            invariant
                c <= n,
                n == self.anti_racey_bytes@.len(),
                forall|m: int| 0 <= m < c ==> self.anti_racey_bytes@[m] == 0,
            decreases n - c,
        {
            if self.anti_racey_bytes[c] != 0 {
                return false;
            }
            c += 1;
        }
        self.locked = 2;
        true
    }

    /// Whether every borrow byte of the row is idle, without locking.
    pub fn row_idle(&self) -> (r: bool)
        ensures
            r == self.all_idle(),
    {
        let n = self.anti_racey_bytes.len();
        let mut c: usize = 0;
        while c < n
            invariant
                c <= n,
                n == self.anti_racey_bytes@.len(),
                forall|m: int| 0 <= m < c ==> self.anti_racey_bytes@[m] == 0,
            decreases n - c,
        {
            if self.anti_racey_bytes[c] != 0 {
                return false;
            }
            c += 1;
        }
        true
    }

    pub fn mark_unlocked(&mut self)
        ensures
            *final(self) == (EntityData { locked: 0u8, ..*old(self) }),
    {
        self.locked = 0;
    }
}

/// The storage of one archetype.
pub struct ArchetypeInner {
    /// Lookup from component type id to `(byte offset in row, column index)`.
    pub component_offsets: TypeIdSet<(usize, u32)>,
    /// The signature: component infos sorted by type id.
    pub components: Vec<ComponentInfo>,
    /// One descriptor per slot, dense up to the capacity.
    pub entity_data: Vec<EntityData>,
    /// High-water mark: rows at or past it have never been populated.
    pub entities_len: u32,
    /// Byte length of one row: the sum of all component sizes.
    pub row_stride: usize,
    /// Recently freed slot indices, reused LIFO by insertion.
    pub free_list: Vec<u32>,
}

impl ArchetypeInner {
    pub open spec fn capacity(&self) -> int {
        self.entity_data@.len() as int
    }

    pub open spec fn n_cols(&self) -> int {
        self.components@.len() as int
    }

    pub open spec fn col_size(&self, c: int) -> nat {
        self.components@[c].size as nat
    }

    pub open spec fn col_offset(&self, c: int) -> nat {
        col_off(self.components@, c)
    }

    /// The bytes of column `c` of row `i`.
    pub open spec fn col_bytes(&self, i: int, c: int) -> Seq<u8> {
        self.entity_data@[i].row@.subrange(
            self.col_offset(c) as int,
            (self.col_offset(c) + self.col_size(c)) as int,
        )
    }

    pub open spec fn borrow_byte(&self, i: int, c: int) -> u8 {
        self.entity_data@[i].anti_racey_bytes@[c]
    }

    pub open spec fn lock_state(&self, i: int) -> u8 {
        self.entity_data@[i].locked
    }

    /// The row backs no live entity.
    pub open spec fn vacant(&self, i: int) -> bool {
        self.entity_data@[i].entity_tag == 0
    }

    /// The entity id held by row `i`, or `None` for a vacant row. The
    /// tag stores the id offset by one, so an entity id of zero and a
    /// vacant row cannot be confused; contracts speak of the id through
    /// this view.
    pub open spec fn row_entity(&self, i: int) -> Option<u32> {
        if self.entity_data@[i].entity_tag == 0 {
            Option::None
        } else {
            Option::Some((self.entity_data@[i].entity_tag - 1) as u32)
        }
    }

    pub open spec fn has_component(&self, tid: u64) -> bool {
        exists|k: int| 0 <= k < self.components@.len() && (#[trigger] self.components@[k]).id == tid
    }

    pub open spec fn col_index(&self, tid: u64) -> int {
        choose|k: int|
            0 <= k < self.components@.len() && (#[trigger] self.components@[k]).id == tid
    }

    /// Well-formedness of a slab: sorted signature, a column lookup that
    /// mirrors it, rows of the right shape, and a free list that holds
    /// exactly the vacant rows below the high-water mark, each once.
    pub open spec fn wf(&self) -> bool {
        &&& strictly_sorted(self.components@)
        &&& self.component_offsets.wf()
        &&& self.row_stride == total_size(self.components@)
        &&& self.component_offsets.0@.len() == self.components@.len()
        &&& forall|k: int|
            0 <= k < self.components@.len() ==> #[trigger] self.component_offsets.0@[k] == (
            self.components@[k].id,
            (col_off(self.components@, k) as usize, k as u32),
            )
        &&& self.components@.len() <= u32::MAX
        &&& self.entity_data@.len() <= u32::MAX
        &&& self.entities_len <= self.entity_data@.len()
        &&& forall|i: int|
            0 <= i < self.entity_data@.len() ==> (#[trigger] self.entity_data@[i]).row@.len()
                == self.row_stride
        &&& forall|i: int|
            0 <= i < self.entity_data@.len()
                ==> (#[trigger] self.entity_data@[i]).anti_racey_bytes@.len()
                == self.components@.len()
        &&& forall|i: int|
            0 <= i < self.entity_data@.len() ==> (#[trigger] self.entity_data@[i]).locked <= 2
        &&& forall|k: int|
            0 <= k < self.free_list@.len() ==> (#[trigger] self.free_list@[k]) < self.entities_len
        &&& forall|k1: int, k2: int|
            0 <= k1 < k2 < self.free_list@.len() ==> self.free_list@[k1] != self.free_list@[k2]
        &&& forall|i: int|
            0 <= i < self.entities_len ==> ((#[trigger] self.entity_data@[i]).entity_tag == 0
                <==> self.free_list@.contains(i as u32))
        &&& forall|i: int|
            self.entities_len <= i < self.entity_data@.len()
                ==> (#[trigger] self.entity_data@[i]).entity_tag == 0
                    && self.entity_data@[i].all_idle()
    }

    /// Resolves a component type id to its byte offset and column index.
    pub fn find_col(&self, type_id: u64) -> (r: Option<(usize, u32)>)
        requires
            self.wf(),
        ensures
            match r {
                Some(p) => self.has_component(type_id) && p.1 as int == self.col_index(type_id)
                    && p.1 < self.n_cols() && p.0 == self.col_offset(p.1 as int),
                None => !self.has_component(type_id),
            },
    {
        match self.component_offsets.get(type_id) {
            Some(p) => {
                proof {
                    let k = self.component_offsets.key_index(type_id);
                    assert(self.component_offsets.0@[k] == (
                        self.components@[k].id,
                        (col_off(self.components@, k) as usize, k as u32),
                    ));
                    assert(self.components@[k].id == type_id);
                    lemma_col_off_bound(self.components@, k);
                    let w = self.col_index(type_id);
                    assert(0 <= w < self.components@.len() && self.components@[w].id == type_id);
                    assert(w == k) by {
                        if w < k {
                            assert(self.components@[w].id < self.components@[k].id);
                        }
                        if k < w {
                            assert(self.components@[k].id < self.components@[w].id);
                        }
                    }
                }
                Some((p.0, p.1))
            },
            None => {
                proof {
                    if self.has_component(type_id) {
                        let k = self.col_index(type_id);
                        assert(self.component_offsets.0@[k].0 == type_id);
                        assert(self.component_offsets.has_key(type_id));
                    }
                }
                None
            },
        }
    }
}

/// Copies `len` bytes starting at `start` out of a byte vector.
fn copy_bytes_out(src: &Vec<u8>, start: usize, len: usize) -> (r: Vec<u8>)
    requires
        start + len <= src@.len(),
    ensures
        r@ == src@.subrange(start as int, start + len),
{
    let n = src.len();
    let mut out: Vec<u8> = Vec::new();
    let mut j: usize = 0;
    while j < len
        invariant
            j <= len,
            start + len <= n,
            n == src@.len(),
            out@ == src@.subrange(start as int, start + j),
        decreases len - j,
    {
        out.push(src[start + j]);
        proof {
            assert(out@ =~= src@.subrange(start as int, start + j + 1));
        }
        j += 1;
    }
    out
}

/// Overwrites `dst[start .. start + src.len()]` with `src`, leaving every
/// other byte unchanged.
fn copy_bytes_in(dst: &mut Vec<u8>, start: usize, src: &Vec<u8>)
    requires
        start + src@.len() <= old(dst)@.len(),
    ensures
        final(dst)@.len() == old(dst)@.len(),
        final(dst)@.subrange(start as int, start + src@.len()) == src@,
        forall|p: int|
            0 <= p < old(dst)@.len() && !(start <= p < start + src@.len())
                ==> final(dst)@[p] == old(dst)@[p],
{
    let n = src.len();
    let m = dst.len();
    let mut j: usize = 0;
    while j < n
        invariant
            j <= n,
            n == src@.len(),
            start + n <= m,
            m == dst@.len(),
            dst@.len() == old(dst)@.len(),
            forall|p: int| start <= p < start + j ==> dst@[p] == src@[p - start],
            forall|p: int|
                0 <= p < old(dst)@.len() && !(start <= p < start + j) ==> dst@[p] == old(dst)@[p],
        decreases n - j,
    {
        dst[start + j] = src[j];
        j += 1;
    }
    proof {
        assert(final(dst)@.subrange(start as int, start + src@.len()) =~= src@);
    }
}

/// The slab as handed out by the world. Resizing consumes it, because the
/// backing rows may only be reallocated under unique ownership.
pub struct Archetype(pub ArchetypeInner);

/// Both states have the same signature, stride, high-water mark and free
/// list.
pub open spec fn same_header(a: ArchetypeInner, b: ArchetypeInner) -> bool {
    &&& b.component_offsets.0@ == a.component_offsets.0@
    &&& b.components@ == a.components@
    &&& b.entities_len == a.entities_len
    &&& b.row_stride == a.row_stride
    &&& b.free_list@ == a.free_list@
}

/// Every row descriptor other than row `i` is unchanged.
pub open spec fn same_rows_except(a: ArchetypeInner, b: ArchetypeInner, i: int) -> bool {
    &&& b.entity_data@.len() == a.entity_data@.len()
    &&& forall|j: int|
        0 <= j < a.entity_data@.len() && j != i ==> b.entity_data@[j] == a.entity_data@[j]
}

/// A shared borrow of column `c` of row `i` may be taken: the row is
/// populated and unlocked, the component exists, and the reader count has
/// room below the saturation value 254.
pub open spec fn can_borrow_shared(s: ArchetypeInner, i: int, tid: u64) -> bool {
    &&& 0 <= i < s.entities_len
    &&& s.lock_state(i) == 0
    &&& s.has_component(tid)
    &&& s.borrow_byte(i, s.col_index(tid)) < 254
}

/// An exclusive borrow may be taken: as above, but the borrow byte must be
/// exactly idle.
pub open spec fn can_borrow_exclusive(s: ArchetypeInner, i: int, tid: u64) -> bool {
    &&& 0 <= i < s.entities_len
    &&& s.lock_state(i) == 0
    &&& s.has_component(tid)
    &&& s.borrow_byte(i, s.col_index(tid)) == 0
}

/// `b` is `a` with the borrow byte of row `i`, column `c` set to `v`;
/// nothing else differs.
pub open spec fn borrow_byte_set(a: ArchetypeInner, b: ArchetypeInner, i: int, c: int, v: u8) -> bool {
    &&& same_header(a, b)
    &&& same_rows_except(a, b, i)
    &&& 0 <= i < a.entity_data@.len()
    &&& b.entity_data@[i].entity_tag == a.entity_data@[i].entity_tag
    &&& b.entity_data@[i].locked == a.entity_data@[i].locked
    &&& b.entity_data@[i].row@ == a.entity_data@[i].row@
    &&& b.entity_data@[i].anti_racey_bytes@ == a.entity_data@[i].anti_racey_bytes@.update(c, v)
}


/// Zeroes every byte of a vector in place.
fn zero_bytes(dst: &mut Vec<u8>)
    ensures
        final(dst)@.len() == old(dst)@.len(),
        forall|p: int| 0 <= p < old(dst)@.len() ==> final(dst)@[p] == 0u8,
{
    let n = dst.len();
    let mut j: usize = 0;
    while j < n
        invariant
            j <= n,
            n == dst@.len(),
            dst@.len() == old(dst)@.len(),
            forall|p: int| 0 <= p < j ==> dst@[p] == 0u8,
        decreases n - j,
    {
        dst[j] = 0;
        j += 1;
    }
}

/// Writing inside the byte range of column `cw` leaves the bytes of every
/// other column of the row unchanged.
pub proof fn lemma_col_bytes_preserved(
    pre_row: Seq<u8>,
    post_row: Seq<u8>,
    cs: Seq<ComponentInfo>,
    cw: int,
    c: int,
)
    requires
        pre_row.len() == total_size(cs),
        post_row.len() == pre_row.len(),
        0 <= cw < cs.len(),
        0 <= c < cs.len(),
        c != cw,
        forall|p: int|
            0 <= p < pre_row.len() && !(col_off(cs, cw) <= p < col_off(cs, cw) + cs[cw].size)
                ==> post_row[p] == pre_row[p],
    ensures
        post_row.subrange(col_off(cs, c) as int, (col_off(cs, c) + cs[c].size) as int)
            == pre_row.subrange(col_off(cs, c) as int, (col_off(cs, c) + cs[c].size) as int),
{
    if c < cw {
        lemma_cols_disjoint(cs, c, cw);
    } else {
        lemma_cols_disjoint(cs, cw, c);
    }
    lemma_col_off_bound(cs, c);
    assert(post_row.subrange(col_off(cs, c) as int, (col_off(cs, c) + cs[c].size) as int)
        =~= pre_row.subrange(col_off(cs, c) as int, (col_off(cs, c) + cs[c].size) as int));
}


/// Loop-local description of `add_entity`: the first `upto` bundle parts
/// have been emplaced into row `i`.
spec fn col_state_ok(
    mid: ArchetypeInner,
    cur: ArchetypeInner,
    bundle: Bundle,
    i: int,
    c: int,
    upto: int,
) -> bool {
    if exists|j2: int| 0 <= j2 < upto && (#[trigger] bundle.parts@[j2]).info.id == mid.components@[c].id {
        cur.col_bytes(i, c) == bundle.parts@[choose|j2: int|
            0 <= j2 < upto && (#[trigger] bundle.parts@[j2]).info.id == mid.components@[c].id].bytes@
    } else {
        cur.col_bytes(i, c) == mid.col_bytes(i, c)
    }
}

/// The bundle only carries components of the slab's signature, with
/// matching sizes.
pub open spec fn bundle_fits(s: ArchetypeInner, b: Bundle) -> bool {
    forall|j: int|
        0 <= j < b.parts@.len() ==> s.has_component((#[trigger] b.parts@[j]).info.id)
            && s.components@[s.col_index(b.parts@[j].info.id)].size == b.parts@[j].info.size
}

/// The slot an insertion will fill: the most recently freed slot if one
/// exists, else the high-water mark.
pub open spec fn spec_insert_slot(s: ArchetypeInner) -> int {
    if s.free_list@.len() > 0 {
        s.free_list@.last() as int
    } else {
        s.entities_len as int
    }
}

/// `b` is `a` after inserting `entity_id` with `bundle` at `slot`.
pub open spec fn add_post(
    a: ArchetypeInner,
    b: ArchetypeInner,
    entity_id: u32,
    bundle: Bundle,
    slot: u32,
) -> bool {
    &&& slot as int == spec_insert_slot(a)
    &&& 0 <= (slot as int) < a.entity_data@.len()
    &&& if a.free_list@.len() > 0 {
        b.free_list@ == a.free_list@.drop_last() && b.entities_len == a.entities_len
    } else {
        b.free_list@ == a.free_list@ && b.entities_len == a.entities_len + 1
    }
    &&& b.components@ == a.components@
    &&& b.component_offsets.0@ == a.component_offsets.0@
    &&& b.row_stride == a.row_stride
    &&& same_rows_except(a, b, slot as int)
    &&& b.row_entity(slot as int) == Some(entity_id)
    &&& b.entity_data@[slot as int].locked == a.entity_data@[slot as int].locked
    &&& b.entity_data@[slot as int].anti_racey_bytes@ == a.entity_data@[
        slot as int
    ].anti_racey_bytes@
    &&& b.entity_data@[slot as int].row@.len() == a.entity_data@[slot as int].row@.len()
    &&& forall|c: int|
        0 <= c < a.n_cols() ==> if bundle.has_part((#[trigger] a.components@[c]).id) {
            b.col_bytes(slot as int, c) == bundle.parts@[bundle.part_index(
                a.components@[c].id,
            )].bytes@
        } else {
            b.col_bytes(slot as int, c) == a.col_bytes(slot as int, c)
        }
}


/// `b` is `a` after a refused resize: every row is left in the locking
/// state; nothing else moved.
pub open spec fn resize_err_post(a: ArchetypeInner, b: ArchetypeInner) -> bool {
    &&& same_header(a, b)
    &&& b.entity_data@.len() == a.entity_data@.len()
    &&& forall|i: int|
        0 <= i < a.entity_data@.len() ==> #[trigger] b.entity_data@[i] == (EntityData {
            locked: 1u8,
            ..a.entity_data@[i]
        })
}

/// `b` is `a` grown by `k` rows: the same rows sit unlocked at the same
/// indices with the same bytes, and the tail is fresh and vacant.
pub open spec fn resize_ok_post(a: ArchetypeInner, b: ArchetypeInner, k: int) -> bool {
    &&& b.components@ == a.components@
    &&& b.component_offsets.0@ == a.component_offsets.0@
    &&& b.row_stride == a.row_stride
    &&& b.entities_len == a.entities_len
    &&& b.free_list@ == a.free_list@
    &&& b.entity_data@.len() == a.entity_data@.len() + k
    &&& forall|i: int|
        0 <= i < a.entity_data@.len() ==> #[trigger] b.entity_data@[i] == (EntityData {
            locked: 0u8,
            ..a.entity_data@[i]
        })
    &&& forall|i: int|
        a.entity_data@.len() <= i < b.entity_data@.len() ==> b.row_entity(i) is None && (
        #[trigger] b.entity_data@[i]).locked == 0
            && b.entity_data@[i].all_idle() && forall|p: int|
            0 <= p < b.entity_data@[i].row@.len() ==> b.entity_data@[i].row@[p] == 0u8
}

/// `b` is `a` after a refused removal of row `i`: the row is left in the
/// locking state, which keeps refusing new borrows, and nothing else moved.
pub open spec fn remove_busy_post(a: ArchetypeInner, b: ArchetypeInner, i: int) -> bool {
    &&& same_header(a, b)
    &&& same_rows_except(a, b, i)
    &&& 0 <= i < a.entity_data@.len()
    &&& b.entity_data@[i] == (EntityData { locked: 1u8, ..a.entity_data@[i] })
}

/// `b` is `a` after a successful removal of row `i`. Removing an already
/// vacant row drops nothing and frees nothing a second time.
pub open spec fn remove_ok_post(a: ArchetypeInner, b: ArchetypeInner, i: int) -> bool {
    &&& 0 <= i < a.entity_data@.len()
    &&& same_rows_except(a, b, i)
    &&& b.components@ == a.components@
    &&& b.component_offsets.0@ == a.component_offsets.0@
    &&& b.row_stride == a.row_stride
    &&& b.entities_len == a.entities_len
    &&& if a.vacant(i) {
        b.free_list@ == a.free_list@ && b.entity_data@[i] == (EntityData {
            locked: 0u8,
            ..a.entity_data@[i]
        })
    } else {
        &&& b.free_list@ == a.free_list@.push(i as u32)
        &&& b.row_entity(i) is None
        &&& b.entity_data@[i].locked == 0
        &&& b.entity_data@[i].anti_racey_bytes@ == a.entity_data@[i].anti_racey_bytes@
        &&& b.entity_data@[i].row@.len() == a.entity_data@[i].row@.len()
        &&& forall|p: int| 0 <= p < b.entity_data@[i].row@.len() ==> b.entity_data@[i].row@[p] == 0u8
    }
}


/// Rows `a` and `b` hold the same observable state: same tag, lock, borrow
/// bytes and data bytes.
pub open spec fn row_eq(a: EntityData, b: EntityData) -> bool {
    &&& b.entity_tag == a.entity_tag
    &&& b.locked == a.locked
    &&& b.anti_racey_bytes@ == a.anti_racey_bytes@
    &&& b.row@ == a.row@
}

/// The slabs hold the same observable state everywhere.
pub open spec fn slab_obs_eq(a: ArchetypeInner, b: ArchetypeInner) -> bool {
    &&& same_header(a, b)
    &&& b.entity_data@.len() == a.entity_data@.len()
    &&& forall|j: int|
        0 <= j < a.entity_data@.len() ==> row_eq(
            a.entity_data@[j],
            #[trigger] b.entity_data@[j],
        )
}

/// A composite borrow of all the given components of row `i` may be taken
/// as one atomic step: the row is populated and unlocked, and every
/// requested column exists with an unsaturated reader count.
pub open spec fn can_borrow_many(s: ArchetypeInner, i: int, ids: Seq<u64>) -> bool {
    &&& 0 <= i < s.entities_len
    &&& s.lock_state(i) == 0
    &&& forall|j: int|
        0 <= j < ids.len() ==> s.has_component(#[trigger] ids[j]) && s.borrow_byte(
            i,
            s.col_index(ids[j]),
        ) < 254
}

/// Column `c` is among the requested component types.
pub open spec fn col_requested(s: ArchetypeInner, ids: Seq<u64>, c: int) -> bool {
    exists|j: int| 0 <= j < ids.len() && s.components@[c].id == #[trigger] ids[j]
}

/// `b` is `a` with one more reader on every requested column of row `i`.
pub open spec fn many_acquire_post(a: ArchetypeInner, b: ArchetypeInner, i: int, ids: Seq<u64>) -> bool {
    &&& same_header(a, b)
    &&& same_rows_except(a, b, i)
    &&& 0 <= i < a.entity_data@.len()
    &&& b.entity_data@[i].entity_tag == a.entity_data@[i].entity_tag
    &&& b.entity_data@[i].locked == a.entity_data@[i].locked
    &&& b.entity_data@[i].row@ == a.entity_data@[i].row@
    &&& b.entity_data@[i].anti_racey_bytes@.len() == a.entity_data@[i].anti_racey_bytes@.len()
    &&& forall|c: int|
        0 <= c < a.entity_data@[i].anti_racey_bytes@.len() ==> b.borrow_byte(i, c) == if col_requested(
            a,
            ids,
            c,
        ) {
            (a.borrow_byte(i, c) + 1) as u8
        } else {
            a.borrow_byte(i, c)
        }
}


/// A composite exclusive borrow of all the given components of row `i`
/// may be taken as one atomic step: the row is populated and unlocked,
/// and every requested column exists with an idle borrow byte.
pub open spec fn can_borrow_many_mut(s: ArchetypeInner, i: int, ids: Seq<u64>) -> bool {
    &&& 0 <= i < s.entities_len
    &&& s.lock_state(i) == 0
    &&& forall|j: int|
        0 <= j < ids.len() ==> s.has_component(#[trigger] ids[j]) && s.borrow_byte(
            i,
            s.col_index(ids[j]),
        ) == 0
}

/// `b` is `a` with the writer mark on every requested column of row `i`.
pub open spec fn many_acquire_mut_post(
    a: ArchetypeInner,
    b: ArchetypeInner,
    i: int,
    ids: Seq<u64>,
) -> bool {
    &&& same_header(a, b)
    &&& same_rows_except(a, b, i)
    &&& 0 <= i < a.entity_data@.len()
    &&& b.entity_data@[i].entity_tag == a.entity_data@[i].entity_tag
    &&& b.entity_data@[i].locked == a.entity_data@[i].locked
    &&& b.entity_data@[i].row@ == a.entity_data@[i].row@
    &&& b.entity_data@[i].anti_racey_bytes@.len() == a.entity_data@[i].anti_racey_bytes@.len()
    &&& forall|c: int|
        0 <= c < a.entity_data@[i].anti_racey_bytes@.len() ==> b.borrow_byte(i, c) == if col_requested(
            a,
            ids,
            c,
        ) {
            255u8
        } else {
            a.borrow_byte(i, c)
        }
}

impl Archetype {
    pub open spec fn wf(&self) -> bool {
        self.0.wf()
    }

    /// True iff at least one more entity fits: a freed slot awaits reuse or
    /// the high-water mark has not reached the capacity.
    pub open spec fn spec_entities_left(&self) -> bool {
        self.0.free_list@.len() > 0 || (self.0.entities_len as int) < self.0.capacity()
    }

    pub fn entities_left(&self) -> (r: bool)
        ensures
            r == self.spec_entities_left(),
    {
        self.0.free_list.len() > 0 || (self.0.entities_len as usize) < self.0.entity_data.len()
    }

    /// Grows the slab by `increase_by` rows (by its own capacity when
    /// `None`), under the quiescence protocol: every row is first marked
    /// locking; if any borrow byte anywhere is live the attempt is
    /// abandoned with `Err`, leaving every row in the locking state so
    /// that no new borrow can slip in before a retry. Otherwise every row
    /// reaches the locked state and the storage is rebuilt: same rows at
    /// the same indices, byte for byte, plus a fresh vacant tail, all
    /// unlocked.
    pub fn resize(self, increase_by: Option<usize>) -> (r: Result<Archetype, Archetype>)
        requires
            self.wf(),
            self.0.capacity() + (match increase_by {
                Option::Some(v) => v as int,
                Option::None => self.0.capacity(),
            }) <= u32::MAX,
        ensures
            ({
                let k = match increase_by {
                    Option::Some(v) => v as int,
                    Option::None => self.0.capacity(),
                };
                match r {
                    Result::Err(a) => (exists|i: int|
                        0 <= i < self.0.capacity() && !(
                        #[trigger] self.0.entity_data@[i]).all_idle()) && a.wf()
                        && resize_err_post(self.0, a.0),
                    Result::Ok(a) => (forall|i: int|
                        0 <= i < self.0.capacity() ==> (
                        #[trigger] self.0.entity_data@[i]).all_idle()) && a.wf()
                        && resize_ok_post(self.0, a.0, k),
                }
            }),
    {
        let Archetype(mut inner) = self;
        let ghost pre = inner;
        let cap = inner.entity_data.len();
        let mut safe = true;
        let mut i: usize = 0;
        while i < cap
            invariant
                i <= cap,
                cap == inner.entity_data@.len(),
                pre.wf(),
                inner.components@ == pre.components@,
                inner.component_offsets.0@ == pre.component_offsets.0@,
                inner.row_stride == pre.row_stride,
                inner.entities_len == pre.entities_len,
                inner.free_list@ == pre.free_list@,
                cap == pre.entity_data@.len(),
                forall|m: int|
                    0 <= m < i ==> #[trigger] inner.entity_data@[m] == (EntityData {
                        locked: 1u8,
                        ..pre.entity_data@[m]
                    }),
                forall|m: int|
                    i <= m < cap ==> #[trigger] inner.entity_data@[m] == pre.entity_data@[m],
                safe == (forall|m: int|
                    0 <= m < i ==> (#[trigger] pre.entity_data@[m]).all_idle()),
            decreases cap - i,
        {
            inner.entity_data[i].mark_locking();
            let idle = inner.entity_data[i].row_idle();
            if !idle {
                safe = false;
            }
            proof {
                assert(inner.entity_data@[i as int].anti_racey_bytes@ == pre.entity_data@[
                    i as int
                ].anti_racey_bytes@);
                assert(idle == pre.entity_data@[i as int].all_idle());
            }
            i += 1;
        }
        if !safe {
            proof {
                assert forall|m: int|
                    0 <= m < cap implies #[trigger] inner.entity_data@[m].locked <= 2 by {}
                assert(inner.wf()) by {
                    assert forall|m: int|
                        0 <= m < inner.entities_len implies ((
                    #[trigger] inner.entity_data@[m]).entity_tag == 0 <==> inner.free_list@.contains(
                        m as u32,
                    )) by {
                        assert(inner.entity_data@[m].entity_tag == pre.entity_data@[m].entity_tag);
                    }
                    assert forall|m: int|
                        inner.entities_len <= m < cap implies (
                    #[trigger] inner.entity_data@[m]).entity_tag == 0 && inner.entity_data@[
                        m
                    ].all_idle() by {
                        assert(pre.entity_data@[m].entity_tag == 0 && pre.entity_data@[
                            m
                        ].all_idle());
                    }
                }
            }
            return Err(Archetype(inner));
        }
        // Quiescence holds: promote every row to the locked state before
        // the storage is torn down and rebuilt.
        let mut i2: usize = 0;
        while i2 < cap
            invariant
                i2 <= cap,
                cap == inner.entity_data@.len(),
                pre.wf(),
                cap == pre.entity_data@.len(),
                inner.components@ == pre.components@,
                inner.component_offsets.0@ == pre.component_offsets.0@,
                inner.row_stride == pre.row_stride,
                inner.entities_len == pre.entities_len,
                inner.free_list@ == pre.free_list@,
                forall|m: int| 0 <= m < cap ==> (#[trigger] pre.entity_data@[m]).all_idle(),
                forall|m: int|
                    0 <= m < i2 ==> #[trigger] inner.entity_data@[m] == (EntityData {
                        locked: 2u8,
                        ..pre.entity_data@[m]
                    }),
                forall|m: int|
                    i2 <= m < cap ==> #[trigger] inner.entity_data@[m] == (EntityData {
                        locked: 1u8,
                        ..pre.entity_data@[m]
                    }),
            decreases cap - i2,
        {
            let locked_now = inner.entity_data[i2].try_mark_locked();
            proof {
                assert(locked_now);
            }
            i2 += 1;
        }
        proof {
            assert(inner.wf()) by {
                assert forall|m: int|
                    0 <= m < inner.entities_len implies ((
                #[trigger] inner.entity_data@[m]).entity_tag == 0 <==> inner.free_list@.contains(
                    m as u32,
                )) by {
                    assert(inner.entity_data@[m].entity_tag == pre.entity_data@[m].entity_tag);
                }
                assert forall|m: int|
                    inner.entities_len <= m < cap implies (
                #[trigger] inner.entity_data@[m]).entity_tag == 0 && inner.entity_data@[
                    m
                ].all_idle() by {
                    assert(pre.entity_data@[m].entity_tag == 0 && pre.entity_data@[m].all_idle());
                }
            }
        }
        let increase = match increase_by {
            Some(v) => v,
            None => cap,
        };
        let rebuilt = ArchetypeInner::new_from_old(inner, increase);
        proof {
            assert forall|m: int|
                0 <= m < cap implies #[trigger] rebuilt.entity_data@[m] == (EntityData {
                    locked: 0u8,
                    ..pre.entity_data@[m]
                }) by {
                assert(rebuilt.entity_data@[m] == (EntityData {
                    locked: 0u8,
                    ..inner.entity_data@[m]
                }));
            }
        }
        Ok(Archetype(rebuilt))
    }

    /// Takes a shared borrow of one component of one row.
    ///
    /// `Err(())` signals contention: the row exists but its lock is not
    /// `Unlocked`. `Ok(None)` covers every other refusal: the slot index is
    /// past the high-water mark, the component is not in the signature, or
    /// the reader count is saturated. On success the handle carries the
    /// component's bytes and the column's borrow byte is incremented.
    pub fn get_comp(&mut self, entity_index: u32, type_id: u64) -> (r: Result<
        Option<ComponentRef>,
        (),
    >)
        requires
            old(self).wf(),
        ensures
            final(self).wf(),
            ({
                let pre = old(self).0;
                let i = entity_index as int;
                match r {
                    Result::Err(_) => i < pre.entities_len && pre.lock_state(i) != 0 && *final(self)
                        == *old(self),
                    Result::Ok(opt) => match opt {
                        Option::None => !can_borrow_shared(pre, i, type_id) && !(i
                            < pre.entities_len && pre.lock_state(i) != 0) && *final(self) == *old(self),
                        Option::Some(cr) => can_borrow_shared(pre, i, type_id) && cr.entity_index
                            == entity_index && cr.column as int == pre.col_index(type_id)
                            && cr.value@ == pre.col_bytes(i, pre.col_index(type_id))
                            && borrow_byte_set(
                            pre,
                            final(self).0,
                            i,
                            pre.col_index(type_id),
                            (pre.borrow_byte(i, pre.col_index(type_id)) + 1) as u8,
                        ),
                    },
                }
            }),
    {
        if entity_index >= self.0.entities_len {
            return Ok(None);
        }
        let i = entity_index as usize;
        if self.0.entity_data[i].locked != 0 {
            return Err(());
        }
        match self.0.find_col(type_id) {
            None => Ok(None),
            Some((off, col)) => {
                let c = col as usize;
                let b = self.0.entity_data[i].anti_racey_bytes[c];
                if b >= 254 {
                    Ok(None)
                } else {
                    let size = self.0.components[c].size;
                    proof {
                        lemma_col_off_bound(self.0.components@, c as int);
                    }
                    let value = copy_bytes_out(&self.0.entity_data[i].row, off, size);
                    self.0.entity_data[i].anti_racey_bytes[c] = b + 1;
                    Ok(Some(ComponentRef { value, entity_index, column: col }))
                }
            },
        }
    }

    /// Takes an exclusive borrow of one component of one row.
    ///
    /// As `get_comp`, but the borrow byte must be exactly idle; it is set
    /// to the writer value 255. The handle carries a working copy of the
    /// component's bytes, written back on release.
    pub fn get_comp_mut(&mut self, entity_index: u32, type_id: u64) -> (r: Result<
        Option<MutComponentRef>,
        (),
    >)
        requires
            old(self).wf(),
        ensures
            final(self).wf(),
            ({
                let pre = old(self).0;
                let i = entity_index as int;
                match r {
                    Result::Err(_) => i < pre.entities_len && pre.lock_state(i) != 0 && *final(self)
                        == *old(self),
                    Result::Ok(opt) => match opt {
                        Option::None => !can_borrow_exclusive(pre, i, type_id) && !(i
                            < pre.entities_len && pre.lock_state(i) != 0) && *final(self) == *old(self),
                        Option::Some(cr) => can_borrow_exclusive(pre, i, type_id)
                            && cr.entity_index == entity_index && cr.column as int
                            == pre.col_index(type_id) && cr.value@ == pre.col_bytes(
                            i,
                            pre.col_index(type_id),
                        ) && borrow_byte_set(pre, final(self).0, i, pre.col_index(type_id), 255u8),
                    },
                }
            }),
    {
        if entity_index >= self.0.entities_len {
            return Ok(None);
        }
        let i = entity_index as usize;
        if self.0.entity_data[i].locked != 0 {
            return Err(());
        }
        match self.0.find_col(type_id) {
            None => Ok(None),
            Some((off, col)) => {
                let c = col as usize;
                let b = self.0.entity_data[i].anti_racey_bytes[c];
                if b != 0 {
                    Ok(None)
                } else {
                    let size = self.0.components[c].size;
                    proof {
                        lemma_col_off_bound(self.0.components@, c as int);
                    }
                    let value = copy_bytes_out(&self.0.entity_data[i].row, off, size);
                    self.0.entity_data[i].anti_racey_bytes[c] = 255;
                    Ok(Some(MutComponentRef { value, entity_index, column: col }))
                }
            },
        }
    }


    /// Inserts an entity's bundle, returning the slot index it now
    /// occupies. The most recently freed slot is reused first; otherwise
    /// the high-water mark is bumped. Each part's bytes are copied into
    /// its column; columns the bundle does not carry keep their bytes.
    pub fn add_entity(&mut self, entity_id: u32, bundle: &Bundle) -> (slot: u32)
        requires
            old(self).wf(),
            old(self).spec_entities_left(),
            entity_id < u32::MAX,
            bundle.wf(),
            bundle_fits(old(self).0, *bundle),
        ensures
            final(self).wf(),
            add_post(old(self).0, final(self).0, entity_id, *bundle, slot),
    {
        let ghost pre = self.0;
        let slot: u32 = match self.0.free_list.pop() {
            Some(s) => s,
            None => {
                let s = self.0.entities_len;
                self.0.entities_len = s + 1;
                s
            },
        };
        let i = slot as usize;
        self.0.entity_data[i].entity_tag = entity_id + 1;
        proof {
            if pre.free_list@.len() > 0 {
                assert forall|r: int|
                    0 <= r < self.0.entities_len && r != i as int implies ((
                    #[trigger] self.0.entity_data@[r]).entity_tag == 0
                    <==> self.0.free_list@.contains(r as u32)) by {
                    if self.0.free_list@.contains(r as u32) {
                        let k = choose|k: int|
                            0 <= k < self.0.free_list@.len() && self.0.free_list@[k] == r as u32;
                        assert(pre.free_list@[k] == r as u32);
                        assert(pre.free_list@.contains(r as u32));
                    }
                    if pre.free_list@.contains(r as u32) {
                        let k = choose|k: int|
                            0 <= k < pre.free_list@.len() && pre.free_list@[k] == r as u32;
                        assert(k < pre.free_list@.len() - 1);
                        assert(self.0.free_list@[k] == r as u32);
                        assert(self.0.free_list@.contains(r as u32));
                    }
                }
                assert(!self.0.free_list@.contains(slot)) by {
                    if self.0.free_list@.contains(slot) {
                        let k = choose|k: int|
                            0 <= k < self.0.free_list@.len() && self.0.free_list@[k] == slot;
                        assert(pre.free_list@[k] == pre.free_list@[pre.free_list@.len() - 1]);
                    }
                }
            } else {
                assert(!self.0.free_list@.contains(slot)) by {
                    if self.0.free_list@.contains(slot) {
                        let k = choose|k: int|
                            0 <= k < self.0.free_list@.len() && self.0.free_list@[k] == slot;
                        assert(pre.free_list@[k] < pre.entities_len);
                    }
                }
            }
            assert(self.0.wf());
        }
        let ghost mid = self.0;
        proof {
            assert forall|c: int| 0 <= c < mid.n_cols() implies #[trigger] col_state_ok(
                mid,
                mid,
                *bundle,
                slot as int,
                c,
                0,
            ) by {}
        }
        let n_parts = bundle.parts.len();
        let mut j: usize = 0;
        while j < n_parts
            invariant
                j <= n_parts,
                n_parts == bundle.parts@.len(),
                bundle.wf(),
                self.0.wf(),
                mid.wf(),
                bundle_fits(mid, *bundle),
                i == slot as usize,
                0 <= (slot as int) < mid.entity_data@.len(),
                self.0.components@ == mid.components@,
                self.0.component_offsets.0@ == mid.component_offsets.0@,
                self.0.row_stride == mid.row_stride,
                self.0.free_list@ == mid.free_list@,
                self.0.entities_len == mid.entities_len,
                same_rows_except(mid, self.0, slot as int),
                self.0.entity_data@[slot as int].entity_tag == mid.entity_data@[
                    slot as int
                ].entity_tag,
                self.0.entity_data@[slot as int].locked == mid.entity_data@[slot as int].locked,
                self.0.entity_data@[slot as int].anti_racey_bytes@ == mid.entity_data@[
                    slot as int
                ].anti_racey_bytes@,
                self.0.entity_data@[slot as int].row@.len() == mid.entity_data@[
                    slot as int
                ].row@.len(),
                forall|c: int|
                    0 <= c < mid.n_cols() ==> #[trigger] col_state_ok(
                        mid,
                        self.0,
                        *bundle,
                        slot as int,
                        c,
                        j as int,
                    ),
            decreases n_parts - j,
        {
            let part_id = bundle.parts[j].info.id;
            let ghost before = self.0;
            match self.0.find_col(part_id) {
                Some((off, col)) => {
                    let c = col as usize;
                    proof {
                        lemma_col_off_bound(self.0.components@, c as int);
                        assert(bundle.parts@[j as int].bytes@.len() == self.0.col_size(c as int));
                    }
                    copy_bytes_in(&mut self.0.entity_data[i].row, off, &bundle.parts[j].bytes);
                    proof {
                        let cj = before.col_index(part_id);
                        assert(mid.components@[cj].id == part_id);
                        assert forall|c2: int| 0 <= c2 < mid.n_cols() && c2 != cj implies self.0
                            .col_bytes(slot as int, c2) == before.col_bytes(slot as int, c2) by {
                            lemma_col_bytes_preserved(
                                before.entity_data@[slot as int].row@,
                                self.0.entity_data@[slot as int].row@,
                                mid.components@,
                                cj,
                                c2,
                            );
                        }
                        assert(self.0.col_bytes(slot as int, cj) == bundle.parts@[
                            j as int
                        ].bytes@) by {
                            assert(self.0.entity_data@[slot as int].row@.subrange(
                                off as int,
                                off + bundle.parts@[j as int].bytes@.len(),
                            ) == bundle.parts@[j as int].bytes@);
                        }
                        assert forall|c2: int|
                            0 <= c2 < mid.n_cols() implies #[trigger] col_state_ok(
                            mid,
                            self.0,
                            *bundle,
                            slot as int,
                            c2,
                            j + 1,
                        ) by {
                            let id2 = mid.components@[c2].id;
                            assert(col_state_ok(mid, before, *bundle, slot as int, c2, j as int));
                            if c2 == cj {
                                assert(bundle.parts@[j as int].info.id == id2);
                                assert(exists|j2: int|
                                    0 <= j2 < j + 1 && (#[trigger] bundle.parts@[j2]).info.id
                                        == id2);
                                let w = choose|j2: int|
                                    0 <= j2 < j + 1 && (#[trigger] bundle.parts@[j2]).info.id
                                        == id2;
                                assert(w == j as int) by {
                                    if w < j as int {
                                        assert(bundle.parts@[w].info.id == bundle.parts@[
                                            j as int
                                        ].info.id);
                                    }
                                }
                            } else {
                                assert(id2 != part_id) by {
                                    if id2 == part_id {
                                        assert(mid.components@[c2].id == mid.components@[cj].id);
                                        assert(c2 == cj) by {
                                            if c2 < cj {
                                                assert(mid.components@[c2].id < mid.components@[
                                                    cj
                                                ].id);
                                            }
                                            if cj < c2 {
                                                assert(mid.components@[cj].id < mid.components@[
                                                    c2
                                                ].id);
                                            }
                                        }
                                    }
                                }
                                assert(self.0.col_bytes(slot as int, c2) == before.col_bytes(
                                    slot as int,
                                    c2,
                                ));
                                if exists|j2: int|
                                    0 <= j2 < j && (#[trigger] bundle.parts@[j2]).info.id == id2 {
                                    let w1 = choose|j2: int|
                                        0 <= j2 < j && (#[trigger] bundle.parts@[j2]).info.id
                                            == id2;
                                    assert(0 <= w1 < j + 1 && bundle.parts@[w1].info.id == id2);
                                    let w2 = choose|j2: int|
                                        0 <= j2 < j + 1 && (#[trigger] bundle.parts@[j2]).info.id
                                            == id2;
                                    assert(w2 != j as int);
                                    assert(w1 == w2) by {
                                        if w1 < w2 {
                                            assert(bundle.parts@[w1].info.id == bundle.parts@[
                                                w2
                                            ].info.id);
                                        }
                                        if w2 < w1 {
                                            assert(bundle.parts@[w2].info.id == bundle.parts@[
                                                w1
                                            ].info.id);
                                        }
                                    }
                                } else {
                                    assert forall|j2: int| 0 <= j2 < j + 1 implies (
                                    #[trigger] bundle.parts@[j2]).info.id != id2 by {
                                        if j2 < j {
                                            assert(bundle.parts@[j2].info.id != id2);
                                        }
                                    }
                                }
                            }
                        }
                    }
                },
                None => {
                    proof {
                        assert(false);
                    }
                },
            }
            j += 1;
        }
        proof {
            assert forall|c: int|
                0 <= c < mid.n_cols() implies if bundle.has_part(
                (#[trigger] mid.components@[c]).id,
            ) {
                self.0.col_bytes(slot as int, c) == bundle.parts@[bundle.part_index(
                    mid.components@[c].id,
                )].bytes@
            } else {
                self.0.col_bytes(slot as int, c) == mid.col_bytes(slot as int, c)
            } by {
                let id2 = mid.components@[c].id;
                assert(col_state_ok(mid, self.0, *bundle, slot as int, c, n_parts as int));
                if bundle.has_part(id2) {
                    let w1 = bundle.part_index(id2);
                    assert(0 <= w1 < n_parts && bundle.parts@[w1].info.id == id2);
                    let w2 = choose|j2: int|
                        0 <= j2 < n_parts && (#[trigger] bundle.parts@[j2]).info.id == id2;
                    assert(w1 == w2) by {
                        if w1 < w2 {
                            assert(bundle.parts@[w1].info.id == bundle.parts@[w2].info.id);
                        }
                        if w2 < w1 {
                            assert(bundle.parts@[w2].info.id == bundle.parts@[w1].info.id);
                        }
                    }
                }
            }
            assert(add_post(pre, self.0, entity_id, *bundle, slot));
        }
        slot
    }

    /// Removes a row: locks it if every borrow byte is idle, runs the
    /// columns' bytewise destruction, recycles the slot, and unlocks it.
    /// With any borrow outstanding the row is left in the locking state
    /// and `Err(())` asks the caller to retry once readers drain. Removing
    /// an already vacant row is a safe no-op.
    pub fn remove(&mut self, index: u32) -> (r: Result<(), ()>)
        requires
            old(self).wf(),
            (index as int) < old(self).0.capacity(),
        ensures
            final(self).wf(),
            match r {
                Result::Ok(_) => old(self).0.entity_data@[index as int].all_idle()
                    && remove_ok_post(old(self).0, final(self).0, index as int),
                Result::Err(_) => !old(self).0.entity_data@[index as int].all_idle()
                    && remove_busy_post(old(self).0, final(self).0, index as int),
            },
    {
        let i = index as usize;
        self.0.entity_data[i].mark_locking();
        if !self.0.entity_data[i].try_mark_locked() {
            return Err(());
        }
        if self.0.entity_data[i].entity_tag == 0 {
            self.0.entity_data[i].mark_unlocked();
            return Ok(());
        }
        let ghost pre = old(self).0;
        zero_bytes(&mut self.0.entity_data[i].row);
        self.0.entity_data[i].entity_tag = 0;
        self.0.free_list.push(index);
        self.0.entity_data[i].mark_unlocked();
        proof {
            assert(!pre.free_list@.contains(index));
            assert forall|r: int|
                0 <= r < self.0.entities_len implies (self.0.entity_data@[r].entity_tag == 0
                <==> self.0.free_list@.contains(r as u32)) by {
                if r == i as int {
                    assert(self.0.free_list@[self.0.free_list@.len() - 1] == index);
                } else {
                    if self.0.free_list@.contains(r as u32) {
                        let k = choose|k: int|
                            0 <= k < self.0.free_list@.len() && self.0.free_list@[k] == r as u32;
                        assert(k < pre.free_list@.len());
                        assert(pre.free_list@.contains(r as u32));
                    }
                    if pre.free_list@.contains(r as u32) {
                        let k = choose|k: int|
                            0 <= k < pre.free_list@.len() && pre.free_list@[k] == r as u32;
                        assert(self.0.free_list@[k] == r as u32);
                    }
                }
            }
            assert(self.0.wf());
        }
        Ok(())
    }


    /// Takes shared borrows of several components of one row as a single
    /// all-or-nothing step. If any requested component is missing or any
    /// requested column is saturated, every borrow already taken by this
    /// call is released again and every borrow byte is exactly as it was
    /// before the call.
    ///
    /// The requested type ids must be distinct: the request stands for a
    /// tuple of component types drawn from the signature, which is a
    /// set, so no column can be asked for twice within one atomic step —
    /// a caller wanting two handles on one cell takes two separate
    /// borrows, each counted on its own.
    pub fn get_comp_many(&mut self, entity_index: u32, type_ids: &Vec<u64>) -> (r: Result<
        Option<Vec<ComponentRef>>,
        (),
    >)
        requires
            old(self).wf(),
            forall|j1: int, j2: int|
                0 <= j1 < j2 < type_ids@.len() ==> type_ids@[j1] != type_ids@[j2],
        ensures
            final(self).wf(),
            ({
                let pre = old(self).0;
                let i = entity_index as int;
                match r {
                    Result::Err(_) => i < pre.entities_len && pre.lock_state(i) != 0
                        && *final(self) == *old(self),
                    Result::Ok(opt) => match opt {
                        Option::None => !can_borrow_many(pre, i, type_ids@) && !(i
                            < pre.entities_len && pre.lock_state(i) != 0) && slab_obs_eq(
                            pre,
                            final(self).0,
                        ),
                        Option::Some(refs) => can_borrow_many(pre, i, type_ids@)
                            && many_acquire_post(pre, final(self).0, i, type_ids@)
                            && refs@.len() == type_ids@.len() && forall|j: int|
                            0 <= j < type_ids@.len() ==> (#[trigger] refs@[j]).entity_index
                                == entity_index && refs@[j].column as int == pre.col_index(
                                type_ids@[j],
                            ) && refs@[j].value@ == pre.col_bytes(i, pre.col_index(type_ids@[j])),
                    },
                }
            }),
    {
        let ghost pre = self.0;
        if entity_index >= self.0.entities_len {
            proof {
                assert(slab_obs_eq(pre, self.0));
            }
            return Ok(None);
        }
        let i = entity_index as usize;
        if self.0.entity_data[i].locked != 0 {
            return Err(());
        }
        let n_req = type_ids.len();
        let mut cols: Vec<(usize, u32)> = Vec::new();
        let mut j: usize = 0;
        while j < n_req
            invariant
                j <= n_req,
                n_req == type_ids@.len(),
                *self == *old(self),
                pre == self.0,
                self.0.wf(),
                i == entity_index as usize,
                (i as int) < pre.entities_len,
                pre.lock_state(i as int) == 0,
                cols@.len() == j,
                forall|m: int|
                    0 <= m < j ==> pre.has_component(#[trigger] type_ids@[m]),
                forall|m: int|
                    0 <= m < j ==> (#[trigger] cols@[m]).1 as int == pre.col_index(type_ids@[m])
                        && (cols@[m].1 as int) < pre.n_cols() && cols@[m].0 == pre.col_offset(
                        cols@[m].1 as int,
                    ),
            decreases n_req - j,
        {
            match self.0.find_col(type_ids[j]) {
                None => {
                    proof {
                        assert(slab_obs_eq(pre, self.0));
                    }
                    return Ok(None);
                },
                Some(p) => {
                    cols.push(p);
                },
            }
            j += 1;
        }
        proof {
            assert forall|m1: int, m2: int| 0 <= m1 < m2 < n_req implies (
            #[trigger] cols@[m1]).1 != (#[trigger] cols@[m2]).1 by {
                if cols@[m1].1 == cols@[m2].1 {
                    assert(pre.components@[pre.col_index(type_ids@[m1])].id == type_ids@[m1]);
                    assert(pre.components@[pre.col_index(type_ids@[m2])].id == type_ids@[m2]);
                }
            }
        }
        let ghost basev = pre.entity_data@[i as int].anti_racey_bytes@;
        let mut j2: usize = 0;
        while j2 < n_req
            invariant
                j2 <= n_req,
                n_req == type_ids@.len(),
                i == entity_index as usize,
                0 <= (i as int) < pre.entity_data@.len(),
                (i as int) < pre.entities_len,
                pre.lock_state(i as int) == 0,
                pre == old(self).0,
                pre.wf(),
                self.0.wf(),
                basev == pre.entity_data@[i as int].anti_racey_bytes@,
                cols@.len() == n_req,
                forall|m: int|
                    0 <= m < n_req ==> pre.has_component(#[trigger] type_ids@[m]),
                forall|m: int|
                    0 <= m < n_req ==> (#[trigger] cols@[m]).1 as int == pre.col_index(
                        type_ids@[m],
                    ) && (cols@[m].1 as int) < pre.n_cols() && cols@[m].0 == pre.col_offset(
                        cols@[m].1 as int,
                    ),
                forall|m1: int, m2: int|
                    0 <= m1 < m2 < n_req ==> (#[trigger] cols@[m1]).1 != (#[trigger] cols@[m2]).1,
                same_header(pre, self.0),
                same_rows_except(pre, self.0, i as int),
                self.0.entity_data@[i as int].entity_tag == pre.entity_data@[i as int].entity_tag,
                self.0.entity_data@[i as int].locked == pre.entity_data@[i as int].locked,
                self.0.entity_data@[i as int].row@ == pre.entity_data@[i as int].row@,
                self.0.entity_data@[i as int].anti_racey_bytes@.len() == basev.len(),
                forall|c2: int|
                    #![trigger basev[c2]]
                    0 <= c2 < basev.len() ==> self.0.borrow_byte(i as int, c2) == if (exists|
                        m: int,
                    |
                        0 <= m < j2 && (#[trigger] cols@[m]).1 == c2) {
                        (basev[c2] + 1) as u8
                    } else {
                        basev[c2]
                    },
                forall|m: int| 0 <= m < j2 ==> basev[(#[trigger] cols@[m]).1 as int] < 254,
            decreases n_req - j2,
        {
            let c = cols[j2].1 as usize;
            let b = self.0.entity_data[i].anti_racey_bytes[c];
            proof {
                assert(!(exists|m: int| 0 <= m < j2 && (#[trigger] cols@[m]).1 == c as int)) by {
                    if exists|m: int| 0 <= m < j2 && (#[trigger] cols@[m]).1 == c as int {
                        let m = choose|m: int| 0 <= m < j2 && (#[trigger] cols@[m]).1 == c as int;
                        assert(cols@[m].1 == cols@[j2 as int].1);
                        assert(m < j2);
                        assert(cols@[m].1 != cols@[j2 as int].1);
                    }
                }
                assert(self.0.borrow_byte(i as int, c as int) == b);
                assert(b == basev[c as int]);
            }
            if b >= 254 {
                let mut m: usize = 0;
                while m < j2
                    invariant
                        m <= j2,
                        j2 < n_req + 1,
                        n_req == type_ids@.len(),
                        i == entity_index as usize,
                        0 <= (i as int) < pre.entity_data@.len(),
                        (i as int) < pre.entities_len,
                        pre.lock_state(i as int) == 0,
                        pre == old(self).0,
                        pre.wf(),
                        self.0.wf(),
                        basev == pre.entity_data@[i as int].anti_racey_bytes@,
                        cols@.len() == n_req,
                        forall|m1: int, m2: int|
                            0 <= m1 < m2 < n_req ==> (#[trigger] cols@[m1]).1 != (
                            #[trigger] cols@[m2]).1,
                        forall|m2: int|
                            0 <= m2 < n_req ==> ((#[trigger] cols@[m2]).1 as int) < pre.n_cols(),
                        same_header(pre, self.0),
                        same_rows_except(pre, self.0, i as int),
                        self.0.entity_data@[i as int].entity_tag == pre.entity_data@[
                            i as int
                        ].entity_tag,
                        self.0.entity_data@[i as int].locked == pre.entity_data@[i as int].locked,
                        self.0.entity_data@[i as int].row@ == pre.entity_data@[i as int].row@,
                        self.0.entity_data@[i as int].anti_racey_bytes@.len() == basev.len(),
                        forall|c2: int|
                            #![trigger basev[c2]]
                            0 <= c2 < basev.len() ==> self.0.borrow_byte(i as int, c2) == if (
                            exists|m2: int|
                                m <= m2 < j2 && (#[trigger] cols@[m2]).1 == c2) {
                                (basev[c2] + 1) as u8
                            } else {
                                basev[c2]
                            },
                        forall|m2: int|
                            0 <= m2 < j2 ==> basev[(#[trigger] cols@[m2]).1 as int] < 254,
                    decreases j2 - m,
                {
                    let cm = cols[m].1 as usize;
                    let ghost prevbytes = self.0.entity_data@[i as int].anti_racey_bytes@;
                    proof {
                        assert(exists|m2: int| m <= m2 < j2 && (#[trigger] cols@[m2]).1 == cm as u32);
                        assert(self.0.borrow_byte(i as int, cm as int) == (basev[cm as int]
                            + 1) as u8);
                    }
                    let bm = self.0.entity_data[i].anti_racey_bytes[cm];
                    self.0.entity_data[i].anti_racey_bytes[cm] = bm - 1;
                    proof {
                        assert forall|c2: int| 0 <= c2 < basev.len() implies self.0.borrow_byte(
                            i as int,
                            c2,
                        ) == if (exists|m2: int| m + 1 <= m2 < j2 && (#[trigger] cols@[m2]).1 == c2) {
                            (basev[c2] + 1) as u8
                        } else {
                            basev[c2]
                        } by {
                            if c2 == cm as int {
                                assert(!(exists|m2: int|
                                    m + 1 <= m2 < j2 && (#[trigger] cols@[m2]).1 == c2)) by {
                                    if exists|m2: int|
                                        m + 1 <= m2 < j2 && (#[trigger] cols@[m2]).1 == c2 {
                                        let m2 = choose|m2: int|
                                            m + 1 <= m2 < j2 && (#[trigger] cols@[m2]).1 == c2;
                                        assert(cols@[m as int].1 != cols@[m2].1);
                                    }
                                }
                            } else {
                                assert((exists|m2: int|
                                    m + 1 <= m2 < j2 && (#[trigger] cols@[m2]).1 == c2) == (exists|
                                    m2: int,
                                |
                                    m <= m2 < j2 && (#[trigger] cols@[m2]).1 == c2)) by {
                                    if exists|m2: int|
                                        m <= m2 < j2 && (#[trigger] cols@[m2]).1 == c2 {
                                        let m2 = choose|m2: int|
                                            m <= m2 < j2 && (#[trigger] cols@[m2]).1 == c2;
                                        assert(m2 != m as int);
                                    }
                                }
                            }
                        }
                    }
                    m += 1;
                }
                proof {
                    assert(!can_borrow_many(pre, i as int, type_ids@)) by {
                        assert(pre.borrow_byte(
                            i as int,
                            pre.col_index(type_ids@[j2 as int]),
                        ) >= 254);
                    }
                    assert forall|c2: int| 0 <= c2 < basev.len() implies self.0.borrow_byte(
                        i as int,
                        c2,
                    ) == basev[c2] by {}
                    assert(self.0.entity_data@[i as int].anti_racey_bytes@ =~= basev);
                    assert(slab_obs_eq(pre, self.0));
                }
                return Ok(None);
            }
            self.0.entity_data[i].anti_racey_bytes[c] = b + 1;
            proof {
                assert forall|c2: int| 0 <= c2 < basev.len() implies self.0.borrow_byte(
                    i as int,
                    c2,
                ) == if (exists|m2: int| 0 <= m2 < j2 + 1 && (#[trigger] cols@[m2]).1 == c2) {
                    (basev[c2] + 1) as u8
                } else {
                    basev[c2]
                } by {
                    if c2 == c as int {
                        assert(cols@[j2 as int].1 == c2);
                    } else {
                        assert((exists|m2: int|
                            0 <= m2 < j2 + 1 && (#[trigger] cols@[m2]).1 == c2) == (exists|m2: int|
                            0 <= m2 < j2 && (#[trigger] cols@[m2]).1 == c2)) by {
                            if exists|m2: int| 0 <= m2 < j2 + 1 && (#[trigger] cols@[m2]).1 == c2 {
                                let m2 = choose|m2: int|
                                    0 <= m2 < j2 + 1 && (#[trigger] cols@[m2]).1 == c2;
                                assert(m2 != j2 as int);
                            }
                        }
                    }
                }
            }
            j2 += 1;
        }
        let mut refs: Vec<ComponentRef> = Vec::new();
        let mut j3: usize = 0;
        while j3 < n_req
            invariant
                j3 <= n_req,
                n_req == type_ids@.len(),
                i == entity_index as usize,
                0 <= (i as int) < pre.entity_data@.len(),
                pre.wf(),
                self.0.wf(),
                cols@.len() == n_req,
                forall|m: int|
                    0 <= m < n_req ==> (#[trigger] cols@[m]).1 as int == pre.col_index(
                        type_ids@[m],
                    ) && (cols@[m].1 as int) < pre.n_cols() && cols@[m].0 == pre.col_offset(
                        cols@[m].1 as int,
                    ),
                self.0.components@ == pre.components@,
                self.0.entity_data@.len() == pre.entity_data@.len(),
                self.0.entity_data@[i as int].row@ == pre.entity_data@[i as int].row@,
                refs@.len() == j3,
                forall|m: int|
                    0 <= m < j3 ==> (#[trigger] refs@[m]).entity_index == entity_index && refs@[
                        m
                    ].column as int == pre.col_index(type_ids@[m]) && refs@[m].value@
                        == pre.col_bytes(i as int, pre.col_index(type_ids@[m])),
            decreases n_req - j3,
        {
            let (off, col) = cols[j3];
            let c = col as usize;
            let size = self.0.components[c].size;
            proof {
                lemma_col_off_bound(self.0.components@, c as int);
            }
            let value = copy_bytes_out(&self.0.entity_data[i].row, off, size);
            refs.push(ComponentRef { value, entity_index, column: col });
            j3 += 1;
        }
        proof {
            assert(can_borrow_many(pre, i as int, type_ids@)) by {
                assert forall|m: int|
                    0 <= m < type_ids@.len() implies pre.has_component(#[trigger] type_ids@[m])
                    && pre.borrow_byte(i as int, pre.col_index(type_ids@[m])) < 254 by {
                    assert(basev[(cols@[m]).1 as int] < 254);
                }
            }
            assert(many_acquire_post(pre, self.0, i as int, type_ids@)) by {
                assert forall|c: int| 0 <= c < basev.len() implies self.0.borrow_byte(i as int, c)
                    == if col_requested(pre, type_ids@, c) {
                    (pre.borrow_byte(i as int, c) + 1) as u8
                } else {
                    pre.borrow_byte(i as int, c)
                } by {
                    if col_requested(pre, type_ids@, c) {
                        let m = choose|m: int|
                            0 <= m < type_ids@.len() && pre.components@[c].id == #[trigger] type_ids@[m];
                        assert(pre.components@[pre.col_index(type_ids@[m])].id == type_ids@[m]);
                        assert(pre.col_index(type_ids@[m]) == c) by {
                            let w = pre.col_index(type_ids@[m]);
                            if w < c {
                                assert(pre.components@[w].id < pre.components@[c].id);
                            }
                            if c < w {
                                assert(pre.components@[c].id < pre.components@[w].id);
                            }
                        }
                        assert(cols@[m].1 == c as u32);
                        assert(exists|m2: int| 0 <= m2 < n_req && (#[trigger] cols@[m2]).1 == c as u32);
                    } else {
                        assert(!(exists|m2: int|
                            0 <= m2 < n_req && (#[trigger] cols@[m2]).1 == c as u32)) by {
                            if exists|m2: int|
                                0 <= m2 < n_req && (#[trigger] cols@[m2]).1 == c as u32 {
                                let m2 = choose|m2: int|
                                    0 <= m2 < n_req && (#[trigger] cols@[m2]).1 == c as u32;
                                assert(pre.components@[pre.col_index(type_ids@[m2])].id
                                    == type_ids@[m2]);
                            }
                        }
                    }
                }
            }
        }
        Ok(Some(refs))
    }

    /// Takes exclusive borrows of several components of one row as a
    /// single all-or-nothing step. If any requested component is missing
    /// or any requested column is not idle, every writer mark already
    /// set by this call is cleared again and every borrow byte is
    /// exactly as it was before the call.
    ///
    /// The requested type ids must be distinct: the request stands for a
    /// tuple of component types drawn from the signature, which is a
    /// set — and two exclusive handles on one cell could not both be
    /// writers in any case.
    pub fn get_comp_many_mut(&mut self, entity_index: u32, type_ids: &Vec<u64>) -> (r: Result<
        Option<Vec<MutComponentRef>>,
        (),
    >)
        requires
            old(self).wf(),
            forall|j1: int, j2: int|
                0 <= j1 < j2 < type_ids@.len() ==> type_ids@[j1] != type_ids@[j2],
        ensures
            final(self).wf(),
            ({
                let pre = old(self).0;
                let i = entity_index as int;
                match r {
                    Result::Err(_) => i < pre.entities_len && pre.lock_state(i) != 0
                        && *final(self) == *old(self),
                    Result::Ok(opt) => match opt {
                        Option::None => !can_borrow_many_mut(pre, i, type_ids@) && !(i
                            < pre.entities_len && pre.lock_state(i) != 0) && slab_obs_eq(
                            pre,
                            final(self).0,
                        ),
                        Option::Some(refs) => can_borrow_many_mut(pre, i, type_ids@)
                            && many_acquire_mut_post(pre, final(self).0, i, type_ids@)
                            && refs@.len() == type_ids@.len() && forall|j: int|
                            0 <= j < type_ids@.len() ==> (#[trigger] refs@[j]).entity_index
                                == entity_index && refs@[j].column as int == pre.col_index(
                                type_ids@[j],
                            ) && refs@[j].value@ == pre.col_bytes(i, pre.col_index(type_ids@[j])),
                    },
                }
            }),
    {
        let ghost pre = self.0;
        if entity_index >= self.0.entities_len {
            proof {
                assert(slab_obs_eq(pre, self.0));
            }
            return Ok(None);
        }
        let i = entity_index as usize;
        if self.0.entity_data[i].locked != 0 {
            return Err(());
        }
        let n_req = type_ids.len();
        let mut cols: Vec<(usize, u32)> = Vec::new();
        let mut j: usize = 0;
        while j < n_req
            invariant
                j <= n_req,
                n_req == type_ids@.len(),
                *self == *old(self),
                pre == self.0,
                self.0.wf(),
                i == entity_index as usize,
                (i as int) < pre.entities_len,
                pre.lock_state(i as int) == 0,
                cols@.len() == j,
                forall|m: int|
                    0 <= m < j ==> pre.has_component(#[trigger] type_ids@[m]),
                forall|m: int|
                    0 <= m < j ==> (#[trigger] cols@[m]).1 as int == pre.col_index(type_ids@[m])
                        && (cols@[m].1 as int) < pre.n_cols() && cols@[m].0 == pre.col_offset(
                        cols@[m].1 as int,
                    ),
            decreases n_req - j,
        {
            match self.0.find_col(type_ids[j]) {
                None => {
                    proof {
                        assert(slab_obs_eq(pre, self.0));
                    }
                    return Ok(None);
                },
                Some(p) => {
                    cols.push(p);
                },
            }
            j += 1;
        }
        proof {
            assert forall|m1: int, m2: int| 0 <= m1 < m2 < n_req implies (
            #[trigger] cols@[m1]).1 != (#[trigger] cols@[m2]).1 by {
                if cols@[m1].1 == cols@[m2].1 {
                    assert(pre.components@[pre.col_index(type_ids@[m1])].id == type_ids@[m1]);
                    assert(pre.components@[pre.col_index(type_ids@[m2])].id == type_ids@[m2]);
                }
            }
        }
        let ghost basev = pre.entity_data@[i as int].anti_racey_bytes@;
        let mut j2: usize = 0;
        while j2 < n_req
            invariant
                j2 <= n_req,
                n_req == type_ids@.len(),
                i == entity_index as usize,
                0 <= (i as int) < pre.entity_data@.len(),
                (i as int) < pre.entities_len,
                pre.lock_state(i as int) == 0,
                pre == old(self).0,
                pre.wf(),
                self.0.wf(),
                basev == pre.entity_data@[i as int].anti_racey_bytes@,
                cols@.len() == n_req,
                forall|m: int|
                    0 <= m < n_req ==> pre.has_component(#[trigger] type_ids@[m]),
                forall|m: int|
                    0 <= m < n_req ==> (#[trigger] cols@[m]).1 as int == pre.col_index(
                        type_ids@[m],
                    ) && (cols@[m].1 as int) < pre.n_cols() && cols@[m].0 == pre.col_offset(
                        cols@[m].1 as int,
                    ),
                forall|m1: int, m2: int|
                    0 <= m1 < m2 < n_req ==> (#[trigger] cols@[m1]).1 != (#[trigger] cols@[m2]).1,
                same_header(pre, self.0),
                same_rows_except(pre, self.0, i as int),
                self.0.entity_data@[i as int].entity_tag == pre.entity_data@[i as int].entity_tag,
                self.0.entity_data@[i as int].locked == pre.entity_data@[i as int].locked,
                self.0.entity_data@[i as int].row@ == pre.entity_data@[i as int].row@,
                self.0.entity_data@[i as int].anti_racey_bytes@.len() == basev.len(),
                forall|c2: int|
                    #![trigger basev[c2]]
                    0 <= c2 < basev.len() ==> self.0.borrow_byte(i as int, c2) == if (exists|
                        m: int,
                    |
                        0 <= m < j2 && (#[trigger] cols@[m]).1 == c2) {
                        255u8
                    } else {
                        basev[c2]
                    },
                forall|m: int| 0 <= m < j2 ==> basev[(#[trigger] cols@[m]).1 as int] == 0,
            decreases n_req - j2,
        {
            let c = cols[j2].1 as usize;
            let b = self.0.entity_data[i].anti_racey_bytes[c];
            proof {
                assert(!(exists|m: int| 0 <= m < j2 && (#[trigger] cols@[m]).1 == c as int)) by {
                    if exists|m: int| 0 <= m < j2 && (#[trigger] cols@[m]).1 == c as int {
                        let m = choose|m: int| 0 <= m < j2 && (#[trigger] cols@[m]).1 == c as int;
                        assert(cols@[m].1 == cols@[j2 as int].1);
                        assert(m < j2);
                        assert(cols@[m].1 != cols@[j2 as int].1);
                    }
                }
                assert(self.0.borrow_byte(i as int, c as int) == b);
                assert(b == basev[c as int]);
            }
            if b != 0 {
                let mut m: usize = 0;
                while m < j2
                    invariant
                        m <= j2,
                        j2 < n_req + 1,
                        n_req == type_ids@.len(),
                        i == entity_index as usize,
                        0 <= (i as int) < pre.entity_data@.len(),
                        (i as int) < pre.entities_len,
                        pre.lock_state(i as int) == 0,
                        pre == old(self).0,
                        pre.wf(),
                        self.0.wf(),
                        basev == pre.entity_data@[i as int].anti_racey_bytes@,
                        cols@.len() == n_req,
                        forall|m1: int, m2: int|
                            0 <= m1 < m2 < n_req ==> (#[trigger] cols@[m1]).1 != (
                            #[trigger] cols@[m2]).1,
                        forall|m2: int|
                            0 <= m2 < n_req ==> ((#[trigger] cols@[m2]).1 as int) < pre.n_cols(),
                        same_header(pre, self.0),
                        same_rows_except(pre, self.0, i as int),
                        self.0.entity_data@[i as int].entity_tag == pre.entity_data@[
                            i as int
                        ].entity_tag,
                        self.0.entity_data@[i as int].locked == pre.entity_data@[i as int].locked,
                        self.0.entity_data@[i as int].row@ == pre.entity_data@[i as int].row@,
                        self.0.entity_data@[i as int].anti_racey_bytes@.len() == basev.len(),
                        forall|c2: int|
                            #![trigger basev[c2]]
                            0 <= c2 < basev.len() ==> self.0.borrow_byte(i as int, c2) == if (
                            exists|m2: int|
                                m <= m2 < j2 && (#[trigger] cols@[m2]).1 == c2) {
                                255u8
                            } else {
                                basev[c2]
                            },
                        forall|m2: int|
                            0 <= m2 < j2 ==> basev[(#[trigger] cols@[m2]).1 as int] == 0,
                    decreases j2 - m,
                {
                    let cm = cols[m].1 as usize;
                    let ghost prevbytes = self.0.entity_data@[i as int].anti_racey_bytes@;
                    proof {
                        assert(exists|m2: int| m <= m2 < j2 && (#[trigger] cols@[m2]).1 == cm as u32);
                        assert(basev[cm as int] == 0);
                    }
                    self.0.entity_data[i].anti_racey_bytes[cm] = 0;
                    proof {
                        assert forall|c2: int| 0 <= c2 < basev.len() implies self.0.borrow_byte(
                            i as int,
                            c2,
                        ) == if (exists|m2: int| m + 1 <= m2 < j2 && (#[trigger] cols@[m2]).1 == c2) {
                            255u8
                        } else {
                            basev[c2]
                        } by {
                            if c2 == cm as int {
                                assert(!(exists|m2: int|
                                    m + 1 <= m2 < j2 && (#[trigger] cols@[m2]).1 == c2)) by {
                                    if exists|m2: int|
                                        m + 1 <= m2 < j2 && (#[trigger] cols@[m2]).1 == c2 {
                                        let m2 = choose|m2: int|
                                            m + 1 <= m2 < j2 && (#[trigger] cols@[m2]).1 == c2;
                                        assert(cols@[m as int].1 != cols@[m2].1);
                                    }
                                }
                            } else {
                                assert((exists|m2: int|
                                    m + 1 <= m2 < j2 && (#[trigger] cols@[m2]).1 == c2) == (exists|
                                    m2: int,
                                |
                                    m <= m2 < j2 && (#[trigger] cols@[m2]).1 == c2)) by {
                                    if exists|m2: int|
                                        m <= m2 < j2 && (#[trigger] cols@[m2]).1 == c2 {
                                        let m2 = choose|m2: int|
                                            m <= m2 < j2 && (#[trigger] cols@[m2]).1 == c2;
                                        assert(m2 != m as int);
                                    }
                                }
                            }
                        }
                    }
                    m += 1;
                }
                proof {
                    assert(!can_borrow_many_mut(pre, i as int, type_ids@)) by {
                        assert(pre.borrow_byte(
                            i as int,
                            pre.col_index(type_ids@[j2 as int]),
                        ) != 0);
                    }
                    assert forall|c2: int| 0 <= c2 < basev.len() implies self.0.borrow_byte(
                        i as int,
                        c2,
                    ) == basev[c2] by {}
                    assert(self.0.entity_data@[i as int].anti_racey_bytes@ =~= basev);
                    assert(slab_obs_eq(pre, self.0));
                }
                return Ok(None);
            }
            self.0.entity_data[i].anti_racey_bytes[c] = 255;
            proof {
                assert forall|c2: int| 0 <= c2 < basev.len() implies self.0.borrow_byte(
                    i as int,
                    c2,
                ) == if (exists|m2: int| 0 <= m2 < j2 + 1 && (#[trigger] cols@[m2]).1 == c2) {
                    255u8
                } else {
                    basev[c2]
                } by {
                    if c2 == c as int {
                        assert(cols@[j2 as int].1 == c2);
                    } else {
                        assert((exists|m2: int|
                            0 <= m2 < j2 + 1 && (#[trigger] cols@[m2]).1 == c2) == (exists|m2: int|
                            0 <= m2 < j2 && (#[trigger] cols@[m2]).1 == c2)) by {
                            if exists|m2: int| 0 <= m2 < j2 + 1 && (#[trigger] cols@[m2]).1 == c2 {
                                let m2 = choose|m2: int|
                                    0 <= m2 < j2 + 1 && (#[trigger] cols@[m2]).1 == c2;
                                assert(m2 != j2 as int);
                            }
                        }
                    }
                }
            }
            j2 += 1;
        }
        let mut refs: Vec<MutComponentRef> = Vec::new();
        let mut j3: usize = 0;
        while j3 < n_req
            invariant
                j3 <= n_req,
                n_req == type_ids@.len(),
                i == entity_index as usize,
                0 <= (i as int) < pre.entity_data@.len(),
                pre.wf(),
                self.0.wf(),
                cols@.len() == n_req,
                forall|m: int|
                    0 <= m < n_req ==> (#[trigger] cols@[m]).1 as int == pre.col_index(
                        type_ids@[m],
                    ) && (cols@[m].1 as int) < pre.n_cols() && cols@[m].0 == pre.col_offset(
                        cols@[m].1 as int,
                    ),
                self.0.components@ == pre.components@,
                self.0.entity_data@.len() == pre.entity_data@.len(),
                self.0.entity_data@[i as int].row@ == pre.entity_data@[i as int].row@,
                refs@.len() == j3,
                forall|m: int|
                    0 <= m < j3 ==> (#[trigger] refs@[m]).entity_index == entity_index && refs@[
                        m
                    ].column as int == pre.col_index(type_ids@[m]) && refs@[m].value@
                        == pre.col_bytes(i as int, pre.col_index(type_ids@[m])),
            decreases n_req - j3,
        {
            let (off, col) = cols[j3];
            let c = col as usize;
            let size = self.0.components[c].size;
            proof {
                lemma_col_off_bound(self.0.components@, c as int);
            }
            let value = copy_bytes_out(&self.0.entity_data[i].row, off, size);
            refs.push(MutComponentRef { value, entity_index, column: col });
            j3 += 1;
        }
        proof {
            assert(can_borrow_many_mut(pre, i as int, type_ids@)) by {
                assert forall|m: int|
                    0 <= m < type_ids@.len() implies pre.has_component(#[trigger] type_ids@[m])
                    && pre.borrow_byte(i as int, pre.col_index(type_ids@[m])) == 0 by {
                    assert(basev[(cols@[m]).1 as int] == 0);
                }
            }
            assert(many_acquire_mut_post(pre, self.0, i as int, type_ids@)) by {
                assert forall|c: int| 0 <= c < basev.len() implies self.0.borrow_byte(i as int, c)
                    == if col_requested(pre, type_ids@, c) {
                    255u8
                } else {
                    pre.borrow_byte(i as int, c)
                } by {
                    if col_requested(pre, type_ids@, c) {
                        let m = choose|m: int|
                            0 <= m < type_ids@.len() && pre.components@[c].id == #[trigger] type_ids@[m];
                        assert(pre.components@[pre.col_index(type_ids@[m])].id == type_ids@[m]);
                        assert(pre.col_index(type_ids@[m]) == c) by {
                            let w = pre.col_index(type_ids@[m]);
                            if w < c {
                                assert(pre.components@[w].id < pre.components@[c].id);
                            }
                            if c < w {
                                assert(pre.components@[c].id < pre.components@[w].id);
                            }
                        }
                        assert(cols@[m].1 == c as u32);
                        assert(exists|m2: int| 0 <= m2 < n_req && (#[trigger] cols@[m2]).1 == c as u32);
                    } else {
                        assert(!(exists|m2: int|
                            0 <= m2 < n_req && (#[trigger] cols@[m2]).1 == c as u32)) by {
                            if exists|m2: int|
                                0 <= m2 < n_req && (#[trigger] cols@[m2]).1 == c as u32 {
                                let m2 = choose|m2: int|
                                    0 <= m2 < n_req && (#[trigger] cols@[m2]).1 == c as u32;
                                assert(pre.components@[pre.col_index(type_ids@[m2])].id
                                    == type_ids@[m2]);
                            }
                        }
                    }
                }
            }
        }
        Ok(Some(refs))
    }

    /// Returns a shared handle, decrementing its column's borrow byte.
    pub fn release_shared(&mut self, handle: ComponentRef)
        requires
            old(self).wf(),
            handle.entity_index < old(self).0.entities_len,
            (handle.column as int) < old(self).0.n_cols(),
            1 <= old(self).0.borrow_byte(handle.entity_index as int, handle.column as int) <= 254,
        ensures
            final(self).wf(),
            borrow_byte_set(
                old(self).0,
                final(self).0,
                handle.entity_index as int,
                handle.column as int,
                (old(self).0.borrow_byte(handle.entity_index as int, handle.column as int)
                    - 1) as u8,
            ),
    {
        let i = handle.entity_index as usize;
        let c = handle.column as usize;
        let b = self.0.entity_data[i].anti_racey_bytes[c];
        self.0.entity_data[i].anti_racey_bytes[c] = b - 1;
    }

    /// Returns an exclusive handle: writes the handle's bytes back into the
    /// row's column and resets the borrow byte to idle.
    pub fn release_exclusive(&mut self, handle: MutComponentRef)
        requires
            old(self).wf(),
            handle.entity_index < old(self).0.entities_len,
            (handle.column as int) < old(self).0.n_cols(),
            old(self).0.borrow_byte(handle.entity_index as int, handle.column as int) == 255,
            handle.value@.len() == old(self).0.col_size(handle.column as int),
        ensures
            final(self).wf(),
            ({
                let pre = old(self).0;
                let i = handle.entity_index as int;
                let c = handle.column as int;
                &&& same_header(pre, final(self).0)
                &&& same_rows_except(pre, final(self).0, i)
                &&& final(self).0.entity_data@[i].entity_tag == pre.entity_data@[i].entity_tag
                &&& final(self).0.entity_data@[i].locked == pre.entity_data@[i].locked
                &&& final(self).0.entity_data@[i].anti_racey_bytes@
                    == pre.entity_data@[i].anti_racey_bytes@.update(c, 0u8)
                &&& final(self).0.entity_data@[i].row@.len() == pre.entity_data@[i].row@.len()
                &&& final(self).0.col_bytes(i, c) == handle.value@
                &&& forall|p: int|
                    0 <= p < pre.entity_data@[i].row@.len() && !(pre.col_offset(c) <= p
                        < pre.col_offset(c) + pre.col_size(c))
                        ==> final(self).0.entity_data@[i].row@[p] == pre.entity_data@[i].row@[p]
            }),
    {
        let i = handle.entity_index as usize;
        let c = handle.column as usize;
        let off = self.0.component_offsets.0[c].1.0;
        proof {
            lemma_col_off_bound(self.0.components@, c as int);
        }
        copy_bytes_in(&mut self.0.entity_data[i].row, off, &handle.value);
        self.0.entity_data[i].anti_racey_bytes[c] = 0;
    }
}


impl ArchetypeInner {
    /// Builds a slab for the given signature with `entity_start_size`
    /// vacant rows. The signature is sorted by type id; column offsets are
    /// the running sums of the sorted sizes.
    pub(crate) fn new(components: Vec<ComponentInfo>, entity_start_size: usize) -> (r:
        ArchetypeInner)
        requires
            distinct_ids(components@),
            components@.len() <= u32::MAX,
            total_size(components@) <= usize::MAX,
            entity_start_size <= u32::MAX,
        ensures
            r.wf(),
            r.components@.to_multiset() == components@.to_multiset(),
            r.entities_len == 0,
            r.free_list@.len() == 0,
            r.capacity() == entity_start_size,
            r.row_stride == total_size(components@),
            forall|i: int|
                0 <= i < entity_start_size ==> r.row_entity(i) is None && (
                #[trigger] r.entity_data@[i]).locked == 0 && r.entity_data@[i].all_idle()
                    && forall|p: int|
                    0 <= p < r.entity_data@[i].row@.len() ==> r.entity_data@[i].row@[p] == 0u8,
    {
        let mut comps = components;
        let ghost orig = comps@;
        sort_components(&mut comps);
        proof {
            lemma_total_size_permutation(orig, comps@);
            lemma_distinct_ids_permutation(orig, comps@);
            assert(strictly_sorted(comps@)) by {
                assert forall|k1: int, k2: int| 0 <= k1 < k2 < comps@.len() implies comps@[k1].id
                    < comps@[k2].id by {
                    assert(crate::component::ci_leq(comps@[k1], comps@[k2]));
                    assert(comps@[k1].id != comps@[k2].id);
                }
            }
        }
        let n = comps.len();
        let mut entries: Vec<(u64, (usize, u32))> = Vec::new();
        let mut offset: usize = 0;
        let mut k: usize = 0;
        proof {
            assert(comps@.take(0) =~= Seq::<ComponentInfo>::empty());
        }
        while k < n
            invariant
                k <= n,
                n == comps@.len(),
                n <= u32::MAX,
                total_size(comps@) <= usize::MAX,
                entries@.len() == k,
                offset == col_off(comps@, k as int),
                forall|m: int|
                    0 <= m < k ==> #[trigger] entries@[m] == (
                    comps@[m].id,
                    (col_off(comps@, m) as usize, m as u32),
                    ),
            decreases n - k,
        {
            proof {
                lemma_total_size_take_succ(comps@, k as int);
                lemma_total_size_monotonic(comps@, k + 1, n as int);
                assert(comps@.take(n as int) =~= comps@);
            }
            entries.push((comps[k].id, (offset, k as u32)));
            offset = offset + comps[k].size;
            k += 1;
        }
        proof {
            assert(comps@.take(n as int) =~= comps@);
        }
        let row_stride = offset;
        let n_cols = n;
        let mut entity_data: Vec<EntityData> = Vec::new();
        let mut idx: usize = 0;
        while idx < entity_start_size
            invariant
                idx <= entity_start_size,
                entity_data@.len() == idx,
                forall|m: int|
                    0 <= m < idx ==> (#[trigger] entity_data@[m]).entity_tag == 0 && entity_data@[
                        m
                    ].locked == 0 && entity_data@[m].anti_racey_bytes@.len() == n_cols
                        && entity_data@[m].row@.len() == row_stride && entity_data@[m].all_idle()
                        && forall|p: int|
                        0 <= p < entity_data@[m].row@.len() ==> entity_data@[m].row@[p] == 0u8,
            decreases entity_start_size - idx,
        {
            let bytes: Vec<u8> = vec![0u8; n_cols];
            let row: Vec<u8> = vec![0u8; row_stride];
            entity_data.push(EntityData { entity_tag: 0, locked: 0, anti_racey_bytes: bytes, row });
            idx += 1;
        }
        let r = ArchetypeInner {
            component_offsets: TypeIdSet(entries),
            components: comps,
            entity_data,
            entities_len: 0,
            row_stride,
            free_list: Vec::new(),
        };
        proof {
            assert(r.component_offsets.wf()) by {
                assert forall|k1: int, k2: int|
                    0 <= k1 < k2 < r.component_offsets.0@.len() implies (
                r.component_offsets.0@[k1].0) < (r.component_offsets.0@[k2].0) by {
                    assert(r.component_offsets.0@[k1].0 == r.components@[k1].id);
                    assert(r.component_offsets.0@[k2].0 == r.components@[k2].id);
                }
            }
            assert(r.wf());
        }
        r
    }

    /// Rebuilds a slab with `size_increase` more rows, under unique
    /// ownership. Every existing row keeps its entity tag, borrow bytes
    /// and data bytes at the same slot index; its lock is reset to
    /// unlocked. The tail is fresh vacant rows.
    pub fn new_from_old(old_slab: ArchetypeInner, size_increase: usize) -> (r: ArchetypeInner)
        requires
            old_slab.wf(),
            old_slab.entity_data@.len() + size_increase <= u32::MAX,
        ensures
            r.wf(),
            r.components@ == old_slab.components@,
            r.component_offsets.0@ == old_slab.component_offsets.0@,
            r.row_stride == old_slab.row_stride,
            r.entities_len == old_slab.entities_len,
            r.free_list@ == old_slab.free_list@,
            r.capacity() == old_slab.capacity() + size_increase,
            forall|i: int|
                0 <= i < old_slab.capacity() ==> #[trigger] r.entity_data@[i] == (EntityData {
                    locked: 0u8,
                    ..old_slab.entity_data@[i]
                }),
            forall|i: int|
                old_slab.capacity() <= i < r.capacity() ==> r.row_entity(i) is None && (
                #[trigger] r.entity_data@[i]).locked == 0 && r.entity_data@[i].all_idle()
                    && forall|p: int|
                    0 <= p < r.entity_data@[i].row@.len() ==> r.entity_data@[i].row@[p] == 0u8,
    {
        let ArchetypeInner {
            component_offsets,
            components,
            entity_data,
            entities_len,
            row_stride,
            free_list,
        } = old_slab;
        let ghost old_rows = entity_data@;
        let mut rest = entity_data;
        let old_cap = rest.len();
        let new_cap = old_cap + size_increase;
        let n_cols = components.len();
        let mut new_rows: Vec<EntityData> = Vec::new();
        while rest.len() > 0
            invariant
                new_rows@.len() + rest@.len() == old_rows.len(),
                rest@ == old_rows.skip(new_rows@.len() as int),
                forall|m: int|
                    0 <= m < new_rows@.len() ==> #[trigger] new_rows@[m] == (EntityData {
                        locked: 0u8,
                        ..old_rows[m]
                    }),
            decreases rest@.len(),
        {
            let ghost done = new_rows@.len() as int;
            let d = rest.remove(0);
            proof {
                assert(old_rows.skip(done)[0] == old_rows[done]);
                assert(rest@ =~= old_rows.skip(done + 1));
            }
            new_rows.push(
                EntityData {
                    entity_tag: d.entity_tag,
                    locked: 0,
                    anti_racey_bytes: d.anti_racey_bytes,
                    row: d.row,
                },
            );
            proof {
                assert(new_rows@[done] == (EntityData { locked: 0u8, ..old_rows[done] }));
            }
        }
        let mut idx: usize = old_cap;
        while idx < new_cap
            invariant
                old_cap <= idx <= new_cap,
                new_rows@.len() == idx,
                n_cols == old_slab.components@.len(),
                row_stride == old_slab.row_stride,
                forall|m: int|
                    0 <= m < old_cap ==> #[trigger] new_rows@[m] == (EntityData {
                        locked: 0u8,
                        ..old_rows[m]
                    }),
                forall|m: int|
                    old_cap <= m < idx ==> (#[trigger] new_rows@[m]).entity_tag == 0 && new_rows@[
                        m
                    ].locked == 0 && new_rows@[m].anti_racey_bytes@.len() == n_cols && new_rows@[
                        m
                    ].row@.len() == row_stride && new_rows@[m].all_idle() && forall|p: int|
                        0 <= p < new_rows@[m].row@.len() ==> new_rows@[m].row@[p] == 0u8,
            decreases new_cap - idx,
        {
            let bytes: Vec<u8> = vec![0u8; n_cols];
            let row: Vec<u8> = vec![0u8; row_stride];
            new_rows.push(EntityData { entity_tag: 0, locked: 0, anti_racey_bytes: bytes, row });
            idx += 1;
        }
        let r = ArchetypeInner {
            component_offsets,
            components,
            entity_data: new_rows,
            entities_len,
            row_stride,
            free_list,
        };
        proof {
            assert forall|i: int|
                0 <= i < r.entities_len implies ((#[trigger] r.entity_data@[i]).entity_tag == 0
                <==> r.free_list@.contains(i as u32)) by {
                assert(r.entity_data@[i].entity_tag == old_slab.entity_data@[i].entity_tag);
            }
            assert(r.wf());
        }
        r
    }
}

/// The rows of a slab laid end to end: the contiguous arena.
pub open spec fn arena_flat(s: ArchetypeInner) -> Seq<u8> {
    Seq::new(s.entity_data@.len(), |i: int| s.entity_data@[i].row@).flatten()
}

proof fn lemma_flatten_uniform(rows: Seq<Seq<u8>>, stride: nat)
    requires
        forall|i: int| 0 <= i < rows.len() ==> (#[trigger] rows[i]).len() == stride,
    ensures
        rows.flatten().len() == rows.len() * stride,
        forall|i: int, p: int|
            0 <= i < rows.len() && 0 <= p < stride ==> rows.flatten()[i * stride + p] == rows[i][p],
    decreases rows.len(),
{
    if rows.len() == 0 {
    } else {
        let rest = rows.drop_first();
        lemma_flatten_uniform(rest, stride);
        assert(rows.flatten() == rows.first() + rest.flatten());
        assert(rows.flatten().len() == rows.len() * stride) by (nonlinear_arith)
            requires
                rows.flatten().len() == stride + rest.flatten().len(),
                rest.flatten().len() == rest.len() * stride,
                rest.len() == rows.len() - 1,
                rows.len() >= 1,
        ;
        assert forall|i: int, p: int|
            0 <= i < rows.len() && 0 <= p < stride implies rows.flatten()[i * stride + p]
            == rows[i][p] by {
            if i == 0 {
                assert(rows.flatten()[p] == rows.first()[p]);
            } else {
                assert(i * stride + p - stride == (i - 1) * stride + p) by (nonlinear_arith);
                assert((i - 1) * stride + p >= 0 && (i - 1) * stride + p < rest.len() * stride)
                    by (nonlinear_arith)
                    requires
                        0 <= p < stride,
                        1 <= i < rows.len(),
                        rest.len() == rows.len() - 1,
                ;
                assert(rows.flatten()[i * stride + p] == rest.flatten()[(i - 1) * stride + p]);
                assert(rest.flatten()[(i - 1) * stride + p] == rest[i - 1][p]);
                assert(rest[i - 1] == rows[i]);
            }
        }
    }
}

/// Row-major layout: the flattened arena of a well-formed slab has
/// exactly `capacity * row_stride` bytes, and byte `p` of row `i` sits at
/// flat offset `i * row_stride + p` — the model's form of
/// `row_ptr(i) == arena + i * row_stride`.
pub proof fn lemma_row_layout(s: ArchetypeInner, i: int, p: int)
    requires
        s.wf(),
        0 <= i < s.capacity(),
        0 <= p < s.row_stride,
    ensures
        arena_flat(s).len() == s.capacity() * s.row_stride,
        arena_flat(s)[i * s.row_stride + p] == s.entity_data@[i].row@[p],
{
    let rows = Seq::new(s.entity_data@.len(), |j: int| s.entity_data@[j].row@);
    assert(Seq::new(s.entity_data@.len(), |i: int| s.entity_data@[i].row@) =~= rows);
    lemma_flatten_uniform(rows, s.row_stride as nat);
    assert(rows.flatten()[i * s.row_stride + p] == rows[i][p]);
}

/// A borrow byte holding the writer value 255 admits no further borrow of
/// that column, shared or exclusive; together with the byte's range this
/// is the exclusivity of the writer state.
pub proof fn lemma_exclusive_excludes(s: ArchetypeInner, i: int, tid: u64)
    requires
        s.wf(),
        s.has_component(tid),
        0 <= i < s.capacity(),
        s.borrow_byte(i, s.col_index(tid)) == 255,
    ensures
        !can_borrow_shared(s, i, tid),
        !can_borrow_exclusive(s, i, tid),
{
}

/// A row whose lock is not `Unlocked` refuses every new borrow: this is
/// what keeps a slab frozen after a refused resize left its rows locking.
pub proof fn lemma_locking_blocks(s: ArchetypeInner, i: int, tid: u64)
    requires
        s.lock_state(i) != 0,
    ensures
        !can_borrow_shared(s, i, tid),
        !can_borrow_exclusive(s, i, tid),
{
}

/// The free list is a LIFO stack: removing a live row and then inserting,
/// with no resize in between, hands back exactly the removed slot.
pub proof fn lemma_remove_insert_recycles(
    s1: ArchetypeInner,
    s2: ArchetypeInner,
    s3: ArchetypeInner,
    i: u32,
    entity_id: u32,
    bundle: Bundle,
    slot: u32,
)
    requires
        0 <= (i as int) < s1.entity_data@.len(),
        !s1.vacant(i as int),
        remove_ok_post(s1, s2, i as int),
        add_post(s2, s3, entity_id, bundle, slot),
    ensures
        slot == i,
{
    assert(s2.free_list@ == s1.free_list@.push(i));
    assert(s2.free_list@.last() == i);
}

/// Taking a shared borrow and releasing it exactly once restores the
/// borrow byte — and with it the whole observable slab state.
pub proof fn lemma_shared_release_restores(
    s1: ArchetypeInner,
    s2: ArchetypeInner,
    s3: ArchetypeInner,
    i: int,
    c: int,
)
    requires
        0 <= i < s1.entity_data@.len(),
        0 <= c < s1.entity_data@[i].anti_racey_bytes@.len(),
        s1.borrow_byte(i, c) < 254,
        borrow_byte_set(s1, s2, i, c, (s1.borrow_byte(i, c) + 1) as u8),
        borrow_byte_set(s2, s3, i, c, (s2.borrow_byte(i, c) - 1) as u8),
    ensures
        slab_obs_eq(s1, s3),
{
    assert(s2.borrow_byte(i, c) == (s1.borrow_byte(i, c) + 1) as u8);
    assert(s3.entity_data@[i].anti_racey_bytes@ =~= s1.entity_data@[i].anti_racey_bytes@);
    assert forall|j: int| 0 <= j < s1.entity_data@.len() implies row_eq(
        s1.entity_data@[j],
        #[trigger] s3.entity_data@[j],
    ) by {
        if j != i {
            assert(s2.entity_data@[j] == s1.entity_data@[j]);
            assert(s3.entity_data@[j] == s2.entity_data@[j]);
        }
    }
}

} // verus!
