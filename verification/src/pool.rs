//! The sparse-set component pool: a dense array of `(id, value, change
//! tick)` rows plus a paged slot index, so lookup is one page read and
//! iteration touches consecutive memory.
//!
//! Every write stamps the row with the pool's current tick; that stamp is
//! what change-detection replication and expiry run on. A locked pool
//! ignores the end-of-tick removal flush.

use vstd::prelude::*;

use crate::id::Id;
use crate::paged::PagedArray;

verus! {

/// Sparse value of a slot with no row.
pub const ABSENT: u32 = 0xffff_ffff;

/// One row of a pool as contracts see it.
#[verifier::ext_equal]
pub struct Entry<T> {
    pub id: Id,
    pub value: T,
    pub tick: u32,
}

/// Named, typed component storage keyed by entity.
pub struct Pool<T> {
    ids: Vec<Id>,
    values: Vec<T>,
    ticks: Vec<u32>,
    sparse: PagedArray<u32>,
    now: u32,
    locked: bool,
}

impl<T> View for Pool<T> {
    type V = Map<u32, Entry<T>>;

    /// The rows by slot.
    closed spec fn view(&self) -> Map<u32, Entry<T>> {
        Map::new(
            |s: u32| self.sparse.at(s) != ABSENT,
            |s: u32|
                Entry {
                    id: self.ids@[self.sparse.at(s) as int],
                    value: self.values@[self.sparse.at(s) as int],
                    tick: self.ticks@[self.sparse.at(s) as int],
                },
        )
    }
}

impl<T> Pool<T> {
    /// The three columns run in parallel and the sparse index is exactly
    /// their inverse.
    pub closed spec fn wf(&self) -> bool {
        &&& self.ids@.len() == self.values@.len()
        &&& self.ids@.len() == self.ticks@.len()
        &&& self.ids@.len() <= 0x100_0000
        &&& self.sparse.wf()
        &&& self.sparse.filler() == ABSENT
        &&& forall|i: int|
            0 <= i < self.ids@.len() ==> self.sparse.at((#[trigger] self.ids@[i]).slot_of()) == i
        &&& forall|s: u32|
            #[trigger] self.sparse.at(s) != ABSENT ==> self.sparse.at(s) < self.ids@.len()
                && self.ids@[self.sparse.at(s) as int].slot_of() == s
    }

    /// Row ids in dense order.
    pub closed spec fn dense_ids(&self) -> Seq<Id> {
        self.ids@
    }

    /// Row values in dense order.
    pub closed spec fn dense_values(&self) -> Seq<T> {
        self.values@
    }

    /// Row change ticks in dense order.
    pub closed spec fn dense_ticks(&self) -> Seq<u32> {
        self.ticks@
    }

    /// The tick writes are stamped with.
    pub closed spec fn stamp(&self) -> u32 {
        self.now
    }

    /// Whether the removal flush skips this pool.
    pub closed spec fn is_locked(&self) -> bool {
        self.locked
    }

    /// Whether the entity has a row: its slot is taken by this very handle.
    pub open spec fn has(&self, id: Id) -> bool {
        self@.contains_key(id.slot_of()) && self@[id.slot_of()].id == id
    }

    /// The dense columns and the slot map describe the same rows.
    pub open spec fn columns_agree(&self) -> bool {
        &&& self.dense_ids().len() == self.dense_values().len()
        &&& self.dense_ids().len() == self.dense_ticks().len()
        &&& forall|i: int|
            0 <= i < self.dense_ids().len() ==> self@.contains_key(
                (#[trigger] self.dense_ids()[i]).slot_of(),
            ) && self@[self.dense_ids()[i].slot_of()] == (Entry {
                id: self.dense_ids()[i],
                value: self.dense_values()[i],
                tick: self.dense_ticks()[i],
            })
        &&& forall|s: u32| #[trigger]
            self@.contains_key(s) ==> self@[s].id.slot_of() == s && self.dense_ids().contains(
                self@[s].id,
            )
        &&& forall|i: int, j: int|
            0 <= i < self.dense_ids().len() && 0 <= j < self.dense_ids().len() && i != j ==> (
            #[trigger] self.dense_ids()[i]).slot_of() != (
            #[trigger] self.dense_ids()[j]).slot_of()
    }

    /// In a well-formed pool the columns and the slot map agree.
    pub proof fn wf_columns_agree(&self)
        requires
            self.wf(),
        ensures
            self.columns_agree(),
            self.dense_ids().len() <= 0x100_0000,
    {
        assert forall|s: u32| #[trigger] self@.contains_key(s) implies self@[s].id.slot_of() == s
            && self.dense_ids().contains(self@[s].id) by {
            assert(self.ids@[self.sparse.at(s) as int] == self@[s].id);
        }
    }

    /// Slots are 24-bit and rows hold distinct slots, so a pool that misses
    /// one slot has room for its row.
    proof fn room_for_new(&self, slot: u32)
        requires
            self.wf(),
            self.sparse.at(slot) == ABSENT,
            slot < 0x100_0000,
        ensures
            self.ids@.len() < 0x100_0000,
    {
        let keys = self.ids@.map_values(|id: Id| id.slot_of() as int);
        let all = vstd::set_lib::set_int_range(0, 0x100_0000);
        vstd::set_lib::lemma_int_range(0, 0x100_0000);
        assert forall|i: int| 0 <= i < keys.len() implies 0 <= #[trigger] keys[i] < 0x100_0000 by {
            let w = self.ids@[i].0 as int;
            assert(0 <= w / 0x100_0000 < 256);
        }
        assert(keys.no_duplicates()) by {
            assert forall|i: int, j: int|
                0 <= i < keys.len() && 0 <= j < keys.len() && i != j implies keys[i]
                != keys[j] by {
                assert(self.sparse.at(self.ids@[i].slot_of()) == i);
                assert(self.sparse.at(self.ids@[j].slot_of()) == j);
            }
        }
        keys.unique_seq_to_set();
        assert(keys.to_set().subset_of(all.remove(slot as int))) by {
            assert forall|k: int| #[trigger] keys.to_set().contains(k) implies all.remove(
                slot as int,
            ).contains(k) by {
                let i = choose|i: int| 0 <= i < keys.len() && keys[i] == k;
                assert(self.sparse.at(self.ids@[i].slot_of()) == i);
            }
        }
        vstd::set_lib::lemma_len_subset(keys.to_set(), all.remove(slot as int));
    }

    /// An empty, unlocked pool stamping tick 0.
    pub fn new() -> (r: Self)
        ensures
            r.wf(),
            r@ == Map::<u32, Entry<T>>::empty(),
            r.dense_ids().len() == 0,
            r.stamp() == 0,
            !r.is_locked(),
    {
        let r = Pool {
            ids: Vec::new(),
            values: Vec::new(),
            ticks: Vec::new(),
            sparse: PagedArray::new(ABSENT),
            now: 0,
            locked: false,
        };
        assert(r@ =~= Map::<u32, Entry<T>>::empty());
        r
    }

    /// Set the tick later writes are stamped with.
    pub fn tick_set(&mut self, tick: u32)
        requires
            old(self).wf(),
        ensures
            final(self).wf(),
            final(self)@ == old(self)@,
            final(self).dense_ids() == old(self).dense_ids(),
            final(self).dense_values() == old(self).dense_values(),
            final(self).dense_ticks() == old(self).dense_ticks(),
            final(self).stamp() == tick,
            final(self).is_locked() == old(self).is_locked(),
    {
        self.now = tick;
        assert(self@ =~= old(self)@);
    }

    /// Protect the pool's rows from the removal flush.
    pub fn lock(&mut self)
        requires
            old(self).wf(),
        ensures
            final(self).wf(),
            final(self)@ == old(self)@,
            final(self).dense_ids() == old(self).dense_ids(),
            final(self).dense_values() == old(self).dense_values(),
            final(self).dense_ticks() == old(self).dense_ticks(),
            final(self).stamp() == old(self).stamp(),
            final(self).is_locked(),
    {
        self.locked = true;
        assert(self@ =~= old(self)@);
    }

    /// Whether the removal flush skips this pool.
    pub fn locked(&self) -> (r: bool)
        ensures
            r == self.is_locked(),
    {
        self.locked
    }

    /// Number of rows.
    pub fn len(&self) -> (r: usize)
        ensures
            r == self.dense_ids().len(),
    {
        self.ids.len()
    }

    /// Whether the pool has no row.
    pub fn is_empty(&self) -> (r: bool)
        ensures
            r == (self.dense_ids().len() == 0),
    {
        self.ids.len() == 0
    }

    /// Row ids, dense order.
    pub fn ids(&self) -> (r: &[Id])
        ensures
            r@ == self.dense_ids(),
    {
        self.ids.as_slice()
    }

    /// Row values, dense order.
    pub fn values(&self) -> (r: &[T])
        ensures
            r@ == self.dense_values(),
    {
        self.values.as_slice()
    }

    /// Row change ticks, dense order.
    pub fn changed_ticks(&self) -> (r: &[u32])
        ensures
            r@ == self.dense_ticks(),
    {
        self.ticks.as_slice()
    }

    /// The dense position of the entity's row.
    fn find(&self, id: Id) -> (r: Option<usize>)
        requires
            self.wf(),
        ensures
            match r {
                Some(i) => self.has(id) && i < self.ids@.len() && self.ids@[i as int] == id
                    && self.sparse.at(id.slot_of()) == i,
                None => !self.has(id),
            },
    {
        let at: u32 = self.sparse.get(id.slot());
        if at != ABSENT && self.ids[at as usize] == id {
            Some(at as usize)
        } else {
            None
        }
    }

    /// Whether the entity has a row. A stale handle does not.
    pub fn contains(&self, id: Id) -> (r: bool)
        requires
            self.wf(),
        ensures
            r == self.has(id),
    {
        self.find(id).is_some()
    }

    /// The entity's value. A stale handle misses.
    pub fn get(&self, id: Id) -> (r: Option<&T>)
        requires
            self.wf(),
        ensures
            match r {
                Some(v) => self.has(id) && *v == self@[id.slot_of()].value,
                None => !self.has(id),
            },
    {
        match self.find(id) {
            Some(i) => Some(&self.values[i]),
            None => None,
        }
    }

    /// The tick the entity's row was last written at.
    pub fn changed_tick(&self, id: Id) -> (r: Option<u32>)
        requires
            self.wf(),
        ensures
            match r {
                Some(t) => self.has(id) && t == self@[id.slot_of()].tick,
                None => !self.has(id),
            },
    {
        match self.find(id) {
            Some(i) => Some(self.ticks[i]),
            None => None,
        }
    }

    /// Ids of the rows written after `tick`, dense order.
    pub fn changed_since(&self, tick: u32) -> (r: Vec<Id>)
        requires
            self.wf(),
        ensures
            r@ == changed_after(self.dense_ids(), self.dense_ticks(), tick),
    {
        let mut out: Vec<Id> = Vec::new();
        let mut i: usize = 0;
        while i < self.ids.len()
            invariant
                self.wf(),
                i <= self.ids@.len(),
                out@ == changed_after(
                    self.ids@.subrange(0, i as int),
                    self.ticks@.subrange(0, i as int),
                    tick,
                ),
            decreases self.ids@.len() - i,
        {
            if self.ticks[i] > tick {
                out.push(self.ids[i]);
            }
            proof {
                let a = self.ids@.subrange(0, i + 1);
                let b = self.ticks@.subrange(0, i + 1);
                assert(a.drop_last() =~= self.ids@.subrange(0, i as int));
                assert(b.drop_last() =~= self.ticks@.subrange(0, i as int));
            }
            i += 1;
        }
        assert(self.ids@.subrange(0, i as int) =~= self.ids@);
        assert(self.ticks@.subrange(0, i as int) =~= self.ticks@);
        out
    }

    /// Write the entity's row, creating it when absent and replacing the
    /// slot's previous occupant when a newer handle arrives. Stamps the row.
    pub fn add(&mut self, id: Id, value: T)
        requires
            old(self).wf(),
        ensures
            final(self).wf(),
            final(self)@ == old(self)@.insert(
                id.slot_of(),
                Entry { id, value, tick: old(self).stamp() },
            ),
            final(self).stamp() == old(self).stamp(),
            final(self).is_locked() == old(self).is_locked(),
            !old(self)@.contains_key(id.slot_of()) ==> {
                &&& final(self).dense_ids() == old(self).dense_ids().push(id)
                &&& final(self).dense_values() == old(self).dense_values().push(value)
                &&& final(self).dense_ticks() == old(self).dense_ticks().push(old(self).stamp())
            },
            old(self)@.contains_key(id.slot_of()) ==> {
                final(self).dense_ids().len() == old(self).dense_ids().len()
            },
    {
        broadcast use vstd::laws_eq::group_laws_eq;

        let slot: u32 = id.slot();
        let at: u32 = self.sparse.get(slot);
        if at != ABSENT {
            self.ids.set(at as usize, id);
            self.values.set(at as usize, value);
            self.ticks.set(at as usize, self.now);
        } else {
            proof {
                self.room_for_new(slot);
            }
            let n: usize = self.ids.len();
            self.ids.push(id);
            self.values.push(value);
            self.ticks.push(self.now);
            self.sparse.set(slot, n as u32);
        }
        assert(self@ =~= old(self)@.insert(
            id.slot_of(),
            Entry { id, value, tick: old(self).stamp() },
        ));
    }

    /// Reach the entity's value for writing; the row is stamped. A stale
    /// handle misses and stamps nothing.
    pub fn get_mut(&mut self, id: Id) -> (r: Option<&mut T>)
        requires
            old(self).wf(),
        ensures
            final(self).wf(),
            final(self).dense_ids() == old(self).dense_ids(),
            final(self).stamp() == old(self).stamp(),
            final(self).is_locked() == old(self).is_locked(),
            match r {
                Some(v) => {
                    &&& old(self).has(id)
                    &&& *v == old(self)@[id.slot_of()].value
                    &&& final(self)@ == old(self)@.insert(
                        id.slot_of(),
                        Entry { id, value: *final(v), tick: old(self).stamp() },
                    )
                },
                None => {
                    &&& !old(self).has(id)
                    &&& final(self)@ == old(self)@
                    &&& final(self).dense_values() == old(self).dense_values()
                    &&& final(self).dense_ticks() == old(self).dense_ticks()
                },
            },
    {
        match self.find(id) {
            Some(i) => {
                self.ticks.set(i, self.now);
                Some(&mut self.values[i])
            },
            None => None,
        }
    }

    /// Drop the row at dense position `i`; the last row takes its place.
    fn remove_at(&mut self, i: usize)
        requires
            old(self).wf(),
            i < old(self).dense_ids().len(),
        ensures
            final(self).wf(),
            final(self)@ == old(self)@.remove(old(self).dense_ids()[i as int].slot_of()),
            final(self).dense_ids().len() == old(self).dense_ids().len() - 1,
            forall|k: int|
                0 <= k < final(self).dense_ids().len() ==> #[trigger] final(self).dense_ids()[k]
                    == if k == i {
                    old(self).dense_ids().last()
                } else {
                    old(self).dense_ids()[k]
                },
            final(self).stamp() == old(self).stamp(),
            final(self).is_locked() == old(self).is_locked(),
    {
        broadcast use vstd::laws_eq::group_laws_eq;

        let gone: Id = self.ids[i];
        let last: usize = self.ids.len() - 1;
        let moved: Id = self.ids[last];
        self.ids.swap_remove(i);
        self.values.swap_remove(i);
        self.ticks.swap_remove(i);
        self.sparse.set(moved.slot(), i as u32);
        self.sparse.set(gone.slot(), ABSENT);
        proof {
            assert(old(self).sparse.at(gone.slot_of()) == i);
            assert(old(self).sparse.at(moved.slot_of()) == last);
            assert(self@ =~= old(self)@.remove(gone.slot_of()));
        }
    }

    /// Removing a row takes exactly its id off the row ids.
    pub proof fn remove_rows(before: &Self, after: &Self, id: Id)
        requires
            before.wf(),
            after.wf(),
            after@ == if before.has(id) {
                before@.remove(id.slot_of())
            } else {
                before@
            },
        ensures
            forall|x: Id| #[trigger]
                after.dense_ids().contains(x) == (before.dense_ids().contains(x) && x != id),
    {
        before.has_iff_row();
        after.has_iff_row();
        assert forall|x: Id| #[trigger]
            after.dense_ids().contains(x) == (before.dense_ids().contains(x) && x != id) by {
            assert(after.has(x) == after.dense_ids().contains(x));
            assert(before.has(x) == before.dense_ids().contains(x));
            if x.slot_of() == id.slot_of() && before.has(x) && before.has(id) {
                assert(x == id);
            }
        }
    }

    /// Drop the entity's row; a stale handle removes nothing. Returns
    /// whether a row went.
    pub fn remove(&mut self, id: Id) -> (r: bool)
        requires
            old(self).wf(),
        ensures
            final(self).wf(),
            r == old(self).has(id),
            final(self)@ == if old(self).has(id) {
                old(self)@.remove(id.slot_of())
            } else {
                old(self)@
            },
            r ==> final(self).dense_ids().len() == old(self).dense_ids().len() - 1,
            !r ==> final(self).dense_ids() == old(self).dense_ids(),
            final(self).stamp() == old(self).stamp(),
            final(self).is_locked() == old(self).is_locked(),
    {
        match self.find(id) {
            Some(i) => {
                self.remove_at(i);
                true
            },
            None => false,
        }
    }

    /// Keep the rows `keep` says yes to and drop the others.
    pub fn retain<F: Fn(Id, &T) -> bool>(&mut self, keep: F)
        requires
            old(self).wf(),
            forall|id: Id, v: &T| #[trigger] keep.requires((id, v)),
        ensures
            final(self).wf(),
            final(self)@.submap_of(old(self)@),
            forall|s: u32| #[trigger]
                old(self)@.contains_key(s) ==> keep.ensures(
                    (old(self)@[s].id, &old(self)@[s].value),
                    final(self)@.contains_key(s),
                ),
            final(self).stamp() == old(self).stamp(),
            final(self).is_locked() == old(self).is_locked(),
    {
        let mut i: usize = self.ids.len();
        while i > 0
            invariant
                self.wf(),
                i <= self.ids@.len(),
                forall|id: Id, v: &T| #[trigger] keep.requires((id, v)),
                self@.submap_of(old(self)@),
                self.now == old(self).now,
                self.locked == old(self).locked,
                forall|s: u32| #[trigger]
                    old(self)@.contains_key(s) && !self@.contains_key(s) ==> keep.ensures(
                        (old(self)@[s].id, &old(self)@[s].value),
                        false,
                    ),
                forall|k: int|
                    i <= k < self.ids@.len() ==> keep.ensures(
                        (#[trigger] self.ids@[k], &self.values@[k]),
                        true,
                    ),
            decreases i,
        {
            i -= 1;
            let ghost before = *self;
            proof {
                before.wf_columns_agree();
            }
            let yes: bool = keep(self.ids[i], &self.values[i]);
            if !yes {
                let ghost gone = self.ids@[i as int];
                self.remove_at(i);
                proof {
                    self.wf_columns_agree();
                    assert(before@.contains_key(gone.slot_of()));
                    assert(old(self)@.contains_key(gone.slot_of()));
                    assert(old(self)@[gone.slot_of()] == before@[gone.slot_of()]);
                    assert forall|k: int| i <= k < self.ids@.len() implies keep.ensures(
                        (#[trigger] self.ids@[k], &self.values@[k]),
                        true,
                    ) by {
                        let id = self.ids@[k];
                        assert(self.dense_ids()[k] == id);
                        assert(self@[id.slot_of()].value == self.values@[k]);
                        assert(before@[id.slot_of()] == self@[id.slot_of()]);
                        let j = before.sparse.at(id.slot_of()) as int;
                        if k == i {
                            assert(before.ids@[before.ids@.len() - 1] == id);
                            assert(before.dense_ids()[before.ids@.len() - 1] == id);
                        } else {
                            assert(before.dense_ids()[k] == id);
                        }
                        assert(before.ids@[j] == id);
                    }
                }
            }
        }
        proof {
            self.wf_columns_agree();
            assert forall|s: u32| #[trigger] old(self)@.contains_key(s) implies keep.ensures(
                (old(self)@[s].id, &old(self)@[s].value),
                self@.contains_key(s),
            ) by {
                if self@.contains_key(s) {
                    let k = self.sparse.at(s) as int;
                    assert(self.ids@[k] == self@[s].id);
                }
            }
        }
    }
}

/// The ids whose tick is past `tick`, in order.
pub open spec fn changed_after(ids: Seq<Id>, ticks: Seq<u32>, tick: u32) -> Seq<Id>
    decreases ids.len(),
{
    if ids.len() == 0 || ticks.len() != ids.len() {
        Seq::empty()
    } else {
        let rest = changed_after(ids.drop_last(), ticks.drop_last(), tick);
        if ticks.last() > tick {
            rest.push(ids.last())
        } else {
            rest
        }
    }
}

/// The rows left once an id was removed: the row it has goes, every other
/// row stays as it is.
pub open spec fn row_removed<R>(table: Map<u32, R>, rows: Seq<Id>, id: Id) -> Map<u32, R> {
    if rows.contains(id) {
        table.remove(id.slot_of())
    } else {
        table
    }
}

/// What the kernel needs of any pool, whatever its value type: stamping,
/// entity removal and the row ids.
pub trait ErasedPool: Sized {
    /// One row: its id, value and change tick.
    type Row;

    /// The rows by slot.
    spec fn table(&self) -> Map<u32, Self::Row>;

    /// Bytes a value must have, where values are bytes of one size.
    spec fn erased_size(&self) -> Option<nat>;

    /// The pool's own invariant.
    spec fn erased_wf(&self) -> bool;

    /// Row ids in dense order.
    spec fn rows(&self) -> Seq<Id>;

    /// Whether the removal flush skips the pool.
    spec fn erased_locked(&self) -> bool;

    /// The tick writes are stamped with.
    spec fn erased_stamp(&self) -> u32;

    /// Stamp later writes with `tick`.
    fn erased_tick_set(&mut self, tick: u32)
        requires
            old(self).erased_wf(),
        ensures
            final(self).erased_wf(),
            final(self).erased_stamp() == tick,
            final(self).erased_locked() == old(self).erased_locked(),
            final(self).rows() == old(self).rows(),
            final(self).table() == old(self).table(),
            final(self).erased_size() == old(self).erased_size(),
    ;

    /// Protect the pool's rows from the removal flush.
    fn erased_lock(&mut self)
        requires
            old(self).erased_wf(),
        ensures
            final(self).erased_wf(),
            final(self).erased_stamp() == old(self).erased_stamp(),
            final(self).erased_locked(),
            final(self).rows() == old(self).rows(),
            final(self).table() == old(self).table(),
            final(self).erased_size() == old(self).erased_size(),
    ;

    /// Drop the entity's row unless the pool is locked.
    fn erased_remove(&mut self, id: Id)
        requires
            old(self).erased_wf(),
        ensures
            final(self).erased_wf(),
            final(self).erased_stamp() == old(self).erased_stamp(),
            final(self).erased_locked() == old(self).erased_locked(),
            old(self).erased_locked() ==> final(self).rows() == old(self).rows(),
            forall|x: Id| #[trigger]
                final(self).rows().contains(x) == (old(self).rows().contains(x) && (x != id || old(
                    self).erased_locked())),
            final(self).table() == if old(self).erased_locked() {
                old(self).table()
            } else {
                row_removed(old(self).table(), old(self).rows(), id)
            },
            final(self).erased_size() == old(self).erased_size(),
    ;

    /// Number of rows.
    fn erased_count(&self) -> (r: usize)
        requires
            self.erased_wf(),
        ensures
            r == self.rows().len(),
    ;

    /// The id of the row at a dense position.
    fn erased_id(&self, i: usize) -> (r: Id)
        requires
            self.erased_wf(),
            i < self.rows().len(),
        ensures
            r == self.rows()[i as int],
    ;
}

impl<T> Pool<T> {
    /// In a well-formed pool an entity has a row exactly when its id is
    /// among the row ids.
    pub proof fn has_iff_row(&self)
        requires
            self.wf(),
        ensures
            forall|id: Id| #[trigger] self.has(id) == self.dense_ids().contains(id),
    {
        self.wf_columns_agree();
        assert forall|id: Id| #[trigger] self.has(id) == self.dense_ids().contains(id) by {
            if self.dense_ids().contains(id) {
                let i = choose|i: int| 0 <= i < self.dense_ids().len() && self.dense_ids()[i] == id;
                assert(self@.contains_key(self.dense_ids()[i].slot_of()));
            }
        }
    }
}

impl<T> ErasedPool for Pool<T> {
    type Row = Entry<T>;

    open spec fn table(&self) -> Map<u32, Entry<T>> {
        self@
    }

    open spec fn erased_size(&self) -> Option<nat> {
        None
    }

    open spec fn erased_wf(&self) -> bool {
        self.wf()
    }

    open spec fn rows(&self) -> Seq<Id> {
        self.dense_ids()
    }

    open spec fn erased_locked(&self) -> bool {
        self.is_locked()
    }

    open spec fn erased_stamp(&self) -> u32 {
        self.stamp()
    }

    fn erased_tick_set(&mut self, tick: u32) {
        self.tick_set(tick);
    }

    fn erased_lock(&mut self) {
        self.lock();
    }

    fn erased_remove(&mut self, id: Id) {
        if !self.locked {
            self.remove(id);
            proof {
                Self::remove_rows(old(self), self, id);
                old(self).has_iff_row();
                assert(old(self).has(id) == old(self).dense_ids().contains(id));
            }
        }
    }

    fn erased_count(&self) -> (r: usize) {
        self.len()
    }

    fn erased_id(&self, i: usize) -> (r: Id) {
        self.ids[i]
    }
}

/// The changed rows are exactly those stamped after the tick, in dense order.
pub proof fn changed_rows_are_the_later_ones(ids: Seq<Id>, ticks: Seq<u32>, tick: u32) -> (at: Seq<
    int,
>)
    requires
        ids.len() == ticks.len(),
    ensures
        changed_after(ids, ticks, tick).len() == at.len(),
        forall|k: int|
            0 <= k < at.len() ==> 0 <= #[trigger] at[k] < ids.len() && changed_after(
                ids,
                ticks,
                tick,
            )[k] == ids[at[k]],
        forall|j: int, k: int| 0 <= j < k < at.len() ==> (#[trigger] at[j]) < (#[trigger] at[k]),
        forall|i: int| 0 <= i < ids.len() ==> (#[trigger] at.contains(i) <==> ticks[i] > tick),
    decreases ids.len(),
{
    if ids.len() == 0 {
        Seq::empty()
    } else {
        let init = ids.drop_last();
        let before = changed_rows_are_the_later_ones(init, ticks.drop_last(), tick);
        let n = ids.len() - 1;
        let at = if ticks.last() > tick {
            before.push(n)
        } else {
            before
        };
        let out = changed_after(ids, ticks, tick);
        assert forall|k: int| 0 <= k < at.len() implies 0 <= #[trigger] at[k] < ids.len() && out[k]
            == ids[at[k]] by {
            if k < before.len() {
                assert(at[k] == before[k]);
                assert(init[before[k]] == ids[at[k]]);
            }
        }
        assert forall|j: int, k: int| 0 <= j < k < at.len() implies (#[trigger] at[j]) < (
        #[trigger] at[k]) by {
            assert(at[j] == before[j]);
            if k < before.len() {
                assert(at[k] == before[k]);
            }
        }
        assert forall|i: int| 0 <= i < ids.len() implies (#[trigger] at.contains(i) <==> ticks[i]
            > tick) by {
            crate::sort::contains_push(before, n, i);
            if i < n {
                assert(before.contains(i) <==> ticks.drop_last()[i] > tick);
            } else if before.contains(i) {
                let k = choose|k: int| 0 <= k < before.len() && before[k] == i;
                assert(before[k] < init.len());
            }
        }
        at
    }
}

/// Removing an id takes exactly its own row: a stale handle takes nothing.
pub proof fn a_removal_takes_its_own_row<R>(table: Map<u32, R>, rows: Seq<Id>, id: Id, slot: u32)
    ensures
        row_removed(table, rows, id).contains_key(slot) <==> table.contains_key(slot) && !(
        rows.contains(id) && slot == id.slot_of()),
        row_removed(table, rows, id).contains_key(slot) ==> row_removed(table, rows, id)[slot]
            == table[slot],
{
}

} // verus!
