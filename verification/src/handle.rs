//! Handles: named access to one pool, and to the single entity of a
//! singleton pool.
//!
//! A handle is a pool's name and its position in the kernel, so it is cheap
//! to copy around and outlives the pool's removal from the store.

use vstd::prelude::*;
use vstd::string::StringExecFns;

use crate::id::Id;
use crate::kernel::{has_pool, has_rows, KernelView, Pm, PoolSlot};
use crate::pool::{Entry, ErasedPool, Pool};
use crate::text::{decimal, push_decimal};

verus! {

/// Why an entity's data could not be reached.
pub enum AccessError {
    /// The pool is borrowed elsewhere right now.
    Busy { pool: String },
    /// The entity has no row in the pool.
    Missing { pool: String, id: Id },
}

impl AccessError {
    /// The message a person reads.
    pub open spec fn said(&self) -> Seq<char> {
        match self {
            AccessError::Busy { pool } => "pool '"@ + pool@ + "' is busy (borrowed elsewhere)"@,
            AccessError::Missing { pool, id } => "entity Id("@ + decimal(id.0 as nat)
                + ") not in pool '"@ + pool@ + "'"@,
        }
    }

    /// The message a person reads.
    pub fn text(&self) -> (r: String)
        ensures
            r@ == self.said(),
    {
        let mut out: String = String::new();
        match self {
            AccessError::Busy { pool } => {
                out.append("pool '");
                out.append(pool.as_str());
                out.append("' is busy (borrowed elsewhere)");
                assert(out@ =~= self.said());
            },
            AccessError::Missing { pool, id } => {
                out.append("entity Id(");
                push_decimal(&mut out, id.0 as u64);
                out.append(") not in pool '");
                out.append(pool.as_str());
                out.append("'");
                assert(out@ =~= self.said());
            },
        }
        out
    }
}

/// A pool whose columns are empty has no row.
proof fn no_rows<T>(pool: Pool<T>)
    requires
        pool.wf(),
        pool.dense_ids().len() == 0,
    ensures
        pool@ == Map::<u32, Entry<T>>::empty(),
{
    pool.wf_columns_agree();
    assert forall|s: u32| !pool@.contains_key(s) by {
        if pool@.contains_key(s) {
            assert(pool.dense_ids().contains(pool@[s].id));
        }
    }
    assert(pool@ =~= Map::<u32, Entry<T>>::empty());
}

/// Handle to a named pool.
pub struct PoolHandle {
    name: String,
    at: usize,
}

impl PoolHandle {
    /// The pool's name.
    pub closed spec fn label(&self) -> Seq<char> {
        self.name@
    }

    /// The pool's position in the kernel.
    pub closed spec fn place(&self) -> nat {
        self.at as nat
    }

    /// The handle belongs to this kernel.
    pub open spec fn of<P: ErasedPool>(&self, pm: Pm<P>) -> bool {
        self.place() < pm@.pools.len() && pm@.pools[self.place() as int].name@ == self.label()
    }

    /// Fetch the handle of a named pool, creating the pool when there is
    /// none.
    pub fn fetch<T>(pm: &mut Pm<Pool<T>>, name: &str) -> (r: PoolHandle)
        requires
            old(pm).wf(),
        ensures
            final(pm).wf(),
            r.label() == name@,
            r.of(*final(pm)),
            final(pm)@.pools[r.place() as int].attached,
            has_pool(old(pm)@.pools, name@) ==> final(pm)@ == old(pm)@,
            !has_pool(old(pm)@.pools, name@) ==> {
                let slot = final(pm)@.pools.last();
                &&& r.place() == old(pm)@.pools.len()
                &&& final(pm)@ == (KernelView { pools: old(pm)@.pools.push(slot), ..old(pm)@ })
                &&& slot.owner == old(pm)@.current_module
                &&& slot.pool@ == Map::<u32, Entry<T>>::empty()
                &&& slot.pool.stamp() == old(pm)@.tick
            },
    {
        let at: usize = pm.pool(name, Pool::new());
        proof {
            if !has_pool(old(pm)@.pools, name@) {
                pm.wf_parts();
                no_rows(pm@.pools.last().pool);
            }
        }
        PoolHandle { name: name.to_owned(), at }
    }

    /// The pool's name.
    pub fn name(&self) -> (r: &str)
        ensures
            r@ == self.label(),
    {
        self.name.as_str()
    }

    /// The whole pool, for reading.
    pub fn get<'a, T>(&self, pm: &'a Pm<Pool<T>>) -> (r: &'a Pool<T>)
        requires
            pm.wf(),
            self.of(*pm),
        ensures
            *r == pm@.pools[self.place() as int].pool,
            r.wf(),
    {
        proof {
            pm.wf_parts();
        }
        pm.pool_at(self.at)
    }

    /// The whole pool, for writing.
    pub fn get_mut<'a, T>(&self, pm: &'a mut Pm<Pool<T>>) -> (r: &'a mut Pool<T>)
        requires
            old(pm).wf(),
            self.of(*old(pm)),
        ensures
            *r == old(pm)@.pools[self.place() as int].pool,
            r.wf(),
            final(pm)@ == (KernelView {
                pools: old(pm)@.pools.update(
                    self.place() as int,
                    PoolSlot { pool: *final(r), ..old(pm)@.pools[self.place() as int] },
                ),
                ..old(pm)@
            }),
            (*final(r)).wf() ==> final(pm).wf(),
    {
        proof {
            pm.wf_parts();
        }
        pm.pool_at_mut(self.at)
    }

    /// As `get`, in the form of the accessors that may fail. The kernel is
    /// borrowed for as long as the pool is, so no pool is ever busy here.
    pub fn try_borrow<'a, T>(&self, pm: &'a Pm<Pool<T>>) -> (r: Result<&'a Pool<T>, AccessError>)
        requires
            pm.wf(),
            self.of(*pm),
        ensures
            r matches Ok(pool) && *pool == pm@.pools[self.place() as int].pool && pool.wf(),
    {
        Ok(self.get(pm))
    }

    /// As `get_mut`, in the form of the accessors that may fail. The kernel
    /// is borrowed for as long as the pool is, so no pool is ever busy here.
    pub fn try_borrow_mut<'a, T>(&self, pm: &'a mut Pm<Pool<T>>) -> (r: Result<
        &'a mut Pool<T>,
        AccessError,
    >)
        requires
            old(pm).wf(),
            self.of(*old(pm)),
        ensures
            r matches Ok(pool) && {
                &&& *pool == old(pm)@.pools[self.place() as int].pool
                &&& pool.wf()
                &&& final(pm)@ == (KernelView {
                    pools: old(pm)@.pools.update(
                        self.place() as int,
                        PoolSlot { pool: *final(pool), ..old(pm)@.pools[self.place() as int] },
                    ),
                    ..old(pm)@
                })
                &&& (*final(pool)).wf() ==> final(pm).wf()
            },
    {
        Ok(self.get_mut(pm))
    }

    /// One entity's value for reading — nothing if it isn't in the pool.
    pub fn get_id<'a, T>(&self, pm: &'a Pm<Pool<T>>, id: Id) -> (r: Option<&'a T>)
        requires
            pm.wf(),
            self.of(*pm),
        ensures
            ({
                let pool = pm@.pools[self.place() as int].pool;
                match r {
                    Some(v) => pool.has(id) && *v == pool@[id.slot_of()].value,
                    None => !pool.has(id),
                }
            }),
    {
        self.get(pm).get(id)
    }

    /// As `get_id`, with a reason when there is nothing.
    pub fn try_get<'a, T>(&self, pm: &'a Pm<Pool<T>>, id: Id) -> (r: Result<&'a T, AccessError>)
        requires
            pm.wf(),
            self.of(*pm),
        ensures
            ({
                let pool = pm@.pools[self.place() as int].pool;
                match r {
                    Ok(v) => pool.has(id) && *v == pool@[id.slot_of()].value,
                    Err(e) => {
                        &&& !pool.has(id)
                        &&& e matches AccessError::Missing { pool: name, id: who } && name@
                            == self.label() && who == id
                    },
                }
            }),
    {
        match self.get(pm).get(id) {
            Some(v) => Ok(v),
            None => Err(AccessError::Missing { pool: self.name.as_str().to_owned(), id }),
        }
    }

    /// One entity for writing — nothing if it isn't in the pool. Looking it
    /// up changes nothing: the row is stamped by writing through the guard.
    pub fn get_id_mut<'a, T>(&self, pm: &'a mut Pm<Pool<T>>, id: Id) -> (r: Option<
        EntryMut<'a, T>,
    >)
        requires
            old(pm).wf(),
            self.of(*old(pm)),
        ensures
            ({
                let before = old(pm)@.pools[self.place() as int];
                match r {
                    Some(guard) => {
                        &&& before.pool.has(id)
                        &&& guard.id == id
                        &&& guard.wf()
                        &&& guard.seen() == before.pool
                        &&& final(pm)@ == (KernelView {
                            pools: old(pm)@.pools.update(
                                self.place() as int,
                                PoolSlot { pool: (*final(guard.pool)), ..before },
                            ),
                            ..old(pm)@
                        })
                        &&& (*final(guard.pool)).wf() ==> final(pm).wf()
                    },
                    None => !before.pool.has(id) && final(pm).wf() && final(pm)@ == old(pm)@,
                }
            }),
    {
        let ghost before = pm@;
        let pool: &'a mut Pool<T> = self.get_mut(pm);
        if pool.contains(id) {
            Some(EntryMut { pool, id })
        } else {
            assert(before.pools.update(self.place() as int, before.pools[self.place() as int])
                =~= before.pools);
            None
        }
    }

    /// One entity's value for writing, with a reason when there is nothing.
    /// The row is stamped at once.
    pub fn try_mut<'a, T>(&self, pm: &'a mut Pm<Pool<T>>, id: Id) -> (r: Result<
        &'a mut T,
        AccessError,
    >)
        requires
            old(pm).wf(),
            self.of(*old(pm)),
        ensures
            final(pm).wf(),
            ({
                let before = old(pm)@.pools[self.place() as int];
                let after = final(pm)@.pools[self.place() as int];
                &&& final(pm)@ == (KernelView {
                    pools: old(pm)@.pools.update(self.place() as int, after),
                    ..old(pm)@
                })
                &&& after.name == before.name && after.owner == before.owner && after.attached
                    == before.attached
                &&& after.pool.stamp() == before.pool.stamp()
                &&& after.pool.is_locked() == before.pool.is_locked()
                &&& after.pool.dense_ids() == before.pool.dense_ids()
                &&& match r {
                    Ok(v) => {
                        &&& before.pool.has(id)
                        &&& *v == before.pool@[id.slot_of()].value
                        &&& after.pool@ == before.pool@.insert(
                            id.slot_of(),
                            Entry { id, value: *final(v), tick: before.pool.stamp() },
                        )
                    },
                    Err(e) => {
                        &&& !before.pool.has(id)
                        &&& after.pool@ == before.pool@
                        &&& e matches AccessError::Missing { pool: name, id: who } && name@
                            == self.label() && who == id
                    },
                }
            }),
    {
        match self.get_mut(pm).get_mut(id) {
            Some(v) => Ok(v),
            None => Err(AccessError::Missing { pool: self.name.as_str().to_owned(), id }),
        }
    }
}

/// Write guard for one entity. Reads through it are free; a write stamps the
/// row with the pool's current tick.
pub struct EntryMut<'a, T> {
    /// The entity's pool.
    pub pool: &'a mut Pool<T>,
    /// The entity.
    pub id: Id,
}

impl<'a, T> EntryMut<'a, T> {
    /// The pool as the guard sees it.
    pub open spec fn seen(&self) -> Pool<T> {
        *self.pool
    }

    /// The pool is well-formed and holds the entity.
    pub open spec fn wf(&self) -> bool {
        self.seen().wf() && self.seen().has(self.id)
    }

    /// The entity's value, for reading.
    pub fn get(&self) -> (r: &T)
        requires
            self.wf(),
        ensures
            *r == self.seen()@[self.id.slot_of()].value,
    {
        self.pool.get(self.id).unwrap()
    }

    /// The entity's value, for writing; the row is stamped.
    pub fn get_mut(&mut self) -> (r: &mut T)
        requires
            old(self).wf(),
        ensures
            final(self).wf(),
            final(self).id == old(self).id,
            *final(final(self).pool) == *final(old(self).pool),
            *r == old(self).seen()@[old(self).id.slot_of()].value,
            final(self).seen()@ == old(self).seen()@.insert(
                old(self).id.slot_of(),
                Entry { id: old(self).id, value: *final(r), tick: old(self).seen().stamp() },
            ),
            final(self).seen().stamp() == old(self).seen().stamp(),
            final(self).seen().is_locked() == old(self).seen().is_locked(),
            final(self).seen().dense_ids() == old(self).seen().dense_ids(),
    {
        self.pool.get_mut(self.id).unwrap()
    }
}

/// Handle to a named singleton: one entity in an ordinary pool. Its one
/// entity always exists — created with the handle and protected by a pool
/// lock — so reads hand back the value directly.
pub struct SingleHandle {
    handle: PoolHandle,
    id: Id,
}

impl SingleHandle {
    /// The singleton's entity.
    pub closed spec fn who(&self) -> Id {
        self.id
    }

    /// The pool handle underneath.
    pub closed spec fn under(&self) -> PoolHandle {
        self.handle
    }

    /// The handle belongs to this kernel and its entity is there.
    pub open spec fn of<T>(&self, pm: Pm<Pool<T>>) -> bool {
        self.under().of(pm) && pm@.pools[self.under().place() as int].pool.has(self.who())
    }

    /// Fetch the singleton of this name; when there is none it starts out as
    /// `value`. The pool is locked against the removal flush.
    pub fn fetch<T>(pm: &mut Pm<Pool<T>>, name: &str, value: T) -> (r: SingleHandle)
        requires
            old(pm).wf(),
            has_rows(old(pm)@.pools, name@) || old(pm)@.ids.has_room(old(pm)@.local_peer),
        ensures
            final(pm).wf(),
            r.of(*final(pm)),
            r.under().label() == name@,
            final(pm)@.pools[r.under().place() as int].attached,
            ({
                let pool = final(pm)@.pools[r.under().place() as int].pool;
                if has_rows(old(pm)@.pools, name@) {
                    r.who() == pool.dense_ids()[0] && final(pm)@ == old(pm)@
                } else {
                    &&& final(pm)@ == (KernelView {
                        pools: final(pm)@.pools,
                        ids: final(pm)@.ids,
                        ..old(pm)@
                    })
                    &&& final(pm)@.pools.len() == if has_pool(old(pm)@.pools, name@) {
                        old(pm)@.pools.len()
                    } else {
                        old(pm)@.pools.len() + 1
                    }
                    &&& forall|i: int|
                        0 <= i < old(pm)@.pools.len() && i != r.under().place() ==> (
                        #[trigger] final(pm)@.pools[i]) == old(pm)@.pools[i]
                    &&& r.who() == old(pm)@.ids.next_id(old(pm)@.local_peer)
                    &&& final(pm)@.ids == old(pm)@.ids.add(old(pm)@.local_peer)
                    &&& pool.is_locked()
                    &&& pool@ == Map::<u32, Entry<T>>::empty().insert(
                        r.who().slot_of(),
                        Entry { id: r.who(), value, tick: pool.stamp() },
                    )
                }
            }),
    {
        let (at, id, fresh): (usize, Id, bool) = pm.single(name, Pool::new());
        let handle = PoolHandle { name: name.to_owned(), at };
        let ghost mid = *pm;
        proof {
            mid.wf_parts();
            old(pm).wf_parts();
            let pool = mid@.pools[at as int].pool;
            if fresh {
                no_rows(pool);
                assert(!has_rows(old(pm)@.pools, name@)) by {
                    if has_rows(old(pm)@.pools, name@) {
                        let i = choose|i: int|
                            0 <= i < old(pm)@.pools.len() && (#[trigger] old(pm)@.pools[i]).attached
                                && old(pm)@.pools[i].name@ == name@
                                && old(pm)@.pools[i].pool.rows().len() > 0;
                        assert(has_pool(old(pm)@.pools, name@));
                        assert(mid@.pools == old(pm)@.pools);
                        assert(mid@.pools[i].attached && mid@.pools[at as int].attached);
                        assert(i == at);
                    }
                }
            } else {
                assert(has_rows(old(pm)@.pools, name@)) by {
                    assert(has_pool(old(pm)@.pools, name@));
                    assert(old(pm)@.pools[at as int] == mid@.pools[at as int]);
                }
            }
        }
        if fresh {
            let pool: &mut Pool<T> = handle.get_mut(pm);
            pool.add(id, value);
            pool.lock();
        } else {
            proof {
                let pool = mid@.pools[at as int].pool;
                pool.wf_columns_agree();
                assert(pool.dense_ids()[0] == id);
            }
        }
        SingleHandle { handle, id }
    }

    /// The singleton's entity.
    pub fn id(&self) -> (r: Id)
        ensures
            r == self.who(),
    {
        self.id
    }

    /// The pool handle underneath, to register it for sync.
    pub fn pool(&self) -> (r: &PoolHandle)
        ensures
            *r == self.under(),
    {
        &self.handle
    }

    /// The singleton's value.
    pub fn get<'a, T>(&self, pm: &'a Pm<Pool<T>>) -> (r: &'a T)
        requires
            pm.wf(),
            self.of(*pm),
        ensures
            *r == pm@.pools[self.under().place() as int].pool@[self.who().slot_of()].value,
    {
        self.handle.get(pm).get(self.id).unwrap()
    }

    /// The singleton's value, with a reason when its entity is gone.
    pub fn try_get<'a, T>(&self, pm: &'a Pm<Pool<T>>) -> (r: Result<&'a T, AccessError>)
        requires
            pm.wf(),
            self.under().of(*pm),
        ensures
            ({
                let pool = pm@.pools[self.under().place() as int].pool;
                match r {
                    Ok(v) => pool.has(self.who()) && *v == pool@[self.who().slot_of()].value,
                    Err(e) => {
                        &&& !pool.has(self.who())
                        &&& e matches AccessError::Missing { pool: name, id: who } && name@
                            == self.under().label() && who == self.who()
                    },
                }
            }),
    {
        self.handle.try_get(pm, self.id)
    }

    /// The singleton's value for writing, with a reason when its entity is
    /// gone. The row is stamped at once.
    pub fn try_mut<'a, T>(&self, pm: &'a mut Pm<Pool<T>>) -> (r: Result<&'a mut T, AccessError>)
        requires
            old(pm).wf(),
            self.under().of(*old(pm)),
        ensures
            final(pm).wf(),
            ({
                let at = self.under().place() as int;
                let before = old(pm)@.pools[at];
                let after = final(pm)@.pools[at];
                let who = self.who();
                &&& final(pm)@ == (KernelView {
                    pools: old(pm)@.pools.update(at, after),
                    ..old(pm)@
                })
                &&& after.name == before.name && after.owner == before.owner && after.attached
                    == before.attached
                &&& after.pool.stamp() == before.pool.stamp()
                &&& after.pool.is_locked() == before.pool.is_locked()
                &&& after.pool.dense_ids() == before.pool.dense_ids()
                &&& match r {
                    Ok(v) => {
                        &&& before.pool.has(who)
                        &&& *v == before.pool@[who.slot_of()].value
                        &&& after.pool@ == before.pool@.insert(
                            who.slot_of(),
                            Entry { id: who, value: *final(v), tick: before.pool.stamp() },
                        )
                    },
                    Err(e) => {
                        &&& !before.pool.has(who)
                        &&& after.pool@ == before.pool@
                        &&& e matches AccessError::Missing { pool: name, id } && name@
                            == self.under().label() && id == who
                    },
                }
            }),
    {
        self.handle.try_mut(pm, self.id)
    }

    /// The singleton for writing. Taking the guard changes nothing: the row
    /// is stamped by writing through it, so a singleton only read stays off
    /// the wire.
    pub fn get_mut<'a, T>(&self, pm: &'a mut Pm<Pool<T>>) -> (r: EntryMut<'a, T>)
        requires
            old(pm).wf(),
            self.of(*old(pm)),
        ensures
            ({
                let at = self.under().place() as int;
                &&& r.id == self.who()
                &&& r.wf()
                &&& r.seen() == old(pm)@.pools[at].pool
                &&& final(pm)@ == (KernelView {
                    pools: old(pm)@.pools.update(
                        at,
                        PoolSlot { pool: (*final(r.pool)), ..old(pm)@.pools[at] },
                    ),
                    ..old(pm)@
                })
                &&& (*final(r.pool)).wf() ==> final(pm).wf()
            }),
    {
        EntryMut { pool: self.handle.get_mut(pm), id: self.id }
    }
}

} // verus!
