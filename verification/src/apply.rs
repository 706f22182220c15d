//! The receiving side of replication: applying snapshots into registered
//! pools. Removals go through the kernel's normal deferred path; ids foreign
//! to this peer are never recycled locally.

use vstd::prelude::*;

use crate::converge::writes;
use crate::delta::{table_of, WirePool, WireRow};
use crate::id::{Id, IdSpace};
use crate::kernel::{KernelView, Pm};
use crate::net::{sync_fits, SyncRow};
use crate::reg::{key_of, pool_key};
use crate::snapshot::{
    after_chunks, chunks, owner_of_part, parse, parse_body, parse_sections, removal_op, row_op,
    row_ops, Header, Op,
};
use crate::wire::{NetError, Reader};

verus! {

/// What a successfully applied snapshot tells the client.
#[derive(Debug)]
pub struct Applied {
    /// Snapshot tick label; goes back with the ack.
    pub tick: u32,
    /// Send sequence — the ack to send back.
    pub seq: u32,
    /// Last input sequence the server processed for this peer — the
    /// reconciliation point for client-side prediction.
    pub input_seq: u32,
    /// Which peer controls which entity, ascending by peer.
    pub owners: Vec<(u8, Id)>,
}

impl View for Applied {
    type V = Header;

    open spec fn view(&self) -> Header {
        Header {
            tick: self.tick,
            seq: self.seq,
            input_seq: self.input_seq,
            owners: self.owners@,
        }
    }
}

/// The part of a world replication writes: ids, pending removals and the
/// rows of every pool, with the tick each pool stamps changes with.
#[verifier::ext_equal]
pub struct Replica {
    pub ids: IdSpace,
    pub pending: Seq<Id>,
    pub tables: Seq<Map<u32, WireRow>>,
    pub stamps: Seq<u32>,
}

/// The replicated part of a kernel.
pub open spec fn replica_of<P: WirePool>(k: KernelView<P>) -> Replica {
    Replica {
        ids: k.ids,
        pending: k.pending_removes,
        tables: k.pools.map_values(|s: crate::kernel::PoolSlot<P>| table_of(s.pool.wire())),
        stamps: k.pools.map_values(|s: crate::kernel::PoolSlot<P>| s.pool.erased_stamp()),
    }
}

/// Carry out one request: a removal is queued if the entity is alive; a
/// write revives the entity under that handle and stores its row.
pub open spec fn step(r: Replica, op: Op) -> Replica {
    match op {
        Op::Remove(id) => if r.ids.alive(id) {
            Replica { pending: r.pending.push(id), ..r }
        } else {
            r
        },
        Op::Upsert(at, id, value) => Replica {
            ids: r.ids.sync(id),
            tables: r.tables.update(
                at,
                r.tables[at].insert(id.slot_of(), WireRow { id, tick: r.stamps[at], value }),
            ),
            ..r
        },
    }
}

/// Carry out requests in order.
pub open spec fn replay(r: Replica, ops: Seq<Op>) -> Replica
    decreases ops.len(),
{
    if ops.len() == 0 {
        r
    } else {
        step(replay(r, ops.drop_last()), ops.last())
    }
}

/// One request more.
pub proof fn replay_push(r: Replica, ops: Seq<Op>, op: Op)
    ensures
        replay(r, ops.push(op)) == step(replay(r, ops), op),
{
    assert(ops.push(op).drop_last() =~= ops);
}

/// Requests in two batches.
pub proof fn replay_concat(r: Replica, a: Seq<Op>, b: Seq<Op>)
    ensures
        replay(r, a + b) == replay(replay(r, a), b),
    decreases b.len(),
{
    if b.len() == 0 {
        assert(a + b =~= a);
    } else {
        assert((a + b).drop_last() =~= a + b.drop_last());
        replay_concat(r, a, b.drop_last());
    }
}

/// Replication writes rows, ids and pending removals; everything else of the
/// kernel — the pools' names, owners, locks, stamps and value sizes — stays.
pub open spec fn same_shape<P: WirePool>(a: KernelView<P>, b: KernelView<P>) -> bool {
    &&& b == KernelView {
        ids: b.ids,
        pending_removes: b.pending_removes,
        pools: b.pools,
        ..a
    }
    &&& b.pools.len() == a.pools.len()
    &&& forall|i: int|
        0 <= i < a.pools.len() ==> {
            &&& (#[trigger] b.pools[i]).name == a.pools[i].name
            &&& b.pools[i].owner == a.pools[i].owner
            &&& b.pools[i].attached == a.pools[i].attached
            &&& b.pools[i].pool.wire().size == a.pools[i].pool.wire().size
            &&& b.pools[i].pool.erased_locked() == a.pools[i].pool.erased_locked()
            &&& b.pools[i].pool.erased_stamp() == a.pools[i].pool.erased_stamp()
        }
}

/// Position of the first registered pool under a wire key.
pub open spec fn keyed_at(sync: Seq<SyncRow>, key: u16) -> Option<int>
    decreases sync.len(),
{
    if sync.len() == 0 {
        None
    } else if key_of(sync[0].name@) == key {
        Some(0int)
    } else {
        match keyed_at(sync.drop_first(), key) {
            Some(i) => Some(i + 1),
            None => None,
        }
    }
}

/// Where a wire key leads: the pool's position and value size.
pub open spec fn finder<P: WirePool>(
    k: KernelView<P>,
    sync: Seq<SyncRow>,
) -> spec_fn(u16) -> Option<(int, nat)> {
    |key: u16|
        match keyed_at(sync, key) {
            Some(i) => Some((sync[i].at as int, k.pools[sync[i].at as int].pool.wire().size)),
            None => None,
        }
}

/// Client side: applies snapshots into registered pools.
pub struct NetClient {
    sync: Vec<SyncRow>,
}

impl View for NetClient {
    type V = Seq<SyncRow>;

    closed spec fn view(&self) -> Seq<SyncRow> {
        self.sync@
    }
}

/// Carry out `count` row writes for one pool.
fn apply_rows<P: WirePool>(pm: &mut Pm<P>, at: usize, count: u32, r: &mut Reader) -> (res: Result<
    (),
    NetError,
>)
    requires
        old(pm).wf(),
        old(r).wf(),
        at < old(pm)@.pools.len(),
    ensures
        final(pm).wf(),
        final(r).wf(),
        same_shape(old(pm)@, final(pm)@),
        ({
            let e = (4 + old(pm)@.pools[at as int].pool.wire().size) as nat;
            let rows = chunks(old(r)@, e, count as nat);
            &&& replica_of(final(pm)@) == replay(
                replica_of(old(pm)@),
                row_ops(at as int, rows),
            )
            &&& res is Ok <==> rows.len() == count
            &&& res is Ok ==> final(r)@ == after_chunks(old(r)@, e, count as nat)
            &&& res matches Err(err) ==> err == NetError::Truncated && rows.len() < count
        }),
{
    proof {
        pm.wf_parts();
        assert(pm@.pools[at as int].pool.erased_wf());
        pm@.pools[at as int].pool.wire_wf();
    }
    let size: usize = pm.pool_at(at).value_size();
    let ghost k0 = pm@;
    let ghost r0 = replica_of(k0);
    let ghost e = (4 + k0.pools[at as int].pool.wire().size) as nat;
    let ghost data = r@;
    let ghost rows = chunks(data, e, count as nat);
    let mut i: u32 = 0;
    let ghost mut done: Seq<Seq<u8>> = Seq::empty();
    proof {
        assert(done + chunks(r@, e, count as nat) =~= rows);
        assert(row_ops(at as int, done) =~= Seq::<Op>::empty());
    }
    while i < count
        invariant
            pm.wf(),
            r.wf(),
            at < k0.pools.len(),
            k0 == old(pm)@,
            data == old(r)@,
            r0 == replica_of(k0),
            same_shape(k0, pm@),
            e == 4 + k0.pools[at as int].pool.wire().size,
            size == k0.pools[at as int].pool.wire().size,
            rows == chunks(data, e, count as nat),
            i <= count,
            done.len() == i,
            rows == done + chunks(r@, e, (count - i) as nat),
            after_chunks(data, e, count as nat) == after_chunks(r@, e, (count - i) as nat),
            replica_of(pm@) == replay(r0, row_ops(at as int, done)),
        decreases count - i,
    {
        let ghost cur = r@;
        let id: Id = match r.u32() {
            Ok(x) => Id(x),
            Err(err) => {
                assert(chunks(cur, e, (count - i) as nat) =~= Seq::<Seq<u8>>::empty());
                assert(rows =~= done);
                return Err(err);
            },
        };
        let value: Vec<u8> = match r.bytes(size) {
            Ok(v) => v,
            Err(err) => {
                assert(chunks(cur, e, (count - i) as nat) =~= Seq::<Seq<u8>>::empty());
                assert(rows =~= done);
                return Err(err);
            },
        };
        let ghost c = cur.take(e as int);
        let ghost before = pm@;
        proof {
            assert(c.take(4) =~= cur.subrange(0, 4));
            assert(c.skip(4) =~= value@);
            assert(r@ =~= cur.skip(e as int));
            assert(row_op(at as int, c) == Op::Upsert(at as int, id, value@));
            assert(chunks(cur, e, (count - i) as nat) =~= seq![c] + chunks(
                r@,
                e,
                (count - i - 1) as nat,
            ));
            assert(row_ops(at as int, done.push(c)) =~= row_ops(at as int, done).push(
                row_op(at as int, c),
            ));
            replay_push(r0, row_ops(at as int, done), row_op(at as int, c));
        }
        pm.id_sync(id);
        proof {
            pm.wf_parts();
            assert(pm@.pools[at as int].pool.erased_wf());
        }
        pm.pool_at_mut(at).wire_add(id, value.as_slice());
        proof {
            done = done.push(c);
            assert(rows =~= done + chunks(r@, e, (count - i - 1) as nat));
            let want = step(replica_of(before), Op::Upsert(at as int, id, value@));
            let got = replica_of(pm@);
            assert(got.tables =~= want.tables);
            assert(got.stamps =~= want.stamps);
            assert(got =~= want);
        }
        i += 1;
    }
    assert(rows =~= done);
    Ok(())
}

impl NetClient {
    /// A client with nothing registered.
    pub fn new() -> (r: Self)
        ensures
            r@ == Seq::<SyncRow>::empty(),
    {
        NetClient { sync: Vec::new() }
    }

    /// A client around an already-populated sync set.
    pub fn with_sync(sync: Vec<SyncRow>) -> (r: Self)
        ensures
            r@ == sync@,
    {
        NetClient { sync }
    }

    /// Replicate into the pool at a position of the kernel under a wire
    /// name.
    pub fn pool_sync(&mut self, name: &str, at: usize)
        ensures
            final(self)@.len() == old(self)@.len() + 1,
            final(self)@.drop_last() == old(self)@,
            final(self)@.last().name@ == name@,
            final(self)@.last().at == at,
    {
        self.sync.push(SyncRow { name: name.to_owned(), at });
        assert(self@.drop_last() =~= old(self)@);
    }

    /// The registered pool under a wire key, looked up by name hash so
    /// registration order is irrelevant.
    fn by_key(&self, key: u16) -> (r: Option<usize>)
        ensures
            match r {
                Some(i) => i < self@.len() && keyed_at(self@, key) == Some(i as int),
                None => keyed_at(self@, key) is None,
            },
    {
        let mut i: usize = 0;
        assert(self@.skip(0) =~= self@);
        while i < self.sync.len()
            invariant
                i <= self@.len(),
                keyed_at(self@, key) == match keyed_at(self@.skip(i as int), key) {
                    Some(j) => Some(j + i),
                    None => None,
                },
            decreases self@.len() - i,
        {
            assert(self@.skip(i as int).drop_first() =~= self@.skip(i + 1));
            if pool_key(self.sync[i].name.as_str()) == key {
                return Some(i);
            }
            i += 1;
        }
        None
    }

    /// Apply a snapshot; returns its header: the ack to send back, the
    /// server's input-sequence echo and the owner table. On an error, what
    /// came before it stays applied.
    pub fn apply<P: WirePool>(&self, pm: &mut Pm<P>, snapshot: &[u8]) -> (r: Result<
        Applied,
        NetError,
    >)
        requires
            old(pm).wf(),
            sync_fits(old(pm)@, self@),
        ensures
            final(pm).wf(),
            same_shape(old(pm)@, final(pm)@),
            ({
                let read = parse(snapshot@, finder(old(pm)@, self@));
                &&& replica_of(final(pm)@) == replay(replica_of(old(pm)@), read.0)
                &&& match r {
                    Ok(a) => read.1 == Ok::<Header, NetError>(a@),
                    Err(e) => read.1 == Err::<Header, NetError>(e),
                }
            }),
    {
        let mut r: Reader = Reader::new(snapshot);
        let ghost data = snapshot@;
        let tick: u32 = match r.u32() {
            Ok(x) => x,
            Err(e) => {
                return Err(e);
            },
        };
        assert(r@ =~= data.skip(4));
        let seq: u32 = match r.u32() {
            Ok(x) => x,
            Err(e) => {
                return Err(e);
            },
        };
        assert(r@ =~= data.skip(8));
        assert(data.skip(4).subrange(0, 4) =~= data.subrange(4, 8));
        let input_seq: u32 = match r.u32() {
            Ok(x) => x,
            Err(e) => {
                return Err(e);
            },
        };
        assert(r@ =~= data.skip(12));
        assert(data.skip(8).subrange(0, 4) =~= data.subrange(8, 12));
        let n: u8 = match r.u8() {
            Ok(x) => x,
            Err(e) => {
                return Err(e);
            },
        };
        assert(r@ =~= data.skip(13));
        let owners: Vec<(u8, Id)> = match read_owners(&mut r, n) {
            Ok(v) => v,
            Err(e) => {
                return Err(e);
            },
        };
        match self.apply_body(pm, &mut r) {
            Ok(()) => Ok(Applied { tick, seq, input_seq, owners }),
            Err(e) => Err(e),
        }
    }

    /// Apply the removals and the sections.
    fn apply_body<P: WirePool>(&self, pm: &mut Pm<P>, r: &mut Reader) -> (res: Result<
        (),
        NetError,
    >)
        requires
            old(pm).wf(),
            old(r).wf(),
            sync_fits(old(pm)@, self@),
        ensures
            final(pm).wf(),
            final(r).wf(),
            same_shape(old(pm)@, final(pm)@),
            ({
                let read = parse_body(old(r)@, finder(old(pm)@, self@));
                &&& replica_of(final(pm)@) == replay(replica_of(old(pm)@), read.0)
                &&& match res {
                    Ok(()) => read.1 is None,
                    Err(e) => read.1 == Some(e),
                }
            }),
    {
        let ghost data = r@;
        let ghost k0 = pm@;
        let ghost r0 = replica_of(k0);
        let count: u32 = match r.u32() {
            Ok(x) => x,
            Err(e) => {
                return Err(e);
            },
        };
        assert(r@ =~= data.skip(4));
        let ghost ids = chunks(data.skip(4), 4, count as nat);
        let ghost f = |c: Seq<u8>| removal_op(c);
        let ghost ops = ids.map_values(f);
        match apply_removals(pm, count, r) {
            Ok(()) => {},
            Err(e) => {
                return Err(e);
            },
        }
        let ghost rest = r@;
        let sections: u16 = match r.u16() {
            Ok(x) => x,
            Err(e) => {
                return Err(e);
            },
        };
        assert(r@ =~= rest.skip(2));
        let ghost k1 = pm@;
        let ghost tail = parse_sections(r@, sections as nat, finder(k0, self@));
        proof {
            replay_concat(r0, ops, tail.0);
            same_finder(k0, k1, self@);
        }
        self.apply_sections(pm, sections, r)
    }

    /// Apply this many sections.
    fn apply_sections<P: WirePool>(&self, pm: &mut Pm<P>, sections: u16, r: &mut Reader) -> (res:
        Result<(), NetError>)
        requires
            old(pm).wf(),
            old(r).wf(),
            sync_fits(old(pm)@, self@),
        ensures
            final(pm).wf(),
            final(r).wf(),
            same_shape(old(pm)@, final(pm)@),
            ({
                let read = parse_sections(old(r)@, sections as nat, finder(old(pm)@, self@));
                &&& replica_of(final(pm)@) == replay(replica_of(old(pm)@), read.0)
                &&& match res {
                    Ok(()) => read.1 is None,
                    Err(e) => read.1 == Some(e),
                }
            }),
    {
        let ghost k0 = pm@;
        let ghost r0 = replica_of(k0);
        let ghost find = finder(k0, self@);
        let ghost all = parse_sections(r@, sections as nat, find);
        let ghost mut done: Seq<Op> = Seq::empty();
        let mut i: u16 = 0;
        proof {
            assert(done + all.0 =~= all.0);
        }
        while i < sections
            invariant
                pm.wf(),
                r.wf(),
                k0 == old(pm)@,
                r0 == replica_of(k0),
                find == finder(k0, self@),
                sync_fits(k0, self@),
                same_shape(k0, pm@),
                i <= sections,
                all == parse_sections(old(r)@, sections as nat, find),
                all == (
                    done + parse_sections(r@, (sections - i) as nat, find).0,
                    parse_sections(r@, (sections - i) as nat, find).1,
                ),
                replica_of(pm@) == replay(r0, done),
            decreases sections - i,
        {
            let ghost cur = r@;
            let ghost left = parse_sections(cur, (sections - i) as nat, find);
            let key: u16 = match r.u16() {
                Ok(x) => x,
                Err(e) => {
                    assert(done + left.0 =~= done);
                    return Err(e);
                },
            };
            let count: u32 = match r.u32() {
                Ok(x) => x,
                Err(e) => {
                    assert(done + left.0 =~= done);
                    return Err(e);
                },
            };
            assert(cur.skip(2).subrange(0, 4) =~= cur.subrange(2, 6));
            assert(r@ =~= cur.skip(6));
            let at: usize = match self.by_key(key) {
                Some(j) => self.sync[j].at,
                None => {
                    assert(done + left.0 =~= done);
                    return Err(NetError::UnknownPool(key));
                },
            };
            let ghost before = pm@;
            let ghost size = k0.pools[at as int].pool.wire().size;
            let ghost rows = chunks(r@, (4 + size) as nat, count as nat);
            proof {
                let j = keyed_at(self@, key)->0;
                assert(self@[j].at < k0.pools.len());
                assert(before.pools[at as int].pool.wire().size == size);
                assert(find(key) == Some((at as int, size)));
                replay_concat(r0, done, row_ops(at as int, rows));
            }
            match apply_rows(pm, at, count, r) {
                Ok(()) => {},
                Err(e) => {
                    return Err(e);
                },
            }
            proof {
                let next = parse_sections(r@, (sections - i - 1) as nat, find);
                assert(left.0 =~= row_ops(at as int, rows) + next.0);
                done = done + row_ops(at as int, rows);
                assert(all.0 =~= done + next.0);
            }
            i += 1;
        }
        assert(done + parse_sections(r@, 0, find).0 =~= done);
        Ok(())
    }
}

/// A world of the same shape resolves wire keys the same way.
pub proof fn same_finder<P: WirePool>(a: KernelView<P>, b: KernelView<P>, sync: Seq<SyncRow>)
    requires
        same_shape(a, b),
        sync_fits(a, sync),
    ensures
        finder(a, sync) == finder(b, sync),
        sync_fits(b, sync),
{
    assert forall|key: u16| #[trigger] finder(a, sync)(key) == finder(b, sync)(key) by {
        keyed_at_in_range(sync, key);
        if let Some(i) = keyed_at(sync, key) {
            assert(sync[i].at < a.pools.len());
            assert(b.pools[sync[i].at as int].pool.wire().size == a.pools[sync[i].at
                as int].pool.wire().size);
        }
    }
    assert(finder(a, sync) =~= finder(b, sync));
}

/// A key found is found in range.
pub proof fn keyed_at_in_range(sync: Seq<SyncRow>, key: u16)
    ensures
        keyed_at(sync, key) matches Some(i) ==> 0 <= i < sync.len() && key_of(sync[i].name@)
            == key,
    decreases sync.len(),
{
    if sync.len() > 0 && key_of(sync[0].name@) != key {
        keyed_at_in_range(sync.drop_first(), key);
    }
}

/// Read an owner table of `n` rows.
fn read_owners(r: &mut Reader, n: u8) -> (res: Result<Vec<(u8, Id)>, NetError>)
    requires
        old(r).wf(),
    ensures
        final(r).wf(),
        ({
            let parts = chunks(old(r)@, 5, n as nat);
            match res {
                Ok(v) => parts.len() == n && final(r)@ == after_chunks(old(r)@, 5, n as nat)
                    && v@ == parts.map_values(|c: Seq<u8>| owner_of_part(c)),
                Err(e) => parts.len() < n && e == NetError::Truncated,
            }
        }),
{
    let ghost data = r@;
    let ghost f = |c: Seq<u8>| owner_of_part(c);
    let ghost parts = chunks(data, 5, n as nat);
    let mut out: Vec<(u8, Id)> = Vec::new();
    let mut i: u8 = 0;
    let ghost mut done: Seq<Seq<u8>> = Seq::empty();
    proof {
        assert(done + parts =~= parts);
        assert(out@ =~= done.map_values(f));
    }
    while i < n
        invariant
            r.wf(),
            data == old(r)@,
            f == (|c: Seq<u8>| owner_of_part(c)),
            parts == chunks(data, 5, n as nat),
            i <= n,
            done.len() == i,
            parts == done + chunks(r@, 5, (n - i) as nat),
            after_chunks(data, 5, n as nat) == after_chunks(r@, 5, (n - i) as nat),
            out@ == done.map_values(f),
        decreases n - i,
    {
        let ghost cur = r@;
        let peer: u8 = match r.u8() {
            Ok(x) => x,
            Err(e) => {
                assert(chunks(cur, 5, (n - i) as nat) =~= Seq::<Seq<u8>>::empty());
                return Err(e);
            },
        };
        let id: u32 = match r.u32() {
            Ok(x) => x,
            Err(e) => {
                assert(chunks(cur, 5, (n - i) as nat) =~= Seq::<Seq<u8>>::empty());
                return Err(e);
            },
        };
        out.push((peer, Id(id)));
        proof {
            let c = cur.take(5);
            assert(c.skip(1) =~= cur.skip(1).subrange(0, 4));
            assert(r@ =~= cur.skip(5));
            assert(chunks(cur, 5, (n - i) as nat) =~= seq![c] + chunks(
                r@,
                5,
                (n - i - 1) as nat,
            ));
            assert(done.push(c).map_values(f) =~= done.map_values(f).push(owner_of_part(c)));
            done = done.push(c);
            assert(parts =~= done + chunks(r@, 5, (n - i - 1) as nat));
        }
        i += 1;
    }
    assert(parts =~= done);
    Ok(out)
}

/// Queue `count` removals; entities already gone are skipped.
fn apply_removals<P: WirePool>(pm: &mut Pm<P>, count: u32, r: &mut Reader) -> (res: Result<
    (),
    NetError,
>)
    requires
        old(pm).wf(),
        old(r).wf(),
    ensures
        final(pm).wf(),
        final(r).wf(),
        same_shape(old(pm)@, final(pm)@),
        ({
            let parts = chunks(old(r)@, 4, count as nat);
            &&& replica_of(final(pm)@) == replay(
                replica_of(old(pm)@),
                parts.map_values(|c: Seq<u8>| removal_op(c)),
            )
            &&& match res {
                Ok(()) => parts.len() == count && final(r)@ == after_chunks(
                    old(r)@,
                    4,
                    count as nat,
                ),
                Err(e) => parts.len() < count && e == NetError::Truncated,
            }
        }),
{
    let ghost data = r@;
    let ghost k0 = pm@;
    let ghost r0 = replica_of(k0);
    let ghost f = |c: Seq<u8>| removal_op(c);
    let ghost parts = chunks(data, 4, count as nat);
    let mut i: u32 = 0;
    let ghost mut done: Seq<Seq<u8>> = Seq::empty();
    proof {
        assert(done + parts =~= parts);
        assert(done.map_values(f) =~= Seq::<Op>::empty());
    }
    while i < count
        invariant
            pm.wf(),
            r.wf(),
            data == old(r)@,
            k0 == old(pm)@,
            r0 == replica_of(k0),
            same_shape(k0, pm@),
            f == (|c: Seq<u8>| removal_op(c)),
            parts == chunks(data, 4, count as nat),
            i <= count,
            done.len() == i,
            parts == done + chunks(r@, 4, (count - i) as nat),
            after_chunks(data, 4, count as nat) == after_chunks(r@, 4, (count - i) as nat),
            replica_of(pm@) == replay(r0, done.map_values(f)),
        decreases count - i,
    {
        let ghost cur = r@;
        let id: Id = match r.u32() {
            Ok(x) => Id(x),
            Err(e) => {
                assert(chunks(cur, 4, (count - i) as nat) =~= Seq::<Seq<u8>>::empty());
                assert(parts =~= done);
                return Err(e);
            },
        };
        let ghost before = pm@;
        let ghost c = cur.take(4);
        proof {
            assert(r@ =~= cur.skip(4));
            assert(chunks(cur, 4, (count - i) as nat) =~= seq![c] + chunks(
                r@,
                4,
                (count - i - 1) as nat,
            ));
            assert(done.push(c).map_values(f) =~= done.map_values(f).push(removal_op(c)));
            replay_push(r0, done.map_values(f), removal_op(c));
        }
        if pm.id_alive(id) {
            pm.id_remove(id);
        }
        proof {
            done = done.push(c);
            assert(parts =~= done + chunks(r@, 4, (count - i - 1) as nat));
            assert(replica_of(pm@) =~= step(replica_of(before), Op::Remove(id)));
        }
        i += 1;
    }
    assert(parts =~= done);
    Ok(())
}

/// The request at `k` is the last to write the slot; -1 where none does.
pub open spec fn last_written(ops: Seq<Op>, k: int, at: int, slot: u32) -> bool {
    &&& -1 <= k < ops.len()
    &&& k >= 0 ==> writes(ops[k], at, slot)
    &&& forall|j: int| k < j < ops.len() ==> !writes(#[trigger] ops[j], at, slot)
}

/// The last write to a slot stands, stamped with its pool's tick; a slot
/// nothing writes keeps its row, and no request touches a stamp.
pub proof fn the_last_write_stands(r: Replica, ops: Seq<Op>, k: int, at: int, slot: u32)
    requires
        0 <= at < r.tables.len(),
        forall|j: int|
            0 <= j < ops.len() && #[trigger] ops[j] is Upsert ==> 0 <= ops[j]->Upsert_0
                < r.tables.len(),
        last_written(ops, k, at, slot),
    ensures
        replay(r, ops).tables.len() == r.tables.len(),
        replay(r, ops).stamps == r.stamps,
        k >= 0 ==> replay(r, ops).tables[at].contains_key(slot),
        k >= 0 ==> replay(r, ops).tables[at][slot].id == ops[k]->Upsert_1,
        k >= 0 ==> replay(r, ops).tables[at][slot].value == ops[k]->Upsert_2,
        k >= 0 ==> replay(r, ops).tables[at][slot].tick == r.stamps[at],
        k < 0 ==> (replay(r, ops).tables[at].contains_key(slot) <==> r.tables[at].contains_key(
            slot,
        )),
        k < 0 ==> replay(r, ops).tables[at][slot] == r.tables[at][slot],
    decreases ops.len(),
{
    if ops.len() > 0 {
        let init = ops.drop_last();
        let n = ops.len() - 1;
        assert(ops[n] is Upsert ==> 0 <= ops[n]->Upsert_0 < r.tables.len());
        assert forall|j: int| 0 <= j < n && #[trigger] init[j] is Upsert implies 0
            <= init[j]->Upsert_0 < r.tables.len() by {
            assert(init[j] == ops[j]);
        }
        if k < n {
            assert(!writes(ops[n], at, slot));
            assert(k >= 0 ==> init[k] == ops[k]);
            assert forall|j: int| k < j < n implies !writes(#[trigger] init[j], at, slot) by {
                assert(!writes(ops[j], at, slot));
            }
            the_last_write_stands(r, init, k, at, slot);
        } else {
            last_write(init, at, slot);
            let j = choose|j: int| #[trigger] last_written(init, j, at, slot);
            the_last_write_stands(r, init, j, at, slot);
        }
    }
}

/// Requests have a last write to a slot, or none.
proof fn last_write(ops: Seq<Op>, at: int, slot: u32)
    ensures
        exists|j: int| #[trigger] last_written(ops, j, at, slot),
    decreases ops.len(),
{
    let n = ops.len() - 1;
    if n < 0 || writes(ops[n], at, slot) {
        assert(last_written(ops, n, at, slot));
    } else {
        let init = ops.drop_last();
        last_write(init, at, slot);
        let j = choose|j: int| #[trigger] last_written(init, j, at, slot);
        assert(j >= 0 ==> init[j] == ops[j]);
        assert forall|i: int| j < i < ops.len() implies !writes(#[trigger] ops[i], at, slot) by {
            if i < n {
                assert(!writes(init[i], at, slot));
            }
        }
        assert(last_written(ops, j, at, slot));
    }
}

/// A removal waits behind those already pending exactly where its entity is
/// alive when the request comes; nothing else waits, and a removal takes no
/// row and no life by itself.
pub proof fn removals_wait_their_turn(r: Replica, op: Op)
    ensures
        forall|i: int|
            0 <= i < r.pending.len() ==> i < step(r, op).pending.len() && #[trigger] step(
                r,
                op,
            ).pending[i] == r.pending[i],
        op matches Op::Remove(id) ==> {
            &&& step(r, op).tables == r.tables
            &&& step(r, op).ids == r.ids
            &&& r.ids.alive(id) ==> step(r, op).pending.len() == r.pending.len() + 1 && step(
                r,
                op,
            ).pending.last() == id
            &&& !r.ids.alive(id) ==> step(r, op).pending == r.pending
        },
        op matches Op::Upsert(at, id, value) ==> step(r, op).pending == r.pending && step(
            r,
            op,
        ).ids.alive(id),
{
}

/// Whatever a batch asks is carried out in order: its outcome is that of its
/// first part, and of each later request on that.
pub proof fn requests_run_in_order(r: Replica, ops: Seq<Op>, k: int)
    requires
        0 <= k < ops.len(),
    ensures
        replay(r, Seq::empty()) == r,
        replay(r, ops.take(k + 1)) == step(replay(r, ops.take(k)), ops[k]),
        replay(r, ops) == replay(replay(r, ops.take(k + 1)), ops.skip(k + 1)),
{
    assert(ops.take(k + 1) =~= ops.take(k).push(ops[k]));
    replay_push(r, ops.take(k), ops[k]);
    assert(ops =~= ops.take(k + 1) + ops.skip(k + 1));
    replay_concat(r, ops.take(k + 1), ops.skip(k + 1));
}

/// A wire key leads to the first pool registered under a name of that key,
/// and nowhere where no name has it.
pub proof fn a_key_finds_the_first_of_its_name(sync: Seq<SyncRow>, key: u16)
    ensures
        keyed_at(sync, key) matches Some(i) ==> {
            &&& 0 <= i < sync.len()
            &&& key_of(sync[i].name@) == key
            &&& forall|j: int| 0 <= j < i ==> key_of((#[trigger] sync[j]).name@) != key
        },
        keyed_at(sync, key) is None ==> forall|j: int|
            0 <= j < sync.len() ==> key_of((#[trigger] sync[j]).name@) != key,
    decreases sync.len(),
{
    if sync.len() > 0 {
        let rest = sync.drop_first();
        a_key_finds_the_first_of_its_name(rest, key);
        assert forall|j: int| 1 <= j < sync.len() implies key_of((#[trigger] sync[j]).name@)
            == key_of(rest[j - 1].name@) by {}
    }
}

/// Applying touches ids, pending removals and rows: everything else of the
/// kernel stays, and every pool keeps its name, owner, width, lock and stamp.
pub proof fn applying_touches_only_rows<P: WirePool>(a: KernelView<P>, b: KernelView<P>, i: int)
    requires
        same_shape(a, b),
        0 <= i < a.pools.len(),
    ensures
        b.tick == a.tick,
        b.tasks == a.tasks,
        b.present == a.present,
        b.commit == a.commit,
        b.stop_requests == a.stop_requests,
        b.removal_log == a.removal_log,
        b.local_peer == a.local_peer,
        b.quit == a.quit,
        b.faults == a.faults,
        b.stats == a.stats,
        b.pools.len() == a.pools.len(),
        b.pools[i].name == a.pools[i].name,
        b.pools[i].owner == a.pools[i].owner,
        b.pools[i].attached == a.pools[i].attached,
        b.pools[i].pool.wire().size == a.pools[i].pool.wire().size,
        b.pools[i].pool.erased_locked() == a.pools[i].pool.erased_locked(),
        b.pools[i].pool.erased_stamp() == a.pools[i].pool.erased_stamp(),
{
}

} // verus!
