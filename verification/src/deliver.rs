//! From the server's pools to the client's: what was waiting for a peer, once
//! packed into a snapshot, written, read and applied, stands in the client's
//! pools.

use vstd::prelude::*;

use crate::apply::{
    finder, keyed_at, keyed_at_in_range, replay, replay_concat, replay_push, replica_of, Replica,
};
use crate::converge::{carried_rows_arrive, packed_rows_have_own_slots, rows_apart};
use crate::delta::{
    pack, pack_spends_exactly, picked_rows, rotation, rotation_visits_once, CursorView, SentEntry,
    WirePool, WireView,
};
use crate::id::Id;
use crate::kernel::KernelView;
use crate::net::{
    bare_message, expire, expire_frame, grown, label_at, later_than, pack_all, pack_pool,
    pack_room, peer_sound, queue, sent_fits, settle_all, settle_front, snapshot_of, sync_fits,
    unacked_removals, wires, PackState, PeerView, Queued, ServerView, SyncRow,
    INFLIGHT_EXPIRY_TICKS,
};
use crate::reg::key_of;
use crate::snapshot::{
    encode, message_ops, parse, section_fits, sections_ops, snapshot_round_trip, well_sized,
    Message, Op, Section,
};
use crate::sort::{filter_members, stable_sort, stable_sort_exists};

verus! {

/// Registered names hash apart.
pub open spec fn names_apart(sync: Seq<SyncRow>) -> bool {
    forall|a: int, b: int|
        0 <= a < b < sync.len() ==> key_of((#[trigger] sync[a]).name@) != key_of(
            (#[trigger] sync[b]).name@,
        )
}

/// Registered pools are different pools.
pub open spec fn pools_apart(sync: Seq<SyncRow>) -> bool {
    forall|a: int, b: int|
        0 <= a < b < sync.len() ==> (#[trigger] sync[a]).at != (#[trigger] sync[b]).at
}

/// Every pool the server replicates, the client registered too, under the
/// same name and with values of the same size: what equal schemas mean.
pub open spec fn ends_agree<P: WirePool, Q: WirePool>(
    k: KernelView<P>,
    sync: Seq<SyncRow>,
    c: KernelView<Q>,
    csync: Seq<SyncRow>,
) -> bool {
    &&& sync_fits(k, sync)
    &&& sync_fits(c, csync)
    &&& sync.len() <= u16::MAX
    &&& names_apart(sync)
    &&& names_apart(csync)
    &&& pools_apart(csync)
    &&& forall|i: int|
        0 <= i < sync.len() ==> {
            let found = #[trigger] keyed_at(csync, key_of(sync[i].name@));
            found is Some && c.pools[csync[found->0].at as int].pool.wire().size
                == k.pools[sync[i].at as int].pool.wire().size
        }
}

/// Where the client keeps what the server keeps in its `i`-th replicated
/// pool.
pub open spec fn twin(sync: Seq<SyncRow>, csync: Seq<SyncRow>, i: int) -> int {
    csync[keyed_at(csync, key_of(sync[i].name@))->0].at as int
}

/// A peer as a snapshot taken at this tick finds it: old sends given up on,
/// cursors for every pool.
pub open spec fn facing(p: PeerView, n: nat, tick: u32) -> PeerView {
    expire(grown(p, n), label_at(tick))
}

/// The pools in packing order, each once.
spec fn each_once(order: Seq<Queued>, n: nat) -> bool {
    &&& order.len() == n
    &&& forall|j: int| 0 <= j < order.len() ==> (#[trigger] order[j]).at < n
    &&& forall|a: int, b: int|
        0 <= a < b < order.len() ==> (#[trigger] order[a]).at != (#[trigger] order[b]).at
    &&& forall|i: int| 0 <= i < n ==> #[trigger] placed(order, i)
}

/// The order names this pool.
spec fn placed(order: Seq<Queued>, i: int) -> bool {
    exists|j: int| 0 <= j < order.len() && (#[trigger] order[j]).at == i
}

/// Sorting the queue moves every pool to one place.
proof fn queue_sorts_whole(pools: Seq<CursorView>, ws: Seq<WireView>)
    requires
        ws.len() <= u16::MAX,
    ensures
        each_once(stable_sort(queue(pools, ws)), ws.len()),
{
    broadcast use vstd::multiset::group_multiset_axioms;
    broadcast use vstd::seq_lib::group_to_multiset_ensures;

    let q = queue(pools, ws);
    let order = stable_sort(q);
    stable_sort_exists(q);
    assert forall|i: int| 0 <= i < q.len() implies (#[trigger] q[i]).at == i by {}
    assert(q.no_duplicates()) by {
        assert forall|a: int, b: int| 0 <= a < q.len() && 0 <= b < q.len() && a != b implies q[a]
            != q[b] by {
            assert(q[a].at == a && q[b].at == b);
        }
    }
    q.lemma_multiset_has_no_duplicates();
    order.lemma_multiset_has_no_duplicates_conv();
    assert forall|j: int| 0 <= j < order.len() implies (#[trigger] order[j]).at < ws.len()
        && order[j] == q[order[j].at as int] by {
        assert(order.contains(order[j]));
        assert(order.to_multiset().contains(order[j]));
        assert(q.to_multiset().contains(order[j]));
        assert(q.contains(order[j]));
        let i = choose|i: int| 0 <= i < q.len() && q[i] == order[j];
        assert(q[i].at == i);
    }
    assert forall|a: int, b: int| 0 <= a < b < order.len() implies (#[trigger] order[a]).at != (
    #[trigger] order[b]).at by {
        assert(order[a] != order[b]);
        assert(order[a] == q[order[a].at as int]);
        assert(order[b] == q[order[b].at as int]);
    }
    assert forall|i: int| 0 <= i < ws.len() implies #[trigger] placed(
        order,
        i,
    ) by {
        assert(q.contains(q[i]));
        assert(q.to_multiset().contains(q[i]));
        assert(order.to_multiset().contains(q[i]));
        assert(order.contains(q[i]));
        let j = choose|j: int| 0 <= j < order.len() && order[j] == q[i];
        assert(order[j].at == i);
    }
}

/// A section holds the rows one packing of one pool picked; a whole one left
/// none of that pool's rows over.
spec fn packed_from(
    s: Section,
    whole: bool,
    pools: Seq<CursorView>,
    ws: Seq<WireView>,
    sync: Seq<SyncRow>,
    i: int,
    seq: u32,
) -> bool {
    &&& s.key == key_of(sync[i].name@)
    &&& exists|budget: nat|
        s.rows == picked_rows(ws[i], (#[trigger] pack(pools[i], ws[i], seq, budget)).picked) && (
        whole ==> !pack(pools[i], ws[i], seq, budget).more)
}

/// Every section comes from the pool in its place, from that pool's cursors
/// as they were.
spec fn sections_packed(
    out: PackState,
    pools: Seq<CursorView>,
    ws: Seq<WireView>,
    sync: Seq<SyncRow>,
    order: Seq<Queued>,
    seq: u32,
) -> bool {
    &&& out.sections.len() == order.len()
    &&& forall|j: int|
        0 <= j < order.len() ==> packed_from(
            #[trigger] out.sections[j],
            !out.more,
            pools,
            ws,
            sync,
            order[j].at as int,
            seq,
        )
}

/// The pools an order leaves out keep their cursors.
spec fn others_kept(out: PackState, pools: Seq<CursorView>, order: Seq<Queued>) -> bool {
    &&& out.pools.len() == pools.len()
    &&& forall|i: int|
        0 <= i < pools.len() && !placed(order, i) ==> #[trigger] out.pools[i] == pools[i]
}

/// Packing in an order that names no pool twice gives one section per pool;
/// if nothing was left over, no pool left anything.
proof fn sections_come_from_pools(
    st: PackState,
    ws: Seq<WireView>,
    sync: Seq<SyncRow>,
    order: Seq<Queued>,
    seq: u32,
)
    requires
        st.sections.len() == 0,
        st.pools.len() >= ws.len(),
        forall|j: int| 0 <= j < order.len() ==> (#[trigger] order[j]).at < ws.len(),
        forall|a: int, b: int|
            0 <= a < b < order.len() ==> (#[trigger] order[a]).at != (#[trigger] order[b]).at,
    ensures
        sections_packed(pack_all(st, ws, sync, order, seq), st.pools, ws, sync, order, seq),
        others_kept(pack_all(st, ws, sync, order, seq), st.pools, order),
    decreases order.len(),
{
    if order.len() > 0 {
        let init = order.drop_last();
        let last = order.last().at as int;
        assert forall|j: int| 0 <= j < init.len() implies (#[trigger] init[j]).at < ws.len() by {
            assert(init[j] == order[j]);
        }
        assert forall|a: int, b: int| 0 <= a < b < init.len() implies (#[trigger] init[a]).at != (
        #[trigger] init[b]).at by {
            assert(init[a] == order[a] && init[b] == order[b]);
        }
        sections_come_from_pools(st, ws, sync, init, seq);
        let before = pack_all(st, ws, sync, init, seq);
        let out = pack_all(st, ws, sync, order, seq);
        assert(out == pack_pool(before, ws, sync, last, seq));
        assert(order[order.len() - 1].at == last);
        assert(!placed(init, last)) by {
            assert forall|j: int| 0 <= j < init.len() implies (#[trigger] init[j]).at != last by {
                assert(init[j] == order[j]);
                assert(order[j].at != order[order.len() - 1].at);
            }
        }
        assert(before.pools[last] == st.pools[last]);
        assert forall|i: int| 0 <= i < st.pools.len() && !placed(order, i) implies #[trigger]
        out.pools[i] == st.pools[i] by {
            assert(order[order.len() - 1].at != i);
            assert forall|j: int| 0 <= j < init.len() implies (#[trigger] init[j]).at != i by {
                assert(order[j].at != i);
            }
            assert(before.pools[i] == st.pools[i]);
        }
        let p = pack(st.pools[last], ws[last], seq, before.budget);
        assert forall|j: int| 0 <= j < order.len() implies packed_from(
            #[trigger] out.sections[j],
            !out.more,
            st.pools,
            ws,
            sync,
            order[j].at as int,
            seq,
        ) by {
            if j < init.len() {
                assert(init[j] == order[j]);
                assert(out.sections[j] == before.sections[j]);
                let i = order[j].at as int;
                let budget = choose|budget: nat|
                    before.sections[j].rows == picked_rows(
                        ws[i],
                        (#[trigger] pack(st.pools[i], ws[i], seq, budget)).picked,
                    ) && (!before.more ==> !pack(st.pools[i], ws[i], seq, budget).more);
                assert(!out.more ==> !pack(st.pools[i], ws[i], seq, budget).more);
            } else {
                assert(out.sections[j].rows == picked_rows(ws[last], p.picked));
                assert(!out.more ==> !p.more);
            }
        }
    }
}

/// A packing that left nothing over picked every row that needed sending.
proof fn nothing_left_means_all_picked(
    pp: CursorView,
    w: WireView,
    seq: u32,
    budget: nat,
    y: int,
) -> (x: int)
    requires
        w.wf(),
        !pack(pp, w, seq, budget).more,
        0 <= y < w.rows.len(),
        pp.dirty(w.rows[y].slot_of(), w.ticks[y]),
    ensures
        0 <= x < pack(pp, w, seq, budget).picked.len(),
        pack(pp, w, seq, budget).picked[x] == y,
{
    let n = w.rows.len();
    let start = pp.start(n);
    let all = rotation(n, start);
    let backlog = pp.backlog(w);
    rotation_visits_once(n, start);
    assert(all.contains(y));
    filter_members(all, pp.row_dirty(w));
    assert(backlog.contains(y));
    let picked = pack(pp, w, seq, budget).picked;
    assert(picked =~= backlog);
    choose|x: int| 0 <= x < picked.len() && picked[x] == y
}

/// The message of a snapshot for a client that agrees about the pools is
/// well sized, and its rows go to places of their own.
proof fn snapshots_fit<P: WirePool, Q: WirePool>(
    m: Message,
    pools: Seq<CursorView>,
    k: KernelView<P>,
    sync: Seq<SyncRow>,
    c: KernelView<Q>,
    csync: Seq<SyncRow>,
    order: Seq<Queued>,
    seq: u32,
)
    requires
        ends_agree(k, sync, c, csync),
        forall|i: int| 0 <= i < sync.len() ==> (#[trigger] wires(k, sync)[i]).wf(),
        m.owners.len() <= u8::MAX,
        m.removals.len() <= u32::MAX,
        each_once(order, sync.len()),
        m.sections.len() == order.len(),
        forall|j: int|
            0 <= j < order.len() ==> packed_from(
                #[trigger] m.sections[j],
                false,
                pools,
                wires(k, sync),
                sync,
                order[j].at as int,
                seq,
            ),
    ensures
        well_sized(m, finder(c, csync)),
        rows_apart(m, finder(c, csync)),
        forall|j: int|
            0 <= j < m.sections.len() ==> (finder(c, csync)((#[trigger] m.sections[j]).key)->0).0
                == twin(sync, csync, order[j].at as int),
        forall|j: int|
            0 <= j < m.sections.len() ==> 0 <= (finder(c, csync)(
                (#[trigger] m.sections[j]).key,
            )->0).0 < c.pools.len(),
{
    let ws = wires(k, sync);
    let find = finder(c, csync);
    assert forall|j: int| 0 <= j < m.sections.len() implies section_fits(
        #[trigger] m.sections[j],
        find,
    ) && (find(m.sections[j].key)->0).0 == twin(sync, csync, order[j].at as int) && 0 <= (find(
        m.sections[j].key,
    )->0).0 < c.pools.len() && m.sections[j].key == key_of(sync[order[j].at as int].name@) by {
        let i = order[j].at as int;
        let b = choose|b: nat|
            m.sections[j].rows == picked_rows(
                ws[i],
                (#[trigger] pack(pools[i], ws[i], seq, b)).picked,
            );
        keyed_at_in_range(csync, key_of(sync[i].name@));
        pack_spends_exactly(pools[i], ws[i], seq, b);
        let picked = pack(pools[i], ws[i], seq, b).picked;
        assert(ws[i].wf());
        assert forall|x: int| 0 <= x < m.sections[j].rows.len() implies (
        #[trigger] m.sections[j].rows[x]).1.len() == (find(m.sections[j].key)->0).1 by {
            assert(0 <= picked[x] < ws[i].rows.len());
            assert(ws[i].values[picked[x]].len() == ws[i].size);
        }
        assert(picked.len() <= u32::MAX) by {
            picked_few(pools[i], ws[i], seq, b);
        }
    }
    assert forall|a: int, b: int| 0 <= a < b < m.sections.len() implies (find(
        (#[trigger] m.sections[a]).key,
    )->0).0 != (find((#[trigger] m.sections[b]).key)->0).0 by {
        let x = order[a].at as int;
        let y = order[b].at as int;
        assert(x != y);
        keyed_at_in_range(csync, key_of(sync[x].name@));
        keyed_at_in_range(csync, key_of(sync[y].name@));
        if x < y {
            assert(key_of(sync[x].name@) != key_of(sync[y].name@));
        } else {
            assert(key_of(sync[y].name@) != key_of(sync[x].name@));
        }
        let p = keyed_at(csync, key_of(sync[x].name@))->0;
        let q = keyed_at(csync, key_of(sync[y].name@))->0;
        assert(p != q);
        if p < q {
            assert(csync[p].at != csync[q].at);
        } else {
            assert(csync[q].at != csync[p].at);
        }
    }
    assert forall|j: int, x: int, y: int|
        0 <= j < m.sections.len() && 0 <= x < y < m.sections[j].rows.len() implies Id(
        (#[trigger] m.sections[j].rows[x]).0,
    ).slot_of() != Id((#[trigger] m.sections[j].rows[y]).0).slot_of() by {
        let i = order[j].at as int;
        let b = choose|b: nat|
            m.sections[j].rows == picked_rows(
                ws[i],
                (#[trigger] pack(pools[i], ws[i], seq, b)).picked,
            );
        packed_rows_have_own_slots(pools[i], ws[i], seq, b, x, y);
    }
}

/// A packing picks no more rows than the pool has.
proof fn picked_few(pp: CursorView, w: WireView, seq: u32, budget: nat)
    requires
        w.wf(),
    ensures
        pack(pp, w, seq, budget).picked.len() <= w.rows.len(),
{
    let all = rotation(w.rows.len(), pp.start(w.rows.len()));
    all.lemma_filter_len(pp.row_dirty(w));
}

/// What was waiting arrives: a snapshot that left nothing over, written,
/// read and applied by a client that agrees about the pools, leaves every
/// row that needed sending in the client's pool, under its handle, with the
/// server's bytes.
pub proof fn waiting_rows_arrive<P: WirePool, Q: WirePool>(
    s: ServerView,
    k: KernelView<P>,
    peer: u8,
    budget: nat,
    c: KernelView<Q>,
    csync: Seq<SyncRow>,
    i: int,
    y: int,
)
    requires
        ends_agree(k, s.sync, c, csync),
        forall|a: int| 0 <= a < s.sync.len() ==> (#[trigger] wires(k, s.sync)[a]).wf(),
        s.owners.len() <= u8::MAX,
        k.removal_log.len() <= u32::MAX,
        peer_sound(s.peers[peer]),
        !snapshot_of(s, k, peer, budget).more,
        0 <= i < s.sync.len(),
        0 <= y < wires(k, s.sync)[i].rows.len(),
        facing(s.peers[peer], s.sync.len(), k.tick).pools[i].dirty(
            wires(k, s.sync)[i].rows[y].slot_of(),
            wires(k, s.sync)[i].ticks[y],
        ),
    ensures
        ({
            let bytes = encode(snapshot_of(s, k, peer, budget).message);
            let read = parse(bytes, finder(c, csync));
            let table = replay(replica_of(c), read.0).tables[twin(s.sync, csync, i)];
            let w = wires(k, s.sync)[i];
            &&& read.1 is Ok
            &&& table.contains_key(w.rows[y].slot_of())
            &&& table[w.rows[y].slot_of()].id == w.rows[y]
            &&& table[w.rows[y].slot_of()].value == w.values[y]
        }),
{
    let ws = wires(k, s.sync);
    let find = finder(c, csync);
    let p = facing(s.peers[peer], s.sync.len(), k.tick);
    let out = snapshot_of(s, k, peer, budget);
    let m = out.message;
    let seq = (p.send_seq + 1) as u32;
    let bare = bare_message(p, s.owners, k);
    let st = PackState {
        pools: p.pools,
        budget: pack_room(bare, s.sync.len(), budget),
        sections: Seq::empty(),
        sent: Seq::empty(),
        more: false,
    };
    let order = stable_sort(queue(p.pools, ws));
    queue_sorts_whole(p.pools, ws);
    let full = grown(s.peers[peer], s.sync.len());
    assert forall|a: int, b: int|
        0 <= a < full.sent.len() && 0 <= b < full.sent[a].entries.len() implies (
    #[trigger] full.sent[a].entries[b]).pool < full.pools.len() by {
        assert(s.peers[peer].sent[a].entries[b].pool < s.peers[peer].pools.len());
    }
    expiry_keeps_the_pools(full, label_at(k.tick));
    let packed = pack_all(st, ws, s.sync, order, seq);
    assert(m.sections == packed.sections);
    assert(out.more == packed.more);
    sections_come_from_pools(st, ws, s.sync, order, seq);
    removals_few(k.removal_log, p.acked);
    assert forall|j: int| 0 <= j < order.len() implies packed_from(
        #[trigger] m.sections[j],
        false,
        p.pools,
        ws,
        s.sync,
        order[j].at as int,
        seq,
    ) by {
        assert(packed.sections[j] == m.sections[j]);
    }
    snapshots_fit(m, p.pools, k, s.sync, c, csync, order, seq);
    snapshot_round_trip(m, find);
    assert(placed(order, i));
    let j = choose|j: int| 0 <= j < order.len() && (#[trigger] order[j]).at == i;
    assert(packed_from(packed.sections[j], true, p.pools, ws, s.sync, i, seq));
    let b = choose|b: nat|
        packed.sections[j].rows == picked_rows(
            ws[i],
            (#[trigger] pack(p.pools[i], ws[i], seq, b)).picked,
        ) && !pack(p.pools[i], ws[i], seq, b).more;
    let x = nothing_left_means_all_picked(p.pools[i], ws[i], seq, b, y);
    assert(m.sections[j].rows[x] == (ws[i].rows[y].0, ws[i].values[y]));
    assert(Id(ws[i].rows[y].0) == ws[i].rows[y]);
    carried_rows_arrive(replica_of(c), m, find, j, x);
}

/// Settling touches cursors, never how many there are.
proof fn settling_keeps_the_pools(
    pools: Seq<CursorView>,
    entries: Seq<SentEntry>,
    seq: u32,
    received: bool,
)
    requires
        forall|j: int| 0 <= j < entries.len() ==> (#[trigger] entries[j]).pool < pools.len(),
    ensures
        settle_all(pools, entries, seq, received).len() == pools.len(),
    decreases entries.len(),
{
    if entries.len() > 0 {
        let init = entries.drop_last();
        assert forall|j: int| 0 <= j < init.len() implies (#[trigger] init[j]).pool
            < pools.len() by {
            assert(init[j] == entries[j]);
        }
        settling_keeps_the_pools(pools, init, seq, received);
        assert(entries[entries.len() - 1].pool < pools.len());
    }
}

/// Giving up on old sends leaves a cursor for every pool.
proof fn expiry_keeps_the_pools(p: PeerView, label: u32)
    requires
        sent_fits(p.sent, p.pools.len()),
    ensures
        expire(p, label).pools.len() == p.pools.len(),
    decreases p.sent.len(),
{
    if p.sent.len() > 0 && p.sent[0].label + INFLIGHT_EXPIRY_TICKS < label {
        let front = p.sent[0];
        assert forall|j: int| 0 <= j < front.entries.len() implies (
        #[trigger] front.entries[j]).pool < p.pools.len() by {
            assert(p.sent[0].entries[j].pool < p.pools.len());
        }
        settling_keeps_the_pools(p.pools, front.entries, front.seq, false);
        let next = settle_front(p, false);
        assert forall|a: int, b: int|
            0 <= a < next.sent.len() && 0 <= b < next.sent[a].entries.len() implies (
        #[trigger] next.sent[a].entries[b]).pool < next.pools.len() by {
            assert(next.sent[a] == p.sent[a + 1]);
            assert(p.sent[a + 1].entries[b].pool < p.pools.len());
        }
        expiry_keeps_the_pools(next, label);
    }
}

/// The removals a snapshot carries are no more than are logged.
proof fn removals_few(log: Seq<(Id, u32)>, acked: u32)
    ensures
        unacked_removals(log, acked).len() <= log.len(),
{
    log.lemma_filter_len(later_than(acked));
}

/// Requests never take a removal back.
proof fn pending_only_grows(r: Replica, ops: Seq<Op>, id: Id)
    requires
        r.pending.contains(id),
    ensures
        replay(r, ops).pending.contains(id),
    decreases ops.len(),
{
    if ops.len() > 0 {
        let before = replay(r, ops.drop_last());
        pending_only_grows(r, ops.drop_last(), id);
        let i = choose|i: int| 0 <= i < before.pending.len() && before.pending[i] == id;
        assert(replay(r, ops).pending[i] == id);
    }
}

/// Queueing removals leaves the ids alone.
proof fn removals_keep_ids(r: Replica, ids: Seq<Id>)
    ensures
        replay(r, ids.map_values(|id: Id| Op::Remove(id))).ids == r.ids,
    decreases ids.len(),
{
    let ops = ids.map_values(|id: Id| Op::Remove(id));
    if ids.len() > 0 {
        assert(ops.drop_last() =~= ids.drop_last().map_values(|id: Id| Op::Remove(id)));
        removals_keep_ids(r, ids.drop_last());
    }
}

/// A removal arrives: whatever the snapshot's rows, every entity it reports
/// removed and the client holds alive is queued for removal there.
pub proof fn reported_removals_are_queued(
    r: Replica,
    m: Message,
    find: spec_fn(u16) -> Option<(int, nat)>,
    x: int,
)
    requires
        0 <= x < m.removals.len(),
        r.ids.alive(m.removals[x]),
    ensures
        replay(r, message_ops(m, find)).pending.contains(m.removals[x]),
{
    let id = m.removals[x];
    let removals = m.removals.map_values(|id: Id| Op::Remove(id));
    let head = m.removals.take(x);
    let rest = removals.skip(x + 1) + sections_ops(m.sections, find);
    let first = head.map_values(|id: Id| Op::Remove(id));
    removals_keep_ids(r, head);
    replay_push(r, first, Op::Remove(id));
    let mid = replay(r, first.push(Op::Remove(id)));
    assert(mid.pending.last() == id);
    assert(mid.pending.contains(id));
    assert(message_ops(m, find) =~= first.push(Op::Remove(id)) + rest);
    replay_concat(r, first.push(Op::Remove(id)), rest);
    pending_only_grows(mid, rest, id);
}

/// A snapshot reports every removal its peer has not acked.
pub proof fn unacked_removals_are_reported<P: WirePool>(
    s: ServerView,
    k: KernelView<P>,
    peer: u8,
    budget: nat,
    row: (Id, u32),
)
    requires
        k.removal_log.contains(row),
        row.1 > s.peers[peer].acked,
    ensures
        snapshot_of(s, k, peer, budget).message.removals.contains(row.0),
{
    let full = grown(s.peers[peer], s.sync.len());
    expire_frame(full, label_at(k.tick));
    let acked = s.peers[peer].acked;
    let late = k.removal_log.filter(later_than(acked));
    filter_members(k.removal_log, later_than(acked));
    assert(late.contains(row));
    let i = choose|i: int| 0 <= i < late.len() && late[i] == row;
    assert(unacked_removals(k.removal_log, acked)[i] == row.0);
}

} // verus!
