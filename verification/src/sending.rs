//! What a send carries: which rows are picked and in which turn, what flies
//! afterwards, which sends are given up, and what the header says.

use vstd::prelude::*;

use crate::converge::settle_all_row;
use crate::delta::{
    dirty_count, launch_keeps_confirmed, pack, pack_spends_exactly, rotation, row_records,
    CursorView, SentEntry, WirePool, WireView,
};
use crate::id::Id;
use crate::kernel::KernelView;
use crate::net::{
    bare_message, expire, expire_frame, fixed_len, grown, is_oldest_ack, label_at, new_peer,
    new_server, not_of_peer, owner_rows_of_others, pack_all, pack_room, peer_snapshot, queue,
    sends_ascend, sent_fits, settle_front, unacked_removals, wires, PackState, PeerView, Queued,
    SyncRow, INFLIGHT_EXPIRY_TICKS,
};
use crate::reg::key_of;
use crate::schedule::{filter_takes, taken_at};
use crate::snapshot::{
    cat, head_bytes, head_of, owner_part, removal_part, Message, Section,
};
use crate::sort::{contains_push, stable_sort, stable_sort_exists, stable_sort_members};

verus! {

/// A row changed past everything the peer confirmed and past what flies to it.
pub open spec fn waits(pp: CursorView, w: WireView, i: int) -> bool {
    let s = w.rows[i].slot_of();
    w.ticks[i] > pp.confirmed[s] && w.ticks[i] > pp.flying[s]
}

/// How many steps after the first a rotation from `start` visits row `i`.
pub open spec fn turn(n: nat, start: nat, i: int) -> int {
    if i >= start {
        i - start
    } else {
        i - start + n
    }
}

/// Where a send starts its round: at the cursor, or over again past the end.
pub open spec fn round_start(pp: CursorView, n: nat) -> nat {
    if pp.cursor < n {
        pp.cursor
    } else {
        0
    }
}

/// A send picks waiting rows only, each once; the room left is too small for
/// a row while one is left out, and nothing is left out otherwise.
pub proof fn packing_takes_exactly_what_waits(pp: CursorView, w: WireView, seq: u32, budget: nat)
    requires
        w.wf(),
    ensures
        ({
            let p = pack(pp, w, seq, budget);
            &&& p.picked.no_duplicates()
            &&& forall|k: int|
                0 <= k < p.picked.len() ==> 0 <= #[trigger] p.picked[k] < w.rows.len() && waits(
                    pp,
                    w,
                    p.picked[k],
                )
            &&& p.budget + p.picked.len() * (4 + w.size) == budget
            &&& p.more ==> p.budget < 4 + w.size
            &&& !p.more <==> forall|i: int|
                0 <= i < w.rows.len() && waits(pp, w, i) ==> #[trigger] p.picked.contains(i)
        }),
{
    let p = pack(pp, w, seq, budget);
    let backlog = pp.backlog(w);
    let n = w.rows.len();
    pack_spends_exactly(pp, w, seq, budget);
    assert forall|i: int| 0 <= i < n implies (waits(pp, w, i) <==> #[trigger] pp.row_dirty(w)(
        i,
    )) by {}
    if p.more {
        let i = backlog[p.picked.len() as int];
        assert(backlog.contains(i));
        crate::sort::filter_members(rotation(n, pp.start(n)), pp.row_dirty(w));
        let order = rotation(n, pp.start(n));
        if n > 0 {
            crate::delta::rotation_visits_once(n, pp.start(n));
        }
        let t = choose|t: int| 0 <= t < order.len() && order[t] == i;
        assert(0 <= order[t] < n);
        crate::sort::filter_no_duplicates(order, pp.row_dirty(w));
        if p.picked.contains(i) {
            let k = choose|k: int| 0 <= k < p.picked.len() && p.picked[k] == i;
            assert(backlog[k] == i);
        }
        assert(waits(pp, w, i));
    }
    crate::delta::row_bytes_len(w, p.picked);
}

/// A send goes round: rows are picked in their turn from where the last send
/// stopped, none is passed over for a later one, and the next send goes on at
/// the first row left out.
pub proof fn packing_goes_round(pp: CursorView, w: WireView, seq: u32, budget: nat)
    requires
        w.wf(),
        w.rows.len() > 0,
    ensures
        ({
            let p = pack(pp, w, seq, budget);
            let n = w.rows.len();
            let s = round_start(pp, n);
            &&& forall|j: int, k: int|
                0 <= j < k < p.picked.len() ==> turn(n, s, #[trigger] p.picked[j]) < turn(
                    n,
                    s,
                    #[trigger] p.picked[k],
                )
            &&& forall|i: int, k: int|
                0 <= i < n && waits(pp, w, i) && 0 <= k < p.picked.len() && turn(n, s, i) < turn(
                    n,
                    s,
                    #[trigger] p.picked[k],
                ) ==> #[trigger] p.picked.contains(i)
            &&& p.more ==> {
                let c = p.cursors.cursor as int;
                &&& 0 <= c < n
                &&& waits(pp, w, c)
                &&& !p.picked.contains(c)
                &&& forall|i: int|
                    0 <= i < n && waits(pp, w, i) && turn(n, s, i) < turn(n, s, c)
                        ==> #[trigger] p.picked.contains(i)
            }
            &&& !p.more ==> p.cursors.cursor == s
        }),
{
    let p = pack(pp, w, seq, budget);
    let n = w.rows.len();
    let s = round_start(pp, n);
    let order = rotation(n, s);
    let f = pp.row_dirty(w);
    let backlog = pp.backlog(w);
    assert(pp.start(n) == s);
    let at = filter_takes(order, f);
    let m = p.picked.len() as int;
    assert forall|k: int| 0 <= k < backlog.len() implies 0 <= #[trigger] backlog[k] < n && turn(
        n,
        s,
        backlog[k],
    ) == at[k] && waits(pp, w, backlog[k]) by {
        assert(0 <= at[k] < order.len() && backlog[k] == order[at[k]]);
        assert(at.contains(at[k]));
        assert(f(order[at[k]]));
    }
    assert forall|i: int, k: int|
        0 <= i < n && waits(pp, w, i) && 0 <= k < backlog.len() && k <= m && turn(n, s, i) < turn(
            n,
            s,
            #[trigger] backlog[k],
        ) implies #[trigger] p.picked.contains(i) by {
        let t = turn(n, s, i);
        assert(order[t] == i);
        assert(f(order[t]));
        assert(at.contains(t));
        let j = choose|j: int| 0 <= j < at.len() && at[j] == t;
        assert(backlog[j] == i);
        assert(turn(n, s, backlog[k]) == at[k]);
        if j >= k {
            if j > k {
                assert(at[k] < at[j]);
            }
        }
        assert(p.picked[j] == i);
    }
    assert forall|j: int, k: int| 0 <= j < k < m implies turn(n, s, #[trigger] p.picked[j]) < turn(
        n,
        s,
        #[trigger] p.picked[k],
    ) by {
        assert(p.picked[j] == backlog[j] && p.picked[k] == backlog[k]);
        assert(at[j] < at[k]);
    }
    assert forall|i: int, k: int|
        0 <= i < n && waits(pp, w, i) && 0 <= k < m && turn(n, s, i) < turn(
            n,
            s,
            #[trigger] p.picked[k],
        ) implies #[trigger] p.picked.contains(i) by {
        assert(p.picked[k] == backlog[k]);
    }
    launch_keeps_confirmed(pp, w, p.picked, seq);
    if p.more {
        let c = backlog[m];
        if p.picked.contains(c) {
            let k = choose|k: int| 0 <= k < m && p.picked[k] == c;
            assert(backlog[k] == c);
            assert(turn(n, s, backlog[k]) == at[k] && turn(n, s, backlog[m]) == at[m]);
            assert(at[k] < at[m]);
        }
    }
}

/// After a send exactly the picked rows fly under its sequence, at the ticks
/// they were sent with; what was confirmed stays so.
pub proof fn picked_rows_fly(pp: CursorView, w: WireView, seq: u32, budget: nat, slot: u32)
    requires
        w.wf(),
    ensures
        ({
            let p = pack(pp, w, seq, budget);
            &&& p.cursors.confirmed == pp.confirmed
            &&& forall|k: int|
                0 <= k < p.picked.len() && w.rows[#[trigger] p.picked[k]].slot_of() == slot
                    ==> p.cursors.flying[slot] == w.ticks[p.picked[k]]
                    && p.cursors.flying_seq[slot] == seq
            &&& (forall|k: int|
                0 <= k < p.picked.len() ==> w.rows[#[trigger] p.picked[k]].slot_of() != slot)
                ==> p.cursors.flying[slot] == pp.flying[slot] && p.cursors.flying_seq[slot]
                == pp.flying_seq[slot]
        }),
{
    let p = pack(pp, w, seq, budget);
    pack_spends_exactly(pp, w, seq, budget);
    launch_keeps_confirmed(pp, w, p.picked, seq);
    launch_slot(pp, w, p.picked, seq, slot);
}

/// Launching rows, seen from one slot.
proof fn launch_slot(pp: CursorView, w: WireView, picked: Seq<int>, seq: u32, slot: u32)
    requires
        w.wf(),
        picked.no_duplicates(),
        forall|k: int| 0 <= k < picked.len() ==> 0 <= #[trigger] picked[k] < w.rows.len(),
    ensures
        ({
            let out = pp.launch(w, picked, seq);
            &&& forall|k: int|
                0 <= k < picked.len() && w.rows[#[trigger] picked[k]].slot_of() == slot
                    ==> out.flying[slot] == w.ticks[picked[k]] && out.flying_seq[slot] == seq
            &&& (forall|k: int|
                0 <= k < picked.len() ==> w.rows[#[trigger] picked[k]].slot_of() != slot)
                ==> out.flying[slot] == pp.flying[slot] && out.flying_seq[slot]
                == pp.flying_seq[slot]
        }),
    decreases picked.len(),
{
    if picked.len() > 0 {
        let init = picked.drop_last();
        let n = picked.len() - 1;
        assert forall|k: int| 0 <= k < init.len() implies 0 <= #[trigger] init[k]
            < w.rows.len() by {
            assert(init[k] == picked[k]);
        }
        launch_slot(pp, w, init, seq, slot);
        assert(w.rows[picked[n]].slot_of() == slot || w.rows[picked[n]].slot_of() != slot);
        assert forall|k: int|
            0 <= k < picked.len() && w.rows[#[trigger] picked[k]].slot_of() == slot implies pp.launch(
            w,
            picked,
            seq,
        ).flying[slot] == w.ticks[picked[k]] && pp.launch(w, picked, seq).flying_seq[slot] == seq by {
            if k < n {
                assert(init[k] == picked[k]);
                assert(picked[k] != picked[n]);
            }
        }
        if forall|k: int|
            0 <= k < picked.len() ==> w.rows[#[trigger] picked[k]].slot_of() != slot {
            assert forall|k: int| 0 <= k < init.len() implies w.rows[#[trigger] init[k]].slot_of()
                != slot by {
                assert(init[k] == picked[k]);
            }
        }
    }
}

/// A pool's backlog is the number of its waiting rows, each counted once.
pub proof fn a_backlog_counts_what_waits(pp: CursorView, w: WireView, upto: int) -> (at: Seq<int>)
    requires
        0 <= upto <= w.rows.len(),
    ensures
        dirty_count(pp, w, upto) == at.len(),
        at.no_duplicates(),
        forall|i: int| #[trigger] at.contains(i) <==> 0 <= i < upto && waits(pp, w, i),
    decreases upto,
{
    if upto == 0 {
        Seq::empty()
    } else {
        let before = a_backlog_counts_what_waits(pp, w, upto - 1);
        let i = upto - 1;
        assert(waits(pp, w, i) <==> pp.row_dirty(w)(i));
        assert forall|j: int| #[trigger] before.push(i).contains(j) <==> before.contains(j) || j
            == i by {
            contains_push(before, i, j);
        }
        if waits(pp, w, i) {
            assert(!before.contains(i));
            before.push(i)
        } else {
            before
        }
    }
}

/// The pool has a place in the order.
pub open spec fn queued(order: Seq<Queued>, i: int) -> bool {
    exists|k: int| 0 <= k < order.len() && (#[trigger] order[k]).at == i
}

/// Pools pack the shortest backlog first, every pool once.
pub proof fn short_backlogs_go_first(pools: Seq<CursorView>, ws: Seq<WireView>)
    requires
        ws.len() <= usize::MAX,
        forall|i: int| 0 <= i < ws.len() ==> (#[trigger] ws[i]).wf(),
    ensures
        ({
            let order = stable_sort(queue(pools, ws));
            &&& order.len() == ws.len()
            &&& forall|k: int|
                0 <= k < order.len() ==> {
                    let q = #[trigger] order[k];
                    &&& 0 <= q.at < ws.len()
                    &&& q.dirty == dirty_count(
                        pools[q.at as int],
                        ws[q.at as int],
                        ws[q.at as int].rows.len() as int,
                    )
                }
            &&& forall|i: int|
                0 <= i < ws.len() ==> #[trigger] queued(order, i)
            &&& forall|j: int, k: int|
                0 <= j < k < order.len() ==> (#[trigger] order[j]).dirty <= (
                #[trigger] order[k]).dirty && order[j].at != order[k].at
        }),
{
    let q = queue(pools, ws);
    let order = stable_sort(q);
    stable_sort_exists(q);
    stable_sort_members(order, q);
    assert(order.len() == order.to_multiset().len()) by {
        order.to_multiset_ensures();
    }
    assert(q.len() == q.to_multiset().len()) by {
        q.to_multiset_ensures();
    }
    assert forall|k: int| 0 <= k < order.len() implies ({
        let x = #[trigger] order[k];
        &&& 0 <= x.at < ws.len()
        &&& x.dirty == dirty_count(
            pools[x.at as int],
            ws[x.at as int],
            ws[x.at as int].rows.len() as int,
        )
    }) by {
        let x = order[k];
        assert(order.contains(x));
        let i = choose|i: int| 0 <= i < q.len() && q[i] == x;
        let at = a_backlog_counts_what_waits(pools[i], ws[i], ws[i].rows.len() as int);
        backlog_bound(pools[i], ws[i], ws[i].rows.len() as int);
        assert(ws[i].wf());
    }
    assert forall|i: int| 0 <= i < ws.len() implies #[trigger] queued(order, i) by {
        assert(q.contains(q[i]));
        assert(order.contains(q[i]));
        let k = choose|k: int| 0 <= k < order.len() && order[k] == q[i];
        assert(order[k].at == i);
    }
    assert(q.no_duplicates()) by {
        assert forall|i: int, j: int| 0 <= i < q.len() && 0 <= j < q.len() && i != j implies q[i]
            != q[j] by {
            assert(q[i].at == i && q[j].at == j);
        }
    }
    distinct_orders(order, q);
    assert forall|j: int, k: int| 0 <= j < k < order.len() implies (#[trigger] order[j]).dirty <= (
    #[trigger] order[k]).dirty && order[j].at != order[k].at by {
        assert(order[j] != order[k]);
        assert(order.contains(order[j]) && order.contains(order[k]));
        let a = choose|a: int| 0 <= a < q.len() && q[a] == order[j];
        let b = choose|b: int| 0 <= b < q.len() && q[b] == order[k];
        assert(q[a].at == a && q[b].at == b);
    }
}

/// A backlog is no longer than its pool.
proof fn backlog_bound(pp: CursorView, w: WireView, upto: int)
    requires
        0 <= upto,
    ensures
        dirty_count(pp, w, upto) <= upto,
    decreases upto,
{
    if upto > 0 {
        backlog_bound(pp, w, upto - 1);
    }
}

/// Reordering distinct elements leaves them distinct.
proof fn distinct_orders(out: Seq<Queued>, s: Seq<Queued>)
    requires
        s.no_duplicates(),
        out.to_multiset() == s.to_multiset(),
    ensures
        out.no_duplicates(),
{
    s.lemma_multiset_has_no_duplicates();
    out.lemma_multiset_has_no_duplicates_conv();
}

/// Joining pools to a peer keeps its cursors; the new pools have nothing
/// confirmed and nothing flying.
pub proof fn new_pools_start_unsent(p: PeerView, n: nat, i: int, slot: u32)
    ensures
        ({
            let g = grown(p, n);
            &&& g.pools.len() >= n
            &&& g.pools.len() == n || g.pools.len() == p.pools.len()
            &&& 0 <= i < p.pools.len() ==> g.pools.len() > i && g.pools[i] == p.pools[i]
            &&& p.pools.len() <= i < n ==> g.pools[i].confirmed[slot] == 0
                && g.pools[i].flying[slot] == 0 && g.pools[i].flying_seq[slot] == 0
                && g.pools[i].cursor == 0
            &&& g.sent == p.sent
            &&& g.acked == p.acked
            &&& g.input_seq == p.input_seq
            &&& g.send_seq == p.send_seq
        }),
{
}

/// Giving up on old sends: the sends left are the last ones, each given up was
/// more than a second old (sixty ticks behind the label), the first left is
/// not; nothing becomes confirmed, and a row stops flying only with the send
/// it flew with.
pub proof fn only_old_sends_are_given_up(p: PeerView, label: u32, i: int, slot: u32) -> (gone: int)
    requires
        sends_ascend(p.sent),
        sent_fits(p.sent, p.pools.len()),
        0 <= i < p.pools.len(),
    ensures
        0 <= gone <= p.sent.len(),
        expire(p, label).sent == p.sent.skip(gone),
        forall|a: int| 0 <= a < gone ==> (#[trigger] p.sent[a]).label + 60 < label,
        gone < p.sent.len() ==> p.sent[gone].label + 60 >= label,
        expire(p, label).pools.len() == p.pools.len(),
        expire(p, label).pools[i].confirmed[slot] == p.pools[i].confirmed[slot],
        expire(p, label).pools[i].flying_seq[slot] == p.pools[i].flying_seq[slot]
            || expire(p, label).pools[i].flying_seq[slot] == 0,
        expire(p, label).pools[i].flying_seq[slot] != p.pools[i].flying_seq[slot] ==> exists|a: int|
            0 <= a < gone && (#[trigger] p.sent[a]).seq == p.pools[i].flying_seq[slot],
        forall|a: int, k: int|
            0 <= a < gone && 0 <= k < p.sent[a].entries.len() && (
            #[trigger] p.sent[a].entries[k]).pool == i && p.sent[a].entries[k].slot == slot
                ==> expire(p, label).pools[i].flying_seq[slot] != p.sent[a].seq,
    decreases p.sent.len(),
{
    assert(INFLIGHT_EXPIRY_TICKS == 60);
    if p.sent.len() > 0 && p.sent[0].label + INFLIGHT_EXPIRY_TICKS < label {
        let first = p.sent[0];
        let q = settle_front(p, false);
        assert forall|k: int| 0 <= k < first.entries.len() implies (
        #[trigger] first.entries[k]).pool < p.pools.len() by {
            assert(p.sent[0].entries[k].pool < p.pools.len());
        }
        settle_all_row(p.pools, first.entries, first.seq, false, i, slot);
        assert forall|a: int, k: int|
            0 <= a < q.sent.len() && 0 <= k < q.sent[a].entries.len() implies (
        #[trigger] q.sent[a].entries[k]).pool < q.pools.len() by {
            assert(q.sent[a] == p.sent[a + 1]);
            assert(p.sent[a + 1].entries[k].pool < p.pools.len());
        }
        settle_flight(p.pools, first.entries, first.seq, i, slot);
        let g = only_old_sends_are_given_up(q, label, i, slot);
        assert(q.sent.skip(g) =~= p.sent.skip(g + 1));
        assert forall|a: int| 0 <= a < g + 1 implies (#[trigger] p.sent[a]).label + 60 < label by {
            if a > 0 {
                assert(q.sent[a - 1] == p.sent[a]);
            }
        }
        let was = p.pools[i].flying_seq[slot];
        let now = expire(p, label).pools[i].flying_seq[slot];
        if now != was {
            if q.pools[i].flying_seq[slot] != was {
                assert(p.sent[0].seq == was);
            } else {
                let a = choose|a: int| 0 <= a < g && (#[trigger] q.sent[a]).seq == was;
                assert(p.sent[a + 1].seq == was);
            }
        }
        assert forall|a: int, k: int|
            0 <= a < g + 1 && 0 <= k < p.sent[a].entries.len() && (
            #[trigger] p.sent[a].entries[k]).pool == i && p.sent[a].entries[k].slot
                == slot implies now != p.sent[a].seq by {
            if a > 0 {
                assert(q.sent[a - 1].entries[k].pool == i);
            } else {
                assert(first.entries[k].pool == i);
            }
        }
        g + 1
    } else {
        assert(p.sent.skip(0) =~= p.sent);
        0
    }
}

/// Settling a send changes a flight only where the row flew with it.
proof fn settle_flight(pools: Seq<CursorView>, entries: Seq<SentEntry>, seq: u32, i: int, s: u32)
    requires
        forall|k: int| 0 <= k < entries.len() ==> (#[trigger] entries[k]).pool < pools.len(),
        0 <= i < pools.len(),
        seq > 0,
    ensures
        ({
            let out = crate::net::settle_all(pools, entries, seq, false);
            out[i].flying_seq[s] != pools[i].flying_seq[s] ==> pools[i].flying_seq[s] == seq
        }),
    decreases entries.len(),
{
    if entries.len() > 0 {
        let init = entries.drop_last();
        assert forall|k: int| 0 <= k < init.len() implies (#[trigger] init[k]).pool
            < pools.len() by {
            assert(init[k] == entries[k]);
        }
        assert(entries[entries.len() - 1].pool < pools.len());
        settle_flight(pools, init, seq, i, s);
        settle_all_row(pools, init, seq, false, i, s);
    }
}

/// A snapshot repeats exactly the removals the peer has not acknowledged, in
/// the order they happened.
pub proof fn every_unacked_removal_is_repeated(log: Seq<(Id, u32)>, acked: u32) -> (at: Seq<int>)
    ensures
        unacked_removals(log, acked).len() == at.len(),
        forall|k: int|
            0 <= k < at.len() ==> 0 <= #[trigger] at[k] < log.len() && unacked_removals(
                log,
                acked,
            )[k] == log[at[k]].0,
        forall|j: int, k: int| 0 <= j < k < at.len() ==> (#[trigger] at[j]) < (#[trigger] at[k]),
        forall|i: int| 0 <= i < log.len() ==> (#[trigger] at.contains(i) <==> log[i].1 > acked),
{
    let at = filter_takes(log, crate::net::later_than(acked));
    assert(taken_at(log.filter(crate::net::later_than(acked)), log, at));
    at
}

/// Every pool a snapshot packs gets what its turn leaves it: the first the
/// whole room, each next what the one before left. Its section carries its
/// key and the ids and values of the rows picked, an entry is kept for each
/// row, and more is waiting where a pool left something out. Pools that are
/// not packed keep their cursors.
pub proof fn pools_pack_in_turn(
    st: PackState,
    ws: Seq<WireView>,
    sync: Seq<SyncRow>,
    order: Seq<Queued>,
    seq: u32,
) -> (room: Seq<nat>)
    requires
        st.pools.len() <= 0x1_0000,
        forall|k: int| 0 <= k < order.len() ==> (#[trigger] order[k]).at < st.pools.len(),
        forall|j: int, k: int|
            0 <= j < k < order.len() ==> (#[trigger] order[j]).at != (#[trigger] order[k]).at,
    ensures
        room.len() == order.len() + 1,
        room[0] == st.budget,
        pack_all(st, ws, sync, order, seq).budget == room[order.len() as int],
        pack_all(st, ws, sync, order, seq).pools.len() == st.pools.len(),
        pack_all(st, ws, sync, order, seq).sections.len() == st.sections.len() + order.len(),
        forall|k: int| #![trigger order[k]]
            0 <= k < order.len() ==> {
                let out = pack_all(st, ws, sync, order, seq);
                let i = order[k].at as int;
                let p = pack(st.pools[i], ws[i], seq, room[k]);
                &&& room[k + 1] == p.budget
                &&& out.pools[i] == p.cursors
                &&& section_carries(
                    out.sections[st.sections.len() + k],
                    sync[i].name@,
                    ws[i],
                    p.picked,
                )
                &&& entries_cover(out.sent, i, ws[i], p.picked)
                &&& p.more ==> out.more
            },
        forall|i: int|
            0 <= i < st.pools.len() && !queued(order, i) ==> #[trigger] pack_all(
                st,
                ws,
                sync,
                order,
                seq,
            ).pools[i] == st.pools[i],
        pack_all(st, ws, sync, order, seq).more ==> st.more || exists|k: int|
            0 <= k < order.len() && #[trigger] pack(
                st.pools[order[k].at as int],
                ws[order[k].at as int],
                seq,
                room[k],
            ).more,
    decreases order.len(),
{
    let out = pack_all(st, ws, sync, order, seq);
    if order.len() == 0 {
        seq![st.budget]
    } else {
        let init = order.drop_last();
        let n = order.len() - 1;
        assert forall|k: int| 0 <= k < init.len() implies (#[trigger] init[k]).at
            < st.pools.len() by {
            assert(init[k] == order[k]);
        }
        assert forall|j: int, k: int| 0 <= j < k < init.len() implies (#[trigger] init[j]).at != (
        #[trigger] init[k]).at by {
            assert(init[j] == order[j] && init[k] == order[k]);
        }
        let before = pools_pack_in_turn(st, ws, sync, init, seq);
        let mid = pack_all(st, ws, sync, init, seq);
        let l = order[n].at as int;
        assert(!queued(init, l)) by {
            if queued(init, l) {
                let k = choose|k: int| 0 <= k < init.len() && (#[trigger] init[k]).at == l;
                assert(order[k].at == order[n].at);
            }
        }
        assert(mid.pools[l] == st.pools[l]);
        let p = pack(st.pools[l], ws[l], seq, mid.budget);
        let room = before.push(p.budget);
        assert(out.sent =~= mid.sent + row_records(ws[l], p.picked, l as u16));
        assert forall|k: int| #![trigger order[k]] 0 <= k < order.len() implies ({
            let i = order[k].at as int;
            let p = pack(st.pools[i], ws[i], seq, room[k]);
            &&& room[k + 1] == p.budget
            &&& out.pools[i] == p.cursors
            &&& section_carries(
                out.sections[st.sections.len() + k],
                sync[i].name@,
                ws[i],
                p.picked,
            )
            &&& entries_cover(out.sent, i, ws[i], p.picked)
            &&& p.more ==> out.more
        }) by {
            let i = order[k].at as int;
            let p = pack(st.pools[i], ws[i], seq, room[k]);
            if k < n {
                assert(init[k] == order[k]);
                assert(i != l);
                assert(out.sections[st.sections.len() + k] == mid.sections[st.sections.len() + k]);
                assert(entries_cover(mid.sent, i, ws[i], p.picked));
                assert forall|j: int| 0 <= j < p.picked.len() implies kept_for(
                    out.sent,
                    i,
                    ws[i],
                    #[trigger] p.picked[j],
                ) by {
                    assert(kept_for(mid.sent, i, ws[i], p.picked[j]));
                    let e = choose|e: int|
                        0 <= e < mid.sent.len() && (#[trigger] mid.sent[e]).pool == i
                            && mid.sent[e].slot == ws[i].rows[p.picked[j]].slot_of()
                            && mid.sent[e].tick == ws[i].ticks[p.picked[j]];
                    assert(out.sent[e] == mid.sent[e]);
                }
            } else {
                assert forall|j: int| 0 <= j < p.picked.len() implies kept_for(
                    out.sent,
                    i,
                    ws[i],
                    #[trigger] p.picked[j],
                ) by {
                    let e = mid.sent.len() + j;
                    assert(out.sent[e].pool == i);
                }
            }
        }
        assert forall|i: int| 0 <= i < st.pools.len() && !queued(order, i) implies #[trigger] out.pools[i]
            == st.pools[i] by {
            assert(i != l);
            if queued(init, i) {
                let k = choose|k: int| 0 <= k < init.len() && (#[trigger] init[k]).at == i;
                assert(order[k].at == i);
            }
        }
        if out.more && !st.more {
            if mid.more {
                let k = choose|k: int|
                    0 <= k < init.len() && #[trigger] pack(
                        st.pools[init[k].at as int],
                        ws[init[k].at as int],
                        seq,
                        before[k],
                    ).more;
                assert(init[k] == order[k] && before[k] == room[k]);
                assert(pack(
                    st.pools[order[k].at as int],
                    ws[order[k].at as int],
                    seq,
                    room[k],
                ).more);
            } else {
                assert(pack(
                    st.pools[order[n].at as int],
                    ws[order[n].at as int],
                    seq,
                    room[n],
                ).more);
            }
        }
        room
    }
}

/// A section says whose it is and carries these rows, in order.
pub open spec fn section_carries(
    s: Section,
    name: Seq<char>,
    w: WireView,
    picked: Seq<int>,
) -> bool {
    &&& s.key == key_of(name)
    &&& s.rows.len() == picked.len()
    &&& forall|j: int|
        0 <= j < picked.len() ==> (#[trigger] s.rows[j]).0 == w.rows[picked[j]].0 && s.rows[j].1
            == w.values[picked[j]]
}

/// The send keeps an entry for row `i` of the pool: its slot and the tick it
/// was sent with.
pub open spec fn kept_for(sent: Seq<SentEntry>, pool: int, w: WireView, i: int) -> bool {
    exists|e: int|
        0 <= e < sent.len() && (#[trigger] sent[e]).pool == pool && sent[e].slot
            == w.rows[i].slot_of() && sent[e].tick == w.ticks[i]
}

/// The send keeps an entry for each of these rows.
pub open spec fn entries_cover(
    sent: Seq<SentEntry>,
    pool: int,
    w: WireView,
    picked: Seq<int>,
) -> bool {
    forall|j: int| 0 <= j < picked.len() ==> kept_for(sent, pool, w, #[trigger] picked[j])
}

/// What a snapshot says of itself: the tick before the running one, the next
/// send sequence of the peer, the input it is answered for, the owners as they
/// are and the removals it has not acknowledged. The peer counts the send and
/// nothing else of it moves but its cursors; the send is remembered under its
/// label exactly where it carried rows.
pub proof fn a_snapshot_says_what_it_is<P: WirePool>(
    joined: PeerView,
    sync: Seq<SyncRow>,
    owners: Seq<(u8, u32)>,
    k: KernelView<P>,
    budget: nat,
)
    requires
        joined.send_seq < u32::MAX,
    ensures
        ({
            let out = peer_snapshot(joined, sync, owners, k, budget);
            let label = if k.tick == 0 {
                0
            } else {
                k.tick - 1
            };
            &&& out.message.tick == label
            &&& out.message.seq == joined.send_seq + 1
            &&& out.message.input_seq == joined.input_seq
            &&& out.message.owners == owners
            &&& out.message.removals == unacked_removals(k.removal_log, joined.acked)
            &&& out.peer.send_seq == joined.send_seq + 1
            &&& out.peer.acked == joined.acked
            &&& out.peer.input_seq == joined.input_seq
            &&& out.entries == 0 ==> out.peer.sent == expire(
                grown(joined, sync.len()),
                label as u32,
            ).sent
            &&& out.entries > 0 ==> {
                let sent = out.peer.sent;
                &&& sent.len() == expire(grown(joined, sync.len()), label as u32).sent.len() + 1
                &&& sent.drop_last() == expire(grown(joined, sync.len()), label as u32).sent
                &&& sent.last().seq == joined.send_seq + 1
                &&& sent.last().label == label
                &&& sent.last().entries.len() == out.entries
            }
        }),
{
    let label = label_at(k.tick);
    expire_frame(grown(joined, sync.len()), label);
    let p = expire(grown(joined, sync.len()), label);
    let out = peer_snapshot(joined, sync, owners, k, budget);
    if out.entries > 0 {
        assert(out.peer.sent.drop_last() =~= p.sent);
    }
}

/// What a header and the sections' heads cost: 19 bytes, five for each owner
/// row, four for each removal, six for each pool. The rows get the rest of
/// the budget, or nothing.
pub proof fn rows_get_what_the_heads_leave(m: Message, pools: nat, budget: nat)
    ensures
        ({
            let heads = 19 + 5 * m.owners.len() + 4 * m.removals.len() + 6 * pools;
            &&& head_bytes(m).len() == 19 + 5 * m.owners.len() + 4 * m.removals.len()
            &&& fixed_len(m, pools) == heads
            &&& budget >= heads ==> pack_room(m, pools, budget) == budget - heads
            &&& budget < heads ==> pack_room(m, pools, budget) == 0
        }),
{
    reveal(head_of);
    let owners = m.owners.map_values(|o: (u8, u32)| owner_part(o));
    let removals = m.removals.map_values(|id: Id| removal_part(id));
    cat_len(owners, 5);
    cat_len(removals, 4);
}

/// Pieces of one length joined.
proof fn cat_len(parts: Seq<Seq<u8>>, e: nat)
    requires
        forall|i: int| 0 <= i < parts.len() ==> (#[trigger] parts[i]).len() == e,
    ensures
        cat(parts).len() == e * parts.len(),
    decreases parts.len(),
{
    if parts.len() == 0 {
        assert(e * 0 == 0) by (nonlinear_arith);
    } else {
        let tail = parts.drop_first();
        assert forall|i: int| 0 <= i < tail.len() implies (#[trigger] tail[i]).len() == e by {
            assert(tail[i] == parts[i + 1]);
        }
        cat_len(tail, e);
        assert(parts[0].len() == e);
        assert(e * parts.len() == e + e * tail.len()) by (nonlinear_arith)
            requires
                parts.len() == tail.len() + 1,
        ;
    }
}

/// What a snapshot carries is what packing gives: over the peer's cursors once
/// old sends are given up, every pool's rows as they are, shortest backlog
/// first, in the room the heads leave.
pub proof fn a_snapshot_carries_what_packing_gives<P: WirePool>(
    joined: PeerView,
    sync: Seq<SyncRow>,
    owners: Seq<(u8, u32)>,
    k: KernelView<P>,
    budget: nat,
)
    requires
        joined.send_seq < u32::MAX,
    ensures
        ({
            let out = peer_snapshot(joined, sync, owners, k, budget);
            let label = if k.tick == 0 {
                0u32
            } else {
                (k.tick - 1) as u32
            };
            let p = expire(grown(joined, sync.len()), label);
            let heads = 19 + 5 * owners.len() + 4 * unacked_removals(
                k.removal_log,
                joined.acked,
            ).len() + 6 * sync.len();
            let ws = Seq::new(sync.len(), |i: int| k.pools[sync[i].at as int].pool.wire());
            let st = pack_all(
                PackState {
                    pools: p.pools,
                    budget: if budget >= heads {
                        (budget - heads) as nat
                    } else {
                        0
                    },
                    sections: Seq::empty(),
                    sent: Seq::empty(),
                    more: false,
                },
                ws,
                sync,
                stable_sort(queue(p.pools, ws)),
                (joined.send_seq + 1) as u32,
            );
            &&& out.message.sections == st.sections
            &&& out.peer.pools == st.pools
            &&& out.more == st.more
            &&& out.entries == st.sent.len()
            &&& st.sent.len() > 0 ==> out.peer.sent.last().entries == st.sent
        }),
{
    let label = label_at(k.tick);
    expire_frame(grown(joined, sync.len()), label);
    let p = expire(grown(joined, sync.len()), label);
    rows_get_what_the_heads_leave(bare_message(p, owners, k), sync.len(), budget);
    let ws = Seq::new(sync.len(), |i: int| k.pools[sync[i].at as int].pool.wire());
    assert(ws =~= wires(k, sync));
}

/// Marking a peer's entity replaces that peer's row and no other.
pub proof fn marking_replaces_the_peers_row(owners: Seq<(u8, u32)>, peer: u8) -> (at: Seq<int>)
    ensures
        owner_rows_of_others(owners, peer).len() == at.len(),
        forall|k: int|
            0 <= k < at.len() ==> 0 <= #[trigger] at[k] < owners.len() && owner_rows_of_others(
                owners,
                peer,
            )[k] == owners[at[k]],
        forall|j: int, k: int| 0 <= j < k < at.len() ==> (#[trigger] at[j]) < (#[trigger] at[k]),
        forall|i: int|
            0 <= i < owners.len() ==> (#[trigger] at.contains(i) <==> owners[i].0 != peer),
{
    let at = filter_takes(owners, not_of_peer(peer));
    assert forall|i: int| 0 <= i < owners.len() implies (#[trigger] at.contains(i)
        <==> owners[i].0 != peer) by {
        assert(at.contains(i) <==> not_of_peer(peer)(owners[i]));
    }
    at
}

/// An owner table holds the rows given, ascending by peer.
pub proof fn owner_tables_ascend(rows: Seq<(u8, u32)>)
    ensures
        stable_sort(rows).len() == rows.len(),
        forall|x: (u8, u32)| #[trigger] stable_sort(rows).contains(x) <==> rows.contains(x),
        forall|i: int, j: int|
            0 <= i < j < rows.len() ==> (#[trigger] stable_sort(rows)[i]).0 <= (
            #[trigger] stable_sort(rows)[j]).0,
{
    stable_sort_exists(rows);
    stable_sort_members(stable_sort(rows), rows);
}

/// A new server replicates to nobody; a new peer has nothing acknowledged,
/// nothing confirmed and nothing in flight.
pub proof fn a_new_server_is_silent(sync: Seq<SyncRow>, pools: nat, i: int, slot: u32, p: u8)
    ensures
        !new_server(sync).peers.contains_key(p),
        new_server(sync).owners.len() == 0,
        new_server(sync).sync == sync,
        new_peer(pools).acked == 0,
        new_peer(pools).input_seq == 0,
        new_peer(pools).send_seq == 0,
        new_peer(pools).sent.len() == 0,
        new_peer(pools).pools.len() == pools,
        0 <= i < pools ==> new_peer(pools).pools[i].confirmed[slot] == 0 && new_peer(
            pools,
        ).pools[i].flying[slot] == 0 && new_peer(pools).pools[i].flying_seq[slot] == 0 && new_peer(
            pools,
        ).pools[i].cursor == 0,
{
}

/// The oldest acknowledgement is some peer's and none is older; without peers
/// it is the present.
pub proof fn the_oldest_ack_is_the_least(peers: Map<u8, PeerView>, tick: u32, m: u32, p: u8)
    requires
        is_oldest_ack(peers, tick, m),
    ensures
        (forall|q: u8| !#[trigger] peers.contains_key(q)) ==> m == tick,
        peers.contains_key(p) ==> m <= peers[p].acked && exists|q: u8| #[trigger]
            peers.contains_key(q) && peers[q].acked == m,
{
    if forall|q: u8| !#[trigger] peers.contains_key(q) {
        assert(peers.dom() =~= Set::<u8>::empty());
    }
    if peers.contains_key(p) {
        assert(peers.dom().contains(p));
        assert(peers.dom() != Set::<u8>::empty());
    }
}

} // verus!
