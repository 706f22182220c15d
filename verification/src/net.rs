//! Headless sync layer: server-authoritative snapshot-delta replication.
//! `NetServer` produces byte buffers and `NetClient` consumes them; what
//! carries them is the transport's business.
//!
//! Per peer the server tracks, per entity slot, the change tick the peer
//! last confirmed and the one in flight. A snapshot carries unconfirmed rows
//! in rotation order up to a byte budget, plus unacked removals. An ack
//! confirms exactly what that send carried and declares older unacked sends
//! lost (their rows resend). Everything is an upsert, so snapshots are
//! idempotent.
//!
//! A snapshot is labelled with the last *completed* tick, because stamps
//! from the tick in progress may still be written by tasks that haven't run.
//! Sends carry their own sequence on top, so several sends of one tick ack
//! apart.

use std::collections::VecDeque;

use vstd::prelude::*;

use crate::delta::{
    dirty_count, pack, pack_spends_exactly, picked_rows, row_bytes, row_records, settled,
    CursorView, PeerPool, SentEntry, WirePool, WireView,
};
use crate::id::Id;
use crate::kernel::{release_from, KernelView, Pm};
use crate::pool::ErasedPool;
use crate::reg::{key_of, pool_key};
use crate::snapshot::{
    cat_push, encode, head_bytes, head_len, head_of, owner_part, owners_bytes, removal_part, removals_bytes,
    section_part, sections_bytes, Message, Section,
};
use crate::sort::{
    filter_push, sort_stable, stable_sort, stable_sort_exists, stable_sort_unique, Ranked,
};
use crate::wire::{put16, put32, put_bytes};

verus! {

/// In-flight sends older than this many ticks past the newest label are
/// declared lost even without a later ack (covers a silent ack gap: the rows
/// become resendable again).
pub const INFLIGHT_EXPIRY_TICKS: u32 = 60;

/// A replicated pool: its wire name and its position in the kernel.
pub struct SyncRow {
    pub name: String,
    pub at: usize,
}

/// Every registered pool is in the kernel.
pub open spec fn sync_fits<P>(k: KernelView<P>, sync: Seq<SyncRow>) -> bool {
    forall|i: int| 0 <= i < sync.len() ==> (#[trigger] sync[i]).at < k.pools.len()
}

/// The columns of the registered pools.
pub open spec fn wires<P: WirePool>(k: KernelView<P>, sync: Seq<SyncRow>) -> Seq<WireView> {
    sync.map_values(|r: SyncRow| k.pools[r.at as int].pool.wire())
}

/// One unacked send as contracts see it.
#[verifier::ext_equal]
pub struct SendView {
    pub seq: u32,
    pub label: u32,
    pub entries: Seq<SentEntry>,
}

/// One peer as contracts see it.
#[verifier::ext_equal]
pub struct PeerView {
    /// Newest snapshot tick acked.
    pub acked: u32,
    /// Newest input sequence consumed, echoed in every header.
    pub input_seq: u32,
    /// Sequence of the newest send.
    pub send_seq: u32,
    /// Delta cursors per registered pool.
    pub pools: Seq<CursorView>,
    /// Unacked sends, oldest first.
    pub sent: Seq<SendView>,
}

/// A server as contracts see it.
#[verifier::ext_equal]
pub struct ServerView {
    pub sync: Seq<SyncRow>,
    pub peers: Map<u8, PeerView>,
    pub owners: Seq<(u8, u32)>,
}

// --- settling sends ---------------------------------------------------------

/// The cursors after these rows of one send settled.
pub open spec fn settle_all(
    pools: Seq<CursorView>,
    entries: Seq<SentEntry>,
    seq: u32,
    received: bool,
) -> Seq<CursorView>
    decreases entries.len(),
{
    if entries.len() == 0 {
        pools
    } else {
        let before = settle_all(pools, entries.drop_last(), seq, received);
        let e = entries.last();
        before.update(e.pool as int, settled(before[e.pool as int], e.slot, e.tick, seq, received))
    }
}

/// The peer after its oldest unacked send settled.
pub open spec fn settle_front(p: PeerView, received: bool) -> PeerView {
    PeerView {
        pools: settle_all(p.pools, p.sent[0].entries, p.sent[0].seq, received),
        sent: p.sent.drop_first(),
        ..p
    }
}

/// The peer after an ack of send `seq`: that send was received, every older
/// one was not.
pub open spec fn settle_upto(p: PeerView, seq: u32) -> PeerView
    decreases p.sent.len(),
{
    if p.sent.len() > 0 && p.sent[0].seq <= seq {
        settle_upto(settle_front(p, p.sent[0].seq == seq), seq)
    } else {
        p
    }
}

/// The peer after an ack.
pub open spec fn acked_by(p: PeerView, tick: u32, seq: u32) -> PeerView {
    settle_upto(
        PeerView {
            acked: if tick > p.acked {
                tick
            } else {
                p.acked
            },
            ..p
        },
        seq,
    )
}

/// The peer with sends too old for `label` declared lost.
pub open spec fn expire(p: PeerView, label: u32) -> PeerView
    decreases p.sent.len(),
{
    if p.sent.len() > 0 && p.sent[0].label + INFLIGHT_EXPIRY_TICKS < label {
        expire(settle_front(p, false), label)
    } else {
        p
    }
}

/// The peer with cursors for pools registered since it joined.
pub open spec fn grown(p: PeerView, n: nat) -> PeerView {
    PeerView {
        pools: Seq::new(
            if p.pools.len() < n {
                n
            } else {
                p.pools.len()
            },
            |i: int|
                if i < p.pools.len() {
                    p.pools[i]
                } else {
                    CursorView::fresh()
                },
        ),
        ..p
    }
}

// --- packing ----------------------------------------------------------------

/// A pool waiting to be packed, with how many of its rows need sending.
#[derive(Clone, Copy)]
pub struct Queued {
    pub at: usize,
    pub dirty: usize,
}

impl Ranked for Queued {
    /// Fewest waiting rows first: a change-dense pool never starves a sparse
    /// one.
    open spec fn rank_le(self, other: Self) -> bool {
        self.dirty <= other.dirty
    }

    proof fn rank_total(a: Self, b: Self) {
    }

    proof fn rank_transitive(a: Self, b: Self, c: Self) {
    }

    fn may_precede(&self, other: &Self) -> (r: bool) {
        self.dirty <= other.dirty
    }
}

/// The pools in registration order, each with its backlog.
pub open spec fn queue(pools: Seq<CursorView>, ws: Seq<WireView>) -> Seq<Queued> {
    Seq::new(
        ws.len(),
        |i: int|
            Queued {
                at: i as usize,
                dirty: dirty_count(pools[i], ws[i], ws[i].rows.len() as int) as usize,
            },
    )
}

/// What packing pools so far did.
#[verifier::ext_equal]
pub struct PackState {
    pub pools: Seq<CursorView>,
    pub budget: nat,
    pub sections: Seq<Section>,
    pub sent: Seq<SentEntry>,
    pub more: bool,
}

/// Pack one pool: a section of what fits, a record of what was sent.
pub open spec fn pack_pool(
    st: PackState,
    ws: Seq<WireView>,
    sync: Seq<SyncRow>,
    i: int,
    seq: u32,
) -> PackState {
    let p = pack(st.pools[i], ws[i], seq, st.budget);
    PackState {
        pools: st.pools.update(i, p.cursors),
        budget: p.budget,
        sections: st.sections.push(
            Section { key: key_of(sync[i].name@), rows: picked_rows(ws[i], p.picked) },
        ),
        sent: st.sent + row_records(ws[i], p.picked, i as u16),
        more: st.more || p.more,
    }
}

/// Pack pools in this order.
pub open spec fn pack_all(
    st: PackState,
    ws: Seq<WireView>,
    sync: Seq<SyncRow>,
    order: Seq<Queued>,
    seq: u32,
) -> PackState
    decreases order.len(),
{
    if order.len() == 0 {
        st
    } else {
        pack_pool(
            pack_all(st, ws, sync, order.drop_last(), seq),
            ws,
            sync,
            order.last().at as int,
            seq,
        )
    }
}

/// The ids removed since a peer's ack.
pub open spec fn unacked_removals(log: Seq<(Id, u32)>, acked: u32) -> Seq<Id> {
    log.filter(later_than(acked)).map_values(|r: (Id, u32)| r.0)
}

/// Passes removals after a tick.
pub open spec fn later_than(tick: u32) -> spec_fn((Id, u32)) -> bool {
    |r: (Id, u32)| r.1 > tick
}

/// The label of a snapshot taken now: the last completed tick.
pub open spec fn label_at(tick: u32) -> u32 {
    if tick == 0 {
        0
    } else {
        (tick - 1) as u32
    }
}

/// A snapshot and what taking it did to the peer.
#[verifier::ext_equal]
pub struct SnapshotView {
    pub message: Message,
    pub entries: nat,
    pub more: bool,
    pub peer: PeerView,
}

/// Pack at most `budget` bytes of what a peer hasn't confirmed. Removals and
/// the owner table always ride along.
pub open spec fn snapshot_of<P: WirePool>(
    s: ServerView,
    k: KernelView<P>,
    peer: u8,
    budget: nat,
) -> SnapshotView {
    peer_snapshot(s.peers[peer], s.sync, s.owners, k, budget)
}

/// The header of a snapshot for this peer.
pub open spec fn bare_message<P>(
    p: PeerView,
    owners: Seq<(u8, u32)>,
    k: KernelView<P>,
) -> Message {
    Message {
        tick: label_at(k.tick),
        seq: (p.send_seq + 1) as u32,
        input_seq: p.input_seq,
        owners,
        removals: unacked_removals(k.removal_log, p.acked),
        sections: Seq::empty(),
    }
}

/// Pack for one peer: expire what was lost to silence, then the pools with
/// the fewest waiting rows first.
pub open spec fn peer_snapshot<P: WirePool>(
    joined: PeerView,
    sync: Seq<SyncRow>,
    owners: Seq<(u8, u32)>,
    k: KernelView<P>,
    budget: nat,
) -> SnapshotView {
    let label = label_at(k.tick);
    let p = expire(grown(joined, sync.len()), label);
    let seq = (p.send_seq + 1) as u32;
    let bare = bare_message(p, owners, k);
    let ws = wires(k, sync);
    let st = pack_all(
        PackState {
            pools: p.pools,
            budget: pack_room(bare, sync.len(), budget),
            sections: Seq::empty(),
            sent: Seq::empty(),
            more: false,
        },
        ws,
        sync,
        stable_sort(queue(p.pools, ws)),
        seq,
    );
    SnapshotView {
        message: Message { sections: st.sections, ..bare },
        entries: st.sent.len(),
        more: st.more,
        peer: PeerView {
            send_seq: seq,
            pools: st.pools,
            sent: if st.sent.len() > 0 {
                p.sent.push(SendView { seq, label, entries: st.sent })
            } else {
                p.sent
            },
            ..p
        },
    }
}

/// The fixed part of a snapshot: the header and six bytes per pool.
pub open spec fn fixed_len(m: Message, pools: nat) -> nat {
    (head_bytes(m).len() + 6 * pools) as nat
}

/// What the fixed part leaves of the budget for rows.
pub open spec fn pack_room(m: Message, pools: nat, budget: nat) -> nat {
    if budget > fixed_len(m, pools) {
        (budget - fixed_len(m, pools)) as nat
    } else {
        0
    }
}

// --- the server -------------------------------------------------------------

/// What one unacked send carried.
struct SentSend {
    seq: u32,
    label: u32,
    entries: Vec<SentEntry>,
}

impl View for SentSend {
    type V = SendView;

    closed spec fn view(&self) -> SendView {
        SendView { seq: self.seq, label: self.label, entries: self.entries@ }
    }
}

/// A peer's replication state.
struct Peer {
    id: u8,
    acked_tick: u32,
    input_seq: u32,
    send_seq: u32,
    pools: Vec<PeerPool>,
    /// What each unacked send carried, oldest first, so an ack can confirm
    /// exactly that send's rows — and declare everything older lost.
    sent: VecDeque<SentSend>,
}

impl View for Peer {
    type V = PeerView;

    closed spec fn view(&self) -> PeerView {
        PeerView {
            acked: self.acked_tick,
            input_seq: self.input_seq,
            send_seq: self.send_seq,
            pools: self.pools@.map_values(|p: PeerPool| p@),
            sent: self.sent@.map_values(|s: SentSend| s@),
        }
    }
}

/// Sends wait for their acks oldest first, each under its own sequence.
pub open spec fn sends_ascend(sent: Seq<SendView>) -> bool {
    &&& forall|i: int| 0 <= i < sent.len() ==> (#[trigger] sent[i]).seq > 0
    &&& forall|i: int, j: int|
        0 <= i < j < sent.len() ==> (#[trigger] sent[i]).seq < (#[trigger] sent[j]).seq
}

/// No sequence in flight, no change in flight.
pub open spec fn flights_agree(pools: Seq<CursorView>) -> bool {
    forall|j: int, r: u32|
        0 <= j < pools.len() && pools[j].flying_seq[r] == 0 ==> #[trigger] pools[j].flying[r] == 0
}

/// Settling keeps flights in agreement.
pub proof fn settle_all_agrees(
    pools: Seq<CursorView>,
    entries: Seq<SentEntry>,
    seq: u32,
    received: bool,
)
    requires
        flights_agree(pools),
        forall|k: int| 0 <= k < entries.len() ==> (#[trigger] entries[k]).pool < pools.len(),
    ensures
        flights_agree(settle_all(pools, entries, seq, received)),
        settle_all(pools, entries, seq, received).len() == pools.len(),
    decreases entries.len(),
{
    if entries.len() > 0 {
        let init = entries.drop_last();
        assert forall|k: int| 0 <= k < init.len() implies (#[trigger] init[k]).pool
            < pools.len() by {
            assert(init[k] == entries[k]);
        }
        settle_all_agrees(pools, init, seq, received);
        let before = settle_all(pools, init, seq, received);
        let e = entries.last();
        assert(entries[entries.len() - 1] == e);
        let out = settle_all(pools, entries, seq, received);
        assert forall|j: int, r: u32|
            0 <= j < out.len() && out[j].flying_seq[r] == 0 implies #[trigger] out[j].flying[r]
            == 0 by {
            assert(before[j].flying_seq[r] == 0 ==> before[j].flying[r] == 0);
        }
    }
}

/// Launching rows under a real sequence keeps flights in agreement.
proof fn pack_agrees(pp: CursorView, w: WireView, seq: u32, budget: nat)
    requires
        seq > 0,
        forall|r: u32| pp.flying_seq[r] == 0 ==> #[trigger] pp.flying[r] == 0,
    ensures
        forall|r: u32|
            pack(pp, w, seq, budget).cursors.flying_seq[r] == 0 ==> #[trigger] pack(
                pp,
                w,
                seq,
                budget,
            ).cursors.flying[r] == 0,
{
    launch_agrees(pp, w, pack(pp, w, seq, budget).picked, seq);
}

/// Launching rows under a real sequence keeps flights in agreement.
proof fn launch_agrees(pp: CursorView, w: WireView, picked: Seq<int>, seq: u32)
    requires
        seq > 0,
        forall|r: u32| pp.flying_seq[r] == 0 ==> #[trigger] pp.flying[r] == 0,
    ensures
        forall|r: u32|
            pp.launch(w, picked, seq).flying_seq[r] == 0 ==> #[trigger] pp.launch(
                w,
                picked,
                seq,
            ).flying[r] == 0,
    decreases picked.len(),
{
    if picked.len() > 0 {
        launch_agrees(pp, w, picked.drop_last(), seq);
        let before = pp.launch(w, picked.drop_last(), seq);
        let out = pp.launch(w, picked, seq);
        assert forall|r: u32| out.flying_seq[r] == 0 implies #[trigger] out.flying[r] == 0 by {
            assert(before.flying_seq[r] == 0 ==> before.flying[r] == 0);
        }
    }
}

/// Packing keeps flights in agreement.
proof fn pack_all_agrees(
    st: PackState,
    ws: Seq<WireView>,
    sync: Seq<SyncRow>,
    order: Seq<Queued>,
    seq: u32,
)
    requires
        seq > 0,
        flights_agree(st.pools),
        forall|k: int| 0 <= k < order.len() ==> (#[trigger] order[k]).at < st.pools.len(),
    ensures
        flights_agree(pack_all(st, ws, sync, order, seq).pools),
        pack_all(st, ws, sync, order, seq).pools.len() == st.pools.len(),
    decreases order.len(),
{
    if order.len() > 0 {
        let init = order.drop_last();
        assert forall|k: int| 0 <= k < init.len() implies (#[trigger] init[k]).at
            < st.pools.len() by {
            assert(init[k] == order[k]);
        }
        pack_all_agrees(st, ws, sync, init, seq);
        let mid = pack_all(st, ws, sync, init, seq);
        let i = order.last().at as int;
        assert(order[order.len() - 1].at < st.pools.len());
        assert forall|r: u32| mid.pools[i].flying_seq[r] == 0 implies #[trigger] mid.pools[i].flying[r]
            == 0 by {
        }
        pack_agrees(mid.pools[i], ws[i], seq, mid.budget);
        let out = pack_pool(mid, ws, sync, i, seq);
        assert forall|j: int, r: u32|
            0 <= j < out.pools.len() && out.pools[j].flying_seq[r] == 0 implies (
        #[trigger] out.pools[j].flying[r]) == 0 by {
            assert(mid.pools[j].flying_seq[r] == 0 ==> mid.pools[j].flying[r] == 0);
        }
    }
}

/// What holds of a peer's replication state at all times.
pub open spec fn peer_sound(p: PeerView) -> bool {
    &&& sends_ascend(p.sent)
    &&& sent_fits(p.sent, p.pools.len())
    &&& flights_agree(p.pools)
    &&& forall|i: int| 0 <= i < p.sent.len() ==> (#[trigger] p.sent[i]).seq <= p.send_seq
}

/// Every row of every unacked send names a pool the peer has cursors for.
pub open spec fn sent_fits(sent: Seq<SendView>, n: nat) -> bool {
    forall|i: int, j: int|
        0 <= i < sent.len() && 0 <= j < sent[i].entries.len() ==> (
        #[trigger] sent[i].entries[j]).pool < n
}

impl Peer {
    spec fn wf(&self) -> bool {
        &&& forall|i: int| 0 <= i < self.pools@.len() ==> (#[trigger] self.pools@[i]).wf()
        &&& peer_sound(self@)
    }

    /// Settle one sent row.
    fn settle_row(&mut self, e: SentEntry, seq: u32, received: bool)
        requires
            forall|i: int|
                0 <= i < old(self).pools@.len() ==> (#[trigger] old(self).pools@[i]).wf(),
            e.pool < old(self).pools@.len(),
        ensures
            forall|i: int|
                0 <= i < final(self).pools@.len() ==> (#[trigger] final(self).pools@[i]).wf(),
            final(self)@ == (PeerView {
                pools: old(self)@.pools.update(
                    e.pool as int,
                    settled(old(self)@.pools[e.pool as int], e.slot, e.tick, seq, received),
                ),
                ..old(self)@
            }),
            final(self).id == old(self).id,
            final(self).pools@.len() == old(self).pools@.len(),
    {
        let i: usize = e.pool as usize;
        self.pools[i].settle_row(e.slot, e.tick, seq, received);
        assert(self@ =~= PeerView {
            pools: old(self)@.pools.update(
                e.pool as int,
                settled(old(self)@.pools[e.pool as int], e.slot, e.tick, seq, received),
            ),
            ..old(self)@
        });
    }

    /// Settle the oldest unacked send: confirm its rows if the peer received
    /// it, and either way clear their in-flight marks (unless a newer send
    /// superseded them) so lost rows qualify again.
    fn settle_oldest(&mut self, received: bool)
        requires
            old(self).wf(),
            old(self)@.sent.len() > 0,
        ensures
            final(self).wf(),
            final(self)@ == settle_front(old(self)@, received),
            final(self).id == old(self).id,
            final(self).pools@.len() == old(self).pools@.len(),
    {
        let ghost p0 = self@;
        let send: SentSend = self.sent.pop_front().unwrap();
        assert(self@.sent =~= p0.sent.drop_first());
        assert(send@ == p0.sent[0]);
        let ghost p1 = self@;
        let mut k: usize = 0;
        assert(send.entries@.take(0) =~= Seq::<SentEntry>::empty());
        assert forall|j: int| 0 <= j < send.entries@.len() implies (
        #[trigger] send.entries@[j]).pool < self.pools@.len() by {
            assert(p0.sent[0].entries[j] == send.entries@[j]);
        }
        while k < send.entries.len()
            invariant
                k <= send.entries@.len(),
                forall|i: int| 0 <= i < self.pools@.len() ==> (#[trigger] self.pools@[i]).wf(),
                self.pools@.len() == old(self).pools@.len(),
                forall|j: int|
                    0 <= j < send.entries@.len() ==> (#[trigger] send.entries@[j]).pool
                        < self.pools@.len(),
                self@ == (PeerView {
                    pools: settle_all(
                        p1.pools,
                        send.entries@.take(k as int),
                        send.seq,
                        received,
                    ),
                    ..p1
                }),
                self.id == old(self).id,
            decreases send.entries@.len() - k,
        {
            proof {
                let next = send.entries@.take(k + 1);
                assert(next.drop_last() =~= send.entries@.take(k as int));
                assert(next.last() == send.entries@[k as int]);
            }
            self.settle_row(send.entries[k], send.seq, received);
            k += 1;
        }
        proof {
            assert(send.entries@.take(k as int) =~= send.entries@);
            assert(self@ =~= settle_front(p0, received));
            settle_all_agrees(p1.pools, send.entries@, send.seq, received);
            assert forall|i: int| 0 <= i < self@.sent.len() implies (#[trigger] self@.sent[i]).seq
                > 0 && self@.sent[i].seq <= self@.send_seq by {
                assert(self@.sent[i] == p0.sent[i + 1]);
            }
            assert forall|i: int, j: int| 0 <= i < j < self@.sent.len() implies (
            #[trigger] self@.sent[i]).seq < (#[trigger] self@.sent[j]).seq by {
                assert(self@.sent[i] == p0.sent[i + 1] && self@.sent[j] == p0.sent[j + 1]);
            }
            assert forall|i: int, j: int|
                0 <= i < self@.sent.len() && 0 <= j < self@.sent[i].entries.len() implies (
            #[trigger] self@.sent[i].entries[j]).pool < self.pools@.len() by {
                assert(self@.sent[i] == p0.sent[i + 1]);
                assert(p0.sent[i + 1].entries[j].pool < old(self).pools@.len());
            }
        }
    }

    /// Settle everything an ack of `seq` decides.
    fn ack(&mut self, tick: u32, seq: u32)
        requires
            old(self).wf(),
        ensures
            final(self).wf(),
            final(self)@ == acked_by(old(self)@, tick, seq),
            final(self).id == old(self).id,
            final(self).pools@.len() == old(self).pools@.len(),
    {
        if tick > self.acked_tick {
            self.acked_tick = tick;
        }
        proof {
            assert(self@.sent =~= old(self)@.sent);
            assert(self@ =~= PeerView {
                acked: if tick > old(self)@.acked {
                    tick
                } else {
                    old(self)@.acked
                },
                ..old(self)@
            });
        }
        let ghost p0 = self@;
        while self.sent.len() > 0 && self.sent[0].seq <= seq
            invariant
                self.wf(),
                self.id == old(self).id,
                self.pools@.len() == old(self).pools@.len(),
                settle_upto(self@, seq) == settle_upto(p0, seq),
            decreases self.sent@.len(),
        {
            assert(self@.sent[0] == self.sent@[0]@);
            let received: bool = self.sent[0].seq == seq;
            let ghost n = self.sent@.len();
            self.settle_oldest(received);
            assert(self@.sent.len() == n - 1);
        }
        proof {
            if self@.sent.len() > 0 {
                assert(self@.sent[0] == self.sent@[0]@);
            }
        }
    }

    /// A long silent ack gap (every ack lost, or none sent): declare stale
    /// sends lost so their rows resend.
    fn expire(&mut self, label: u32)
        requires
            old(self).wf(),
        ensures
            final(self).wf(),
            final(self)@ == expire(old(self)@, label),
            final(self).id == old(self).id,
            final(self).pools@.len() == old(self).pools@.len(),
    {
        while self.sent.len() > 0 && self.sent[0].label.saturating_add(INFLIGHT_EXPIRY_TICKS)
            < label
            invariant
                self.wf(),
                self.id == old(self).id,
                self.pools@.len() == old(self).pools@.len(),
                expire(self@, label) == expire(old(self)@, label),
            decreases self.sent@.len(),
        {
            assert(self@.sent[0] == self.sent@[0]@);
            let ghost n = self.sent@.len();
            self.settle_oldest(false);
            assert(self@.sent.len() == n - 1);
        }
        proof {
            if self@.sent.len() > 0 {
                assert(self@.sent[0] == self.sent@[0]@);
            }
        }
    }

    /// Add cursors for pools registered since the peer joined.
    fn grow(&mut self, n: usize)
        requires
            old(self).wf(),
        ensures
            final(self).wf(),
            final(self)@ == grown(old(self)@, n as nat),
            final(self).id == old(self).id,
            final(self).pools@.len() == final(self)@.pools.len(),
    {
        let ghost m = self.pools@.len();
        while self.pools.len() < n
            invariant
                m == old(self).pools@.len(),
                m <= self.pools@.len(),
                self.pools@.len() <= n || self.pools@.len() == m,
                forall|i: int| 0 <= i < self.pools@.len() ==> (#[trigger] self.pools@[i]).wf(),
                forall|i: int| 0 <= i < m ==> (#[trigger] self.pools@[i]) == old(self).pools@[i],
                forall|i: int|
                    m <= i < self.pools@.len() ==> (#[trigger] self.pools@[i])@
                        == CursorView::fresh(),
                self@ == (PeerView { pools: self@.pools, ..old(self)@ }),
                self.id == old(self).id,
            decreases n - self.pools@.len(),
        {
            self.pools.push(PeerPool::new());
        }
        proof {
            assert(self@ =~= grown(old(self)@, n as nat));
            assert(flights_agree(self@.pools)) by {
                assert forall|j: int, r: u32|
                    0 <= j < self@.pools.len() && self@.pools[j].flying_seq[r]
                        == 0 implies #[trigger] self@.pools[j].flying[r] == 0 by {
                    if j < m {
                        assert(self@.pools[j] == old(self)@.pools[j]);
                        assert(old(self)@.pools[j].flying_seq[r] == 0 ==> old(
                            self)@.pools[j].flying[r] == 0);
                    }
                }
            }
            assert(sent_fits(self@.sent, self@.pools.len())) by {
                assert forall|a: int, b: int|
                    0 <= a < self@.sent.len() && 0 <= b < self@.sent[a].entries.len() implies (
                #[trigger] self@.sent[a].entries[b]).pool < self@.pools.len() by {
                    assert(old(self)@.sent[a].entries[b].pool < old(self)@.pools.len());
                }
            }
        }
    }
}

/// Expiring sends leaves the rest of the peer alone.
pub proof fn expire_frame(p: PeerView, label: u32)
    ensures
        expire(p, label).acked == p.acked,
        expire(p, label).input_seq == p.input_seq,
        expire(p, label).send_seq == p.send_seq,
    decreases p.sent.len(),
{
    if p.sent.len() > 0 && p.sent[0].label + INFLIGHT_EXPIRY_TICKS < label {
        expire_frame(settle_front(p, false), label);
    }
}

/// Packing writes a section per pool.
pub proof fn pack_all_sections(
    st: PackState,
    ws: Seq<WireView>,
    sync: Seq<SyncRow>,
    order: Seq<Queued>,
    seq: u32,
)
    ensures
        pack_all(st, ws, sync, order, seq).sections.len() == st.sections.len() + order.len(),
    decreases order.len(),
{
    if order.len() > 0 {
        pack_all_sections(st, ws, sync, order.drop_last(), seq);
    }
}

/// One section more adds its bytes behind.
proof fn sections_bytes_push(sections: Seq<Section>, s: Section)
    ensures
        sections_bytes(sections.push(s)) == sections_bytes(sections) + section_part(s),
{
    let f = |s: Section| section_part(s);
    assert(sections.push(s).map_values(f) =~= sections.map_values(f).push(section_part(s)));
    cat_push(sections.map_values(f), section_part(s));
}

/// Append the owner table.
fn put_owners(out: &mut Vec<u8>, owners: &Vec<(u8, u32)>)
    ensures
        final(out)@ == old(out)@ + owners_bytes(owners@),
{
    let ghost f = |o: (u8, u32)| owner_part(o);
    let mut i: usize = 0;
    proof {
        assert(owners@.take(0).map_values(f) =~= Seq::<Seq<u8>>::empty());
        assert(out@ =~= old(out)@ + owners_bytes(owners@.take(0)));
    }
    while i < owners.len()
        invariant
            i <= owners@.len(),
            f == (|o: (u8, u32)| owner_part(o)),
            out@ == old(out)@ + owners_bytes(owners@.take(i as int)),
        decreases owners@.len() - i,
    {
        let ghost before = out@;
        let (peer, id): (u8, u32) = owners[i];
        out.push(peer);
        put32(out, id);
        proof {
            let done = owners@.take(i as int).map_values(f);
            assert(owners@.take(i + 1).map_values(f) =~= done.push(owner_part(owners@[i as int])));
            cat_push(done, owner_part(owners@[i as int]));
            assert(out@ =~= before + owner_part(owners@[i as int]));
            assert(out@ =~= old(out)@ + owners_bytes(owners@.take(i + 1)));
        }
        i += 1;
    }
    assert(owners@.take(i as int) =~= owners@);
}

/// The ids removed after a tick, in log order.
fn removals_after(log: &[(Id, u32)], acked: u32) -> (r: Vec<Id>)
    ensures
        r@ == unacked_removals(log@, acked),
        r@.len() <= log@.len(),
{
    let mut out: Vec<Id> = Vec::new();
    let mut i: usize = 0;
    let ghost f = |r: (Id, u32)| r.0;
    proof {
        assert(log@.take(0) =~= Seq::<(Id, u32)>::empty());
        reveal(Seq::filter);
        assert(out@ =~= unacked_removals(log@.take(0), acked));
    }
    while i < log.len()
        invariant
            i <= log@.len(),
            f == (|r: (Id, u32)| r.0),
            out@.len() <= i,
            out@ == unacked_removals(log@.take(i as int), acked),
        decreases log@.len() - i,
    {
        let (id, at): (Id, u32) = log[i];
        proof {
            let head = log@.take(i as int);
            assert(log@.take(i + 1) =~= head.push(log@[i as int]));
            filter_push(head, log@[i as int], later_than(acked));
            assert(head.filter(later_than(acked)).push(log@[i as int]).map_values(f)
                =~= head.filter(later_than(acked)).map_values(f).push(id));
        }
        if at > acked {
            out.push(id);
        }
        i += 1;
    }
    assert(log@.take(i as int) =~= log@);
    out
}

/// Append a removal list.
fn put_removals(out: &mut Vec<u8>, ids: &Vec<Id>)
    ensures
        final(out)@ == old(out)@ + removals_bytes(ids@),
{
    let ghost f = |id: Id| removal_part(id);
    let mut i: usize = 0;
    proof {
        assert(ids@.take(0).map_values(f) =~= Seq::<Seq<u8>>::empty());
        assert(out@ =~= old(out)@ + removals_bytes(ids@.take(0)));
    }
    while i < ids.len()
        invariant
            i <= ids@.len(),
            f == (|id: Id| removal_part(id)),
            out@ == old(out)@ + removals_bytes(ids@.take(i as int)),
        decreases ids@.len() - i,
    {
        let ghost before = out@;
        put32(out, ids[i].0);
        proof {
            let done = ids@.take(i as int).map_values(f);
            assert(ids@.take(i + 1).map_values(f) =~= done.push(removal_part(ids@[i as int])));
            cat_push(done, removal_part(ids@[i as int]));
            assert(out@ =~= old(out)@ + removals_bytes(ids@.take(i + 1)));
        }
        i += 1;
    }
    assert(ids@.take(i as int) =~= ids@);
}

impl Peer {
    /// The pools in packing order.
    fn packing_order<P: WirePool>(&self, pm: &Pm<P>, sync: &Vec<SyncRow>) -> (r: Vec<Queued>)
        requires
            self.wf(),
            pm.wf(),
            sync_fits(pm@, sync@),
            self.pools@.len() >= sync@.len(),
        ensures
            r@ == stable_sort(queue(self@.pools, wires(pm@, sync@))),
            r@.len() == sync@.len(),
            forall|k: int| 0 <= k < r@.len() ==> (#[trigger] r@[k]).at < sync@.len(),
    {
        let ghost ws = wires(pm@, sync@);
        let ghost q = queue(self@.pools, ws);
        let mut out: Vec<Queued> = Vec::new();
        let mut i: usize = 0;
        while i < sync.len()
            invariant
                self.wf(),
                pm.wf(),
                sync_fits(pm@, sync@),
                self.pools@.len() >= sync@.len(),
                ws == wires(pm@, sync@),
                q == queue(self@.pools, ws),
                i <= sync@.len(),
                out@.len() == i,
                forall|k: int| 0 <= k < i ==> #[trigger] out@[k] == q[k],
            decreases sync@.len() - i,
        {
            let at: usize = sync[i].at;
            proof {
                pm.wf_parts();
                assert(sync@[i as int].at < pm@.pools.len());
                assert(pm@.pools[at as int].pool.erased_wf());
                assert(self@.pools[i as int] == self.pools@[i as int]@);
                assert(ws[i as int] == pm@.pools[at as int].pool.wire());
            }
            let dirty: usize = self.pools[i].count_dirty(pm.pool_at(at));
            out.push(Queued { at: i, dirty });
            i += 1;
        }
        assert(out@ =~= q);
        sort_stable(&mut out);
        proof {
            stable_sort_exists(q);
            stable_sort_unique(out@, stable_sort(q), q);
            crate::sort::stable_sort_members(out@, q);
            assert forall|k: int| 0 <= k < out@.len() implies (#[trigger] out@[k]).at
                < sync@.len() by {
                assert(out@.contains(out@[k]));
                let j = choose|j: int| 0 <= j < q.len() && q[j] == out@[k];
                assert(q[j] == out@[k]);
            }
        }
        out
    }

    /// Pack the pools in this order, a section each.
    #[verifier::rlimit(40)]
    fn pack_pools<P: WirePool>(
        &mut self,
        pm: &Pm<P>,
        sync: &Vec<SyncRow>,
        order: &Vec<Queued>,
        seq: u32,
        room: usize,
        out: &mut Vec<u8>,
    ) -> (r: (Vec<SentEntry>, bool))
        requires
            old(self).wf(),
            pm.wf(),
            sync_fits(pm@, sync@),
            sync@.len() <= u16::MAX,
            old(self).pools@.len() >= sync@.len(),
            forall|k: int| 0 <= k < order@.len() ==> (#[trigger] order@[k]).at < sync@.len(),
        ensures
            final(self).id == old(self).id,
            final(self).pools@.len() == old(self).pools@.len(),
            final(self).sent == old(self).sent,
            forall|i: int|
                0 <= i < final(self).pools@.len() ==> (#[trigger] final(self).pools@[i]).wf(),
            ({
                let st = pack_all(
                    PackState {
                        pools: old(self)@.pools,
                        budget: room as nat,
                        sections: Seq::empty(),
                        sent: Seq::empty(),
                        more: false,
                    },
                    wires(pm@, sync@),
                    sync@,
                    order@,
                    seq,
                );
                &&& final(self)@ == (PeerView { pools: st.pools, ..old(self)@ })
                &&& final(out)@ == old(out)@ + sections_bytes(st.sections)
                &&& r.0@ == st.sent
                &&& r.1 == st.more
                &&& sections_bytes(st.sections).len() + st.budget == room + 6 * order@.len()
            }),
            forall|k: int| 0 <= k < r.0@.len() ==> (#[trigger] r.0@[k]).pool < sync@.len(),
    {
        let ghost ws = wires(pm@, sync@);
        let ghost st0 = PackState {
            pools: self@.pools,
            budget: room as nat,
            sections: Seq::empty(),
            sent: Seq::empty(),
            more: false,
        };
        let mut remaining: usize = room;
        let mut sent: Vec<SentEntry> = Vec::new();
        let mut more: bool = false;
        let mut k: usize = 0;
        let ghost mut st = st0;
        proof {
            assert(order@.take(0) =~= Seq::<Queued>::empty());
            assert(sections_bytes(st.sections) =~= Seq::<u8>::empty()) by {
                assert(st.sections.map_values(|s: Section| section_part(s)) =~= Seq::<
                    Seq<u8>,
                >::empty());
            }
            assert(out@ =~= old(out)@ + sections_bytes(st.sections));
        }
        while k < order.len()
            invariant
                pm.wf(),
                sync_fits(pm@, sync@),
                sync@.len() <= u16::MAX,
                self.id == old(self).id,
                self.sent == old(self).sent,
                self.pools@.len() == old(self).pools@.len(),
                self.pools@.len() >= sync@.len(),
                ws == wires(pm@, sync@),
                forall|i: int| 0 <= i < self.pools@.len() ==> (#[trigger] self.pools@[i]).wf(),
                forall|j: int| 0 <= j < order@.len() ==> (#[trigger] order@[j]).at < sync@.len(),
                k <= order@.len(),
                st == pack_all(st0, ws, sync@, order@.take(k as int), seq),
                self@ == (PeerView { pools: st.pools, ..old(self)@ }),
                remaining == st.budget,
                out@ == old(out)@ + sections_bytes(st.sections),
                sent@ == st.sent,
                more == st.more,
                sections_bytes(st.sections).len() + st.budget == room + 6 * k,
                forall|j: int| 0 <= j < sent@.len() ==> (#[trigger] sent@[j]).pool < sync@.len(),
            decreases order@.len() - k,
        {
            let i: usize = order[k].at;
            let at: usize = sync[i].at;
            let ghost w = ws[i as int];
            let ghost prior = st;
            let ghost pools0 = self.pools@;
            proof {
                pm.wf_parts();
                assert(sync@[i as int].at < pm@.pools.len());
                assert(pm@.pools[at as int].pool.erased_wf());
                pm@.pools[at as int].pool.wire_wf();
                assert(w == pm@.pools[at as int].pool.wire());
                assert(st.pools[i as int] == self.pools@[i as int]@);
                pack_spends_exactly(st.pools[i as int], w, seq, st.budget);
            }
            let ghost p = pack(st.pools[i as int], w, seq, st.budget);
            let mut body: Vec<u8> = Vec::new();
            let (count, left): (u32, bool) = self.pools[i].pack_dirty(
                pm.pool_at(at),
                seq,
                i as u16,
                &mut remaining,
                &mut body,
                &mut sent,
            );
            more = more || left;
            put16(out, pool_key(sync[i].name.as_str()));
            put32(out, count);
            put_bytes(out, body.as_slice());
            proof {
                let next = order@.take(k + 1);
                assert(next.drop_last() =~= order@.take(k as int));
                assert(next.last() == order@[k as int]);
                st = pack_pool(prior, ws, sync@, i as int, seq);
                let s = Section {
                    key: key_of(sync@[i as int].name@),
                    rows: picked_rows(w, p.picked),
                };
                assert(body@ =~= row_bytes(w, p.picked));
                assert(s.rows.len() == p.picked.len());
                sections_bytes_push(prior.sections, s);
                assert(out@ =~= old(out)@ + sections_bytes(st.sections));
                assert(self@.pools =~= st.pools);
                assert(self@ =~= PeerView { pools: st.pools, ..old(self)@ });
                assert forall|j: int| 0 <= j < sent@.len() implies (#[trigger] sent@[j]).pool
                    < sync@.len() by {
                    if j >= prior.sent.len() {
                        assert(sent@[j] == row_records(w, p.picked, i as u16)[j
                            - prior.sent.len()]);
                    }
                }
            }
            k += 1;
        }
        assert(order@.take(k as int) =~= order@);
        (sent, more)
    }
}

/// Append a snapshot's header.
fn put_head(
    out: &mut Vec<u8>,
    label: u32,
    seq: u32,
    input_seq: u32,
    owners: &Vec<(u8, u32)>,
    removals: &Vec<Id>,
    sections: u16,
)
    requires
        owners@.len() <= u8::MAX,
        removals@.len() <= u32::MAX,
    ensures
        final(out)@ == old(out)@ + head_of(
            label,
            seq,
            input_seq,
            owners@,
            removals@,
            sections as nat,
        ),
{
    put32(out, label);
    put32(out, seq);
    put32(out, input_seq);
    out.push(owners.len() as u8);
    put_owners(out, owners);
    put32(out, removals.len() as u32);
    put_removals(out, removals);
    put16(out, sections);
    proof {
        reveal(head_of);
        assert(out@ =~= old(out)@ + head_of(
            label,
            seq,
            input_seq,
            owners@,
            removals@,
            sections as nat,
        ));
    }
}

impl Peer {
    /// Take a snapshot for this peer and record what it carried.
    #[verifier::rlimit(40)]
    fn take_snapshot<P: WirePool>(
        &mut self,
        sync: &Vec<SyncRow>,
        owners: &Vec<(u8, u32)>,
        pm: &Pm<P>,
        budget: usize,
    ) -> (r: Snapshot)
        requires
            old(self).wf(),
            old(self).pools@.len() <= sync@.len(),
            old(self)@.send_seq < u32::MAX,
            pm.wf(),
            sync_fits(pm@, sync@),
            sync@.len() <= u16::MAX,
            owners@.len() <= u8::MAX,
            pm@.removal_log.len() <= u32::MAX,
        ensures
            final(self).wf(),
            final(self).id == old(self).id,
            final(self).pools@.len() <= sync@.len(),
            ({
                let out = peer_snapshot(old(self)@, sync@, owners@, pm@, budget as nat);
                &&& r.bytes@ == encode(out.message)
                &&& r.entries == out.entries
                &&& r.more == out.more
                &&& final(self)@ == out.peer
                &&& r.bytes@.len() <= budget || r.bytes@.len() <= fixed_len(
                    out.message,
                    sync@.len(),
                )
            }),
    {
        let n: usize = sync.len();
        let label: u32 = if pm.tick() == 0 {
            0
        } else {
            pm.tick() - 1
        };
        let ghost joined = self@;
        self.grow(n);
        self.expire(label);
        let ghost p = self@;
        proof {
            expire_frame(grown(joined, n as nat), label);
        }
        let seq: u32 = self.send_seq + 1;
        let ghost bare = bare_message(p, owners@, pm@);
        let removals: Vec<Id> = removals_after(pm.removal_log(), self.acked_tick);
        let mut out: Vec<u8> = Vec::new();
        put_head(&mut out, label, seq, self.input_seq, owners, &removals, n as u16);
        let ghost fixed = out@;
        proof {
            let any = Seq::new(n as nat, |j: int| Section { key: 0, rows: Seq::empty() });
            head_len(bare, any);
            assert(fixed =~= head_bytes(Message { sections: any, ..bare }));
        }
        // Six bytes of section header (key and count) per pool.
        let room: usize = budget.saturating_sub(out.len()).saturating_sub(6 * n);
        assert(room == pack_room(bare, n as nat, budget as nat));
        let order: Vec<Queued> = self.packing_order(pm, sync);
        let ghost st0 = PackState {
            pools: p.pools,
            budget: room as nat,
            sections: Seq::empty(),
            sent: Seq::empty(),
            more: false,
        };
        let ghost st = pack_all(st0, wires(pm@, sync@), sync@, order@, seq);
        let (sent, more): (Vec<SentEntry>, bool) = self.pack_pools(
            pm,
            sync,
            &order,
            seq,
            room,
            &mut out,
        );
        let entries: usize = sent.len();
        self.send_seq = seq;
        let ghost m = Message { sections: st.sections, ..bare };
        proof {
            pack_all_sections(st0, wires(pm@, sync@), sync@, order@, seq);
            head_len(bare, st.sections);
            assert(fixed =~= head_bytes(m));
            assert(out@ =~= encode(m));
        }
        proof {
            pack_all_agrees(st0, wires(pm@, sync@), sync@, order@, seq);
        }
        if entries > 0 {
            self.sent.push_back(SentSend { seq, label, entries: sent });
        }
        proof {
            let done = peer_snapshot(joined, sync@, owners@, pm@, budget as nat);
            assert(done.message == m);
            assert(done.entries == st.sent.len() && done.more == st.more);
            assert(out@.len() == fixed.len() + sections_bytes(st.sections).len());
            assert(fixed_len(m, n as nat) == fixed.len() + 6 * n);
            assert(out@.len() <= budget || out@.len() <= fixed_len(m, n as nat));
            assert(self@.sent =~= done.peer.sent);
            assert(self@ =~= done.peer);
            assert forall|a: int| 0 <= a < self@.sent.len() implies (#[trigger] self@.sent[a]).seq
                > 0 && self@.sent[a].seq <= self@.send_seq by {
                if a < p.sent.len() {
                    assert(self@.sent[a] == p.sent[a]);
                }
            }
            assert forall|a: int, b: int| 0 <= a < b < self@.sent.len() implies (
            #[trigger] self@.sent[a]).seq < (#[trigger] self@.sent[b]).seq by {
                assert(self@.sent[a] == p.sent[a]);
                if b < p.sent.len() {
                    assert(self@.sent[b] == p.sent[b]);
                }
            }
            assert forall|a: int, b: int|
                0 <= a < self@.sent.len() && 0 <= b < self@.sent[a].entries.len() implies (
            #[trigger] self@.sent[a].entries[b]).pool < self.pools@.len() by {
                if a < p.sent.len() {
                    assert(self@.sent[a] == p.sent[a]);
                    assert(p.sent[a].entries[b].pool < n);
                } else {
                    assert(self@.sent[a].entries == st.sent);
                }
            }
        }
        Snapshot { bytes: out, entries, more }
    }
}

/// Server side: owns the peer table, packs per-peer deltas, gates id
/// recycling on acks.
pub struct NetServer {
    sync: Vec<SyncRow>,
    /// Ascending by peer.
    peers: Vec<Peer>,
    /// Ascending by peer.
    owners: Vec<(u8, u32)>,
}

/// The peer table's rows by peer id.
spec fn peer_map(peers: Seq<Peer>) -> Map<u8, PeerView> {
    Map::new(
        |p: u8| exists|i: int| 0 <= i < peers.len() && (#[trigger] peers[i]).id == p,
        |p: u8|
            {
                let i = choose|i: int| 0 <= i < peers.len() && (#[trigger] peers[i]).id == p;
                peers[i]@
            },
    )
}

/// Peers ascend.
spec fn peers_ascend(peers: Seq<Peer>) -> bool {
    forall|i: int, j: int|
        0 <= i < j < peers.len() ==> (#[trigger] peers[i]).id < (#[trigger] peers[j]).id
}

/// The table holds each peer under its id.
proof fn peer_map_row(peers: Seq<Peer>, i: int)
    requires
        peers_ascend(peers),
        0 <= i < peers.len(),
    ensures
        peer_map(peers).contains_key(peers[i].id),
        peer_map(peers)[peers[i].id] == peers[i]@,
{
    let p = peers[i].id;
    let j = choose|j: int| 0 <= j < peers.len() && (#[trigger] peers[j]).id == p;
    assert(peers[j].id == p);
    if j < i {
        assert(peers[j].id < peers[i].id);
    } else if j > i {
        assert(peers[i].id < peers[j].id);
    }
}

/// Replacing a peer's state replaces its row.
proof fn peer_map_update(before: Seq<Peer>, after: Seq<Peer>, i: int)
    requires
        peers_ascend(before),
        0 <= i < before.len(),
        after.len() == before.len(),
        after[i].id == before[i].id,
        forall|j: int| 0 <= j < before.len() && j != i ==> #[trigger] after[j] == before[j],
    ensures
        peers_ascend(after),
        peer_map(after) == peer_map(before).insert(before[i].id, after[i]@),
{
    assert forall|a: int, b: int| 0 <= a < b < after.len() implies (#[trigger] after[a]).id < (
    #[trigger] after[b]).id by {
        assert(before[a].id < before[b].id);
    }
    let want = peer_map(before).insert(before[i].id, after[i]@);
    assert forall|p: u8| #[trigger] peer_map(after).contains_key(p) <==> want.contains_key(p) by {
        if peer_map(after).contains_key(p) {
            let j = choose|j: int| 0 <= j < after.len() && (#[trigger] after[j]).id == p;
            assert(before[j].id == p);
        }
        if want.contains_key(p) {
            if p == before[i].id {
                assert(after[i].id == p);
            } else {
                let j = choose|j: int| 0 <= j < before.len() && (#[trigger] before[j]).id == p;
                assert(after[j].id == p);
            }
        }
    }
    assert forall|p: u8| #[trigger] peer_map(after).contains_key(p) implies peer_map(after)[p]
        == want[p] by {
        let j = choose|j: int| 0 <= j < after.len() && (#[trigger] after[j]).id == p;
        peer_map_row(after, j);
        if j != i {
            peer_map_row(before, j);
            if j < i {
                assert(before[j].id < before[i].id);
            } else {
                assert(before[i].id < before[j].id);
            }
        }
    }
    assert(peer_map(after) =~= want);
}

/// Inserting a peer in order adds its row.
proof fn peer_map_insert(before: Seq<Peer>, at: int, p: Peer)
    requires
        peers_ascend(before),
        0 <= at <= before.len(),
        forall|j: int| 0 <= j < at ==> (#[trigger] before[j]).id < p.id,
        forall|j: int| at <= j < before.len() ==> (#[trigger] before[j]).id > p.id,
    ensures
        peers_ascend(before.insert(at, p)),
        peer_map(before.insert(at, p)) == peer_map(before).insert(p.id, p@),
{
    let after = before.insert(at, p);
    assert forall|a: int, b: int| 0 <= a < b < after.len() implies (#[trigger] after[a]).id < (
    #[trigger] after[b]).id by {
        let x = if a < at { a } else { a - 1 };
        let y = if b < at { b } else { b - 1 };
        if a == at {
            assert(after[b] == before[y]);
        } else if b == at {
            assert(after[a] == before[x]);
        } else {
            assert(after[a] == before[x] && after[b] == before[y]);
        }
    }
    let want = peer_map(before).insert(p.id, p@);
    assert forall|q: u8| #[trigger] peer_map(after).contains_key(q) <==> want.contains_key(q) by {
        if peer_map(after).contains_key(q) {
            let j = choose|j: int| 0 <= j < after.len() && (#[trigger] after[j]).id == q;
            if j < at {
                assert(before[j].id == q);
            } else if j > at {
                assert(before[j - 1].id == q);
            }
        }
        if want.contains_key(q) {
            if q == p.id {
                assert(after[at].id == q);
            } else {
                let j = choose|j: int| 0 <= j < before.len() && (#[trigger] before[j]).id == q;
                if j < at {
                    assert(after[j].id == q);
                } else {
                    assert(after[j + 1].id == q);
                }
            }
        }
    }
    assert forall|q: u8| #[trigger] peer_map(after).contains_key(q) implies peer_map(after)[q]
        == want[q] by {
        let j = choose|j: int| 0 <= j < after.len() && (#[trigger] after[j]).id == q;
        peer_map_row(after, j);
        if j < at {
            assert(after[j] == before[j]);
            peer_map_row(before, j);
        } else if j > at {
            assert(after[j] == before[j - 1]);
            peer_map_row(before, j - 1);
        }
    }
    assert(peer_map(after) =~= want);
}

/// Removing a peer drops its row.
proof fn peer_map_remove(before: Seq<Peer>, at: int)
    requires
        peers_ascend(before),
        0 <= at < before.len(),
    ensures
        peers_ascend(before.remove(at)),
        peer_map(before.remove(at)) == peer_map(before).remove(before[at].id),
{
    let after = before.remove(at);
    assert forall|a: int, b: int| 0 <= a < b < after.len() implies (#[trigger] after[a]).id < (
    #[trigger] after[b]).id by {
        let x = if a < at { a } else { a + 1 };
        let y = if b < at { b } else { b + 1 };
        assert(after[a] == before[x] && after[b] == before[y]);
    }
    let want = peer_map(before).remove(before[at].id);
    assert forall|q: u8| #[trigger] peer_map(after).contains_key(q) <==> want.contains_key(q) by {
        if peer_map(after).contains_key(q) {
            let j = choose|j: int| 0 <= j < after.len() && (#[trigger] after[j]).id == q;
            let x = if j < at { j } else { j + 1 };
            assert(before[x].id == q);
            if x < at {
                assert(before[x].id < before[at].id);
            } else {
                assert(before[at].id < before[x].id);
            }
        }
        if want.contains_key(q) {
            let j = choose|j: int| 0 <= j < before.len() && (#[trigger] before[j]).id == q;
            if j < at {
                assert(after[j].id == q);
            } else {
                assert(after[j - 1].id == q);
            }
        }
    }
    assert forall|q: u8| #[trigger] peer_map(after).contains_key(q) implies peer_map(after)[q]
        == want[q] by {
        let j = choose|j: int| 0 <= j < after.len() && (#[trigger] after[j]).id == q;
        peer_map_row(after, j);
        let x = if j < at { j } else { j + 1 };
        assert(after[j] == before[x]);
        peer_map_row(before, x);
    }
    assert(peer_map(after) =~= want);
}

impl View for NetServer {
    type V = ServerView;

    closed spec fn view(&self) -> ServerView {
        ServerView {
            sync: self.sync@,
            peers: peer_map(self.peers@),
            owners: self.owners@,
        }
    }
}

/// A snapshot ready to send.
pub struct Snapshot {
    pub bytes: Vec<u8>,
    /// Rows carried.
    pub entries: usize,
    /// Whether rows that need sending did not fit.
    pub more: bool,
}

impl Ranked for (u8, u32) {
    /// Owner rows go by peer.
    open spec fn rank_le(self, other: Self) -> bool {
        self.0 <= other.0
    }

    proof fn rank_total(a: Self, b: Self) {
    }

    proof fn rank_transitive(a: Self, b: Self, c: Self) {
    }

    fn may_precede(&self, other: &Self) -> (r: bool) {
        self.0 <= other.0
    }
}

/// The server's state as a new one has it.
pub open spec fn new_server(sync: Seq<SyncRow>) -> ServerView {
    ServerView { sync, peers: Map::empty(), owners: Seq::empty() }
}

/// A peer that just joined: everything is still to be sent.
pub open spec fn new_peer(pools: nat) -> PeerView {
    PeerView {
        acked: 0,
        input_seq: 0,
        send_seq: 0,
        pools: Seq::new(pools, |i: int| CursorView::fresh()),
        sent: Seq::empty(),
    }
}

/// Whether every peer can still be sent `n` snapshots.
pub open spec fn sends_remain(s: ServerView, n: u32) -> bool {
    forall|p: u8| #[trigger] s.peers.contains_key(p) ==> s.peers[p].send_seq + n <= u32::MAX
}

impl NetServer {
    /// Every peer's replication state is sound.
    pub proof fn peers_sound(&self)
        requires
            self.wf(),
        ensures
            forall|q: u8| #[trigger]
                self@.peers.contains_key(q) ==> peer_sound(self@.peers[q])
                    && self@.peers[q].pools.len() <= self@.sync.len(),
    {
        assert forall|q: u8| #[trigger] self@.peers.contains_key(q) implies peer_sound(
            self@.peers[q],
        ) && self@.peers[q].pools.len() <= self@.sync.len() by {
            let i = choose|i: int|
                0 <= i < self.peers@.len() && (#[trigger] self.peers@[i]).id == q;
            peer_map_row(self.peers@, i);
        }
    }

    /// Peers ascend and keep their invariants; the pools fit their count on
    /// the wire.
    pub closed spec fn wf(&self) -> bool {
        &&& peers_ascend(self.peers@)
        &&& forall|i: int|
            0 <= i < self.peers@.len() ==> (#[trigger] self.peers@[i]).wf()
                && self.peers@[i].pools@.len() <= self.sync@.len()
        &&& self.sync@.len() <= u16::MAX
    }

    /// A server with nothing registered. Attaching a server holds the
    /// kernel's removal log so removed indices aren't recycled before every
    /// peer has acked the removal.
    pub fn new<P: ErasedPool>(pm: &mut Pm<P>) -> (r: Self)
        requires
            old(pm).wf(),
        ensures
            r.wf(),
            r@ == new_server(Seq::empty()),
            final(pm).wf(),
            final(pm)@ == (KernelView { removal_hold: true, ..old(pm)@ }),
    {
        pm.removal_hold_set(true);
        NetServer::with_sync(Vec::new())
    }

    /// A server around an already-populated sync set.
    pub fn with_sync(sync: Vec<SyncRow>) -> (r: Self)
        requires
            sync@.len() <= u16::MAX,
        ensures
            r.wf(),
            r@ == new_server(sync@),
    {
        let r = NetServer { sync, peers: Vec::new(), owners: Vec::new() };
        assert(r@.peers =~= Map::<u8, PeerView>::empty());
        r
    }

    /// Replicate the pool at a position of the kernel under a wire name.
    pub fn pool_sync(&mut self, name: &str, at: usize)
        requires
            old(self).wf(),
            old(self)@.sync.len() < u16::MAX,
        ensures
            final(self).wf(),
            final(self)@.peers == old(self)@.peers,
            final(self)@.owners == old(self)@.owners,
            final(self)@.sync.len() == old(self)@.sync.len() + 1,
            final(self)@.sync.drop_last() == old(self)@.sync,
            final(self)@.sync.last().name@ == name@,
            final(self)@.sync.last().at == at,
    {
        self.sync.push(SyncRow { name: name.to_owned(), at });
        assert(self@.sync.drop_last() =~= old(self)@.sync);
    }

    /// Position of a peer.
    fn find(&self, peer: u8) -> (r: Option<usize>)
        requires
            self.wf(),
        ensures
            match r {
                Some(i) => i < self.peers@.len() && self.peers@[i as int].id == peer
                    && self@.peers.contains_key(peer) && self@.peers[peer]
                    == self.peers@[i as int]@,
                None => !self@.peers.contains_key(peer),
            },
    {
        let mut i: usize = 0;
        while i < self.peers.len()
            invariant
                self.wf(),
                i <= self.peers@.len(),
                forall|j: int| 0 <= j < i ==> (#[trigger] self.peers@[j]).id != peer,
            decreases self.peers@.len() - i,
        {
            if self.peers[i].id == peer {
                proof {
                    peer_map_row(self.peers@, i as int);
                }
                return Some(i);
            }
            i += 1;
        }
        None
    }

    /// Whether every peer can still be sent `n` snapshots.
    pub fn sends_left(&self, n: u32) -> (r: bool)
        requires
            self.wf(),
        ensures
            r == sends_remain(self@, n),
    {
        let mut i: usize = 0;
        while i < self.peers.len()
            invariant
                i <= self.peers@.len(),
                forall|j: int|
                    0 <= j < i ==> (#[trigger] self.peers@[j]).send_seq + n <= u32::MAX,
                self.wf(),
            decreases self.peers@.len() - i,
        {
            if self.peers[i].send_seq > u32::MAX - n {
                proof {
                    peer_map_row(self.peers@, i as int);
                    assert(self@.peers.contains_key(self.peers@[i as int].id));
                }
                return false;
            }
            i += 1;
        }
        proof {
            assert forall|p: u8| #[trigger] self@.peers.contains_key(p) implies self@.peers[p].send_seq
                + n <= u32::MAX by {
                let j = choose|j: int|
                    0 <= j < self.peers@.len() && (#[trigger] self.peers@[j]).id == p;
                peer_map_row(self.peers@, j);
            }
        }
        true
    }

    /// Admit a peer; one already there keeps its state.
    pub fn peer_add(&mut self, peer: u8)
        requires
            old(self).wf(),
        ensures
            final(self).wf(),
            final(self)@ == if old(self)@.peers.contains_key(peer) {
                old(self)@
            } else {
                ServerView {
                    peers: old(self)@.peers.insert(peer, new_peer(old(self)@.sync.len())),
                    ..old(self)@
                }
            },
    {
        if self.find(peer).is_some() {
            return;
        }
        let mut p = Peer {
            id: peer,
            acked_tick: 0,
            input_seq: 0,
            send_seq: 0,
            pools: Vec::new(),
            sent: VecDeque::new(),
        };
        p.grow(self.sync.len());
        assert(p@ =~= new_peer(self@.sync.len()));
        let mut at: usize = 0;
        while at < self.peers.len() && self.peers[at].id < peer
            invariant
                at <= self.peers@.len(),
                forall|j: int| 0 <= j < at ==> (#[trigger] self.peers@[j]).id < peer,
            decreases self.peers@.len() - at,
        {
            at += 1;
        }
        proof {
            assert forall|j: int| at <= j < self.peers@.len() implies (
            #[trigger] self.peers@[j]).id > peer by {
                peer_map_row(self.peers@, j);
                if j > at {
                    assert(self.peers@[at as int].id < self.peers@[j].id);
                } else {
                    peer_map_row(self.peers@, at as int);
                }
            }
            peer_map_insert(self.peers@, at as int, p);
        }
        self.peers.insert(at, p);
        proof {
            assert forall|i: int| 0 <= i < self.peers@.len() implies (
            #[trigger] self.peers@[i]).wf() && self.peers@[i].pools@.len()
                <= self.sync@.len() by {
                if i < at {
                    assert(self.peers@[i] == old(self).peers@[i]);
                } else if i > at {
                    assert(self.peers@[i] == old(self).peers@[i - 1]);
                }
            }
            assert(self@ =~= ServerView {
                peers: old(self)@.peers.insert(peer, new_peer(old(self)@.sync.len())),
                ..old(self)@
            });
        }
    }

    /// Forget a peer.
    pub fn peer_remove(&mut self, peer: u8)
        requires
            old(self).wf(),
        ensures
            final(self).wf(),
            final(self)@ == (ServerView { peers: old(self)@.peers.remove(peer), ..old(self)@ }),
    {
        match self.find(peer) {
            Some(i) => {
                proof {
                    peer_map_remove(self.peers@, i as int);
                }
                let _ = self.peers.remove(i);
                proof {
                    assert forall|j: int| 0 <= j < self.peers@.len() implies (
                    #[trigger] self.peers@[j]).wf() && self.peers@[j].pools@.len()
                        <= self.sync@.len() by {
                        let x = if j < i { j } else { j + 1 };
                        assert(self.peers@[j] == old(self).peers@[x]);
                    }
                }
            },
            None => {
                assert(self@.peers.remove(peer) =~= self@.peers);
            },
        }
        assert(self@ =~= ServerView { peers: old(self)@.peers.remove(peer), ..old(self)@ });
    }

    /// The peers, ascending.
    pub fn peers(&self) -> (r: Vec<u8>)
        requires
            self.wf(),
        ensures
            forall|i: int, j: int| 0 <= i < j < r@.len() ==> r@[i] < r@[j],
            forall|p: u8| #[trigger] r@.contains(p) <==> self@.peers.contains_key(p),
    {
        let mut out: Vec<u8> = Vec::new();
        let mut i: usize = 0;
        while i < self.peers.len()
            invariant
                i <= self.peers@.len(),
                out@.len() == i,
                forall|j: int| 0 <= j < i ==> out@[j] == (#[trigger] self.peers@[j]).id,
            decreases self.peers@.len() - i,
        {
            out.push(self.peers[i].id);
            i += 1;
        }
        proof {
            assert forall|p: u8| #[trigger] out@.contains(p) <==> self@.peers.contains_key(p) by {
                if out@.contains(p) {
                    let j = choose|j: int| 0 <= j < out@.len() && out@[j] == p;
                    assert(self.peers@[j].id == p);
                }
                if self@.peers.contains_key(p) {
                    let j = choose|j: int|
                        0 <= j < self.peers@.len() && (#[trigger] self.peers@[j]).id == p;
                    assert(out@[j] == p);
                }
            }
            assert forall|a: int, b: int| 0 <= a < b < out@.len() implies out@[a] < out@[b] by {
                assert(self.peers@[a].id < self.peers@[b].id);
            }
        }
        out
    }

    /// The one peer's state changed in place.
    proof fn replaced(before: &Self, after: &Self, i: int)
        requires
            before.wf(),
            0 <= i < before.peers@.len(),
            after.sync == before.sync,
            after.owners == before.owners,
            after.peers@ == before.peers@.update(i, after.peers@[i]),
            after.peers@[i].id == before.peers@[i].id,
            after.peers@[i].wf(),
            after.peers@[i].pools@.len() <= after.sync@.len(),
        ensures
            after.wf(),
            after@ == (ServerView {
                peers: before@.peers.insert(before.peers@[i].id, after.peers@[i]@),
                ..before@
            }),
    {
        peer_map_update(before.peers@, after.peers@, i);
        assert forall|j: int| 0 <= j < after.peers@.len() implies (#[trigger] after.peers@[j]).wf()
            && after.peers@[j].pools@.len() <= after.sync@.len() by {
            if j != i {
                assert(after.peers@[j] == before.peers@[j]);
            }
        }
    }

    /// Record a peer's ack of send `seq`, labelled `tick`: its rows are
    /// confirmed for that peer, and every older unacked send is declared
    /// lost (its rows become resendable). Out-of-order acks are harmless.
    pub fn ack(&mut self, peer: u8, tick: u32, seq: u32)
        requires
            old(self).wf(),
        ensures
            final(self).wf(),
            final(self)@ == if old(self)@.peers.contains_key(peer) {
                ServerView {
                    peers: old(self)@.peers.insert(
                        peer,
                        acked_by(old(self)@.peers[peer], tick, seq),
                    ),
                    ..old(self)@
                }
            } else {
                old(self)@
            },
    {
        if let Some(i) = self.find(peer) {
            self.peers[i].ack(tick, seq);
            proof {
                NetServer::replaced(old(self), self, i as int);
            }
        }
    }

    /// The newest snapshot tick `peer` has acknowledged (0 for an unknown
    /// peer or before the first ack): the anchor for lag-compensated rewind.
    pub fn acked_tick(&self, peer: u8) -> (r: u32)
        requires
            self.wf(),
        ensures
            r == if self@.peers.contains_key(peer) {
                self@.peers[peer].acked
            } else {
                0
            },
    {
        match self.find(peer) {
            Some(i) => self.peers[i].acked_tick,
            None => 0,
        }
    }

    /// Record the newest input sequence consumed for `peer`; echoed in every
    /// snapshot header so the client can reconcile predictions.
    pub fn input_processed(&mut self, peer: u8, seq: u32)
        requires
            old(self).wf(),
        ensures
            final(self).wf(),
            final(self)@ == if old(self)@.peers.contains_key(peer) && seq > old(
                self)@.peers[peer].input_seq {
                ServerView {
                    peers: old(self)@.peers.insert(
                        peer,
                        PeerView { input_seq: seq, ..old(self)@.peers[peer] },
                    ),
                    ..old(self)@
                }
            } else {
                old(self)@
            },
    {
        if let Some(i) = self.find(peer) {
            if seq > self.peers[i].input_seq {
                self.peers[i].input_seq = seq;
                proof {
                    assert(self.peers@[i as int]@ =~= PeerView {
                        input_seq: seq,
                        ..old(self).peers@[i as int]@
                    });
                    assert(self.peers@[i as int].wf());
                    NetServer::replaced(old(self), self, i as int);
                }
            }
        }
    }
}

impl NetServer {
    /// Replace the owner table shipped in every header: which peer controls
    /// which entity. Sorted by peer here.
    pub fn owners_set(&mut self, rows: Vec<(u8, u32)>)
        requires
            old(self).wf(),
        ensures
            final(self).wf(),
            final(self)@ == (ServerView { owners: stable_sort(rows@), ..old(self)@ }),
    {
        let ghost given = rows@;
        let mut rows = rows;
        sort_stable(&mut rows);
        proof {
            stable_sort_exists(given);
            stable_sort_unique(rows@, stable_sort(given), given);
        }
        self.owners = rows;
    }

    /// Mark `peer`'s controlled entity (0 for none). Shipped in every
    /// snapshot header so the client always knows which replicated entity is
    /// its own. Idempotent; an unknown peer is ignored.
    pub fn set_avatar(&mut self, peer: u8, id: u32)
        requires
            old(self).wf(),
        ensures
            final(self).wf(),
            final(self)@ == if old(self)@.peers.contains_key(peer) {
                ServerView {
                    owners: stable_sort(
                        owner_rows_of_others(old(self)@.owners, peer) + if id == 0 {
                            Seq::empty()
                        } else {
                            seq![(peer, id)]
                        },
                    ),
                    ..old(self)@
                }
            } else {
                old(self)@
            },
    {
        if self.find(peer).is_none() {
            return;
        }
        let mut rows: Vec<(u8, u32)> = Vec::new();
        let mut i: usize = 0;
        let ghost f = not_of_peer(peer);
        proof {
            assert(self.owners@.take(0) =~= Seq::<(u8, u32)>::empty());
            reveal(Seq::filter);
            assert(rows@ =~= self.owners@.take(0).filter(f));
        }
        while i < self.owners.len()
            invariant
                self == old(self),
                f == not_of_peer(peer),
                i <= self.owners@.len(),
                rows@ == self.owners@.take(i as int).filter(f),
            decreases self.owners@.len() - i,
        {
            proof {
                let head = self.owners@.take(i as int);
                assert(self.owners@.take(i + 1) =~= head.push(self.owners@[i as int]));
                filter_push(head, self.owners@[i as int], f);
            }
            if self.owners[i].0 != peer {
                rows.push(self.owners[i]);
            }
            i += 1;
        }
        assert(self.owners@.take(i as int) =~= self.owners@);
        let ghost kept = rows@;
        if id != 0 {
            rows.push((peer, id));
        }
        assert(rows@ =~= kept + if id == 0 {
            Seq::empty()
        } else {
            seq![(peer, id)]
        });
        self.owners_set(rows);
    }

    /// Pack everything `peer` hasn't confirmed, without a size cap.
    pub fn snapshot<P: WirePool>(&mut self, pm: &Pm<P>, peer: u8) -> (r: Option<Vec<u8>>)
        requires
            old(self).wf(),
            pm.wf(),
            sync_fits(pm@, old(self)@.sync),
            old(self)@.owners.len() <= u8::MAX,
            pm@.removal_log.len() <= u32::MAX,
            old(self)@.peers.contains_key(peer) ==> old(self)@.peers[peer].send_seq < u32::MAX,
        ensures
            final(self).wf(),
            match r {
                None => !old(self)@.peers.contains_key(peer) && final(self)@ == old(self)@,
                Some(bytes) => {
                    let out = snapshot_of(old(self)@, pm@, peer, usize::MAX as nat);
                    &&& old(self)@.peers.contains_key(peer)
                    &&& bytes@ == encode(out.message)
                    &&& final(self)@ == (ServerView {
                        peers: old(self)@.peers.insert(peer, out.peer),
                        ..old(self)@
                    })
                },
            },
    {
        match self.snapshot_budgeted(pm, peer, usize::MAX) {
            Some(s) => Some(s.bytes),
            None => None,
        }
    }

    /// Pack at most `budget` bytes of unconfirmed state for `peer`. `None`
    /// if the peer is unknown.
    ///
    /// What doesn't fit stays unconfirmed and rotates into later snapshots,
    /// so a change-dense pool larger than the budget streams through it
    /// round-robin while change-sparse pools still converge to silence — and
    /// pools with the fewest waiting rows pack first. Removals and the owner
    /// table are always included.
    pub fn snapshot_budgeted<P: WirePool>(&mut self, pm: &Pm<P>, peer: u8, budget: usize) -> (r:
        Option<Snapshot>)
        requires
            old(self).wf(),
            pm.wf(),
            sync_fits(pm@, old(self)@.sync),
            old(self)@.owners.len() <= u8::MAX,
            pm@.removal_log.len() <= u32::MAX,
            old(self)@.peers.contains_key(peer) ==> old(self)@.peers[peer].send_seq < u32::MAX,
        ensures
            final(self).wf(),
            match r {
                None => !old(self)@.peers.contains_key(peer) && final(self)@ == old(self)@,
                Some(s) => {
                    let out = snapshot_of(old(self)@, pm@, peer, budget as nat);
                    &&& old(self)@.peers.contains_key(peer)
                    &&& s.bytes@ == encode(out.message)
                    &&& s.entries == out.entries
                    &&& s.more == out.more
                    &&& final(self)@ == (ServerView {
                        peers: old(self)@.peers.insert(peer, out.peer),
                        ..old(self)@
                    })
                    &&& s.bytes@.len() <= budget || s.bytes@.len() <= fixed_len(
                        out.message,
                        old(self)@.sync.len(),
                    )
                },
            },
    {
        let i: usize = match self.find(peer) {
            Some(i) => i,
            None => {
                return None;
            },
        };
        let snap: Snapshot = self.peers[i].take_snapshot(&self.sync, &self.owners, pm, budget);
        proof {
            assert(self.peers@ =~= old(self).peers@.update(i as int, self.peers@[i as int]));
            NetServer::replaced(old(self), self, i as int);
        }
        Some(snap)
    }

    /// Recycle removal-log entries every peer has acked (all of them when
    /// there is no peer). Call once per net tick, after processing acks.
    pub fn prune<P: ErasedPool>(&self, pm: &mut Pm<P>)
        requires
            self.wf(),
            old(pm).wf(),
        ensures
            final(pm).wf(),
            (final(pm)@.removal_log, final(pm)@.ids) == release_from(
                old(pm)@.removal_log,
                old(pm)@.ids,
                0,
                oldest_ack(self@.peers, old(pm)@.tick),
                old(pm)@.local_peer,
            ),
            final(pm)@ == (KernelView {
                ids: final(pm)@.ids,
                removal_log: final(pm)@.removal_log,
                ..old(pm)@
            }),
    {
        let mut min: u32 = pm.tick();
        let mut i: usize = 0;
        while i < self.peers.len()
            invariant
                self.wf(),
                i <= self.peers@.len(),
                i == 0 ==> min == pm@.tick,
                i > 0 ==> exists|j: int| 0 <= j < i && (#[trigger] self.peers@[j])@.acked == min,
                forall|j: int| 0 <= j < i ==> (#[trigger] self.peers@[j])@.acked >= min,
            decreases self.peers@.len() - i,
        {
            let acked: u32 = self.peers[i].acked_tick;
            assert(self.peers@[i as int]@.acked == acked);
            if i == 0 || acked < min {
                min = acked;
            }
            i += 1;
        }
        proof {
            let peers = self@.peers;
            assert(is_oldest_ack(peers, pm@.tick, min)) by {
                if self.peers@.len() == 0 {
                    assert(peers =~= Map::<u8, PeerView>::empty());
                } else {
                    let j = choose|j: int|
                        0 <= j < i && (#[trigger] self.peers@[j])@.acked == min;
                    peer_map_row(self.peers@, j);
                    assert(peers.contains_key(self.peers@[j].id));
                    assert forall|q: u8| #[trigger] peers.contains_key(q) implies peers[q].acked
                        >= min by {
                        let k = choose|k: int|
                            0 <= k < self.peers@.len() && (#[trigger] self.peers@[k]).id == q;
                        peer_map_row(self.peers@, k);
                    }
                }
            }
            oldest_ack_unique(peers, pm@.tick, min);
        }
        pm.removal_release_upto(min);
    }
}

/// Passes the owner rows of other peers.
pub open spec fn not_of_peer(peer: u8) -> spec_fn((u8, u32)) -> bool {
    |o: (u8, u32)| o.0 != peer
}

/// The owner rows of other peers.
pub open spec fn owner_rows_of_others(owners: Seq<(u8, u32)>, peer: u8) -> Seq<(u8, u32)> {
    owners.filter(not_of_peer(peer))
}

/// `m` is the oldest ack among the peers, or the tick when there is none.
pub open spec fn is_oldest_ack(peers: Map<u8, PeerView>, tick: u32, m: u32) -> bool {
    if peers.dom() == Set::<u8>::empty() {
        m == tick
    } else {
        &&& exists|q: u8| #[trigger] peers.contains_key(q) && peers[q].acked == m
        &&& forall|q: u8| #[trigger] peers.contains_key(q) ==> peers[q].acked >= m
    }
}

/// The oldest ack among the peers, or the tick when there is none.
pub open spec fn oldest_ack(peers: Map<u8, PeerView>, tick: u32) -> u32 {
    choose|m: u32| is_oldest_ack(peers, tick, m)
}

/// There is only one oldest ack.
proof fn oldest_ack_unique(peers: Map<u8, PeerView>, tick: u32, m: u32)
    requires
        is_oldest_ack(peers, tick, m),
    ensures
        oldest_ack(peers, tick) == m,
{
    let o = oldest_ack(peers, tick);
    assert(is_oldest_ack(peers, tick, o));
    if peers.dom() != Set::<u8>::empty() {
        let q = choose|q: u8| #[trigger] peers.contains_key(q) && peers[q].acked == m;
        let r = choose|r: u8| #[trigger] peers.contains_key(r) && peers[r].acked == o;
        assert(peers[q].acked >= o && peers[r].acked >= m);
    }
}

} // verus!
