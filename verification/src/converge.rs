//! What replication promises: an ack confirms exactly one send, nothing lost
//! stays lost, a still world goes silent, every row gets its turn, snapshots
//! are idempotent, and ids recycle only behind every peer's ack.

use vstd::prelude::*;

use crate::apply::{keyed_at, replay, step, Replica};
use crate::delta::{
    launch_keeps_confirmed, pack, pack_spends_exactly, picked_rows, CursorView, SentEntry,
    WireRow, WireView,
};
use crate::id::{Id, IdSpace};
use crate::kernel::{release_from, release_keeps_exactly_later_removals};
use crate::net::{
    acked_by, flights_agree, is_oldest_ack, oldest_ack, pack_all, pack_pool, peer_sound,
    sends_ascend, sent_fits, settle_all, settle_all_agrees, settle_front, settle_upto, PackState, PeerView,
    Queued, SyncRow,
};
use crate::reg::key_of;
use crate::snapshot::{message_ops, sections_ops, Message, Op, Section};

verus! {

// --- acks -------------------------------------------------------------------

/// Whether a send carried a row of this pool and slot.
pub open spec fn carries(entries: Seq<SentEntry>, pool: int, slot: u32) -> bool {
    exists|k: int|
        0 <= k < entries.len() && (#[trigger] entries[k]).pool == pool && entries[k].slot == slot
}

/// What settling a send does to one row.
pub proof fn settle_all_row(
    pools: Seq<CursorView>,
    entries: Seq<SentEntry>,
    seq: u32,
    received: bool,
    i: int,
    s: u32,
)
    requires
        forall|k: int| 0 <= k < entries.len() ==> (#[trigger] entries[k]).pool < pools.len(),
        0 <= i < pools.len(),
        seq > 0,
    ensures
        ({
            let out = settle_all(pools, entries, seq, received);
            &&& out.len() == pools.len()
            &&& out[i].confirmed[s] >= pools[i].confirmed[s]
            &&& !received || !carries(entries, i, s) ==> out[i].confirmed[s]
                == pools[i].confirmed[s]
            &&& !carries(entries, i, s) ==> out[i].flying[s] == pools[i].flying[s]
                && out[i].flying_seq[s] == pools[i].flying_seq[s]
            &&& out[i].flying_seq[s] == pools[i].flying_seq[s] || out[i].flying_seq[s] == 0
            &&& carries(entries, i, s) ==> out[i].flying_seq[s] != seq
            &&& received ==> forall|k: int|
                0 <= k < entries.len() && (#[trigger] entries[k]).pool == i && entries[k].slot == s
                    ==> out[i].confirmed[s] >= entries[k].tick
        }),
    decreases entries.len(),
{
    if entries.len() > 0 {
        let init = entries.drop_last();
        let e = entries.last();
        assert forall|k: int| 0 <= k < init.len() implies (#[trigger] init[k]).pool
            < pools.len() by {
            assert(init[k] == entries[k]);
        }
        settle_all_row(pools, init, seq, received, i, s);
        assert(entries[entries.len() - 1] == e);
        if carries(init, i, s) {
            let k = choose|k: int|
                0 <= k < init.len() && (#[trigger] init[k]).pool == i && init[k].slot == s;
            assert(entries[k] == init[k]);
            assert(carries(entries, i, s));
        }
        if carries(entries, i, s) && !(e.pool == i && e.slot == s) {
            let k = choose|k: int|
                0 <= k < entries.len() && (#[trigger] entries[k]).pool == i && entries[k].slot
                    == s;
            assert(init[k] == entries[k]);
            assert(carries(init, i, s));
        }
        if received {
            assert forall|k: int|
                0 <= k < entries.len() && (#[trigger] entries[k]).pool == i && entries[k].slot
                    == s implies settle_all(pools, entries, seq, received)[i].confirmed[s]
                >= entries[k].tick by {
                if k < init.len() {
                    assert(init[k] == entries[k]);
                }
            }
        }
    }
}

/// What settling up to an ack does to one row.
proof fn settle_upto_row(p: PeerView, seq: u32, i: int, s: u32)
    requires
        sends_ascend(p.sent),
        sent_fits(p.sent, p.pools.len()),
        0 <= i < p.pools.len(),
    ensures
        ({
            let out = settle_upto(p, seq);
            &&& out.pools.len() == p.pools.len()
            &&& out.pools[i].confirmed[s] >= p.pools[i].confirmed[s]
            &&& (forall|a: int|
                0 <= a < p.sent.len() && (#[trigger] p.sent[a]).seq == seq ==> !carries(
                    p.sent[a].entries,
                    i,
                    s,
                )) ==> out.pools[i].confirmed[s] == p.pools[i].confirmed[s]
            &&& forall|a: int, k: int|
                0 <= a < p.sent.len() && (#[trigger] p.sent[a]).seq == seq && 0 <= k
                    < p.sent[a].entries.len() && (#[trigger] p.sent[a].entries[k]).pool == i
                    && p.sent[a].entries[k].slot == s ==> out.pools[i].confirmed[s]
                    >= p.sent[a].entries[k].tick
            &&& out.pools[i].flying_seq[s] == p.pools[i].flying_seq[s]
                || out.pools[i].flying_seq[s] == 0
            &&& forall|a: int|
                0 <= a < p.sent.len() && (#[trigger] p.sent[a]).seq <= seq && carries(
                    p.sent[a].entries,
                    i,
                    s,
                ) ==> out.pools[i].flying_seq[s] != p.sent[a].seq
            &&& out.sent == p.sent.skip(p.sent.len() - out.sent.len())
            &&& out.sent.len() <= p.sent.len()
            &&& forall|a: int| 0 <= a < out.sent.len() ==> (#[trigger] out.sent[a]).seq > seq
            &&& forall|a: int|
                0 <= a < p.sent.len() - out.sent.len() ==> (#[trigger] p.sent[a]).seq <= seq
        }),
    decreases p.sent.len(),
{
    let out = settle_upto(p, seq);
    if p.sent.len() > 0 && p.sent[0].seq <= seq {
        let first = p.sent[0];
        let received = first.seq == seq;
        let q = settle_front(p, received);
        assert forall|k: int| 0 <= k < first.entries.len() implies (
        #[trigger] first.entries[k]).pool < p.pools.len() by {
            assert(p.sent[0].entries[k].pool < p.pools.len());
        }
        settle_all_row(p.pools, first.entries, first.seq, received, i, s);
        assert forall|a: int, k: int|
            0 <= a < q.sent.len() && 0 <= k < q.sent[a].entries.len() implies (
        #[trigger] q.sent[a].entries[k]).pool < q.pools.len() by {
            assert(q.sent[a] == p.sent[a + 1]);
            assert(p.sent[a + 1].entries[k].pool < p.pools.len());
        }
        assert(sends_ascend(q.sent)) by {
            assert forall|a: int| 0 <= a < q.sent.len() implies (#[trigger] q.sent[a]).seq > 0 by {
                assert(q.sent[a] == p.sent[a + 1]);
            }
            assert forall|a: int, b: int| 0 <= a < b < q.sent.len() implies (
            #[trigger] q.sent[a]).seq < (#[trigger] q.sent[b]).seq by {
                assert(q.sent[a] == p.sent[a + 1] && q.sent[b] == p.sent[b + 1]);
            }
        }
        settle_upto_row(q, seq, i, s);
        assert forall|a: int| 1 <= a < p.sent.len() implies #[trigger] p.sent[a] == q.sent[a - 1]
            && p.sent[a].seq > first.seq by {
        }
        if forall|a: int|
            0 <= a < p.sent.len() && (#[trigger] p.sent[a]).seq == seq ==> !carries(
                p.sent[a].entries,
                i,
                s,
            ) {
            assert forall|a: int| 0 <= a < q.sent.len() && (#[trigger] q.sent[a]).seq == seq implies
                !carries(q.sent[a].entries, i, s) by {
                assert(q.sent[a] == p.sent[a + 1]);
            }
        }
        assert forall|a: int, k: int|
            0 <= a < p.sent.len() && (#[trigger] p.sent[a]).seq == seq && 0 <= k
                < p.sent[a].entries.len() && (#[trigger] p.sent[a].entries[k]).pool == i
                && p.sent[a].entries[k].slot == s implies out.pools[i].confirmed[s]
            >= p.sent[a].entries[k].tick by {
            if a > 0 {
                assert(q.sent[a - 1].seq == seq);
                assert(q.sent[a - 1].entries[k].pool == i);
            }
        }
        assert forall|a: int|
            0 <= a < p.sent.len() && (#[trigger] p.sent[a]).seq <= seq && carries(
                p.sent[a].entries,
                i,
                s,
            ) implies out.pools[i].flying_seq[s] != p.sent[a].seq by {
            if a > 0 {
                assert(q.sent[a - 1].seq <= seq);
            }
        }
        let n = p.sent.len() - out.sent.len();
        assert(out.sent =~= p.sent.skip(n));
        assert forall|a: int| 0 <= a < n implies (#[trigger] p.sent[a]).seq <= seq by {
            if a > 0 {
                assert(q.sent[a - 1].seq <= seq);
            }
        }
    } else {
        assert(out.sent =~= p.sent.skip(0));
        assert forall|a: int| 0 <= a < p.sent.len() implies (#[trigger] p.sent[a]).seq > seq by {
            assert(a == 0 || p.sent[0].seq < p.sent[a].seq);
        }
    }
}

/// An ack confirms exactly what the acked send carried: those rows are
/// confirmed at least at the change sent, no other row's confirmation moves,
/// and every send at or before the acked one is settled — its rows no longer
/// in flight under it — while later sends go on waiting.
pub proof fn ack_confirms_exactly_the_acked_send(p: PeerView, tick: u32, seq: u32, i: int, s: u32)
    requires
        sends_ascend(p.sent),
        sent_fits(p.sent, p.pools.len()),
        0 <= i < p.pools.len(),
    ensures
        ({
            let out = acked_by(p, tick, seq);
            &&& (forall|a: int|
                0 <= a < p.sent.len() && (#[trigger] p.sent[a]).seq == seq ==> !carries(
                    p.sent[a].entries,
                    i,
                    s,
                )) ==> out.pools[i].confirmed[s] == p.pools[i].confirmed[s]
            &&& forall|a: int, k: int|
                0 <= a < p.sent.len() && (#[trigger] p.sent[a]).seq == seq && 0 <= k
                    < p.sent[a].entries.len() && (#[trigger] p.sent[a].entries[k]).pool == i
                    && p.sent[a].entries[k].slot == s ==> out.pools[i].confirmed[s]
                    >= p.sent[a].entries[k].tick
            &&& forall|a: int|
                0 <= a < p.sent.len() && (#[trigger] p.sent[a]).seq <= seq && carries(
                    p.sent[a].entries,
                    i,
                    s,
                ) ==> out.pools[i].flying_seq[s] != p.sent[a].seq
            &&& out.sent == p.sent.skip(p.sent.len() - out.sent.len())
            &&& forall|a: int|
                0 <= a < p.sent.len() ==> ((#[trigger] p.sent[a]).seq <= seq <==> a < p.sent.len()
                    - out.sent.len())
        }),
{
    let q = PeerView {
        acked: if tick > p.acked {
            tick
        } else {
            p.acked
        },
        ..p
    };
    settle_upto_row(q, seq, i, s);
    let out = acked_by(p, tick, seq);
    let n = p.sent.len() - out.sent.len();
    assert forall|a: int| 0 <= a < p.sent.len() implies ((#[trigger] p.sent[a]).seq <= seq <==> a
        < n) by {
        if a >= n {
            assert(out.sent[a - n] == p.sent[a]);
        }
    }
}

/// What an ack does to the peer beside its rows: the acked tick is the greater
/// of the two, the sends at or below the acked one are settled, the later ones
/// go on waiting, and nothing else moves.
pub proof fn ack_settles_the_peer(p: PeerView, tick: u32, seq: u32)
    requires
        peer_sound(p),
    ensures
        ({
            let out = acked_by(p, tick, seq);
            let gone = p.sent.len() - out.sent.len();
            &&& peer_sound(out)
            &&& out.acked >= p.acked && out.acked >= tick
            &&& out.acked == p.acked || out.acked == tick
            &&& out.input_seq == p.input_seq
            &&& out.send_seq == p.send_seq
            &&& out.pools.len() == p.pools.len()
            &&& 0 <= gone
            &&& out.sent == p.sent.skip(gone)
            &&& forall|a: int|
                0 <= a < p.sent.len() ==> ((#[trigger] p.sent[a]).seq <= seq <==> a < gone)
        }),
{
    let q = PeerView {
        acked: if tick > p.acked {
            tick
        } else {
            p.acked
        },
        ..p
    };
    settle_upto_peer(q, seq);
    settle_upto_cleared(q, seq);
    let out = acked_by(p, tick, seq);
    let n = p.sent.len() - out.sent.len();
    assert forall|a: int| 0 <= a < p.sent.len() implies ((#[trigger] p.sent[a]).seq <= seq <==> a
        < n) by {
        if a >= n {
            assert(out.sent[a - n] == p.sent[a]);
        }
    }
    assert forall|a: int| 0 <= a < out.sent.len() implies (#[trigger] out.sent[a]).seq > 0
        && out.sent[a].seq <= out.send_seq by {
        assert(out.sent[a] == p.sent[a + n]);
    }
    assert forall|a: int, b: int| 0 <= a < b < out.sent.len() implies (#[trigger] out.sent[a]).seq
        < (#[trigger] out.sent[b]).seq by {
        assert(out.sent[a] == p.sent[a + n] && out.sent[b] == p.sent[b + n]);
    }
    assert forall|a: int, k: int|
        0 <= a < out.sent.len() && 0 <= k < out.sent[a].entries.len() implies (
    #[trigger] out.sent[a].entries[k]).pool < out.pools.len() by {
        assert(out.sent[a] == p.sent[a + n]);
        assert(p.sent[a + n].entries[k].pool < p.pools.len());
    }
}

/// What settling does to a peer beside its rows.
proof fn settle_upto_peer(p: PeerView, seq: u32)
    requires
        peer_sound(p),
    ensures
        ({
            let out = settle_upto(p, seq);
            &&& out.acked == p.acked
            &&& out.input_seq == p.input_seq
            &&& out.send_seq == p.send_seq
            &&& out.pools.len() == p.pools.len()
            &&& out.sent.len() <= p.sent.len()
            &&& out.sent == p.sent.skip(p.sent.len() - out.sent.len())
            &&& forall|a: int| 0 <= a < out.sent.len() ==> (#[trigger] out.sent[a]).seq > seq
            &&& forall|a: int|
                0 <= a < p.sent.len() - out.sent.len() ==> (#[trigger] p.sent[a]).seq <= seq
        }),
    decreases p.sent.len(),
{
    let out = settle_upto(p, seq);
    if p.sent.len() > 0 && p.sent[0].seq <= seq {
        let first = p.sent[0];
        let q = settle_front(p, first.seq == seq);
        assert forall|k: int| 0 <= k < first.entries.len() implies (
        #[trigger] first.entries[k]).pool < p.pools.len() by {
            assert(p.sent[0].entries[k].pool < p.pools.len());
        }
        settle_all_agrees(p.pools, first.entries, first.seq, first.seq == seq);
        assert(peer_sound(q)) by {
            assert forall|a: int| 0 <= a < q.sent.len() implies (#[trigger] q.sent[a]).seq > 0
                && q.sent[a].seq <= q.send_seq by {
                assert(q.sent[a] == p.sent[a + 1]);
            }
            assert forall|a: int, b: int| 0 <= a < b < q.sent.len() implies (
            #[trigger] q.sent[a]).seq < (#[trigger] q.sent[b]).seq by {
                assert(q.sent[a] == p.sent[a + 1] && q.sent[b] == p.sent[b + 1]);
            }
            assert forall|a: int, k: int|
                0 <= a < q.sent.len() && 0 <= k < q.sent[a].entries.len() implies (
            #[trigger] q.sent[a].entries[k]).pool < q.pools.len() by {
                assert(q.sent[a] == p.sent[a + 1]);
                assert(p.sent[a + 1].entries[k].pool < p.pools.len());
            }
        }
        settle_upto_peer(q, seq);
        let n = p.sent.len() - out.sent.len();
        assert(out.sent =~= p.sent.skip(n));
        assert forall|a: int| 0 <= a < n implies (#[trigger] p.sent[a]).seq <= seq by {
            if a > 0 {
                assert(q.sent[a - 1] == p.sent[a]);
            }
        }
    } else {
        assert(out.sent =~= p.sent.skip(0));
        assert forall|a: int| 0 <= a < p.sent.len() implies (#[trigger] p.sent[a]).seq > seq by {
            assert(a == 0 || p.sent[0].seq < p.sent[a].seq);
        }
    }
}

/// What an ack does to one row's confirmation: it never falls, it reaches what
/// the acked send carried of the row, and it is either what it was or a change
/// the acked send carried.
pub proof fn ack_settles_one_row(p: PeerView, tick: u32, seq: u32, i: int, s: u32)
    requires
        peer_sound(p),
        0 <= i < p.pools.len(),
    ensures
        ({
            let was = p.pools[i].confirmed[s];
            let now = acked_by(p, tick, seq).pools[i].confirmed[s];
            &&& now >= was
            &&& forall|a: int, k: int|
                0 <= a < p.sent.len() && p.sent[a].seq == seq && 0 <= k < p.sent[a].entries.len()
                    && (#[trigger] p.sent[a].entries[k]).pool == i && p.sent[a].entries[k].slot
                    == s ==> now >= p.sent[a].entries[k].tick
            &&& now == was || exists|a: int, k: int|
                0 <= a < p.sent.len() && p.sent[a].seq == seq && 0 <= k < p.sent[a].entries.len()
                    && (#[trigger] p.sent[a].entries[k]).pool == i && p.sent[a].entries[k].slot
                    == s && p.sent[a].entries[k].tick == now
        }),
{
    let q = PeerView {
        acked: if tick > p.acked {
            tick
        } else {
            p.acked
        },
        ..p
    };
    settle_upto_row(q, seq, i, s);
    settle_upto_source(q, seq, i, s);
    let now = acked_by(p, tick, seq).pools[i].confirmed[s];
    assert forall|a: int, k: int|
        0 <= a < p.sent.len() && p.sent[a].seq == seq && 0 <= k < p.sent[a].entries.len() && (
        #[trigger] p.sent[a].entries[k]).pool == i && p.sent[a].entries[k].slot == s implies now
        >= p.sent[a].entries[k].tick by {
        assert(q.sent[a].seq == seq && q.sent[a].entries[k].pool == i);
    }
}

/// A row's confirmation after a send settled is the one before or a change
/// the send carried of it.
proof fn settle_all_source(
    pools: Seq<CursorView>,
    entries: Seq<SentEntry>,
    seq: u32,
    received: bool,
    i: int,
    s: u32,
)
    requires
        forall|k: int| 0 <= k < entries.len() ==> (#[trigger] entries[k]).pool < pools.len(),
        0 <= i < pools.len(),
    ensures
        ({
            let now = settle_all(pools, entries, seq, received)[i].confirmed[s];
            &&& settle_all(pools, entries, seq, received).len() == pools.len()
            &&& now == pools[i].confirmed[s] || received && exists|k: int|
                0 <= k < entries.len() && (#[trigger] entries[k]).pool == i && entries[k].slot == s
                    && entries[k].tick == now
        }),
    decreases entries.len(),
{
    if entries.len() > 0 {
        let init = entries.drop_last();
        assert forall|k: int| 0 <= k < init.len() implies (#[trigger] init[k]).pool
            < pools.len() by {
            assert(init[k] == entries[k]);
        }
        settle_all_source(pools, init, seq, received, i, s);
        assert(entries[entries.len() - 1] == entries.last());
        let now = settle_all(pools, entries, seq, received)[i].confirmed[s];
        let mid = settle_all(pools, init, seq, received)[i].confirmed[s];
        if now == mid && now != pools[i].confirmed[s] {
            let k = choose|k: int|
                0 <= k < init.len() && (#[trigger] init[k]).pool == i && init[k].slot == s
                    && init[k].tick == now;
            assert(entries[k] == init[k]);
        }
    }
}

/// The same over everything an ack settles.
proof fn settle_upto_source(p: PeerView, seq: u32, i: int, s: u32)
    requires
        sent_fits(p.sent, p.pools.len()),
        0 <= i < p.pools.len(),
    ensures
        ({
            let now = settle_upto(p, seq).pools[i].confirmed[s];
            now == p.pools[i].confirmed[s] || exists|a: int, k: int|
                0 <= a < p.sent.len() && p.sent[a].seq == seq && 0 <= k < p.sent[a].entries.len()
                    && (#[trigger] p.sent[a].entries[k]).pool == i && p.sent[a].entries[k].slot
                    == s && p.sent[a].entries[k].tick == now
        }),
    decreases p.sent.len(),
{
    if p.sent.len() > 0 && p.sent[0].seq <= seq {
        let first = p.sent[0];
        let received = first.seq == seq;
        let q = settle_front(p, received);
        assert forall|k: int| 0 <= k < first.entries.len() implies (
        #[trigger] first.entries[k]).pool < p.pools.len() by {
            assert(p.sent[0].entries[k].pool < p.pools.len());
        }
        settle_all_source(p.pools, first.entries, first.seq, received, i, s);
        assert forall|a: int, k: int|
            0 <= a < q.sent.len() && 0 <= k < q.sent[a].entries.len() implies (
        #[trigger] q.sent[a].entries[k]).pool < q.pools.len() by {
            assert(q.sent[a] == p.sent[a + 1]);
            assert(p.sent[a + 1].entries[k].pool < p.pools.len());
        }
        settle_upto_source(q, seq, i, s);
        let now = settle_upto(p, seq).pools[i].confirmed[s];
        if now != q.pools[i].confirmed[s] {
            let (a, k) = choose|a: int, k: int|
                0 <= a < q.sent.len() && q.sent[a].seq == seq && 0 <= k < q.sent[a].entries.len()
                    && (#[trigger] q.sent[a].entries[k]).pool == i && q.sent[a].entries[k].slot
                    == s && q.sent[a].entries[k].tick == now;
            assert(p.sent[a + 1].entries[k].pool == i);
        } else if now != p.pools[i].confirmed[s] {
            let k = choose|k: int|
                0 <= k < first.entries.len() && (#[trigger] first.entries[k]).pool == i
                    && first.entries[k].slot == s && first.entries[k].tick == now;
            assert(p.sent[0].entries[k].pool == i);
        }
    }
}

/// A row lost with its send comes back: once an ack passed the send that
/// carried the row, with nothing newer in flight for it, the row needs
/// sending again exactly when it changed past what is confirmed.
pub proof fn lost_rows_need_sending_again(p: PeerView, tick: u32, seq: u32, i: int, s: u32, at: u32)
    requires
        sends_ascend(p.sent),
        sent_fits(p.sent, p.pools.len()),
        0 <= i < p.pools.len(),
        exists|a: int|
            0 <= a < p.sent.len() && (#[trigger] p.sent[a]).seq < seq && carries(
                p.sent[a].entries,
                i,
                s,
            ) && p.pools[i].flying_seq[s] == p.sent[a].seq,
        forall|a: int|
            0 <= a < p.sent.len() && (#[trigger] p.sent[a]).seq == seq ==> !carries(
                p.sent[a].entries,
                i,
                s,
            ),
        flights_agree(p.pools),
    ensures
        acked_by(p, tick, seq).pools[i].dirty(s, at) <==> at > p.pools[i].confirmed[s] && at > 0,
{
    let q = PeerView {
        acked: if tick > p.acked {
            tick
        } else {
            p.acked
        },
        ..p
    };
    settle_upto_row(q, seq, i, s);
    settle_upto_cleared(q, seq);
    let out = acked_by(p, tick, seq);
    let a = choose|a: int|
        0 <= a < p.sent.len() && (#[trigger] p.sent[a]).seq < seq && carries(
            p.sent[a].entries,
            i,
            s,
        ) && p.pools[i].flying_seq[s] == p.sent[a].seq;
    assert(out.pools[i].flying_seq[s] != p.sent[a].seq);
    assert(out.pools[i].flying_seq[s] == 0);
    assert(out.pools[i].flying[s] == 0);
}

/// Settling up to an ack keeps flights in agreement.
proof fn settle_upto_cleared(p: PeerView, seq: u32)
    requires
        flights_agree(p.pools),
        sent_fits(p.sent, p.pools.len()),
    ensures
        flights_agree(settle_upto(p, seq).pools),
    decreases p.sent.len(),
{
    if p.sent.len() > 0 && p.sent[0].seq <= seq {
        let first = p.sent[0];
        let q = settle_front(p, first.seq == seq);
        assert forall|k: int| 0 <= k < first.entries.len() implies (
        #[trigger] first.entries[k]).pool < p.pools.len() by {
            assert(p.sent[0].entries[k].pool < p.pools.len());
        }
        settle_all_agrees(p.pools, first.entries, first.seq, first.seq == seq);
        assert forall|a: int, k: int|
            0 <= a < q.sent.len() && 0 <= k < q.sent[a].entries.len() implies (
        #[trigger] q.sent[a].entries[k]).pool < q.pools.len() by {
            assert(q.sent[a] == p.sent[a + 1]);
            assert(p.sent[a + 1].entries[k].pool < p.pools.len());
        }
        settle_upto_cleared(q, seq);
    }
}

// --- packing ----------------------------------------------------------------

/// Packing takes its rows off the backlog and leaves the rest on it: a row
/// needs sending afterwards exactly when it did before and was not packed.
pub proof fn packing_drains_the_backlog(pp: CursorView, w: WireView, seq: u32, budget: nat, i: int)
    requires
        w.wf(),
        0 <= i < w.rows.len(),
    ensures
        ({
            let p = pack(pp, w, seq, budget);
            p.cursors.row_dirty(w)(i) <==> pp.row_dirty(w)(i) && !p.picked.contains(i)
        }),
{
    let p = pack(pp, w, seq, budget);
    pack_spends_exactly(pp, w, seq, budget);
    launch_rows(pp, w, p.picked, seq, i);
    launch_keeps_confirmed(pp, w, p.picked, seq);
}

/// What launching does to one row.
proof fn launch_rows(pp: CursorView, w: WireView, picked: Seq<int>, seq: u32, i: int)
    requires
        w.wf(),
        0 <= i < w.rows.len(),
        forall|k: int| 0 <= k < picked.len() ==> 0 <= #[trigger] picked[k] < w.rows.len(),
    ensures
        ({
            let out = pp.launch(w, picked, seq);
            let s = w.rows[i].slot_of();
            &&& picked.contains(i) ==> out.flying[s] == w.ticks[i]
            &&& !picked.contains(i) ==> out.flying[s] == pp.flying[s]
        }),
    decreases picked.len(),
{
    if picked.len() > 0 {
        let init = picked.drop_last();
        let l = picked.last();
        assert forall|k: int| 0 <= k < init.len() implies 0 <= #[trigger] init[k]
            < w.rows.len() by {
            assert(init[k] == picked[k]);
        }
        launch_rows(pp, w, init, seq, i);
        assert(picked[picked.len() - 1] == l);
        assert(picked =~= init.push(l));
        crate::sort::contains_push(init, l, i);
        if l != i {
            assert(w.rows[l].slot_of() != w.rows[i].slot_of());
        }
    }
}

/// A budget that pays for one row sends at least one while any waits, so a
/// backlog of `n` rows drains in at most `n` sends — and in `n / k` rounded
/// up when the budget pays for `k` rows.
pub proof fn packing_makes_progress(pp: CursorView, w: WireView, seq: u32, budget: nat)
    requires
        w.wf(),
    ensures
        ({
            let p = pack(pp, w, seq, budget);
            let k = budget / (4 + w.size) as nat;
            &&& p.picked.len() == if k < pp.backlog(w).len() {
                k
            } else {
                pp.backlog(w).len()
            }
            &&& p.more <==> k < pp.backlog(w).len()
            &&& p.picked == pp.backlog(w).take(p.picked.len() as int)
        }),
{
}

/// No row of these pools needs sending.
pub open spec fn all_confirmed(pools: Seq<CursorView>, ws: Seq<WireView>) -> bool {
    forall|i: int, r: int|
        0 <= i < ws.len() && 0 <= r < ws[i].rows.len() ==> !#[trigger] pools[i].dirty(
            ws[i].rows[r].slot_of(),
            ws[i].ticks[r],
        )
}

/// A pool nothing of which needs sending packs empty and keeps its cursors'
/// marks.
proof fn quiet_pool(pp: CursorView, w: WireView, seq: u32, budget: nat)
    requires
        w.wf(),
        forall|r: int|
            0 <= r < w.rows.len() ==> !#[trigger] pp.dirty(w.rows[r].slot_of(), w.ticks[r]),
    ensures
        ({
            let p = pack(pp, w, seq, budget);
            &&& p.picked.len() == 0
            &&& !p.more
            &&& p.cursors.confirmed == pp.confirmed
            &&& p.cursors.flying == pp.flying
        }),
{
    let p = pack(pp, w, seq, budget);
    pack_spends_exactly(pp, w, seq, budget);
    if pp.backlog(w).len() > 0 {
        let n = w.rows.len();
        let order = crate::delta::rotation(n, pp.start(n));
        crate::sort::filter_members(order, pp.row_dirty(w));
        let x = pp.backlog(w)[0];
        assert(pp.backlog(w).contains(x));
        let t = choose|t: int| 0 <= t < order.len() && order[t] == x;
        if n > 0 {
            crate::delta::rotation_visits_once(n, pp.start(n));
        }
        assert(0 <= order[t] < n);
        assert(!pp.dirty(w.rows[x].slot_of(), w.ticks[x]));
    }
}

/// A world the peer has confirmed packs empty: no rows, no backlog — however
/// often it is asked.
pub proof fn confirmed_world_is_silent(
    st: PackState,
    ws: Seq<WireView>,
    sync: Seq<SyncRow>,
    order: Seq<Queued>,
    seq: u32,
)
    requires
        st.pools.len() >= ws.len(),
        all_confirmed(st.pools, ws),
        forall|i: int| 0 <= i < ws.len() ==> (#[trigger] ws[i]).wf(),
        forall|k: int| 0 <= k < order.len() ==> (#[trigger] order[k]).at < ws.len(),
    ensures
        ({
            let out = pack_all(st, ws, sync, order, seq);
            &&& out.sent == st.sent
            &&& out.more == st.more
            &&& out.sections.len() == st.sections.len() + order.len()
            &&& forall|j: int|
                st.sections.len() <= j < out.sections.len() ==> (
                #[trigger] out.sections[j]).rows.len() == 0
            &&& out.pools.len() == st.pools.len()
            &&& all_confirmed(out.pools, ws)
        }),
    decreases order.len(),
{
    if order.len() > 0 {
        let init = order.drop_last();
        assert forall|k: int| 0 <= k < init.len() implies (#[trigger] init[k]).at < ws.len() by {
            assert(init[k] == order[k]);
        }
        confirmed_world_is_silent(st, ws, sync, init, seq);
        let mid = pack_all(st, ws, sync, init, seq);
        let i = order.last().at as int;
        assert(order[order.len() - 1].at < ws.len());
        let w = ws[i];
        assert forall|r: int| 0 <= r < w.rows.len() implies !#[trigger] mid.pools[i].dirty(
            w.rows[r].slot_of(),
            w.ticks[r],
        ) by {
            assert(!mid.pools[i].dirty(ws[i].rows[r].slot_of(), ws[i].ticks[r]));
        }
        quiet_pool(mid.pools[i], w, seq, mid.budget);
        let out = pack_pool(mid, ws, sync, i, seq);
        assert(out.sent =~= mid.sent);
        assert forall|j: int, r: int|
            0 <= j < ws.len() && 0 <= r < ws[j].rows.len() implies !#[trigger] out.pools[j].dirty(
            ws[j].rows[r].slot_of(),
            ws[j].ticks[r],
        ) by {
            assert(!mid.pools[j].dirty(ws[j].rows[r].slot_of(), ws[j].ticks[r]));
        }
    }
}

// --- applying ---------------------------------------------------------------

/// Whether a request writes this slot of this pool.
pub open spec fn writes(op: Op, at: int, slot: u32) -> bool {
    op matches Op::Upsert(a, id, v) && a == at && id.slot_of() == slot
}

/// Whether a request writes this slot in any pool.
pub open spec fn touches(op: Op, slot: u32) -> bool {
    op matches Op::Upsert(a, id, v) && id.slot_of() == slot
}

/// Every write goes to a pool that is there.
pub open spec fn ops_fit(ops: Seq<Op>, pools: nat) -> bool {
    forall|k: int|
        0 <= k < ops.len() ==> (#[trigger] ops[k] matches Op::Upsert(at, id, v) ==> 0 <= at
            < pools)
}

/// One request: a write lands in its slot, everything else stays.
proof fn step_row(mid: Replica, op: Op, at: int, s: u32)
    requires
        op matches Op::Upsert(a, id, v) ==> 0 <= a < mid.tables.len(),
        0 <= at < mid.tables.len(),
        mid.tables.len() == mid.stamps.len(),
    ensures
        ({
            let out = step(mid, op);
            &&& out.tables.len() == mid.tables.len()
            &&& out.stamps == mid.stamps
            &&& !writes(op, at, s) ==> out.tables[at].contains_key(s)
                == mid.tables[at].contains_key(s) && out.tables[at][s] == mid.tables[at][s]
            &&& writes(op, at, s) ==> out.tables[at].contains_key(s) && out.tables[at][s]
                == (WireRow { id: op->Upsert_1, tick: mid.stamps[at], value: op->Upsert_2 })
        }),
{
}

/// Replaying requests: what each slot holds is its last write, or what it
/// held before.
#[verifier::rlimit(40)]
proof fn replay_row(r: Replica, ops: Seq<Op>, at: int, s: u32)
    requires
        ops_fit(ops, r.tables.len()),
        0 <= at < r.tables.len(),
        r.tables.len() == r.stamps.len(),
    ensures
        ({
            let out = replay(r, ops);
            &&& out.tables.len() == r.tables.len()
            &&& out.stamps == r.stamps
            &&& (forall|k: int| 0 <= k < ops.len() ==> !#[trigger] writes(ops[k], at, s)) ==> {
                &&& out.tables[at].contains_key(s) == r.tables[at].contains_key(s)
                &&& out.tables[at][s] == r.tables[at][s]
            }
            &&& forall|k: int|
                (0 <= k < ops.len() && #[trigger] writes(ops[k], at, s) && (forall|j: int|
                    k < j < ops.len() ==> !#[trigger] writes(ops[j], at, s))) ==> {
                    &&& out.tables[at].contains_key(s)
                    &&& out.tables[at][s] == (WireRow {
                        id: ops[k]->Upsert_1,
                        tick: r.stamps[at],
                        value: ops[k]->Upsert_2,
                    })
                }
        }),
    decreases ops.len(),
{
    if ops.len() > 0 {
        let init = ops.drop_last();
        let op = ops.last();
        assert forall|k: int| 0 <= k < init.len() implies (#[trigger] init[k] matches Op::Upsert(
            a,
            id,
            v,
        ) ==> 0 <= a < r.tables.len()) by {
            assert(init[k] == ops[k]);
        }
        replay_row(r, init, at, s);
        assert(ops[ops.len() - 1] == op);
        let mid = replay(r, init);
        let out = replay(r, ops);
        assert(out == step(mid, op));
        step_row(mid, op, at, s);
        if forall|k: int| 0 <= k < ops.len() ==> !#[trigger] writes(ops[k], at, s) {
            assert forall|k: int| 0 <= k < init.len() implies !#[trigger] writes(
                init[k],
                at,
                s,
            ) by {
                assert(!writes(ops[k], at, s));
            }
            assert(!writes(ops[ops.len() - 1], at, s));
        }
        assert forall|k: int|
            (0 <= k < ops.len() && #[trigger] writes(ops[k], at, s) && (forall|j: int|
                k < j < ops.len() ==> !#[trigger] writes(ops[j], at, s))) implies {
            &&& out.tables[at].contains_key(s)
            &&& out.tables[at][s] == (WireRow {
                id: ops[k]->Upsert_1,
                tick: r.stamps[at],
                value: ops[k]->Upsert_2,
            })
        } by {
            if k < init.len() {
                assert(writes(init[k], at, s));
                assert forall|j: int| k < j < init.len() implies !#[trigger] writes(
                    init[j],
                    at,
                    s,
                ) by {
                    assert(!writes(ops[j], at, s));
                }
                assert(!writes(ops[ops.len() - 1], at, s));
            }
        }
    }
}

/// The last position a request at or before `n` touches a slot, or -1.
spec fn last_touch(ops: Seq<Op>, slot: u32, n: int) -> int
    decreases n,
{
    if n <= 0 {
        -1
    } else if touches(ops[n - 1], slot) {
        n - 1
    } else {
        last_touch(ops, slot, n - 1)
    }
}

/// The last position a request before `n` writes a slot of a pool, or -1.
spec fn last_write(ops: Seq<Op>, at: int, slot: u32, n: int) -> int
    decreases n,
{
    if n <= 0 {
        -1
    } else if writes(ops[n - 1], at, slot) {
        n - 1
    } else {
        last_write(ops, at, slot, n - 1)
    }
}

/// The last write is one, and nothing behind it is.
proof fn last_write_splits(ops: Seq<Op>, at: int, slot: u32, n: int)
    requires
        0 <= n <= ops.len(),
    ensures
        ({
            let k = last_write(ops, at, slot, n);
            &&& -1 <= k < n
            &&& k >= 0 ==> writes(ops[k], at, slot)
            &&& forall|j: int| k < j < n ==> !#[trigger] writes(ops[j], at, slot)
        }),
    decreases n,
{
    if n > 0 && !writes(ops[n - 1], at, slot) {
        last_write_splits(ops, at, slot, n - 1);
    }
}

/// What replaying does to one slot of the id space.
proof fn replay_ids(r: Replica, ops: Seq<Op>, s: u32, n: int)
    requires
        0 <= n <= ops.len(),
    ensures
        ({
            let out = replay(r, ops.take(n)).ids;
            let k = last_touch(ops, s, n);
            &&& -1 <= k < n
            &&& out.free == r.ids.free
            &&& out.high == r.ids.high
            &&& k < 0 ==> out.gens.contains_key(s) == r.ids.gens.contains_key(s) && out.gens[s]
                == r.ids.gens[s] && out.live.contains(s) == r.ids.live.contains(s)
            &&& k >= 0 ==> out.gens.contains_key(s) && out.gens[s] == (
            ops[k]->Upsert_1).generation_of() as u8 && out.live.contains(s)
        }),
    decreases n,
{
    if n == 0 {
        assert(ops.take(0) =~= Seq::<Op>::empty());
    } else {
        replay_ids(r, ops, s, n - 1);
        let t = ops.take(n);
        assert(t.drop_last() =~= ops.take(n - 1));
        assert(t.last() == ops[n - 1]);
    }
}

/// Snapshots are idempotent: applying one a second time leaves every row and
/// the id space as the first time did. (Removals queue again and find nothing
/// left to remove.)
pub proof fn applying_twice_changes_nothing(r: Replica, ops: Seq<Op>)
    requires
        ops_fit(ops, r.tables.len()),
        r.tables.len() == r.stamps.len(),
    ensures
        replay(replay(r, ops), ops).tables == replay(r, ops).tables,
        replay(replay(r, ops), ops).ids == replay(r, ops).ids,
{
    let once = replay(r, ops);
    let twice = replay(once, ops);
    assert(ops.take(ops.len() as int) =~= ops);
    assert forall|s: u32|
        twice.ids.gens.contains_key(s) == once.ids.gens.contains_key(s)
            && #[trigger] twice.ids.gens[s] == once.ids.gens[s] && twice.ids.live.contains(s)
            == once.ids.live.contains(s) by {
        replay_ids(r, ops, s, ops.len() as int);
        replay_ids(once, ops, s, ops.len() as int);
    }
    replay_ids(r, ops, 0, ops.len() as int);
    replay_ids(once, ops, 0, ops.len() as int);
    assert(twice.ids.gens =~= once.ids.gens) by {
        assert forall|s: u32| #[trigger] twice.ids.gens.contains_key(s)
            <==> once.ids.gens.contains_key(s) by {
            assert(twice.ids.gens[s] == once.ids.gens[s]);
        }
    }
    assert(twice.ids.live =~= once.ids.live) by {
        assert forall|s: u32| #[trigger] twice.ids.live.contains(s)
            <==> once.ids.live.contains(s) by {
            assert(twice.ids.gens[s] == once.ids.gens[s]);
        }
    }
    assert(twice.ids =~= once.ids);
    if r.tables.len() > 0 {
        replay_row(r, ops, 0, 0);
        replay_row(once, ops, 0, 0);
    } else {
        replay_no_tables(r, ops);
        replay_no_tables(once, ops);
    }
    assert forall|at: int| 0 <= at < once.tables.len() implies #[trigger] twice.tables[at]
        == once.tables[at] by {
        assert forall|s: u32|
            twice.tables[at].contains_key(s) == once.tables[at].contains_key(s)
                && #[trigger] twice.tables[at][s] == once.tables[at][s] by {
            replay_row(r, ops, at, s);
            replay_row(once, ops, at, s);
            last_write_splits(ops, at, s, ops.len() as int);
        }
        assert forall|s: u32| #[trigger] twice.tables[at].contains_key(s)
            <==> once.tables[at].contains_key(s) by {
            assert(twice.tables[at][s] == once.tables[at][s]);
        }
        assert(twice.tables[at] =~= once.tables[at]);
    }
    assert(twice.tables =~= once.tables);
}

/// Without pools there is nothing to write.
proof fn replay_no_tables(r: Replica, ops: Seq<Op>)
    requires
        ops_fit(ops, 0),
        r.tables.len() == 0,
    ensures
        replay(r, ops).tables.len() == 0,
    decreases ops.len(),
{
    if ops.len() > 0 {
        let init = ops.drop_last();
        assert forall|k: int| 0 <= k < init.len() implies (#[trigger] init[k] matches Op::Upsert(
            a,
            id,
            v,
        ) ==> 0 <= a < 0) by {
            assert(init[k] == ops[k]);
        }
        replay_no_tables(r, init);
        assert(ops[ops.len() - 1] == ops.last());
    }
}

/// Where the requests of section `j` start.
spec fn section_start(
    sections: Seq<Section>,
    find: spec_fn(u16) -> Option<(int, nat)>,
    j: int,
) -> int
    decreases sections.len(),
{
    if j <= 0 || sections.len() == 0 {
        0
    } else {
        sections[0].rows.len() + section_start(sections.drop_first(), find, j - 1)
    }
}

/// The requests of one section stand together.
proof fn section_ops_at(
    sections: Seq<Section>,
    find: spec_fn(u16) -> Option<(int, nat)>,
    j: int,
    x: int,
)
    requires
        0 <= j < sections.len(),
        0 <= x < sections[j].rows.len(),
    ensures
        ({
            let k = section_start(sections, find, j) + x;
            &&& 0 <= k < sections_ops(sections, find).len()
            &&& sections_ops(sections, find)[k] == Op::Upsert(
                (find(sections[j].key)->0).0,
                Id(sections[j].rows[x].0),
                sections[j].rows[x].1,
            )
        }),
    decreases sections.len(),
{
    if j > 0 {
        let tail = sections.drop_first();
        assert(tail[j - 1] == sections[j]);
        section_ops_at(tail, find, j - 1, x);
    }
}

/// Every section request belongs to a section and row.
proof fn section_ops_from(
    sections: Seq<Section>,
    find: spec_fn(u16) -> Option<(int, nat)>,
    k: int,
) -> (jx: (int, int))
    requires
        0 <= k < sections_ops(sections, find).len(),
    ensures
        0 <= jx.0 < sections.len(),
        0 <= jx.1 < sections[jx.0].rows.len(),
        k == section_start(sections, find, jx.0) + jx.1,
    decreases sections.len(),
{
    let n = sections[0].rows.len() as int;
    if k < n {
        (0int, k)
    } else {
        let tail = sections.drop_first();
        let (j, x) = section_ops_from(tail, find, k - n);
        assert(tail[j] == sections[j + 1]);
        (j + 1, x)
    }
}

/// A snapshot whose sections go to different pools, each row of a section to
/// its own slot.
pub open spec fn rows_apart(m: Message, find: spec_fn(u16) -> Option<(int, nat)>) -> bool {
    &&& forall|i: int, j: int|
        0 <= i < j < m.sections.len() ==> (find((#[trigger] m.sections[i]).key)->0).0 != (find(
            (#[trigger] m.sections[j]).key,
        )->0).0
    &&& forall|j: int, x: int, y: int|
        0 <= j < m.sections.len() && 0 <= x < y < m.sections[j].rows.len() ==> Id(
            (#[trigger] m.sections[j].rows[x]).0,
        ).slot_of() != Id((#[trigger] m.sections[j].rows[y]).0).slot_of()
}

/// What a snapshot carries, the client holds: after applying it, every row
/// of every section stands in that pool under its handle, with its value.
pub proof fn carried_rows_arrive(
    r: Replica,
    m: Message,
    find: spec_fn(u16) -> Option<(int, nat)>,
    j: int,
    x: int,
)
    requires
        rows_apart(m, find),
        r.tables.len() == r.stamps.len(),
        forall|i: int|
            0 <= i < m.sections.len() ==> 0 <= (find((#[trigger] m.sections[i]).key)->0).0
                < r.tables.len(),
        0 <= j < m.sections.len(),
        0 <= x < m.sections[j].rows.len(),
    ensures
        ({
            let at = (find(m.sections[j].key)->0).0;
            let row = m.sections[j].rows[x];
            let table = replay(r, message_ops(m, find)).tables[at];
            &&& table.contains_key(Id(row.0).slot_of())
            &&& table[Id(row.0).slot_of()] == (WireRow {
                id: Id(row.0),
                tick: r.stamps[at],
                value: row.1,
            })
        }),
{
    let ops = message_ops(m, find);
    let n = m.removals.len() as int;
    let tail = sections_ops(m.sections, find);
    let at = (find(m.sections[j].key)->0).0;
    let row = m.sections[j].rows[x];
    let s = Id(row.0).slot_of();
    section_ops_at(m.sections, find, j, x);
    let k = n + section_start(m.sections, find, j) + x;
    assert(ops[k] == tail[k - n]);
    assert(m.sections[j].key == m.sections[j].key);
    assert forall|a: int| 0 <= a < ops.len() implies (#[trigger] ops[a] matches Op::Upsert(
        p,
        id,
        v,
    ) ==> 0 <= p < r.tables.len()) by {
        if a >= n {
            assert(ops[a] == tail[a - n]);
            let (b, y) = section_ops_from(m.sections, find, a - n);
            section_ops_at(m.sections, find, b, y);
        }
    }
    assert(writes(ops[k], at, s));
    assert forall|a: int| k < a < ops.len() implies !#[trigger] writes(ops[a], at, s) by {
        assert(ops[a] == tail[a - n]);
        let (b, y) = section_ops_from(m.sections, find, a - n);
        section_ops_at(m.sections, find, b, y);
        if b == j {
            if x < y {
                assert(Id(m.sections[j].rows[x].0).slot_of() != Id(
                    m.sections[j].rows[y].0,
                ).slot_of());
            }
        } else if b < j {
            assert((find(m.sections[b].key)->0).0 != (find(m.sections[j].key)->0).0);
        } else {
            assert((find(m.sections[j].key)->0).0 != (find(m.sections[b].key)->0).0);
        }
    }
    replay_row(r, ops, at, s);
}

/// The rows packing picks from one pool have different slots, so they meet
/// `rows_apart` within their section.
pub proof fn packed_rows_have_own_slots(
    pp: CursorView,
    w: WireView,
    seq: u32,
    budget: nat,
    x: int,
    y: int,
)
    requires
        w.wf(),
        0 <= x < y < pack(pp, w, seq, budget).picked.len(),
    ensures
        ({
            let rows = picked_rows(w, pack(pp, w, seq, budget).picked);
            Id(rows[x].0).slot_of() != Id(rows[y].0).slot_of()
        }),
{
    pack_spends_exactly(pp, w, seq, budget);
    let picked = pack(pp, w, seq, budget).picked;
    assert(picked[x] != picked[y]);
    assert(w.rows[picked[x]].slot_of() != w.rows[picked[y]].slot_of());
    assert(Id(w.rows[picked[x]].0) == w.rows[picked[x]]);
    assert(Id(w.rows[picked[y]].0) == w.rows[picked[y]]);
}

/// Registration order is irrelevant: when names hash apart, every key leads
/// to the pool registered under its name, wherever it was registered.
pub proof fn keys_lead_to_their_pool(sync: Seq<SyncRow>, i: int)
    requires
        0 <= i < sync.len(),
        forall|a: int, b: int|
            0 <= a < b < sync.len() ==> key_of((#[trigger] sync[a]).name@) != key_of(
                (#[trigger] sync[b]).name@,
            ),
    ensures
        keyed_at(sync, key_of(sync[i].name@)) == Some(i),
    decreases sync.len(),
{
    if i > 0 {
        assert(key_of(sync[0].name@) != key_of(sync[i].name@));
        let tail = sync.drop_first();
        assert forall|a: int, b: int| 0 <= a < b < tail.len() implies key_of(
            (#[trigger] tail[a]).name@,
        ) != key_of((#[trigger] tail[b]).name@) by {
            assert(tail[a] == sync[a + 1] && tail[b] == sync[b + 1]);
        }
        assert(tail[i - 1] == sync[i]);
        keys_lead_to_their_pool(tail, i - 1);
    }
}

// --- recycling --------------------------------------------------------------

/// An index is not recycled before every peer acked its removal: pruning
/// keeps a logged removal while some peer's ack is older than it.
pub proof fn recycling_waits_for_every_ack(
    peers: Map<u8, PeerView>,
    tick: u32,
    log: Seq<(Id, u32)>,
    space: IdSpace,
    local: u8,
    peer: u8,
    row: (Id, u32),
)
    requires
        is_oldest_ack(peers, tick, oldest_ack(peers, tick)),
        peers.contains_key(peer),
        log.contains(row),
        row.1 > peers[peer].acked,
    ensures
        release_from(log, space, 0, oldest_ack(peers, tick), local).0.contains(row),
{
    assert(peers.dom() != Set::<u8>::empty()) by {
        assert(peers.dom().contains(peer));
    }
    release_keeps_exactly_later_removals(log, space, oldest_ack(peers, tick), local);
}

} // verus!
