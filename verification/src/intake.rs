//! What one net tick's intake promises: every ack of every peer counts, every
//! input of the right size is queued behind the ones before it, every join
//! and leave takes effect, and the header lists exactly the marked entities.

use vstd::prelude::*;

use crate::channel::{applied_upto, owned_upto, CmdView, PeerQueue};
use crate::converge::{ack_settles_one_row, ack_settles_the_peer};
use crate::id::Id;
use crate::net::{acked_by, peer_sound, PeerView, ServerView};
use crate::serve::{
    acks_taken, echoes_taken, inputs_taken, intake_of, own_without, owner_rows, peers_added,
    peers_removed, queues_without, ServeView,
};
use crate::session::{EventRow, PeerInput};
use crate::sort::{
    stable_sort, stable_sort_exists, stable_sort_members, stable_sort_of, stable_sort_unique,
};

verus! {

// --- acks -------------------------------------------------------------------

/// What one ack does to its peer: the acked tick is the greater of the two,
/// what waits is a tail of what waited, and it is past the acked send.
proof fn one_ack(p: PeerView, tick: u32, seq: u32)
    requires
        peer_sound(p),
    ensures
        ({
            let q = acked_by(p, tick, seq);
            &&& peer_sound(q)
            &&& q.acked == if tick > p.acked {
                tick
            } else {
                p.acked
            }
            &&& q.input_seq == p.input_seq
            &&& q.send_seq == p.send_seq
            &&& q.pools.len() == p.pools.len()
            &&& q.sent.len() <= p.sent.len()
            &&& q.sent == p.sent.skip(p.sent.len() - q.sent.len())
            &&& forall|a: int|
                0 <= a < p.sent.len() ==> ((#[trigger] p.sent[a]).seq <= seq <==> a
                    < p.sent.len() - q.sent.len())
        }),
{
    ack_settles_the_peer(p, tick, seq);
}

/// Every ack of the batch counts, wherever it stands: a known peer's acked
/// tick is the greatest of the one before and of all it acked, and of its
/// sends exactly those at or below some acked sequence no longer wait.
pub proof fn every_ack_counts(n: ServerView, acks: Seq<(u8, u32, u32)>, p: u8)
    requires
        n.peers.contains_key(p),
        peer_sound(n.peers[p]),
    ensures
        acks_taken(n, acks).peers.dom() == n.peers.dom(),
        acks_taken(n, acks).sync == n.sync,
        acks_taken(n, acks).owners == n.owners,
        ({
            let was = n.peers[p];
            let now = acks_taken(n, acks).peers[p];
            let gone = was.sent.len() - now.sent.len();
            &&& peer_sound(now)
            &&& now.input_seq == was.input_seq
            &&& now.send_seq == was.send_seq
            &&& now.pools.len() == was.pools.len()
            &&& now.acked >= was.acked
            &&& forall|i: int|
                0 <= i < acks.len() && (#[trigger] acks[i]).0 == p ==> now.acked >= acks[i].1
            &&& now.acked == was.acked || exists|i: int|
                0 <= i < acks.len() && (#[trigger] acks[i]).0 == p && acks[i].1 == now.acked
            &&& 0 <= gone
            &&& now.sent == was.sent.skip(gone)
            &&& forall|a: int|
                0 <= a < was.sent.len() ==> (a < gone <==> exists|i: int|
                    0 <= i < acks.len() && (#[trigger] acks[i]).0 == p && (
                    #[trigger] was.sent[a]).seq <= acks[i].2)
        }),
    decreases acks.len(),
{
    let was = n.peers[p];
    if acks.len() == 0 {
        assert(was.sent =~= was.sent.skip(0));
    } else {
        let init = acks.drop_last();
        every_ack_counts(n, init, p);
        let before = acks_taken(n, init);
        let (q, tick, seq) = acks.last();
        let mid = before.peers[p];
        let now = acks_taken(n, acks).peers[p];
        assert(acks_taken(n, acks).peers.dom() =~= n.peers.dom());
        assert forall|i: int| 0 <= i < init.len() implies #[trigger] acks[i] == init[i] by {
        }
        let last = acks.len() - 1;
        assert(acks[last] == acks.last());
        let g0 = was.sent.len() - mid.sent.len();
        let gone = was.sent.len() - now.sent.len();
        if q == p {
            one_ack(mid, tick, seq);
            assert(now.sent =~= was.sent.skip(gone));
            if now.acked != was.acked && now.acked != tick {
                let i = choose|i: int|
                    0 <= i < init.len() && (#[trigger] init[i]).0 == p && init[i].1 == mid.acked;
                assert(acks[i].0 == p && acks[i].1 == now.acked);
            }
        } else {
            assert(now == mid);
            if now.acked != was.acked {
                let i = choose|i: int|
                    0 <= i < init.len() && (#[trigger] init[i]).0 == p && init[i].1 == mid.acked;
                assert(acks[i].0 == p && acks[i].1 == now.acked);
            }
        }
        assert forall|i: int| 0 <= i < acks.len() && (#[trigger] acks[i]).0 == p implies now.acked
            >= acks[i].1 by {
            if i < last {
                assert(init[i].0 == p);
            }
        }
        assert forall|a: int| 0 <= a < was.sent.len() implies (a < gone <==> exists|i: int|
            0 <= i < acks.len() && (#[trigger] acks[i]).0 == p && (#[trigger] was.sent[a]).seq
                <= acks[i].2) by {
            if a < g0 {
                let i = choose|i: int|
                    0 <= i < init.len() && (#[trigger] init[i]).0 == p && was.sent[a].seq
                        <= init[i].2;
                assert(acks[i].0 == p && was.sent[a].seq <= acks[i].2);
            } else {
                assert(mid.sent[a - g0] == was.sent[a]);
                if q == p && was.sent[a].seq <= seq {
                    assert(acks[last].0 == p && was.sent[a].seq <= acks[last].2);
                }
                if exists|i: int|
                    0 <= i < acks.len() && (#[trigger] acks[i]).0 == p && was.sent[a].seq
                        <= acks[i].2 {
                    let i = choose|i: int|
                        0 <= i < acks.len() && (#[trigger] acks[i]).0 == p && was.sent[a].seq
                            <= acks[i].2;
                    if i < last {
                        assert(init[i].0 == p && was.sent[a].seq <= init[i].2);
                    }
                }
            }
        }
    }
}

/// An acked send is received, wherever its ack stands in the batch: unless an
/// earlier ack of the batch already passed it, every row it carried is
/// confirmed at least at the change it carried.
pub proof fn acked_sends_are_received(
    n: ServerView,
    acks: Seq<(u8, u32, u32)>,
    p: u8,
    i: int,
    a: int,
    k: int,
)
    requires
        n.peers.contains_key(p),
        peer_sound(n.peers[p]),
        0 <= i < acks.len(),
        acks[i].0 == p,
        0 <= a < n.peers[p].sent.len(),
        n.peers[p].sent[a].seq == acks[i].2,
        forall|j: int| 0 <= j < i && (#[trigger] acks[j]).0 == p ==> acks[j].2 < acks[i].2,
        0 <= k < n.peers[p].sent[a].entries.len(),
    ensures
        ({
            let e = n.peers[p].sent[a].entries[k];
            acks_taken(n, acks).peers[p].pools[e.pool as int].confirmed[e.slot] >= e.tick
        }),
    decreases acks.len(),
{
    let was = n.peers[p];
    let e = was.sent[a].entries[k];
    assert(was.sent[a].entries[k].pool < was.pools.len());
    let init = acks.drop_last();
    let before = acks_taken(n, init);
    let (q, tick, seq) = acks.last();
    let mid = before.peers[p];
    every_ack_counts(n, init, p);
    let last = acks.len() - 1;
    assert(acks[last] == acks.last());
    if i < last {
        assert forall|j: int| 0 <= j < i && (#[trigger] init[j]).0 == p implies init[j].2
            < init[i].2 by {
            assert(acks[j] == init[j]);
        }
        assert(init[i] == acks[i]);
        acked_sends_are_received(n, init, p, i, a, k);
        if q == p {
            ack_settles_one_row(mid, tick, seq, e.pool as int, e.slot);
        }
    } else {
        let gone = was.sent.len() - mid.sent.len();
        if a < gone {
            let j = choose|j: int|
                0 <= j < init.len() && (#[trigger] init[j]).0 == p && was.sent[a].seq
                    <= init[j].2;
            assert(acks[j].0 == p);
        }
        assert(mid.sent[a - gone] == was.sent[a]);
        ack_settles_one_row(mid, tick, seq, e.pool as int, e.slot);
        assert(mid.sent[a - gone].entries[k] == e);
    }
}

/// Nothing is confirmed but by an acked send: a row's confirmation after the
/// batch is the one before, or the change some acked send carried of it.
pub proof fn only_acked_sends_confirm(
    n: ServerView,
    acks: Seq<(u8, u32, u32)>,
    p: u8,
    pool: int,
    slot: u32,
)
    requires
        n.peers.contains_key(p),
        peer_sound(n.peers[p]),
        0 <= pool < n.peers[p].pools.len(),
    ensures
        ({
            let was = n.peers[p];
            let now = acks_taken(n, acks).peers[p].pools[pool].confirmed[slot];
            &&& now >= was.pools[pool].confirmed[slot]
            &&& now == was.pools[pool].confirmed[slot] || exists|i: int, a: int, k: int|
                {
                    &&& 0 <= i < acks.len()
                    &&& (#[trigger] acks[i]).0 == p
                    &&& 0 <= a < was.sent.len()
                    &&& was.sent[a].seq == acks[i].2
                    &&& 0 <= k < was.sent[a].entries.len()
                    &&& (#[trigger] was.sent[a].entries[k]).pool == pool
                    &&& was.sent[a].entries[k].slot == slot
                    &&& was.sent[a].entries[k].tick == now
                }
        }),
    decreases acks.len(),
{
    if acks.len() > 0 {
        let was = n.peers[p];
        let init = acks.drop_last();
        only_acked_sends_confirm(n, init, p, pool, slot);
        every_ack_counts(n, init, p);
        let mid = acks_taken(n, init).peers[p];
        let (q, tick, seq) = acks.last();
        let now = acks_taken(n, acks).peers[p].pools[pool].confirmed[slot];
        let last = acks.len() - 1;
        assert(acks[last] == acks.last());
        if q == p {
            ack_settles_one_row(mid, tick, seq, pool, slot);
        }
        if now == mid.pools[pool].confirmed[slot] {
            if now != was.pools[pool].confirmed[slot] {
                let (i, a, k) = choose|i: int, a: int, k: int|
                    {
                        &&& 0 <= i < init.len()
                        &&& (#[trigger] init[i]).0 == p
                        &&& 0 <= a < was.sent.len()
                        &&& was.sent[a].seq == init[i].2
                        &&& 0 <= k < was.sent[a].entries.len()
                        &&& (#[trigger] was.sent[a].entries[k]).pool == pool
                        &&& was.sent[a].entries[k].slot == slot
                        &&& was.sent[a].entries[k].tick == now
                    };
                assert(acks[i].0 == p && was.sent[a].entries[k].pool == pool);
            }
        } else {
            let (a, k) = choose|a: int, k: int|
                0 <= a < mid.sent.len() && mid.sent[a].seq == seq && 0 <= k
                    < mid.sent[a].entries.len() && (#[trigger] mid.sent[a].entries[k]).pool == pool
                    && mid.sent[a].entries[k].slot == slot && mid.sent[a].entries[k].tick == now;
            let gone = was.sent.len() - mid.sent.len();
            assert(was.sent[a + gone] == mid.sent[a]);
            assert(acks[last].0 == p && was.sent[a + gone].entries[k].pool == pool);
        }
    }
}

// --- joins and leaves -------------------------------------------------------

/// A peer nothing was sent to, nothing acked and nothing consumed of.
pub open spec fn starts_over(p: PeerView, pools: nat) -> bool {
    &&& p.acked == 0
    &&& p.input_seq == 0
    &&& p.send_seq == 0
    &&& p.sent.len() == 0
    &&& p.pools.len() == pools
    &&& forall|i: int, s: u32|
        0 <= i < pools ==> (#[trigger] p.pools[i].confirmed[s]) == 0 && p.pools[i].flying[s] == 0
            && p.pools[i].flying_seq[s] == 0
}

/// Admitting peers: exactly the named ones are added, each from nothing; one
/// already there goes on as it was.
pub proof fn joins_start_over(n: ServerView, joined: Seq<u8>, p: u8)
    ensures
        ({
            let out = peers_added(n, joined);
            &&& out.sync == n.sync
            &&& out.owners == n.owners
            &&& out.peers.contains_key(p) <==> n.peers.contains_key(p) || joined.contains(p)
            &&& n.peers.contains_key(p) ==> out.peers[p] == n.peers[p]
            &&& !n.peers.contains_key(p) && joined.contains(p) ==> starts_over(
                out.peers[p],
                n.sync.len(),
            ) && peer_sound(out.peers[p])
        }),
    decreases joined.len(),
{
    if joined.len() > 0 {
        let init = joined.drop_last();
        joins_start_over(n, init, p);
        assert(joined =~= init.push(joined.last()));
        crate::sort::contains_push(init, joined.last(), p);
    }
}

/// Forgetting peers: exactly the named ones go, the rest stay as they were.
pub proof fn leaves_take_their_peers(n: ServerView, left: Seq<u8>, p: u8)
    ensures
        ({
            let out = peers_removed(n, left);
            &&& out.sync == n.sync
            &&& out.owners == n.owners
            &&& out.peers.contains_key(p) <==> n.peers.contains_key(p) && !left.contains(p)
            &&& out.peers.contains_key(p) ==> out.peers[p] == n.peers[p]
        }),
    decreases left.len(),
{
    if left.len() > 0 {
        let init = left.drop_last();
        leaves_take_their_peers(n, init, p);
        assert(left =~= init.push(left.last()));
        crate::sort::contains_push(init, left.last(), p);
    }
}

/// Acks of peers that are not there change nothing, and no ack adds a peer.
proof fn acks_add_nobody(n: ServerView, acks: Seq<(u8, u32, u32)>)
    ensures
        acks_taken(n, acks).peers.dom() == n.peers.dom(),
        acks_taken(n, acks).sync == n.sync,
        acks_taken(n, acks).owners == n.owners,
    decreases acks.len(),
{
    if acks.len() > 0 {
        acks_add_nobody(n, acks.drop_last());
        assert(acks_taken(n, acks).peers.dom() =~= n.peers.dom());
    }
}

// --- inputs -----------------------------------------------------------------

/// A peer's inputs of a batch that have the channel's size.
pub open spec fn inputs_from_peer(p: u8, width: nat) -> spec_fn(PeerInput) -> bool {
    |r: PeerInput| r.peer == p && r.payload.len() == width
}

/// Every input of the right size is queued: a peer's queue grows by exactly
/// its own inputs of the channel's size, in order, each with its sequence and
/// bytes and stamped with the tick its sender had acked; what was consumed
/// stays.
pub proof fn every_input_is_queued(
    q: Seq<PeerQueue>,
    width: nat,
    rows: Seq<PeerInput>,
    n: ServerView,
    p: u8,
)
    requires
        q.len() == 256,
    ensures
        ({
            let out = inputs_taken(q, width, rows, n);
            let mine = rows.filter(inputs_from_peer(p, width));
            let stamp = if n.peers.contains_key(p) {
                n.peers[p].acked
            } else {
                0
            };
            &&& out.len() == 256
            &&& out[p as int].applied == q[p as int].applied
            &&& out[p as int].queue.len() == q[p as int].queue.len() + mine.len()
            &&& forall|k: int|
                0 <= k < q[p as int].queue.len() ==> #[trigger] out[p as int].queue[k]
                    == q[p as int].queue[k]
            &&& forall|k: int|
                0 <= k < mine.len() ==> out[p as int].queue[q[p as int].queue.len() + k] == (
                CmdView { seq: (#[trigger] mine[k]).seq, bytes: mine[k].payload, view: stamp })
        }),
    decreases rows.len(),
{
    let f = inputs_from_peer(p, width);
    reveal(Seq::filter);
    if rows.len() > 0 {
        let init = rows.drop_last();
        let r = rows.last();
        every_input_is_queued(q, width, init, n, p);
        let before = inputs_taken(q, width, init, n);
        let out = inputs_taken(q, width, rows, n);
        let had = init.filter(f);
        let mine = rows.filter(f);
        let base = q[p as int].queue.len();
        if f(r) {
            assert(mine == had.push(r));
            assert(out[p as int].queue.len() == before[p as int].queue.len() + 1);
            assert forall|k: int| 0 <= k < mine.len() implies out[p as int].queue[base + k]
                == (CmdView {
                seq: (#[trigger] mine[k]).seq,
                bytes: mine[k].payload,
                view: if n.peers.contains_key(p) {
                    n.peers[p].acked
                } else {
                    0
                },
            }) by {
                if k < had.len() {
                    assert(mine[k] == had[k]);
                }
            }
        } else {
            assert(mine == had);
            assert(out[p as int] == before[p as int]);
        }
    }
}

/// A leave empties the peer's queue and forgets its held command; nobody
/// else's moves.
pub proof fn leaves_take_their_inputs(q: Seq<PeerQueue>, left: Seq<u8>, p: u8)
    requires
        q.len() == 256,
    ensures
        queues_without(q, left).len() == 256,
        left.contains(p) ==> queues_without(q, left)[p as int].queue.len() == 0
            && queues_without(q, left)[p as int].applied is None,
        !left.contains(p) ==> queues_without(q, left)[p as int] == q[p as int],
    decreases left.len(),
{
    if left.len() > 0 {
        let init = left.drop_last();
        leaves_take_their_inputs(q, init, p);
        assert(left =~= init.push(left.last()));
        crate::sort::contains_push(init, left.last(), p);
    }
}

/// The consumed sequences list exactly the peers with a consumed command,
/// each once with its sequence, ascending.
pub proof fn consumed_commands_are_listed(peers: Seq<PeerQueue>, n: int)
    requires
        0 <= n <= 256,
        peers.len() == 256,
    ensures
        forall|p: u8, seq: u32| #[trigger]
            applied_upto(peers, n).contains((p, seq)) <==> p < n && peers[p as int].applied is Some
                && (peers[p as int].applied->0).seq == seq,
        forall|i: int, j: int|
            0 <= i < j < applied_upto(peers, n).len() ==> (#[trigger] applied_upto(peers, n)[i]).0
                < (#[trigger] applied_upto(peers, n)[j]).0,
    decreases n,
{
    if n > 0 {
        consumed_commands_are_listed(peers, n - 1);
        let before = applied_upto(peers, n - 1);
        let out = applied_upto(peers, n);
        let x = (n - 1) as u8;
        assert forall|p: u8, seq: u32| #[trigger] out.contains((p, seq)) <==> p < n
            && peers[p as int].applied is Some && (peers[p as int].applied->0).seq == seq by {
            assert(before.contains((p, seq)) <==> p < n - 1 && peers[p as int].applied is Some && (
            peers[p as int].applied->0).seq == seq);
            if peers[n - 1].applied is Some {
                crate::sort::contains_push(before, (x, (peers[n - 1].applied->0).seq), (p, seq));
            }
        }
        assert forall|i: int, j: int| 0 <= i < j < out.len() implies (#[trigger] out[i]).0 < (
        #[trigger] out[j]).0 by {
            if j < before.len() {
                assert(before[i].0 < before[j].0);
            } else if i < before.len() {
                assert(before.contains((before[i].0, before[i].1)));
            }
        }
    }
}

/// Echoing consumed inputs: a known peer's echoed sequence is the greatest of
/// the one before and of those listed for it, and nothing else moves.
pub proof fn every_echo_counts(n: ServerView, seqs: Seq<(u8, u32)>, p: u8)
    requires
        n.peers.contains_key(p),
    ensures
        ({
            let out = echoes_taken(n, seqs);
            let was = n.peers[p];
            let now = out.peers[p];
            &&& out.peers.dom() == n.peers.dom()
            &&& out.sync == n.sync
            &&& out.owners == n.owners
            &&& now == (PeerView { input_seq: now.input_seq, ..was })
            &&& now.input_seq >= was.input_seq
            &&& forall|i: int|
                0 <= i < seqs.len() && (#[trigger] seqs[i]).0 == p ==> now.input_seq >= seqs[i].1
            &&& now.input_seq == was.input_seq || seqs.contains((p, now.input_seq))
        }),
    decreases seqs.len(),
{
    if seqs.len() > 0 {
        let init = seqs.drop_last();
        every_echo_counts(n, init, p);
        assert(seqs =~= init.push(seqs.last()));
        let out = echoes_taken(n, seqs);
        assert(out.peers.dom() =~= n.peers.dom());
        let now = out.peers[p];
        crate::sort::contains_push(init, seqs.last(), (p, now.input_seq));
        assert forall|i: int| 0 <= i < seqs.len() && (#[trigger] seqs[i]).0 == p implies
            now.input_seq >= seqs[i].1 by {
            if i < init.len() {
                assert(init[i] == seqs[i]);
            }
        }
    }
}

/// Echoes add nobody.
proof fn echoes_add_nobody(n: ServerView, seqs: Seq<(u8, u32)>)
    ensures
        echoes_taken(n, seqs).peers.dom() == n.peers.dom(),
        echoes_taken(n, seqs).sync == n.sync,
    decreases seqs.len(),
{
    if seqs.len() > 0 {
        echoes_add_nobody(n, seqs.drop_last());
        assert(echoes_taken(n, seqs).peers.dom() =~= n.peers.dom());
    }
}

// --- ownership --------------------------------------------------------------

/// The listed pairs are exactly the marked entities, each peer once,
/// ascending.
pub proof fn marked_entities_are_listed(own: Map<u8, Id>, n: int)
    requires
        0 <= n <= 256,
    ensures
        forall|p: u8, id: Id| #[trigger]
            owned_upto(own, n).contains((p, id)) <==> p < n && own.contains_key(p) && own[p] == id,
        forall|i: int, j: int|
            0 <= i < j < owned_upto(own, n).len() ==> (#[trigger] owned_upto(own, n)[i]).0 < (
            #[trigger] owned_upto(own, n)[j]).0,
    decreases n,
{
    if n > 0 {
        marked_entities_are_listed(own, n - 1);
        let before = owned_upto(own, n - 1);
        let out = owned_upto(own, n);
        let x = (n - 1) as u8;
        assert forall|p: u8, id: Id| #[trigger] out.contains((p, id)) <==> p < n
            && own.contains_key(p) && own[p] == id by {
            assert(before.contains((p, id)) <==> p < n - 1 && own.contains_key(p) && own[p] == id);
            crate::sort::contains_push(before, (x, own[x]), (p, id));
        }
        assert forall|i: int, j: int| 0 <= i < j < out.len() implies (#[trigger] out[i]).0 < (
        #[trigger] out[j]).0 by {
            if j < before.len() {
                assert(before[i].0 < before[j].0);
            } else if i < before.len() {
                assert(before.contains((before[i].0, before[i].1)));
            }
        }
    }
}

/// Clearing departed peers takes exactly their marks.
pub proof fn leaves_take_their_marks(own: Map<u8, Id>, left: Seq<u8>, p: u8)
    ensures
        own_without(own, left).contains_key(p) <==> own.contains_key(p) && !left.contains(p),
        own_without(own, left).contains_key(p) ==> own_without(own, left)[p] == own[p],
    decreases left.len(),
{
    if left.len() > 0 {
        let init = left.drop_last();
        leaves_take_their_marks(own, init, p);
        assert(left =~= init.push(left.last()));
        crate::sort::contains_push(init, left.last(), p);
    }
}

/// The rows a header carries are exactly the marked entities, each peer once,
/// ascending.
pub proof fn the_header_lists_the_marks(own: Map<u8, Id>, p: u8, id: u32)
    ensures
        stable_sort(owner_rows(own)).contains((p, id)) <==> own.contains_key(p) && own[p] == Id(id),
        forall|i: int, j: int|
            0 <= i < j < stable_sort(owner_rows(own)).len() ==> (#[trigger] stable_sort(
                owner_rows(own),
            )[i]).0 < (#[trigger] stable_sort(owner_rows(own))[j]).0,
{
    let rows = owner_rows(own);
    stable_sort_exists(rows);
    marked_entities_are_listed(own, 256);
    assert forall|i: int, j: int| 0 <= i < j < rows.len() implies (#[trigger] rows[i]).0 < (
    #[trigger] rows[j]).0 by {
        assert(owned_upto(own, 256)[i].0 < owned_upto(own, 256)[j].0);
    }
    assert(stable_sort_of(rows, rows));
    stable_sort_unique(stable_sort(rows), rows, rows);
    stable_sort_members(stable_sort(rows), rows);
    assert(stable_sort(rows).contains((p, id)) <==> rows.contains((p, id)));
    marked_entities_are_listed(own, 256);
    let pairs = owned_upto(own, 256);
    assert(pairs.contains((p, Id(id))) <==> p < 256 && own.contains_key(p) && own[p] == Id(id));
    if rows.contains((p, id)) {
        let k = choose|k: int| 0 <= k < rows.len() && rows[k] == (p, id);
        assert(pairs[k] == (p, Id(id)));
    }
    if pairs.contains((p, Id(id))) {
        let k = choose|k: int| 0 <= k < pairs.len() && pairs[k] == (p, Id(id));
        assert(rows[k] == (p, id));
    }
}

// --- the whole intake -------------------------------------------------------

/// One intake, peer by peer: who is there afterwards, what it has acked, what
/// of its sends still waits, and what of its inputs was echoed.
pub proof fn an_intake_peer_by_peer(
    s: ServeView,
    joined: Seq<u8>,
    left: Seq<u8>,
    acks: Seq<(u8, u32, u32)>,
    inputs: Seq<PeerInput>,
    events: Seq<EventRow>,
    p: u8,
)
    requires
        s.net.peers.contains_key(p) ==> peer_sound(s.net.peers[p]),
        s.inputs matches Some(q) ==> q.len() == 256,
    ensures
        ({
            let out = intake_of(s, joined, left, acks, inputs, events);
            let was = s.net.peers[p];
            let now = out.net.peers[p];
            &&& out.net.peers.contains_key(p) <==> (s.net.peers.contains_key(p) || joined.contains(
                p,
            )) && !left.contains(p)
            &&& out.net.peers.contains_key(p) ==> {
                let acked: u32 = if s.net.peers.contains_key(p) {
                    was.acked
                } else {
                    0
                };
                &&& now.acked >= acked
                &&& forall|i: int|
                    0 <= i < acks.len() && (#[trigger] acks[i]).0 == p ==> now.acked >= acks[i].1
                &&& now.acked == acked || exists|i: int|
                    0 <= i < acks.len() && (#[trigger] acks[i]).0 == p && acks[i].1 == now.acked
            }
            &&& out.net.peers.contains_key(p) && s.net.peers.contains_key(p) ==> {
                let gone = was.sent.len() - now.sent.len();
                &&& now.sent == was.sent.skip(gone)
                &&& now.send_seq == was.send_seq
                &&& forall|a: int|
                    0 <= a < was.sent.len() ==> (a < gone <==> exists|i: int|
                        0 <= i < acks.len() && (#[trigger] acks[i]).0 == p && (
                        #[trigger] was.sent[a]).seq <= acks[i].2)
            }
            &&& out.joined == joined
            &&& out.left == left
            &&& out.events == events
            &&& out.width == s.width
            &&& out.net.sync == s.net.sync
        }),
{
    let added = peers_added(s.net, joined);
    let kept = peers_removed(added, left);
    let acked = acks_taken(kept, acks);
    joins_start_over(s.net, joined, p);
    leaves_take_their_peers(added, left, p);
    acks_add_nobody(kept, acks);
    if kept.peers.contains_key(p) {
        every_ack_counts(kept, acks, p);
        assert(acked.peers.dom().contains(p));
    }
    assert(acked.peers.contains_key(p) == kept.peers.contains_key(p)) by {
        assert(acked.peers.dom().contains(p) == kept.peers.dom().contains(p));
    }
    if let Some(q) = s.inputs {
        let queues = inputs_taken(queues_without(q, left), s.width, inputs, acked);
        let seqs = applied_upto(queues, 256);
        echoes_add_nobody(acked, seqs);
        assert(echoes_taken(acked, seqs).peers.dom().contains(p) == acked.peers.dom().contains(p));
        if acked.peers.contains_key(p) {
            every_echo_counts(acked, seqs, p);
        }
    }
}

/// One intake, input by input: a peer that stayed keeps what waited, gains
/// exactly its inputs of the channel's size, in order, each stamped with the
/// newest tick it has acked by then, and its consumed sequence is echoed.
pub proof fn an_intake_input_by_input(
    s: ServeView,
    joined: Seq<u8>,
    left: Seq<u8>,
    acks: Seq<(u8, u32, u32)>,
    inputs: Seq<PeerInput>,
    events: Seq<EventRow>,
    p: u8,
)
    requires
        s.inputs is Some,
        s.inputs->0.len() == 256,
    ensures
        ({
            let out = intake_of(s, joined, left, acks, inputs, events);
            let was = s.inputs->0[p as int];
            let now = out.inputs->0[p as int];
            let base: int = if left.contains(p) {
                0
            } else {
                was.queue.len() as int
            };
            let mine = inputs.filter(inputs_from_peer(p, s.width));
            let stamp = if out.net.peers.contains_key(p) {
                out.net.peers[p].acked
            } else {
                0
            };
            &&& out.inputs is Some
            &&& now.applied == if left.contains(p) {
                None
            } else {
                was.applied
            }
            &&& now.queue.len() == base + mine.len()
            &&& forall|k: int| 0 <= k < base ==> #[trigger] now.queue[k] == was.queue[k]
            &&& forall|k: int|
                0 <= k < mine.len() ==> now.queue[base + k] == (CmdView {
                    seq: (#[trigger] mine[k]).seq,
                    bytes: mine[k].payload,
                    view: stamp,
                })
            &&& out.net.peers.contains_key(p) && now.applied is Some ==> out.net.peers[p].input_seq
                >= (now.applied->0).seq
        }),
{
    let kept = peers_removed(peers_added(s.net, joined), left);
    let acked = acks_taken(kept, acks);
    let q0 = queues_without(s.inputs->0, left);
    leaves_take_their_inputs(s.inputs->0, left, p);
    every_input_is_queued(q0, s.width, inputs, acked, p);
    let queues = inputs_taken(q0, s.width, inputs, acked);
    let seqs = applied_upto(queues, 256);
    echoes_add_nobody(acked, seqs);
    assert(echoes_taken(acked, seqs).peers.dom().contains(p) == acked.peers.dom().contains(p));
    if acked.peers.contains_key(p) {
        every_echo_counts(acked, seqs, p);
        consumed_commands_are_listed(queues, 256);
        if queues[p as int].applied is Some {
            let seq = (queues[p as int].applied->0).seq;
            assert(seqs.contains((p, seq)));
            let i = choose|i: int| 0 <= i < seqs.len() && seqs[i] == (p, seq);
            assert(seqs[i].0 == p);
        }
    }
}

/// One intake, mark by mark: the marks of peers that left the tick before
/// are cleared, all others stay, and the header lists exactly what is left.
pub proof fn an_intake_mark_by_mark(
    s: ServeView,
    joined: Seq<u8>,
    left: Seq<u8>,
    acks: Seq<(u8, u32, u32)>,
    inputs: Seq<PeerInput>,
    events: Seq<EventRow>,
    p: u8,
    id: u32,
)
    ensures
        ({
            let out = intake_of(s, joined, left, acks, inputs, events);
            &&& out.own.contains_key(p) <==> s.own.contains_key(p) && !s.left.contains(p)
            &&& out.own.contains_key(p) ==> out.own[p] == s.own[p]
            &&& out.net.owners.contains((p, id)) <==> s.own.contains_key(p) && !s.left.contains(p)
                && s.own[p] == Id(id)
        }),
{
    leaves_take_their_marks(s.own, s.left, p);
    the_header_lists_the_marks(own_without(s.own, s.left), p, id);
}

} // verus!
