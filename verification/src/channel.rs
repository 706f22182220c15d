//! Typed channels over the wire: the continuous input channel, reliable
//! event channels, and who controls which entity.

use std::collections::VecDeque;

use vstd::prelude::*;

use crate::id::Id;
use crate::reg::Outbox;
use crate::session::EventRow;
use crate::text::copy_bytes;

verus! {

// --- input ------------------------------------------------------------------

/// One queued input: its sequence, the command bytes, and the peer's acked
/// snapshot tick when it arrived — what the sender was looking at.
pub struct Cmd {
    pub seq: u32,
    pub bytes: Vec<u8>,
    pub view: u32,
}

/// A queued input as plain values.
#[verifier::ext_equal]
pub struct CmdView {
    pub seq: u32,
    pub bytes: Seq<u8>,
    pub view: u32,
}

impl View for Cmd {
    type V = CmdView;

    open spec fn view(&self) -> CmdView {
        CmdView { seq: self.seq, bytes: self.bytes@, view: self.view }
    }
}

/// One peer's input: what waits, and the last command consumed.
#[verifier::ext_equal]
pub struct PeerQueue {
    pub queue: Seq<CmdView>,
    pub applied: Option<CmdView>,
}

/// Nothing received.
pub open spec fn no_input() -> PeerQueue {
    PeerQueue { queue: Seq::empty(), applied: None }
}

/// Command-frame consumption: the next command; when the queue backed up
/// past two, everything but the newest two is skipped.
pub open spec fn popped(p: PeerQueue) -> PeerQueue {
    let n = p.queue.len() as int;
    if n == 0 {
        p
    } else {
        let at = if n > 2 {
            n - 2
        } else {
            0
        };
        PeerQueue { queue: p.queue.skip(at + 1), applied: Some(p.queue[at]) }
    }
}

/// Newest-wins consumption.
pub open spec fn latest_of(p: PeerQueue) -> PeerQueue {
    if p.queue.len() == 0 {
        p
    } else {
        PeerQueue { queue: Seq::empty(), applied: Some(p.queue.last()) }
    }
}

/// The command held: the last one consumed, or zeros before any.
pub open spec fn held(p: PeerQueue, size: nat) -> Seq<u8> {
    match p.applied {
        Some(c) => c.bytes,
        None => Seq::new(size, |i: int| 0u8),
    }
}

struct Slot {
    queue: VecDeque<Cmd>,
    applied: Option<Cmd>,
}

impl View for Slot {
    type V = PeerQueue;

    closed spec fn view(&self) -> PeerQueue {
        PeerQueue {
            queue: self.queue@.map_values(|c: Cmd| c@),
            applied: match self.applied {
                Some(c) => Some(c@),
                None => None,
            },
        }
    }
}

/// Per-peer queues of the continuous input channel. Commands have a fixed
/// size; the net task pushes, the sim consumes.
pub struct InputQueues {
    size: usize,
    slots: Vec<Slot>,
}

impl InputQueues {
    /// Bytes per command.
    pub closed spec fn width(&self) -> nat {
        self.size as nat
    }

    /// The queue of each peer.
    pub closed spec fn peers(&self) -> Seq<PeerQueue> {
        self.slots@.map_values(|s: Slot| s@)
    }

    /// Every peer id has a queue.
    pub open spec fn wf(&self) -> bool {
        self.peers().len() == 256
    }

    /// Queues for commands of this size.
    pub fn new(size: usize) -> (r: Self)
        ensures
            r.wf(),
            r.width() == size,
            r.peers() == Seq::new(256, |p: int| no_input()),
    {
        let mut slots: Vec<Slot> = Vec::new();
        let mut i: usize = 0;
        while i < 256
            invariant
                i <= 256,
                slots@.len() == i,
                forall|p: int| 0 <= p < i ==> (#[trigger] slots@[p])@ == no_input(),
            decreases 256 - i,
        {
            let s = Slot { queue: VecDeque::new(), applied: None };
            assert(s@ =~= no_input());
            slots.push(s);
            i += 1;
        }
        let r = InputQueues { size, slots };
        assert(r.peers() =~= Seq::new(256, |p: int| no_input()));
        r
    }

    /// A peer joined.
    pub fn peer_add(&mut self, peer: u8)
        requires
            old(self).wf(),
        ensures
            final(self).wf(),
            final(self).width() == old(self).width(),
            final(self).peers() == old(self).peers(),
    {
    }

    /// A peer left: its queue and held command go.
    pub fn peer_remove(&mut self, peer: u8)
        requires
            old(self).wf(),
        ensures
            final(self).wf(),
            final(self).width() == old(self).width(),
            final(self).peers() == old(self).peers().update(peer as int, no_input()),
    {
        let s = Slot { queue: VecDeque::new(), applied: None };
        assert(s@ =~= no_input());
        self.slots.set(peer as usize, s);
        assert(self.peers() =~= old(self).peers().update(peer as int, no_input()));
    }

    /// Queue an input, stamped with what the sender was looking at. Bytes of
    /// the wrong size are dropped.
    pub fn push(&mut self, peer: u8, seq: u32, bytes: &[u8], view: u32)
        requires
            old(self).wf(),
        ensures
            final(self).wf(),
            final(self).width() == old(self).width(),
            final(self).peers() == if bytes@.len() != old(self).width() {
                old(self).peers()
            } else {
                let p = old(self).peers()[peer as int];
                old(self).peers().update(
                    peer as int,
                    PeerQueue {
                        queue: p.queue.push(CmdView { seq, bytes: bytes@, view }),
                        ..p
                    },
                )
            },
    {
        if bytes.len() != self.size {
            return;
        }
        let ghost before = self.peers();
        let i: usize = peer as usize;
        let c = Cmd { seq, bytes: copy_bytes(bytes), view };
        assert(self.slots@[i as int]@ == before[i as int]);
        self.slots[i].queue.push_back(c);
        proof {
            let p = before[i as int];
            let want = PeerQueue {
                queue: p.queue.push(CmdView { seq, bytes: bytes@, view }),
                ..p
            };
            assert(self.slots@[i as int]@ =~= want);
            assert(self.peers() =~= before.update(peer as int, want));
        }
    }

    /// Last consumed (peer, sequence) pairs, ascending by peer — echoed so
    /// clients can reconcile predictions against exactly what was applied.
    pub fn applied_seqs(&self) -> (r: Vec<(u8, u32)>)
        requires
            self.wf(),
        ensures
            r@ == applied_upto(self.peers(), 256),
    {
        let mut out: Vec<(u8, u32)> = Vec::new();
        let mut i: usize = 0;
        while i < 256
            invariant
                self.wf(),
                i <= 256,
                out@ == applied_upto(self.peers(), i as int),
            decreases 256 - i,
        {
            assert(self.slots@[i as int]@ == self.peers()[i as int]);
            if let Some(c) = &self.slots[i].applied {
                out.push((i as u8, c.seq));
            }
            i += 1;
        }
        out
    }

    /// The command held for `peer`.
    pub fn held_cmd(&self, peer: u8) -> (r: Vec<u8>)
        requires
            self.wf(),
        ensures
            r@ == held(self.peers()[peer as int], self.width()),
    {
        assert(self.slots@[peer as int]@ == self.peers()[peer as int]);
        match &self.slots[peer as usize].applied {
            Some(c) => copy_bytes(c.bytes.as_slice()),
            None => {
                let mut z: Vec<u8> = Vec::new();
                let mut i: usize = 0;
                while i < self.size
                    invariant
                        i <= self.size,
                        z@ == Seq::new(i as nat, |k: int| 0u8),
                    decreases self.size - i,
                {
                    z.push(0);
                    i += 1;
                    assert(z@ =~= Seq::new(i as nat, |k: int| 0u8));
                }
                z
            },
        }
    }

    /// Command-frame consumption: one input per call (= per sim tick),
    /// holding the last command when the queue runs dry and skipping ahead
    /// when it backs up.
    pub fn pop(&mut self, peer: u8) -> (r: Vec<u8>)
        requires
            old(self).wf(),
        ensures
            final(self).wf(),
            final(self).width() == old(self).width(),
            final(self).peers() == old(self).peers().update(
                peer as int,
                popped(old(self).peers()[peer as int]),
            ),
            r@ == held(final(self).peers()[peer as int], final(self).width()),
    {
        let ghost before = self.peers();
        let i: usize = peer as usize;
        let ghost p0 = before[i as int];
        assert(self.slots@[i as int]@ == p0);
        let ghost n = p0.queue.len() as int;
        let ghost at = if n > 2 {
            n - 2
        } else {
            0
        };
        let mut slots_queue: VecDeque<Cmd> = VecDeque::new();
        std::mem::swap(&mut slots_queue, &mut self.slots[i].queue);
        let ghost q0 = slots_queue@;
        let ghost mut k: int = 0;
        while slots_queue.len() > 2
            invariant
                q0.len() == n,
                k <= at,
                at == (if n > 2 { n - 2 } else { 0 }),
                0 <= k,
                slots_queue@ == q0.skip(k),
            decreases slots_queue@.len(),
        {
            let _ = slots_queue.pop_front();
            proof {
                assert(slots_queue@ =~= q0.skip(k + 1));
                k = k + 1;
            }
        }
        if slots_queue.len() > 0 {
            let c: Cmd = slots_queue.pop_front().unwrap();
            proof {
                assert(k == at);
                assert(c == q0[at]);
                assert(c@ == p0.queue[at]);
                assert(slots_queue@ =~= q0.skip(at + 1));
            }
            self.slots[i].applied = Some(c);
        }
        std::mem::swap(&mut slots_queue, &mut self.slots[i].queue);
        proof {
            assert(self.slots@[i as int]@.queue =~= popped(p0).queue);
            assert(self.slots@[i as int]@ =~= popped(p0));
            assert(self.peers() =~= before.update(peer as int, popped(p0)));
        }
        self.held_cmd(peer)
    }

    /// Newest-wins consumption: drain to the latest command and hold it.
    pub fn latest(&mut self, peer: u8) -> (r: Vec<u8>)
        requires
            old(self).wf(),
        ensures
            final(self).wf(),
            final(self).width() == old(self).width(),
            final(self).peers() == old(self).peers().update(
                peer as int,
                latest_of(old(self).peers()[peer as int]),
            ),
            r@ == held(final(self).peers()[peer as int], final(self).width()),
    {
        let ghost before = self.peers();
        let i: usize = peer as usize;
        let ghost p0 = before[i as int];
        assert(self.slots@[i as int]@ == p0);
        let mut queue: VecDeque<Cmd> = VecDeque::new();
        std::mem::swap(&mut queue, &mut self.slots[i].queue);
        let ghost q0 = queue@;
        if queue.len() > 0 {
            let c: Cmd = queue.pop_back().unwrap();
            assert(c@ == p0.queue.last());
            self.slots[i].applied = Some(c);
        }
        proof {
            assert(self.slots@[i as int]@.queue =~= Seq::<CmdView>::empty());
            assert(latest_of(p0).queue =~= Seq::<CmdView>::empty());
            assert(self.slots@[i as int]@ =~= latest_of(p0));
            assert(self.peers() =~= before.update(peer as int, latest_of(p0)));
        }
        self.held_cmd(peer)
    }

    /// The peer's acked snapshot tick as of when the most recently consumed
    /// input arrived — the lag-compensation rewind anchor. 0 before any
    /// input was consumed.
    pub fn view(&self, peer: u8) -> (r: u32)
        requires
            self.wf(),
        ensures
            r == match self.peers()[peer as int].applied {
                Some(c) => c.view,
                None => 0,
            },
    {
        assert(self.slots@[peer as int]@ == self.peers()[peer as int]);
        match &self.slots[peer as usize].applied {
            Some(c) => c.view,
            None => 0,
        }
    }
}

/// The sequences the first `n` peers' held commands carry.
pub open spec fn applied_upto(peers: Seq<PeerQueue>, n: int) -> Seq<(u8, u32)>
    decreases n,
{
    if n <= 0 {
        Seq::empty()
    } else {
        let before = applied_upto(peers, n - 1);
        match peers[n - 1].applied {
            Some(c) => before.push(((n - 1) as u8, c.seq)),
            None => before,
        }
    }
}

/// Queue-induced latency is bounded: one consumption leaves at most one
/// command waiting, and never reorders — what is left is newer than what was
/// consumed.
pub proof fn consuming_bounds_the_queue(p: PeerQueue)
    requires
        forall|i: int, j: int|
            0 <= i < j < p.queue.len() ==> (#[trigger] p.queue[i]).seq < (#[trigger] p.queue[j]).seq,
    ensures
        popped(p).queue.len() <= 1,
        p.queue.len() > 0 ==> popped(p).applied is Some && forall|k: int|
            0 <= k < popped(p).queue.len() ==> (#[trigger] popped(p).queue[k]).seq
                > (popped(p).applied->0).seq,
{
}

// --- ownership --------------------------------------------------------------

/// Per-peer controlled entity; the net task ships it in every snapshot
/// header.
pub struct ServerOwn {
    rows: Vec<Option<Id>>,
}

impl View for ServerOwn {
    type V = Map<u8, Id>;

    closed spec fn view(&self) -> Map<u8, Id> {
        Map::new(
            |p: u8| p < self.rows@.len() && self.rows@[p as int] is Some,
            |p: u8| self.rows@[p as int]->0,
        )
    }
}

/// The pairs of the first `n` peers, ascending.
pub open spec fn owned_upto(own: Map<u8, Id>, n: int) -> Seq<(u8, Id)>
    decreases n,
{
    if n <= 0 {
        Seq::empty()
    } else {
        let before = owned_upto(own, n - 1);
        if own.contains_key((n - 1) as u8) {
            before.push(((n - 1) as u8, own[(n - 1) as u8]))
        } else {
            before
        }
    }
}

impl ServerOwn {
    /// Every peer id has a row.
    pub closed spec fn wf(&self) -> bool {
        self.rows@.len() == 256
    }

    /// Nobody controls anything.
    pub fn new() -> (r: Self)
        ensures
            r.wf(),
            r@ == Map::<u8, Id>::empty(),
    {
        let mut rows: Vec<Option<Id>> = Vec::new();
        let mut i: usize = 0;
        while i < 256
            invariant
                i <= 256,
                rows@.len() == i,
                forall|p: int| 0 <= p < i ==> (#[trigger] rows@[p]) is None,
            decreases 256 - i,
        {
            rows.push(None);
            i += 1;
        }
        let r = ServerOwn { rows };
        assert(r@ =~= Map::<u8, Id>::empty());
        r
    }

    /// Mark `peer`'s controlled entity.
    pub fn set(&mut self, peer: u8, id: Id)
        requires
            old(self).wf(),
        ensures
            final(self).wf(),
            final(self)@ == old(self)@.insert(peer, id),
    {
        self.rows.set(peer as usize, Some(id));
        assert(self@ =~= old(self)@.insert(peer, id));
    }

    /// `peer` controls nothing.
    pub fn clear(&mut self, peer: u8)
        requires
            old(self).wf(),
        ensures
            final(self).wf(),
            final(self)@ == old(self)@.remove(peer),
    {
        self.rows.set(peer as usize, None);
        assert(self@ =~= old(self)@.remove(peer));
    }

    /// `peer`'s controlled entity.
    pub fn get(&self, peer: u8) -> (r: Option<Id>)
        requires
            self.wf(),
        ensures
            r == if self@.contains_key(peer) {
                Some(self@[peer])
            } else {
                None
            },
    {
        self.rows[peer as usize]
    }

    /// Every (peer, controlled entity) pair, ascending by peer.
    pub fn owned(&self) -> (r: Vec<(u8, Id)>)
        requires
            self.wf(),
        ensures
            r@ == owned_upto(self@, 256),
    {
        let mut out: Vec<(u8, Id)> = Vec::new();
        let mut i: usize = 0;
        while i < 256
            invariant
                self.wf(),
                i <= 256,
                out@ == owned_upto(self@, i as int),
            decreases 256 - i,
        {
            if let Some(id) = self.rows[i] {
                out.push((i as u8, id));
            }
            i += 1;
        }
        out
    }

    /// Which peer controls entity `id`, if any: the lowest, if several.
    pub fn owner_of(&self, id: Id) -> (r: Option<u8>)
        requires
            self.wf(),
        ensures
            match r {
                Some(p) => self@.contains_key(p) && self@[p] == id && forall|q: u8|
                    q < p && #[trigger] self@.contains_key(q) ==> self@[q] != id,
                None => forall|q: u8| #[trigger] self@.contains_key(q) ==> self@[q] != id,
            },
    {
        let mut i: usize = 0;
        while i < 256
            invariant
                self.wf(),
                i <= 256,
                forall|q: u8| q < i && #[trigger] self@.contains_key(q) ==> self@[q] != id,
            decreases 256 - i,
        {
            if let Some(e) = self.rows[i] {
                if e == id {
                    assert(self@.contains_key(i as u8));
                    return Some(i as u8);
                }
            }
            i += 1;
        }
        None
    }
}

impl Default for ServerOwn {
    fn default() -> (r: Self)
        ensures
            r.wf(),
            r@ == Map::<u8, Id>::empty(),
    {
        ServerOwn::new()
    }
}

// --- events -----------------------------------------------------------------

/// Sender for a reliable client-to-server event channel.
#[derive(Clone, Copy)]
pub struct EventTx {
    pub tag: u16,
}

impl EventTx {
    /// Queue an event for reliable delivery (held until the handshake
    /// completes, so it's safe to call at init).
    pub fn send(&self, out: &mut Outbox, payload: &[u8])
        ensures
            final(out)@ == old(out)@.push((self.tag, payload@)),
    {
        out.send(self.tag, payload);
    }
}

/// Receiver for a reliable client-to-server event channel.
#[derive(Clone, Copy)]
pub struct EventRx {
    pub tag: u16,
    pub size: usize,
}

/// One event of a channel: the sender and the payload.
pub struct Received {
    pub peer: u8,
    pub payload: Vec<u8>,
}

/// Received events as plain values.
pub open spec fn received_views(rows: Seq<Received>) -> Seq<(u8, Seq<u8>)> {
    rows.map_values(|r: Received| (r.peer, r.payload@))
}

/// The events of one channel among these: its tag, its size.
pub open spec fn events_of(rows: Seq<EventRow>, tag: u16, size: nat) -> Seq<(u8, Seq<u8>)>
    decreases rows.len(),
{
    if rows.len() == 0 {
        Seq::empty()
    } else {
        let before = events_of(rows.drop_last(), tag, size);
        let r = rows.last();
        if r.ty == tag && r.payload@.len() == size {
            before.push((r.peer, r.payload@))
        } else {
            before
        }
    }
}

impl EventRx {
    /// This tick's received events of the channel. Reading is
    /// non-destructive: each receiver filters its own tag.
    pub fn drain(&self, events: &[EventRow]) -> (r: Vec<Received>)
        ensures
            received_views(r@) == events_of(events@, self.tag, self.size as nat),
    {
        let mut out: Vec<Received> = Vec::new();
        let mut i: usize = 0;
        proof {
            assert(events@.take(0) =~= Seq::<EventRow>::empty());
            assert(received_views(out@) =~= Seq::<(u8, Seq<u8>)>::empty());
        }
        while i < events.len()
            invariant
                i <= events@.len(),
                received_views(out@) == events_of(
                    events@.take(i as int),
                    self.tag,
                    self.size as nat,
                ),
            decreases events@.len() - i,
        {
            let ghost before = received_views(out@);
            proof {
                assert(events@.take(i + 1).drop_last() =~= events@.take(i as int));
            }
            if events[i].ty == self.tag && events[i].payload.len() == self.size {
                let row = Received {
                    peer: events[i].peer,
                    payload: copy_bytes(events[i].payload.as_slice()),
                };
                out.push(row);
                assert(received_views(out@) =~= before.push(
                    (events@[i as int].peer, events@[i as int].payload@),
                ));
            }
            i += 1;
        }
        assert(events@.take(i as int) =~= events@);
        out
    }
}

/// Consuming takes one command: the oldest of at most two waiting, the second
/// newest of more; those behind it wait on in order and those before it are
/// skipped. With nothing waiting the last command stays.
pub proof fn consuming_takes_one_command(p: PeerQueue)
    ensures
        ({
            let n = p.queue.len() as int;
            let out = popped(p);
            &&& n == 0 ==> out == p
            &&& n == 1 ==> out.queue.len() == 0
            &&& n >= 2 ==> out.queue.len() == 1 && out.queue[0] == p.queue[n - 1]
            &&& n == 1 ==> out.applied == Some(p.queue[0])
            &&& n >= 2 ==> out.applied == Some(p.queue[n - 2])
        }),
{
}

/// Reading the latest takes the newest command and leaves none waiting; with
/// nothing waiting the last command stays.
pub proof fn the_latest_command_wins(p: PeerQueue)
    ensures
        latest_of(p).queue.len() == 0,
        p.queue.len() > 0 ==> latest_of(p).applied == Some(p.queue[p.queue.len() - 1]),
        p.queue.len() == 0 ==> latest_of(p).applied == p.applied,
{
}

/// A peer is held to its last consumed command's bytes, and to zeroes of the
/// command's width before the first.
pub proof fn peers_hold_their_last_command(p: PeerQueue, size: nat, i: int)
    ensures
        p.applied matches Some(c) ==> held(p, size) == c.bytes,
        p.applied is None ==> held(p, size).len() == size,
        p.applied is None && 0 <= i < size ==> held(p, size)[i] == 0,
{
}

/// The events read under a tag are exactly the rows with that tag and the
/// value's width, in the order they came, each with its sender.
pub proof fn events_come_by_tag(rows: Seq<EventRow>, tag: u16, size: nat) -> (at: Seq<int>)
    ensures
        events_of(rows, tag, size).len() == at.len(),
        forall|k: int|
            0 <= k < at.len() ==> 0 <= #[trigger] at[k] < rows.len() && events_of(
                rows,
                tag,
                size,
            )[k] == (rows[at[k]].peer, rows[at[k]].payload@),
        forall|j: int, k: int| 0 <= j < k < at.len() ==> (#[trigger] at[j]) < (#[trigger] at[k]),
        forall|i: int|
            0 <= i < rows.len() ==> (#[trigger] at.contains(i) <==> rows[i].ty == tag
                && rows[i].payload@.len() == size),
    decreases rows.len(),
{
    if rows.len() == 0 {
        Seq::empty()
    } else {
        let init = rows.drop_last();
        let before = events_come_by_tag(init, tag, size);
        let n = rows.len() - 1;
        let at = if rows[n].ty == tag && rows[n].payload@.len() == size {
            before.push(n)
        } else {
            before
        };
        let out = events_of(rows, tag, size);
        assert forall|k: int| 0 <= k < at.len() implies 0 <= #[trigger] at[k] < rows.len() && out[k]
            == (rows[at[k]].peer, rows[at[k]].payload@) by {
            if k < before.len() {
                assert(at[k] == before[k]);
                assert(init[before[k]] == rows[at[k]]);
            }
        }
        assert forall|j: int, k: int| 0 <= j < k < at.len() implies (#[trigger] at[j]) < (
        #[trigger] at[k]) by {
            assert(at[j] == before[j]);
            if k < before.len() {
                assert(at[k] == before[k]);
            }
        }
        assert forall|i: int| 0 <= i < rows.len() implies (#[trigger] at.contains(i)
            <==> rows[i].ty == tag && rows[i].payload@.len() == size) by {
            crate::sort::contains_push(before, n, i);
            if i < n {
                assert(before.contains(i) <==> init[i].ty == tag && init[i].payload@.len()
                    == size);
            } else if before.contains(i) {
                let k = choose|k: int| 0 <= k < before.len() && before[k] == i;
                assert(before[k] < init.len());
            }
        }
        at
    }
}

/// Before its first command a peer waits with nothing.
pub proof fn peers_start_without_commands()
    ensures
        no_input().queue.len() == 0,
        no_input().applied is None,
{
}

/// What is received is told with its sender, row for row.
pub proof fn receipts_tell_their_sender(rows: Seq<Received>, k: int)
    requires
        0 <= k < rows.len(),
    ensures
        received_views(rows).len() == rows.len(),
        received_views(rows)[k].0 == rows[k].peer,
        received_views(rows)[k].1 == rows[k].payload@,
{
}

} // verus!
