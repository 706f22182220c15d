//! The net task both roles run each tick, as decisions over plain data: what
//! the transport delivered goes in, what it is to send comes out.

use vstd::prelude::*;

use crate::apply::{finder, replica_of, replay, same_shape, Applied, NetClient, Replica};
use crate::channel::{
    applied_upto, no_input, owned_upto, CmdView, InputQueues, PeerQueue, ServerOwn,
};
use crate::delta::WirePool;
use crate::id::Id;
use crate::kernel::{KernelView, Pm};
use crate::net::{
    acked_by, new_peer, sync_fits, NetServer, PeerView, ServerView, Snapshot,
};
use crate::reg::{event_views, OutEvent, Outbox};
use crate::session::{input_rows, EventRow, InputRow, PeerInput};
use crate::snapshot::{parse, Header};
use crate::sort::{sort_stable, stable_sort, stable_sort_exists, stable_sort_unique, Ranked};
use crate::wire::{get32, un32};

verus! {

// --- server -----------------------------------------------------------------

/// What the server net task trades in, as contracts see it.
#[verifier::ext_equal]
pub struct ServeView {
    pub net: ServerView,
    /// Input queues per peer; `None` without an input channel.
    pub inputs: Option<Seq<PeerQueue>>,
    /// Bytes per input command.
    pub width: nat,
    pub own: Map<u8, Id>,
    /// Peers that joined this tick.
    pub joined: Seq<u8>,
    /// Peers that left this tick.
    pub left: Seq<u8>,
    pub events: Seq<EventRow>,
}

/// Entities without those of departed peers.
pub open spec fn own_without(own: Map<u8, Id>, left: Seq<u8>) -> Map<u8, Id>
    decreases left.len(),
{
    if left.len() == 0 {
        own
    } else {
        own_without(own, left.drop_last()).remove(left.last())
    }
}

/// A server with these peers admitted.
pub open spec fn peers_added(n: ServerView, joined: Seq<u8>) -> ServerView
    decreases joined.len(),
{
    if joined.len() == 0 {
        n
    } else {
        let before = peers_added(n, joined.drop_last());
        let p = joined.last();
        if before.peers.contains_key(p) {
            before
        } else {
            ServerView {
                peers: before.peers.insert(p, new_peer(before.sync.len())),
                ..before
            }
        }
    }
}

/// A server without these peers.
pub open spec fn peers_removed(n: ServerView, left: Seq<u8>) -> ServerView
    decreases left.len(),
{
    if left.len() == 0 {
        n
    } else {
        let before = peers_removed(n, left.drop_last());
        ServerView { peers: before.peers.remove(left.last()), ..before }
    }
}

/// A server with these acks recorded.
pub open spec fn acks_taken(n: ServerView, acks: Seq<(u8, u32, u32)>) -> ServerView
    decreases acks.len(),
{
    if acks.len() == 0 {
        n
    } else {
        let before = acks_taken(n, acks.drop_last());
        let (p, tick, seq) = acks.last();
        if before.peers.contains_key(p) {
            ServerView {
                peers: before.peers.insert(p, acked_by(before.peers[p], tick, seq)),
                ..before
            }
        } else {
            before
        }
    }
}

/// A server with these consumed inputs recorded.
pub open spec fn echoes_taken(n: ServerView, seqs: Seq<(u8, u32)>) -> ServerView
    decreases seqs.len(),
{
    if seqs.len() == 0 {
        n
    } else {
        let before = echoes_taken(n, seqs.drop_last());
        let (p, seq) = seqs.last();
        if before.peers.contains_key(p) && seq > before.peers[p].input_seq {
            ServerView {
                peers: before.peers.insert(
                    p,
                    PeerView { input_seq: seq, ..before.peers[p] },
                ),
                ..before
            }
        } else {
            before
        }
    }
}

/// Queues without those of departed peers.
pub open spec fn queues_without(q: Seq<PeerQueue>, left: Seq<u8>) -> Seq<PeerQueue>
    decreases left.len(),
{
    if left.len() == 0 {
        q
    } else {
        queues_without(q, left.drop_last()).update(left.last() as int, no_input())
    }
}

/// The newest tick a peer has acked, 0 for an unknown peer.
pub open spec fn acked_tick_of(n: ServerView, p: u8) -> u32 {
    if n.peers.contains_key(p) {
        n.peers[p].acked
    } else {
        0
    }
}

/// Queues with these inputs appended, each stamped with what its sender had
/// acked; inputs of the wrong size are dropped.
pub open spec fn inputs_taken(
    q: Seq<PeerQueue>,
    width: nat,
    rows: Seq<PeerInput>,
    n: ServerView,
) -> Seq<PeerQueue>
    decreases rows.len(),
{
    if rows.len() == 0 {
        q
    } else {
        let before = inputs_taken(q, width, rows.drop_last(), n);
        let r = rows.last();
        if r.payload.len() != width {
            before
        } else {
            let p = before[r.peer as int];
            before.update(
                r.peer as int,
                PeerQueue {
                    queue: p.queue.push(
                        CmdView {
                            seq: r.seq,
                            bytes: r.payload,
                            view: acked_tick_of(n, r.peer),
                        },
                    ),
                    ..p
                },
            )
        }
    }
}

/// Owner rows as the header carries them.
pub open spec fn owner_rows(own: Map<u8, Id>) -> Seq<(u8, u32)> {
    owned_upto(own, 256).map_values(|o: (u8, Id)| (o.0, o.1.0))
}

/// The server after one tick's intake. Leaves of the tick before lose their
/// entities now — their handlers had a tick with ownership intact; acks land
/// before inputs, so each input is stamped with its sender's contemporaneous
/// view; what the sim consumed is echoed.
pub open spec fn intake_of(
    s: ServeView,
    joined: Seq<u8>,
    left: Seq<u8>,
    acks: Seq<(u8, u32, u32)>,
    inputs: Seq<PeerInput>,
    events: Seq<EventRow>,
) -> ServeView {
    let own = own_without(s.own, s.left);
    let acked = acks_taken(peers_removed(peers_added(s.net, joined), left), acks);
    let queues = match s.inputs {
        Some(q) => Some(inputs_taken(queues_without(q, left), s.width, inputs, acked)),
        None => None,
    };
    let echoed = match queues {
        Some(q) => echoes_taken(acked, applied_upto(q, 256)),
        None => acked,
    };
    ServeView {
        net: ServerView { owners: stable_sort(owner_rows(own)), ..echoed },
        inputs: queues,
        own,
        joined,
        left,
        events,
        ..s
    }
}

/// The server net task's state.
pub struct Serve {
    net: NetServer,
    inputs: Option<InputQueues>,
    own: ServerOwn,
    joined: Vec<u8>,
    left: Vec<u8>,
    events: Vec<EventRow>,
}

impl View for Serve {
    type V = ServeView;

    closed spec fn view(&self) -> ServeView {
        ServeView {
            net: self.net@,
            inputs: match self.inputs {
                Some(q) => Some(q.peers()),
                None => None,
            },
            width: match self.inputs {
                Some(q) => q.width(),
                None => 0,
            },
            own: self.own@,
            joined: self.joined@,
            left: self.left@,
            events: self.events@,
        }
    }
}

impl Serve {
    /// The parts keep their invariants.
    pub closed spec fn wf(&self) -> bool {
        &&& self.net.wf()
        &&& self.own.wf()
        &&& self.inputs matches Some(q) ==> q.wf()
    }

    /// Serve with this replication state; `input_size` is the size of the
    /// input channel's commands, if there is one.
    pub fn new(net: NetServer, input_size: Option<usize>) -> (r: Self)
        requires
            net.wf(),
        ensures
            r.wf(),
            r@ == (ServeView {
                net: net@,
                inputs: match input_size {
                    Some(n) => Some(Seq::new(256, |p: int| no_input())),
                    None => None,
                },
                width: match input_size {
                    Some(n) => n as nat,
                    None => 0,
                },
                own: Map::empty(),
                joined: Seq::empty(),
                left: Seq::empty(),
                events: Seq::empty(),
            }),
    {
        let inputs: Option<InputQueues> = match input_size {
            Some(n) => Some(InputQueues::new(n)),
            None => None,
        };
        Serve {
            net,
            inputs,
            own: ServerOwn::new(),
            joined: Vec::new(),
            left: Vec::new(),
            events: Vec::new(),
        }
    }

    /// Whether an input channel is registered.
    pub fn has_inputs(&self) -> (r: bool)
        ensures
            r == self@.inputs is Some,
    {
        self.inputs.is_some()
    }

    /// Take in what the transport delivered since the last tick.
    pub fn intake(
        &mut self,
        joined: Vec<u8>,
        left: Vec<u8>,
        acks: Vec<(u8, u32, u32)>,
        inputs: Vec<InputRow>,
        events: Vec<EventRow>,
    )
        requires
            old(self).wf(),
        ensures
            final(self).wf(),
            final(self)@ == intake_of(
                old(self)@,
                joined@,
                left@,
                acks@,
                input_rows(inputs@),
                events@,
            ),
    {
        let ghost s0 = self@;
        self.own_clear();
        self.peers_in(&joined);
        self.peers_out(&left);
        self.acks_in(&acks);
        self.inputs_in(&inputs);
        self.echo();
        let rows: Vec<(u8, u32)> = self.owner_table();
        self.net.owners_set(rows);
        self.joined = joined;
        self.left = left;
        self.events = events;
        assert(self@ =~= intake_of(
            s0,
            joined@,
            left@,
            acks@,
            input_rows(inputs@),
            events@,
        ));
    }

    /// Drop the entities of last tick's leaves.
    fn own_clear(&mut self)
        requires
            old(self).wf(),
        ensures
            final(self).wf(),
            final(self)@ == (ServeView {
                own: own_without(old(self)@.own, old(self)@.left),
                ..old(self)@
            }),
    {
        let ghost s0 = self@;
        let mut i: usize = 0;
        assert(self.left@.take(0) =~= Seq::<u8>::empty());
        while i < self.left.len()
            invariant
                self.wf(),
                i <= self.left@.len(),
                self.left@ == s0.left,
                self@ == (ServeView {
                    own: own_without(s0.own, s0.left.take(i as int)),
                    ..s0
                }),
            decreases self.left@.len() - i,
        {
            proof {
                assert(s0.left.take(i + 1).drop_last() =~= s0.left.take(i as int));
            }
            self.own.clear(self.left[i]);
            i += 1;
        }
        assert(s0.left.take(i as int) =~= s0.left);
    }

    /// Admit peers.
    fn peers_in(&mut self, joined: &Vec<u8>)
        requires
            old(self).wf(),
        ensures
            final(self).wf(),
            final(self)@ == (ServeView {
                net: peers_added(old(self)@.net, joined@),
                ..old(self)@
            }),
    {
        let ghost s0 = self@;
        let mut i: usize = 0;
        assert(joined@.take(0) =~= Seq::<u8>::empty());
        while i < joined.len()
            invariant
                self.wf(),
                i <= joined@.len(),
                self@ == (ServeView {
                    net: peers_added(s0.net, joined@.take(i as int)),
                    ..s0
                }),
            decreases joined@.len() - i,
        {
            proof {
                assert(joined@.take(i + 1).drop_last() =~= joined@.take(i as int));
            }
            self.net.peer_add(joined[i]);
            i += 1;
        }
        assert(joined@.take(i as int) =~= joined@);
    }

    /// Forget peers.
    fn peers_out(&mut self, left: &Vec<u8>)
        requires
            old(self).wf(),
        ensures
            final(self).wf(),
            final(self)@ == (ServeView {
                net: peers_removed(old(self)@.net, left@),
                inputs: match old(self)@.inputs {
                    Some(q) => Some(queues_without(q, left@)),
                    None => None,
                },
                ..old(self)@
            }),
    {
        let ghost s0 = self@;
        let mut i: usize = 0;
        assert(left@.take(0) =~= Seq::<u8>::empty());
        while i < left.len()
            invariant
                self.wf(),
                i <= left@.len(),
                self@ == (ServeView {
                    net: peers_removed(s0.net, left@.take(i as int)),
                    inputs: match s0.inputs {
                        Some(q) => Some(queues_without(q, left@.take(i as int))),
                        None => None,
                    },
                    ..s0
                }),
            decreases left@.len() - i,
        {
            proof {
                assert(left@.take(i + 1).drop_last() =~= left@.take(i as int));
            }
            self.net.peer_remove(left[i]);
            let mut taken: Option<InputQueues> = None;
            std::mem::swap(&mut taken, &mut self.inputs);
            if let Some(mut q) = taken {
                q.peer_remove(left[i]);
                self.inputs = Some(q);
            }
            i += 1;
        }
        assert(left@.take(i as int) =~= left@);
    }

    /// Record acks.
    fn acks_in(&mut self, acks: &Vec<(u8, u32, u32)>)
        requires
            old(self).wf(),
        ensures
            final(self).wf(),
            final(self)@ == (ServeView {
                net: acks_taken(old(self)@.net, acks@),
                ..old(self)@
            }),
    {
        let ghost s0 = self@;
        let mut i: usize = 0;
        assert(acks@.take(0) =~= Seq::<(u8, u32, u32)>::empty());
        while i < acks.len()
            invariant
                self.wf(),
                i <= acks@.len(),
                self@ == (ServeView { net: acks_taken(s0.net, acks@.take(i as int)), ..s0 }),
            decreases acks@.len() - i,
        {
            proof {
                assert(acks@.take(i + 1).drop_last() =~= acks@.take(i as int));
            }
            let (p, tick, seq): (u8, u32, u32) = acks[i];
            self.net.ack(p, tick, seq);
            i += 1;
        }
        assert(acks@.take(i as int) =~= acks@);
    }

    /// Queue inputs, stamped with their senders' acks.
    fn inputs_in(&mut self, inputs: &Vec<InputRow>)
        requires
            old(self).wf(),
        ensures
            final(self).wf(),
            final(self)@ == (ServeView {
                inputs: match old(self)@.inputs {
                    Some(q) => Some(
                        inputs_taken(q, old(self)@.width, input_rows(inputs@), old(self)@.net),
                    ),
                    None => None,
                },
                ..old(self)@
            }),
    {
        let ghost s0 = self@;
        let ghost rows = input_rows(inputs@);
        let mut taken: Option<InputQueues> = None;
        std::mem::swap(&mut taken, &mut self.inputs);
        if let Some(mut q) = taken {
            let ghost q0 = q.peers();
            let mut i: usize = 0;
            assert(rows.take(0) =~= Seq::<PeerInput>::empty());
            while i < inputs.len()
                invariant
                    self.net.wf(),
                    self.own.wf(),
                    self.net@ == s0.net,
                    q.wf(),
                    q.width() == s0.width,
                    rows == input_rows(inputs@),
                    i <= inputs@.len(),
                    q.peers() == inputs_taken(q0, s0.width, rows.take(i as int), s0.net),
                decreases inputs@.len() - i,
            {
                proof {
                    assert(rows.take(i + 1).drop_last() =~= rows.take(i as int));
                    assert(rows.take(i + 1).last() == inputs@[i as int]@);
                }
                let view: u32 = self.net.acked_tick(inputs[i].peer);
                q.push(inputs[i].peer, inputs[i].seq, inputs[i].payload.as_slice(), view);
                i += 1;
            }
            assert(rows.take(i as int) =~= rows);
            self.inputs = Some(q);
        }
    }

    /// Echo what the sim consumed.
    fn echo(&mut self)
        requires
            old(self).wf(),
        ensures
            final(self).wf(),
            final(self)@ == (ServeView {
                net: match old(self)@.inputs {
                    Some(q) => echoes_taken(old(self)@.net, applied_upto(q, 256)),
                    None => old(self)@.net,
                },
                ..old(self)@
            }),
    {
        let ghost s0 = self@;
        let seqs: Vec<(u8, u32)> = match &self.inputs {
            Some(q) => q.applied_seqs(),
            None => {
                return;
            },
        };
        let mut i: usize = 0;
        assert(seqs@.take(0) =~= Seq::<(u8, u32)>::empty());
        while i < seqs.len()
            invariant
                self.wf(),
                i <= seqs@.len(),
                self@ == (ServeView { net: echoes_taken(s0.net, seqs@.take(i as int)), ..s0 }),
            decreases seqs@.len() - i,
        {
            proof {
                assert(seqs@.take(i + 1).drop_last() =~= seqs@.take(i as int));
            }
            let (p, seq): (u8, u32) = seqs[i];
            self.net.input_processed(p, seq);
            i += 1;
        }
        assert(seqs@.take(i as int) =~= seqs@);
    }

    /// The owner rows for the header.
    fn owner_table(&self) -> (r: Vec<(u8, u32)>)
        requires
            self.wf(),
        ensures
            r@ == owner_rows(self@.own),
    {
        let pairs: Vec<(u8, Id)> = self.own.owned();
        let mut out: Vec<(u8, u32)> = Vec::new();
        let mut i: usize = 0;
        let ghost f = |o: (u8, Id)| (o.0, o.1.0);
        while i < pairs.len()
            invariant
                i <= pairs@.len(),
                out@.len() == i,
                f == (|o: (u8, Id)| (o.0, o.1.0)),
                forall|k: int| 0 <= k < i ==> #[trigger] out@[k] == f(pairs@[k]),
            decreases pairs@.len() - i,
        {
            let (p, id): (u8, Id) = pairs[i];
            out.push((p, id.0));
            i += 1;
        }
        assert(out@ =~= pairs@.map_values(f));
        out
    }

    /// The replication state.
    pub fn net(&self) -> (r: &NetServer)
        requires
            self.wf(),
        ensures
            r@ == self@.net,
            r.wf(),
    {
        &self.net
    }

    /// Pack a snapshot for `peer`.
    pub fn snapshot<P: WirePool>(&mut self, pm: &Pm<P>, peer: u8, budget: usize) -> (r: Option<
        Snapshot,
    >)
        requires
            old(self).wf(),
            pm.wf(),
            sync_fits(pm@, old(self)@.net.sync),
            old(self)@.net.owners.len() <= u8::MAX,
            pm@.removal_log.len() <= u32::MAX,
            old(self)@.net.peers.contains_key(peer) ==> old(self)@.net.peers[peer].send_seq
                < u32::MAX,
        ensures
            final(self).wf(),
            match r {
                None => !old(self)@.net.peers.contains_key(peer) && final(self)@ == old(self)@,
                Some(s) => {
                    let out = crate::net::snapshot_of(old(self)@.net, pm@, peer, budget as nat);
                    &&& old(self)@.net.peers.contains_key(peer)
                    &&& s.bytes@ == crate::snapshot::encode(out.message)
                    &&& s.entries == out.entries
                    &&& s.more == out.more
                    &&& final(self)@ == (ServeView {
                        net: ServerView {
                            peers: old(self)@.net.peers.insert(peer, out.peer),
                            ..old(self)@.net
                        },
                        ..old(self)@
                    })
                },
            },
    {
        self.net.snapshot_budgeted(pm, peer, budget)
    }

    /// Peers that joined this tick.
    pub fn joined(&self) -> (r: &[u8])
        ensures
            r@ == self@.joined,
    {
        self.joined.as_slice()
    }

    /// Peers that left this tick.
    pub fn left(&self) -> (r: &[u8])
        ensures
            r@ == self@.left,
    {
        self.left.as_slice()
    }

    /// Reliable events received this tick.
    pub fn events(&self) -> (r: &[EventRow])
        ensures
            r@ == self@.events,
    {
        self.events.as_slice()
    }

    /// Mark `peer`'s controlled entity.
    pub fn own_set(&mut self, peer: u8, id: Id)
        requires
            old(self).wf(),
        ensures
            final(self).wf(),
            final(self)@ == (ServeView { own: old(self)@.own.insert(peer, id), ..old(self)@ }),
    {
        self.own.set(peer, id);
    }

    /// `peer`'s controlled entity, if one is marked.
    pub fn own(&self, peer: u8) -> (r: Option<Id>)
        requires
            self.wf(),
        ensures
            r == if self@.own.contains_key(peer) {
                Some(self@.own[peer])
            } else {
                None
            },
    {
        self.own.get(peer)
    }

    /// Every (peer, controlled entity) pair, ascending by peer.
    pub fn owned(&self) -> (r: Vec<(u8, Id)>)
        requires
            self.wf(),
        ensures
            r@ == owned_upto(self@.own, 256),
    {
        self.own.owned()
    }

    /// Which peer controls entity `id`, if any.
    pub fn owner_of(&self, id: Id) -> (r: Option<u8>)
        requires
            self.wf(),
        ensures
            match r {
                Some(p) => self@.own.contains_key(p) && self@.own[p] == id && forall|q: u8|
                    q < p && #[trigger] self@.own.contains_key(q) ==> self@.own[q] != id,
                None => forall|q: u8| #[trigger] self@.own.contains_key(q) ==> self@.own[q] != id,
            },
    {
        self.own.owner_of(id)
    }

    /// The newest snapshot tick `peer` has acknowledged (0 until the first
    /// ack).
    pub fn acked_tick(&self, peer: u8) -> (r: u32)
        requires
            self.wf(),
        ensures
            r == acked_tick_of(self@.net, peer),
    {
        self.net.acked_tick(peer)
    }

    /// Command-frame consumption of a peer's input; nothing without an input
    /// channel.
    pub fn input_pop(&mut self, peer: u8) -> (r: Option<Vec<u8>>)
        requires
            old(self).wf(),
        ensures
            final(self).wf(),
            match old(self)@.inputs {
                Some(q) => {
                    let now = q.update(peer as int, crate::channel::popped(q[peer as int]));
                    &&& r matches Some(b) && b@ == crate::channel::held(
                        now[peer as int],
                        old(self)@.width,
                    )
                    &&& final(self)@ == (ServeView { inputs: Some(now), ..old(self)@ })
                },
                None => r is None && final(self)@ == old(self)@,
            },
    {
        let mut taken: Option<InputQueues> = None;
        std::mem::swap(&mut taken, &mut self.inputs);
        match taken {
            Some(mut q) => {
                let b: Vec<u8> = q.pop(peer);
                self.inputs = Some(q);
                Some(b)
            },
            None => None,
        }
    }
}

/// Ownership survives the leave by exactly one tick: the tick a peer leaves,
/// its entity is still marked; the next intake clears it, whatever arrives.
pub proof fn ownership_outlives_the_leave_by_a_tick(
    s: ServeView,
    joined: Seq<u8>,
    left: Seq<u8>,
    acks: Seq<(u8, u32, u32)>,
    inputs: Seq<PeerInput>,
    events: Seq<EventRow>,
    p: u8,
)
    ensures
        s.left.contains(p) ==> !intake_of(s, joined, left, acks, inputs, events).own.contains_key(
            p,
        ),
        !s.left.contains(p) && s.own.contains_key(p) ==> {
            let out = intake_of(s, joined, left, acks, inputs, events);
            out.own.contains_key(p) && out.own[p] == s.own[p]
        },
        intake_of(s, joined, left, acks, inputs, events).left == left,
{
    own_without_row(s.own, s.left, p);
}

/// The whole of a leave: a peer reported gone by one intake keeps its entity
/// through that tick — every handler still finds it — and the next intake
/// takes it away, whatever that one brings and whoever joins in it; a peer
/// neither reported keeps its own through both.
pub proof fn a_leave_takes_the_entity_a_tick_later(
    s: ServeView,
    first: (Seq<u8>, Seq<u8>, Seq<(u8, u32, u32)>, Seq<PeerInput>, Seq<EventRow>),
    second: (Seq<u8>, Seq<u8>, Seq<(u8, u32, u32)>, Seq<PeerInput>, Seq<EventRow>),
    p: u8,
)
    requires
        !s.left.contains(p),
        s.own.contains_key(p),
    ensures
        ({
            let mid = intake_of(s, first.0, first.1, first.2, first.3, first.4);
            let end = intake_of(mid, second.0, second.1, second.2, second.3, second.4);
            &&& mid.own.contains_key(p) && mid.own[p] == s.own[p]
            &&& first.1.contains(p) ==> !end.own.contains_key(p)
            &&& !first.1.contains(p) ==> end.own.contains_key(p) && end.own[p] == s.own[p]
        }),
{
    let mid = intake_of(s, first.0, first.1, first.2, first.3, first.4);
    own_without_row(s.own, s.left, p);
    own_without_row(mid.own, mid.left, p);
}

/// What clearing departed peers does to one row.
proof fn own_without_row(own: Map<u8, Id>, left: Seq<u8>, p: u8)
    ensures
        left.contains(p) ==> !own_without(own, left).contains_key(p),
        !left.contains(p) ==> own_without(own, left).contains_key(p) == own.contains_key(p)
            && own_without(own, left)[p] == own[p],
    decreases left.len(),
{
    if left.len() > 0 {
        let init = left.drop_last();
        own_without_row(own, init, p);
        assert(left =~= init.push(left.last()));
        crate::sort::contains_push(init, left.last(), p);
    }
}

// --- flights ----------------------------------------------------------------

/// Hard per-tick flight rail regardless of budget.
pub const FLIGHT_MAX: u32 = 8;

/// Stop extending a flight when the outgoing buffer can't take one more full
/// datagram plus this.
pub const FLIGHT_SPACE_SLACK: usize = 256;

/// One peer's multi-datagram flight of a tick. The first send is
/// unconditional; while rows didn't fit, more datagrams extend the flight
/// until the backlog drains, the allowance or the rail is spent, or the send
/// buffer says the link isn't draining.
#[derive(Clone, Copy, PartialEq, Eq, Debug, Structural)]
pub struct Flight {
    pub allowance: usize,
    pub sends: u32,
}

impl Flight {
    /// A flight that may spend `per_tick` bytes.
    pub fn new(per_tick: usize) -> (r: Self)
        ensures
            r == (Flight { allowance: per_tick, sends: 0 }),
    {
        Flight { allowance: per_tick, sends: 0 }
    }

    /// The budget of the next send when a datagram takes `dgram` bytes.
    pub fn budget(&self, dgram: usize) -> (r: usize)
        ensures
            r == if self.sends == 0 || dgram <= self.allowance {
                dgram
            } else {
                self.allowance
            },
    {
        if self.sends == 0 || dgram <= self.allowance {
            dgram
        } else {
            self.allowance
        }
    }

    /// A snapshot went out; whether another may follow. `space` is what the
    /// send buffer still takes.
    pub fn sent(&mut self, snap: &Snapshot, dgram: usize, space: usize) -> (r: bool)
        requires
            old(self).sends < FLIGHT_MAX,
        ensures
            *final(self) == (Flight {
                allowance: if snap.bytes@.len() >= old(self).allowance {
                    0
                } else {
                    (old(self).allowance - snap.bytes@.len()) as usize
                },
                sends: (old(self).sends + 1) as u32,
            }),
            r == (snap.more && snap.entries != 0 && final(self).sends < FLIGHT_MAX
                && final(self).allowance != 0 && space >= dgram + FLIGHT_SPACE_SLACK),
            r ==> final(self).sends < FLIGHT_MAX,
    {
        self.allowance = self.allowance.saturating_sub(snap.bytes.len());
        self.sends = self.sends + 1;
        snap.more && snap.entries != 0 && self.sends < FLIGHT_MAX && self.allowance != 0 && space
            >= FLIGHT_SPACE_SLACK && space - FLIGHT_SPACE_SLACK >= dgram
    }
}

// --- client -----------------------------------------------------------------

/// What the client net task trades in, as contracts see it.
#[verifier::ext_equal]
pub struct StatusView {
    pub peer: u8,
    pub snapshots: u32,
    pub connected: bool,
    /// This peer's controlled entity, as the server marked it.
    pub avatar: Option<Id>,
    /// Every peer's controlled entity, ascending by peer.
    pub owners: Seq<(u8, Id)>,
    /// Snapshots applied this tick.
    pub applied: Seq<Header>,
}

/// A received snapshot.
pub struct SnapBuf {
    pub bytes: Vec<u8>,
}

/// The send sequence in a snapshot's header; 0 when it is too short.
pub open spec fn send_seq_of(b: Seq<u8>) -> u32 {
    if b.len() < 8 {
        0
    } else {
        un32(b.subrange(4, 8))
    }
}

impl Ranked for SnapBuf {
    /// Snapshots apply in send order: a straggler can't overwrite newer
    /// state with older.
    open spec fn rank_le(self, other: Self) -> bool {
        send_seq_of(self.bytes@) <= send_seq_of(other.bytes@)
    }

    proof fn rank_total(a: Self, b: Self) {
    }

    proof fn rank_transitive(a: Self, b: Self, c: Self) {
    }

    fn may_precede(&self, other: &Self) -> (r: bool) {
        send_seq(self.bytes.as_slice()) <= send_seq(other.bytes.as_slice())
    }
}

/// The send sequence in a snapshot's header; 0 when it is too short.
fn send_seq(b: &[u8]) -> (r: u32)
    ensures
        r == send_seq_of(b@),
{
    if b.len() < 8 {
        0
    } else {
        get32(b, 4)
    }
}

/// The first entity a peer controls in an owner table.
pub open spec fn owner_row(owners: Seq<(u8, Id)>, peer: u8) -> Option<Id>
    decreases owners.len(),
{
    if owners.len() == 0 {
        None
    } else if owners[0].0 == peer {
        Some(owners[0].1)
    } else {
        owner_row(owners.drop_first(), peer)
    }
}

/// The first peer that controls an entity in an owner table.
pub open spec fn controller(owners: Seq<(u8, Id)>, id: Id) -> Option<u8>
    decreases owners.len(),
{
    if owners.len() == 0 {
        None
    } else if owners[0].1 == id {
        Some(owners[0].0)
    } else {
        controller(owners.drop_first(), id)
    }
}

/// The status after one applied snapshot.
pub open spec fn noted(s: StatusView, h: Header) -> StatusView {
    StatusView {
        snapshots: (s.snapshots + 1) as u32,
        avatar: owner_row(h.owners, s.peer),
        owners: h.owners,
        applied: s.applied.push(h),
        ..s
    }
}

/// What applying these snapshots in order comes to: the status, the world,
/// and the acks owed. A malformed snapshot is skipped — unacked, though what
/// came before its error stays applied.
pub open spec fn snaps_taken(
    s: StatusView,
    r: Replica,
    find: spec_fn(u16) -> Option<(int, nat)>,
    snaps: Seq<SnapBuf>,
) -> (StatusView, Replica, Seq<(u32, u32)>)
    decreases snaps.len(),
{
    if snaps.len() == 0 {
        (s, r, Seq::empty())
    } else {
        let before = snaps_taken(s, r, find, snaps.drop_last());
        let read = parse(snaps.last().bytes@, find);
        let world = replay(before.1, read.0);
        match read.1 {
            Ok(h) => (noted(before.0, h), world, before.2.push((h.tick, h.seq))),
            Err(e) => (before.0, world, before.2),
        }
    }
}

/// The client net task's state.
pub struct Connect {
    net: NetClient,
    peer: u8,
    snapshots: u32,
    connected: bool,
    avatar: Option<Id>,
    owners: Vec<(u8, Id)>,
    applied: Vec<Applied>,
}

/// Applied headers as plain values.
pub open spec fn headers(applied: Seq<Applied>) -> Seq<Header> {
    applied.map_values(|a: Applied| a@)
}

impl View for Connect {
    type V = StatusView;

    closed spec fn view(&self) -> StatusView {
        StatusView {
            peer: self.peer,
            snapshots: self.snapshots,
            connected: self.connected,
            avatar: self.avatar,
            owners: self.owners@,
            applied: headers(self.applied@),
        }
    }
}

impl Connect {
    /// The pools snapshots go into.
    pub closed spec fn sync(&self) -> Seq<crate::net::SyncRow> {
        self.net@
    }

    /// Not connected yet.
    pub fn new(net: NetClient) -> (r: Self)
        ensures
            r.sync() == net@,
            r@ == (StatusView {
                peer: 0,
                snapshots: 0,
                connected: false,
                avatar: None,
                owners: Seq::empty(),
                applied: Seq::empty(),
            }),
    {
        let r = Connect {
            net,
            peer: 0,
            snapshots: 0,
            connected: false,
            avatar: None,
            owners: Vec::new(),
            applied: Vec::new(),
        };
        assert(r@.applied =~= Seq::<Header>::empty());
        r
    }

    /// Take in the snapshots received since the last tick, in send order;
    /// gives the acks to send back.
    pub fn intake<P: WirePool>(&mut self, pm: &mut Pm<P>, snaps: Vec<SnapBuf>) -> (r: Vec<
        (u32, u32),
    >)
        requires
            old(pm).wf(),
            sync_fits(old(pm)@, old(self).sync()),
            old(self)@.snapshots + snaps@.len() <= u32::MAX,
        ensures
            final(pm).wf(),
            final(self).sync() == old(self).sync(),
            same_shape(old(pm)@, final(pm)@),
            (final(self)@, replica_of(final(pm)@), r@) == snaps_taken(
                StatusView { applied: Seq::empty(), ..old(self)@ },
                replica_of(old(pm)@),
                finder(old(pm)@, old(self).sync()),
                stable_sort(snaps@),
            ),
    {
        let ghost given = snaps@;
        let mut snaps = snaps;
        sort_stable(&mut snaps);
        proof {
            stable_sort_exists(given);
            stable_sort_unique(snaps@, stable_sort(given), given);
        }
        let ghost s0 = StatusView { applied: Seq::empty(), ..self@ };
        let ghost k0 = pm@;
        let ghost r0 = replica_of(k0);
        let ghost sync = self.sync();
        let ghost find = finder(k0, sync);
        self.applied = Vec::new();
        let mut acks: Vec<(u32, u32)> = Vec::new();
        let mut i: usize = 0;
        proof {
            assert(self@ =~= s0);
            assert(snaps@.take(0) =~= Seq::<SnapBuf>::empty());
            assert(acks@ =~= Seq::<(u32, u32)>::empty());
        }
        while i < snaps.len()
            invariant
                pm.wf(),
                self.sync() == sync,
                sync_fits(k0, sync),
                same_shape(k0, pm@),
                find == finder(k0, sync),
                s0.snapshots + snaps@.len() <= u32::MAX,
                self@.snapshots <= s0.snapshots + i,
                i <= snaps@.len(),
                (self@, replica_of(pm@), acks@) == snaps_taken(
                    s0,
                    r0,
                    find,
                    snaps@.take(i as int),
                ),
            decreases snaps@.len() - i,
        {
            proof {
                assert(snaps@.take(i + 1).drop_last() =~= snaps@.take(i as int));
                assert(snaps@.take(i + 1).last() == snaps@[i as int]);
                crate::apply::same_finder(k0, pm@, sync);
            }
            match self.net.apply(pm, snaps[i].bytes.as_slice()) {
                Ok(a) => {
                    acks.push((a.tick, a.seq));
                    self.note(a);
                },
                Err(_) => {},
            }
            i += 1;
        }
        assert(snaps@.take(i as int) =~= snaps@);
        acks
    }

    /// Record an applied snapshot.
    fn note(&mut self, a: Applied)
        requires
            old(self)@.snapshots < u32::MAX,
        ensures
            final(self)@ == noted(old(self)@, a@),
            final(self).sync() == old(self).sync(),
    {
        let ghost s0 = self@;
        self.avatar = find_owned(a.owners.as_slice(), self.peer);
        let mut owners: Vec<(u8, Id)> = Vec::new();
        let mut i: usize = 0;
        while i < a.owners.len()
            invariant
                i <= a.owners@.len(),
                owners@ == a.owners@.take(i as int),
            decreases a.owners@.len() - i,
        {
            owners.push(a.owners[i]);
            assert(a.owners@.take(i + 1) =~= a.owners@.take(i as int).push(a.owners@[i as int]));
            i += 1;
        }
        assert(a.owners@.take(i as int) =~= a.owners@);
        self.owners = owners;
        self.snapshots = self.snapshots + 1;
        let ghost h = a@;
        self.applied.push(a);
        assert(headers(self.applied@) =~= s0.applied.push(h));
        assert(self@ =~= noted(s0, h));
    }

    /// The handshake completed as `peer`: allocate ids in that space from
    /// now on, and give the queued events to send.
    pub fn handshake<P: WirePool>(&mut self, pm: &mut Pm<P>, peer: u8, out: &mut Outbox) -> (r: Vec<
        OutEvent,
    >)
        requires
            old(pm).wf(),
        ensures
            final(pm).wf(),
            final(self)@ == (StatusView { peer, connected: true, ..old(self)@ }),
            final(self).sync() == old(self).sync(),
            final(pm)@ == (KernelView { local_peer: peer, ..old(pm)@ }),
            event_views(r@) == old(out)@,
            final(out)@ == Seq::<(u16, Seq<u8>)>::empty(),
    {
        pm.local_peer_set(peer);
        self.peer = peer;
        self.connected = true;
        assert(self@ =~= StatusView { peer, connected: true, ..old(self)@ });
        out.drain()
    }

    /// This peer's controlled entity, as the server marked it.
    pub fn mine(&self) -> (r: Option<Id>)
        ensures
            r == self@.avatar,
    {
        self.avatar
    }

    /// `peer`'s controlled entity, if the server marked one.
    pub fn own(&self, peer: u8) -> (r: Option<Id>)
        ensures
            r == owner_row(self@.owners, peer),
    {
        find_owned(self.owners.as_slice(), peer)
    }

    /// Every (peer, controlled entity) pair.
    pub fn owned(&self) -> (r: &[(u8, Id)])
        ensures
            r@ == self@.owners,
    {
        self.owners.as_slice()
    }

    /// Which peer controls entity `id`, if any.
    pub fn owner_of(&self, id: Id) -> (r: Option<u8>)
        ensures
            r == controller(self@.owners, id),
    {
        let mut i: usize = 0;
        assert(self.owners@.skip(0) =~= self.owners@);
        while i < self.owners.len()
            invariant
                i <= self.owners@.len(),
                controller(self.owners@, id) == controller(self.owners@.skip(i as int), id),
            decreases self.owners@.len() - i,
        {
            assert(self.owners@.skip(i as int).drop_first() =~= self.owners@.skip(i + 1));
            if self.owners[i].1 == id {
                return Some(self.owners[i].0);
            }
            i += 1;
        }
        None
    }

    /// Count of snapshots applied so far.
    pub fn snapshots(&self) -> (r: u32)
        ensures
            r == self@.snapshots,
    {
        self.snapshots
    }

    /// This peer's id, as assigned at handshake (0 before connected).
    pub fn peer(&self) -> (r: u8)
        ensures
            r == self@.peer,
    {
        self.peer
    }

    /// Whether the handshake has completed.
    pub fn connected(&self) -> (r: bool)
        ensures
            r == self@.connected,
    {
        self.connected
    }

    /// Snapshots applied this tick, each carrying the server's input-seq
    /// echo — the reconciliation points.
    pub fn applied(&self) -> (r: &[Applied])
        ensures
            headers(r@) == self@.applied,
    {
        self.applied.as_slice()
    }
}

/// The first entity a peer controls.
fn find_owned(owners: &[(u8, Id)], peer: u8) -> (r: Option<Id>)
    ensures
        r == owner_row(owners@, peer),
{
    let mut i: usize = 0;
    assert(owners@.skip(0) =~= owners@);
    while i < owners.len()
        invariant
            i <= owners@.len(),
            owner_row(owners@, peer) == owner_row(owners@.skip(i as int), peer),
        decreases owners@.len() - i,
    {
        assert(owners@.skip(i as int).drop_first() =~= owners@.skip(i + 1));
        if owners[i].0 == peer {
            return Some(owners[i].1);
        }
        i += 1;
    }
    None
}

// --- what the owner table says ----------------------------------------------

/// The entity read for a peer is one the table pairs with exactly that peer —
/// the first such — and nothing is read only when no row names the peer.
pub proof fn a_peer_owns_its_own_row(owners: Seq<(u8, Id)>, peer: u8)
    ensures
        owner_row(owners, peer) matches Some(id) ==> owners.contains((peer, id)),
        owner_row(owners, peer) is None <==> forall|i: int|
            0 <= i < owners.len() ==> (#[trigger] owners[i]).0 != peer,
        forall|i: int|
            0 <= i < owners.len() && (#[trigger] owners[i]).0 == peer && (forall|j: int|
                0 <= j < i ==> (#[trigger] owners[j]).0 != peer) ==> owner_row(owners, peer)
                == Some(owners[i].1),
    decreases owners.len(),
{
    if owners.len() > 0 {
        let rest = owners.drop_first();
        a_peer_owns_its_own_row(rest, peer);
        assert forall|i: int| 0 <= i < rest.len() implies #[trigger] rest[i] == owners[i + 1] by {
        }
        if owners[0].0 == peer {
            assert(owners[0] == (peer, owners[0].1));
        } else {
            if let Some(id) = owner_row(rest, peer) {
                let k = choose|k: int| 0 <= k < rest.len() && rest[k] == (peer, id);
                assert(owners[k + 1] == (peer, id));
            }
            if forall|i: int| 0 <= i < rest.len() ==> (#[trigger] rest[i]).0 != peer {
                assert forall|i: int| 0 <= i < owners.len() implies (#[trigger] owners[i]).0
                    != peer by {
                    if i > 0 {
                        assert(rest[i - 1] == owners[i]);
                    }
                }
            } else {
                let i = choose|i: int| 0 <= i < rest.len() && (#[trigger] rest[i]).0 == peer;
                assert(owners[i + 1].0 == peer);
            }
            assert forall|i: int|
                0 <= i < owners.len() && (#[trigger] owners[i]).0 == peer && (forall|j: int|
                    0 <= j < i ==> (#[trigger] owners[j]).0 != peer) implies owner_row(
                owners,
                peer,
            ) == Some(owners[i].1) by {
                assert(i > 0);
                assert(rest[i - 1] == owners[i]);
                assert forall|j: int| 0 <= j < i - 1 implies (#[trigger] rest[j]).0 != peer by {
                    assert(rest[j] == owners[j + 1]);
                }
            }
        }
    }
}

/// The peer read for an entity is one the table pairs with exactly that
/// entity — the first such — and nobody is read only when no row names it.
pub proof fn an_entity_has_its_own_peer(owners: Seq<(u8, Id)>, id: Id)
    ensures
        controller(owners, id) matches Some(peer) ==> owners.contains((peer, id)),
        controller(owners, id) is None <==> forall|i: int|
            0 <= i < owners.len() ==> (#[trigger] owners[i]).1 != id,
        forall|i: int|
            0 <= i < owners.len() && (#[trigger] owners[i]).1 == id && (forall|j: int|
                0 <= j < i ==> (#[trigger] owners[j]).1 != id) ==> controller(owners, id) == Some(
                owners[i].0,
            ),
    decreases owners.len(),
{
    if owners.len() > 0 {
        let rest = owners.drop_first();
        an_entity_has_its_own_peer(rest, id);
        assert forall|i: int| 0 <= i < rest.len() implies #[trigger] rest[i] == owners[i + 1] by {
        }
        if owners[0].1 == id {
            assert(owners[0] == (owners[0].0, id));
        } else {
            if let Some(peer) = controller(rest, id) {
                let k = choose|k: int| 0 <= k < rest.len() && rest[k] == (peer, id);
                assert(owners[k + 1] == (peer, id));
            }
            if forall|i: int| 0 <= i < rest.len() ==> (#[trigger] rest[i]).1 != id {
                assert forall|i: int| 0 <= i < owners.len() implies (#[trigger] owners[i]).1
                    != id by {
                    if i > 0 {
                        assert(rest[i - 1] == owners[i]);
                    }
                }
            } else {
                let i = choose|i: int| 0 <= i < rest.len() && (#[trigger] rest[i]).1 == id;
                assert(owners[i + 1].1 == id);
            }
            assert forall|i: int|
                0 <= i < owners.len() && (#[trigger] owners[i]).1 == id && (forall|j: int|
                    0 <= j < i ==> (#[trigger] owners[j]).1 != id) implies controller(owners, id)
                == Some(owners[i].0) by {
                assert(i > 0);
                assert(rest[i - 1] == owners[i]);
                assert forall|j: int| 0 <= j < i - 1 implies (#[trigger] rest[j]).1 != id by {
                    assert(rest[j] == owners[j + 1]);
                }
            }
        }
    }
}

/// An applied snapshot's header is what the client goes by from then on: its
/// owner table, its own peer's entity in it, one snapshot more.
pub proof fn a_header_says_who_owns_what(s: StatusView, h: Header)
    ensures
        noted(s, h).owners == h.owners,
        noted(s, h).peer == s.peer,
        noted(s, h).connected == s.connected,
        noted(s, h).avatar matches Some(id) ==> h.owners.contains((s.peer, id)),
        noted(s, h).avatar is None <==> forall|i: int|
            0 <= i < h.owners.len() ==> (#[trigger] h.owners[i]).0 != s.peer,
        noted(s, h).avatar == owner_row(noted(s, h).owners, s.peer),
        noted(s, h).applied == s.applied.push(h),
        s.snapshots < u32::MAX ==> noted(s, h).snapshots == s.snapshots + 1,
{
    a_peer_owns_its_own_row(h.owners, s.peer);
}

/// Whether the bytes hold a whole snapshot.
pub open spec fn reads_well(b: SnapBuf, find: spec_fn(u16) -> Option<(int, nat)>) -> bool {
    parse(b.bytes@, find).1 is Ok
}

/// Every well-formed snapshot of a batch is applied, counted and acked, in
/// order, and nothing else is; the status is the last one's.
pub proof fn every_good_snapshot_is_acked(
    s: StatusView,
    r: Replica,
    find: spec_fn(u16) -> Option<(int, nat)>,
    snaps: Seq<SnapBuf>,
)
    requires
        s.snapshots + snaps.len() <= u32::MAX,
    ensures
        ({
            let out = snaps_taken(s, r, find, snaps);
            let good = snaps.filter(|b: SnapBuf| reads_well(b, find));
            &&& out.2.len() == good.len()
            &&& out.0.applied.len() == s.applied.len() + good.len()
            &&& out.0.snapshots == s.snapshots + good.len()
            &&& out.0.peer == s.peer
            &&& out.0.connected == s.connected
            &&& forall|k: int|
                0 <= k < good.len() ==> {
                    let h = parse((#[trigger] good[k]).bytes@, find).1->Ok_0;
                    &&& out.2[k] == (h.tick, h.seq)
                    &&& out.0.applied[s.applied.len() + k] == h
                }
            &&& good.len() == 0 ==> out.0 == s
            &&& good.len() > 0 ==> out.0.owners == parse(good.last().bytes@, find).1->Ok_0.owners
                && out.0.avatar == owner_row(out.0.owners, s.peer)
        }),
    decreases snaps.len(),
{
    let f = |b: SnapBuf| reads_well(b, find);
    reveal(Seq::filter);
    if snaps.len() > 0 {
        let init = snaps.drop_last();
        every_good_snapshot_is_acked(s, r, find, init);
        let had = init.filter(f);
        let good = snaps.filter(f);
        assert(snaps =~= init.push(snaps.last()));
        crate::sort::filter_push(init, snaps.last(), f);
        had_few(init, f);
        let before = snaps_taken(s, r, find, init);
        let out = snaps_taken(s, r, find, snaps);
        assert forall|k: int| 0 <= k < good.len() implies ({
            let h = parse((#[trigger] good[k]).bytes@, find).1->Ok_0;
            &&& out.2[k] == (h.tick, h.seq)
            &&& out.0.applied[s.applied.len() + k] == h
        }) by {
            if k < had.len() {
                assert(good[k] == had[k]);
                assert(out.2[k] == before.2[k]);
            }
        }
    }
}

/// A filter holds no more than it filters.
proof fn had_few<T>(s: Seq<T>, f: spec_fn(T) -> bool)
    ensures
        s.filter(f).len() <= s.len(),
{
    s.lemma_filter_len(f);
}

/// Snapshots of a tick apply in send order: a straggler can't overwrite newer
/// state with older; every one is there once.
pub proof fn snapshots_apply_in_send_order(out: Seq<SnapBuf>, snaps: Seq<SnapBuf>)
    requires
        out == stable_sort(snaps),
    ensures
        out.to_multiset() == snaps.to_multiset(),
        forall|i: int, j: int|
            0 <= i < j < out.len() && (#[trigger] out[i]).bytes@.len() >= 8 && (
            #[trigger] out[j]).bytes@.len() >= 8 ==> un32(out[i].bytes@.subrange(4, 8)) <= un32(
                out[j].bytes@.subrange(4, 8),
            ),
{
    stable_sort_exists(snaps);
}

/// A peer's acked tick is its own, 0 for a stranger; a snapshot's send
/// sequence stands behind its tick, 0 where it is too short for one.
pub proof fn acks_and_sequences_are_looked_up(
    n: ServerView,
    p: u8,
    tick: u32,
    seq: u32,
    rest: Seq<u8>,
    short: Seq<u8>,
)
    requires
        short.len() < 8,
    ensures
        n.peers.contains_key(p) ==> acked_tick_of(n, p) == n.peers[p].acked,
        !n.peers.contains_key(p) ==> acked_tick_of(n, p) == 0,
        send_seq_of(crate::wire::le32(tick) + crate::wire::le32(seq) + rest) == seq,
        send_seq_of(short) == 0,
{
    let b = crate::wire::le32(tick) + crate::wire::le32(seq) + rest;
    crate::wire::le32_round_trip(seq);
    assert(b.subrange(4, 8) =~= crate::wire::le32(seq));
}

} // verus!
