//! The net tasks: once per tick, what the sessions collected goes into the
//! replication state, and what peers haven't confirmed goes out as flights
//! of datagrams; on the other end snapshots are applied and acked.

use vstd::prelude::*;

use quinn_proto::Connection;

use crate::apply::{finder, replica_of, same_shape, Replica};
use crate::channel::{applied_upto, owned_upto};
use crate::delta::WirePool;
use crate::dial::{buffers, Dial, DialView};
use crate::frame::{ack_bytes, frame_bytes, FrameView, DGRAM_SNAPSHOT};
use crate::kernel::{release_from, KernelView, Pm};
use crate::link::{
    ack_send, budget_on, datagram_ceiling, datagram_limit, datagram_slack, datagrams_queued,
    dgram_space, handles_of, offered, peer_up, sent, snapshot_budget, snapshot_send, within, Line,
};
use crate::net::{
    expire_frame, grown, label_at, oldest_ack, sends_remain, settle_front, settle_upto,
    snapshot_of, sync_fits, PeerView, ServerView, SnapshotView,
};
use crate::reg::{event_views, OutEvent, Outbox, EVENT_USER_BASE};
use crate::serve::{
    acks_taken, echoes_taken, inputs_taken, intake_of, own_without, owner_rows, peers_added,
    peers_removed, queues_without, snaps_taken, Connect, Flight, Serve, ServeView, SnapBuf,
    StatusView, FLIGHT_MAX, FLIGHT_SPACE_SLACK,
};
use crate::session::{
    event_rows, sessions_wf, EventRow, InputRow, PeerInput, Sessions, SessionsView,
    SNAPSHOT_BUDGET_DEFAULT,
};
use crate::snapshot::encode;
use crate::sort::{stable_sort, stable_sort_exists};

verus! {

// --- server -----------------------------------------------------------------

/// The replication state once a peer's flight packed snapshots of these
/// budgets, in order.
pub open spec fn flown<P: WirePool>(
    s: ServerView,
    k: KernelView<P>,
    peer: u8,
    budgets: Seq<usize>,
) -> ServerView
    decreases budgets.len(),
{
    if budgets.len() == 0 {
        s
    } else {
        let before = flown(s, k, peer, budgets.drop_last());
        ServerView {
            peers: before.peers.insert(
                peer,
                snapshot_of(before, k, peer, budgets.last() as nat).peer,
            ),
            ..before
        }
    }
}

/// A flight numbers as many sends as it packed, and leaves the other peers
/// alone.
proof fn flights_number_their_sends<P: WirePool>(
    s: ServerView,
    k: KernelView<P>,
    peer: u8,
    budgets: Seq<usize>,
)
    requires
        s.peers.contains_key(peer),
        s.peers[peer].send_seq + budgets.len() <= u32::MAX,
    ensures
        flown(s, k, peer, budgets).peers.contains_key(peer),
        flown(s, k, peer, budgets).peers[peer].send_seq == s.peers[peer].send_seq + budgets.len(),
        flown(s, k, peer, budgets).sync == s.sync,
        flown(s, k, peer, budgets).owners == s.owners,
        flown(s, k, peer, budgets).peers.dom() =~= s.peers.dom(),
        forall|p: u8|
            p != peer && s.peers.contains_key(p) ==> #[trigger] flown(
                s,
                k,
                peer,
                budgets,
            ).peers[p] == s.peers[p],
    decreases budgets.len(),
{
    if budgets.len() > 0 {
        flights_number_their_sends(s, k, peer, budgets.drop_last());
        let before = flown(s, k, peer, budgets.drop_last());
        let p = before.peers[peer];
        expire_frame(grown(p, before.sync.len()), label_at(k.tick));
    }
}

/// The first line of this name.
pub open spec fn line_at(handles: Seq<usize>, h: usize) -> Option<int>
    decreases handles.len(),
{
    if handles.len() == 0 {
        None
    } else {
        match line_at(handles.drop_last(), h) {
            Some(i) => Some(i),
            None => if handles.last() == h {
                Some(handles.len() - 1)
            } else {
                None
            },
        }
    }
}

/// The line a peer's route leads to.
pub open spec fn line_to(d: SessionsView, lines: Seq<Line>, peer: u8) -> Option<int> {
    match d.routes[peer as int] {
        Some(h) => line_at(handles_of(lines), h),
        None => None,
    }
}

/// A line found is there.
proof fn line_at_found(handles: Seq<usize>, h: usize)
    ensures
        line_at(handles, h) matches Some(i) ==> 0 <= i < handles.len() && handles[i] == h,
    decreases handles.len(),
{
    if handles.len() > 0 {
        line_at_found(handles.drop_last(), h);
    }
}

/// A longer list finds the same line first.
proof fn line_at_first(handles: Seq<usize>, h: usize, n: int)
    requires
        0 <= n <= handles.len(),
        line_at(handles.take(n), h) is Some,
    ensures
        line_at(handles, h) == line_at(handles.take(n), h),
    decreases handles.len() - n,
{
    if n < handles.len() {
        assert(handles.take(n + 1).drop_last() =~= handles.take(n));
        line_at_first(handles, h, n + 1);
    } else {
        assert(handles.take(n) =~= handles);
    }
}

/// The line a peer's route leads to.
fn line_of(sessions: &Sessions, lines: &Vec<Line>, peer: u8) -> (r: Option<usize>)
    requires
        sessions_wf(sessions@),
    ensures
        match r {
            Some(k) => k < lines@.len() && line_to(sessions@, lines@, peer) == Some(k as int),
            None => line_to(sessions@, lines@, peer) is None,
        },
{
    let handle: usize = match sessions.route(peer) {
        Some(h) => h,
        None => {
            return None;
        },
    };
    let ghost handles = handles_of(lines@);
    let mut k: usize = 0;
    assert(handles.take(0) =~= Seq::<usize>::empty());
    while k < lines.len()
        invariant
            k <= lines@.len(),
            handles == handles_of(lines@),
            sessions@.routes[peer as int] == Some(handle),
            line_at(handles.take(k as int), handle) is None,
        decreases lines@.len() - k,
    {
        proof {
            assert(handles.take(k + 1).drop_last() =~= handles.take(k as int));
            assert(handles.take(k + 1).last() == lines@[k as int].handle);
        }
        if lines[k].handle == handle {
            proof {
                line_at_first(handles, handle, k + 1);
            }
            return Some(k);
        }
        k += 1;
    }
    assert(handles.take(k as int) =~= handles);
    None
}

/// Where a flight stands: what it may still spend, the budgets it packed
/// with, the datagrams it offered, how many it had to drop, and whether it
/// goes on.
#[verifier::ext_equal]
pub struct FlightView {
    pub flight: Flight,
    pub budgets: Seq<usize>,
    pub data: Seq<Seq<u8>>,
    pub drops: nat,
    pub go: bool,
}

/// The snapshot bytes a datagram of a connection takes, `None` for a peer
/// without one.
pub open spec fn dgram_of(conn: Option<Connection>) -> usize {
    match conn {
        Some(c) => budget_on(c),
        None => SNAPSHOT_BUDGET_DEFAULT,
    }
}

/// The budget of a flight's next send.
pub open spec fn next_budget(f: Flight, dgram: usize) -> usize {
    if f.sends == 0 || dgram <= f.allowance {
        dgram
    } else {
        f.allowance
    }
}

/// The snapshot a flight packs next.
pub open spec fn next_snapshot<P: WirePool>(
    s: ServerView,
    k: KernelView<P>,
    peer: u8,
    st: FlightView,
    conn: Option<Connection>,
) -> SnapshotView {
    snapshot_of(
        flown(s, k, peer, st.budgets),
        k,
        peer,
        next_budget(st.flight, dgram_of(conn)) as nat,
    )
}

/// Whether a snapshot of this many bytes fits a datagram of a connection.
pub open spec fn fits_on(conn: Connection, len: nat) -> bool {
    datagram_limit(conn) matches Some(m) && len + 1 <= m
}

/// A flight that sent this many bytes more.
pub open spec fn spent(f: Flight, len: nat) -> Flight {
    Flight {
        allowance: if len >= f.allowance {
            0
        } else {
            (f.allowance - len) as usize
        },
        sends: (f.sends + 1) as u32,
    }
}

/// Whether a flight goes on after a send: rows were left over, the allowance
/// and the rail last, and the connection keeps room for another datagram.
pub open spec fn goes_on(
    snap: SnapshotView,
    f: Flight,
    dgram: usize,
    after: Option<Connection>,
) -> bool {
    let space: usize = match after {
        Some(c) => datagram_slack(c),
        None => 0,
    };
    snap.more && snap.entries != 0 && f.sends < FLIGHT_MAX && f.allowance != 0 && space >= dgram
        + FLIGHT_SPACE_SLACK
}

/// A flight after its next send, on a connection before and after.
pub open spec fn send_made<P: WirePool>(
    s: ServerView,
    k: KernelView<P>,
    peer: u8,
    up: bool,
    st: FlightView,
    before: Option<Connection>,
    after: Option<Connection>,
) -> FlightView {
    let dgram = dgram_of(before);
    let snap = next_snapshot(s, k, peer, st, before);
    let bytes = encode(snap.message);
    let flight = spent(st.flight, bytes.len());
    let offer = up && before is Some;
    FlightView {
        flight,
        budgets: st.budgets.push(next_budget(st.flight, dgram)),
        data: if offer && fits_on(before->0, bytes.len()) {
            st.data.push(seq![DGRAM_SNAPSHOT] + bytes)
        } else {
            st.data
        },
        drops: if offer && !fits_on(before->0, bytes.len()) {
            st.drops + 1
        } else {
            st.drops
        },
        go: goes_on(snap, flight, dgram, after),
    }
}

/// A flight after as many sends as the connection's states along it say, the
/// first of which is before the first send.
pub open spec fn flying<P: WirePool>(
    s: ServerView,
    k: KernelView<P>,
    peer: u8,
    up: bool,
    per_tick: usize,
    path: Seq<Option<Connection>>,
) -> FlightView
    decreases path.len(),
{
    if path.len() <= 1 {
        FlightView {
            flight: Flight { allowance: per_tick, sends: 0 },
            budgets: Seq::empty(),
            data: Seq::empty(),
            drops: 0,
            go: true,
        }
    } else {
        send_made(
            s,
            k,
            peer,
            up,
            flying(s, k, peer, up, per_tick, path.drop_last()),
            path[path.len() - 2],
            path.last(),
        )
    }
}

/// What offering a snapshot does to a connection: it is queued as a datagram
/// when the peer is up and it fits.
pub open spec fn snapshot_offered(
    before: Option<Connection>,
    after: Option<Connection>,
    up: bool,
    bytes: Seq<u8>,
) -> bool {
    match before {
        Some(a) => after matches Some(b) && if up && fits_on(a, bytes.len()) {
            sent(a, b, seq![DGRAM_SNAPSHOT] + bytes)
        } else {
            b == a
        },
        None => after is None,
    }
}

/// These are a connection's states along a flight: every send but the first
/// followed one that let it go on, and each offered its snapshot.
pub open spec fn flight_held<P: WirePool>(
    s: ServerView,
    k: KernelView<P>,
    peer: u8,
    up: bool,
    per_tick: usize,
    path: Seq<Option<Connection>>,
) -> bool
    decreases path.len(),
{
    if path.len() <= 1 {
        path.len() == 1
    } else {
        let init = path.drop_last();
        let st = flying(s, k, peer, up, per_tick, init);
        &&& flight_held(s, k, peer, up, per_tick, init)
        &&& st.go
        &&& snapshot_offered(
            init.last(),
            path.last(),
            up,
            encode(next_snapshot(s, k, peer, st, init.last()).message),
        )
    }
}

/// The server's side of its peers: replication, sessions and lines.
#[verifier::ext_equal]
pub struct Fleet {
    pub net: ServerView,
    pub sessions: SessionsView,
    pub lines: Seq<Line>,
}

/// The connection a peer's route leads to.
pub open spec fn conn_to(f: Fleet, peer: u8) -> Option<Connection> {
    match line_to(f.sessions, f.lines, peer) {
        Some(i) => Some(f.lines[i].conn),
        None => None,
    }
}

/// A peer's flight went along these states of its connection, to its end. An
/// unknown peer's has no send.
pub open spec fn flight_of<P: WirePool>(
    f: Fleet,
    k: KernelView<P>,
    peer: u8,
    per_tick: usize,
    path: Seq<Option<Connection>>,
) -> bool {
    let up = peer_up(f.sessions, peer);
    &&& flight_held(f.net, k, peer, up, per_tick, path)
    &&& path[0] == conn_to(f, peer)
    &&& if f.net.peers.contains_key(peer) {
        path.len() > 1 && !flying(f.net, k, peer, up, per_tick, path).go
    } else {
        path.len() == 1
    }
}

/// The fleet after a peer's flight: its connection as the flight left it,
/// the other lines untouched, the snapshots packed and the drops counted.
pub open spec fn fleet_after<P: WirePool>(
    f: Fleet,
    k: KernelView<P>,
    peer: u8,
    per_tick: usize,
    path: Seq<Option<Connection>>,
) -> Fleet {
    let st = flying(f.net, k, peer, peer_up(f.sessions, peer), per_tick, path);
    Fleet {
        net: flown(f.net, k, peer, st.budgets),
        sessions: SessionsView {
            oversize_drops: (f.sessions.oversize_drops + st.drops) as u32,
            ..f.sessions
        },
        lines: match line_to(f.sessions, f.lines, peer) {
            Some(i) => f.lines.update(i, Line { conn: path.last()->0, ..f.lines[i] }),
            None => f.lines,
        },
    }
}

/// A flight makes as many sends as it has states after the first, at most
/// the rail, and drops no more than it sends.
proof fn flights_are_short<P: WirePool>(
    s: ServerView,
    k: KernelView<P>,
    peer: u8,
    up: bool,
    per_tick: usize,
    path: Seq<Option<Connection>>,
)
    requires
        flight_held(s, k, peer, up, per_tick, path),
    ensures
        ({
            let st = flying(s, k, peer, up, per_tick, path);
            &&& st.flight.sends == path.len() - 1
            &&& st.budgets.len() == path.len() - 1
            &&& st.drops <= path.len() - 1
            &&& path.len() - 1 <= FLIGHT_MAX
            &&& st.go ==> path.len() - 1 < FLIGHT_MAX
        }),
    decreases path.len(),
{
    if path.len() > 1 {
        flights_are_short(s, k, peer, up, per_tick, path.drop_last());
    }
}

/// What a flight offered a connection is queued there: the datagrams are the
/// snapshots it packed that fit, in order, under the ceiling it had.
pub proof fn flights_are_offered<P: WirePool>(
    s: ServerView,
    k: KernelView<P>,
    peer: u8,
    up: bool,
    per_tick: usize,
    path: Seq<Option<Connection>>,
)
    requires
        flight_held(s, k, peer, up, per_tick, path),
        path[0] is Some,
    ensures
        path.last() is Some,
        offered_all(
            datagrams_queued(path[0]->0),
            datagrams_queued(path.last()->0),
            flying(s, k, peer, up, per_tick, path).data,
            datagram_ceiling(path[0]->0),
        ),
        datagram_ceiling(path.last()->0) == datagram_ceiling(path[0]->0),
        datagram_limit(path.last()->0) == datagram_limit(path[0]->0),
    decreases path.len(),
{
    if path.len() > 1 {
        let init = path.drop_last();
        flights_are_offered(s, k, peer, up, per_tick, init);
        let st = flying(s, k, peer, up, per_tick, init);
        let bytes = encode(next_snapshot(s, k, peer, st, init.last()).message);
        let a = init.last()->0;
        if up && fits_on(a, bytes.len()) {
            offer_one_more(
                datagrams_queued(path[0]->0),
                datagrams_queued(a),
                datagrams_queued(path.last()->0),
                st.data,
                seq![DGRAM_SNAPSHOT] + bytes,
                datagram_ceiling(path[0]->0),
            );
        }
    }
}

/// A flight with one send more.
#[verifier::rlimit(30)]
proof fn one_send_more<P: WirePool>(
    f0: Fleet,
    k: KernelView<P>,
    peer: u8,
    per_tick: usize,
    path: Seq<Option<Connection>>,
    next: Option<Connection>,
    b: Fleet,
    a: Fleet,
)
    requires
        ({
            let up = peer_up(f0.sessions, peer);
            let st = flying(f0.net, k, peer, up, per_tick, path);
            let snap = next_snapshot(f0.net, k, peer, st, path.last());
            let bytes = encode(snap.message);
            &&& flight_held(f0.net, k, peer, up, per_tick, path)
            &&& st.go
            &&& b == fleet_after(f0, k, peer, per_tick, path)
            &&& line_to(f0.sessions, f0.lines, peer) matches Some(i) ==> 0 <= i < f0.lines.len()
                && path.last() is Some
            &&& f0.sessions.oversize_drops + FLIGHT_MAX <= u32::MAX
            &&& snapshot_offered(path.last(), next, up, bytes)
            &&& a.net == ServerView { peers: b.net.peers.insert(peer, snap.peer), ..b.net }
            &&& a.lines == match line_to(f0.sessions, f0.lines, peer) {
                Some(i) => b.lines.update(i, Line { conn: next->0, ..b.lines[i] }),
                None => b.lines,
            }
            &&& a.sessions == (SessionsView {
                oversize_drops: if up && path.last() is Some && !fits_on(
                    path.last()->0,
                    bytes.len(),
                ) {
                    (b.sessions.oversize_drops + 1) as u32
                } else {
                    b.sessions.oversize_drops
                },
                ..b.sessions
            })
        }),
    ensures
        ({
            let up = peer_up(f0.sessions, peer);
            let st = flying(f0.net, k, peer, up, per_tick, path);
            let longer = path.push(next);
            &&& flight_held(f0.net, k, peer, up, per_tick, longer)
            &&& flying(f0.net, k, peer, up, per_tick, longer) == send_made(
                f0.net,
                k,
                peer,
                up,
                st,
                path.last(),
                next,
            )
            &&& a == fleet_after(f0, k, peer, per_tick, longer)
        }),
{
    let up = peer_up(f0.sessions, peer);
    flights_are_short(f0.net, k, peer, up, per_tick, path);
    let st = flying(f0.net, k, peer, up, per_tick, path);
    let longer = path.push(next);
    assert(longer.drop_last() =~= path);
    assert(longer[longer.len() - 2] == path.last());
    let st1 = flying(f0.net, k, peer, up, per_tick, longer);
    assert(st1.budgets.drop_last() =~= st.budgets);
    assert(a.net =~= flown(f0.net, k, peer, st1.budgets));
    if let Some(i) = line_to(f0.sessions, f0.lines, peer) {
        assert(a.lines =~= f0.lines.update(i, Line { conn: next->0, ..f0.lines[i] }));
    }
    assert(a.sessions =~= fleet_after(f0, k, peer, per_tick, longer).sessions);
}

/// The connection of a line, if there is one.
pub open spec fn conn_at(lines: Seq<Line>, at: Option<usize>) -> Option<Connection> {
    match at {
        Some(i) => Some(lines[i as int].conn),
        None => None,
    }
}

/// One send of a flight, to the line at a position: whether another may
/// follow, nothing for an unknown peer.
fn send_one<P: WirePool>(
    serve: &mut Serve,
    sessions: &mut Sessions,
    lines: &mut Vec<Line>,
    pm: &Pm<P>,
    peer: u8,
    at: Option<usize>,
    flight: &mut Flight,
) -> (r: Option<bool>)
    requires
        old(serve).wf(),
        sessions_wf(old(sessions)@),
        pm.wf(),
        sync_fits(pm@, old(serve)@.net.sync),
        old(serve)@.net.owners.len() <= u8::MAX,
        pm@.removal_log.len() <= u32::MAX,
        old(serve)@.net.peers.contains_key(peer) ==> old(serve)@.net.peers[peer].send_seq
            < u32::MAX,
        old(sessions)@.oversize_drops < u32::MAX,
        old(flight).sends < FLIGHT_MAX,
        at matches Some(i) ==> i < old(lines)@.len(),
    ensures
        final(serve).wf(),
        sessions_wf(final(sessions)@),
        r is Some <==> old(serve)@.net.peers.contains_key(peer),
        r is None ==> {
            &&& final(serve)@ == old(serve)@
            &&& final(sessions)@ == old(sessions)@
            &&& final(lines)@ == old(lines)@
            &&& *final(flight) == *old(flight)
        },
        r matches Some(go) ==> {
            let before = conn_at(old(lines)@, at);
            let after = conn_at(final(lines)@, at);
            let up = peer_up(old(sessions)@, peer);
            let dgram = dgram_of(before);
            let snap = snapshot_of(
                old(serve)@.net,
                pm@,
                peer,
                next_budget(*old(flight), dgram) as nat,
            );
            let bytes = encode(snap.message);
            &&& final(serve)@ == (ServeView {
                net: ServerView {
                    peers: old(serve)@.net.peers.insert(peer, snap.peer),
                    ..old(serve)@.net
                },
                ..old(serve)@
            })
            &&& snapshot_offered(before, after, up, bytes)
            &&& final(lines)@ == match at {
                Some(i) => old(lines)@.update(
                    i as int,
                    Line { conn: after->0, ..old(lines)@[i as int] },
                ),
                None => old(lines)@,
            }
            &&& final(sessions)@ == (SessionsView {
                oversize_drops: if up && before is Some && !fits_on(before->0, bytes.len()) {
                    (old(sessions)@.oversize_drops + 1) as u32
                } else {
                    old(sessions)@.oversize_drops
                },
                ..old(sessions)@
            })
            &&& *final(flight) == spent(*old(flight), bytes.len())
            &&& go == goes_on(snap, *final(flight), dgram, after)
        },
{
    let ghost l0 = lines@;
    let dgram: usize = match at {
        Some(k) => {
            let line: &mut Line = &mut lines[k];
            snapshot_budget(&mut line.conn)
        },
        None => SNAPSHOT_BUDGET_DEFAULT,
    };
    assert(lines@ =~= l0);
    let budget: usize = flight.budget(dgram);
    match serve.snapshot(pm, peer, budget) {
        None => None,
        Some(snap) => {
            let space: usize = match at {
                Some(k) => {
                    let line: &mut Line = &mut lines[k];
                    snapshot_send(sessions, peer, &mut line.conn, snap.bytes.as_slice());
                    dgram_space(&mut line.conn)
                },
                None => 0,
            };
            assert(lines@ =~= match at {
                Some(i) => l0.update(
                    i as int,
                    Line { conn: lines@[i as int].conn, ..l0[i as int] },
                ),
                None => l0,
            });
            Some(flight.sent(&snap, dgram, space))
        },
    }
}

/// One peer's flight of a tick: the first datagram is unconditional; while
/// rows didn't fit, more follow until the backlog drains, the allowance or
/// the rail is spent, or the send buffer says the link isn't draining. Gives
/// how many datagrams that took.
#[verifier::rlimit(30)]
pub fn send_flight<P: WirePool>(
    serve: &mut Serve,
    sessions: &mut Sessions,
    lines: &mut Vec<Line>,
    pm: &Pm<P>,
    peer: u8,
    per_tick: usize,
) -> (r: u32)
    requires
        old(serve).wf(),
        sessions_wf(old(sessions)@),
        pm.wf(),
        sync_fits(pm@, old(serve)@.net.sync),
        old(serve)@.net.owners.len() <= u8::MAX,
        pm@.removal_log.len() <= u32::MAX,
        old(serve)@.net.peers.contains_key(peer) ==> old(serve)@.net.peers[peer].send_seq
            + FLIGHT_MAX <= u32::MAX,
        old(sessions)@.oversize_drops + FLIGHT_MAX <= u32::MAX,
    ensures
        final(serve).wf(),
        sessions_wf(final(sessions)@),
        r <= FLIGHT_MAX,
        r == 0 <==> !old(serve)@.net.peers.contains_key(peer),
        exists|path: Seq<Option<Connection>>|
            {
                &&& path.len() == r + 1
                &&& #[trigger] flight_of(
                    fleet(old(serve)@, old(sessions)@, old(lines)@),
                    pm@,
                    peer,
                    per_tick,
                    path,
                )
                &&& fleet(final(serve)@, final(sessions)@, final(lines)@) == fleet_after(
                    fleet(old(serve)@, old(sessions)@, old(lines)@),
                    pm@,
                    peer,
                    per_tick,
                    path,
                )
                &&& line_to(old(sessions)@, old(lines)@, peer) matches Some(i) ==> offered_all(
                    datagrams_queued(old(lines)@[i].conn),
                    datagrams_queued(final(lines)@[i].conn),
                    flying(
                        old(serve)@.net,
                        pm@,
                        peer,
                        peer_up(old(sessions)@, peer),
                        per_tick,
                        path,
                    ).data,
                    datagram_ceiling(old(lines)@[i].conn),
                )
            },
        final(serve)@ == (ServeView { net: final(serve)@.net, ..old(serve)@ }),
{
    let ghost s0 = serve@;
    let ghost d0 = sessions@;
    let ghost l0 = lines@;
    let ghost f0 = fleet(s0, d0, l0);
    let ghost handles = handles_of(lines@);
    let ghost up = peer_up(d0, peer);
    let at: Option<usize> = line_of(sessions, lines, peer);
    let ghost mut path: Seq<Option<Connection>> = seq![conn_to(f0, peer)];
    let mut flight: Flight = Flight::new(per_tick);
    let mut go: bool = true;
    while go
        invariant
            serve.wf(),
            sessions_wf(sessions@),
            pm.wf(),
            sync_fits(pm@, s0.net.sync),
            serve@.net.owners.len() <= u8::MAX,
            pm@.removal_log.len() <= u32::MAX,
            s0.net.peers.contains_key(peer) ==> s0.net.peers[peer].send_seq + FLIGHT_MAX
                <= u32::MAX,
            d0.oversize_drops + FLIGHT_MAX <= u32::MAX,
            f0 == fleet(s0, d0, l0),
            up == peer_up(d0, peer),
            match at {
                Some(i) => i < l0.len() && line_to(d0, l0, peer) == Some(i as int),
                None => line_to(d0, l0, peer) is None,
            },
            path.len() == flight.sends + 1,
            path[0] == conn_to(f0, peer),
            path.last() == conn_at(lines@, at),
            lines@.len() == l0.len(),
            flight_held(s0.net, pm@, peer, up, per_tick, path),
            flying(s0.net, pm@, peer, up, per_tick, path).flight == flight,
            s0.net.peers.contains_key(peer) ==> go == flying(
                s0.net,
                pm@,
                peer,
                up,
                per_tick,
                path,
            ).go,
            flight.sends > 0 ==> s0.net.peers.contains_key(peer),
            !go ==> (flight.sends == 0 <==> !s0.net.peers.contains_key(peer)),
            fleet(serve@, sessions@, lines@) == fleet_after(f0, pm@, peer, per_tick, path),
            serve@ == (ServeView { net: serve@.net, ..s0 }),
        decreases (if go { 1int } else { 0 }) + FLIGHT_MAX - flight.sends,
    {
        let ghost st = flying(s0.net, pm@, peer, up, per_tick, path);
        let ghost f1 = fleet(serve@, sessions@, lines@);
        proof {
            flights_are_short(s0.net, pm@, peer, up, per_tick, path);
            if s0.net.peers.contains_key(peer) {
                flights_number_their_sends(s0.net, pm@, peer, st.budgets);
            }
        }
        match send_one(serve, sessions, lines, pm, peer, at, &mut flight) {
            None => {
                go = false;
            },
            Some(more) => {
                go = more;
                proof {
                    let next = conn_at(lines@, at);
                    let now = fleet(serve@, sessions@, lines@);
                    one_send_more(f0, pm@, peer, per_tick, path, next, f1, now);
                    path = path.push(next);
                }
            },
        }
    }
    proof {
        flights_are_short(s0.net, pm@, peer, up, per_tick, path);
        assert(flight_of(f0, pm@, peer, per_tick, path));
        if line_to(d0, l0, peer) is Some {
            flights_are_offered(s0.net, pm@, peer, up, per_tick, path);
        }
    }
    flight.sends
}

/// The server's side of its peers, as contracts see it.
pub open spec fn fleet(s: ServeView, d: SessionsView, lines: Seq<Line>) -> Fleet {
    Fleet { net: s.net, sessions: d, lines }
}

/// The sessions with what they collected taken out; inputs stay where no
/// input channel is registered.
pub open spec fn emptied(d: SessionsView, channel: bool) -> SessionsView {
    SessionsView {
        joined: Seq::empty(),
        left: Seq::empty(),
        acks: Seq::empty(),
        inputs: if channel {
            Seq::empty()
        } else {
            d.inputs
        },
        events: Seq::empty(),
        ..d
    }
}

/// Whether every peer can still be sent a whole flight.
pub open spec fn numbers_left(s: ServerView) -> bool {
    sends_remain(s, FLIGHT_MAX)
}

/// The peers of a server, ascending.
pub open spec fn ascending_peers(peers: Seq<u8>, s: ServerView) -> bool {
    &&& forall|i: int, j: int| 0 <= i < j < peers.len() ==> peers[i] < peers[j]
    &&& forall|p: u8| #[trigger] peers.contains(p) <==> s.peers.contains_key(p)
}

/// Every peer's flight, in order, each along its states.
pub open spec fn fleet_after_all<P: WirePool>(
    f: Fleet,
    k: KernelView<P>,
    peers: Seq<u8>,
    per_tick: usize,
    paths: Seq<Seq<Option<Connection>>>,
) -> Fleet
    decreases peers.len(),
{
    if peers.len() == 0 {
        f
    } else {
        fleet_after(
            fleet_after_all(f, k, peers.drop_last(), per_tick, paths.drop_last()),
            k,
            peers.last(),
            per_tick,
            paths.last(),
        )
    }
}

/// Every peer's flight went along these states.
pub open spec fn flights_of<P: WirePool>(
    f: Fleet,
    k: KernelView<P>,
    peers: Seq<u8>,
    per_tick: usize,
    paths: Seq<Seq<Option<Connection>>>,
) -> bool
    decreases peers.len(),
{
    &&& paths.len() == peers.len()
    &&& peers.len() > 0 ==> {
        &&& flights_of(f, k, peers.drop_last(), per_tick, paths.drop_last())
        &&& flight_of(
            fleet_after_all(f, k, peers.drop_last(), per_tick, paths.drop_last()),
            k,
            peers.last(),
            per_tick,
            paths.last(),
        )
    }
}

/// Every peer's flight leaves the peers it hasn't come to alone, and drops
/// no more than a whole flight each.
proof fn flights_are_apart<P: WirePool>(
    f: Fleet,
    k: KernelView<P>,
    peers: Seq<u8>,
    per_tick: usize,
    paths: Seq<Seq<Option<Connection>>>,
)
    requires
        flights_of(f, k, peers, per_tick, paths),
        numbers_left(f.net),
        f.sessions.oversize_drops + peers.len() * FLIGHT_MAX <= u32::MAX,
        forall|i: int| 0 <= i < peers.len() ==> f.net.peers.contains_key(#[trigger] peers[i]),
        forall|i: int, j: int| 0 <= i < j < peers.len() ==> peers[i] < peers[j],
    ensures
        ({
            let after = fleet_after_all(f, k, peers, per_tick, paths);
            &&& after.net.peers.dom() =~= f.net.peers.dom()
            &&& after.net.sync == f.net.sync
            &&& after.net.owners == f.net.owners
            &&& after.sessions.oversize_drops <= f.sessions.oversize_drops + peers.len()
                * FLIGHT_MAX
            &&& forall|p: u8|
                f.net.peers.contains_key(p) && !peers.contains(p) ==> #[trigger] after.net.peers[p]
                    == f.net.peers[p]
        }),
    decreases peers.len(),
{
    if peers.len() > 0 {
        let init = peers.drop_last();
        let last = peers.last();
        assert((peers.len() - 1) * FLIGHT_MAX + FLIGHT_MAX == peers.len() * FLIGHT_MAX)
            by (nonlinear_arith);
        flights_are_apart(f, k, init, per_tick, paths.drop_last());
        let before = fleet_after_all(f, k, init, per_tick, paths.drop_last());
        assert(!init.contains(last)) by {
            if init.contains(last) {
                let i = choose|i: int| 0 <= i < init.len() && init[i] == last;
                assert(peers[i] < peers[peers.len() - 1]);
            }
        }
        assert(f.net.peers.contains_key(peers[peers.len() - 1]));
        assert(before.net.peers.contains_key(last));
        assert(before.net.peers[last] == f.net.peers[last]);
        let up = peer_up(before.sessions, last);
        flights_are_short(before.net, k, last, up, per_tick, paths.last());
        let st = flying(before.net, k, last, up, per_tick, paths.last());
        flights_number_their_sends(before.net, k, last, st.budgets);
        let after = fleet_after_all(f, k, peers, per_tick, paths);
        assert forall|p: u8| f.net.peers.contains_key(p) && !peers.contains(p) implies
            #[trigger] after.net.peers[p] == f.net.peers[p] by {
            assert(!init.contains(p)) by {
                if init.contains(p) {
                    let i = choose|i: int| 0 <= i < init.len() && init[i] == p;
                    assert(peers[i] == p);
                }
            }
            assert(peers[peers.len() - 1] == last);
            assert(p != last);
            assert(before.net.peers[p] == f.net.peers[p]);
        }
    }
}

/// The server once it took in what the sessions collected; `rows` are the
/// events among that.
pub open spec fn taken_in(s: ServeView, d: SessionsView, rows: Seq<EventRow>) -> ServeView {
    intake_of(s, d.joined, d.left, d.acks, d.inputs, rows)
}

/// What a net tick makes of the server: the intake, then a flight of at
/// least one datagram for every peer, ascending.
pub open spec fn ticked<P: WirePool>(
    s: ServeView,
    f: Fleet,
    k: KernelView<P>,
    per_tick: usize,
    rows: Seq<EventRow>,
    peers: Seq<u8>,
    paths: Seq<Seq<Option<Connection>>>,
    after: (ServeView, Fleet),
) -> bool {
    let mid = taken_in(s, f.sessions, rows);
    let start = Fleet {
        net: mid.net,
        sessions: emptied(f.sessions, s.inputs is Some),
        lines: f.lines,
    };
    &&& event_rows(rows) == f.sessions.events
    &&& ascending_peers(peers, mid.net)
    &&& flights_of(start, k, peers, per_tick, paths)
    &&& after.1 == fleet_after_all(start, k, peers, per_tick, paths)
    &&& after.0 == ServeView { net: after.1.net, ..mid }
}

/// How many sends each peer's flight made.
pub open spec fn sends_of(peers: Seq<u8>, paths: Seq<Seq<Option<Connection>>>) -> Seq<(u8, u32)> {
    Seq::new(peers.len(), |i: int| (peers[i], (paths[i].len() - 1) as u32))
}

/// The server's net tick: what the sessions collected is taken in, every
/// peer gets its flight, and removals all peers acked are let go.
pub fn server_tick<P: WirePool>(
    serve: &mut Serve,
    sessions: &mut Sessions,
    lines: &mut Vec<Line>,
    pm: &mut Pm<P>,
    per_tick: usize,
) -> (r: Vec<(u8, u32)>)
    requires
        old(serve).wf(),
        sessions_wf(old(sessions)@),
        old(pm).wf(),
        sync_fits(old(pm)@, old(serve)@.net.sync),
        old(pm)@.removal_log.len() <= u32::MAX,
        owned_upto(
            own_without(old(serve)@.own, old(serve)@.left),
            256,
        ).len() <= u8::MAX,
        numbers_left(old(serve)@.net),
        old(sessions)@.oversize_drops + 256 * FLIGHT_MAX <= u32::MAX,
    ensures
        final(serve).wf(),
        sessions_wf(final(sessions)@),
        final(pm).wf(),
        exists|rows: Seq<EventRow>, peers: Seq<u8>, paths: Seq<Seq<Option<Connection>>>| #[trigger]
            ticked(
                old(serve)@,
                fleet(old(serve)@, old(sessions)@, old(lines)@),
                old(pm)@,
                per_tick,
                rows,
                peers,
                paths,
                (final(serve)@, fleet(final(serve)@, final(sessions)@, final(lines)@)),
            ) && r@ == sends_of(peers, paths),
        (final(pm)@.removal_log, final(pm)@.ids) == release_from(
            old(pm)@.removal_log,
            old(pm)@.ids,
            0,
            oldest_ack(final(serve)@.net.peers, old(pm)@.tick),
            old(pm)@.local_peer,
        ),
        final(pm)@ == (KernelView {
            ids: final(pm)@.ids,
            removal_log: final(pm)@.removal_log,
            ..old(pm)@
        }),
{
    let ghost s0 = serve@;
    let ghost d0 = sessions@;
    let ghost k0 = pm@;
    let ghost l0 = lines@;
    let joined: Vec<u8> = sessions.joined_drain();
    let left: Vec<u8> = sessions.left_drain();
    let acks: Vec<(u8, u32, u32)> = sessions.acks_drain();
    let inputs: Vec<InputRow> = if serve.has_inputs() {
        sessions.inputs_drain()
    } else {
        Vec::new()
    };
    let events: Vec<EventRow> = sessions.events_drain();
    let ghost rows = events@;
    let ghost mid = taken_in(s0, d0, rows);
    assert(sessions@ =~= emptied(d0, s0.inputs is Some));
    serve.intake(joined, left, acks, inputs, events);
    assert(serve@ == mid);
    assert(mid.net.sync == s0.net.sync && numbers_left(mid.net)) by {
        intake_keeps_the_pools(s0, d0.joined, d0.left, d0.acks, d0.inputs, rows);
    }
    assert(mid.net.owners.len() <= u8::MAX) by {
        stable_sort_exists(owner_rows(mid.own));
    }
    let peers: Vec<u8> = serve.net().peers();
    let ghost start = Fleet {
        net: mid.net,
        sessions: emptied(d0, s0.inputs is Some),
        lines: l0,
    };
    let ghost mut paths: Seq<Seq<Option<Connection>>> = Seq::empty();
    let mut flights: Vec<(u8, u32)> = Vec::new();
    let mut i: usize = 0;
    proof {
        assert(flights@ =~= sends_of(peers@.take(0), paths));
        assert(peers@.take(0) =~= Seq::<u8>::empty());
        few_peers(peers@);
    }
    while i < peers.len()
        invariant
            serve.wf(),
            sessions_wf(sessions@),
            pm.wf(),
            pm@ == k0,
            sync_fits(k0, mid.net.sync),
            k0.removal_log.len() <= u32::MAX,
            numbers_left(mid.net),
            peers@.len() <= 256,
            ascending_peers(peers@, mid.net),
            d0.oversize_drops + 256 * FLIGHT_MAX <= u32::MAX,
            i <= peers@.len(),
            start == (Fleet {
                net: mid.net,
                sessions: emptied(d0, s0.inputs is Some),
                lines: l0,
            }),
            mid.net.owners.len() <= u8::MAX,
            paths.len() == i,
            flights@ == sends_of(peers@.take(i as int), paths),
            flights_of(start, k0, peers@.take(i as int), per_tick, paths),
            fleet(serve@, sessions@, lines@) == fleet_after_all(
                start,
                k0,
                peers@.take(i as int),
                per_tick,
                paths,
            ),
            serve@ == (ServeView { net: serve@.net, ..mid }),
        decreases peers@.len() - i,
    {
        let ghost done = peers@.take(i as int);
        let ghost before = serve@;
        let ghost p = peers@[i as int];
        proof {
            assert forall|j: int| 0 <= j < done.len() implies mid.net.peers.contains_key(
                #[trigger] done[j],
            ) by {
                assert(peers@.contains(peers@[j]));
            }
            assert(i * FLIGHT_MAX + FLIGHT_MAX <= 256 * FLIGHT_MAX) by (nonlinear_arith)
                requires
                    i < 256,
            ;
            flights_are_apart(start, k0, done, per_tick, paths);
            assert(peers@.contains(p));
            assert(!done.contains(p)) by {
                if done.contains(p) {
                    let j = choose|j: int| 0 <= j < done.len() && done[j] == p;
                    assert(peers@[j] < peers@[i as int]);
                }
            }
            assert(before.net.peers.contains_key(p));
            assert(before.net.peers[p] == mid.net.peers[p]);
        }
        let ghost f1 = fleet(serve@, sessions@, lines@);
        let sends: u32 = send_flight(serve, sessions, lines, pm, peers[i], per_tick);
        flights.push((peers[i], sends));
        proof {
            let path = choose|path: Seq<Option<Connection>>|
                path.len() == sends + 1 && #[trigger] flight_of(f1, k0, p, per_tick, path)
                    && fleet(serve@, sessions@, lines@) == fleet_after(f1, k0, p, per_tick, path);
            let more = paths.push(path);
            assert(peers@.take(i + 1).drop_last() =~= done);
            assert(peers@.take(i + 1).last() == p);
            assert(more.drop_last() =~= paths);
            assert(flights@ =~= sends_of(peers@.take(i + 1), more));
            paths = more;
        }
        i += 1;
    }
    proof {
        assert(peers@.take(i as int) =~= peers@);
        assert(ticked(
            s0,
            fleet(s0, d0, l0),
            k0,
            per_tick,
            rows,
            peers@,
            paths,
            (serve@, fleet(serve@, sessions@, lines@)),
        ));
    }
    serve.net().prune(pm);
    flights
}

/// Acking numbers no send.
proof fn acking_keeps_the_numbering(p: PeerView, seq: u32)
    ensures
        settle_upto(p, seq).send_seq == p.send_seq,
    decreases p.sent.len(),
{
    if p.sent.len() > 0 && p.sent[0].seq <= seq {
        acking_keeps_the_numbering(settle_front(p, p.sent[0].seq == seq), seq);
    }
}

/// Intake registers no pool and numbers no send.
proof fn intake_keeps_the_pools(
    s: ServeView,
    joined: Seq<u8>,
    left: Seq<u8>,
    acks: Seq<(u8, u32, u32)>,
    inputs: Seq<PeerInput>,
    events: Seq<EventRow>,
)
    ensures
        intake_of(s, joined, left, acks, inputs, events).net.sync == s.net.sync,
        numbers_left(s.net) ==> numbers_left(
            intake_of(s, joined, left, acks, inputs, events).net,
        ),
{
    added_keep_pools(s.net, joined);
    let added = peers_added(s.net, joined);
    removed_keep_pools(added, left);
    let removed = peers_removed(added, left);
    acks_keep_pools(removed, acks);
    let acked = acks_taken(removed, acks);
    if let Some(q) = s.inputs {
        let queues = inputs_taken(queues_without(q, left), s.width, inputs, acked);
        echoes_keep_pools(acked, applied_upto(queues, 256));
    }
}

proof fn added_keep_pools(n: ServerView, joined: Seq<u8>)
    ensures
        peers_added(n, joined).sync == n.sync,
        numbers_left(n) ==> numbers_left(peers_added(n, joined)),
    decreases joined.len(),
{
    if joined.len() > 0 {
        added_keep_pools(n, joined.drop_last());
    }
}

proof fn removed_keep_pools(n: ServerView, left: Seq<u8>)
    ensures
        peers_removed(n, left).sync == n.sync,
        numbers_left(n) ==> numbers_left(peers_removed(n, left)),
    decreases left.len(),
{
    if left.len() > 0 {
        removed_keep_pools(n, left.drop_last());
    }
}

proof fn acks_keep_pools(n: ServerView, acks: Seq<(u8, u32, u32)>)
    ensures
        acks_taken(n, acks).sync == n.sync,
        numbers_left(n) ==> numbers_left(acks_taken(n, acks)),
    decreases acks.len(),
{
    if acks.len() > 0 {
        acks_keep_pools(n, acks.drop_last());
        let before = acks_taken(n, acks.drop_last());
        let (p, tick, seq) = acks.last();
        if before.peers.contains_key(p) {
            let was = before.peers[p];
            acking_keeps_the_numbering(
                PeerView {
                    acked: if tick > was.acked {
                        tick
                    } else {
                        was.acked
                    },
                    ..was
                },
                seq,
            );
        }
    }
}

proof fn echoes_keep_pools(n: ServerView, seqs: Seq<(u8, u32)>)
    ensures
        echoes_taken(n, seqs).sync == n.sync,
        numbers_left(n) ==> numbers_left(echoes_taken(n, seqs)),
    decreases seqs.len(),
{
    if seqs.len() > 0 {
        echoes_keep_pools(n, seqs.drop_last());
    }
}

/// Ascending peer ids are at most 256.
proof fn few_peers(peers: Seq<u8>)
    requires
        forall|i: int, j: int| 0 <= i < j < peers.len() ==> peers[i] < peers[j],
    ensures
        peers.len() <= 256,
        peers.len() > 0 ==> peers.len() <= peers.last() + 1,
    decreases peers.len(),
{
    if peers.len() > 0 {
        let init = peers.drop_last();
        few_peers(init);
        if init.len() > 0 {
            assert(peers[init.len() - 1] < peers[peers.len() - 1]);
        }
    }
}

// --- client -----------------------------------------------------------------

/// How the client's net tick went.
#[derive(Clone, Copy, PartialEq, Eq, Debug, Structural)]
pub enum ClientTurn {
    /// The connection failed; the session holds the reason.
    Lost,
    /// The server closed the connection.
    Closed,
    Ran,
}

/// How the tick goes with a session like this.
pub open spec fn client_turn_of(d: DialView) -> ClientTurn {
    if d.error is Some {
        ClientTurn::Lost
    } else if d.gone {
        ClientTurn::Closed
    } else {
        ClientTurn::Ran
    }
}

/// Snapshots as plain values.
pub open spec fn snap_bytes(snaps: Seq<SnapBuf>) -> Seq<Seq<u8>> {
    snaps.map_values(|b: SnapBuf| b.bytes@)
}

/// These datagrams were offered for sending under one ceiling, in order.
pub open spec fn offered_all(
    before: Seq<Seq<u8>>,
    after: Seq<Seq<u8>>,
    data: Seq<Seq<u8>>,
    ceiling: Option<usize>,
) -> bool
    decreases data.len(),
{
    if data.len() == 0 {
        after == before
    } else {
        exists|mid: Seq<Seq<u8>>|
            offered_all(before, mid, data.drop_last(), ceiling) && #[trigger] offered(
                mid,
                after,
                data.last(),
                within(ceiling, data.last().len()),
            )
    }
}

proof fn offer_one_more(
    before: Seq<Seq<u8>>,
    mid: Seq<Seq<u8>>,
    after: Seq<Seq<u8>>,
    data: Seq<Seq<u8>>,
    d: Seq<u8>,
    ceiling: Option<usize>,
)
    requires
        offered_all(before, mid, data, ceiling),
        offered(mid, after, d, within(ceiling, d.len())),
    ensures
        offered_all(before, after, data.push(d), ceiling),
{
    assert(data.push(d).drop_last() =~= data);
    assert(data.push(d).last() == d);
    assert(offered_all(before, mid, data.push(d).drop_last(), ceiling));
}

/// The datagrams that ack these.
pub open spec fn ack_datagrams(acks: Seq<(u32, u32)>) -> Seq<Seq<u8>> {
    acks.map_values(|a: (u32, u32)| ack_bytes(a.0, a.1))
}

/// Events framed for the stream, in order.
pub open spec fn event_frames(events: Seq<(u16, Seq<u8>)>) -> Seq<u8>
    decreases events.len(),
{
    if events.len() == 0 {
        Seq::empty()
    } else {
        event_frames(events.drop_last()) + frame_bytes(
            FrameView { ty: events.last().0, payload: events.last().1 },
        )
    }
}

/// The session once the tick handed it its events: all of them when the
/// handshake is done, none before.
pub open spec fn dial_after(d: DialView, events: Seq<(u16, Seq<u8>)>) -> DialView {
    DialView {
        snapshots: Seq::empty(),
        stream_out: if d.peer is Some {
            d.stream_out + event_frames(events)
        } else {
            d.stream_out
        },
        ..d
    }
}

/// The status once the tick noted the handshake.
pub open spec fn shaken(s: StatusView, peer: Option<u8>) -> StatusView {
    match peer {
        Some(p) => StatusView { peer: p, connected: true, ..s },
        None => s,
    }
}

/// The snapshots that arrived were applied in send order, the handshake
/// noted, and an ack for each was offered for sending.
pub open spec fn applied_and_acked(
    s: StatusView,
    r: Replica,
    find: spec_fn(u16) -> Option<(int, nat)>,
    d: DialView,
    snaps: Seq<SnapBuf>,
    after: (StatusView, Replica),
    conns: (Connection, Connection),
) -> bool {
    let taken = snaps_taken(
        StatusView { applied: Seq::empty(), ..s },
        r,
        find,
        stable_sort(snaps),
    );
    &&& snap_bytes(snaps) == d.snapshots
    &&& after.0 == shaken(taken.0, d.peer)
    &&& after.1 == taken.1
    &&& offered_all(
        datagrams_queued(conns.0),
        datagrams_queued(conns.1),
        ack_datagrams(taken.2),
        datagram_ceiling(conns.0),
    )
}

/// Snapshot buffers out of plain ones.
fn snap_bufs(raw: Vec<Vec<u8>>) -> (r: Vec<SnapBuf>)
    ensures
        snap_bytes(r@) == buffers(raw@),
{
    let mut raw = raw;
    let mut out: Vec<SnapBuf> = Vec::new();
    let mut k: usize = 0;
    while k < raw.len()
        invariant
            k <= raw@.len(),
            out@.len() == k,
            forall|j: int| 0 <= j < k ==> (#[trigger] out@[j]).bytes@ == raw@[j]@,
        decreases raw@.len() - k,
    {
        let bytes: Vec<u8> = crate::text::copy_bytes(raw[k].as_slice());
        out.push(SnapBuf { bytes });
        k += 1;
    }
    assert(snap_bytes(out@) =~= buffers(raw@));
    out
}

/// The client's net tick: a failed connection ends the loop; otherwise the
/// snapshots that arrived are applied in send order and acked, and once the
/// handshake is done the queued events go out.
pub fn client_tick<P: WirePool>(
    connect: &mut Connect,
    dial: &mut Dial,
    conn: &mut Connection,
    pm: &mut Pm<P>,
    out: &mut Outbox,
) -> (r: ClientTurn)
    requires
        old(pm).wf(),
        sync_fits(old(pm)@, old(connect).sync()),
        old(connect)@.snapshots + old(dial)@.snapshots.len() <= u32::MAX,
        forall|k: int| 0 <= k < old(out)@.len() ==> (#[trigger] old(out)@[k]).0 >= EVENT_USER_BASE,
    ensures
        final(pm).wf(),
        final(connect).sync() == old(connect).sync(),
        r == client_turn_of(old(dial)@),
        r != ClientTurn::Ran ==> {
            &&& final(pm)@ == (KernelView { quit: true, ..old(pm)@ })
            &&& final(connect)@ == old(connect)@
            &&& final(dial)@ == old(dial)@
            &&& final(out)@ == old(out)@
            &&& datagrams_queued(*final(conn)) == datagrams_queued(*old(conn))
        },
        r == ClientTurn::Ran ==> {
            &&& final(dial)@ == dial_after(old(dial)@, old(out)@)
            &&& final(out)@ == if old(dial)@.peer is Some {
                Seq::empty()
            } else {
                old(out)@
            }
            &&& final(pm)@.local_peer == match old(dial)@.peer {
                Some(p) => p,
                None => old(pm)@.local_peer,
            }
            &&& same_shape(
                KernelView { local_peer: final(pm)@.local_peer, ..old(pm)@ },
                final(pm)@,
            )
            &&& exists|snaps: Seq<SnapBuf>| #[trigger]
                applied_and_acked(
                    old(connect)@,
                    replica_of(old(pm)@),
                    finder(old(pm)@, old(connect).sync()),
                    old(dial)@,
                    snaps,
                    (final(connect)@, replica_of(final(pm)@)),
                    (*old(conn), *final(conn)),
                )
        },
{
    let ghost d0 = dial@;
    let ghost k0 = pm@;
    let ghost s0 = connect@;
    let ghost sync = connect.sync();
    let ghost o0 = out@;
    let ghost c0 = *conn;
    if dial.error().is_some() {
        pm.loop_quit();
        return ClientTurn::Lost;
    }
    if dial.is_gone() {
        pm.loop_quit();
        return ClientTurn::Closed;
    }
    let snaps: Vec<SnapBuf> = snap_bufs(dial.snapshots_drain());
    let ghost given = snaps@;
    assert(snap_bytes(given).len() == given.len());
    let acks: Vec<(u32, u32)> = connect.intake(pm, snaps);
    let ghost taken = snaps_taken(
        StatusView { applied: Seq::empty(), ..s0 },
        replica_of(k0),
        finder(k0, sync),
        stable_sort(given),
    );
    let ghost data = ack_datagrams(acks@);
    let mut k: usize = 0;
    assert(data.take(0) =~= Seq::<Seq<u8>>::empty());
    while k < acks.len()
        invariant
            k <= acks@.len(),
            data == ack_datagrams(acks@),
            datagram_ceiling(*conn) == datagram_ceiling(c0),
            offered_all(
                datagrams_queued(c0),
                datagrams_queued(*conn),
                data.take(k as int),
                datagram_ceiling(c0),
            ),
        decreases acks@.len() - k,
    {
        let ghost mid = datagrams_queued(*conn);
        let (tick, seq): (u32, u32) = acks[k];
        ack_send(conn, tick, seq);
        proof {
            assert(data.take(k + 1) =~= data.take(k as int).push(ack_bytes(tick, seq)));
            offer_one_more(
                datagrams_queued(c0),
                mid,
                datagrams_queued(*conn),
                data.take(k as int),
                ack_bytes(tick, seq),
                datagram_ceiling(c0),
            );
        }
        k += 1;
    }
    assert(data.take(k as int) =~= data);
    let ghost k1 = pm@;
    if let Some(peer) = dial.handshake_done() {
        let events: Vec<OutEvent> = connect.handshake(pm, peer, out);
        let ghost d1 = dial@;
        let ghost evs = event_views(events@);
        let mut e: usize = 0;
        proof {
            assert(evs.take(0) =~= Seq::<(u16, Seq<u8>)>::empty());
            assert(d1.stream_out + event_frames(evs.take(0)) =~= d1.stream_out);
        }
        while e < events.len()
            invariant
                e <= events@.len(),
                evs == event_views(events@),
                forall|j: int| 0 <= j < evs.len() ==> (#[trigger] evs[j]).0 >= EVENT_USER_BASE,
                dial@ == (DialView {
                    stream_out: d1.stream_out + event_frames(evs.take(e as int)),
                    ..d1
                }),
            decreases events@.len() - e,
        {
            proof {
                assert(evs[e as int].0 == events@[e as int].tag);
                assert(evs.take(e + 1).drop_last() =~= evs.take(e as int));
                assert(evs.take(e + 1).last() == evs[e as int]);
            }
            dial.event_send(events[e].tag, events[e].payload.as_slice());
            assert(dial@ =~= DialView {
                stream_out: d1.stream_out + event_frames(evs.take(e + 1)),
                ..d1
            });
            e += 1;
        }
        assert(evs.take(e as int) =~= evs);
    }
    assert(dial@ =~= dial_after(d0, o0));
    assert(replica_of(pm@) =~= replica_of(k1));
    assert(applied_and_acked(
        s0,
        replica_of(k0),
        finder(k0, sync),
        d0,
        given,
        (connect@, replica_of(pm@)),
        (c0, *conn),
    ));
    ClientTurn::Ran
}

} // verus!
