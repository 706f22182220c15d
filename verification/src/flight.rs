//! What a server tick sends and what comes of it on either end: how often and
//! how much a peer is sent, what a connection says and in which order, whom a
//! line is taken from, and how a client's turn ends.

use vstd::prelude::*;

use quinn_proto::Connection;

use crate::apply::Replica;
use crate::delta::WirePool;
use crate::dial::DialView;
use crate::frame::{ack_bytes, frame_bytes, frames_of, frames_read_back, FrameView};
use crate::kernel::KernelView;
use crate::link::{
    accepting, answered, budget_on, client_hears, datagram_ceiling, datagram_limit, datagram_slack,
    datagrams_queued, datagrams_waiting, drained, ear_of, ended, gone, goodbye, handed, handles_of,
    heard_out, hears_all, held_by_server, offered, opening, parted, peer_up, pending, reaped,
    reasons_for, reports_waiting, said_by_all, same_standing, says, sent, served, server_hears,
    stream_held, stream_room, taken, turn, turns, unread, within, Ear, HeardView, Inlet, Line,
    ReportView, Stream,
};
use crate::net::{snapshot_of, ServerView, SnapshotView};
use crate::netmod::{
    ack_datagrams, applied_and_acked, client_turn_of, dgram_of, dial_after, emptied, event_frames,
    fits_on, fleet_after, fleet_after_all, flight_held, flight_of, flights_of, flown, flying,
    goes_on, line_at, line_to, next_budget, next_snapshot, offered_all, send_made, sends_of,
    shaken, snap_bytes, spent, ticked, Fleet, FlightView,
};
use crate::serve::{intake_of, snaps_taken, Flight, ServeView, SnapBuf, StatusView};
use crate::session::{drained_at, event_rows, place, ConnView, EventRow, Reason, SessionsView};
use crate::snapshot::{cat, encode};
use crate::sort::stable_sort;

verus! {

/// A handle's line is the first with it, and there is none only where no line
/// has it.
pub proof fn a_handle_has_its_line(handles: Seq<usize>, h: usize)
    ensures
        line_at(handles, h) matches Some(i) ==> {
            &&& 0 <= i < handles.len()
            &&& handles[i] == h
            &&& forall|j: int| 0 <= j < i ==> #[trigger] handles[j] != h
        },
        line_at(handles, h) is None ==> forall|j: int|
            0 <= j < handles.len() ==> #[trigger] handles[j] != h,
    decreases handles.len(),
{
    if handles.len() > 0 {
        let init = handles.drop_last();
        a_handle_has_its_line(init, h);
        assert forall|j: int| 0 <= j < init.len() implies #[trigger] handles[j] == init[j] by {}
    }
}

/// What a send may cost: the first of a tick a whole datagram, each later one
/// a datagram or what the tick's allowance has left, whichever is less. A send
/// takes its bytes off the allowance and counts.
pub proof fn an_allowance_is_spent_send_by_send(f: Flight, dgram: usize, len: nat)
    requires
        f.sends < u32::MAX,
    ensures
        f.sends == 0 ==> next_budget(f, dgram) == dgram,
        f.sends > 0 ==> next_budget(f, dgram) <= dgram && next_budget(f, dgram) <= f.allowance,
        f.sends > 0 ==> next_budget(f, dgram) == dgram || next_budget(f, dgram) == f.allowance,
        spent(f, len).sends == f.sends + 1,
        len <= f.allowance ==> spent(f, len).allowance == f.allowance - len,
        len > f.allowance ==> spent(f, len).allowance == 0,
{
}

/// A flight goes on exactly while more waits, the last send carried rows,
/// fewer than eight went out, allowance is left, and the connection has room
/// for a datagram and 256 bytes.
pub proof fn a_flight_goes_on_while_it_may(
    snap: SnapshotView,
    f: Flight,
    dgram: usize,
    after: Option<Connection>,
)
    ensures
        goes_on(snap, f, dgram, after) <==> snap.more && snap.entries > 0 && f.sends < 8
            && f.allowance > 0 && match after {
            Some(c) => datagram_slack(c) >= dgram + 256,
            None => 0 >= dgram + 256,
        },
{
}

/// A datagram is as large as the connection takes, less its kind byte; 1100
/// bytes where the connection does not say or is not there.
pub proof fn a_datagram_fits_its_connection(conn: Connection, len: nat)
    ensures
        dgram_of(None) == 1100,
        dgram_of(Some(conn)) == budget_on(conn),
        datagram_limit(conn) is None ==> budget_on(conn) == 1100,
        datagram_limit(conn) is Some && datagram_limit(conn)->0 > 0 ==> budget_on(conn)
            == datagram_limit(conn)->0 - 1,
        datagram_limit(conn) == Some(0usize) ==> budget_on(conn) == 0,
        fits_on(conn, len) <==> datagram_limit(conn) is Some && len < datagram_limit(conn)->0,
{
}

/// A flight counts its sends and makes at most eight.
pub proof fn a_flight_makes_at_most_eight_sends<P: WirePool>(
    s: ServerView,
    k: KernelView<P>,
    peer: u8,
    up: bool,
    per_tick: usize,
    path: Seq<Option<Connection>>,
)
    requires
        flight_held(s, k, peer, up, per_tick, path),
    ensures
        1 <= path.len() <= 9,
        flying(s, k, peer, up, per_tick, path).flight.sends == path.len() - 1,
        flying(s, k, peer, up, per_tick, path).budgets.len() == path.len() - 1,
        flying(s, k, peer, up, per_tick, path).flight.allowance <= per_tick,
        path.len() == 9 ==> !flying(s, k, peer, up, per_tick, path).go,
    decreases path.len(),
{
    if path.len() > 1 {
        a_flight_makes_at_most_eight_sends(s, k, peer, up, per_tick, path.drop_last());
    }
}

/// One send more: it is packed for its budget after all before it, and where
/// the peer is up it goes out as a snapshot datagram if the connection takes
/// it and counts as dropped otherwise.
pub proof fn a_send_goes_out_or_counts_as_dropped<P: WirePool>(
    s: ServerView,
    k: KernelView<P>,
    peer: u8,
    up: bool,
    st: FlightView,
    before: Option<Connection>,
    after: Option<Connection>,
)
    requires
        st.flight.sends < u32::MAX,
    ensures
        ({
            let b = if st.flight.sends == 0 || dgram_of(before) <= st.flight.allowance {
                dgram_of(before)
            } else {
                st.flight.allowance
            };
            let snap = snapshot_of(flown(s, k, peer, st.budgets), k, peer, b as nat);
            let bytes = encode(snap.message);
            let out = send_made(s, k, peer, up, st, before, after);
            let fits = before matches Some(c) && fits_on(c, bytes.len());
            &&& out.budgets == st.budgets.push(b)
            &&& up && fits ==> out.data == st.data.push(seq![0u8] + bytes) && out.drops == st.drops
            &&& up && before is Some && !fits ==> out.data == st.data && out.drops == st.drops + 1
            &&& !up || before is None ==> out.data == st.data && out.drops == st.drops
            &&& out.flight == spent(st.flight, bytes.len())
            &&& out.go <==> goes_on(snap, out.flight, dgram_of(before), after)
        }),
{
}

/// Sends follow one another: each is packed on what those before it left, and
/// other peers keep theirs.
pub proof fn sends_follow_one_another<P: WirePool>(
    s: ServerView,
    k: KernelView<P>,
    peer: u8,
    budgets: Seq<usize>,
    b: usize,
    other: u8,
)
    ensures
        flown(s, k, peer, Seq::empty()) == s,
        ({
            let before = flown(s, k, peer, budgets);
            let out = flown(s, k, peer, budgets.push(b));
            &&& out.peers.contains_key(peer)
            &&& out.peers[peer] == snapshot_of(before, k, peer, b as nat).peer
            &&& other != peer ==> (out.peers.contains_key(other) <==> before.peers.contains_key(
                other,
            )) && out.peers[other] == before.peers[other]
            &&& out.sync == before.sync
            &&& out.owners == before.owners
        }),
{
    assert(budgets.push(b).drop_last() =~= budgets);
}

/// Every peer has its flight, one after another.
pub proof fn every_peer_has_its_flight<P: WirePool>(
    f: Fleet,
    k: KernelView<P>,
    peers: Seq<u8>,
    per_tick: usize,
    paths: Seq<Seq<Option<Connection>>>,
    n: int,
)
    requires
        peers.len() == paths.len(),
        0 <= n < peers.len(),
    ensures
        fleet_after_all(f, k, peers.take(0), per_tick, paths.take(0)) == f,
        fleet_after_all(f, k, peers.take(n + 1), per_tick, paths.take(n + 1)) == fleet_after(
            fleet_after_all(f, k, peers.take(n), per_tick, paths.take(n)),
            k,
            peers[n],
            per_tick,
            paths[n],
        ),
        sends_of(peers, paths).len() == peers.len(),
        sends_of(peers, paths)[n].0 == peers[n],
        1 <= paths[n].len() <= 9 ==> sends_of(peers, paths)[n].1 == paths[n].len() - 1,
{
    assert(peers.take(n + 1).drop_last() =~= peers.take(n));
    assert(paths.take(n + 1).drop_last() =~= paths.take(n));
}

/// A tick takes what the sessions collected and nothing else: inputs stay
/// where no channel reads them.
pub proof fn a_tick_takes_what_was_collected(d: SessionsView, channel: bool)
    ensures
        ({
            let out = emptied(d, channel);
            &&& out.joined.len() == 0
            &&& out.left.len() == 0
            &&& out.acks.len() == 0
            &&& out.events.len() == 0
            &&& channel ==> out.inputs.len() == 0
            &&& !channel ==> out.inputs == d.inputs
            &&& out.conns == d.conns
            &&& out.routes == d.routes
            &&& out.next_peer == d.next_peer
            &&& out.parked == d.parked
            &&& out.pending == d.pending
            &&& out.oversize_drops == d.oversize_drops
            &&& out.password == d.password
            &&& out.grace == d.grace
            &&& out.schema == d.schema
        }),
{
}

/// A peer is up where its id leads to a connection that is there, connected
/// and not gone.
pub proof fn a_peer_is_up_on_its_connection(d: SessionsView, peer: u8)
    ensures
        d.routes[peer as int] is None ==> !peer_up(d, peer),
        d.routes[peer as int] matches Some(h) ==> match place(d.conns, h) {
            Some(i) => peer_up(d, peer) <==> d.conns[i].connected && !d.conns[i].gone,
            None => !peer_up(d, peer),
        },
{
}

/// The bytes waiting for a connection are those of its open stream; sending
/// some takes exactly those off the front.
pub proof fn a_stream_is_sent_from_the_front(d: SessionsView, handle: usize, n: int)
    ensures
        place(d.conns, handle) is None ==> pending(d, handle).len() == 0 && !gone(d, handle)
            && taken(d, handle, n) == d,
        place(d.conns, handle) matches Some(i) ==> {
            let c = d.conns[i];
            &&& c.streaming ==> pending(d, handle) == c.stream_out
            &&& !c.streaming ==> pending(d, handle).len() == 0
            &&& gone(d, handle) <==> c.gone
            &&& taken(d, handle, n) == (SessionsView {
                conns: d.conns.update(i, ConnView { stream_out: c.stream_out.skip(n), ..c }),
                ..d
            })
        },
{
}

/// A line is taken away exactly where its connection is gone for the sessions
/// and drained, and its session goes with it; the others stay in order.
pub proof fn only_gone_and_drained_lines_go(d: SessionsView, lines: Seq<Line>, line: Line)
    ensures
        reaped(d, Seq::empty()) == (d, Seq::<Line>::empty()),
        ({
            let before = reaped(d, lines);
            let out = reaped(d, lines.push(line));
            &&& gone(before.0, line.handle) && drained(line.conn) ==> out.1 == before.1
                && place(before.0.conns, line.handle) is Some && out.0 == drained_at(
                before.0,
                place(before.0.conns, line.handle)->0,
            )
            &&& !(gone(before.0, line.handle) && drained(line.conn)) ==> out == (
                before.0,
                before.1.push(line),
            )
        }),
{
    assert(lines.push(line).drop_last() =~= lines);
}

/// The first reason given closes a connection, with its code and text, unless
/// it ended before; without a reason it goes on.
pub proof fn the_first_reason_closes(before: Connection, after: Connection, reasons: Seq<Reason>)
    requires
        parted(before, after, reasons),
    ensures
        reasons.len() == 0 ==> same_standing(before, after),
        reasons.len() > 0 ==> ended(after),
        reasons.len() > 0 && !ended(before) ==> goodbye(after) == Some(
            (reasons[0].code_of(), reasons[0].text_of()),
        ),
        ended(before) ==> goodbye(after) == goodbye(before),
        held_by_server(after) == held_by_server(before),
{
}

/// Closes carry 1 for a schema that differs, 3 for a session taken over and 2
/// for any other refusal.
pub proof fn closes_carry_their_codes(r: Reason)
    ensures
        r is SchemaMismatch ==> r.code_of() == 1,
        r is Superseded ==> r.code_of() == 3,
        !(r is SchemaMismatch) && !(r is Superseded) ==> r.code_of() == 2,
{
}

/// What a connection has to say: an answer to each of its reports, in order,
/// and every datagram waiting behind them, in order.
pub proof fn a_connection_says_everything(
    conn: Connection,
    stream: Option<Stream>,
    server: bool,
    k: int,
)
    ensures
        ({
            let (said, _) = says(conn, stream, server);
            let heard = hears_all(conn, ear_of(conn, stream), reports_waiting(conn), server);
            let n = reports_waiting(conn).len();
            &&& said.len() == n + datagrams_waiting(conn).len()
            &&& 0 <= k < n ==> said[k] == heard.1[k]
            &&& 0 <= k < datagrams_waiting(conn).len() ==> said[n + k] == HeardView::Datagram(
                datagrams_waiting(conn)[k],
            )
            &&& says(conn, stream, server).1 == heard.0.stream
        }),
{
    one_answer_per_report(conn, ear_of(conn, stream), reports_waiting(conn), server);
}

/// Each report is answered once.
proof fn one_answer_per_report(conn: Connection, e: Ear, reports: Seq<ReportView>, server: bool)
    ensures
        hears_all(conn, e, reports, server).1.len() == reports.len(),
    decreases reports.len(),
{
    if reports.len() > 0 {
        one_answer_per_report(conn, e, reports.drop_last(), server);
    }
}

/// Reports are answered one after another, in order.
pub proof fn reports_are_answered_in_order(
    conn: Connection,
    e: Ear,
    reports: Seq<ReportView>,
    r: ReportView,
    server: bool,
)
    ensures
        hears_all(conn, e, Seq::empty(), server) == (e, Seq::<HeardView>::empty()),
        ({
            let before = hears_all(conn, e, reports, server);
            let step = if server {
                server_hears(conn, before.0, r)
            } else {
                client_hears(conn, before.0, r)
            };
            hears_all(conn, e, reports.push(r), server) == (step.0, before.1.push(step.1))
        }),
{
    assert(reports.push(r).drop_last() =~= reports);
}

/// What a report means to either end: a connection made opens the server's
/// stream and only tells the client; a stream opened is the client's to take
/// while it has none; bytes are read whole, once; a loss is passed on.
pub proof fn a_report_means_what_it_says(conn: Connection, e: Ear, s: Inlet, why: Seq<char>)
    ensures
        server_hears(conn, e, ReportView::Lost(why)) == (e, HeardView::Lost(why)),
        client_hears(conn, e, ReportView::Lost(why)) == (e, HeardView::Lost(why)),
        server_hears(conn, e, ReportView::Connected) == opening(conn, e),
        client_hears(conn, e, ReportView::Connected) == (e, HeardView::Connected(false)),
        server_hears(conn, e, ReportView::Opened) == (e, HeardView::Idle),
        e.stream is Some ==> client_hears(conn, e, ReportView::Opened) == (e, HeardView::Idle),
        e.stream is None ==> client_hears(conn, e, ReportView::Opened) == accepting(conn, e),
        server_hears(conn, e, ReportView::Other) == (e, HeardView::Idle),
        client_hears(conn, e, ReportView::Other) == (e, HeardView::Idle),
        server_hears(conn, e, ReportView::Readable(s)) == client_hears(
            conn,
            e,
            ReportView::Readable(s),
        ),
        ({
            let (after, h) = server_hears(conn, e, ReportView::Readable(s));
            &&& !e.read.contains(s) ==> h == HeardView::Fed(unread(conn, s))
            &&& e.read.contains(s) ==> h == HeardView::Fed(Seq::empty())
            &&& after == (Ear { read: e.read.insert(s), ..e })
        }),
        !ended(conn) && e.free.len() > 0 ==> opening(conn, e).1 == HeardView::Connected(true)
            && opening(conn, e).0.stream == Some(
            Stream { by_server: held_by_server(conn), index: e.free[0] },
        ),
        ended(conn) || e.free.len() == 0 ==> opening(conn, e) == (e, HeardView::Connected(false)),
        e.offered.len() > 0 ==> accepting(conn, e).0.stream == Some(
            Stream { by_server: !held_by_server(conn), index: e.offered[0] },
        ),
        e.offered.len() == 0 ==> accepting(conn, e).0.stream is None && accepting(conn, e).1
            == HeardView::Fed(Seq::empty()),
{
}

/// Events travel whole: the frames a client's events are sent in read back as
/// those events, in order, with nothing left over.
pub proof fn events_travel_whole(events: Seq<(u16, Seq<u8>)>)
    requires
        forall|i: int| 0 <= i < events.len() ==> (#[trigger] events[i]).1.len() <= u32::MAX,
    ensures
        frames_of(event_frames(events)).1.len() == 0,
        frames_of(event_frames(events)).0.len() == events.len(),
        forall|i: int|
            0 <= i < events.len() ==> (#[trigger] frames_of(event_frames(events)).0[i]).ty
                == events[i].0 && frames_of(event_frames(events)).0[i].payload == events[i].1,
{
    let frames = events.map_values(|e: (u16, Seq<u8>)| FrameView { ty: e.0, payload: e.1 });
    assert forall|i: int| 0 <= i < frames.len() implies (#[trigger] frames[i]).payload.len()
        <= u32::MAX by {
        assert(events[i].1.len() <= u32::MAX);
    }
    frames_read_back(frames);
    event_frames_are_parts(events);
}

/// The events' frames, joined.
proof fn event_frames_are_parts(events: Seq<(u16, Seq<u8>)>)
    ensures
        event_frames(events) == cat(
            events.map_values(
                |e: (u16, Seq<u8>)| FrameView { ty: e.0, payload: e.1 },
            ).map_values(|f: FrameView| frame_bytes(f)),
        ),
    decreases events.len(),
{
    let g = |e: (u16, Seq<u8>)| FrameView { ty: e.0, payload: e.1 };
    let b = |f: FrameView| frame_bytes(f);
    if events.len() == 0 {
        assert(events.map_values(g).map_values(b) =~= Seq::<Seq<u8>>::empty());
    } else {
        let init = events.drop_last();
        event_frames_are_parts(init);
        let x = frame_bytes(g(events.last()));
        assert(events.map_values(g).map_values(b) =~= init.map_values(g).map_values(b).push(x));
        crate::snapshot::cat_push(init.map_values(g).map_values(b), x);
    }
}

/// A client's turn ends lost with an error, closed without one once it is
/// gone, and runs on otherwise; a welcome marks it connected under its id, and
/// its events go out only once it has one.
pub proof fn a_clients_turn_ends_as_it_stands(
    d: DialView,
    s: StatusView,
    peer: u8,
    events: Seq<(u16, Seq<u8>)>,
)
    ensures
        d.error is Some ==> client_turn_of(d) is Lost,
        d.error is None && d.gone ==> client_turn_of(d) is Closed,
        d.error is None && !d.gone ==> client_turn_of(d) is Ran,
        shaken(s, None) == s,
        shaken(s, Some(peer)) == (StatusView { peer, connected: true, ..s }),
        d.peer is None ==> dial_after(d, events) == (DialView { snapshots: Seq::empty(), ..d }),
        d.peer is Some ==> dial_after(d, events) == (DialView {
            snapshots: Seq::empty(),
            stream_out: d.stream_out + event_frames(events),
            ..d
        }),
{
}

/// Of datagrams offered one after another the last that is small enough is
/// queued last, and nothing is queued that was neither there nor offered.
pub proof fn offers_queue_in_order(
    before: Seq<Seq<u8>>,
    after: Seq<Seq<u8>>,
    data: Seq<Seq<u8>>,
    ceiling: Option<usize>,
)
    requires
        offered_all(before, after, data, ceiling),
    ensures
        data.len() == 0 ==> after == before,
        ceiling is None ==> after == before,
        data.len() > 0 && ceiling is Some && data.last().len() <= ceiling->0 ==> after.len() > 0
            && after.last() == data.last(),
        forall|x: Seq<u8>| #[trigger]
            after.contains(x) ==> before.contains(x) || data.contains(x),
    decreases data.len(),
{
    if data.len() > 0 {
        let init = data.drop_last();
        let last = data.last();
        let mid = choose|mid: Seq<Seq<u8>>|
            offered_all(before, mid, init, ceiling) && #[trigger] offered(
                mid,
                after,
                last,
                within(ceiling, last.len()),
            );
        offers_queue_in_order(before, mid, init, ceiling);
        assert(data[data.len() - 1] == last);
        assert forall|x: Seq<u8>| #[trigger] after.contains(x) implies before.contains(x)
            || data.contains(x) by {
            if within(ceiling, last.len()) {
                let k = choose|k: int|
                    0 <= k <= mid.len() && after == #[trigger] mid.skip(k).push(last);
                let j = choose|j: int| 0 <= j < after.len() && after[j] == x;
                if j < mid.skip(k).len() {
                    assert(mid[k + j] == x);
                    assert(mid.contains(x));
                }
            } else {
                assert(mid.contains(x));
            }
            if init.contains(x) {
                let j = choose|j: int| 0 <= j < init.len() && init[j] == x;
                assert(data[j] == x);
            }
        }
    }
}

/// A peer's line is the first with the handle its id leads to.
pub proof fn a_peer_has_its_line(d: SessionsView, lines: Seq<Line>, peer: u8)
    ensures
        d.routes[peer as int] is None ==> line_to(d, lines, peer) is None,
        d.routes[peer as int] matches Some(h) ==> match line_to(d, lines, peer) {
            Some(i) => 0 <= i < lines.len() && lines[i].handle == h && forall|j: int|
                0 <= j < i ==> (#[trigger] lines[j]).handle != h,
            None => forall|j: int| 0 <= j < lines.len() ==> (#[trigger] lines[j]).handle != h,
        },
{
    if let Some(h) = d.routes[peer as int] {
        let handles = handles_of(lines);
        a_handle_has_its_line(handles, h);
        assert forall|j: int| 0 <= j < lines.len() implies (#[trigger] lines[j]).handle
            == handles[j] by {}
    }
}

/// A flight: it starts on the peer's connection; each of its sends follows a
/// flight that goes on and offers the next snapshot to the connection where
/// the peer is up and the connection takes it; a peer the server knows gets at
/// least one, and the flight does not go on at its end; a stranger gets none.
pub proof fn a_flight_is_flown_to_its_end<P: WirePool>(
    f: Fleet,
    k: KernelView<P>,
    peer: u8,
    per_tick: usize,
    path: Seq<Option<Connection>>,
)
    requires
        flight_of(f, k, peer, per_tick, path),
    ensures
        ({
            let up = peer_up(f.sessions, peer);
            &&& path.len() >= 1
            &&& line_to(f.sessions, f.lines, peer) matches Some(i) ==> path[0] == Some(
                f.lines[i].conn,
            )
            &&& line_to(f.sessions, f.lines, peer) is None ==> path[0] is None
            &&& f.net.peers.contains_key(peer) ==> path.len() > 1 && !flying(
                f.net,
                k,
                peer,
                up,
                per_tick,
                path,
            ).go
            &&& !f.net.peers.contains_key(peer) ==> path.len() == 1
            &&& forall|n: int|
                1 <= n < path.len() ==> #[trigger] send_follows(
                    f.net,
                    k,
                    peer,
                    up,
                    per_tick,
                    path,
                    n,
                )
        }),
{
    sends_follow(f.net, k, peer, peer_up(f.sessions, peer), per_tick, path);
}

/// The `n`th send of a flight follows one that goes on, and offers its
/// snapshot as a datagram of kind 0 behind everything offered before.
pub open spec fn send_follows<P: WirePool>(
    s: ServerView,
    k: KernelView<P>,
    peer: u8,
    up: bool,
    per_tick: usize,
    path: Seq<Option<Connection>>,
    n: int,
) -> bool {
    let st = flying(s, k, peer, up, per_tick, path.take(n));
    let bytes = encode(next_snapshot(s, k, peer, st, path[n - 1]).message);
    &&& st.go
    &&& path[n - 1] is None ==> path[n] is None
    &&& path[n - 1] is Some ==> path[n] is Some
    &&& path[n - 1] is Some && up && datagram_limit(path[n - 1]->0) is Some && bytes.len()
        < datagram_limit(path[n - 1]->0)->0 ==> sent(
        path[n - 1]->0,
        path[n]->0,
        seq![0u8] + bytes,
    )
    &&& path[n - 1] is Some && !(up && datagram_limit(path[n - 1]->0) is Some && bytes.len()
        < datagram_limit(path[n - 1]->0)->0) ==> path[n] == path[n - 1]
}

/// Each send of a held flight follows the one before.
proof fn sends_follow<P: WirePool>(
    s: ServerView,
    k: KernelView<P>,
    peer: u8,
    up: bool,
    per_tick: usize,
    path: Seq<Option<Connection>>,
)
    requires
        flight_held(s, k, peer, up, per_tick, path),
    ensures
        path.len() >= 1,
        forall|n: int|
            1 <= n < path.len() ==> #[trigger] send_follows(s, k, peer, up, per_tick, path, n),
    decreases path.len(),
{
    if path.len() > 1 {
        let init = path.drop_last();
        sends_follow(s, k, peer, up, per_tick, init);
        assert forall|n: int| 1 <= n < path.len() implies #[trigger] send_follows(
            s,
            k,
            peer,
            up,
            per_tick,
            path,
            n,
        ) by {
            if n < path.len() - 1 {
                assert(send_follows(s, k, peer, up, per_tick, init, n));
                assert(init.take(n) =~= path.take(n));
            } else {
                assert(path.take(n) =~= init);
                assert(init.last() == path[n - 1]);
            }
        }
    }
}

/// A server tick: what the sessions collected goes in, and every peer the
/// server then knows has its flight, ascending; nothing of the state but what
/// the flights sent moves after that.
pub proof fn a_server_tick_flies_to_everybody<P: WirePool>(
    s: ServeView,
    f: Fleet,
    k: KernelView<P>,
    per_tick: usize,
    rows: Seq<EventRow>,
    peers: Seq<u8>,
    paths: Seq<Seq<Option<Connection>>>,
    after: (ServeView, Fleet),
    n: int,
)
    requires
        ticked(s, f, k, per_tick, rows, peers, paths, after),
        0 <= n < peers.len(),
    ensures
        ({
            let d = f.sessions;
            let mid = intake_of(s, d.joined, d.left, d.acks, d.inputs, rows);
            let start = Fleet { net: mid.net, sessions: emptied(d, s.inputs is Some), ..f };
            &&& event_rows(rows) == d.events
            &&& forall|p: u8| #[trigger] peers.contains(p) <==> mid.net.peers.contains_key(p)
            &&& forall|i: int, j: int| 0 <= i < j < peers.len() ==> peers[i] < peers[j]
            &&& paths.len() == peers.len()
            &&& flight_of(
                fleet_after_all(start, k, peers.take(n), per_tick, paths.take(n)),
                k,
                peers[n],
                per_tick,
                paths[n],
            )
            &&& after.1 == fleet_after_all(start, k, peers, per_tick, paths)
            &&& after.0 == (ServeView { net: after.1.net, ..mid })
        }),
{
    let d = f.sessions;
    let mid = intake_of(s, d.joined, d.left, d.acks, d.inputs, rows);
    let start = Fleet { net: mid.net, sessions: emptied(d, s.inputs is Some), ..f };
    each_flight_is_flown(start, k, peers, per_tick, paths, n);
}

/// Every flight of a run is flown on what those before left.
proof fn each_flight_is_flown<P: WirePool>(
    f: Fleet,
    k: KernelView<P>,
    peers: Seq<u8>,
    per_tick: usize,
    paths: Seq<Seq<Option<Connection>>>,
    n: int,
)
    requires
        flights_of(f, k, peers, per_tick, paths),
        0 <= n < peers.len(),
    ensures
        paths.len() == peers.len(),
        flight_of(
            fleet_after_all(f, k, peers.take(n), per_tick, paths.take(n)),
            k,
            peers[n],
            per_tick,
            paths[n],
        ),
    decreases peers.len(),
{
    let (a, b) = (peers.drop_last(), paths.drop_last());
    if n < peers.len() - 1 {
        each_flight_is_flown(f, k, a, per_tick, b, n);
        assert(a.take(n) =~= peers.take(n));
        assert(b.take(n) =~= paths.take(n));
    } else {
        assert(a =~= peers.take(n));
        assert(b =~= paths.take(n));
    }
}

/// What a flight leaves: the server's state after its sends, the drops
/// counted, and the peer's line with the connection as the flight left it;
/// other lines stay.
pub proof fn a_flight_leaves_other_lines<P: WirePool>(
    f: Fleet,
    k: KernelView<P>,
    peer: u8,
    per_tick: usize,
    path: Seq<Option<Connection>>,
    j: int,
)
    requires
        0 <= j < f.lines.len(),
    ensures
        ({
            let out = fleet_after(f, k, peer, per_tick, path);
            let st = flying(f.net, k, peer, peer_up(f.sessions, peer), per_tick, path);
            let at = line_to(f.sessions, f.lines, peer);
            &&& out.net == flown(f.net, k, peer, st.budgets)
            &&& f.sessions.oversize_drops + st.drops <= u32::MAX ==> out.sessions.oversize_drops
                == f.sessions.oversize_drops + st.drops
            &&& out.sessions == (SessionsView {
                oversize_drops: out.sessions.oversize_drops,
                ..f.sessions
            })
            &&& at is None ==> out.lines == f.lines
            &&& at is Some && at->0 != j ==> out.lines[j] == f.lines[j]
            &&& at == Some(j) ==> out.lines[j] == (Line { conn: path.last()->0, ..f.lines[j] })
        }),
{
    a_peer_has_its_line(f.sessions, f.lines, peer);
}

/// A client's tick applies the snapshots that came, in send order, and offers
/// an ack for each that read well; a welcome is taken notice of.
pub proof fn a_client_tick_applies_and_acks(
    s: StatusView,
    r: Replica,
    find: spec_fn(u16) -> Option<(int, nat)>,
    d: DialView,
    snaps: Seq<SnapBuf>,
    after: (StatusView, Replica),
    conns: (Connection, Connection),
)
    requires
        applied_and_acked(s, r, find, d, snaps, after, conns),
    ensures
        ({
            let taken = snaps_taken(
                StatusView { applied: Seq::empty(), ..s },
                r,
                find,
                stable_sort(snaps),
            );
            let acks = Seq::new(taken.2.len(), |i: int| ack_bytes(taken.2[i].0, taken.2[i].1));
            &&& snaps.len() == d.snapshots.len()
            &&& forall|i: int|
                0 <= i < snaps.len() ==> (#[trigger] snaps[i]).bytes@ == d.snapshots[i]
            &&& after.1 == taken.1
            &&& d.peer is None ==> after.0 == taken.0
            &&& d.peer is Some ==> after.0 == (StatusView {
                peer: d.peer->0,
                connected: true,
                ..taken.0
            })
            &&& offered_all(
                datagrams_queued(conns.0),
                datagrams_queued(conns.1),
                acks,
                datagram_ceiling(conns.0),
            )
        }),
{
    let taken = snaps_taken(StatusView { applied: Seq::empty(), ..s }, r, find, stable_sort(snaps));
    let acks = Seq::new(taken.2.len(), |i: int| ack_bytes(taken.2[i].0, taken.2[i].1));
    assert(acks =~= ack_datagrams(taken.2));
    assert forall|i: int| 0 <= i < snaps.len() implies (#[trigger] snaps[i]).bytes@
        == d.snapshots[i] by {
        assert(snap_bytes(snaps)[i] == snaps[i].bytes@);
    }
}

/// What a connection is handed of a stream is what it has room for, from the
/// front, behind what it holds; datagrams and standing stay.
pub proof fn a_stream_hands_over_what_fits(
    a: Connection,
    b: Connection,
    s: Stream,
    out: Seq<u8>,
)
    requires
        handed(a, b, s, out),
    ensures
        ({
            let room = stream_room(a, s.by_server, s.index);
            let held = stream_held(b, s.by_server, s.index);
            &&& out.len() <= room ==> held == stream_held(a, s.by_server, s.index) + out
            &&& out.len() > room ==> held == stream_held(a, s.by_server, s.index) + out.take(
                room as int,
            )
            &&& same_standing(a, b)
            &&& datagrams_waiting(b) == datagrams_waiting(a)
            &&& datagrams_queued(b) == datagrams_queued(a)
        }),
{
    assert(out.take(out.len() as int) =~= out);
}

/// A server turn hears every line out and closes each for the first reason it
/// or its admission gave.
pub proof fn a_server_turn_answers_every_line(
    d: SessionsView,
    before: Seq<Line>,
    after: Seq<Line>,
    now: u64,
    k: int,
)
    requires
        answered(d, before, after, now),
        0 <= k < before.len(),
    ensures
        ({
            let said = Seq::new(
                before.len(),
                |i: int| says(before[i].conn, before[i].stream, true).0,
            );
            let handles = Seq::new(before.len(), |i: int| before[i].handle);
            let state = turns(d, handles.take(k), now, said.take(k));
            let own = turn(state, handles[k], now, said[k]).1;
            let theirs = reasons_for(served(d, handles, now, said).1, handles[k]);
            &&& after.len() == before.len()
            &&& after[k].handle == before[k].handle
            &&& after[k].stream == says(before[k].conn, before[k].stream, true).1
            &&& reports_waiting(after[k].conn).len() == 0
            &&& datagrams_waiting(after[k].conn).len() == 0
            &&& datagrams_queued(after[k].conn) == datagrams_queued(before[k].conn)
            &&& parted(before[k].conn, after[k].conn, own + theirs)
        }),
{
    let said = Seq::new(before.len(), |i: int| says(before[i].conn, before[i].stream, true).0);
    let handles = Seq::new(before.len(), |i: int| before[i].handle);
    assert(said =~= said_by_all(before));
    assert(handles =~= handles_of(before));
    assert(heard_out(before[k], after[k]));
}

} // verus!
