//! The two ends of the door on a live connection.
//!
//! `quinn_proto` is a state machine without I/O: what arrived on the socket
//! goes in elsewhere, and this module asks the connection what that meant,
//! tells the session about it, and hands back what the session wants sent.
//! The calls into the connection are trusted; everything decided from their
//! answers is in [`hear`] and [`attend`], which take the answers as plain
//! values.

use vstd::prelude::*;

use std::time::Instant;

use quinn_proto::{Connection, Dir, Event, Side, StreamEvent, StreamId};

use crate::dial::{answers, Dial, DialView};
use crate::frame::{
    ack_bytes, fields_bytes, frame_bytes, frame_reads_back, frames_of, inputs_bytes, ring_pushed,
    ring_sound, view_datagram, FrameView, DGRAM_INPUT, DGRAM_SNAPSHOT, DGRAM_VIEW,
};
use crate::session::{
    admitted_all, at_handle, connected_at, datagram_at, drained_at, fed_at,
    frames_answer_in_order, frames_at, lost_at, overdue, password_fits, place, place_found,
    sessions_wf, stream_read_at, with_conn, Close, ConnView, Reason, Sessions, SessionsView,
    FRAME_AUTH, SNAPSHOT_BUDGET_DEFAULT,
};
use crate::wire::put_bytes;

verus! {

/// The most bytes one read takes off a stream.
pub const CHUNK_MOST: usize = 65_536;

/// Stream numbers lie below this: two bits of a stream's id say who opened
/// it and which ways it runs.
pub const STREAM_NUMBERS: u64 = 0x4000_0000_0000_0000;

// --- the connection ---------------------------------------------------------

/// A QUIC connection, opaque here.
#[verifier::external_type_specification]
#[verifier::external_body]
pub struct ExConnection(quinn_proto::Connection);

/// A moment on the machine's clock, opaque here.
#[verifier::external_type_specification]
#[verifier::external_body]
pub struct ExInstant(std::time::Instant);

/// The datagrams that arrived on a connection and were not taken yet,
/// oldest first.
pub uninterp spec fn datagrams_waiting(conn: Connection) -> Seq<Seq<u8>>;

/// The datagrams a connection holds for sending, oldest first.
pub uninterp spec fn datagrams_queued(conn: Connection) -> Seq<Seq<u8>>;

/// What one datagram on a connection may hold, `None` while unknown.
pub uninterp spec fn datagram_limit(conn: Connection) -> Option<usize>;

/// The most bytes a datagram handed to a connection for sending may hold,
/// `None` while it sends none.
pub uninterp spec fn datagram_ceiling(conn: Connection) -> Option<usize>;

/// Room left in a connection's outgoing datagram buffer.
pub uninterp spec fn datagram_slack(conn: Connection) -> usize;

/// The bytes that in-order reads of at most `most` bytes each take off a
/// stream, until there is nothing to read.
pub uninterp spec fn stream_unread(
    conn: Connection,
    by_server: bool,
    two_way: bool,
    index: u64,
    most: usize,
) -> Seq<u8>;

/// How many bytes a two-way stream takes for sending now.
pub uninterp spec fn stream_room(conn: Connection, by_server: bool, index: u64) -> usize;

/// The bytes a two-way stream was handed for sending and that the other end
/// did not confirm yet, oldest first.
pub uninterp spec fn stream_held(conn: Connection, by_server: bool, index: u64) -> Seq<u8>;

/// What a connection has to report, oldest first.
pub uninterp spec fn reports_waiting(conn: Connection) -> Seq<ReportView>;

/// The numbers of the two-way streams this end may open, next first.
pub uninterp spec fn streams_free(conn: Connection) -> Seq<u64>;

/// The numbers of the two-way streams the other end opened and this end did
/// not take yet, oldest first.
pub uninterp spec fn streams_offered(conn: Connection) -> Seq<u64>;

/// Whether this end of a connection is the server's.
pub uninterp spec fn held_by_server(conn: Connection) -> bool;

/// Whether a connection has ended, whichever end or failure ended it.
pub uninterp spec fn ended(conn: Connection) -> bool;

/// The code and text this end closed a connection with, if it did.
pub uninterp spec fn goodbye(conn: Connection) -> Option<(u32, Seq<char>)>;

/// Whether an ended connection has nothing left to say.
pub uninterp spec fn drained(conn: Connection) -> bool;

/// A connection goes on as before, or stays ended as before.
pub open spec fn same_standing(a: Connection, b: Connection) -> bool {
    &&& held_by_server(b) == held_by_server(a)
    &&& ended(b) == ended(a)
    &&& goodbye(b) == goodbye(a)
}

/// A connection keeps its standing and its datagrams in both directions.
pub open spec fn undisturbed(a: Connection, b: Connection) -> bool {
    &&& same_standing(a, b)
    &&& datagrams_waiting(b) == datagrams_waiting(a)
    &&& datagrams_queued(b) == datagrams_queued(a)
}

/// A two-way stream of a connection: who opened it, and its number among
/// those.
#[derive(Clone, Copy, PartialEq, Eq, Debug, Structural)]
pub struct Stream {
    pub by_server: bool,
    pub index: u64,
}

/// A stream to read from: who opened it, whether it runs both ways, and its
/// number among those.
#[derive(Clone, Copy, PartialEq, Eq, Debug, Structural)]
pub struct Inlet {
    pub by_server: bool,
    pub two_way: bool,
    pub index: u64,
}

/// What a connection reports.
#[derive(Clone, PartialEq, Eq, Debug)]
pub enum Report {
    /// The handshake completed.
    Connected,
    /// The connection is lost, and why.
    Lost(String),
    /// The other end opened a two-way stream.
    Opened,
    /// A stream has bytes to read.
    Readable(Inlet),
    /// Something of no interest here.
    Other,
}

/// [`Report`] as contracts see it.
#[verifier::ext_equal]
pub enum ReportView {
    Connected,
    Lost(Seq<char>),
    Opened,
    Readable(Inlet),
    Other,
}

impl View for Report {
    type V = ReportView;

    open spec fn view(&self) -> ReportView {
        match self {
            Report::Connected => ReportView::Connected,
            Report::Lost(why) => ReportView::Lost(why@),
            Report::Opened => ReportView::Opened,
            Report::Readable(s) => ReportView::Readable(*s),
            Report::Other => ReportView::Other,
        }
    }
}

/// A connection keeps its streams: those to open, those to take, and what is
/// to be read on each.
pub open spec fn streams_kept(a: Connection, b: Connection) -> bool {
    &&& streams_free(b) == streams_free(a)
    &&& streams_offered(b) == streams_offered(a)
    &&& forall|s: Inlet| #[trigger] unread(b, s) == unread(a, s)
}

/// Calls `quinn_proto::Connection::poll`: takes the oldest event, one report
/// per event. Which events there are, the wire decides; a stream reported is
/// one with a number. Polling takes no datagram in either direction, leaves
/// the streams alone and ends nothing.
#[verifier::external_body]
fn poll_report(conn: &mut Connection) -> (r: Option<Report>)
    ensures
        match r {
            Some(x) => reports_waiting(*old(conn)) == seq![x@] + reports_waiting(*final(conn)),
            None => reports_waiting(*old(conn)).len() == 0 && reports_waiting(
                *final(conn),
            ).len() == 0,
        },
        r matches Some(Report::Readable(s)) ==> s.index < STREAM_NUMBERS,
        streams_kept(*old(conn), *final(conn)),
        undisturbed(*old(conn), *final(conn)),
{
    Some(match conn.poll()? {
        Event::Connected => Report::Connected,
        Event::ConnectionLost { reason } => Report::Lost(reason.to_string()),
        Event::Stream(StreamEvent::Opened { dir: Dir::Bi }) => Report::Opened,
        Event::Stream(StreamEvent::Readable { id }) => Report::Readable(
            Inlet {
                by_server: id.initiator().is_server(),
                two_way: matches!(id.dir(), Dir::Bi),
                index: id.index(),
            },
        ),
        _ => Report::Other,
    })
}

/// Calls `quinn_proto::Connection::side`: which end of the connection this
/// is.
#[verifier::external_body]
fn side_of(conn: &Connection) -> (r: bool)
    ensures
        r == held_by_server(*conn),
{
    conn.side().is_server()
}

/// Calls `quinn_proto::Streams::open` for a two-way stream: the next free
/// one, or `None` when there is none or the connection ended. How many there
/// are is up to the other end. Nothing is to be read on it yet.
#[verifier::external_body]
fn stream_open(conn: &mut Connection) -> (r: Option<Stream>)
    ensures
        r == (if ended(*old(conn)) || streams_free(*old(conn)).len() == 0 {
            None
        } else {
            Some(
                Stream {
                    by_server: held_by_server(*old(conn)),
                    index: streams_free(*old(conn))[0],
                },
            )
        }),
        r matches Some(s) ==> s.index < STREAM_NUMBERS,
        streams_free(*final(conn)) == if r is Some {
            streams_free(*old(conn)).drop_first()
        } else {
            streams_free(*old(conn))
        },
        streams_offered(*final(conn)) == streams_offered(*old(conn)),
        forall|s: Inlet| #[trigger] unread(*final(conn), s) == unread(*old(conn), s),
        reports_waiting(*final(conn)) == reports_waiting(*old(conn)),
        undisturbed(*old(conn), *final(conn)),
{
    let id = conn.streams().open(Dir::Bi)?;
    Some(Stream { by_server: id.initiator().is_server(), index: id.index() })
}

/// Calls `quinn_proto::Streams::accept` for a two-way stream: takes the
/// oldest one the other end opened, or `None` when there is none.
#[verifier::external_body]
fn stream_accept(conn: &mut Connection) -> (r: Option<Stream>)
    ensures
        r == (if streams_offered(*old(conn)).len() == 0 {
            None
        } else {
            Some(
                Stream {
                    by_server: !held_by_server(*old(conn)),
                    index: streams_offered(*old(conn))[0],
                },
            )
        }),
        r matches Some(s) ==> s.index < STREAM_NUMBERS,
        streams_offered(*final(conn)) == if r is Some {
            streams_offered(*old(conn)).drop_first()
        } else {
            streams_offered(*old(conn))
        },
        streams_free(*final(conn)) == streams_free(*old(conn)),
        forall|s: Inlet| #[trigger] unread(*final(conn), s) == unread(*old(conn), s),
        reports_waiting(*final(conn)) == reports_waiting(*old(conn)),
        undisturbed(*old(conn), *final(conn)),
{
    let id = conn.streams().accept(Dir::Bi)?;
    Some(Stream { by_server: id.initiator().is_server(), index: id.index() })
}

/// Calls `quinn_proto::Chunks::next` on an ordered read of a stream: the
/// next unread bytes, at least one and at most `most`, or `None` when there
/// are none to read now. Which bytes those are is up to the other end. The
/// other streams and the reports stay. A one-way stream is read by the end
/// that did not open it. Numbers past the last one would name other streams
/// again, so nothing is said of them.
#[verifier::external_body]
fn chunk_take(conn: &mut Connection, s: Inlet, most: usize) -> (r: Option<Vec<u8>>)
    requires
        most > 0,
        s.index < STREAM_NUMBERS,
        s.two_way || s.by_server != held_by_server(*old(conn)),
    ensures
        ({
            let before = stream_unread(*old(conn), s.by_server, s.two_way, s.index, most);
            let after = stream_unread(*final(conn), s.by_server, s.two_way, s.index, most);
            match r {
                Some(b) => 0 < b@.len() <= most && before == b@ + after,
                None => before.len() == 0 && after.len() == 0,
            }
        }),
        forall|x: Inlet|
            x != s && x.index < STREAM_NUMBERS ==> #[trigger] stream_unread(
                *final(conn),
                x.by_server,
                x.two_way,
                x.index,
                most,
            ) == stream_unread(*old(conn), x.by_server, x.two_way, x.index, most),
        streams_free(*final(conn)) == streams_free(*old(conn)),
        streams_offered(*final(conn)) == streams_offered(*old(conn)),
        reports_waiting(*final(conn)) == reports_waiting(*old(conn)),
        undisturbed(*old(conn), *final(conn)),
{
    let side = if s.by_server { Side::Server } else { Side::Client };
    let dir = if s.two_way { Dir::Bi } else { Dir::Uni };
    let mut recv = conn.recv_stream(StreamId::new(side, dir, s.index));
    let mut chunks = recv.read(true).ok()?;
    let next = chunks.next(most);
    let _ = chunks.finalize();
    Some(next.ok()??.bytes.to_vec())
}

/// The smaller of two numbers.
pub open spec fn least(a: int, b: int) -> int {
    if a <= b {
        a
    } else {
        b
    }
}

/// Calls `quinn_proto::SendStream::write`: how many bytes off the front of
/// `data` the stream took, as many as it has room for, or `None` when it
/// takes none now. What it took it holds behind what it held.
#[verifier::external_body]
fn stream_push(conn: &mut Connection, s: Stream, data: &[u8]) -> (r: Option<usize>)
    ensures
        match r {
            Some(n) => n == least(
                stream_room(*old(conn), s.by_server, s.index) as int,
                data@.len() as int,
            ) && stream_held(*final(conn), s.by_server, s.index) == stream_held(
                *old(conn),
                s.by_server,
                s.index,
            ) + data@.take(n as int),
            None => stream_room(*old(conn), s.by_server, s.index) == 0 && stream_held(
                *final(conn),
                s.by_server,
                s.index,
            ) == stream_held(*old(conn), s.by_server, s.index),
        },
        undisturbed(*old(conn), *final(conn)),
{
    let side = if s.by_server { Side::Server } else { Side::Client };
    conn.send_stream(StreamId::new(side, Dir::Bi, s.index)).write(data).ok()
}

/// Calls `quinn_proto::Datagrams::recv`: takes the oldest waiting datagram.
#[verifier::external_body]
fn datagram_take(conn: &mut Connection) -> (r: Option<Vec<u8>>)
    ensures
        match r {
            Some(d) => datagrams_waiting(*old(conn)) == seq![d@] + datagrams_waiting(
                *final(conn),
            ),
            None => datagrams_waiting(*old(conn)).len() == 0 && datagrams_waiting(
                *final(conn),
            ).len() == 0,
        },
        datagrams_queued(*final(conn)) == datagrams_queued(*old(conn)),
        streams_kept(*old(conn), *final(conn)),
        reports_waiting(*final(conn)) == reports_waiting(*old(conn)),
        same_standing(*old(conn), *final(conn)),
{
    Some(conn.datagrams().recv()?.to_vec())
}

/// Whether a datagram of this many bytes is under the ceiling.
pub open spec fn within(ceiling: Option<usize>, len: nat) -> bool {
    ceiling matches Some(most) && len <= most
}

/// What offering a datagram for sending does to the queue: one that can be
/// sent goes to the end, and the oldest may make room for it; one that
/// cannot changes nothing.
pub open spec fn offered(
    before: Seq<Seq<u8>>,
    after: Seq<Seq<u8>>,
    data: Seq<u8>,
    sendable: bool,
) -> bool {
    if sendable {
        exists|k: int| 0 <= k <= before.len() && after == #[trigger] before.skip(k).push(data)
    } else {
        after == before
    }
}

/// A datagram was offered to a connection for sending: it is queued exactly
/// when it is under the ceiling, and nothing makes room for it when there is
/// room. What arrived, the limits and the connection's standing stay.
pub open spec fn sent(a: Connection, b: Connection, data: Seq<u8>) -> bool {
    &&& offered(
        datagrams_queued(a),
        datagrams_queued(b),
        data,
        within(datagram_ceiling(a), data.len()),
    )
    &&& within(datagram_ceiling(a), data.len()) && 0 < datagram_slack(a) && data.len()
        <= datagram_slack(a) ==> datagrams_queued(b) == datagrams_queued(a).push(data)
    &&& datagram_ceiling(b) == datagram_ceiling(a)
    &&& datagram_limit(b) == datagram_limit(a)
    &&& datagrams_waiting(b) == datagrams_waiting(a)
    &&& same_standing(a, b)
}

/// Calls `quinn_proto::Datagrams::send`, letting older datagrams make room:
/// `true` when the datagram was queued behind what is left of the older
/// ones, `false` when it is over the ceiling and the queue stays as it was.
#[verifier::external_body]
fn datagram_push(conn: &mut Connection, data: Vec<u8>) -> (r: bool)
    ensures
        r == within(datagram_ceiling(*old(conn)), data@.len()),
        sent(*old(conn), *final(conn), data@),
{
    conn.datagrams().send(data.into(), true).is_ok()
}

/// Calls `quinn_proto::Datagrams::max_size`: what one datagram may hold,
/// `None` while unknown. A connection in the same state gives the same
/// answer, and asking changes nothing; nothing more is claimed, the number
/// follows the path.
#[verifier::external_body]
fn datagram_room(conn: &mut Connection) -> (r: Option<usize>)
    ensures
        r == datagram_limit(*old(conn)),
        *final(conn) == *old(conn),
{
    conn.datagrams().max_size()
}

/// Calls `quinn_proto::Datagrams::send_buffer_space`. A connection in the
/// same state gives the same answer, and asking changes nothing; nothing
/// more is claimed, the number follows what was sent.
#[verifier::external_body]
fn datagram_space(conn: &mut Connection) -> (r: usize)
    ensures
        r == datagram_slack(*old(conn)),
        *final(conn) == *old(conn),
{
    conn.datagrams().send_buffer_space()
}

/// Calls `quinn_proto::Connection::close` with an application code and
/// text: a connection that had not ended is closed with them, one that had
/// stays as it was. Queued datagrams and reports are not taken back.
#[verifier::external_body]
fn hang_up(conn: &mut Connection, at: Instant, code: u32, text: &str)
    ensures
        ended(*final(conn)),
        goodbye(*final(conn)) == if ended(*old(conn)) {
            goodbye(*old(conn))
        } else {
            Some((code, text@))
        },
        held_by_server(*final(conn)) == held_by_server(*old(conn)),
        reports_waiting(*final(conn)) == reports_waiting(*old(conn)),
        datagrams_waiting(*final(conn)) == datagrams_waiting(*old(conn)),
        datagrams_queued(*final(conn)) == datagrams_queued(*old(conn)),
{
    conn.close(at, code.into(), text.as_bytes().to_vec().into());
}

/// Calls `quinn_proto::Connection::is_drained`. A connection in the same
/// state gives the same answer; nothing more is claimed, the wire and the
/// clock decide.
#[verifier::external_body]
fn is_drained(conn: &Connection) -> (r: bool)
    ensures
        r == drained(*conn),
{
    conn.is_drained()
}

// --- what was heard ----------------------------------------------------------

/// What a connection had to say, in plain values.
#[derive(Clone, PartialEq, Eq, Debug)]
pub enum Heard {
    /// The handshake completed, and whether the reliable stream opened.
    Connected(bool),
    /// The connection is lost, and why.
    Lost(String),
    /// Stream bytes.
    Fed(Vec<u8>),
    /// A datagram.
    Datagram(Vec<u8>),
    /// Nothing of interest.
    Idle,
}

/// [`Heard`] as contracts see it.
#[verifier::ext_equal]
pub enum HeardView {
    Connected(bool),
    Lost(Seq<char>),
    Fed(Seq<u8>),
    Datagram(Seq<u8>),
    Idle,
}

impl View for Heard {
    type V = HeardView;

    open spec fn view(&self) -> HeardView {
        match self {
            Heard::Connected(opened) => HeardView::Connected(*opened),
            Heard::Lost(why) => HeardView::Lost(why@),
            Heard::Fed(b) => HeardView::Fed(b@),
            Heard::Datagram(d) => HeardView::Datagram(d@),
            Heard::Idle => HeardView::Idle,
        }
    }
}

/// What was heard as plain values.
pub open spec fn heard_views(hs: Seq<Heard>) -> Seq<HeardView> {
    hs.map_values(|h: Heard| h@)
}

/// One thing the server heard from a connection.
pub open spec fn heard_one(d: SessionsView, handle: usize, now: u64, h: HeardView) -> SessionsView {
    match h {
        HeardView::Connected(opened) => at_handle(
            d,
            handle,
            |i: int| connected_at(d, i, opened),
        ),
        HeardView::Lost(_) => at_handle(d, handle, |i: int| lost_at(d, i, now)),
        HeardView::Fed(b) => at_handle(d, handle, |i: int| fed_at(d, i, b)),
        HeardView::Datagram(b) => at_handle(d, handle, |i: int| datagram_at(d, i, b)),
        HeardView::Idle => d,
    }
}

/// Everything the server heard from a connection, in order.
pub open spec fn heard_all(
    d: SessionsView,
    handle: usize,
    now: u64,
    hs: Seq<HeardView>,
) -> SessionsView
    decreases hs.len(),
{
    if hs.len() == 0 {
        d
    } else {
        heard_one(heard_all(d, handle, now, hs.drop_last()), handle, now, hs.last())
    }
}

/// A connection's turn: what it had to say, then the whole frames that
/// completes, then whether it sat at the door too long. Gives the session
/// and the reasons to close, in order.
pub open spec fn turn(
    d: SessionsView,
    handle: usize,
    now: u64,
    hs: Seq<HeardView>,
) -> (SessionsView, Seq<Reason>) {
    let mid = heard_all(d, handle, now, hs);
    let read = match place(mid.conns, handle) {
        Some(i) => stream_read_at(mid, i),
        None => (mid, Seq::empty()),
    };
    (
        read.0,
        match place(read.0.conns, handle) {
            Some(i) => if overdue(read.0.conns[i], now) {
                read.1.push(Reason::AuthTimeout)
            } else {
                read.1
            },
            None => read.1,
        },
    )
}

/// Tell the server's sessions what a connection had to say.
pub fn hear(sessions: &mut Sessions, handle: usize, now: u64, heard: &Vec<Heard>) -> (r: Vec<
    Reason,
>)
    ensures
        (final(sessions)@, r@) == turn(old(sessions)@, handle, now, heard_views(heard@)),
{
    let ghost d0 = sessions@;
    let ghost hs = heard_views(heard@);
    assert(hs.take(0) =~= Seq::<HeardView>::empty());
    let mut k: usize = 0;
    while k < heard.len()
        invariant
            k <= heard@.len(),
            hs == heard_views(heard@),
            sessions@ == heard_all(d0, handle, now, hs.take(k as int)),
        decreases heard@.len() - k,
    {
        proof {
            assert(hs.take(k + 1).drop_last() =~= hs.take(k as int));
            assert(hs.take(k + 1).last() == heard@[k as int]@);
        }
        match &heard[k] {
            Heard::Connected(opened) => sessions.connected(handle, *opened),
            Heard::Lost(_) => sessions.lost(handle, now),
            Heard::Fed(b) => sessions.fed(handle, b.as_slice()),
            Heard::Datagram(b) => sessions.datagram(handle, b.as_slice()),
            Heard::Idle => {},
        }
        k += 1;
    }
    assert(hs.take(k as int) =~= hs);
    let mut out: Vec<Reason> = sessions.frames(handle);
    if sessions.timed_out(handle, now) {
        out.push(Reason::AuthTimeout);
    }
    out
}

/// One thing the client heard.
pub open spec fn told_one(d: DialView, h: HeardView) -> DialView {
    match h {
        HeardView::Connected(_) => DialView { connected: true, ..d },
        HeardView::Lost(why) => DialView {
            gone: true,
            error: match d.error {
                Some(e) => Some(e),
                None => Some(why),
            },
            ..d
        },
        HeardView::Fed(b) => DialView { stream_in: d.stream_in + b, ..d },
        HeardView::Datagram(b) => if b.len() > 0 && b[0] == DGRAM_SNAPSHOT {
            DialView { snapshots: d.snapshots.push(b.skip(1)), ..d }
        } else {
            d
        },
        HeardView::Idle => d,
    }
}

/// Everything the client heard, in order.
pub open spec fn told_all(d: DialView, hs: Seq<HeardView>) -> DialView
    decreases hs.len(),
{
    if hs.len() == 0 {
        d
    } else {
        told_one(told_all(d, hs.drop_last()), hs.last())
    }
}

/// The client's turn: what the connection had to say, then the whole frames
/// that completes. Gives the session and the reasons to close, in order.
pub open spec fn client_turn(d: DialView, hs: Seq<HeardView>) -> (DialView, Seq<Reason>) {
    let mid = told_all(d, hs);
    let read = frames_of(mid.stream_in);
    answers(DialView { stream_in: read.1, ..mid }, read.0)
}

/// Tell the client's session what its connection had to say.
pub fn attend(dial: &mut Dial, heard: &Vec<Heard>) -> (r: Vec<Reason>)
    ensures
        (final(dial)@, r@) == client_turn(old(dial)@, heard_views(heard@)),
{
    let ghost d0 = dial@;
    let ghost hs = heard_views(heard@);
    assert(hs.take(0) =~= Seq::<HeardView>::empty());
    let mut k: usize = 0;
    while k < heard.len()
        invariant
            k <= heard@.len(),
            hs == heard_views(heard@),
            dial@ == told_all(d0, hs.take(k as int)),
        decreases heard@.len() - k,
    {
        proof {
            assert(hs.take(k + 1).drop_last() =~= hs.take(k as int));
            assert(hs.take(k + 1).last() == heard@[k as int]@);
        }
        match &heard[k] {
            Heard::Connected(_) => dial.connected(),
            Heard::Lost(why) => dial.lost(why.as_str()),
            Heard::Fed(b) => dial.fed(b.as_slice()),
            Heard::Datagram(b) => dial.datagram(b.as_slice()),
            Heard::Idle => {},
        }
        k += 1;
    }
    assert(hs.take(k as int) =~= hs);
    dial.frames()
}

// --- asking the connection ---------------------------------------------------

/// What this end has to read on a stream: nothing on a one-way stream it
/// opened itself, nor where no stream has that number.
pub open spec fn unread(conn: Connection, s: Inlet) -> Seq<u8> {
    if s.index >= STREAM_NUMBERS || (!s.two_way && s.by_server == held_by_server(conn)) {
        Seq::empty()
    } else {
        stream_unread(conn, s.by_server, s.two_way, s.index, CHUNK_MOST)
    }
}

/// A connection keeps its reports and every stream but one.
pub open spec fn others_unread(a: Connection, b: Connection, s: Inlet) -> bool {
    &&& streams_free(b) == streams_free(a)
    &&& streams_offered(b) == streams_offered(a)
    &&& reports_waiting(b) == reports_waiting(a)
    &&& forall|x: Inlet| x != s ==> #[trigger] unread(b, x) == unread(a, x)
}

proof fn others_unread_chain(a: Connection, b: Connection, c: Connection, s: Inlet)
    requires
        others_unread(a, b, s),
        same_standing(b, c),
        streams_free(c) == streams_free(b),
        streams_offered(c) == streams_offered(b),
        reports_waiting(c) == reports_waiting(b),
        forall|x: Inlet|
            x != s && x.index < STREAM_NUMBERS ==> #[trigger] stream_unread(
                c,
                x.by_server,
                x.two_way,
                x.index,
                CHUNK_MOST,
            ) == stream_unread(b, x.by_server, x.two_way, x.index, CHUNK_MOST),
    ensures
        others_unread(a, c, s),
{
    assert forall|x: Inlet| x != s implies #[trigger] unread(c, x) == unread(a, x) by {
        assert(unread(b, x) == unread(a, x));
        if x.index < STREAM_NUMBERS {
            assert(stream_unread(c, x.by_server, x.two_way, x.index, CHUNK_MOST) == stream_unread(
                b,
                x.by_server,
                x.two_way,
                x.index,
                CHUNK_MOST,
            ));
        }
    }
}

/// Read everything a stream has now, onto the end of `into`. A one-way
/// stream this end opened has nothing to read, nor has a number no stream
/// can have.
pub fn stream_read(conn: &mut Connection, s: Inlet, into: &mut Vec<u8>)
    ensures
        final(into)@ == old(into)@ + unread(*old(conn), s),
        unread(*final(conn), s) == Seq::<u8>::empty(),
        others_unread(*old(conn), *final(conn), s),
        undisturbed(*old(conn), *final(conn)),
{
    let ghost c0 = *conn;
    let ghost start = into@;
    if s.index >= STREAM_NUMBERS || (!s.two_way && s.by_server == side_of(conn)) {
        assert(start + unread(c0, s) =~= start);
        return;
    }
    loop
        invariant
            s.index < STREAM_NUMBERS,
            s.two_way || s.by_server != held_by_server(*conn),
            start + unread(c0, s) == into@ + unread(*conn, s),
            others_unread(c0, *conn, s),
            undisturbed(c0, *conn),
        ensures
            start + unread(c0, s) == into@,
            unread(*conn, s).len() == 0,
            others_unread(c0, *conn, s),
            undisturbed(c0, *conn),
        decreases unread(*conn, s).len(),
    {
        let ghost got = into@;
        let ghost was = *conn;
        let ghost rest = unread(*conn, s);
        match chunk_take(conn, s, CHUNK_MOST) {
            Some(b) => {
                put_bytes(into, b.as_slice());
                proof {
                    assert(rest == b@ + unread(*conn, s));
                    assert(got + rest =~= into@ + unread(*conn, s));
                    others_unread_chain(c0, was, *conn, s);
                }
            },
            None => {
                proof {
                    assert(got + rest =~= got);
                    others_unread_chain(c0, was, *conn, s);
                }
                break;
            },
        }
    }
}

/// What a stream takes of the bytes that wait for it.
pub open spec fn takes(conn: Connection, s: Stream, out: Seq<u8>) -> int {
    least(stream_room(conn, s.by_server, s.index) as int, out.len() as int)
}

/// A stream was handed the front of `out`, as much as it had room for.
pub open spec fn handed(a: Connection, b: Connection, s: Stream, out: Seq<u8>) -> bool {
    &&& stream_held(b, s.by_server, s.index) == stream_held(a, s.by_server, s.index) + out.take(
        takes(a, s, out),
    )
    &&& undisturbed(a, b)
}

/// Hand the stream what waits in `out`; what it took leaves the front.
pub fn stream_flush(conn: &mut Connection, s: Stream, out: &mut Vec<u8>)
    ensures
        final(out)@ == old(out)@.skip(takes(*old(conn), s, old(out)@)),
        handed(*old(conn), *final(conn), s, old(out)@),
{
    let ghost start = out@;
    let ghost held = stream_held(*conn, s.by_server, s.index);
    proof {
        assert(start.skip(0) =~= start);
        assert(held + start.take(0) =~= held);
    }
    if out.len() == 0 {
        return;
    }
    if let Some(n) = stream_push(conn, s, out.as_slice()) {
        let len: usize = out.len();
        let rest: Vec<u8> = crate::wire::cut(out.as_slice(), n, len);
        *out = rest;
        assert(out@ =~= start.skip(n as int));
    }
}

/// Take every datagram that arrived, oldest first.
pub fn datagrams_read(conn: &mut Connection, out: &mut Vec<Heard>)
    ensures
        heard_views(final(out)@) == heard_views(old(out)@) + datagrams_waiting(
            *old(conn),
        ).map_values(|d: Seq<u8>| HeardView::Datagram(d)),
        datagrams_waiting(*final(conn)).len() == 0,
        datagrams_queued(*final(conn)) == datagrams_queued(*old(conn)),
        streams_kept(*old(conn), *final(conn)),
        reports_waiting(*final(conn)) == reports_waiting(*old(conn)),
        same_standing(*old(conn), *final(conn)),
{
    let ghost all = datagrams_waiting(*conn);
    let ghost queued = datagrams_queued(*conn);
    let ghost c0 = *conn;
    let ghost start = heard_views(out@);
    let ghost mut k: int = 0;
    assert(all.skip(0) =~= all);
    assert(start =~= start + all.take(0).map_values(|d: Seq<u8>| HeardView::Datagram(d)));
    loop
        invariant
            0 <= k <= all.len(),
            datagrams_waiting(*conn) == all.skip(k),
            datagrams_queued(*conn) == queued,
            streams_kept(c0, *conn),
            reports_waiting(*conn) == reports_waiting(c0),
            same_standing(c0, *conn),
            heard_views(out@) == start + all.take(k).map_values(
                |d: Seq<u8>| HeardView::Datagram(d),
            ),
        ensures
            k == all.len(),
            datagrams_waiting(*conn).len() == 0,
            datagrams_queued(*conn) == queued,
            streams_kept(c0, *conn),
            reports_waiting(*conn) == reports_waiting(c0),
            same_standing(c0, *conn),
            heard_views(out@) == start + all.take(k).map_values(
                |d: Seq<u8>| HeardView::Datagram(d),
            ),
        decreases all.len() - k,
    {
        let ghost before = heard_views(out@);
        let ghost rest = datagrams_waiting(*conn);
        match datagram_take(conn) {
            Some(d) => {
                let ghost v = d@;
                out.push(Heard::Datagram(d));
                proof {
                    assert(rest.len() == 1 + datagrams_waiting(*conn).len());
                    assert(rest[0] == v);
                    assert(all.skip(k)[0] == all[k]);
                    assert(datagrams_waiting(*conn) =~= rest.drop_first());
                    assert(rest.drop_first() =~= all.skip(k + 1));
                    assert(heard_views(out@) =~= before.push(HeardView::Datagram(v)));
                    assert(all.take(k + 1) =~= all.take(k).push(v));
                    k = k + 1;
                }
            },
            None => {
                break;
            },
        }
    }
    assert(all.take(k) =~= all);
}

/// What to do about a report.
#[derive(Clone, PartialEq, Eq, Debug)]
pub enum Move {
    /// Open the reliable stream.
    Open,
    /// Take the reliable stream the other end opened, and read it.
    Accept,
    /// Read a stream.
    Read(Inlet),
    /// Say what was heard.
    Tell(Heard),
}

/// The server on a report: it opens the reliable stream once connected, and
/// reads whatever has bytes.
pub fn server_move(report: Report) -> (r: Move)
    ensures
        r == (match report {
            Report::Connected => Move::Open,
            Report::Lost(why) => Move::Tell(Heard::Lost(why)),
            Report::Readable(s) => Move::Read(s),
            Report::Opened => Move::Tell(Heard::Idle),
            Report::Other => Move::Tell(Heard::Idle),
        }),
{
    match report {
        Report::Connected => Move::Open,
        Report::Lost(why) => Move::Tell(Heard::Lost(why)),
        Report::Readable(s) => Move::Read(s),
        _ => Move::Tell(Heard::Idle),
    }
}

/// The client on a report: the first two-way stream the server opens is the
/// reliable one.
pub fn client_move(report: Report, settled: bool) -> (r: Move)
    ensures
        r == (match report {
            Report::Connected => Move::Tell(Heard::Connected(false)),
            Report::Lost(why) => Move::Tell(Heard::Lost(why)),
            Report::Readable(s) => Move::Read(s),
            Report::Opened => if settled {
                Move::Tell(Heard::Idle)
            } else {
                Move::Accept
            },
            Report::Other => Move::Tell(Heard::Idle),
        }),
{
    match report {
        Report::Connected => Move::Tell(Heard::Connected(false)),
        Report::Lost(why) => Move::Tell(Heard::Lost(why)),
        Report::Readable(s) => Move::Read(s),
        Report::Opened if !settled => Move::Accept,
        _ => Move::Tell(Heard::Idle),
    }
}

/// Where one end stands while it goes through a connection's reports: the
/// streams it may still open and take, those it read, and the reliable one.
#[verifier::ext_equal]
pub struct Ear {
    pub free: Seq<u64>,
    pub offered: Seq<u64>,
    pub read: Set<Inlet>,
    pub stream: Option<Stream>,
}

/// Before the first report.
pub open spec fn ear_of(conn: Connection, stream: Option<Stream>) -> Ear {
    Ear {
        free: streams_free(conn),
        offered: streams_offered(conn),
        read: Set::empty(),
        stream,
    }
}

/// A two-way stream, to read from.
pub open spec fn inlet_of(s: Stream) -> Inlet {
    Inlet { by_server: s.by_server, two_way: true, index: s.index }
}

/// What is left to read on a stream: all of it, or nothing once it was read.
pub open spec fn left_on(conn: Connection, e: Ear, s: Inlet) -> Seq<u8> {
    if e.read.contains(s) {
        Seq::empty()
    } else {
        unread(conn, s)
    }
}

/// Reading a stream.
pub open spec fn reading(conn: Connection, e: Ear, s: Inlet) -> (Ear, HeardView) {
    (Ear { read: e.read.insert(s), ..e }, HeardView::Fed(left_on(conn, e, s)))
}

/// Opening the reliable stream, if there is one to open.
pub open spec fn opening(conn: Connection, e: Ear) -> (Ear, HeardView) {
    if ended(conn) || e.free.len() == 0 {
        (e, HeardView::Connected(false))
    } else {
        let s = Stream { by_server: held_by_server(conn), index: e.free[0] };
        (
            Ear { free: e.free.drop_first(), stream: Some(s), ..e },
            HeardView::Connected(true),
        )
    }
}

/// Taking the oldest stream the other end opened, if there is one, as the
/// reliable one, and reading it.
pub open spec fn accepting(conn: Connection, e: Ear) -> (Ear, HeardView) {
    if e.offered.len() == 0 {
        (Ear { stream: None, ..e }, HeardView::Fed(Seq::empty()))
    } else {
        let s = Stream { by_server: !held_by_server(conn), index: e.offered[0] };
        reading(
            conn,
            Ear { offered: e.offered.drop_first(), stream: Some(s), ..e },
            inlet_of(s),
        )
    }
}

/// What the server hears by one report.
pub open spec fn server_hears(conn: Connection, e: Ear, r: ReportView) -> (Ear, HeardView) {
    match r {
        ReportView::Connected => opening(conn, e),
        ReportView::Lost(why) => (e, HeardView::Lost(why)),
        ReportView::Readable(s) => reading(conn, e, s),
        ReportView::Opened => (e, HeardView::Idle),
        ReportView::Other => (e, HeardView::Idle),
    }
}

/// What the client hears by one report.
pub open spec fn client_hears(conn: Connection, e: Ear, r: ReportView) -> (Ear, HeardView) {
    match r {
        ReportView::Connected => (e, HeardView::Connected(false)),
        ReportView::Lost(why) => (e, HeardView::Lost(why)),
        ReportView::Readable(s) => reading(conn, e, s),
        ReportView::Opened => if e.stream is Some {
            (e, HeardView::Idle)
        } else {
            accepting(conn, e)
        },
        ReportView::Other => (e, HeardView::Idle),
    }
}

/// What one end hears by these reports, in order.
pub open spec fn hears_all(
    conn: Connection,
    e: Ear,
    reports: Seq<ReportView>,
    server: bool,
) -> (Ear, Seq<HeardView>)
    decreases reports.len(),
{
    if reports.len() == 0 {
        (e, Seq::empty())
    } else {
        let before = hears_all(conn, e, reports.drop_last(), server);
        let step = if server {
            server_hears(conn, before.0, reports.last())
        } else {
            client_hears(conn, before.0, reports.last())
        };
        (step.0, before.1.push(step.1))
    }
}

/// A connection, as it was at first, after what the ear did to it since.
spec fn tracks(conn: Connection, now: Connection, e: Ear) -> bool {
    &&& streams_free(now) == e.free
    &&& streams_offered(now) == e.offered
    &&& forall|s: Inlet| #[trigger] unread(now, s) == left_on(conn, e, s)
}

/// What a move gives.
spec fn moved(conn: Connection, e: Ear, what: Move) -> (Ear, HeardView) {
    match what {
        Move::Open => opening(conn, e),
        Move::Accept => accepting(conn, e),
        Move::Read(s) => reading(conn, e, s),
        Move::Tell(h) => (e, h@),
    }
}

/// Reading a stream of a tracked connection.
proof fn reading_tracks(conn: Connection, a: Connection, b: Connection, e: Ear, s: Inlet)
    requires
        tracks(conn, a, e),
        others_unread(a, b, s),
        unread(b, s) == Seq::<u8>::empty(),
    ensures
        tracks(conn, b, reading(conn, e, s).0),
{
    let after = reading(conn, e, s).0;
    assert forall|x: Inlet| #[trigger] unread(b, x) == left_on(conn, after, x) by {
        if x != s {
            assert(unread(b, x) == unread(a, x));
            assert(unread(a, x) == left_on(conn, e, x));
        }
    }
}

/// Carry out a move: give what was heard by it.
fn carry_out(
    conn: &mut Connection,
    stream: &mut Option<Stream>,
    what: Move,
    at_first: Ghost<Connection>,
    ear: Ghost<Ear>,
) -> (r: Heard)
    requires
        tracks(at_first@, *old(conn), ear@),
        undisturbed(at_first@, *old(conn)),
        ear@.stream == *old(stream),
    ensures
        tracks(at_first@, *final(conn), moved(at_first@, ear@, what).0),
        r@ == moved(at_first@, ear@, what).1,
        *final(stream) == moved(at_first@, ear@, what).0.stream,
        reports_waiting(*final(conn)) == reports_waiting(*old(conn)),
        undisturbed(*old(conn), *final(conn)),
{
    let ghost c0 = *conn;
    match what {
        Move::Open => match stream_open(conn) {
            Some(s) => {
                *stream = Some(s);
                proof {
                    assert forall|x: Inlet| #[trigger] unread(*conn, x) == left_on(
                        at_first@,
                        ear@,
                        x,
                    ) by {
                        assert(unread(*conn, x) == unread(c0, x));
                    }
                }
                Heard::Connected(true)
            },
            None => {
                proof {
                    assert forall|x: Inlet| #[trigger] unread(*conn, x) == left_on(
                        at_first@,
                        ear@,
                        x,
                    ) by {
                        assert(unread(*conn, x) == unread(c0, x));
                    }
                }
                Heard::Connected(false)
            },
        },
        Move::Accept => {
            let mut b: Vec<u8> = Vec::new();
            *stream = stream_accept(conn);
            let ghost mid = Ear {
                offered: streams_offered(*conn),
                stream: *stream,
                ..ear@
            };
            proof {
                assert forall|x: Inlet| #[trigger] unread(*conn, x) == left_on(
                    at_first@,
                    mid,
                    x,
                ) by {
                    assert(unread(*conn, x) == unread(c0, x));
                    assert(unread(c0, x) == left_on(at_first@, ear@, x));
                }
            }
            if let Some(s) = *stream {
                let inlet: Inlet = Inlet { by_server: s.by_server, two_way: true, index: s.index };
                let ghost taken = *conn;
                let ghost given = unread(*conn, inlet);
                stream_read(conn, inlet, &mut b);
                proof {
                    assert(given == left_on(at_first@, mid, inlet));
                    assert(b@ =~= given);
                    reading_tracks(at_first@, taken, *conn, mid, inlet);
                }
            } else {
                assert(b@ =~= Seq::<u8>::empty());
            }
            Heard::Fed(b)
        },
        Move::Read(s) => {
            let ghost given = unread(*conn, s);
            let mut b: Vec<u8> = Vec::new();
            stream_read(conn, s, &mut b);
            proof {
                assert(given == left_on(at_first@, ear@, s));
                assert(b@ =~= given);
                reading_tracks(at_first@, c0, *conn, ear@, s);
            }
            Heard::Fed(b)
        },
        Move::Tell(h) => h,
    }
}

/// The polls took the reports one by one.
proof fn one_more_report(all: Seq<ReportView>, k: int, rest: Seq<ReportView>)
    requires
        0 <= k < all.len(),
        rest == all.skip(k),
    ensures
        rest.drop_first() == all.skip(k + 1),
        rest[0] == all[k],
        all.take(k + 1).drop_last() == all.take(k),
        all.take(k + 1).last() == all[k],
{
    assert(rest.drop_first() =~= all.skip(k + 1));
    assert(all.take(k + 1).drop_last() =~= all.take(k));
}

/// Everything a connection has to say to one end: what it hears by the
/// reports, then the datagrams that waited; and the reliable stream after.
pub open spec fn says(conn: Connection, stream: Option<Stream>, server: bool) -> (
    Seq<HeardView>,
    Option<Stream>,
) {
    let heard = hears_all(conn, ear_of(conn, stream), reports_waiting(conn), server);
    (
        heard.1 + datagrams_waiting(conn).map_values(|d: Seq<u8>| HeardView::Datagram(d)),
        heard.0.stream,
    )
}

/// A client's reliable stream is the first one: once it has one, no report
/// takes it away or replaces it.
pub proof fn the_first_stream_stays(conn: Connection, e: Ear, reports: Seq<ReportView>)
    requires
        e.stream is Some,
    ensures
        hears_all(conn, e, reports, false).0.stream == e.stream,
    decreases reports.len(),
{
    if reports.len() > 0 {
        the_first_stream_stays(conn, e, reports.drop_last());
    }
}

/// Go through everything a connection has to say, for one end.
fn listen_as(conn: &mut Connection, stream: &mut Option<Stream>, server: bool) -> (r: Vec<Heard>)
    ensures
        heard_views(r@) == says(*old(conn), *old(stream), server).0,
        *final(stream) == says(*old(conn), *old(stream), server).1,
        reports_waiting(*final(conn)).len() == 0,
        datagrams_waiting(*final(conn)).len() == 0,
        datagrams_queued(*final(conn)) == datagrams_queued(*old(conn)),
        same_standing(*old(conn), *final(conn)),
{
    let ghost c0 = *conn;
    let ghost start = ear_of(*conn, *stream);
    let ghost all = reports_waiting(*conn);
    let ghost mut k: int = 0;
    let mut out: Vec<Heard> = Vec::new();
    proof {
        assert(all.take(0) =~= Seq::<ReportView>::empty());
        assert(all.skip(0) =~= all);
        assert(heard_views(out@) =~= Seq::<HeardView>::empty());
    }
    loop
        invariant
            0 <= k <= all.len(),
            all == reports_waiting(c0),
            undisturbed(c0, *conn),
            reports_waiting(*conn) == all.skip(k),
            tracks(c0, *conn, hears_all(c0, start, all.take(k), server).0),
            heard_views(out@) == hears_all(c0, start, all.take(k), server).1,
            *stream == hears_all(c0, start, all.take(k), server).0.stream,
        ensures
            k == all.len(),
            undisturbed(c0, *conn),
            reports_waiting(*conn).len() == 0,
            heard_views(out@) == hears_all(c0, start, all.take(k), server).1,
            *stream == hears_all(c0, start, all.take(k), server).0.stream,
        decreases all.len() - k,
    {
        let ghost before = heard_views(out@);
        let ghost ear = hears_all(c0, start, all.take(k), server).0;
        let ghost rest = reports_waiting(*conn);
        let ghost was = *conn;
        let heard: Heard = match poll_report(conn) {
            Some(report) => {
                proof {
                    assert(rest.len() == 1 + reports_waiting(*conn).len());
                    assert(rest[0] == report@);
                    assert(reports_waiting(*conn) =~= rest.drop_first());
                    one_more_report(all, k, rest);
                    assert forall|x: Inlet| #[trigger] unread(*conn, x) == left_on(
                        c0,
                        ear,
                        x,
                    ) by {
                        assert(unread(*conn, x) == unread(was, x));
                    }
                }
                let what: Move = if server {
                    server_move(report)
                } else {
                    let settled: bool = stream.is_some();
                    client_move(report, settled)
                };
                carry_out(conn, stream, what, Ghost(c0), Ghost(ear))
            },
            None => {
                break;
            },
        };
        let ghost v = heard@;
        out.push(heard);
        proof {
            assert(heard_views(out@) =~= before.push(v));
            k = k + 1;
        }
    }
    assert(all.take(k) =~= all);
    datagrams_read(conn, &mut out);
    out
}

/// Ask a server's connection what happened: its reports in order, then the
/// datagrams that waited. On connect the server opens the reliable stream.
pub fn listen(conn: &mut Connection, stream: &mut Option<Stream>) -> (r: Vec<Heard>)
    ensures
        heard_views(r@) == says(*old(conn), *old(stream), true).0,
        *final(stream) == says(*old(conn), *old(stream), true).1,
        reports_waiting(*final(conn)).len() == 0,
        datagrams_waiting(*final(conn)).len() == 0,
        datagrams_queued(*final(conn)) == datagrams_queued(*old(conn)),
        same_standing(*old(conn), *final(conn)),
{
    listen_as(conn, stream, true)
}

/// Ask the client's connection what happened: its reports in order, then
/// the datagrams that waited. The first two-way stream the server opens is
/// the reliable one; what arrived together with it is read at once.
pub fn listen_client(conn: &mut Connection, stream: &mut Option<Stream>) -> (r: Vec<Heard>)
    ensures
        heard_views(r@) == says(*old(conn), *old(stream), false).0,
        *final(stream) == says(*old(conn), *old(stream), false).1,
        reports_waiting(*final(conn)).len() == 0,
        datagrams_waiting(*final(conn)).len() == 0,
        datagrams_queued(*final(conn)) == datagrams_queued(*old(conn)),
        same_standing(*old(conn), *final(conn)),
{
    listen_as(conn, stream, false)
}

/// What hanging up for these reasons does: the first one closes a
/// connection that had not ended, and without a reason it goes on.
pub open spec fn parted(before: Connection, after: Connection, reasons: Seq<Reason>) -> bool {
    if reasons.len() == 0 {
        same_standing(before, after)
    } else {
        &&& ended(after)
        &&& goodbye(after) == if ended(before) {
            goodbye(before)
        } else {
            Some((reasons[0].code_of(), reasons[0].text_of()))
        }
        &&& held_by_server(after) == held_by_server(before)
    }
}

/// Hang up for every reason, in order.
fn part(conn: &mut Connection, at: Instant, reasons: &Vec<Reason>)
    ensures
        parted(*old(conn), *final(conn), reasons@),
        reports_waiting(*final(conn)) == reports_waiting(*old(conn)),
        datagrams_waiting(*final(conn)) == datagrams_waiting(*old(conn)),
        datagrams_queued(*final(conn)) == datagrams_queued(*old(conn)),
{
    let ghost c0 = *conn;
    let mut k: usize = 0;
    while k < reasons.len()
        invariant
            k <= reasons@.len(),
            parted(c0, *conn, reasons@.take(k as int)),
            reports_waiting(*conn) == reports_waiting(c0),
            datagrams_waiting(*conn) == datagrams_waiting(c0),
            datagrams_queued(*conn) == datagrams_queued(c0),
        decreases reasons@.len() - k,
    {
        hang_up(conn, at, reasons[k].code(), reasons[k].text());
        k += 1;
    }
    assert(reasons@.take(k as int) =~= reasons@);
}

// --- the server's turn -------------------------------------------------------

/// A connection the server holds.
pub struct Line {
    pub handle: usize,
    pub conn: Connection,
    /// The reliable stream, once open.
    pub stream: Option<Stream>,
}

/// What a line has to say to the server.
pub open spec fn said_by(line: Line) -> Seq<HeardView> {
    says(line.conn, line.stream, true).0
}

/// What each line has to say.
pub open spec fn said_by_all(lines: Seq<Line>) -> Seq<Seq<HeardView>> {
    lines.map_values(|l: Line| said_by(l))
}

/// A line was heard out: nothing waits on it, its reliable stream is the one
/// the reports led to, and what waits to be sent stays.
pub open spec fn heard_out(before: Line, after: Line) -> bool {
    &&& after.handle == before.handle
    &&& after.stream == says(before.conn, before.stream, true).1
    &&& reports_waiting(after.conn).len() == 0
    &&& datagrams_waiting(after.conn).len() == 0
    &&& datagrams_queued(after.conn) == datagrams_queued(before.conn)
}

/// Whose lines these are.
pub open spec fn handles_of(lines: Seq<Line>) -> Seq<usize> {
    lines.map_values(|l: Line| l.handle)
}

/// Every connection's turn, in order, each with what it had to say.
pub open spec fn turns(
    d: SessionsView,
    handles: Seq<usize>,
    now: u64,
    said: Seq<Seq<HeardView>>,
) -> SessionsView
    decreases handles.len(),
{
    if handles.len() == 0 {
        d
    } else {
        turn(
            turns(d, handles.drop_last(), now, said.drop_last()),
            handles.last(),
            now,
            said.last(),
        ).0
    }
}

/// Everyone's turn, then the admissions that came of it, with the
/// connections those close.
pub open spec fn served(
    d: SessionsView,
    handles: Seq<usize>,
    now: u64,
    said: Seq<Seq<HeardView>>,
) -> (SessionsView, Seq<Close>) {
    let mid = turns(d, handles, now, said);
    admitted_all(SessionsView { pending: Seq::empty(), ..mid }, mid.pending, now)
}

/// A turn moves no route and hands out no peer id: both are admission's.
pub proof fn a_turn_moves_no_route(d: SessionsView, handle: usize, now: u64, hs: Seq<HeardView>)
    ensures
        turn(d, handle, now, hs).0.routes == d.routes,
        turn(d, handle, now, hs).0.next_peer == d.next_peer,
{
    heard_moves_no_route(d, handle, now, hs);
    let mid = heard_all(d, handle, now, hs);
    if let Some(i) = place(mid.conns, handle) {
        let c = mid.conns[i];
        let read = frames_of(c.stream_in);
        frames_move_no_route(with_conn(mid, i, ConnView { stream_in: read.1, ..c }), i, read.0);
    }
}

proof fn heard_moves_no_route(d: SessionsView, handle: usize, now: u64, hs: Seq<HeardView>)
    ensures
        heard_all(d, handle, now, hs).routes == d.routes,
        heard_all(d, handle, now, hs).next_peer == d.next_peer,
    decreases hs.len(),
{
    if hs.len() > 0 {
        heard_moves_no_route(d, handle, now, hs.drop_last());
    }
}

proof fn frames_move_no_route(d: SessionsView, i: int, frames: Seq<FrameView>)
    ensures
        frames_at(d, i, frames).0.routes == d.routes,
        frames_at(d, i, frames).0.next_peer == d.next_peer,
    decreases frames.len(),
{
    if frames.len() > 0 {
        frames_move_no_route(d, i, frames.drop_last());
    }
}

/// Changing a connection in place moves nobody.
proof fn place_updated(conns: Seq<ConnView>, i: int, c: ConnView, handle: usize)
    requires
        0 <= i < conns.len(),
        c.handle == conns[i].handle,
    ensures
        place(conns.update(i, c), handle) == place(conns, handle),
    decreases conns.len(),
{
    let after = conns.update(i, c);
    if i == 0 {
        assert(after.drop_first() =~= conns.drop_first());
    } else {
        assert(after.drop_first() =~= conns.drop_first().update(i - 1, c));
        place_updated(conns.drop_first(), i - 1, c, handle);
    }
}

/// A refused dial is told why: when the bytes that complete someone's session
/// frame carry no token or the wrong password, the turn closes the connection
/// for that before anything else, whatever follows the frame, and admits
/// nobody; with nothing behind the frame it queues nobody for admission.
pub proof fn a_refused_dial_is_told_why(
    d: SessionsView,
    handle: usize,
    now: u64,
    data: Seq<u8>,
    payload: Seq<u8>,
    rest: Seq<u8>,
)
    requires
        place(d.conns, handle) is Some,
        !d.conns[place(d.conns, handle)->0].authed,
        !d.conns[place(d.conns, handle)->0].gone,
        d.conns[place(d.conns, handle)->0].stream_in + data == frame_bytes(
            FrameView { ty: FRAME_AUTH, payload },
        ) + rest,
        payload.len() <= u32::MAX,
        payload.len() < 16 || !password_fits(d.password, payload.skip(16)),
    ensures
        ({
            let out = turn(d, handle, now, seq![HeardView::Fed(data)]);
            &&& out.1.len() > 0
            &&& out.1[0] == if payload.len() < 16 {
                Reason::BadSessionFrame
            } else {
                Reason::BadPassword
            }
            &&& out.0.joined == d.joined
            &&& !out.0.conns[place(d.conns, handle)->0].authed
            &&& rest.len() == 0 ==> out.0.pending == d.pending
        }),
{
    let hs = seq![HeardView::Fed(data)];
    let f = FrameView { ty: FRAME_AUTH, payload };
    let i = place(d.conns, handle)->0;
    let c = d.conns[i];
    place_found(d.conns, handle);
    assert(hs.drop_last() =~= Seq::<HeardView>::empty());
    assert(heard_all(d, handle, now, hs.drop_last()) == d);
    let mid = fed_at(d, i, data);
    assert(heard_all(d, handle, now, hs) == mid);
    place_updated(d.conns, i, mid.conns[i], handle);
    frame_reads_back(f, rest);
    let read = frames_of(mid.conns[i].stream_in);
    let more = frames_of(rest).0;
    assert(read.0 == seq![f] + more);
    let cleared = with_conn(mid, i, ConnView { stream_in: read.1, ..mid.conns[i] });
    place_updated(mid.conns, i, cleared.conns[i], handle);
    frames_answer_in_order(cleared, i, f, more);
    if rest.len() == 0 {
        assert(seq![f] + more =~= seq![f]);
        assert(seq![f].drop_last() =~= Seq::<FrameView>::empty());
        assert(frames_at(cleared, i, seq![f].drop_last()) == (cleared, Seq::<Reason>::empty()));
        assert(frames_at(cleared, i, seq![f]).0 == cleared);
    }
}

/// One connection's turn: ask it what happened, tell the sessions, and hang
/// up for every reason that gave.
fn serve_line(sessions: &mut Sessions, line: &mut Line, at: Instant, now: u64)
    ensures
        final(sessions)@ == turn(old(sessions)@, old(line).handle, now, said_by(*old(line))).0,
        parted(
            old(line).conn,
            final(line).conn,
            turn(old(sessions)@, old(line).handle, now, said_by(*old(line))).1,
        ),
        heard_out(*old(line), *final(line)),
{
    let handle: usize = line.handle;
    let heard: Vec<Heard> = listen(&mut line.conn, &mut line.stream);
    let reasons: Vec<Reason> = hear(sessions, handle, now, &heard);
    part(&mut line.conn, at, &reasons);
}

/// The reasons a connection's turn gave to close it.
pub open spec fn turn_reasons(
    d: SessionsView,
    handles: Seq<usize>,
    now: u64,
    said: Seq<Seq<HeardView>>,
    k: int,
) -> Seq<Reason> {
    turn(turns(d, handles.take(k), now, said.take(k)), handles[k], now, said[k]).1
}

/// The reasons among these closes that speak of one connection.
pub open spec fn reasons_for(closes: Seq<Close>, handle: usize) -> Seq<Reason>
    decreases closes.len(),
{
    if closes.len() == 0 {
        Seq::empty()
    } else {
        let before = reasons_for(closes.drop_last(), handle);
        if closes.last().handle == handle {
            before.push(closes.last().reason)
        } else {
            before
        }
    }
}

/// Every connection is heard out, and closed for the reasons its own turn
/// gave, then for those the admissions gave.
pub open spec fn answered(
    d: SessionsView,
    before: Seq<Line>,
    after: Seq<Line>,
    now: u64,
) -> bool {
    &&& after.len() == before.len()
    &&& forall|k: int|
        0 <= k < before.len() ==> heard_out(before[k], #[trigger] after[k]) && parted(
            before[k].conn,
            after[k].conn,
            turn_reasons(d, handles_of(before), now, said_by_all(before), k) + reasons_for(
                served(d, handles_of(before), now, said_by_all(before)).1,
                before[k].handle,
            ),
        )
}

/// Hanging up leaves a line's name, stream and mail alone.
spec fn only_parted(before: Line, after: Line) -> bool {
    &&& after.handle == before.handle
    &&& after.stream == before.stream
    &&& reports_waiting(after.conn) == reports_waiting(before.conn)
    &&& datagrams_waiting(after.conn) == datagrams_waiting(before.conn)
    &&& datagrams_queued(after.conn) == datagrams_queued(before.conn)
}

/// Hang up on one connection, wherever it stands.
fn part_from(lines: &mut Vec<Line>, at: Instant, close: Close)
    ensures
        handles_of(final(lines)@) == handles_of(old(lines)@),
        forall|k: int|
            0 <= k < old(lines)@.len() ==> parted(
                old(lines)@[k].conn,
                (#[trigger] final(lines)@[k]).conn,
                reasons_for(seq![close], old(lines)@[k].handle),
            ) && only_parted(old(lines)@[k], final(lines)@[k]),
{
    let ghost l0 = lines@;
    let ghost handles = handles_of(lines@);
    proof {
        assert(seq![close].drop_last() =~= Seq::<Close>::empty());
        assert(seq![close].last() == close);
        assert forall|h: usize| #[trigger]
            reasons_for(seq![close], h) == if close.handle == h {
                seq![close.reason]
            } else {
                Seq::<Reason>::empty()
            } by {
            assert(reasons_for(seq![close].drop_last(), h) =~= Seq::<Reason>::empty());
            assert(Seq::<Reason>::empty().push(close.reason) =~= seq![close.reason]);
        }
    }
    let mut j: usize = 0;
    while j < lines.len()
        invariant
            j <= lines@.len(),
            handles == handles_of(lines@),
            handles == handles_of(l0),
            lines@.len() == l0.len(),
            forall|k: int| j <= k < lines@.len() ==> #[trigger] lines@[k] == l0[k],
            forall|h: usize| #[trigger]
                reasons_for(seq![close], h) == if close.handle == h {
                    seq![close.reason]
                } else {
                    Seq::<Reason>::empty()
                },
            forall|k: int|
                0 <= k < j ==> parted(
                    l0[k].conn,
                    (#[trigger] lines@[k]).conn,
                    reasons_for(seq![close], l0[k].handle),
                ) && only_parted(l0[k], lines@[k]),
        decreases lines@.len() - j,
    {
        if lines[j].handle == close.handle {
            let line: &mut Line = &mut lines[j];
            hang_up(&mut line.conn, at, close.reason.code(), close.reason.text());
            assert(handles_of(lines@) =~= handles);
        }
        j += 1;
    }
}

/// Hanging up twice is hanging up for both reasons in turn.
proof fn parted_twice(a: Connection, b: Connection, c: Connection, x: Seq<Reason>, y: Seq<Reason>)
    requires
        parted(a, b, x),
        parted(b, c, y),
    ensures
        parted(a, c, x + y),
{
    if x.len() == 0 {
        assert(x + y =~= y);
    } else if y.len() == 0 {
        assert(x + y =~= x);
    } else {
        assert((x + y)[0] == x[0]);
    }
}

/// Reasons for one connection come in the order of the closes.
proof fn reasons_for_push(closes: Seq<Close>, close: Close, handle: usize)
    ensures
        reasons_for(closes.push(close), handle) == reasons_for(closes, handle) + reasons_for(
            seq![close],
            handle,
        ),
{
    assert(closes.push(close).drop_last() =~= closes);
    assert(seq![close].drop_last() =~= Seq::<Close>::empty());
    assert(reasons_for(seq![close].drop_last(), handle) =~= Seq::<Reason>::empty());
    assert(reasons_for(closes.push(close), handle) =~= reasons_for(closes, handle) + reasons_for(
        seq![close],
        handle,
    ));
}

/// Hang up on connections, in order.
fn part_all(lines: &mut Vec<Line>, at: Instant, closes: &Vec<Close>)
    ensures
        handles_of(final(lines)@) == handles_of(old(lines)@),
        forall|k: int|
            0 <= k < old(lines)@.len() ==> parted(
                old(lines)@[k].conn,
                (#[trigger] final(lines)@[k]).conn,
                reasons_for(closes@, old(lines)@[k].handle),
            ) && only_parted(old(lines)@[k], final(lines)@[k]),
{
    let ghost l0 = lines@;
    let mut c: usize = 0;
    while c < closes.len()
        invariant
            c <= closes@.len(),
            lines@.len() == l0.len(),
            handles_of(lines@) == handles_of(l0),
            forall|k: int|
                0 <= k < l0.len() ==> parted(
                    l0[k].conn,
                    (#[trigger] lines@[k]).conn,
                    reasons_for(closes@.take(c as int), l0[k].handle),
                ) && only_parted(l0[k], lines@[k]),
        decreases closes@.len() - c,
    {
        let ghost was = lines@;
        part_from(lines, at, closes[c]);
        proof {
            let done = closes@.take(c as int);
            let close = closes@[c as int];
            assert(handles_of(lines@).len() == lines@.len());
            assert(closes@.take(c + 1) =~= done.push(close));
            assert forall|k: int| 0 <= k < l0.len() implies parted(
                l0[k].conn,
                (#[trigger] lines@[k]).conn,
                reasons_for(closes@.take(c + 1), l0[k].handle),
            ) && only_parted(l0[k], lines@[k]) by {
                let h = l0[k].handle;
                assert(only_parted(l0[k], was[k]));
                reasons_for_push(done, close, h);
                parted_twice(
                    l0[k].conn,
                    was[k].conn,
                    lines@[k].conn,
                    reasons_for(done, h),
                    reasons_for(seq![close], h),
                );
            }
        }
        c += 1;
    }
    assert(closes@.take(c as int) =~= closes@);
}

/// Serve every connection once: each one's turn in order, then the
/// admissions, hanging up on whoever those refuse or supersede.
pub fn serve_lines(sessions: &mut Sessions, lines: &mut Vec<Line>, at: Instant, now: u64)
    requires
        sessions_wf(old(sessions)@),
    ensures
        final(sessions)@ == served(
            old(sessions)@,
            handles_of(old(lines)@),
            now,
            said_by_all(old(lines)@),
        ).0,
        answered(old(sessions)@, old(lines)@, final(lines)@, now),
        handles_of(final(lines)@) == handles_of(old(lines)@),
        sessions_wf(final(sessions)@),
{
    let ghost d0 = sessions@;
    let ghost l0 = lines@;
    let ghost handles = handles_of(lines@);
    let ghost said = said_by_all(lines@);
    proof {
        assert(handles.take(0) =~= Seq::<usize>::empty());
        assert(said.take(0) =~= Seq::<Seq<HeardView>>::empty());
    }
    let mut k: usize = 0;
    while k < lines.len()
        invariant
            k <= lines@.len(),
            lines@.len() == l0.len(),
            handles == handles_of(lines@),
            handles == handles_of(l0),
            said == said_by_all(l0),
            sessions@ == turns(d0, handles.take(k as int), now, said.take(k as int)),
            sessions_wf(sessions@),
            forall|j: int| k <= j < lines@.len() ==> #[trigger] lines@[j] == l0[j],
            forall|j: int|
                0 <= j < k ==> heard_out(l0[j], #[trigger] lines@[j]) && parted(
                    l0[j].conn,
                    lines@[j].conn,
                    turn_reasons(d0, handles, now, said, j),
                ),
        decreases lines@.len() - k,
    {
        let ghost before = sessions@;
        let ghost was = lines@;
        let line: &mut Line = &mut lines[k];
        serve_line(sessions, line, at, now);
        proof {
            assert(was[k as int] == l0[k as int]);
            assert(said[k as int] == said_by(l0[k as int]));
            a_turn_moves_no_route(before, was[k as int].handle, now, said[k as int]);
            assert(handles.take(k + 1).drop_last() =~= handles.take(k as int));
            assert(handles.take(k + 1).last() == was[k as int].handle);
            assert(said.take(k + 1).drop_last() =~= said.take(k as int));
            assert(said.take(k + 1).last() == said[k as int]);
            assert(handles_of(lines@) =~= handles);
            assert forall|j: int| 0 <= j < k + 1 implies heard_out(l0[j], #[trigger] lines@[j])
                && parted(
                l0[j].conn,
                lines@[j].conn,
                turn_reasons(d0, handles, now, said, j),
            ) by {
                if j < k {
                    assert(lines@[j] == was[j]);
                }
            }
        }
        k += 1;
    }
    assert(handles.take(k as int) =~= handles);
    assert(said.take(k as int) =~= said);
    let closes: Vec<Close> = sessions.admissions(now);
    let ghost was = lines@;
    part_all(lines, at, &closes);
    proof {
        assert(handles_of(lines@).len() == lines@.len());
        assert forall|j: int| 0 <= j < l0.len() implies heard_out(l0[j], #[trigger] lines@[j])
            && parted(
            l0[j].conn,
            lines@[j].conn,
            turn_reasons(d0, handles, now, said, j) + reasons_for(closes@, l0[j].handle),
        ) by {
            assert(heard_out(l0[j], was[j]));
            assert(only_parted(was[j], lines@[j]));
            parted_twice(
                l0[j].conn,
                was[j].conn,
                lines@[j].conn,
                turn_reasons(d0, handles, now, said, j),
                reasons_for(closes@, l0[j].handle),
            );
        }
        assert((sessions@, closes@) == served(d0, handles, now, said));
    }
}

/// The stream took the first `n` bytes waiting for a connection.
pub open spec fn taken(d: SessionsView, handle: usize, n: int) -> SessionsView {
    at_handle(
        d,
        handle,
        |i: int|
            with_conn(
                d,
                i,
                ConnView { stream_out: d.conns[i].stream_out.skip(n), ..d.conns[i] },
            ),
    )
}

/// The bytes that wait for a connection's stream, none before it opened.
pub open spec fn pending(d: SessionsView, handle: usize) -> Seq<u8> {
    match place(d.conns, handle) {
        Some(i) => if d.conns[i].streaming {
            d.conns[i].stream_out
        } else {
            Seq::empty()
        },
        None => Seq::empty(),
    }
}

/// Taking nothing changes nothing.
proof fn taken_nothing(d: SessionsView, handle: usize)
    ensures
        taken(d, handle, 0) == d,
{
    place_found(d.conns, handle);
    if let Some(i) = place(d.conns, handle) {
        assert(d.conns[i].stream_out.skip(0) =~= d.conns[i].stream_out);
        assert(d.conns.update(i, d.conns[i]) =~= d.conns);
        assert(taken(d, handle, 0) =~= d);
    }
}

/// Hand a connection's stream the bytes that wait for it, as many as it has
/// room for; those wait no longer.
pub fn flush_line(sessions: &mut Sessions, line: &mut Line)
    ensures
        match old(line).stream {
            Some(s) => {
                let out = pending(old(sessions)@, old(line).handle);
                &&& final(sessions)@ == taken(
                    old(sessions)@,
                    old(line).handle,
                    takes(old(line).conn, s, out),
                )
                &&& handed(old(line).conn, final(line).conn, s, out)
            },
            None => final(sessions)@ == old(sessions)@ && final(line).conn == old(line).conn,
        },
        final(line).handle == old(line).handle,
        final(line).stream == old(line).stream,
{
    let ghost d0 = sessions@;
    let s: Stream = match line.stream {
        Some(s) => s,
        None => {
            return;
        },
    };
    let handle: usize = line.handle;
    let mut out: Vec<u8> = sessions.stream_pending(handle);
    let len: usize = out.len();
    assert(out@ == pending(d0, handle));
    stream_flush(&mut line.conn, s, &mut out);
    let took: usize = len - out.len();
    proof {
        taken_nothing(d0, handle);
    }
    if took > 0 {
        sessions.stream_sent(handle, took);
        assert(sessions@ == taken(d0, handle, took as int));
    }
}

/// Whether a connection is known and gone.
pub open spec fn gone(d: SessionsView, handle: usize) -> bool {
    place(d.conns, handle) matches Some(i) && d.conns[i].gone
}

/// The sessions and lines once the connections that are gone and drained
/// are forgotten.
pub open spec fn reaped(d: SessionsView, lines: Seq<Line>) -> (SessionsView, Seq<Line>)
    decreases lines.len(),
{
    if lines.len() == 0 {
        (d, lines)
    } else {
        let before = reaped(d, lines.drop_last());
        let line = lines.last();
        if gone(before.0, line.handle) && drained(line.conn) {
            (at_handle(before.0, line.handle, |i: int| drained_at(before.0, i)), before.1)
        } else {
            (before.0, before.1.push(line))
        }
    }
}

/// Forget the connections that are gone and have nothing left to say.
pub fn reap(sessions: &mut Sessions, lines: &mut Vec<Line>)
    requires
        sessions_wf(old(sessions)@),
    ensures
        (final(sessions)@, final(lines)@) == reaped(old(sessions)@, old(lines)@),
        sessions_wf(final(sessions)@),
{
    let ghost d0 = sessions@;
    let mut rest: Vec<Line> = Vec::new();
    std::mem::swap(&mut rest, lines);
    let ghost all = rest@;
    let ghost mut k: int = 0;
    proof {
        assert(all.take(0) =~= Seq::<Line>::empty());
        assert(all.skip(0) =~= all);
    }
    while rest.len() > 0
        invariant
            0 <= k <= all.len(),
            rest@ == all.skip(k),
            (sessions@, lines@) == reaped(d0, all.take(k)),
            sessions_wf(sessions@),
        decreases rest@.len(),
    {
        let line: Line = rest.remove(0);
        let done: bool = sessions.is_gone(line.handle) && is_drained(&line.conn);
        proof {
            assert(line == all[k]);
            assert(all.skip(k).remove(0) =~= all.skip(k + 1));
            assert(all.take(k + 1).drop_last() =~= all.take(k));
            assert(all.take(k + 1).last() == line);
            k = k + 1;
        }
        if done {
            sessions.drained(line.handle);
        } else {
            lines.push(line);
        }
    }
    assert(all.take(k) =~= all);
}

/// How many snapshot bytes fit in one datagram on a connection.
pub open spec fn budget_on(conn: Connection) -> usize {
    match datagram_limit(conn) {
        Some(m) => if m == 0 {
            0
        } else {
            (m - 1) as usize
        },
        None => SNAPSHOT_BUDGET_DEFAULT,
    }
}

/// How many snapshot bytes fit in one datagram on a connection right now.
pub fn snapshot_budget(conn: &mut Connection) -> (r: usize)
    ensures
        r == budget_on(*old(conn)),
        *final(conn) == *old(conn),
{
    let max: Option<usize> = datagram_room(conn);
    Sessions::snapshot_budget(max)
}

/// Room left in a connection's outgoing datagram buffer: a shrinking value
/// means snapshots queue behind the congestion window.
pub fn dgram_space(conn: &mut Connection) -> (r: usize)
    ensures
        r == datagram_slack(*old(conn)),
        *final(conn) == *old(conn),
{
    datagram_space(conn)
}

/// Whether a peer's connection is up.
pub open spec fn peer_up(d: SessionsView, peer: u8) -> bool {
    d.routes[peer as int] matches Some(h) && place(d.conns, h) matches Some(i)
        && d.conns[i].connected && !d.conns[i].gone
}

/// Send a snapshot on the peer's connection as an unreliable datagram. An
/// oversize one is dropped and counted.
pub fn snapshot_send(sessions: &mut Sessions, peer: u8, conn: &mut Connection, snapshot: &[u8])
    requires
        sessions_wf(old(sessions)@),
        old(sessions)@.oversize_drops < u32::MAX,
    ensures
        sessions_wf(final(sessions)@),
        ({
            let fits = datagram_limit(*old(conn)) matches Some(m) && snapshot@.len() + 1 <= m;
            if !peer_up(old(sessions)@, peer) {
                final(sessions)@ == old(sessions)@ && *final(conn) == *old(conn)
            } else if fits {
                final(sessions)@ == old(sessions)@ && sent(
                    *old(conn),
                    *final(conn),
                    seq![DGRAM_SNAPSHOT] + snapshot@,
                )
            } else {
                final(sessions)@ == (SessionsView {
                    oversize_drops: (old(sessions)@.oversize_drops + 1) as u32,
                    ..old(sessions)@
                }) && *final(conn) == *old(conn)
            }
        }),
{
    let max: usize = match datagram_room(conn) {
        Some(m) => m,
        None => 0,
    };
    if let Some(d) = sessions.snapshot_for(peer, snapshot, max) {
        let _ = datagram_push(conn, d);
    }
}

// --- the client's turn -------------------------------------------------------

/// The client's turn: ask the connection what happened, tell the session,
/// and hang up for every reason that gave.
pub fn serve_dial(
    dial: &mut Dial,
    conn: &mut Connection,
    stream: &mut Option<Stream>,
    at: Instant,
)
    ensures
        ({
            let heard = says(*old(conn), *old(stream), false);
            let turn = client_turn(old(dial)@, heard.0);
            &&& final(dial)@ == turn.0
            &&& parted(*old(conn), *final(conn), turn.1)
            &&& *final(stream) == heard.1
        }),
        reports_waiting(*final(conn)).len() == 0,
        datagrams_waiting(*final(conn)).len() == 0,
        datagrams_queued(*final(conn)) == datagrams_queued(*old(conn)),
{
    let heard: Vec<Heard> = listen_client(conn, stream);
    let reasons: Vec<Reason> = attend(dial, &heard);
    part(conn, at, &reasons);
}

/// Hand the client's stream the bytes that wait for it.
pub fn flush_dial(dial: &mut Dial, conn: &mut Connection, stream: Option<Stream>)
    ensures
        match stream {
            Some(s) => {
                let out = old(dial)@.stream_out;
                &&& final(dial)@ == (DialView {
                    stream_out: out.skip(takes(*old(conn), s, out)),
                    ..old(dial)@
                })
                &&& handed(*old(conn), *final(conn), s, out)
            },
            None => final(dial)@ == old(dial)@ && *final(conn) == *old(conn),
        },
{
    let ghost d0 = dial@;
    assert(d0.stream_out.skip(0) =~= d0.stream_out);
    if let Some(s) = stream {
        let mut out: Vec<u8> = crate::text::copy_bytes(dial.stream_pending());
        let len: usize = out.len();
        stream_flush(conn, s, &mut out);
        dial.stream_sent(len - out.len());
    }
}

/// Ack a snapshot as an unreliable datagram.
pub fn ack_send(conn: &mut Connection, tick: u32, seq: u32)
    ensures
        sent(*old(conn), *final(conn), ack_bytes(tick, seq)),
{
    let d: Vec<u8> = crate::frame::ack_datagram(tick, seq);
    let _ = datagram_push(conn, d);
}

/// Send the next control input as an unreliable datagram, the last few
/// riding along; gives the sequence it was assigned.
pub fn input_send(dial: &mut Dial, conn: &mut Connection, payload: &[u8]) -> (r: u32)
    requires
        ring_sound(old(dial)@.inputs),
        old(dial)@.inputs.seq < u32::MAX,
        payload@.len() <= u16::MAX,
    ensures
        ring_sound(final(dial)@.inputs),
        final(dial)@ == (DialView {
            inputs: ring_pushed(old(dial)@.inputs, payload@),
            ..old(dial)@
        }),
        r == final(dial)@.inputs.seq,
        sent(
            *old(conn),
            *final(conn),
            seq![DGRAM_INPUT] + inputs_bytes(final(dial)@.inputs.recent),
        ),
{
    let (seq, d): (u32, Vec<u8>) = dial.input_send(payload);
    let _ = datagram_push(conn, d);
    seq
}

/// Report the view pose, newest wins, as an unreliable datagram.
pub fn view_send(conn: &mut Connection, pose: &Vec<u32>)
    ensures
        sent(*old(conn), *final(conn), seq![DGRAM_VIEW] + fields_bytes(pose@)),
{
    let d: Vec<u8> = view_datagram(pose);
    let _ = datagram_push(conn, d);
}

} // verus!
