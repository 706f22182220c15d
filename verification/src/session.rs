//! The server's side of the door: who is connected, who got past the
//! handshake, and what their datagrams and frames say.
//!
//! The transport delivers what each connection reported; this decides. At
//! connect the server sends the schema (`FRAME_HELLO`) — a contract, not a
//! secret. The client answers with its session token and password
//! (`FRAME_AUTH`). Admission then decides who the connection *is*: a live
//! connection already holding the token is superseded quietly, a token
//! parked inside the grace window reclaims its peer id, anyone else gets a
//! fresh id; `FRAME_WELCOME` carries it. Until admission a connection's
//! datagrams and events are dropped unread.

use vstd::prelude::*;

use crate::frame::{
    frame_bytes, frame_views, frame_write, frames_of, frames_parse, input_views, inputs_of,
    inputs_parse, snapshot_datagram, Frame, FrameView, Input, DGRAM_ACK, DGRAM_INPUT,
    DGRAM_SNAPSHOT, DGRAM_VIEW,
};
use crate::reg::EVENT_USER_BASE;
use crate::sort::filter_push;
use crate::text::{bytes_eq, utf8};
use crate::wire::{cut, get32, get64, le64, put64, un32, un64};

verus! {

/// Server to client at connect: the wire schema.
pub const FRAME_HELLO: u16 = 0;

/// Client to server after a schema-ok hello: `[token 16][password]`.
pub const FRAME_AUTH: u16 = 1;

/// Server to client at admission: `[peer u8]`.
pub const FRAME_WELCOME: u16 = 2;

/// How long an unadmitted connection may sit, in nanoseconds.
pub const AUTH_TIMEOUT_NS: u64 = 5_000_000_000;

/// How long after a disconnect a session token may still reclaim its peer
/// id by default, in nanoseconds.
pub const RECONNECT_GRACE_NS: u64 = 20_000_000_000;

/// What fits in a snapshot datagram while the path's limit is unknown.
pub const SNAPSHOT_BUDGET_DEFAULT: usize = 1100;

/// A session token: the reconnect identity, random per game session and
/// resent on every redial. All zeros never parks or reclaims.
#[derive(Clone, Copy, PartialEq, Eq, Debug, Structural)]
pub struct Token {
    pub lo: u64,
    pub hi: u64,
}

impl Token {
    /// No session.
    pub open spec fn none() -> Token {
        Token { lo: 0, hi: 0 }
    }

    /// The token in sixteen bytes.
    pub open spec fn read(b: Seq<u8>) -> Token {
        Token { lo: un64(b.subrange(0, 8)), hi: un64(b.subrange(8, 16)) }
    }

    /// Its sixteen bytes.
    pub open spec fn written(self) -> Seq<u8> {
        le64(self.lo) + le64(self.hi)
    }

    /// Whether this is a session at all.
    pub fn is_none(self) -> (r: bool)
        ensures
            r == (self == Token::none()),
    {
        self.lo == 0 && self.hi == 0
    }

    /// Read a token.
    pub fn from_bytes(b: &[u8]) -> (r: Token)
        requires
            b@.len() >= 16,
        ensures
            r == Token::read(b@),
    {
        Token { lo: get64(b, 0), hi: get64(b, 8) }
    }

    /// Append its bytes.
    pub fn write(self, out: &mut Vec<u8>)
        ensures
            final(out)@ == old(out)@ + self.written(),
    {
        put64(out, self.lo);
        put64(out, self.hi);
        assert(out@ =~= old(out)@ + self.written());
    }
}

/// Why the server closes a connection.
#[derive(Clone, Copy, PartialEq, Eq, Debug, Structural)]
pub enum Reason {
    BadSessionFrame,
    BadPassword,
    AuthTimeout,
    Superseded,
    ServerFull,
    SchemaMismatch,
}

impl Reason {
    /// The close code.
    pub open spec fn code_of(self) -> u32 {
        match self {
            Reason::SchemaMismatch => 1,
            Reason::Superseded => 3,
            _ => 2,
        }
    }

    /// The text the other end sees.
    pub open spec fn text_of(self) -> Seq<char> {
        match self {
            Reason::BadSessionFrame => "bad session frame"@,
            Reason::BadPassword => "bad password"@,
            Reason::AuthTimeout => "auth timeout"@,
            Reason::Superseded => "superseded by reconnect"@,
            Reason::ServerFull => "server full"@,
            Reason::SchemaMismatch => "schema mismatch"@,
        }
    }

    /// The close code.
    pub fn code(self) -> (r: u32)
        ensures
            r == self.code_of(),
    {
        match self {
            Reason::SchemaMismatch => 1,
            Reason::Superseded => 3,
            _ => 2,
        }
    }

    /// The text the other end sees.
    pub fn text(self) -> (r: &'static str)
        ensures
            r@ == self.text_of(),
    {
        match self {
            Reason::BadSessionFrame => "bad session frame",
            Reason::BadPassword => "bad password",
            Reason::AuthTimeout => "auth timeout",
            Reason::Superseded => "superseded by reconnect",
            Reason::ServerFull => "server full",
            Reason::SchemaMismatch => "schema mismatch",
        }
    }
}

/// A connection to close.
#[derive(Clone, Copy, PartialEq, Eq, Debug, Structural)]
pub struct Close {
    pub handle: usize,
    pub reason: Reason,
}

/// One connection as contracts see it.
#[verifier::ext_equal]
pub struct ConnView {
    pub handle: usize,
    /// Assigned at admission; 0 until then.
    pub peer: u8,
    pub connected: bool,
    pub gone: bool,
    /// Whether the reliable stream is open.
    pub streaming: bool,
    pub stream_in: Seq<u8>,
    pub stream_out: Seq<u8>,
    pub last_input: u32,
    /// Past the door.
    pub authed: bool,
    /// When it was accepted.
    pub since: u64,
    pub token: Token,
    /// Bit patterns of the latest view pose reported.
    pub pose: Option<Seq<u32>>,
}

/// A departed session that may come back.
#[derive(Clone, Copy, PartialEq, Eq, Debug, Structural)]
pub struct Parked {
    pub token: Token,
    pub peer: u8,
    pub at: u64,
}

/// An input received: who, which, what.
#[verifier::ext_equal]
pub struct PeerInput {
    pub peer: u8,
    pub seq: u32,
    pub payload: Seq<u8>,
}

/// An event received: who, which channel, what.
#[verifier::ext_equal]
pub struct PeerEvent {
    pub peer: u8,
    pub ty: u16,
    pub payload: Seq<u8>,
}

/// The server's sessions as contracts see them.
#[verifier::ext_equal]
pub struct SessionsView {
    /// In the order they were accepted.
    pub conns: Seq<ConnView>,
    /// Which connection each peer id leads to.
    pub routes: Seq<Option<usize>>,
    pub next_peer: u8,
    pub schema: Seq<u8>,
    pub password: Option<Seq<char>>,
    pub joined: Seq<u8>,
    pub left: Seq<u8>,
    pub acks: Seq<(u8, u32, u32)>,
    pub inputs: Seq<PeerInput>,
    pub events: Seq<PeerEvent>,
    pub oversize_drops: u32,
    pub parked: Seq<Parked>,
    pub grace: u64,
    pub pending: Seq<usize>,
}

/// Position of a connection.
pub open spec fn place(conns: Seq<ConnView>, handle: usize) -> Option<int>
    decreases conns.len(),
{
    if conns.len() == 0 {
        None
    } else if conns[0].handle == handle {
        Some(0int)
    } else {
        match place(conns.drop_first(), handle) {
            Some(i) => Some(i + 1),
            None => None,
        }
    }
}

/// A connection just accepted.
pub open spec fn new_conn(handle: usize, now: u64) -> ConnView {
    ConnView {
        handle,
        peer: 0,
        connected: false,
        gone: false,
        streaming: false,
        stream_in: Seq::empty(),
        stream_out: Seq::empty(),
        last_input: 0,
        authed: false,
        since: now,
        token: Token::none(),
        pose: None,
    }
}

/// The sessions with the connection at `i` replaced.
pub open spec fn with_conn(d: SessionsView, i: int, c: ConnView) -> SessionsView {
    SessionsView { conns: d.conns.update(i, c), ..d }
}

/// The handshake completed; the hello goes out when the stream opened.
pub open spec fn connected_at(d: SessionsView, i: int, opened: bool) -> SessionsView {
    let c = d.conns[i];
    with_conn(
        d,
        i,
        ConnView {
            connected: true,
            streaming: c.streaming || opened,
            stream_out: if opened {
                c.stream_out + frame_bytes(FrameView { ty: FRAME_HELLO, payload: d.schema })
            } else {
                c.stream_out
            },
            ..c
        },
    )
}

/// Passes the sessions parked under other tokens.
pub open spec fn other_token(token: Token) -> spec_fn(Parked) -> bool {
    |p: Parked| p.token != token
}

/// The connection is lost. Only admitted peers ever joined, so only they
/// leave; a real session parks.
pub open spec fn lost_at(d: SessionsView, i: int, now: u64) -> SessionsView {
    let c = d.conns[i];
    let gone = with_conn(d, i, ConnView { gone: true, ..c });
    if c.authed {
        SessionsView {
            left: d.left.push(c.peer),
            parked: if c.token != Token::none() {
                d.parked.filter(other_token(c.token)).push(
                    Parked { token: c.token, peer: c.peer, at: now },
                )
            } else {
                d.parked
            },
            ..gone
        }
    } else {
        gone
    }
}

/// Inputs as one peer's.
pub open spec fn peer_inputs(peer: u8, inputs: Seq<(u32, Seq<u8>)>) -> Seq<PeerInput> {
    inputs.map_values(|x: (u32, Seq<u8>)| PeerInput { peer, seq: x.0, payload: x.1 })
}

/// The bit patterns of a view pose.
pub open spec fn pose_of(d: Seq<u8>) -> Seq<u32> {
    Seq::new(6, |k: int| un32(d.subrange(1 + 4 * k, 5 + 4 * k)))
}

/// A datagram arrived. Before admission it is dropped unread.
pub open spec fn datagram_at(d: SessionsView, i: int, data: Seq<u8>) -> SessionsView {
    let c = d.conns[i];
    if !c.authed || data.len() == 0 {
        d
    } else if data[0] == DGRAM_ACK && data.len() >= 9 {
        SessionsView {
            acks: d.acks.push((c.peer, un32(data.subrange(1, 5)), un32(data.subrange(5, 9)))),
            ..d
        }
    } else if data[0] == DGRAM_INPUT {
        let got = inputs_of(data.skip(1), c.last_input);
        SessionsView {
            inputs: d.inputs + peer_inputs(c.peer, got.0),
            ..with_conn(d, i, ConnView { last_input: got.1, ..c })
        }
    } else if data[0] == DGRAM_VIEW && data.len() >= 25 {
        with_conn(d, i, ConnView { pose: Some(pose_of(data)), ..c })
    } else {
        d
    }
}

/// Whether the password part of a session frame opens this door.
pub open spec fn password_fits(password: Option<Seq<char>>, given: Seq<u8>) -> bool {
    password matches Some(p) ==> utf8(p) == given
}

/// A frame arrived: the session frame of someone at the door, or an event
/// of someone inside.
pub open spec fn frame_at(d: SessionsView, i: int, f: FrameView) -> (SessionsView, Option<Reason>) {
    let c = d.conns[i];
    if f.ty == FRAME_AUTH && !c.authed && !c.gone {
        if f.payload.len() < 16 {
            (d, Some(Reason::BadSessionFrame))
        } else if !password_fits(d.password, f.payload.skip(16)) {
            (d, Some(Reason::BadPassword))
        } else {
            (
                SessionsView {
                    pending: d.pending.push(c.handle),
                    ..with_conn(d, i, ConnView { token: Token::read(f.payload), ..c })
                },
                None,
            )
        }
    } else if f.ty >= EVENT_USER_BASE && c.authed {
        (
            SessionsView {
                events: d.events.push(
                    PeerEvent { peer: c.peer, ty: f.ty, payload: f.payload },
                ),
                ..d
            },
            None,
        )
    } else {
        (d, None)
    }
}

/// Frames in order, and every reason to close the connection they gave.
pub open spec fn frames_at(d: SessionsView, i: int, frames: Seq<FrameView>) -> (
    SessionsView,
    Seq<Reason>,
)
    decreases frames.len(),
{
    if frames.len() == 0 {
        (d, Seq::empty())
    } else {
        let before = frames_at(d, i, frames.drop_last());
        let step = frame_at(before.0, i, frames.last());
        (
            step.0,
            match step.1 {
                Some(r) => before.1.push(r),
                None => before.1,
            },
        )
    }
}

/// Stream bytes arrived.
pub open spec fn fed_at(d: SessionsView, i: int, data: Seq<u8>) -> SessionsView {
    let c = d.conns[i];
    with_conn(d, i, ConnView { stream_in: c.stream_in + data, ..c })
}

/// Whole frames that arrived are handled, the rest waits.
pub open spec fn stream_read_at(d: SessionsView, i: int) -> (SessionsView, Seq<Reason>) {
    let c = d.conns[i];
    let read = frames_of(c.stream_in);
    frames_at(with_conn(d, i, ConnView { stream_in: read.1, ..c }), i, read.0)
}

/// Whether a connection sat at the door too long.
pub open spec fn overdue(c: ConnView, now: u64) -> bool {
    !c.authed && !c.gone && now > c.since + AUTH_TIMEOUT_NS
}

/// Passes the sessions still inside the grace window.
pub open spec fn within_grace(now: u64, grace: u64) -> spec_fn(Parked) -> bool {
    |p: Parked| now <= p.at + grace
}

/// The first other connection inside that holds this token.
pub open spec fn live_holder(conns: Seq<ConnView>, i: int, token: Token, from: int) -> Option<int>
    decreases conns.len() - from,
{
    if from < 0 || from >= conns.len() {
        None
    } else if from != i && conns[from].authed && !conns[from].gone && conns[from].token == token {
        Some(from)
    } else {
        live_holder(conns, i, token, from + 1)
    }
}

/// The peer id parked under a token.
pub open spec fn parked_peer(parked: Seq<Parked>, token: Token) -> Option<u8>
    decreases parked.len(),
{
    if parked.len() == 0 {
        None
    } else if parked[0].token == token {
        Some(parked[0].peer)
    } else {
        parked_peer(parked.drop_first(), token)
    }
}

/// Let the connection at `i` in as `peer`.
pub open spec fn welcomed(d: SessionsView, i: int, peer: u8) -> SessionsView {
    let c = d.conns[i];
    SessionsView {
        routes: d.routes.update(peer as int, Some(c.handle)),
        joined: d.joined.push(peer),
        ..with_conn(
            d,
            i,
            ConnView {
                peer,
                authed: true,
                stream_out: c.stream_out + frame_bytes(
                    FrameView { ty: FRAME_WELCOME, payload: seq![peer] },
                ),
                ..c
            },
        )
    }
}

/// Decide who the connection at `i` is, and let it in — or find the server
/// full.
pub open spec fn admitted_at(d: SessionsView, i: int, now: u64) -> (SessionsView, Option<Close>) {
    let token = d.conns[i].token;
    let swept = SessionsView { parked: d.parked.filter(within_grace(now, d.grace)), ..d };
    let holder = if token != Token::none() {
        live_holder(d.conns, i, token, 0)
    } else {
        None
    };
    let back = if token != Token::none() {
        parked_peer(swept.parked, token)
    } else {
        None
    };
    if let Some(j) = holder {
        let old = d.conns[j];
        let quiet = SessionsView {
            routes: swept.routes.update(old.peer as int, None),
            ..with_conn(swept, j, ConnView { authed: false, ..old })
        };
        (
            welcomed(quiet, i, old.peer),
            Some(Close { handle: old.handle, reason: Reason::Superseded }),
        )
    } else if let Some(peer) = back {
        (
            welcomed(
                SessionsView { parked: swept.parked.filter(other_token(token)), ..swept },
                i,
                peer,
            ),
            None,
        )
    } else if d.next_peer >= u8::MAX {
        (swept, Some(Close { handle: d.conns[i].handle, reason: Reason::ServerFull }))
    } else {
        (
            welcomed(
                SessionsView { next_peer: (d.next_peer + 1) as u8, ..swept },
                i,
                d.next_peer,
            ),
            None,
        )
    }
}

/// Resolve one waiting admission.
pub open spec fn admitted(d: SessionsView, handle: usize, now: u64) -> (
    SessionsView,
    Option<Close>,
) {
    match place(d.conns, handle) {
        Some(i) => if d.conns[i].gone || d.conns[i].authed {
            (d, None)
        } else {
            admitted_at(d, i, now)
        },
        None => (d, None),
    }
}

/// Resolve waiting admissions in order.
pub open spec fn admitted_all(d: SessionsView, waiting: Seq<usize>, now: u64) -> (
    SessionsView,
    Seq<Close>,
)
    decreases waiting.len(),
{
    if waiting.len() == 0 {
        (d, Seq::empty())
    } else {
        let before = admitted_all(d, waiting.drop_last(), now);
        let step = admitted(before.0, waiting.last(), now);
        (
            step.0,
            match step.1 {
                Some(c) => before.1.push(c),
                None => before.1,
            },
        )
    }
}

/// The connection at `i` is done: forget it, and its peer's route unless a
/// reconnect took that over.
pub open spec fn drained_at(d: SessionsView, i: int) -> SessionsView {
    let c = d.conns[i];
    SessionsView {
        conns: d.conns.remove(i),
        routes: if d.routes[c.peer as int] == Some(c.handle) {
            d.routes.update(c.peer as int, None)
        } else {
            d.routes
        },
        ..d
    }
}

/// Every peer id has a route entry.
pub open spec fn sessions_wf(d: SessionsView) -> bool {
    d.routes.len() == 256 && d.next_peer >= 1
}

// --- the machine ------------------------------------------------------------

struct Conn {
    handle: usize,
    peer: u8,
    connected: bool,
    gone: bool,
    streaming: bool,
    stream_in: Vec<u8>,
    stream_out: Vec<u8>,
    last_input: u32,
    authed: bool,
    since: u64,
    token: Token,
    pose: Option<Vec<u32>>,
}

impl View for Conn {
    type V = ConnView;

    closed spec fn view(&self) -> ConnView {
        ConnView {
            handle: self.handle,
            peer: self.peer,
            connected: self.connected,
            gone: self.gone,
            streaming: self.streaming,
            stream_in: self.stream_in@,
            stream_out: self.stream_out@,
            last_input: self.last_input,
            authed: self.authed,
            since: self.since,
            token: self.token,
            pose: match self.pose {
                Some(p) => Some(p@),
                None => None,
            },
        }
    }
}

/// An input received from a peer.
pub struct InputRow {
    pub peer: u8,
    pub seq: u32,
    pub payload: Vec<u8>,
}

impl View for InputRow {
    type V = PeerInput;

    open spec fn view(&self) -> PeerInput {
        PeerInput { peer: self.peer, seq: self.seq, payload: self.payload@ }
    }
}

/// An event received from a peer.
pub struct EventRow {
    pub peer: u8,
    pub ty: u16,
    pub payload: Vec<u8>,
}

impl View for EventRow {
    type V = PeerEvent;

    open spec fn view(&self) -> PeerEvent {
        PeerEvent { peer: self.peer, ty: self.ty, payload: self.payload@ }
    }
}

/// Input rows as plain values.
pub open spec fn input_rows(rows: Seq<InputRow>) -> Seq<PeerInput> {
    rows.map_values(|r: InputRow| r@)
}

/// Event rows as plain values.
pub open spec fn event_rows(rows: Seq<EventRow>) -> Seq<PeerEvent> {
    rows.map_values(|r: EventRow| r@)
}

/// The server's sessions.
pub struct Sessions {
    conns: Vec<Conn>,
    routes: Vec<Option<usize>>,
    next_peer: u8,
    schema: Vec<u8>,
    password: Option<String>,
    joined: Vec<u8>,
    left: Vec<u8>,
    acks: Vec<(u8, u32, u32)>,
    inputs: Vec<InputRow>,
    events: Vec<EventRow>,
    oversize_drops: u32,
    parked: Vec<Parked>,
    grace: u64,
    pending: Vec<usize>,
}

impl View for Sessions {
    type V = SessionsView;

    closed spec fn view(&self) -> SessionsView {
        SessionsView {
            conns: self.conns@.map_values(|c: Conn| c@),
            routes: self.routes@,
            next_peer: self.next_peer,
            schema: self.schema@,
            password: match self.password {
                Some(p) => Some(p@),
                None => None,
            },
            joined: self.joined@,
            left: self.left@,
            acks: self.acks@,
            inputs: input_rows(self.inputs@),
            events: event_rows(self.events@),
            oversize_drops: self.oversize_drops,
            parked: self.parked@,
            grace: self.grace,
            pending: self.pending@,
        }
    }
}

/// Sessions nobody has knocked at yet.
pub open spec fn empty_sessions(schema: Seq<u8>) -> SessionsView {
    SessionsView {
        conns: Seq::empty(),
        routes: Seq::new(256, |p: int| None),
        next_peer: 1,
        schema,
        password: None,
        joined: Seq::empty(),
        left: Seq::empty(),
        acks: Seq::empty(),
        inputs: Seq::empty(),
        events: Seq::empty(),
        oversize_drops: 0,
        parked: Seq::empty(),
        grace: RECONNECT_GRACE_NS,
        pending: Seq::empty(),
    }
}

/// A transition at the connection of this handle; an unknown handle changes
/// nothing.
pub open spec fn at_handle(
    d: SessionsView,
    handle: usize,
    f: spec_fn(int) -> SessionsView,
) -> SessionsView {
    match place(d.conns, handle) {
        Some(i) => f(i),
        None => d,
    }
}

impl Sessions {
    /// Open for business with this encoded schema.
    pub fn new(schema: Vec<u8>) -> (r: Self)
        ensures
            r@ == empty_sessions(schema@),
            sessions_wf(r@),
    {
        let mut routes: Vec<Option<usize>> = Vec::new();
        let mut i: usize = 0;
        while i < 256
            invariant
                i <= 256,
                routes@ == Seq::new(i as nat, |p: int| None::<usize>),
            decreases 256 - i,
        {
            routes.push(None);
            i += 1;
            assert(routes@ =~= Seq::new(i as nat, |p: int| None::<usize>));
        }
        let r = Sessions {
            conns: Vec::new(),
            routes,
            next_peer: 1,
            schema,
            password: None,
            joined: Vec::new(),
            left: Vec::new(),
            acks: Vec::new(),
            inputs: Vec::new(),
            events: Vec::new(),
            oversize_drops: 0,
            parked: Vec::new(),
            grace: RECONNECT_GRACE_NS,
            pending: Vec::new(),
        };
        assert(r@ =~= empty_sessions(schema@));
        r
    }

    /// Require this session password from every client.
    pub fn password_set(&mut self, pw: &str)
        ensures
            final(self)@ == (SessionsView { password: Some(pw@), ..old(self)@ }),
    {
        self.password = Some(pw.to_owned());
        assert(self@ =~= SessionsView { password: Some(pw@), ..old(self)@ });
    }

    /// How long after a disconnect the session's token may reclaim its peer
    /// id.
    pub fn reconnect_grace_set(&mut self, grace: u64)
        ensures
            final(self)@ == (SessionsView { grace, ..old(self)@ }),
    {
        self.grace = grace;
        assert(self@ =~= SessionsView { grace, ..old(self)@ });
    }

    /// Position of a connection.
    fn find(&self, handle: usize) -> (r: Option<usize>)
        ensures
            match r {
                Some(i) => i < self.conns@.len() && place(self@.conns, handle) == Some(i as int),
                None => place(self@.conns, handle) is None,
            },
    {
        let ghost views = self@.conns;
        let mut i: usize = 0;
        assert(views.skip(0) =~= views);
        while i < self.conns.len()
            invariant
                views == self@.conns,
                i <= self.conns@.len(),
                place(views, handle) == match place(views.skip(i as int), handle) {
                    Some(j) => Some(j + i),
                    None => None,
                },
            decreases self.conns@.len() - i,
        {
            assert(views.skip(i as int).drop_first() =~= views.skip(i + 1));
            assert(views.skip(i as int)[0] == self.conns@[i as int]@);
            if self.conns[i].handle == handle {
                return Some(i);
            }
            i += 1;
        }
        None
    }

    /// A connection was accepted. No peer id yet: identity is decided at
    /// admission. A handle the transport reused replaces its old holder.
    pub fn accept(&mut self, handle: usize, now: u64)
        ensures
            final(self)@ == ({
                let d = at_handle(
                    old(self)@,
                    handle,
                    |i: int| SessionsView { conns: old(self)@.conns.remove(i), ..old(self)@ },
                );
                SessionsView { conns: d.conns.push(new_conn(handle, now)), ..d }
            }),
    {
        let ghost d0 = self@;
        if let Some(i) = self.find(handle) {
            let _ = self.conns.remove(i);
            assert(self@.conns =~= d0.conns.remove(i as int));
        }
        let ghost d1 = self@;
        let c = Conn {
            handle,
            peer: 0,
            connected: false,
            gone: false,
            streaming: false,
            stream_in: Vec::new(),
            stream_out: Vec::new(),
            last_input: 0,
            authed: false,
            since: now,
            token: Token { lo: 0, hi: 0 },
            pose: None,
        };
        assert(c@ =~= new_conn(handle, now));
        self.conns.push(c);
        assert(self@.conns =~= d1.conns.push(new_conn(handle, now)));
    }

    /// The handshake completed; `opened` says whether the reliable stream
    /// did too.
    pub fn connected(&mut self, handle: usize, opened: bool)
        ensures
            final(self)@ == at_handle(
                old(self)@,
                handle,
                |i: int| connected_at(old(self)@, i, opened),
            ),
    {
        let ghost d0 = self@;
        if let Some(i) = self.find(handle) {
            assert(d0.conns[i as int] == self.conns@[i as int]@);
            self.conns[i].connected = true;
            if opened {
                self.conns[i].streaming = true;
                frame_write(&mut self.conns[i].stream_out, FRAME_HELLO, self.schema.as_slice());
            }
            assert(self@ =~= connected_at(d0, i as int, opened));
        }
    }

    /// The connection is lost.
    pub fn lost(&mut self, handle: usize, now: u64)
        ensures
            final(self)@ == at_handle(old(self)@, handle, |i: int| lost_at(old(self)@, i, now)),
    {
        let ghost d0 = self@;
        if let Some(i) = self.find(handle) {
            assert(d0.conns[i as int] == self.conns@[i as int]@);
            self.conns[i].gone = true;
            let ghost c1 = self@.conns;
            assert(c1 =~= d0.conns.update(
                i as int,
                ConnView { gone: true, ..d0.conns[i as int] },
            ));
            if self.conns[i].authed {
                let peer: u8 = self.conns[i].peer;
                let token: Token = self.conns[i].token;
                self.left.push(peer);
                if !token.is_none() {
                    self.unpark(token);
                    self.parked.push(Parked { token, peer, at: now });
                }
            }
            assert(self@ =~= lost_at(d0, i as int, now));
        }
    }

    /// Drop what is parked under a token.
    fn unpark(&mut self, token: Token)
        ensures
            final(self)@ == (SessionsView {
                parked: old(self)@.parked.filter(other_token(token)),
                ..old(self)@
            }),
            final(self).conns == old(self).conns,
            final(self).routes == old(self).routes,
    {
        let kept: Vec<Parked> = parked_without(&self.parked, token);
        self.parked = kept;
        assert(self@ =~= SessionsView {
            parked: old(self)@.parked.filter(other_token(token)),
            ..old(self)@
        });
    }

    /// Stream bytes arrived.
    pub fn fed(&mut self, handle: usize, data: &[u8])
        ensures
            final(self)@ == at_handle(old(self)@, handle, |i: int| fed_at(old(self)@, i, data@)),
    {
        let ghost d0 = self@;
        if let Some(i) = self.find(handle) {
            assert(d0.conns[i as int] == self.conns@[i as int]@);
            crate::wire::put_bytes(&mut self.conns[i].stream_in, data);
            assert(self@ =~= fed_at(d0, i as int, data@));
        }
    }

    /// A datagram arrived.
    pub fn datagram(&mut self, handle: usize, data: &[u8])
        ensures
            final(self)@ == at_handle(
                old(self)@,
                handle,
                |i: int| datagram_at(old(self)@, i, data@),
            ),
    {
        let ghost d0 = self@;
        if let Some(i) = self.find(handle) {
            assert(d0.conns[i as int] == self.conns@[i as int]@);
            let n: usize = data.len();
            if !self.conns[i].authed || n == 0 {
                return;
            }
            let peer: u8 = self.conns[i].peer;
            if data[0] == DGRAM_ACK && n >= 9 {
                self.acks.push((peer, get32(data, 1), get32(data, 5)));
                assert(self@ =~= datagram_at(d0, i as int, data@));
            } else if data[0] == DGRAM_INPUT {
                let body: Vec<u8> = cut(data, 1, n);
                assert(body@ =~= data@.skip(1));
                let mut last: u32 = self.conns[i].last_input;
                let got: Vec<Input> = inputs_parse(body.as_slice(), &mut last);
                self.conns[i].last_input = last;
                let ghost before = self@.inputs;
                self.take_inputs(peer, got);
                assert(self@ =~= datagram_at(d0, i as int, data@));
            } else if data[0] == DGRAM_VIEW && n >= 25 {
                let pose: Vec<u32> = read_pose(data);
                self.conns[i].pose = Some(pose);
                assert(self@ =~= datagram_at(d0, i as int, data@));
            }
        }
    }

    /// Append a peer's inputs.
    fn take_inputs(&mut self, peer: u8, got: Vec<Input>)
        ensures
            final(self)@ == (SessionsView {
                inputs: old(self)@.inputs + peer_inputs(peer, input_views(got@)),
                ..old(self)@
            }),
    {
        let ghost d0 = self@;
        let ghost all = peer_inputs(peer, input_views(got@));
        let mut got = got;
        let mut rows: Vec<InputRow> = Vec::new();
        let n: usize = got.len();
        let mut k: usize = 0;
        while k < got.len()
            invariant
                k <= got@.len(),
                all == peer_inputs(peer, input_views(got@)),
                input_rows(rows@) == all.take(k as int),
            decreases got@.len() - k,
        {
            let payload: Vec<u8> = crate::text::copy_bytes(got[k].payload.as_slice());
            let row = InputRow { peer, seq: got[k].seq, payload };
            let ghost before = input_rows(rows@);
            rows.push(row);
            proof {
                assert(row@ =~= all[k as int]);
                assert(input_rows(rows@) =~= before.push(row@));
                assert(all.take(k + 1) =~= all.take(k as int).push(all[k as int]));
            }
            k += 1;
        }
        assert(all.take(k as int) =~= all);
        let ghost tail = rows@;
        self.inputs.append(&mut rows);
        assert(input_rows(self.inputs@) =~= d0.inputs + input_rows(tail));
        assert(self@ =~= SessionsView { inputs: d0.inputs + all, ..d0 });
    }

    /// Handle the whole frames that arrived; gives the reasons to close the
    /// connection.
    pub fn frames(&mut self, handle: usize) -> (r: Vec<Reason>)
        ensures
            match place(old(self)@.conns, handle) {
                Some(i) => (final(self)@, r@) == stream_read_at(old(self)@, i),
                None => final(self)@ == old(self)@ && r@.len() == 0,
            },
    {
        let ghost d0 = self@;
        let mut out: Vec<Reason> = Vec::new();
        let i: usize = match self.find(handle) {
            Some(i) => i,
            None => {
                return out;
            },
        };
        assert(d0.conns[i as int] == self.conns@[i as int]@);
        let frames: Vec<Frame> = frames_parse(&mut self.conns[i].stream_in);
        let ghost views = frame_views(frames@);
        let ghost d1 = self@;
        proof {
            let c = d0.conns[i as int];
            assert(d1 =~= with_conn(
                d0,
                i as int,
                ConnView { stream_in: frames_of(c.stream_in).1, ..c },
            ));
            assert(views.take(0) =~= Seq::<FrameView>::empty());
            assert(out@ =~= Seq::<Reason>::empty());
        }
        let mut k: usize = 0;
        while k < frames.len()
            invariant
                i < self.conns@.len(),
                views == frame_views(frames@),
                k <= frames@.len(),
                (self@, out@) == frames_at(d1, i as int, views.take(k as int)),
            decreases frames@.len() - k,
        {
            proof {
                assert(views.take(k + 1).drop_last() =~= views.take(k as int));
                assert(views.take(k + 1).last() == frames@[k as int]@);
            }
            if let Some(reason) = self.frame(i, &frames[k]) {
                out.push(reason);
            }
            k += 1;
        }
        assert(views.take(k as int) =~= views);
        out
    }

    /// Handle one frame of the connection at `i`.
    fn frame(&mut self, i: usize, f: &Frame) -> (r: Option<Reason>)
        requires
            i < old(self).conns@.len(),
        ensures
            (final(self)@, r) == frame_at(old(self)@, i as int, f@),
            final(self).conns@.len() == old(self).conns@.len(),
    {
        let ghost d0 = self@;
        assert(d0.conns[i as int] == self.conns@[i as int]@);
        let n: usize = f.payload.len();
        if f.ty == FRAME_AUTH && !self.conns[i].authed && !self.conns[i].gone {
            if n < 16 {
                return Some(Reason::BadSessionFrame);
            }
            let given: Vec<u8> = cut(f.payload.as_slice(), 16, n);
            assert(given@ =~= f.payload@.skip(16));
            if !self.opens(given.as_slice()) {
                return Some(Reason::BadPassword);
            }
            let token: Token = Token::from_bytes(f.payload.as_slice());
            self.conns[i].token = token;
            let handle: usize = self.conns[i].handle;
            self.pending.push(handle);
            assert(self@ =~= frame_at(d0, i as int, f@).0);
            None
        } else if f.ty >= EVENT_USER_BASE && self.conns[i].authed {
            let payload: Vec<u8> = crate::text::copy_bytes(f.payload.as_slice());
            let row = EventRow { peer: self.conns[i].peer, ty: f.ty, payload };
            self.events.push(row);
            proof {
                assert(row@ =~= PeerEvent {
                    peer: d0.conns[i as int].peer,
                    ty: f.ty,
                    payload: f.payload@,
                });
                assert(self@.events =~= d0.events.push(row@));
                assert(self@ =~= frame_at(d0, i as int, f@).0);
            }
            None
        } else {
            None
        }
    }

    /// Whether these password bytes open the door.
    fn opens(&self, given: &[u8]) -> (r: bool)
        ensures
            r == password_fits(self@.password, given@),
    {
        match &self.password {
            Some(p) => bytes_eq(p.as_str().as_bytes(), given),
            None => true,
        }
    }

    /// Whether a connection never answered the door and is to be closed, so
    /// half-open dials can't accumulate.
    pub fn timed_out(&self, handle: usize, now: u64) -> (r: bool)
        ensures
            r == match place(self@.conns, handle) {
                Some(i) => overdue(self@.conns[i], now),
                None => false,
            },
    {
        match self.find(handle) {
            Some(i) => {
                assert(self@.conns[i as int] == self.conns@[i as int]@);
                let c: &Conn = &self.conns[i];
                !c.authed && !c.gone && now.saturating_sub(c.since) > AUTH_TIMEOUT_NS
            },
            None => false,
        }
    }
}

/// What is parked under other tokens.
fn parked_without(parked: &Vec<Parked>, token: Token) -> (r: Vec<Parked>)
    ensures
        r@ == parked@.filter(other_token(token)),
{
    let mut out: Vec<Parked> = Vec::new();
    let mut i: usize = 0;
    let ghost f = other_token(token);
    proof {
        assert(parked@.take(0) =~= Seq::<Parked>::empty());
        reveal(Seq::filter);
        assert(out@ =~= parked@.take(0).filter(f));
    }
    while i < parked.len()
        invariant
            f == other_token(token),
            i <= parked@.len(),
            out@ == parked@.take(i as int).filter(f),
        decreases parked@.len() - i,
    {
        proof {
            assert(parked@.take(i + 1) =~= parked@.take(i as int).push(parked@[i as int]));
            filter_push(parked@.take(i as int), parked@[i as int], f);
        }
        if parked[i].token != token {
            out.push(parked[i]);
        }
        i += 1;
    }
    assert(parked@.take(i as int) =~= parked@);
    out
}

/// What is parked inside the grace window.
fn parked_within(parked: &Vec<Parked>, now: u64, grace: u64) -> (r: Vec<Parked>)
    ensures
        r@ == parked@.filter(within_grace(now, grace)),
{
    let mut out: Vec<Parked> = Vec::new();
    let mut i: usize = 0;
    let ghost f = within_grace(now, grace);
    proof {
        assert(parked@.take(0) =~= Seq::<Parked>::empty());
        reveal(Seq::filter);
        assert(out@ =~= parked@.take(0).filter(f));
    }
    while i < parked.len()
        invariant
            f == within_grace(now, grace),
            i <= parked@.len(),
            out@ == parked@.take(i as int).filter(f),
        decreases parked@.len() - i,
    {
        proof {
            assert(parked@.take(i + 1) =~= parked@.take(i as int).push(parked@[i as int]));
            filter_push(parked@.take(i as int), parked@[i as int], f);
        }
        if now.saturating_sub(parked[i].at) <= grace {
            out.push(parked[i]);
        }
        i += 1;
    }
    assert(parked@.take(i as int) =~= parked@);
    out
}

/// The peer id parked under a token.
fn find_parked(parked: &Vec<Parked>, token: Token) -> (r: Option<u8>)
    ensures
        r == parked_peer(parked@, token),
{
    let mut i: usize = 0;
    assert(parked@.skip(0) =~= parked@);
    while i < parked.len()
        invariant
            i <= parked@.len(),
            parked_peer(parked@, token) == parked_peer(parked@.skip(i as int), token),
        decreases parked@.len() - i,
    {
        assert(parked@.skip(i as int).drop_first() =~= parked@.skip(i + 1));
        if parked[i].token == token {
            return Some(parked[i].peer);
        }
        i += 1;
    }
    None
}

/// Read a view pose.
fn read_pose(data: &[u8]) -> (r: Vec<u32>)
    requires
        data@.len() >= 25,
    ensures
        r@ == pose_of(data@),
{
    let mut out: Vec<u32> = Vec::new();
    let mut k: usize = 0;
    while k < 6
        invariant
            data@.len() >= 25,
            k <= 6,
            out@.len() == k,
            forall|j: int| 0 <= j < k ==> #[trigger] out@[j] == pose_of(data@)[j],
        decreases 6 - k,
    {
        out.push(get32(data, 1 + 4 * k));
        k += 1;
    }
    assert(out@ =~= pose_of(data@));
    out
}

impl Sessions {
    /// The first other connection inside that holds this token.
    fn find_holder(&self, i: usize, token: Token) -> (r: Option<usize>)
        ensures
            match r {
                Some(j) => j < self.conns@.len() && j != i && live_holder(
                    self@.conns,
                    i as int,
                    token,
                    0,
                ) == Some(j as int),
                None => live_holder(self@.conns, i as int, token, 0) is None,
            },
    {
        let ghost views = self@.conns;
        let mut j: usize = 0;
        while j < self.conns.len()
            invariant
                views == self@.conns,
                j <= self.conns@.len(),
                live_holder(views, i as int, token, 0) == live_holder(
                    views,
                    i as int,
                    token,
                    j as int,
                ),
            decreases self.conns@.len() - j,
        {
            assert(views[j as int] == self.conns@[j as int]@);
            if j != i && self.conns[j].authed && !self.conns[j].gone && self.conns[j].token
                == token {
                return Some(j);
            }
            j += 1;
        }
        None
    }

    /// Let the connection at `i` in as `peer`.
    fn welcome(&mut self, i: usize, peer: u8)
        requires
            i < old(self).conns@.len(),
            sessions_wf(old(self)@),
        ensures
            final(self)@ == welcomed(old(self)@, i as int, peer),
            sessions_wf(final(self)@),
    {
        let ghost d0 = self@;
        assert(d0.conns[i as int] == self.conns@[i as int]@);
        self.conns[i].peer = peer;
        self.conns[i].authed = true;
        let mut note: Vec<u8> = Vec::new();
        note.push(peer);
        assert(note@ =~= seq![peer]);
        frame_write(&mut self.conns[i].stream_out, FRAME_WELCOME, note.as_slice());
        let handle: usize = self.conns[i].handle;
        self.routes.set(peer as usize, Some(handle));
        self.joined.push(peer);
        assert(self@ =~= welcomed(d0, i as int, peer));
    }

    /// Decide who the connection at `i` is.
    fn admit_at(&mut self, i: usize, now: u64) -> (r: Option<Close>)
        requires
            i < old(self).conns@.len(),
            sessions_wf(old(self)@),
        ensures
            (final(self)@, r) == admitted_at(old(self)@, i as int, now),
            sessions_wf(final(self)@),
    {
        let ghost d0 = self@;
        assert(d0.conns[i as int] == self.conns@[i as int]@);
        let token: Token = self.conns[i].token;
        self.parked = parked_within(&self.parked, now, self.grace);
        let ghost swept = self@;
        assert(swept =~= SessionsView {
            parked: d0.parked.filter(within_grace(now, d0.grace)),
            ..d0
        });
        if !token.is_none() {
            if let Some(j) = self.find_holder(i, token) {
                assert(d0.conns[j as int] == self.conns@[j as int]@);
                let peer: u8 = self.conns[j].peer;
                let handle: usize = self.conns[j].handle;
                // Quiet: no leave, the id lives on.
                self.conns[j].authed = false;
                self.routes.set(peer as usize, None);
                proof {
                    let old_conn = d0.conns[j as int];
                    assert(self@ =~= SessionsView {
                        routes: swept.routes.update(old_conn.peer as int, None),
                        ..with_conn(swept, j as int, ConnView { authed: false, ..old_conn })
                    });
                }
                self.welcome(i, peer);
                return Some(Close { handle, reason: Reason::Superseded });
            }
            if let Some(peer) = find_parked(&self.parked, token) {
                self.unpark(token);
                self.welcome(i, peer);
                return None;
            }
        }
        if self.next_peer >= u8::MAX {
            let handle: usize = self.conns[i].handle;
            return Some(Close { handle, reason: Reason::ServerFull });
        }
        let peer: u8 = self.next_peer;
        self.next_peer = peer + 1;
        assert(self@ =~= SessionsView { next_peer: (peer + 1) as u8, ..swept });
        self.welcome(i, peer);
        None
    }

    /// Resolve one waiting admission.
    fn admit_one(&mut self, handle: usize, now: u64) -> (r: Option<Close>)
        requires
            sessions_wf(old(self)@),
        ensures
            (final(self)@, r) == admitted(old(self)@, handle, now),
            sessions_wf(final(self)@),
    {
        match self.find(handle) {
            Some(i) => {
                assert(self@.conns[i as int] == self.conns@[i as int]@);
                if self.conns[i].gone || self.conns[i].authed {
                    None
                } else {
                    self.admit_at(i, now)
                }
            },
            None => None,
        }
    }

    /// Resolve the waiting admissions; gives the connections to close.
    pub fn admissions(&mut self, now: u64) -> (r: Vec<Close>)
        requires
            sessions_wf(old(self)@),
        ensures
            (final(self)@, r@) == admitted_all(
                SessionsView { pending: Seq::empty(), ..old(self)@ },
                old(self)@.pending,
                now,
            ),
            sessions_wf(final(self)@),
    {
        let ghost d0 = self@;
        let mut waiting: Vec<usize> = Vec::new();
        std::mem::swap(&mut waiting, &mut self.pending);
        let ghost d1 = SessionsView { pending: Seq::empty(), ..d0 };
        let mut out: Vec<Close> = Vec::new();
        proof {
            assert(self@ =~= d1);
            assert(waiting@.take(0) =~= Seq::<usize>::empty());
            assert(out@ =~= Seq::<Close>::empty());
        }
        let mut k: usize = 0;
        while k < waiting.len()
            invariant
                sessions_wf(self@),
                k <= waiting@.len(),
                (self@, out@) == admitted_all(d1, waiting@.take(k as int), now),
            decreases waiting@.len() - k,
        {
            proof {
                assert(waiting@.take(k + 1).drop_last() =~= waiting@.take(k as int));
                assert(waiting@.take(k + 1).last() == waiting@[k as int]);
            }
            if let Some(c) = self.admit_one(waiting[k], now) {
                out.push(c);
            }
            k += 1;
        }
        assert(waiting@.take(k as int) =~= waiting@);
        out
    }

    /// The transport is done with a connection.
    pub fn drained(&mut self, handle: usize)
        requires
            sessions_wf(old(self)@),
        ensures
            final(self)@ == at_handle(old(self)@, handle, |i: int| drained_at(old(self)@, i)),
            sessions_wf(final(self)@),
    {
        let ghost d0 = self@;
        if let Some(i) = self.find(handle) {
            assert(d0.conns[i as int] == self.conns@[i as int]@);
            let c: Conn = self.conns.remove(i);
            proof {
                place_found(d0.conns, handle);
            }
            // A superseded connection's peer id belongs to its successor.
            let mine: bool = match self.routes[c.peer as usize] {
                Some(h) => h == c.handle,
                None => false,
            };
            if mine {
                self.routes.set(c.peer as usize, None);
            }
            assert(self@.conns =~= d0.conns.remove(i as int));
            assert(self@ =~= drained_at(d0, i as int));
        }
    }

    /// The connections known, in the order they were accepted.
    pub fn handles(&self) -> (r: Vec<usize>)
        ensures
            r@ == self@.conns.map_values(|c: ConnView| c.handle),
    {
        let mut out: Vec<usize> = Vec::new();
        let mut i: usize = 0;
        while i < self.conns.len()
            invariant
                i <= self.conns@.len(),
                out@.len() == i,
                forall|k: int| 0 <= k < i ==> #[trigger] out@[k] == self@.conns[k].handle,
            decreases self.conns@.len() - i,
        {
            assert(self@.conns[i as int] == self.conns@[i as int]@);
            out.push(self.conns[i].handle);
            i += 1;
        }
        assert(out@ =~= self@.conns.map_values(|c: ConnView| c.handle));
        out
    }

    /// Whether the transport may drop a connection that is gone.
    pub fn is_gone(&self, handle: usize) -> (r: bool)
        ensures
            r == (place(self@.conns, handle) matches Some(i) && self@.conns[i].gone),
    {
        match self.find(handle) {
            Some(i) => {
                assert(self@.conns[i as int] == self.conns@[i as int]@);
                self.conns[i].gone
            },
            None => false,
        }
    }

    /// Bytes waiting for a connection's reliable stream; empty while the
    /// stream is closed.
    pub fn stream_pending(&self, handle: usize) -> (r: Vec<u8>)
        ensures
            r@ == match place(self@.conns, handle) {
                Some(i) => if self@.conns[i].streaming {
                    self@.conns[i].stream_out
                } else {
                    Seq::empty()
                },
                None => Seq::empty(),
            },
    {
        match self.find(handle) {
            Some(i) => {
                assert(self@.conns[i as int] == self.conns@[i as int]@);
                if self.conns[i].streaming {
                    crate::text::copy_bytes(self.conns[i].stream_out.as_slice())
                } else {
                    Vec::new()
                }
            },
            None => Vec::new(),
        }
    }

    /// The stream took the first `n` waiting bytes.
    pub fn stream_sent(&mut self, handle: usize, n: usize)
        requires
            place(old(self)@.conns, handle) matches Some(i) ==> n <= old(
                self)@.conns[i].stream_out.len(),
        ensures
            final(self)@ == at_handle(
                old(self)@,
                handle,
                |i: int|
                    with_conn(
                        old(self)@,
                        i,
                        ConnView {
                            stream_out: old(self)@.conns[i].stream_out.skip(n as int),
                            ..old(self)@.conns[i]
                        },
                    ),
            ),
    {
        let ghost d0 = self@;
        if let Some(i) = self.find(handle) {
            assert(d0.conns[i as int] == self.conns@[i as int]@);
            let len: usize = self.conns[i].stream_out.len();
            let rest: Vec<u8> = cut(self.conns[i].stream_out.as_slice(), n, len);
            self.conns[i].stream_out = rest;
            proof {
                let c = d0.conns[i as int];
                assert(rest@ =~= c.stream_out.skip(n as int));
                assert(self@ =~= with_conn(
                    d0,
                    i as int,
                    ConnView { stream_out: c.stream_out.skip(n as int), ..c },
                ));
            }
        }
    }

    /// The connection a peer's traffic goes to.
    pub fn route(&self, peer: u8) -> (r: Option<usize>)
        requires
            sessions_wf(self@),
        ensures
            r == self@.routes[peer as int],
    {
        self.routes[peer as usize]
    }

    /// How many snapshot bytes fit in one datagram when the path takes
    /// `max` (`None` while unknown): all but the type byte.
    pub fn snapshot_budget(max: Option<usize>) -> (r: usize)
        ensures
            r == match max {
                Some(m) => if m == 0 {
                    0
                } else {
                    (m - 1) as usize
                },
                None => SNAPSHOT_BUDGET_DEFAULT,
            },
    {
        match max {
            Some(m) => m.saturating_sub(1),
            None => SNAPSHOT_BUDGET_DEFAULT,
        }
    }

    /// The datagram that carries a snapshot to `peer` over a path that takes
    /// `max` bytes. Nothing for a peer not connected; an oversize snapshot
    /// is dropped and counted.
    pub fn snapshot_for(&mut self, peer: u8, snapshot: &[u8], max: usize) -> (r: Option<Vec<u8>>)
        requires
            sessions_wf(old(self)@),
            old(self)@.oversize_drops < u32::MAX,
        ensures
            sessions_wf(final(self)@),
            ({
                let up = old(self)@.routes[peer as int] matches Some(h) && place(
                    old(self)@.conns,
                    h,
                ) matches Some(i) && old(self)@.conns[i].connected && !old(self)@.conns[i].gone;
                let fits = snapshot@.len() + 1 <= max;
                &&& r is Some <==> up && fits
                &&& r matches Some(d) ==> d@ == seq![DGRAM_SNAPSHOT] + snapshot@
                &&& final(self)@ == if up && !fits {
                    SessionsView {
                        oversize_drops: (old(self)@.oversize_drops + 1) as u32,
                        ..old(self)@
                    }
                } else {
                    old(self)@
                }
            }),
    {
        let handle: usize = match self.routes[peer as usize] {
            Some(h) => h,
            None => {
                return None;
            },
        };
        let i: usize = match self.find(handle) {
            Some(i) => i,
            None => {
                return None;
            },
        };
        assert(self@.conns[i as int] == self.conns@[i as int]@);
        if !self.conns[i].connected || self.conns[i].gone {
            return None;
        }
        if snapshot.len() >= max {
            self.oversize_drops = self.oversize_drops + 1;
            return None;
        }
        Some(snapshot_datagram(snapshot))
    }

    /// Snapshots dropped for exceeding the datagram size.
    pub fn oversize_drops(&self) -> (r: u32)
        ensures
            r == self@.oversize_drops,
    {
        self.oversize_drops
    }

    /// `peer`'s latest reported view pose as bit patterns; nothing for peers
    /// that never report one.
    pub fn view_pose(&self, peer: u8) -> (r: Option<Vec<u32>>)
        requires
            sessions_wf(self@),
        ensures
            match r {
                Some(v) => self@.routes[peer as int] matches Some(h) && place(
                    self@.conns,
                    h,
                ) matches Some(i) && self@.conns[i].pose == Some(v@),
                None => self@.routes[peer as int] matches Some(h) ==> (place(
                    self@.conns,
                    h,
                ) matches Some(i) ==> self@.conns[i].pose is None),
            },
    {
        match self.routes[peer as usize] {
            Some(h) => match self.find(h) {
                Some(i) => {
                    assert(self@.conns[i as int] == self.conns@[i as int]@);
                    match &self.conns[i].pose {
                        Some(p) => {
                            let mut out: Vec<u32> = Vec::new();
                            out.extend_from_slice(p.as_slice());
                            assert(out@ =~= p@);
                            Some(out)
                        },
                        None => None,
                    }
                },
                None => None,
            },
            None => None,
        }
    }

    /// Peers admitted since the last drain.
    pub fn joined_drain(&mut self) -> (r: Vec<u8>)
        ensures
            r@ == old(self)@.joined,
            final(self)@ == (SessionsView { joined: Seq::empty(), ..old(self)@ }),
    {
        let mut out: Vec<u8> = Vec::new();
        std::mem::swap(&mut out, &mut self.joined);
        assert(self@ =~= SessionsView { joined: Seq::empty(), ..old(self)@ });
        out
    }

    /// Peers that left since the last drain.
    pub fn left_drain(&mut self) -> (r: Vec<u8>)
        ensures
            r@ == old(self)@.left,
            final(self)@ == (SessionsView { left: Seq::empty(), ..old(self)@ }),
    {
        let mut out: Vec<u8> = Vec::new();
        std::mem::swap(&mut out, &mut self.left);
        assert(self@ =~= SessionsView { left: Seq::empty(), ..old(self)@ });
        out
    }

    /// Acks received since the last drain: peer, tick, send sequence.
    pub fn acks_drain(&mut self) -> (r: Vec<(u8, u32, u32)>)
        ensures
            r@ == old(self)@.acks,
            final(self)@ == (SessionsView { acks: Seq::empty(), ..old(self)@ }),
    {
        let mut out: Vec<(u8, u32, u32)> = Vec::new();
        std::mem::swap(&mut out, &mut self.acks);
        assert(self@ =~= SessionsView { acks: Seq::empty(), ..old(self)@ });
        out
    }

    /// Inputs received since the last drain, in order per peer.
    pub fn inputs_drain(&mut self) -> (r: Vec<InputRow>)
        ensures
            input_rows(r@) == old(self)@.inputs,
            final(self)@ == (SessionsView { inputs: Seq::empty(), ..old(self)@ }),
    {
        let mut out: Vec<InputRow> = Vec::new();
        std::mem::swap(&mut out, &mut self.inputs);
        assert(self@ =~= SessionsView { inputs: Seq::empty(), ..old(self)@ });
        out
    }

    /// Reliable client events received since the last drain.
    pub fn events_drain(&mut self) -> (r: Vec<EventRow>)
        ensures
            event_rows(r@) == old(self)@.events,
            final(self)@ == (SessionsView { events: Seq::empty(), ..old(self)@ }),
    {
        let mut out: Vec<EventRow> = Vec::new();
        std::mem::swap(&mut out, &mut self.events);
        assert(self@ =~= SessionsView { events: Seq::empty(), ..old(self)@ });
        out
    }
}

/// A connection found is there.
pub proof fn place_found(conns: Seq<ConnView>, handle: usize)
    ensures
        place(conns, handle) matches Some(i) ==> 0 <= i < conns.len() && conns[i].handle == handle,
    decreases conns.len(),
{
    if conns.len() > 0 && conns[0].handle != handle {
        place_found(conns.drop_first(), handle);
    }
}

// --- what the door promises -------------------------------------------------

/// A connection in play: admitted and not lost.
pub open spec fn live(c: ConnView) -> bool {
    c.authed && !c.gone
}

/// Peer ids tell players apart: every id in use or parked was handed out,
/// and none is in use twice, parked twice, or both.
pub open spec fn ids_apart(d: SessionsView) -> bool {
    &&& sessions_wf(d)
    &&& forall|i: int|
        0 <= i < d.conns.len() && live(#[trigger] d.conns[i]) ==> 1 <= d.conns[i].peer
            < d.next_peer
    &&& forall|k: int| 0 <= k < d.parked.len() ==> 1 <= (#[trigger] d.parked[k]).peer < d.next_peer
    &&& forall|i: int, j: int|
        0 <= i < j < d.conns.len() && live(#[trigger] d.conns[i]) && live(#[trigger] d.conns[j])
            ==> d.conns[i].peer != d.conns[j].peer
    &&& forall|k: int, l: int|
        0 <= k < l < d.parked.len() ==> (#[trigger] d.parked[k]).peer != (
        #[trigger] d.parked[l]).peer
    &&& forall|i: int, k: int|
        0 <= i < d.conns.len() && 0 <= k < d.parked.len() && live(#[trigger] d.conns[i])
            ==> d.conns[i].peer != (#[trigger] d.parked[k]).peer
}

/// Whether a session passes and is among these.
spec fn kept_from(parked: Seq<Parked>, f: spec_fn(Parked) -> bool, x: Parked) -> bool {
    exists|l: int| 0 <= l < parked.len() && #[trigger] parked[l] == x && f(parked[l])
}

/// What a filter keeps of the parked sessions, in order.
proof fn kept_parked(parked: Seq<Parked>, f: spec_fn(Parked) -> bool)
    ensures
        forall|k: int|
            0 <= k < parked.filter(f).len() ==> kept_from(parked, f, #[trigger] parked.filter(f)[k]),
        (forall|k: int, l: int|
            0 <= k < l < parked.len() ==> (#[trigger] parked[k]).peer != (
            #[trigger] parked[l]).peer) ==> forall|k: int, l: int|
            0 <= k < l < parked.filter(f).len() ==> (#[trigger] parked.filter(f)[k]).peer != (
            #[trigger] parked.filter(f)[l]).peer,
    decreases parked.len(),
{
    if parked.len() == 0 {
        reveal(Seq::filter);
    } else {
        let init = parked.drop_last();
        let x = parked.last();
        assert(parked =~= init.push(x));
        kept_parked(init, f);
        filter_push(init, x, f);
        let kept = parked.filter(f);
        assert forall|k: int| 0 <= k < kept.len() implies kept_from(
            parked,
            f,
            #[trigger] kept[k],
        ) by {
            if k < init.filter(f).len() {
                assert(kept[k] == init.filter(f)[k]);
                let l = choose|l: int|
                    0 <= l < init.len() && #[trigger] init[l] == init.filter(f)[k] && f(init[l]);
                assert(parked[l] == kept[k]);
            } else {
                assert(parked[parked.len() - 1] == kept[k]);
            }
        }
        if forall|k: int, l: int|
            0 <= k < l < parked.len() ==> (#[trigger] parked[k]).peer != (
            #[trigger] parked[l]).peer {
            assert forall|k: int, l: int| 0 <= k < l < init.len() implies (
            #[trigger] init[k]).peer != (#[trigger] init[l]).peer by {
                assert(init[k] == parked[k] && init[l] == parked[l]);
            }
            assert forall|k: int, l: int| 0 <= k < l < kept.len() implies (
            #[trigger] kept[k]).peer != (#[trigger] kept[l]).peer by {
                assert(kept[k] == init.filter(f)[k]);
                if l < init.filter(f).len() {
                    assert(kept[l] == init.filter(f)[l]);
                } else {
                    let a = choose|a: int|
                        0 <= a < init.len() && #[trigger] init[a] == init.filter(f)[k] && f(
                            init[a],
                        );
                    assert(parked[a] == init[a]);
                    assert(parked[parked.len() - 1] == kept[l]);
                }
            }
        }
    }
}

/// Parked sessions with some dropped keep ids apart.
proof fn fewer_parked_apart(d: SessionsView, f: spec_fn(Parked) -> bool)
    requires
        ids_apart(d),
    ensures
        ids_apart(SessionsView { parked: d.parked.filter(f), ..d }),
{
    let e = SessionsView { parked: d.parked.filter(f), ..d };
    kept_parked(d.parked, f);
    assert forall|k: int| 0 <= k < e.parked.len() implies 1 <= (#[trigger] e.parked[k]).peer
        < e.next_peer by {
        let l = choose|l: int|
            0 <= l < d.parked.len() && #[trigger] d.parked[l] == d.parked.filter(f)[k] && f(
                d.parked[l],
            );
        assert(1 <= d.parked[l].peer < d.next_peer);
    }
    assert forall|i: int, k: int|
        0 <= i < e.conns.len() && 0 <= k < e.parked.len() && live(#[trigger] e.conns[i]) implies
        e.conns[i].peer != (#[trigger] e.parked[k]).peer by {
        let l = choose|l: int|
            0 <= l < d.parked.len() && #[trigger] d.parked[l] == d.parked.filter(f)[k] && f(
                d.parked[l],
            );
        assert(d.conns[i].peer != d.parked[l].peer);
    }
}

/// Whoever holds a token, found among the connections.
proof fn holder_found(conns: Seq<ConnView>, i: int, token: Token, from: int)
    requires
        0 <= from,
    ensures
        live_holder(conns, i, token, from) matches Some(j) ==> from <= j < conns.len() && j != i
            && live(conns[j]) && conns[j].token == token,
    decreases conns.len() - from,
{
    if from < conns.len() && !(from != i && live(conns[from]) && conns[from].token == token) {
        holder_found(conns, i, token, from + 1);
    }
}

/// A parked id found is parked.
proof fn parked_found(parked: Seq<Parked>, token: Token)
    ensures
        parked_peer(parked, token) matches Some(p) ==> exists|k: int|
            0 <= k < parked.len() && (#[trigger] parked[k]).token == token && parked[k].peer == p,
    decreases parked.len(),
{
    if parked.len() > 0 {
        if parked[0].token == token {
            assert(parked[0].token == token);
        } else {
            let tail = parked.drop_first();
            parked_found(tail, token);
            if parked_peer(tail, token) is Some {
                let p = parked_peer(tail, token)->0;
                let k = choose|k: int|
                    0 <= k < tail.len() && (#[trigger] tail[k]).token == token && tail[k].peer
                        == p;
                assert(parked[k + 1].token == token);
            }
        }
    }
}

/// Admission keeps ids apart: a superseded connection hands its id over, a
/// parked id is taken off the list, a fresh id was never used — and the top
/// id is never handed out.
pub proof fn admission_keeps_ids_apart(d: SessionsView, i: int, now: u64)
    requires
        ids_apart(d),
        0 <= i < d.conns.len(),
        !d.conns[i].authed,
        !d.conns[i].gone,
    ensures
        ids_apart(admitted_at(d, i, now).0),
        live(admitted_at(d, i, now).0.conns[i]) ==> 1 <= admitted_at(d, i, now).0.conns[i].peer
            < u8::MAX,
{
    let token = d.conns[i].token;
    let swept = SessionsView { parked: d.parked.filter(within_grace(now, d.grace)), ..d };
    fewer_parked_apart(d, within_grace(now, d.grace));
    holder_found(d.conns, i, token, 0);
    parked_found(swept.parked, token);
    let holder = if token != Token::none() {
        live_holder(d.conns, i, token, 0)
    } else {
        None
    };
    let back = if token != Token::none() {
        parked_peer(swept.parked, token)
    } else {
        None
    };
    let out = admitted_at(d, i, now).0;
    if let Some(j) = holder {
        assert forall|a: int| 0 <= a < out.conns.len() && a != i && a != j implies #[trigger] out.conns[a]
            == d.conns[a] by {
        }
        assert(!live(out.conns[j]));
        assert forall|a: int, b: int|
            0 <= a < b < out.conns.len() && live(#[trigger] out.conns[a]) && live(
                #[trigger] out.conns[b],
            ) implies out.conns[a].peer != out.conns[b].peer by {
            if a == i {
                assert(d.conns[j].peer != d.conns[b].peer);
            } else if b == i {
                assert(d.conns[a].peer != d.conns[j].peer);
            }
        }
    } else if let Some(peer) = back {
        let mid = SessionsView { parked: swept.parked.filter(other_token(token)), ..swept };
        fewer_parked_apart(swept, other_token(token));
        kept_parked(swept.parked, other_token(token));
        let k = choose|k: int|
            0 <= k < swept.parked.len() && (#[trigger] swept.parked[k]).token == token
                && swept.parked[k].peer == peer;
        assert forall|l: int| 0 <= l < mid.parked.len() implies (#[trigger] mid.parked[l]).peer
            != peer by {
            let m = choose|m: int|
                0 <= m < swept.parked.len() && #[trigger] swept.parked[m] == swept.parked.filter(
                    other_token(token),
                )[l] && other_token(token)(swept.parked[m]);
            assert(swept.parked[m].token != token);
            if m < k {
                assert(swept.parked[m].peer != swept.parked[k].peer);
            } else {
                assert(swept.parked[k].peer != swept.parked[m].peer);
            }
        }
        assert forall|a: int| 0 <= a < out.conns.len() && a != i implies #[trigger] out.conns[a]
            == d.conns[a] by {
        }
        assert forall|a: int| 0 <= a < out.conns.len() && a != i && live(#[trigger] out.conns[a]) implies
            out.conns[a].peer != peer by {
            assert(swept.conns[a].peer != swept.parked[k].peer);
        }
    } else if d.next_peer < u8::MAX {
        assert forall|a: int| 0 <= a < out.conns.len() && a != i implies #[trigger] out.conns[a]
            == d.conns[a] by {
        }
        assert(out.parked == swept.parked);
    }
}

/// Losing a connection keeps ids apart: an id leaves play and is parked once.
pub proof fn loss_keeps_ids_apart(d: SessionsView, i: int, now: u64)
    requires
        ids_apart(d),
        0 <= i < d.conns.len(),
        !d.conns[i].gone,
    ensures
        ids_apart(lost_at(d, i, now)),
{
    let c = d.conns[i];
    let out = lost_at(d, i, now);
    assert forall|a: int| 0 <= a < out.conns.len() && a != i implies #[trigger] out.conns[a]
        == d.conns[a] by {
    }
    assert(!live(out.conns[i]));
    if c.authed && c.token != Token::none() {
        let f = other_token(c.token);
        fewer_parked_apart(d, f);
        let mid = SessionsView { parked: d.parked.filter(f), ..d };
        assert(live(d.conns[i]));
        assert forall|k: int| 0 <= k < mid.parked.len() implies out.parked[k]
            == #[trigger] mid.parked[k] && mid.parked[k].peer != c.peer by {
            assert(mid.conns[i].peer != mid.parked[k].peer);
        }
        let n = mid.parked.len();
        assert(out.parked[n as int].peer == c.peer);
        assert forall|a: int, k: int|
            0 <= a < out.conns.len() && 0 <= k < out.parked.len() && live(
                #[trigger] out.conns[a],
            ) implies out.conns[a].peer != (#[trigger] out.parked[k]).peer by {
            if k < n {
                assert(mid.conns[a].peer != mid.parked[k].peer);
            } else if a < i {
                assert(d.conns[a].peer != d.conns[i].peer);
            } else {
                assert(d.conns[i].peer != d.conns[a].peer);
            }
        }
    }
}

/// A reconnect inside the grace window gets its old peer id back; once the
/// window closed, the token gets a fresh one.
pub proof fn reconnect_reclaims_within_grace(d: SessionsView, i: int, now: u64, k: int)
    requires
        ids_apart(d),
        0 <= i < d.conns.len(),
        !d.conns[i].authed,
        !d.conns[i].gone,
        d.conns[i].token != Token::none(),
        live_holder(d.conns, i, d.conns[i].token, 0) is None,
        0 <= k < d.parked.len(),
        d.parked[k].token == d.conns[i].token,
        forall|l: int|
            0 <= l < d.parked.len() && l != k ==> (#[trigger] d.parked[l]).token
                != d.conns[i].token,
    ensures
        now <= d.parked[k].at + d.grace ==> admitted_at(d, i, now).0.conns[i].peer
            == d.parked[k].peer && admitted_at(d, i, now).0.joined == d.joined.push(
            d.parked[k].peer,
        ),
        now > d.parked[k].at + d.grace && d.next_peer < u8::MAX ==> admitted_at(
            d,
            i,
            now,
        ).0.conns[i].peer == d.next_peer,
{
    let token = d.conns[i].token;
    let f = within_grace(now, d.grace);
    let kept = d.parked.filter(f);
    crate::sort::filter_members(d.parked, f);
    kept_parked(d.parked, f);
    parked_found(kept, token);
    if now <= d.parked[k].at + d.grace {
        assert(f(d.parked[k]));
        assert(d.parked.contains(d.parked[k]));
        assert(kept.contains(d.parked[k]));
        parked_there(kept, token, d.parked[k]);
        let l = choose|l: int|
            0 <= l < kept.len() && (#[trigger] kept[l]).token == token && kept[l].peer
                == parked_peer(kept, token)->0;
        let m = choose|m: int|
            0 <= m < d.parked.len() && #[trigger] d.parked[m] == d.parked.filter(f)[l] && f(
                d.parked[m],
            );
        assert(m == k);
    } else {
        if parked_peer(kept, token) is Some {
            let l = choose|l: int|
                0 <= l < kept.len() && (#[trigger] kept[l]).token == token && kept[l].peer
                    == parked_peer(kept, token)->0;
            let m = choose|m: int|
                0 <= m < d.parked.len() && #[trigger] d.parked[m] == d.parked.filter(f)[l] && f(
                d.parked[m],
            );
            assert(m == k);
        }
    }
}

/// A parked token is found.
proof fn parked_there(parked: Seq<Parked>, token: Token, x: Parked)
    requires
        parked.contains(x),
        x.token == token,
    ensures
        parked_peer(parked, token) is Some,
    decreases parked.len(),
{
    if parked[0].token != token {
        let k = choose|k: int| 0 <= k < parked.len() && parked[k] == x;
        assert(parked.drop_first()[k - 1] == x);
        parked_there(parked.drop_first(), token, x);
    }
}

/// A redial before the drop was noticed takes over quietly: the old
/// connection is closed, its peer id goes to the new one, nobody leaves.
pub proof fn redial_supersedes_quietly(d: SessionsView, i: int, now: u64, j: int)
    requires
        ids_apart(d),
        0 <= i < d.conns.len(),
        d.conns[i].token != Token::none(),
        live_holder(d.conns, i, d.conns[i].token, 0) == Some(j),
    ensures
        ({
            let out = admitted_at(d, i, now);
            &&& out.0.conns[i].peer == d.conns[j].peer
            &&& !out.0.conns[j].authed
            &&& out.0.left == d.left
            &&& out.1 == Some(Close { handle: d.conns[j].handle, reason: Reason::Superseded })
        }),
{
    holder_found(d.conns, i, d.conns[i].token, 0);
}

/// Only the password opens the door: frames never admit anyone, a connection
/// waits for admission exactly when it presented a whole session frame with
/// the right password, and one with a wrong password is told so and changes
/// nothing.
pub proof fn only_the_password_opens_the_door(d: SessionsView, i: int, f: FrameView)
    requires
        0 <= i < d.conns.len(),
    ensures
        ({
            let out = frame_at(d, i, f).0;
            &&& out.joined == d.joined
            &&& out.conns[i].authed == d.conns[i].authed
            &&& out.conns[i].peer == d.conns[i].peer
            &&& out.pending.len() > d.pending.len() <==> f.ty == FRAME_AUTH && !d.conns[i].authed
                && !d.conns[i].gone && f.payload.len() >= 16 && password_fits(
                d.password,
                f.payload.skip(16),
            )
            &&& frame_at(d, i, f).1 == Some(Reason::BadPassword) <==> f.ty == FRAME_AUTH
                && !d.conns[i].authed && !d.conns[i].gone && f.payload.len() >= 16
                && !password_fits(d.password, f.payload.skip(16))
            &&& frame_at(d, i, f).1 is Some ==> out == d
        }),
{
}

/// What the first of a run of frames was answered heads the answers of all,
/// and no run admits its connection or anyone else.
pub proof fn frames_answer_in_order(d: SessionsView, i: int, f: FrameView, more: Seq<FrameView>)
    requires
        0 <= i < d.conns.len(),
    ensures
        ({
            let out = frames_at(d, i, seq![f] + more);
            &&& frame_at(d, i, f).1 matches Some(r) ==> out.1.len() > 0 && out.1[0] == r
            &&& out.0.joined == d.joined
            &&& out.0.conns.len() == d.conns.len()
            &&& out.0.conns[i].authed == d.conns[i].authed
        }),
    decreases more.len(),
{
    let all = seq![f] + more;
    if more.len() == 0 {
        assert(all.drop_last() =~= Seq::<FrameView>::empty());
        assert(frames_at(d, i, all.drop_last()) == (d, Seq::<Reason>::empty()));
    } else {
        frames_answer_in_order(d, i, f, more.drop_last());
        assert(all.drop_last() =~= seq![f] + more.drop_last());
    }
}

/// Before admission nothing gets through: datagrams change nothing, frames
/// deliver no events.
pub proof fn outsiders_are_not_heard(d: SessionsView, i: int, data: Seq<u8>, f: FrameView)
    requires
        0 <= i < d.conns.len(),
        !d.conns[i].authed,
    ensures
        datagram_at(d, i, data) == d,
        frame_at(d, i, f).0.events == d.events,
{
}

} // verus!
