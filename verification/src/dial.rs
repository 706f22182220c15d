//! The client's side of the door: answering the server's hello, and what
//! goes out and comes in once admitted.

use vstd::prelude::*;
use vstd::string::StringExecFns;

use crate::frame::{
    ack_bytes, ack_datagram, frame_bytes, frame_views, frame_write, frames_of, frames_parse,
    inputs_bytes, ring_pushed, ring_sound, Frame, FrameView, InputRing, RingView, DGRAM_INPUT,
    DGRAM_SNAPSHOT,
};
use crate::reg::EVENT_USER_BASE;
use crate::schema::{diff_text, schema_decode, schema_diff, schema_rows};
use crate::session::{
    frame_at, password_fits, with_conn, Reason, SessionsView, Token, FRAME_AUTH,
    FRAME_HELLO, FRAME_WELCOME,
};
use crate::text::{bytes_eq, utf8};
use crate::wire::{cut, le64, le64_round_trip, put_bytes};

verus! {

/// A client's session as contracts see it.
#[verifier::ext_equal]
pub struct DialView {
    pub schema: Seq<u8>,
    pub password: Option<Seq<char>>,
    pub token: Token,
    pub connected: bool,
    pub gone: bool,
    pub stream_in: Seq<u8>,
    pub stream_out: Seq<u8>,
    pub peer: Option<u8>,
    pub snapshots: Seq<Seq<u8>>,
    pub error: Option<Seq<char>>,
    pub inputs: RingView,
}

/// Why two schemas disagree, in words.
pub open spec fn mismatch_text(server: Seq<u8>, client: Seq<u8>) -> Seq<char> {
    "schema mismatch with server: "@ + match (schema_rows(server), schema_rows(client)) {
        (Some(s), Some(c)) => diff_text(s, c),
        _ => "undecodable schema"@,
    }
}

/// What the client answers the hello with: session token, then password
/// (empty when it has none).
pub open spec fn auth_payload(token: Token, password: Option<Seq<char>>) -> Seq<u8> {
    token.written() + match password {
        Some(p) => utf8(p),
        None => Seq::empty(),
    }
}

/// A frame arrived: the hello is answered when the schemas agree and
/// explained when they don't; the welcome carries our peer id.
pub open spec fn answer(d: DialView, f: FrameView) -> (DialView, Option<Reason>) {
    if f.ty == FRAME_HELLO {
        if f.payload != d.schema {
            (
                DialView { error: Some(mismatch_text(f.payload, d.schema)), ..d },
                Some(Reason::SchemaMismatch),
            )
        } else {
            (
                DialView {
                    stream_out: d.stream_out + frame_bytes(
                        FrameView { ty: FRAME_AUTH, payload: auth_payload(d.token, d.password) },
                    ),
                    ..d
                },
                None,
            )
        }
    } else if f.ty == FRAME_WELCOME && f.payload.len() > 0 {
        (DialView { peer: Some(f.payload[0]), ..d }, None)
    } else {
        (d, None)
    }
}

/// Frames in order, and every reason to close they gave.
pub open spec fn answers(d: DialView, frames: Seq<FrameView>) -> (DialView, Seq<Reason>)
    decreases frames.len(),
{
    if frames.len() == 0 {
        (d, Seq::empty())
    } else {
        let before = answers(d, frames.drop_last());
        let step = answer(before.0, frames.last());
        (
            step.0,
            match step.1 {
                Some(r) => before.1.push(r),
                None => before.1,
            },
        )
    }
}

/// A client's session.
pub struct Dial {
    schema: Vec<u8>,
    password: Option<String>,
    token: Token,
    connected: bool,
    gone: bool,
    stream_in: Vec<u8>,
    stream_out: Vec<u8>,
    peer: Option<u8>,
    snapshots: Vec<Vec<u8>>,
    error: Option<String>,
    inputs: InputRing,
}

/// Buffers as plain values.
pub open spec fn buffers(bs: Seq<Vec<u8>>) -> Seq<Seq<u8>> {
    bs.map_values(|b: Vec<u8>| b@)
}

impl View for Dial {
    type V = DialView;

    closed spec fn view(&self) -> DialView {
        DialView {
            schema: self.schema@,
            password: match self.password {
                Some(p) => Some(p@),
                None => None,
            },
            token: self.token,
            connected: self.connected,
            gone: self.gone,
            stream_in: self.stream_in@,
            stream_out: self.stream_out@,
            peer: self.peer,
            snapshots: buffers(self.snapshots@),
            error: match self.error {
                Some(e) => Some(e@),
                None => None,
            },
            inputs: self.inputs@,
        }
    }
}

impl Dial {
    /// A client that presents this encoded schema and session token.
    pub fn new(schema: Vec<u8>, token: Token) -> (r: Self)
        ensures
            r@ == (DialView {
                schema: schema@,
                password: None,
                token,
                connected: false,
                gone: false,
                stream_in: Seq::empty(),
                stream_out: Seq::empty(),
                peer: None,
                snapshots: Seq::empty(),
                error: None,
                inputs: RingView { seq: 0, recent: Seq::empty() },
            }),
            ring_sound(r@.inputs),
    {
        let r = Dial {
            schema,
            password: None,
            token,
            connected: false,
            gone: false,
            stream_in: Vec::new(),
            stream_out: Vec::new(),
            peer: None,
            snapshots: Vec::new(),
            error: None,
            inputs: InputRing::new(),
        };
        assert(r@.snapshots =~= Seq::<Seq<u8>>::empty());
        r
    }

    /// Present this session password when the hello arrives.
    pub fn password_set(&mut self, pw: &str)
        ensures
            final(self)@ == (DialView { password: Some(pw@), ..old(self)@ }),
    {
        self.password = Some(pw.to_owned());
        assert(self@ =~= DialView { password: Some(pw@), ..old(self)@ });
    }

    /// Use this session token. A redial presenting the token of a session
    /// inside the server's grace window gets its old peer id back.
    pub fn session_token_set(&mut self, token: Token)
        ensures
            final(self)@ == (DialView { token, ..old(self)@ }),
    {
        self.token = token;
        assert(self@ =~= DialView { token, ..old(self)@ });
    }

    /// The transport's handshake completed.
    pub fn connected(&mut self)
        ensures
            final(self)@ == (DialView { connected: true, ..old(self)@ }),
    {
        self.connected = true;
        assert(self@ =~= DialView { connected: true, ..old(self)@ });
    }

    /// The connection is lost; the first error stands.
    pub fn lost(&mut self, reason: &str)
        ensures
            final(self)@ == (DialView {
                gone: true,
                error: match old(self)@.error {
                    Some(e) => Some(e),
                    None => Some(reason@),
                },
                ..old(self)@
            }),
    {
        let ghost d0 = self@;
        self.gone = true;
        if self.error.is_none() {
            self.error = Some(reason.to_owned());
        }
        assert(self@ =~= DialView {
            gone: true,
            error: match d0.error {
                Some(e) => Some(e),
                None => Some(reason@),
            },
            ..d0
        });
    }

    /// Stream bytes arrived.
    pub fn fed(&mut self, data: &[u8])
        ensures
            final(self)@ == (DialView {
                stream_in: old(self)@.stream_in + data@,
                ..old(self)@
            }),
    {
        put_bytes(&mut self.stream_in, data);
        assert(self@ =~= DialView { stream_in: old(self)@.stream_in + data@, ..old(self)@ });
    }

    /// A datagram arrived: snapshots are kept for the net task.
    pub fn datagram(&mut self, data: &[u8])
        ensures
            final(self)@ == if data@.len() > 0 && data@[0] == DGRAM_SNAPSHOT {
                DialView { snapshots: old(self)@.snapshots.push(data@.skip(1)), ..old(self)@ }
            } else {
                old(self)@
            },
    {
        let ghost d0 = self@;
        let n: usize = data.len();
        if n > 0 && data[0] == DGRAM_SNAPSHOT {
            let body: Vec<u8> = cut(data, 1, n);
            assert(body@ =~= data@.skip(1));
            self.snapshots.push(body);
            assert(self@.snapshots =~= d0.snapshots.push(data@.skip(1)));
        }
    }

    /// Handle the whole frames that arrived; gives the reasons to close.
    pub fn frames(&mut self) -> (r: Vec<Reason>)
        ensures
            ({
                let read = frames_of(old(self)@.stream_in);
                (final(self)@, r@) == answers(
                    DialView { stream_in: read.1, ..old(self)@ },
                    read.0,
                )
            }),
    {
        let ghost d0 = self@;
        let mut out: Vec<Reason> = Vec::new();
        let frames: Vec<Frame> = frames_parse(&mut self.stream_in);
        let ghost views = frame_views(frames@);
        let ghost d1 = self@;
        proof {
            assert(d1 =~= DialView { stream_in: frames_of(d0.stream_in).1, ..d0 });
            assert(views.take(0) =~= Seq::<FrameView>::empty());
            assert(out@ =~= Seq::<Reason>::empty());
        }
        let mut k: usize = 0;
        while k < frames.len()
            invariant
                views == frame_views(frames@),
                k <= frames@.len(),
                (self@, out@) == answers(d1, views.take(k as int)),
            decreases frames@.len() - k,
        {
            proof {
                assert(views.take(k + 1).drop_last() =~= views.take(k as int));
                assert(views.take(k + 1).last() == frames@[k as int]@);
            }
            if let Some(reason) = self.frame(&frames[k]) {
                out.push(reason);
            }
            k += 1;
        }
        assert(views.take(k as int) =~= views);
        out
    }

    /// Handle one frame.
    fn frame(&mut self, f: &Frame) -> (r: Option<Reason>)
        ensures
            (final(self)@, r) == answer(old(self)@, f@),
    {
        let ghost d0 = self@;
        if f.ty == FRAME_HELLO {
            if !bytes_eq(f.payload.as_slice(), self.schema.as_slice()) {
                // The decision is the byte compare; the diff explains it.
                let text: String = mismatch(f.payload.as_slice(), self.schema.as_slice());
                self.error = Some(text);
                assert(self@ =~= answer(d0, f@).0);
                return Some(Reason::SchemaMismatch);
            }
            let mut auth: Vec<u8> = Vec::new();
            self.token.write(&mut auth);
            if let Some(p) = &self.password {
                put_bytes(&mut auth, p.as_str().as_bytes());
            }
            assert(auth@ =~= auth_payload(d0.token, d0.password));
            frame_write(&mut self.stream_out, FRAME_AUTH, auth.as_slice());
            assert(self@ =~= answer(d0, f@).0);
            None
        } else if f.ty == FRAME_WELCOME && f.payload.len() > 0 {
            self.peer = Some(f.payload[0]);
            assert(self@ =~= answer(d0, f@).0);
            None
        } else {
            None
        }
    }

    /// Our peer id, once admitted. Assign it to the kernel's local peer
    /// before spawning any local entities.
    pub fn handshake_done(&self) -> (r: Option<u8>)
        ensures
            r == self@.peer,
    {
        self.peer
    }

    /// Whether the connection is lost.
    pub fn is_gone(&self) -> (r: bool)
        ensures
            r == self@.gone,
    {
        self.gone
    }

    /// What went wrong, if anything.
    pub fn error(&self) -> (r: Option<&str>)
        ensures
            match r {
                Some(e) => self@.error == Some(e@),
                None => self@.error is None,
            },
    {
        match &self.error {
            Some(e) => Some(e.as_str()),
            None => None,
        }
    }

    /// Snapshots received since the last drain.
    pub fn snapshots_drain(&mut self) -> (r: Vec<Vec<u8>>)
        ensures
            buffers(r@) == old(self)@.snapshots,
            final(self)@ == (DialView { snapshots: Seq::empty(), ..old(self)@ }),
    {
        let mut out: Vec<Vec<u8>> = Vec::new();
        std::mem::swap(&mut out, &mut self.snapshots);
        assert(self@.snapshots =~= Seq::<Seq<u8>>::empty());
        assert(self@ =~= DialView { snapshots: Seq::empty(), ..old(self)@ });
        out
    }

    /// The datagram that acks a snapshot. Loss just means the server
    /// declares that send lost off a later ack and resends.
    pub fn ack_send(&self, tick: u32, seq: u32) -> (r: Vec<u8>)
        ensures
            r@ == ack_bytes(tick, seq),
    {
        ack_datagram(tick, seq)
    }

    /// Take the next control input: assigns its sequence and gives the
    /// datagram to send.
    pub fn input_send(&mut self, payload: &[u8]) -> (r: (u32, Vec<u8>))
        requires
            ring_sound(old(self)@.inputs),
            old(self)@.inputs.seq < u32::MAX,
            payload@.len() <= u16::MAX,
        ensures
            ring_sound(final(self)@.inputs),
            final(self)@ == (DialView {
                inputs: ring_pushed(old(self)@.inputs, payload@),
                ..old(self)@
            }),
            r.0 == final(self)@.inputs.seq,
            r.1@ == seq![DGRAM_INPUT] + inputs_bytes(final(self)@.inputs.recent),
    {
        let ghost d0 = self@;
        let out: (u32, Vec<u8>) = self.inputs.input_send(payload);
        assert(self@ =~= DialView { inputs: ring_pushed(d0.inputs, payload@), ..d0 });
        out
    }

    /// Queue a typed event on the reliable ordered stream.
    pub fn event_send(&mut self, ty: u16, payload: &[u8])
        requires
            ty >= EVENT_USER_BASE,
        ensures
            final(self)@ == (DialView {
                stream_out: old(self)@.stream_out + frame_bytes(
                    FrameView { ty, payload: payload@ },
                ),
                ..old(self)@
            }),
    {
        let ghost d0 = self@;
        frame_write(&mut self.stream_out, ty, payload);
        assert(self@ =~= DialView {
            stream_out: d0.stream_out + frame_bytes(FrameView { ty, payload: payload@ }),
            ..d0
        });
    }

    /// Bytes waiting for the reliable stream.
    pub fn stream_pending(&self) -> (r: &[u8])
        ensures
            r@ == self@.stream_out,
    {
        self.stream_out.as_slice()
    }

    /// The stream took the first `n` waiting bytes.
    pub fn stream_sent(&mut self, n: usize)
        requires
            n <= old(self)@.stream_out.len(),
        ensures
            final(self)@ == (DialView {
                stream_out: old(self)@.stream_out.skip(n as int),
                ..old(self)@
            }),
    {
        let ghost d0 = self@;
        let len: usize = self.stream_out.len();
        let rest: Vec<u8> = cut(self.stream_out.as_slice(), n, len);
        self.stream_out = rest;
        assert(rest@ =~= d0.stream_out.skip(n as int));
        assert(self@ =~= DialView { stream_out: d0.stream_out.skip(n as int), ..d0 });
    }
}

/// Explain a failed schema compare.
fn mismatch(server: &[u8], client: &[u8]) -> (r: String)
    ensures
        r@ == mismatch_text(server@, client@),
{
    let mut out: String = String::new();
    out.append("schema mismatch with server: ");
    match (schema_decode(server), schema_decode(client)) {
        (Some(s), Some(c)) => {
            let diff: String = schema_diff(s.as_slice(), c.as_slice());
            out.append(diff.as_str());
        },
        _ => {
            out.append("undecodable schema");
        },
    }
    assert(out@ =~= mismatch_text(server@, client@));
    out
}

/// A token reads back.
pub proof fn token_round_trip(token: Token, rest: Seq<u8>)
    ensures
        Token::read(token.written() + rest) == token,
        (token.written() + rest).skip(16) == rest,
        (token.written() + rest).len() >= 16,
{
    let b = token.written() + rest;
    le64_round_trip(token.lo);
    le64_round_trip(token.hi);
    assert(b.subrange(0, 8) =~= le64(token.lo));
    assert(b.subrange(8, 16) =~= le64(token.hi));
    assert(b.skip(16) =~= rest);
}

/// Ends that agree shake hands: a client with the server's schema answers
/// the hello with a session frame that the server — open, or locked with the
/// same password — takes as that token's knock.
pub proof fn agreeing_ends_shake_hands(d: DialView, s: SessionsView, i: int)
    requires
        d.schema == s.schema,
        s.password is None || s.password == d.password,
        0 <= i < s.conns.len(),
        !s.conns[i].authed,
        !s.conns[i].gone,
    ensures
        ({
            let auth = FrameView { ty: FRAME_AUTH, payload: auth_payload(d.token, d.password) };
            let (after, close) = answer(
                d,
                FrameView { ty: FRAME_HELLO, payload: s.schema },
            );
            let (heard, refused) = frame_at(s, i, auth);
            &&& close is None
            &&& after.stream_out == d.stream_out + frame_bytes(auth)
            &&& refused is None
            &&& heard.conns[i].token == d.token
            &&& heard.pending == s.pending.push(s.conns[i].handle)
        }),
{
    let rest = match d.password {
        Some(p) => utf8(p),
        None => Seq::empty(),
    };
    token_round_trip(d.token, rest);
    assert(password_fits(s.password, rest));
    let _ = with_conn(s, i, s.conns[i]);
}

/// Ends that disagree part at once: a client with another schema closes the
/// connection and presents no session.
pub proof fn disagreeing_ends_part(d: DialView, schema: Seq<u8>)
    requires
        d.schema != schema,
    ensures
        ({
            let (after, close) = answer(d, FrameView { ty: FRAME_HELLO, payload: schema });
            &&& close == Some(Reason::SchemaMismatch)
            &&& after.stream_out == d.stream_out
            &&& after.error is Some
        }),
{
}

// --- simulated link ---------------------------------------------------------

/// A packet held back until it is due.
pub struct Held<T> {
    pub due: u64,
    pub packet: T,
}

/// One direction of a simulated link: packets wait out the delay in order.
pub struct LagQueue<T> {
    held: std::collections::VecDeque<Held<T>>,
}

impl<T> View for LagQueue<T> {
    type V = Seq<Held<T>>;

    closed spec fn view(&self) -> Seq<Held<T>> {
        self.held@
    }
}

impl<T> LagQueue<T> {
    /// Nothing waiting.
    pub fn new() -> (r: Self)
        ensures
            r@ == Seq::<Held<T>>::empty(),
    {
        LagQueue { held: std::collections::VecDeque::new() }
    }

    /// Hold a packet for `delay` nanoseconds.
    pub fn push(&mut self, now: u64, delay: u64, packet: T)
        ensures
            final(self)@ == old(self)@.push(
                Held {
                    due: if now + delay > u64::MAX {
                        u64::MAX
                    } else {
                        (now + delay) as u64
                    },
                    packet,
                },
            ),
    {
        self.held.push_back(Held { due: now.saturating_add(delay), packet });
    }

    /// The oldest packet, if it has served its delay.
    pub fn pop_due(&mut self, now: u64) -> (r: Option<T>)
        ensures
            ({
                let due = old(self)@.len() > 0 && old(self)@[0].due <= now;
                &&& r is Some <==> due
                &&& r matches Some(p) ==> p == old(self)@[0].packet
                &&& final(self)@ == if due {
                    old(self)@.drop_first()
                } else {
                    old(self)@
                }
            }),
    {
        if self.held.len() > 0 && self.held[0].due <= now {
            let h: Held<T> = self.held.pop_front().unwrap();
            assert(self@ =~= old(self)@.drop_first());
            Some(h.packet)
        } else {
            None
        }
    }
}

} // verus!
