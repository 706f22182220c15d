//! End to end over QUIC, on a wire and a clock of the test's own: the
//! handshake, the schema check, replication with acks, removal, events and
//! inputs, passwords, reconnects and dead clients.

use std::collections::{BTreeMap, VecDeque};
use std::sync::Arc;
use std::time::{Duration, Instant};

use bytes::BytesMut;
use pm::apply::NetClient;
use pm::delta::BytePool;
use pm::dial::{Dial, LagQueue};
use pm::frame::{frame_write, DGRAM_INPUT};
use pm::id::Id;
use pm::kernel::Pm;
use pm::link::{
    ack_send, dgram_space, flush_dial, flush_line, hear, input_send, reap, serve_dial,
    serve_lines, snapshot_budget, snapshot_send, stream_read, view_send, Heard, Inlet, Line,
    Stream, STREAM_NUMBERS,
};
use pm::net::NetServer;
use pm::netmod::{client_tick, server_tick, ClientTurn};
use pm::reg::{Outbox, SchemaRow, WireKind};
use pm::schema::schema_encode;
use pm::serve::{Connect, Serve};
use pm::session::{Sessions, Token};
use quinn_proto::congestion::BbrConfig;
use quinn_proto::crypto::rustls::{QuicClientConfig, QuicServerConfig};
use quinn_proto::{
    ClientConfig, Connection, ConnectionHandle, DatagramEvent, Dir, Endpoint, EndpointConfig,
    IdleTimeout, ServerConfig, TransportConfig,
};

// --- a wire and a clock ------------------------------------------------------

struct Packet {
    to: u16,
    from: u16,
    data: Vec<u8>,
}

/// Packets in flight: one-way delay, and loss by the roll of a seeded die.
struct Wire {
    start: Instant,
    ns: u64,
    delay: u64,
    loss: f32,
    rng: u32,
    flying: LagQueue<Packet>,
    landed: VecDeque<Packet>,
}

impl Wire {
    fn new() -> Self {
        Wire {
            start: Instant::now(),
            ns: 0,
            delay: 0,
            loss: 0.0,
            rng: 7,
            flying: LagQueue::new(),
            landed: VecDeque::new(),
        }
    }

    fn now(&self) -> Instant {
        self.start + Duration::from_nanos(self.ns)
    }

    fn step(&mut self, ms: u64) {
        self.ns += ms * 1_000_000;
        while let Some(p) = self.flying.pop_due(self.ns) {
            self.landed.push_back(p);
        }
    }

    fn send(&mut self, from: u16, to: u16, data: &[u8]) {
        self.rng ^= self.rng << 13;
        self.rng ^= self.rng >> 17;
        self.rng ^= self.rng << 5;
        if self.loss > 0.0 && (self.rng as f32 / u32::MAX as f32) < self.loss {
            return;
        }
        let p = Packet { to, from, data: data.to_vec() };
        if self.delay == 0 {
            self.landed.push_back(p);
        } else {
            self.flying.push(self.ns, self.delay, p);
        }
    }

    fn take(&mut self, to: u16) -> Option<Packet> {
        let at = self.landed.iter().position(|p| p.to == to)?;
        self.landed.remove(at)
    }
}

fn tune() -> Arc<TransportConfig> {
    let mut tc = TransportConfig::default();
    tc.keep_alive_interval(Some(Duration::from_secs(2)));
    tc.max_idle_timeout(Some(IdleTimeout::try_from(Duration::from_secs(5)).unwrap()));
    tc.datagram_send_buffer_size(16 * 1024);
    tc.congestion_controller_factory(Arc::new(BbrConfig::default()));
    Arc::new(tc)
}

fn tick(conn: &mut Connection, now: Instant) {
    if let Some(due) = conn.poll_timeout() {
        if now >= due {
            conn.handle_timeout(now);
        }
    }
}

fn carry(endpoint: &mut Endpoint, ch: ConnectionHandle, conn: &mut Connection, wire: &mut Wire, me: u16) {
    while let Some(ev) = conn.poll_endpoint_events() {
        if let Some(back) = endpoint.handle_event(ch, ev) {
            conn.handle_event(back);
        }
    }
    let mut buf = Vec::new();
    while let Some(t) = conn.poll_transmit(wire.now(), 1, &mut buf) {
        wire.send(me, t.destination.port(), &buf[..t.size]);
        buf.clear();
    }
}

// --- the two ends ------------------------------------------------------------

const SERVER: u16 = 7000;

struct Server {
    endpoint: Endpoint,
    lines: Vec<Line>,
    sessions: Sessions,
}

impl Server {
    fn bind(schema: &[SchemaRow]) -> Self {
        let cert = rcgen::generate_simple_self_signed(vec!["pm".to_string()]).unwrap();
        let der = cert.cert.der().clone();
        let key = rustls::pki_types::PrivatePkcs8KeyDer::from(cert.signing_key.serialize_der());
        let mut crypto = rustls::ServerConfig::builder()
            .with_no_client_auth()
            .with_single_cert(vec![der], key.into())
            .unwrap();
        crypto.alpn_protocols = vec![b"pm/4".to_vec()];
        let quic = QuicServerConfig::try_from(crypto).unwrap();
        let mut config = ServerConfig::with_crypto(Arc::new(quic));
        config.transport_config(tune());
        let endpoint = Endpoint::new(
            Arc::new(EndpointConfig::default()),
            Some(Arc::new(config)),
            true,
            None,
        );
        Server { endpoint, lines: Vec::new(), sessions: Sessions::new(schema_encode(schema)) }
    }

    fn pump(&mut self, wire: &mut Wire) {
        let now = wire.now();
        let mut out = Vec::new();
        while let Some(p) = wire.take(SERVER) {
            out.clear();
            let from = format!("127.0.0.1:{}", p.from).parse().unwrap();
            match self.endpoint.handle(now, from, None, None, BytesMut::from(&p.data[..]), &mut out) {
                Some(DatagramEvent::NewConnection(incoming)) => {
                    out.clear();
                    if let Ok((ch, conn)) = self.endpoint.accept(incoming, now, &mut out, None) {
                        self.sessions.accept(ch.0, wire.ns);
                        self.lines.push(Line { handle: ch.0, conn, stream: None });
                    }
                }
                Some(DatagramEvent::ConnectionEvent(ch, ev)) => {
                    if let Some(l) = self.lines.iter_mut().find(|l| l.handle == ch.0) {
                        l.conn.handle_event(ev);
                    }
                }
                Some(DatagramEvent::Response(t)) => {
                    wire.send(SERVER, t.destination.port(), &out[..t.size]);
                }
                None => {}
            }
        }
        for l in self.lines.iter_mut() {
            tick(&mut l.conn, now);
        }
        serve_lines(&mut self.sessions, &mut self.lines, now, wire.ns);
        for l in self.lines.iter_mut() {
            flush_line(&mut self.sessions, l);
            carry(&mut self.endpoint, ConnectionHandle(l.handle), &mut l.conn, wire, SERVER);
        }
        reap(&mut self.sessions, &mut self.lines);
    }

    fn line(&mut self, peer: u8) -> Option<&mut Line> {
        let handle = self.sessions.route(peer)?;
        self.lines.iter_mut().find(|l| l.handle == handle)
    }

    fn send(&mut self, peer: u8, snapshot: &[u8]) {
        let Some(handle) = self.sessions.route(peer) else {
            return;
        };
        if let Some(l) = self.lines.iter_mut().find(|l| l.handle == handle) {
            snapshot_send(&mut self.sessions, peer, &mut l.conn, snapshot);
        }
    }
}

#[derive(Debug)]
struct AnyCert(Arc<rustls::crypto::CryptoProvider>);

impl rustls::client::danger::ServerCertVerifier for AnyCert {
    fn verify_server_cert(
        &self,
        _end_entity: &rustls::pki_types::CertificateDer<'_>,
        _intermediates: &[rustls::pki_types::CertificateDer<'_>],
        _server_name: &rustls::pki_types::ServerName<'_>,
        _ocsp: &[u8],
        _now: rustls::pki_types::UnixTime,
    ) -> Result<rustls::client::danger::ServerCertVerified, rustls::Error> {
        Ok(rustls::client::danger::ServerCertVerified::assertion())
    }

    fn verify_tls12_signature(
        &self,
        _message: &[u8],
        _cert: &rustls::pki_types::CertificateDer<'_>,
        _dss: &rustls::DigitallySignedStruct,
    ) -> Result<rustls::client::danger::HandshakeSignatureValid, rustls::Error> {
        Ok(rustls::client::danger::HandshakeSignatureValid::assertion())
    }

    fn verify_tls13_signature(
        &self,
        _message: &[u8],
        _cert: &rustls::pki_types::CertificateDer<'_>,
        _dss: &rustls::DigitallySignedStruct,
    ) -> Result<rustls::client::danger::HandshakeSignatureValid, rustls::Error> {
        Ok(rustls::client::danger::HandshakeSignatureValid::assertion())
    }

    fn supported_verify_schemes(&self) -> Vec<rustls::SignatureScheme> {
        self.0.signature_verification_algorithms.supported_schemes()
    }
}

struct Client {
    port: u16,
    endpoint: Endpoint,
    ch: ConnectionHandle,
    conn: Connection,
    stream: Option<Stream>,
    dial: Dial,
}

impl Client {
    fn connect(wire: &Wire, port: u16, schema: &[SchemaRow], token: [u8; 16]) -> Self {
        let provider = Arc::new(rustls::crypto::ring::default_provider());
        let mut crypto = rustls::ClientConfig::builder()
            .dangerous()
            .with_custom_certificate_verifier(Arc::new(AnyCert(provider)))
            .with_no_client_auth();
        crypto.alpn_protocols = vec![b"pm/4".to_vec()];
        let quic = QuicClientConfig::try_from(crypto).unwrap();
        let mut config = ClientConfig::new(Arc::new(quic));
        config.transport_config(tune());
        let mut endpoint = Endpoint::new(Arc::new(EndpointConfig::default()), None, true, None);
        let to = format!("127.0.0.1:{SERVER}").parse().unwrap();
        let (ch, conn) = endpoint.connect(wire.now(), config, to, "pm").unwrap();
        let dial = Dial::new(schema_encode(schema), Token::from_bytes(&token));
        Client { port, endpoint, ch, conn, stream: None, dial }
    }

    fn pump(&mut self, wire: &mut Wire) {
        let now = wire.now();
        let mut out = Vec::new();
        while let Some(p) = wire.take(self.port) {
            out.clear();
            let from = format!("127.0.0.1:{}", p.from).parse().unwrap();
            match self.endpoint.handle(now, from, None, None, BytesMut::from(&p.data[..]), &mut out) {
                Some(DatagramEvent::ConnectionEvent(_, ev)) => self.conn.handle_event(ev),
                Some(DatagramEvent::Response(t)) => {
                    wire.send(self.port, t.destination.port(), &out[..t.size]);
                }
                _ => {}
            }
        }
        tick(&mut self.conn, now);
        serve_dial(&mut self.dial, &mut self.conn, &mut self.stream, now);
        flush_dial(&mut self.dial, &mut self.conn, self.stream);
        carry(&mut self.endpoint, self.ch, &mut self.conn, wire, self.port);
    }
}

// --- worlds ------------------------------------------------------------------

#[derive(Clone, Copy, PartialEq, Debug, Default)]
struct Pos {
    x: f32,
    y: f32,
}

type World = Pm<BytePool>;

fn add(pm: &mut World, id: Id, p: Pos) {
    let mut b = p.x.to_le_bytes().to_vec();
    b.extend_from_slice(&p.y.to_le_bytes());
    pm.pool_at_mut(0).add(id, b);
}

fn get(pm: &World, id: Id) -> Option<Pos> {
    let b = pm.pool_at(0).rows_ref().get(id)?;
    let f = |k: usize| f32::from_le_bytes([b[k], b[k + 1], b[k + 2], b[k + 3]]);
    Some(Pos { x: f(0), y: f(4) })
}

fn len(pm: &World) -> usize {
    pm.pool_at(0).rows_ref().len()
}

fn turn(pm: &mut World) {
    pm.tick_begin();
    let running = pm.tick_tasks();
    pm.tick_end(running);
}

fn row(name: &str, size: usize) -> SchemaRow {
    SchemaRow { kind: WireKind::Pool.byte(), name: name.to_string(), size, hash: 0 }
}

fn server_world() -> (World, NetServer, Server) {
    let mut pm: World = Pm::new();
    let at = pm.pool("pos", BytePool::new(8));
    let mut net = NetServer::new(&mut pm);
    net.pool_sync("pos", at);
    (pm, net, Server::bind(&[row("pos", 8)]))
}

fn client_world() -> (World, NetClient) {
    let mut pm: World = Pm::new();
    let at = pm.pool("pos", BytePool::new(8));
    let mut net = NetClient::new();
    net.pool_sync("pos", at);
    (pm, net)
}

/// Everyone's snapshot, then the world's bookkeeping.
fn stream_out(pm: &mut World, net: &mut NetServer, quic: &mut Server) {
    for p in net.peers() {
        if let Some(snap) = net.snapshot(pm, p) {
            quic.send(p, &snap);
        }
    }
    net.prune(pm);
}

/// Apply and ack what arrived.
fn stream_in(pm: &mut World, net: &NetClient, quic: &mut Client) -> Option<u32> {
    let mut echo = None;
    for snap in quic.dial.snapshots_drain() {
        if let Ok(a) = net.apply(pm, &snap) {
            ack_send(&mut quic.conn, a.tick, a.seq);
            echo = Some(a.input_seq);
        }
    }
    echo
}

// --- tests -------------------------------------------------------------------

#[test]
fn quic_tests_quic_loopback_full_stack() {
    let (mut spm, mut snet, mut squic) = server_world();
    let ids: Vec<Id> = (0..20)
        .map(|i| {
            let id = spm.id_add();
            add(&mut spm, id, Pos { x: i as f32, y: 2.0 * i as f32 });
            id
        })
        .collect();
    let (mut cpm, cnet) = client_world();
    let mut wire = Wire::new();
    let mut cquic = Client::connect(&wire, 7001, &[row("pos", 8)], [1; 16]);

    let mut event_sent = false;
    let mut event_received = false;
    let mut removed = false;
    let mut input_sent = 0u32;
    let mut input_echo = 0u32;
    let mut peer_id = 0u8;
    let mut posed = None;
    let mut converged_then_removed = false;
    for _ in 0..10_000 {
        wire.step(1);
        squic.pump(&mut wire);
        for p in squic.sessions.joined_drain() {
            snet.peer_add(p);
        }
        for p in squic.sessions.left_drain() {
            snet.peer_remove(p);
        }
        for (p, t, sq) in squic.sessions.acks_drain() {
            snet.ack(p, t, sq);
        }
        for i in squic.sessions.inputs_drain() {
            assert_eq!(i.payload, b"drv", "input payload corrupted");
            snet.input_processed(i.peer, i.seq);
        }
        for e in squic.sessions.events_drain() {
            if e.ty == 17 && e.payload == b"hello" {
                event_received = true;
            }
        }
        turn(&mut spm);
        stream_out(&mut spm, &mut snet, &mut squic);
        if peer_id > 0 {
            posed = squic.sessions.view_pose(peer_id);
        }

        cquic.pump(&mut wire);
        assert!(cquic.dial.error().is_none(), "client error: {:?}", cquic.dial.error());
        if let Some(peer) = cquic.dial.handshake_done() {
            cpm.local_peer_set(peer);
            peer_id = peer;
            if !event_sent {
                cquic.dial.event_send(17, b"hello");
                event_sent = true;
            }
            input_sent = input_send(&mut cquic.dial, &mut cquic.conn, b"drv");
            view_send(&mut cquic.conn, &vec![1, 2, 3, 4, 5, 6]);
        }
        if let Some(echo) = stream_in(&mut cpm, &cnet, &mut cquic) {
            input_echo = echo;
        }
        turn(&mut cpm);

        let synced = len(&cpm) == 20 && get(&cpm, ids[7]) == Some(Pos { x: 7.0, y: 14.0 });
        if synced && !removed {
            spm.id_remove(ids[3]);
            removed = true;
        }
        if removed && !cpm.id_alive(ids[3]) && len(&cpm) == 19 && event_received && input_echo > 0 {
            converged_then_removed = true;
            break;
        }
    }
    assert!(converged_then_removed, "did not converge over QUIC within deadline");
    assert!(input_sent > 0 && input_echo <= input_sent, "input echo out of range");
    assert!(peer_id >= 1, "handshake should assign a peer id");
    assert_eq!(squic.sessions.oversize_drops(), 0);
    assert_eq!(posed, Some(vec![1, 2, 3, 4, 5, 6]));
}

#[test]
fn one_way_streams_are_read_by_the_far_end() {
    let (_spm, _snet, mut squic) = server_world();
    let mut wire = Wire::new();
    let mut cquic = Client::connect(&wire, 7001, &[row("pos", 8)], [1; 16]);
    let mut frame = Vec::new();
    frame_write(&mut frame, 17, b"hello");
    // An empty frame opens the stream; a later one finds it open.
    let mut first = Vec::new();
    frame_write(&mut first, 18, b"");
    let mut side = None;
    let mut events = Vec::new();
    for step in 0..2_000 {
        wire.step(1);
        squic.pump(&mut wire);
        cquic.pump(&mut wire);
        events.extend(squic.sessions.events_drain());
        if cquic.dial.handshake_done().is_none() {
            continue;
        }
        match side {
            None => {
                let id = cquic.conn.streams().open(Dir::Uni).unwrap();
                cquic.conn.send_stream(id).write(&first).unwrap();
                side = Some((id, step));
            }
            Some((id, at)) if step == at + 100 => {
                cquic.conn.send_stream(id).write(&frame).unwrap();
                // The end that opened it has nothing to read.
                let own = Inlet { by_server: false, two_way: false, index: id.index() };
                let mut b = vec![9];
                stream_read(&mut cquic.conn, own, &mut b);
                assert_eq!(b, vec![9]);
                // Nor has anyone on a number no stream can have.
                let far = Inlet { index: STREAM_NUMBERS + id.index(), ..own };
                stream_read(&mut cquic.conn, far, &mut b);
                let theirs = Inlet { by_server: true, two_way: true, index: STREAM_NUMBERS };
                stream_read(&mut cquic.conn, theirs, &mut b);
                assert_eq!(b, vec![9]);
            }
            _ => {}
        }
    }
    let heard: Vec<(u16, Vec<u8>)> = events.iter().map(|e| (e.ty, e.payload.clone())).collect();
    assert_eq!(heard, vec![(18, vec![]), (17, b"hello".to_vec())]);
}

#[test]
fn mismatched_schemas_part_over_quic() {
    let (_spm, _snet, mut squic) = server_world();
    let mut wire = Wire::new();
    // The client registers an extra pool.
    let mut cquic = Client::connect(&wire, 7001, &[row("pos", 8), row("hp", 4)], [1; 16]);
    for _ in 0..10_000 {
        wire.step(1);
        squic.pump(&mut wire);
        cquic.pump(&mut wire);
        if cquic.dial.error().is_some() {
            break;
        }
    }
    let text = cquic.dial.error().unwrap().to_string();
    assert!(text.starts_with("schema mismatch with server"), "{text}");
    assert!(text.contains("'hp'"), "the diff names the channel: {text}");
    assert!(squic.sessions.joined_drain().is_empty());
    // The close reaches the server, which forgets the connection.
    for _ in 0..10_000 {
        wire.step(1);
        squic.pump(&mut wire);
        cquic.pump(&mut wire);
    }
    assert!(squic.lines.is_empty());
    assert!(squic.sessions.handles().is_empty());
    assert!(squic.sessions.left_drain().is_empty());
}

#[test]
fn quic_tests_converges_under_lag_and_loss() {
    let (mut spm, mut snet, mut squic) = server_world();
    let ids: Vec<Id> = (0..15)
        .map(|i| {
            let id = spm.id_add();
            add(&mut spm, id, Pos { x: i as f32, y: -(i as f32) });
            id
        })
        .collect();
    let (mut cpm, cnet) = client_world();
    let mut wire = Wire::new();
    wire.delay = 15_000_000;
    wire.loss = 0.15;
    let mut cquic = Client::connect(&wire, 7001, &[row("pos", 8)], [1; 16]);

    let mut converged = false;
    for _ in 0..15_000 {
        wire.step(1);
        squic.pump(&mut wire);
        for p in squic.sessions.joined_drain() {
            snet.peer_add(p);
        }
        for (p, t, sq) in squic.sessions.acks_drain() {
            snet.ack(p, t, sq);
        }
        turn(&mut spm);
        stream_out(&mut spm, &mut snet, &mut squic);

        cquic.pump(&mut wire);
        stream_in(&mut cpm, &cnet, &mut cquic);
        turn(&mut cpm);
        if len(&cpm) == 15 && ids.iter().all(|&id| get(&cpm, id) == get(&spm, id)) {
            converged = true;
            break;
        }
    }
    assert!(converged, "did not converge under 15ms lag + 15% loss");
    assert!(
        cquic.conn.rtt() >= Duration::from_millis(25),
        "RTT should reflect the simulated lag"
    );
}

#[test]
fn quic_tests_dead_clients_are_reaped_by_idle_timeout() {
    let (_spm, _snet, mut squic) = server_world();
    let mut wire = Wire::new();
    let mut cquic = Some(Client::connect(&wire, 7001, &[row("pos", 8)], [1; 16]));
    let mut joined = None;
    let mut reaped = None;
    for _ in 0..3_000 {
        wire.step(5);
        squic.pump(&mut wire);
        if let Some(p) = squic.sessions.joined_drain().pop() {
            joined = Some(p);
            cquic = None; // the client process dies: no close, just silence
        }
        if let Some(p) = squic.sessions.left_drain().pop() {
            reaped = Some(p);
            break;
        }
        if let Some(c) = cquic.as_mut() {
            c.pump(&mut wire);
        }
    }
    assert!(joined.is_some(), "client never connected");
    assert_eq!(reaped, joined, "dead client must be reaped by idle timeout");
}

#[test]
fn password_gates_admission() {
    let (mut spm, mut snet, mut squic) = server_world();
    squic.sessions.password_set("hogwild");
    let id = spm.id_add();
    add(&mut spm, id, Pos { x: 5.0, y: 7.0 });

    let mut wire = Wire::new();
    let client = |wire: &Wire, port: u16, pw: Option<&str>| {
        let mut q = Client::connect(wire, port, &[row("pos", 8)], [port as u8; 16]);
        if let Some(pw) = pw {
            q.dial.password_set(pw);
        }
        q
    };
    let mut good = client(&wire, 7001, Some("hogwild"));
    let mut bad = client(&wire, 7002, Some("letmein"));
    let mut mute = client(&wire, 7003, None);
    let (mut good_pm, good_net) = client_world();

    let mut admitted: Vec<u8> = Vec::new();
    let (mut good_synced, mut bad_closed) = (false, false);
    for _ in 0..10_000 {
        wire.step(1);
        squic.pump(&mut wire);
        admitted.extend(squic.sessions.joined_drain());
        for p in &admitted {
            if let Some(snap) = snet.snapshot(&spm, *p) {
                squic.send(*p, &snap);
            }
        }
        for p in squic.sessions.left_drain() {
            snet.peer_remove(p);
        }
        for p in admitted.iter() {
            snet.peer_add(*p); // idempotent
        }
        turn(&mut spm);

        good.pump(&mut wire);
        stream_in(&mut good_pm, &good_net, &mut good);
        bad.pump(&mut wire);
        mute.pump(&mut wire);

        good_synced = get(&good_pm, id) == Some(Pos { x: 5.0, y: 7.0 });
        bad_closed = bad.dial.error().is_some() || bad.dial.is_gone();
        if good_synced && bad_closed {
            break;
        }
    }
    assert!(good_synced, "right password must replicate");
    assert!(bad_closed, "wrong password must be disconnected");
    let reason = bad.dial.error().unwrap_or_default().to_string();
    assert!(reason.contains("bad password"), "close reason should say why: {reason:?}");
    // The wrong and the silent client were never admitted: exactly one join.
    assert_eq!(admitted.len(), 1, "only the right password joins");
    assert!(
        bad.dial.snapshots_drain().is_empty() && mute.dial.snapshots_drain().is_empty(),
        "no state leaked pre-admission"
    );
}

#[test]
fn reconnect_token_reclaims_peer_id() {
    let (mut spm, mut snet, mut squic) = server_world();
    for i in 0..10 {
        let id = spm.id_add();
        add(&mut spm, id, Pos { x: i as f32, y: 0.0 });
    }
    let token = [7u8; 16];
    let mut wire = Wire::new();
    let mut cquic = Some(Client::connect(&wire, 7001, &[row("pos", 8)], token));
    let mut first_peer = None;
    let mut left_peer = None;
    let mut second_peer = None;
    let mut phase = 0; // join, then die and be reaped, then rejoin
    for _ in 0..3_000 {
        wire.step(5);
        squic.pump(&mut wire);
        for p in squic.sessions.joined_drain() {
            snet.peer_add(p);
            if phase == 0 {
                first_peer = Some(p);
                cquic = None; // dies mid-game: silence, no close
                phase = 1;
            } else {
                second_peer = Some(p);
            }
        }
        for p in squic.sessions.left_drain() {
            snet.peer_remove(p);
            if phase == 1 {
                left_peer = Some(p);
                // Rejoin inside the grace window with the same token.
                cquic = Some(Client::connect(&wire, 7002, &[row("pos", 8)], token));
                phase = 2;
            }
        }
        turn(&mut spm);
        stream_out(&mut spm, &mut snet, &mut squic);
        if let Some(c) = cquic.as_mut() {
            c.pump(&mut wire);
        }
        if second_peer.is_some() {
            break;
        }
    }
    let first = first_peer.expect("first connect never joined");
    assert_eq!(left_peer, Some(first), "the drop must reap the first session");
    assert_eq!(
        second_peer,
        Some(first),
        "the same token inside grace must reclaim the same peer id"
    );

    // And the reclaimed session converges to the world from nothing.
    let (mut cpm, cnet) = client_world();
    let mut cquic = cquic.unwrap();
    for _ in 0..5_000 {
        if len(&cpm) >= 10 {
            break;
        }
        wire.step(1);
        squic.pump(&mut wire);
        for p in squic.sessions.joined_drain() {
            snet.peer_add(p);
        }
        for (p, t, sq) in squic.sessions.acks_drain() {
            snet.ack(p, t, sq);
        }
        turn(&mut spm);
        stream_out(&mut spm, &mut snet, &mut squic);
        cquic.pump(&mut wire);
        stream_in(&mut cpm, &cnet, &mut cquic);
        turn(&mut cpm);
    }
    assert_eq!(len(&cpm), 10, "reclaimed session must reconverge");
}

#[test]
fn redial_supersedes_live_connection_quietly() {
    let (_spm, mut snet, mut squic) = server_world();
    let mut wire = Wire::new();
    let token = [9u8; 16];
    let schema = [row("pos", 8)];
    let mut a = Client::connect(&wire, 7001, &schema, token);
    let mut b: Option<Client> = None;
    let mut c: Option<Client> = None;
    let mut joins: Vec<u8> = Vec::new();
    let mut lefts: Vec<u8> = Vec::new();
    let mut b_peer = None;
    let mut c_peer = None;
    for _ in 0..5_000 {
        wire.step(2);
        squic.pump(&mut wire);
        for p in squic.sessions.joined_drain() {
            snet.peer_remove(p);
            snet.peer_add(p);
            joins.push(p);
            if joins.len() == 1 {
                b = Some(Client::connect(&wire, 7002, &schema, token)); // A still live
            }
        }
        for p in squic.sessions.left_drain() {
            snet.peer_remove(p);
            lefts.push(p);
        }
        a.pump(&mut wire);
        if let Some(bq) = b.as_mut() {
            bq.pump(&mut wire);
            if b_peer.is_none() {
                b_peer = bq.dial.handshake_done();
                if b_peer.is_some() {
                    c = Some(Client::connect(&wire, 7003, &schema, [11u8; 16]));
                }
            }
        }
        if let Some(cq) = c.as_mut() {
            cq.pump(&mut wire);
            c_peer = cq.dial.handshake_done();
            if c_peer.is_some() {
                break;
            }
        }
    }
    let first = *joins.first().expect("A never joined");
    assert_eq!(b_peer, Some(first), "same live token must inherit the peer id");
    assert!(a.dial.is_gone(), "the superseded connection must be closed by the server");
    assert!(
        !lefts.contains(&first),
        "supersede is quiet: no left for the inherited id, ownership stands"
    );
    assert_eq!(
        joins.iter().filter(|&&p| p == first).count(),
        2,
        "the reclaim announces itself as a fresh join"
    );
    let cp = c_peer.expect("fresh-token client never admitted");
    assert_ne!(cp, first, "a different token draws a fresh id");
}

#[test]
fn a_silent_dial_is_shown_out_after_the_timeout() {
    // The client's end shakes hands but never answers the hello.
    let (_spm, _snet, mut squic) = server_world();
    let mut wire = Wire::new();
    let mut mute = Client::connect(&wire, 7001, &[row("pos", 8)], [1; 16]);
    let mut lost = None;
    for _ in 0..3_000 {
        wire.step(5);
        squic.pump(&mut wire);
        let now = wire.now();
        while let Some(p) = wire.take(mute.port) {
            let mut out = Vec::new();
            let from = format!("127.0.0.1:{}", p.from).parse().unwrap();
            if let Some(DatagramEvent::ConnectionEvent(_, ev)) =
                mute.endpoint.handle(now, from, None, None, BytesMut::from(&p.data[..]), &mut out)
            {
                mute.conn.handle_event(ev);
            }
        }
        tick(&mut mute.conn, now);
        serve_dial(&mut mute.dial, &mut mute.conn, &mut mute.stream, now);
        carry(&mut mute.endpoint, mute.ch, &mut mute.conn, &mut wire, mute.port);
        if let Some(e) = mute.dial.error() {
            lost = Some((e.to_string(), wire.ns));
            break;
        }
    }
    let (why, when) = lost.expect("never shown out");
    assert!(why.contains("auth timeout"), "{why}");
    assert!(when > 5_000_000_000);
    assert!(squic.sessions.joined_drain().is_empty());
}

#[test]
fn oversize_snapshots_are_dropped_and_counted() {
    let (_spm, _snet, mut squic) = server_world();
    let mut wire = Wire::new();
    let mut cquic = Client::connect(&wire, 7001, &[row("pos", 8)], [1; 16]);
    for _ in 0..1_000 {
        wire.step(1);
        squic.pump(&mut wire);
        cquic.pump(&mut wire);
        if cquic.dial.handshake_done().is_some() {
            break;
        }
    }
    let peer = cquic.dial.handshake_done().unwrap();
    let line = squic.line(peer).unwrap();
    let budget = snapshot_budget(&mut line.conn);
    assert!(budget > 1000, "{budget}");
    let space = dgram_space(&mut line.conn);
    assert!(space > 8 * 1024, "{space}");
    squic.send(peer, &vec![7; budget + 1]);
    assert_eq!(squic.sessions.oversize_drops(), 1);
    assert_eq!(dgram_space(&mut squic.line(peer).unwrap().conn), space);
    squic.send(peer, &vec![7; budget]);
    assert_eq!(squic.sessions.oversize_drops(), 1);
    assert!(dgram_space(&mut squic.line(peer).unwrap().conn) < space);
    squic.send(peer, b"next");
    for _ in 0..50 {
        wire.step(1);
        squic.pump(&mut wire);
        cquic.pump(&mut wire);
    }
    assert_eq!(cquic.dial.snapshots_drain(), vec![vec![7; budget], b"next".to_vec()]);
    // Nobody behind that peer id: nothing goes out, nothing is counted.
    squic.send(200, b"lost");
    assert_eq!(squic.sessions.oversize_drops(), 1);
}

// --- the net tasks -----------------------------------------------------------

/// A game on each end, driven by the net ticks alone.
fn net_modules_loopback() {
    let (mut spm, snet, mut squic) = server_world();
    let mut serve = Serve::new(snet, Some(4));
    let mut garage: BTreeMap<u8, Id> = BTreeMap::new();
    let (mut joined, mut event) = (false, false);

    let (mut cpm, cnet) = client_world();
    let mut connect = Connect::new(cnet);
    let mut wire = Wire::new();
    let mut cquic = Client::connect(&wire, 7001, &[row("pos", 8)], [1; 16]);
    let mut out = Outbox::new();
    // Queued before the handshake exists; held until connected.
    out.send(17, b"hi");
    let mut echo = 0u32;

    let mut done = false;
    for _ in 0..10_000 {
        wire.step(1);
        squic.pump(&mut wire);
        spm.tick_begin();
        server_tick(&mut serve, &mut squic.sessions, &mut squic.lines, &mut spm, 20_833);
        for &p in serve.joined() {
            let id = spm.id_add();
            add(&mut spm, id, Pos::default());
            garage.insert(p, id);
            joined = true;
        }
        for &p in serve.left() {
            if let Some(id) = garage.remove(&p) {
                spm.id_remove(id);
            }
        }
        for (&p, &id) in &garage {
            let c = serve.input_pop(p).unwrap();
            let dx = f32::from_le_bytes([c[0], c[1], c[2], c[3]]);
            let at = get(&spm, id).unwrap();
            add(&mut spm, id, Pos { x: at.x + dx, ..at });
        }
        for e in serve.events() {
            if e.ty == 17 && e.payload == b"hi" {
                event = true;
            }
        }
        let running = spm.tick_tasks();
        spm.tick_end(running);

        cquic.pump(&mut wire);
        cpm.tick_begin();
        let turn = client_tick(&mut connect, &mut cquic.dial, &mut cquic.conn, &mut cpm, &mut out);
        assert_eq!(turn, ClientTurn::Ran);
        if connect.connected() {
            input_send(&mut cquic.dial, &mut cquic.conn, &1.0f32.to_le_bytes());
        }
        for a in connect.applied() {
            echo = echo.max(a.input_seq);
        }
        let running = cpm.tick_tasks();
        cpm.tick_end(running);

        let ids: Vec<Id> = cpm.pool_at(0).rows_ref().ids().to_vec();
        let replicated = ids.iter().any(|&id| get(&cpm, id).unwrap().x > 5.0);
        if connect.connected() && joined && event && echo > 0 && replicated {
            done = true;
            break;
        }
    }
    assert!(joined, "server never observed the join");
    assert!(connect.connected(), "client never connected");
    assert!(event, "client->server reliable event lost");
    assert!(echo > 0, "applied input-seq echo never arrived");
    assert!(done, "replication never converged (cmd-driven pos.x > 5)");
    assert!(connect.snapshots() > 0);
    let p = *garage.keys().next().expect("a joined peer");
    assert_eq!(connect.peer(), p);
    assert!(serve.acked_tick(p) > 0, "acks flowed but acked_tick never advanced");
    let rtt = squic.line(p).expect("the joined peer's line").conn.rtt();
    assert!(rtt > Duration::ZERO, "rtt never measured");
    assert!(spm.task_faults().is_empty(), "server task faults");
    assert!(cpm.task_faults().is_empty(), "client task faults");
}

#[test]
fn netmod_tests_net_modules_loopback() {
    net_modules_loopback();
}

#[test]
fn netmod_net_modules_loopback() {
    net_modules_loopback();
}

#[test]
fn netmod_tests_ownership_auto_clears_after_leave_tick() {
    let (mut spm, snet, mut squic) = server_world();
    let mut serve = Serve::new(snet, None);
    let mut wire = Wire::new();
    let mut cquic = Some(Client::connect(&wire, 7001, &[row("pos", 8)], [1; 16]));

    let mut peer: Option<u8> = None;
    let mut marked: Option<Id> = None;
    let mut own_at_leave: Option<Option<Id>> = None;
    let mut cleared_next_tick = false;
    for _ in 0..10_000 {
        if cleared_next_tick {
            break;
        }
        wire.step(2);
        squic.pump(&mut wire);
        spm.tick_begin();
        server_tick(&mut serve, &mut squic.sessions, &mut squic.lines, &mut spm, 0);
        let joined: Vec<u8> = serve.joined().to_vec();
        for p in joined {
            let id = spm.id_add();
            add(&mut spm, id, Pos::default());
            serve.own_set(p, id);
            assert_eq!(serve.owner_of(id), Some(p));
            peer = Some(p);
            marked = Some(id);
        }
        for &p in serve.left() {
            // The leave tick: what the game can still see.
            own_at_leave = Some(serve.own(p));
        }
        if let (Some(p), Some(_)) = (peer, own_at_leave) {
            if serve.left().is_empty() && serve.own(p).is_none() {
                cleared_next_tick = true;
            }
        }
        let running = spm.tick_tasks();
        spm.tick_end(running);
        if peer.is_some() {
            cquic = None; // dies silently: reaped by the idle timeout
        }
        if let Some(c) = cquic.as_mut() {
            c.pump(&mut wire);
        }
    }
    assert!(peer.is_some(), "client never joined");
    assert_eq!(
        own_at_leave,
        Some(marked),
        "leave tick must still see the owned entity (games despawn via own(p))"
    );
    assert!(
        cleared_next_tick,
        "ownership entry must be gone after the leave tick (peer ids recycle)"
    );
    assert!(serve.owned().is_empty());
    assert!(spm.task_faults().is_empty(), "server task faults");
}

#[test]
fn ownership_ends_a_tick_after_the_leave_with_every_peer_marked() {
    let (_spm, snet, _squic) = server_world();
    let mut serve = Serve::new(snet, None);
    for p in 0..=255u8 {
        serve.own_set(p, Id::new(0, 0, p as u32));
    }
    serve.intake(vec![], vec![7], vec![], vec![], vec![]);
    assert_eq!(serve.left(), &[7]);
    assert_eq!(serve.own(7), Some(Id::new(0, 0, 7)));
    assert_eq!(serve.owned().len(), 256);
    serve.intake(vec![7], vec![], vec![], vec![], vec![]);
    assert_eq!(serve.own(7), None);
    assert_eq!(serve.own(8), Some(Id::new(0, 0, 8)));
    assert_eq!(serve.owned().len(), 255);
}

#[test]
fn inputs_wait_in_the_sessions_without_a_channel() {
    // One input of one byte, numbered 1.
    let sent = vec![DGRAM_INPUT, 1, 1, 0, 0, 0, 1, 0, 9];
    for channel in [false, true] {
        let (mut spm, snet, mut squic) = server_world();
        let mut serve = Serve::new(snet, if channel { Some(1) } else { None });
        let mut wire = Wire::new();
        let mut cquic = Client::connect(&wire, 7001, &[row("pos", 8)], [1; 16]);
        let mut joined = false;
        for _ in 0..2_000 {
            wire.step(2);
            squic.pump(&mut wire);
            server_tick(&mut serve, &mut squic.sessions, &mut squic.lines, &mut spm, 0);
            joined = joined || !serve.joined().is_empty();
            cquic.pump(&mut wire);
            if joined {
                break;
            }
        }
        assert!(joined);
        assert_eq!(serve.has_inputs(), channel);
        let handle = squic.lines[0].handle;
        hear(&mut squic.sessions, handle, wire.ns, &vec![Heard::Datagram(sent.clone())]);
        server_tick(&mut serve, &mut squic.sessions, &mut squic.lines, &mut spm, 0);
        assert_eq!(squic.sessions.inputs_drain().len(), if channel { 0 } else { 1 });
    }
}

#[test]
fn a_failed_connection_ends_the_loop() {
    let (mut cpm, cnet) = client_world();
    let mut connect = Connect::new(cnet);
    let wire = Wire::new();
    let mut cquic = Client::connect(&wire, 7001, &[row("pos", 8)], [1; 16]);
    let mut out = Outbox::new();
    let turn = client_tick(&mut connect, &mut cquic.dial, &mut cquic.conn, &mut cpm, &mut out);
    assert_eq!(turn, ClientTurn::Ran);
    assert!(!cpm.quitting());
    cquic.dial.lost("no route");
    let turn = client_tick(&mut connect, &mut cquic.dial, &mut cquic.conn, &mut cpm, &mut out);
    assert_eq!(turn, ClientTurn::Lost);
    assert_eq!(cquic.dial.error(), Some("no route"));
    assert!(cpm.quitting());
}

#[test]
fn a_backlog_goes_out_as_a_flight() {
    // 400 rows of 12 bytes don't fit one datagram; the allowance lets a
    // flight carry them within a tick, and none leaves a single datagram.
    for (per_tick, least) in [(0usize, 1usize), (20_833, 4)] {
        let (mut spm, snet, mut squic) = server_world();
        for i in 0..400 {
            let id = spm.id_add();
            add(&mut spm, id, Pos { x: i as f32, y: 1.0 });
        }
        let mut serve = Serve::new(snet, None);
        let mut wire = Wire::new();
        let mut cquic = Client::connect(&wire, 7001, &[row("pos", 8)], [1; 16]);
        for _ in 0..1_000 {
            wire.step(1);
            squic.pump(&mut wire);
            cquic.pump(&mut wire);
            if cquic.dial.handshake_done().is_some() {
                break;
            }
        }
        spm.tick_begin();
        assert!(serve.net().sends_left(8));
        let flights =
            server_tick(&mut serve, &mut squic.sessions, &mut squic.lines, &mut spm, per_tick);
        assert_eq!((flights.len(), flights[0].0), (1, 1));
        let running = spm.tick_tasks();
        spm.tick_end(running);
        for _ in 0..200 {
            wire.step(1);
            squic.pump(&mut wire);
            cquic.pump(&mut wire);
        }
        let got = cquic.dial.snapshots_drain().len();
        assert_eq!(got, flights[0].1 as usize);
        if per_tick == 0 {
            assert_eq!(got, least);
        } else {
            assert!(got >= least && got <= 8, "{got}");
        }
        assert_eq!(squic.sessions.oversize_drops(), 0);
    }
}
