//! Channels and their wire identity, frames, inputs, the schema, and the
//! two ends of the door fed by hand.

use pm::channel::{EventRx, EventTx, InputQueues, ServerOwn};
use pm::dial::{Dial, LagQueue};
use pm::frame::{
    ack_datagram, frame_write, frames_parse, inputs_parse, snapshot_datagram, view_datagram,
    Input, InputRing,
};
use pm::id::Id;
use pm::link::{attend, client_move, hear, server_move, Heard, Inlet, Move, Report};
use pm::order::{is_nan, is_nan64, num_le, num_le64, num_lt, num_lt64, total_key};
use pm::reg::{event_tag, pool_key, Clash, Outbox, SchemaRow, WireKind, WireReg, EVENT_USER_BASE};
use pm::schema::{schema_decode, schema_diff, schema_encode};
use pm::session::{
    EventRow, Reason, Sessions, Token, AUTH_TIMEOUT_NS, FRAME_AUTH, FRAME_HELLO, FRAME_WELCOME,
};
use pm::text::{bytes_eq, bytes_le, push_decimal, text_eq};
use pm::wire::{get16, get32, get64, put16, put32, put64, NetError, Reader};

// --- typed events ------------------------------------------------------------

#[derive(Clone, Copy, Default, PartialEq, Debug)]
struct Honk {
    freq: u32,
}

fn send(tx: EventTx, out: &mut Outbox, h: Honk) {
    tx.send(out, &h.freq.to_le_bytes());
}

/// Everything the client queued, as coming from `peer`.
fn deliver(out: &mut Outbox, events: &mut Vec<EventRow>, peer: u8) {
    for e in out.drain() {
        events.push(EventRow { peer, ty: e.tag, payload: e.payload });
    }
}

fn honks(rx: EventRx, events: &[EventRow]) -> Vec<(u8, Honk)> {
    rx.drain(events)
        .iter()
        .map(|r| (r.peer, Honk { freq: get32(&r.payload, 0) }))
        .collect()
}

fn event(reg: &mut WireReg, name: &str, size: usize) -> (EventTx, EventRx) {
    assert!(reg.clash(WireKind::Event, name, size).is_none());
    reg.register(WireKind::Event, name, size, 0);
    let tag = event_tag(name);
    (EventTx { tag }, EventRx { tag, size })
}

#[test]
fn typed_events_round_trip_client_to_server() {
    let (mut client, mut server) = (WireReg::new(), WireReg::new());
    let (honk_tx, _) = event(&mut client, "honk", 4);
    let (_, honk_rx) = event(&mut server, "honk", 4);
    let mut out = Outbox::new();
    let mut received = Vec::new();

    send(honk_tx, &mut out, Honk { freq: 440 });
    send(honk_tx, &mut out, Honk { freq: 880 });
    deliver(&mut out, &mut received, 7);

    // Both honks arrive, in order, tagged with the sender peer, byte-exact.
    assert_eq!(
        honks(honk_rx, &received),
        vec![(7, Honk { freq: 440 }), (7, Honk { freq: 880 })]
    );
}

#[test]
fn rx_ignores_other_event_channels() {
    let (mut client, mut server) = (WireReg::new(), WireReg::new());
    // Two channels registered; the server only listens for honks.
    let (honk_tx, _) = event(&mut client, "honk", 4);
    let (ready_tx, _) = event(&mut client, "ready", 4);
    let (_, honk_rx) = event(&mut server, "honk", 4);
    let mut out = Outbox::new();
    let mut received = Vec::new();

    ready_tx.send(&mut out, &[0; 4]);
    send(honk_tx, &mut out, Honk { freq: 100 });
    deliver(&mut out, &mut received, 3);

    assert_eq!(honks(honk_rx, &received), vec![(3, Honk { freq: 100 })]);
}

#[test]
fn same_name_registers_idempotently() {
    let (mut client, mut server) = (WireReg::new(), WireReg::new());
    let (a, _) = event(&mut client, "honk", 4);
    let (b, _) = event(&mut client, "honk", 4); // nothing stands against it
    let (_, rx) = event(&mut server, "honk", 4);
    assert_eq!(client.schema().len(), 1);
    let mut out = Outbox::new();
    let mut received = Vec::new();

    send(a, &mut out, Honk { freq: 1 });
    send(b, &mut out, Honk { freq: 2 });
    deliver(&mut out, &mut received, 5);
    assert_eq!(honks(rx, &received), vec![(5, Honk { freq: 1 }), (5, Honk { freq: 2 })]);
}

#[test]
fn events_of_another_size_are_not_this_channel() {
    let rx = EventRx { tag: 17, size: 4 };
    let rows = vec![
        EventRow { peer: 1, ty: 17, payload: vec![1, 2, 3] },
        EventRow { peer: 2, ty: 17, payload: vec![9, 0, 0, 0] },
    ];
    assert_eq!(honks(rx, &rows), vec![(2, Honk { freq: 9 })]);
    // Reading leaves them for other receivers.
    assert_eq!(honks(rx, &rows).len(), 1);
}

// --- wire identity -----------------------------------------------------------

#[test]
fn wire_keys_and_tags_are_stable() {
    assert_eq!(pool_key("pos"), 12474);
    assert_eq!(pool_key("honk"), 12241);
    assert_eq!(pool_key(""), 7385);
    assert_eq!(event_tag("pos"), 12490);
    assert_eq!(event_tag("brgi"), 25);
    assert!(event_tag("ready") >= EVENT_USER_BASE);
}

#[test]
fn registrations_that_clash_say_why() {
    let mut reg = WireReg::new();
    reg.register(WireKind::Pool, "adl", 8, 0);
    reg.register(WireKind::Input, "cmd", 4, 0);
    reg.register(WireKind::Event, "beqx", 4, 0);
    // There is one input channel per connection.
    assert!(matches!(reg.clash(WireKind::Input, "cmd2", 4), Some(Clash::SecondInput(n)) if n == "cmd"));
    // The same name as another kind, or another size.
    assert!(matches!(reg.clash(WireKind::Event, "adl", 8), Some(Clash::Mismatch)));
    assert!(matches!(reg.clash(WireKind::Pool, "adl", 8), Some(Clash::Mismatch)));
    assert!(matches!(reg.clash(WireKind::Event, "beqx", 5), Some(Clash::Mismatch)));
    // Two names with one key; two event names with one tag.
    assert_eq!(pool_key("adl"), pool_key("art"));
    assert!(matches!(reg.clash(WireKind::Pool, "art", 8), Some(Clash::Key(n)) if n == "adl"));
    assert_ne!(pool_key("beqx"), pool_key("brgi"));
    assert_eq!(event_tag("beqx"), event_tag("brgi"));
    assert!(matches!(reg.clash(WireKind::Event, "brgi", 4), Some(Clash::Tag(n)) if n == "beqx"));
    assert!(reg.clash(WireKind::Pool, "brgi", 4).is_none());
    let kinds: Vec<u8> = reg.schema().iter().map(|r| r.kind).collect();
    assert_eq!(kinds, b"pie");
}

// --- the schema --------------------------------------------------------------

fn row(kind: u8, name: &str, size: usize, hash: u64) -> SchemaRow {
    SchemaRow { kind, name: name.to_string(), size, hash }
}

#[test]
fn schemas_agree_in_any_order() {
    let a = [row(b'p', "pos", 8, 1), row(b'e', "honk", 4, 2)];
    let b = [row(b'e', "honk", 4, 2), row(b'p', "pos", 8, 1)];
    let bytes = schema_encode(&a);
    assert_eq!(bytes, schema_encode(&b));
    // [count u16] then [kind][name len u16][name][size u32][hash u64], by name.
    let mut want = vec![2, 0];
    want.extend_from_slice(b"e\x04\x00honk\x04\x00\x00\x00\x02\x00\x00\x00\x00\x00\x00\x00");
    want.extend_from_slice(b"p\x03\x00pos\x08\x00\x00\x00\x01\x00\x00\x00\x00\x00\x00\x00");
    assert_eq!(bytes, want);
    let rows = schema_decode(&bytes).unwrap();
    assert_eq!(rows.len(), 2);
    assert_eq!((rows[0].kind, rows[0].name.as_str(), rows[0].size, rows[0].hash), (b'e', "honk", 4, 2));
    assert_eq!(schema_encode(&rows), bytes);
}

#[test]
fn malformed_schemas_do_not_decode() {
    let bytes = schema_encode(&[row(b'p', "pos", 8, 1)]);
    for n in 0..bytes.len() {
        assert!(schema_decode(&bytes[..n]).is_none(), "{n}");
    }
    // A name that is no text.
    let mut bad = bytes.clone();
    bad[5] = 0xff;
    assert!(schema_decode(&bad).is_none());
    let mut longer = bytes.clone();
    longer.push(0);
    assert!(schema_decode(&longer).is_none());
    let mut wide = bytes;
    wide[5] = b'q';
    assert_eq!(schema_decode(&wide).unwrap()[0].name, "qos");
    assert_eq!(schema_decode(&schema_encode(&[row(b'p', "größe", 4, 0)])).unwrap()[0].name, "größe");
}

#[test]
fn the_diff_names_every_channel_that_differs() {
    let server = [row(b'p', "pos", 8, 1), row(b'p', "hp", 4, 1), row(b'e', "honk", 4, 2)];
    let client = [row(b'p', "pos", 12, 1), row(b'p', "hp", 4, 9), row(b'p', "mana", 4, 0)];
    assert_eq!(
        schema_diff(&server, &client),
        "'pos': 12 B here vs 8 B on server; 'hp': schema hash differs (field-level drift); \
         'mana' only on this end; 'honk' only on server"
    );
    assert_eq!(schema_diff(&server, &server), "encoding mismatch");
}

// --- frames and datagrams ----------------------------------------------------

#[test]
fn frames_survive_any_cut_of_the_stream() {
    let mut whole = Vec::new();
    frame_write(&mut whole, 3, b"abc");
    frame_write(&mut whole, 0x1234, b"");
    frame_write(&mut whole, 9, b"z");
    assert_eq!(&whole[..9], b"\x03\x00\x03\x00\x00\x00abc");
    for cut in 0..=whole.len() {
        let mut buf = whole[..cut].to_vec();
        let mut got: Vec<(u16, Vec<u8>)> = Vec::new();
        got.extend(frames_parse(&mut buf).into_iter().map(|f| (f.ty, f.payload)));
        buf.extend_from_slice(&whole[cut..]);
        got.extend(frames_parse(&mut buf).into_iter().map(|f| (f.ty, f.payload)));
        assert_eq!(got, vec![(3, b"abc".to_vec()), (0x1234, vec![]), (9, b"z".to_vec())]);
        assert!(buf.is_empty());
    }
}

fn seqs(got: &[Input]) -> Vec<(u32, u8)> {
    got.iter().map(|i| (i.seq, i.payload[0])).collect()
}

#[test]
fn redundant_inputs_fill_the_gap_a_loss_left() {
    let mut ring = InputRing::new();
    let sent: Vec<(u32, Vec<u8>)> = (0..12u8).map(|k| ring.input_send(&[k])).collect();
    assert_eq!(sent[0].0, 1);
    assert_eq!(sent[0].1, b"\x02\x01\x01\x00\x00\x00\x01\x00\x00");
    assert_eq!(sent[11].0, 12);
    let mut last = 0;
    // The first arrives, the next six are lost, the eighth carries them all.
    assert_eq!(seqs(&inputs_parse(&sent[0].1[1..], &mut last)), vec![(1, 0)]);
    let caught: Vec<(u32, u8)> = (2..=8).map(|s| (s, s as u8 - 1)).collect();
    assert_eq!(seqs(&inputs_parse(&sent[7].1[1..], &mut last)), caught);
    // A repeat brings nothing new; a wider gap is tolerated.
    assert!(inputs_parse(&sent[7].1[1..], &mut last).is_empty());
    assert_eq!(last, 8);
    assert_eq!(inputs_parse(&sent[11].1[1..], &mut last).len(), 4);
    assert_eq!(last, 12);
    // A cut datagram gives what came whole.
    let mut fresh = 0;
    assert_eq!(seqs(&inputs_parse(&sent[1].1[1..10], &mut fresh)), vec![(1, 0)]);
    assert!(inputs_parse(&[], &mut fresh).is_empty());
}

#[test]
fn datagrams_lead_with_their_kind() {
    assert_eq!(snapshot_datagram(b"xy"), b"\x00xy");
    assert_eq!(ack_datagram(0x0403_0201, 5), b"\x01\x01\x02\x03\x04\x05\x00\x00\x00");
    assert_eq!(view_datagram(&vec![1, 0x0100])[..], *b"\x03\x01\x00\x00\x00\x00\x01\x00\x00");
}

#[test]
fn fields_read_back_and_short_buffers_say_so() {
    let mut b = Vec::new();
    put16(&mut b, 0xabcd);
    put32(&mut b, 0xdead_beef);
    put64(&mut b, 0x0123_4567_89ab_cdef);
    assert_eq!(b.len(), 14);
    assert_eq!((get16(&b, 0), get32(&b, 2), get64(&b, 6)), (0xabcd, 0xdead_beef, 0x0123_4567_89ab_cdef));
    let mut r = Reader::new(&b);
    assert_eq!(r.u16().ok(), Some(0xabcd));
    assert_eq!(r.u32().ok(), Some(0xdead_beef));
    assert_eq!(r.u64().ok(), Some(0x0123_4567_89ab_cdef));
    assert!(r.is_empty());
    assert!(matches!(r.u8(), Err(NetError::Truncated)));
    assert!(matches!(Reader::new(&[1]).u16(), Err(NetError::Truncated)));
}

// --- the door ----------------------------------------------------------------

const TOKEN: [u8; 16] = [7; 16];

fn auth(token: &[u8], password: &[u8]) -> Vec<u8> {
    let mut out = Vec::new();
    let mut payload = token.to_vec();
    payload.extend_from_slice(password);
    frame_write(&mut out, FRAME_AUTH, &payload);
    out
}

fn sessions() -> Sessions {
    Sessions::new(schema_encode(&[row(b'p', "pos", 8, 0)]))
}

/// Connect and present a token; gives the reasons to close.
fn knock(s: &mut Sessions, handle: usize, now: u64, token: &[u8], password: &[u8]) -> Vec<Reason> {
    s.accept(handle, now);
    hear(s, handle, now, &vec![Heard::Connected(true), Heard::Fed(auth(token, password))])
}

#[test]
fn a_wrong_password_is_answered_first_whatever_follows() {
    let mut s = sessions();
    s.password_set("x");
    s.accept(4, 0);
    let mut data = auth(&TOKEN, b"y");
    frame_write(&mut data, 0x100, b"ignored");
    data.extend_from_slice(&[1, 2, 3]);
    let why = hear(&mut s, 4, 0, &vec![Heard::Connected(true), Heard::Fed(data)]);
    assert!(matches!(why[..], [Reason::BadPassword]));
    assert!(s.admissions(0).is_empty());
    assert!(s.joined_drain().is_empty());
    assert!(s.events_drain().is_empty());
}

#[test]
fn the_handshake_frame_by_frame() {
    let schema = schema_encode(&[row(b'p', "pos", 8, 0)]);
    let mut s = sessions();
    let mut d = Dial::new(schema.clone(), Token::from_bytes(&TOKEN));
    d.password_set("x");
    s.accept(4, 0);
    assert!(hear(&mut s, 4, 0, &vec![Heard::Connected(true)]).is_empty());
    // The hello is the schema.
    let hello = s.stream_pending(4);
    let mut want = Vec::new();
    frame_write(&mut want, FRAME_HELLO, &schema);
    assert_eq!(hello, want);
    s.stream_sent(4, hello.len());
    assert!(s.stream_pending(4).is_empty());
    // The answer is the token and the password.
    assert!(attend(&mut d, &vec![Heard::Connected(false), Heard::Fed(hello)]).is_empty());
    assert_eq!(d.stream_pending(), &auth(&TOKEN, b"x")[..]);
    let answer = d.stream_pending().to_vec();
    d.stream_sent(answer.len());
    // Split across reads, it still admits.
    assert!(hear(&mut s, 4, 0, &vec![Heard::Fed(answer[..5].to_vec())]).is_empty());
    assert!(hear(&mut s, 4, 0, &vec![Heard::Fed(answer[5..].to_vec())]).is_empty());
    assert!(s.admissions(0).is_empty());
    assert_eq!(s.joined_drain(), vec![1]);
    assert_eq!(s.route(1), Some(4));
    let mut want = Vec::new();
    frame_write(&mut want, FRAME_WELCOME, &[1]);
    let welcome = s.stream_pending(4);
    assert_eq!(welcome, want);
    assert!(attend(&mut d, &vec![Heard::Fed(welcome), Heard::Datagram(b"\x00snap".to_vec())]).is_empty());
    assert_eq!(d.handshake_done(), Some(1));
    assert_eq!(d.snapshots_drain(), vec![b"snap".to_vec()]);
}

#[test]
fn every_reason_to_close() {
    // A session frame too short for a token.
    let mut s = sessions();
    assert_eq!(knock(&mut s, 0, 0, &TOKEN[..15], b""), vec![Reason::BadSessionFrame]);
    // A wrong password, and none.
    s.password_set("hogwild");
    assert_eq!(knock(&mut s, 1, 0, &TOKEN, b"letmein"), vec![Reason::BadPassword]);
    assert_eq!(knock(&mut s, 2, 0, &TOKEN, b""), vec![Reason::BadPassword]);
    assert!(s.admissions(0).is_empty());
    assert!(s.joined_drain().is_empty());
    // The right one.
    assert!(knock(&mut s, 3, 0, &TOKEN, b"hogwild").is_empty());
    assert!(s.admissions(0).is_empty());
    assert_eq!(s.joined_drain(), vec![1]);
    // Sitting at the door too long; being inside is no sitting.
    s.accept(5, 100);
    assert!(hear(&mut s, 5, 100 + AUTH_TIMEOUT_NS, &vec![]).is_empty());
    assert_eq!(hear(&mut s, 5, 101 + AUTH_TIMEOUT_NS, &vec![]), vec![Reason::AuthTimeout]);
    assert!(hear(&mut s, 3, 101 + AUTH_TIMEOUT_NS, &vec![]).is_empty());
    // The same token while the first is live.
    assert!(knock(&mut s, 6, 0, &TOKEN, b"hogwild").is_empty());
    let closes = s.admissions(0);
    assert_eq!(closes.len(), 1);
    assert_eq!((closes[0].handle, closes[0].reason), (3, Reason::Superseded));
    assert_eq!(s.joined_drain(), vec![1]);
    assert!(s.left_drain().is_empty());
    // Another schema.
    let mut d = Dial::new(schema_encode(&[]), Token::from_bytes(&TOKEN));
    let mut hello = Vec::new();
    frame_write(&mut hello, FRAME_HELLO, &schema_encode(&[row(b'p', "pos", 8, 0)]));
    assert_eq!(attend(&mut d, &vec![Heard::Fed(hello)]), vec![Reason::SchemaMismatch]);
    assert_eq!(d.error(), Some("schema mismatch with server: 'pos' only on server"));
    let texts: Vec<(u32, &str)> = [
        Reason::BadSessionFrame,
        Reason::BadPassword,
        Reason::AuthTimeout,
        Reason::Superseded,
        Reason::ServerFull,
        Reason::SchemaMismatch,
    ]
    .iter()
    .map(|r| (r.code(), r.text()))
    .collect();
    assert_eq!(
        texts,
        vec![
            (2, "bad session frame"),
            (2, "bad password"),
            (2, "auth timeout"),
            (3, "superseded by reconnect"),
            (2, "server full"),
            (1, "schema mismatch"),
        ]
    );
}

#[test]
fn a_full_server_turns_newcomers_away() {
    let mut s = sessions();
    for k in 0..254usize {
        let mut token = [0u8; 16];
        token[0] = k as u8;
        token[15] = 1;
        assert!(knock(&mut s, k, 0, &token, b"").is_empty());
        assert!(s.admissions(0).is_empty());
    }
    assert_eq!(s.joined_drain(), (1..=254).collect::<Vec<u8>>());
    assert!(knock(&mut s, 500, 0, &[9; 16], b"").is_empty());
    let closes = s.admissions(0);
    assert_eq!((closes[0].handle, closes[0].reason), (500, Reason::ServerFull));
    assert!(s.joined_drain().is_empty());
}

#[test]
fn tokens_reclaim_inside_the_grace_only() {
    let mut s = sessions();
    s.reconnect_grace_set(1_000);
    knock(&mut s, 0, 0, &TOKEN, b"");
    s.admissions(0);
    assert_eq!(s.joined_drain(), vec![1]);
    hear(&mut s, 0, 10, &vec![Heard::Lost("gone".to_string())]);
    assert_eq!(s.left_drain(), vec![1]);
    assert!(s.is_gone(0));
    s.drained(0);
    assert_eq!(s.route(1), None);
    // Inside the window the id comes back.
    knock(&mut s, 1, 1_010, &TOKEN, b"");
    s.admissions(1_010);
    assert_eq!(s.joined_drain(), vec![1]);
    assert_eq!(s.route(1), Some(1));
    // Outside it a fresh one is drawn.
    hear(&mut s, 1, 2_000, &vec![Heard::Lost("gone".to_string())]);
    s.drained(1);
    knock(&mut s, 2, 3_001, &TOKEN, b"");
    s.admissions(3_001);
    assert_eq!(s.joined_drain(), vec![2]);
    // No token, no reclaim.
    knock(&mut s, 3, 3_001, &[0; 16], b"");
    s.admissions(3_001);
    assert_eq!(s.joined_drain(), vec![3]);
    hear(&mut s, 3, 3_002, &vec![Heard::Lost("gone".to_string())]);
    knock(&mut s, 4, 3_003, &[0; 16], b"");
    s.admissions(3_003);
    assert_eq!(s.joined_drain(), vec![4]);
}

#[test]
fn every_report_has_its_move() {
    let inlet = Inlet { by_server: false, two_way: true, index: 3 };
    let lost = || Report::Lost("gone".to_string());
    let told = || Move::Tell(Heard::Lost("gone".to_string()));
    assert_eq!(server_move(Report::Connected), Move::Open);
    assert_eq!(server_move(lost()), told());
    assert_eq!(server_move(Report::Opened), Move::Tell(Heard::Idle));
    assert_eq!(server_move(Report::Readable(inlet)), Move::Read(inlet));
    assert_eq!(server_move(Report::Other), Move::Tell(Heard::Idle));
    for settled in [false, true] {
        assert_eq!(
            client_move(Report::Connected, settled),
            Move::Tell(Heard::Connected(false))
        );
        assert_eq!(client_move(lost(), settled), told());
        assert_eq!(client_move(Report::Readable(inlet), settled), Move::Read(inlet));
        assert_eq!(client_move(Report::Other, settled), Move::Tell(Heard::Idle));
    }
    // Only the first stream the server opens is taken.
    assert_eq!(client_move(Report::Opened, false), Move::Accept);
    assert_eq!(client_move(Report::Opened, true), Move::Tell(Heard::Idle));
}

#[test]
fn outsiders_are_dropped_unread() {
    let mut s = sessions();
    s.accept(0, 0);
    let mut event = Vec::new();
    frame_write(&mut event, 17, b"hi");
    hear(
        &mut s,
        0,
        0,
        &vec![
            Heard::Connected(true),
            Heard::Fed(event.clone()),
            Heard::Datagram(ack_datagram(1, 2)),
            Heard::Datagram(InputRing::new().input_send(b"x").1),
            Heard::Datagram(view_datagram(&vec![0; 6])),
        ],
    );
    assert!(s.acks_drain().is_empty() && s.inputs_drain().is_empty() && s.events_drain().is_empty());
    assert_eq!(s.view_pose(1), None);
    // The same from inside is heard.
    hear(&mut s, 0, 0, &vec![Heard::Fed(auth(&TOKEN, b""))]);
    s.admissions(0);
    hear(
        &mut s,
        0,
        0,
        &vec![
            Heard::Fed(event),
            Heard::Datagram(ack_datagram(1, 2)),
            Heard::Datagram(InputRing::new().input_send(b"x").1),
            Heard::Datagram(view_datagram(&vec![5; 6])),
            Heard::Datagram(vec![]),
            Heard::Datagram(vec![99, 1]),
            Heard::Datagram(vec![1, 2, 3]),
        ],
    );
    assert_eq!(s.acks_drain(), vec![(1, 1, 2)]);
    let inputs = s.inputs_drain();
    assert_eq!((inputs.len(), inputs[0].peer, inputs[0].seq), (1, 1, 1));
    let events = s.events_drain();
    assert_eq!((events.len(), events[0].peer, events[0].ty), (1, 1, 17));
    assert_eq!(s.view_pose(1), Some(vec![5; 6]));
}

#[test]
fn the_first_error_stands() {
    let mut d = Dial::new(Vec::new(), Token::from_bytes(&TOKEN));
    d.session_token_set(Token::from_bytes(&[1; 16]));
    attend(&mut d, &vec![Heard::Lost("first".to_string()), Heard::Lost("second".to_string())]);
    assert_eq!(d.error(), Some("first"));
    assert!(d.is_gone());
}

#[test]
fn lagged_packets_come_out_in_order_when_due() {
    let mut q: LagQueue<u8> = LagQueue::new();
    q.push(0, 10, 1);
    q.push(5, 10, 2);
    assert_eq!(q.pop_due(9), None);
    assert_eq!(q.pop_due(10), Some(1));
    assert_eq!(q.pop_due(10), None);
    assert_eq!(q.pop_due(20), Some(2));
    q.push(u64::MAX, 10, 3);
    assert_eq!(q.pop_due(u64::MAX), Some(3));
}

// --- input queues and ownership ----------------------------------------------

#[test]
fn commands_are_held_and_surplus_is_consumed() {
    let mut q = InputQueues::new(1);
    q.peer_add(3);
    assert_eq!(q.pop(3), vec![0]); // nothing arrived yet: zeroed
    q.push(3, 1, &[10], 100);
    q.push(3, 2, &[11], 101);
    q.push(3, 3, &[1, 2], 102); // wrong size: dropped
    assert_eq!(q.pop(3), vec![10]);
    assert_eq!((q.view(3), q.held_cmd(3)), (100, vec![10]));
    assert_eq!(q.applied_seqs(), vec![(3, 1)]);
    assert_eq!(q.pop(3), vec![11]);
    assert_eq!(q.pop(3), vec![11]); // held until the next arrives
    assert_eq!(q.view(3), 101);
    for s in 4..8 {
        q.push(3, s, &[s as u8], 0);
    }
    assert_eq!(q.latest(3), vec![7]);
    assert_eq!(q.applied_seqs(), vec![(3, 7)]);
    q.peer_remove(3);
    assert_eq!(q.held_cmd(3), vec![0]);
    assert!(q.applied_seqs().is_empty());
}

#[test]
fn ownership_is_one_entity_per_peer() {
    let mut own = ServerOwn::new();
    own.set(9, Id(70));
    own.set(2, Id(71));
    own.set(9, Id(72));
    assert_eq!(own.get(9), Some(Id(72)));
    assert_eq!(own.owner_of(Id(72)), Some(9));
    assert_eq!(own.owner_of(Id(70)), None);
    assert_eq!(own.owned(), vec![(2, Id(71)), (9, Id(72))]);
    own.clear(9);
    assert_eq!(own.get(9), None);
    assert_eq!(own.owned(), vec![(2, Id(71))]);
}

// --- orders and text ---------------------------------------------------------

#[test]
fn bit_patterns_order_as_numbers() {
    let xs: [f32; 9] = [f32::NEG_INFINITY, -2.5, -0.0, 0.0, 1.0e-40, 1.0, 7.5, f32::INFINITY, f32::NAN];
    for a in xs {
        assert_eq!(is_nan(a.to_bits()), a.is_nan());
        for b in xs {
            assert_eq!(num_lt(a.to_bits(), b.to_bits()), a < b, "{a} {b}");
            assert_eq!(num_le(a.to_bits(), b.to_bits()), a <= b, "{a} {b}");
            let total = total_key(a.to_bits()).cmp(&total_key(b.to_bits()));
            assert_eq!(total, a.total_cmp(&b), "{a} {b}");
            let (wa, wb) = ((a as f64).to_bits(), (b as f64).to_bits());
            assert_eq!(num_lt64(wa, wb), a < b);
            assert_eq!(num_le64(wa, wb), a <= b);
            assert_eq!(is_nan64(wa), a.is_nan());
        }
    }
}

#[test]
fn byte_strings_compare_as_text_does() {
    for (a, b) in [("", ""), ("", "a"), ("ab", "b"), ("abc", "abd"), ("abc", "ab"), ("é", "z")] {
        assert_eq!(bytes_le(a.as_bytes(), b.as_bytes()), a <= b);
        assert_eq!(bytes_le(b.as_bytes(), a.as_bytes()), b <= a);
        assert_eq!(bytes_eq(a.as_bytes(), b.as_bytes()), a == b);
        assert_eq!(text_eq(a, b), a == b);
    }
    let mut s = "n=".to_string();
    push_decimal(&mut s, 0);
    s.push(' ');
    push_decimal(&mut s, 18_446_744_073_709_551_615);
    assert_eq!(s, "n=0 18446744073709551615");
}
