//! Snapshot deltas, acks and budgets between two kernels.

use std::collections::VecDeque;

use pm::apply::NetClient;
use pm::delta::BytePool;
use pm::id::Id;
use pm::kernel::Pm;
use pm::net::NetServer;
use pm::wire::NetError;

#[derive(Clone, Copy, PartialEq, Debug, Default)]
struct Pos {
    x: f32,
    y: f32,
}

fn bytes_of(p: Pos) -> Vec<u8> {
    let mut out = p.x.to_le_bytes().to_vec();
    out.extend_from_slice(&p.y.to_le_bytes());
    out
}

fn pos_of(b: &[u8]) -> Pos {
    let f = |k: usize| f32::from_le_bytes([b[k], b[k + 1], b[k + 2], b[k + 3]]);
    Pos { x: f(0), y: f(4) }
}

type World = Pm<BytePool>;

fn add(pm: &mut World, at: usize, id: Id, p: Pos) {
    pm.pool_at_mut(at).add(id, bytes_of(p));
}

fn get(pm: &World, at: usize, id: Id) -> Option<Pos> {
    pm.pool_at(at).rows_ref().get(id).map(|b| pos_of(b))
}

fn len(pm: &World, at: usize) -> usize {
    pm.pool_at(at).rows_ref().len()
}

/// Move every row.
fn shift(pm: &mut World, at: usize, dx: f32, dy: f32) {
    let ids: Vec<Id> = pm.pool_at(at).rows_ref().ids().to_vec();
    for id in ids {
        let p = get(pm, at, id).unwrap();
        add(pm, at, id, Pos { x: p.x + dx, y: p.y + dy });
    }
}

fn turn(pm: &mut World) {
    pm.tick_begin();
    let running = pm.tick_tasks();
    pm.tick_end(running);
}

fn server_client_pair() -> (World, NetServer, World, NetClient) {
    let mut server: World = Pm::new();
    let s = server.pool("pos", BytePool::new(8));
    let mut snet = NetServer::new(&mut server);
    snet.pool_sync("pos", s);
    snet.peer_add(1);

    let mut client: World = Pm::new();
    client.local_peer_set(1);
    let c = client.pool("pos", BytePool::new(8));
    let mut cnet = NetClient::new();
    cnet.pool_sync("pos", c);
    assert_eq!((s, c), (0, 0));
    (server, snet, client, cnet)
}

fn snapshot_delta_replicates() {
    let (mut server, mut snet, mut client, cnet) = server_client_pair();
    let ids: Vec<Id> = (0..3)
        .map(|i| {
            let id = server.id_add();
            add(&mut server, 0, id, Pos { x: i as f32, y: 0.0 });
            id
        })
        .collect();
    turn(&mut server);

    // First snapshot carries everything.
    let snap = snet.snapshot(&server, 1).unwrap();
    let a = cnet.apply(&mut client, &snap).ok().unwrap();
    turn(&mut client);
    assert_eq!(len(&client, 0), 3);
    assert_eq!(get(&client, 0, ids[1]), Some(Pos { x: 1.0, y: 0.0 }));
    assert!(client.id_alive(ids[1]));
    snet.ack(1, a.tick, a.seq);

    // After the ack, only the mutated entity rides the next delta.
    add(&mut server, 0, ids[0], Pos { x: 10.0, y: 0.0 });
    turn(&mut server);
    let snap = snet.snapshot(&server, 1).unwrap();
    let header_entities = len(&client, 0);
    let a = cnet.apply(&mut client, &snap).ok().unwrap();
    snet.ack(1, a.tick, a.seq);
    assert_eq!(len(&client, 0), header_entities); // upsert, no dup
    assert_eq!(get(&client, 0, ids[0]), Some(Pos { x: 10.0, y: 0.0 }));
    // Header and removal count 17, section count 2, one section of one row.
    assert_eq!(snap.len(), 17 + 2 + 6 + 12);

    // Fully acked: the delta is empty (label only).
    turn(&mut server);
    let snap = snet.snapshot(&server, 1).unwrap();
    let before = get(&client, 0, ids[0]);
    assert!(cnet.apply(&mut client, &snap).is_ok());
    assert_eq!(get(&client, 0, ids[0]), before);
}

#[test]
fn net_tests_snapshot_delta_replicates_state() {
    snapshot_delta_replicates();
}

#[test]
fn net_snapshot_delta_replicates_state() {
    snapshot_delta_replicates();
}

fn lost_state_resends() {
    let (mut server, mut snet, mut client, cnet) = server_client_pair();
    let id = server.id_add();
    add(&mut server, 0, id, Pos { x: 5.0, y: 5.0 });
    turn(&mut server);

    let lost = snet.snapshot(&server, 1).unwrap();
    drop(lost); // packet loss: never applied, never acked

    // The entry is in flight, so the next snapshot doesn't re-carry it
    // (no blind resends — that's the bandwidth point of in-flight
    // tracking). The client receives and acks this one.
    turn(&mut server);
    let empty = snet.snapshot(&server, 1).unwrap();
    let applied = cnet.apply(&mut client, &empty).ok().unwrap();
    assert_eq!(get(&client, 0, id), None);

    // Acking a *later* send than the lost snapshot's proves the loss;
    // the entry becomes resendable and the next snapshot converges.
    snet.ack(1, applied.tick, applied.seq);
    turn(&mut server);
    let retry = snet.snapshot(&server, 1).unwrap();
    assert!(cnet.apply(&mut client, &retry).is_ok());
    assert_eq!(get(&client, 0, id), Some(Pos { x: 5.0, y: 5.0 }));
}

#[test]
fn net_tests_lost_state_resends_once_a_later_ack_reveals_the_loss() {
    lost_state_resends();
}

#[test]
fn net_lost_state_resends_once_a_later_ack_reveals_the_loss() {
    lost_state_resends();
}

fn silent_gap_expires() {
    let (mut server, mut snet, mut client, cnet) = server_client_pair();
    let id = server.id_add();
    add(&mut server, 0, id, Pos { x: 5.0, y: 5.0 });
    turn(&mut server);
    let lost = snet.snapshot(&server, 1).unwrap();
    drop(lost);

    // No acks at all (ack datagrams lost too). After the in-flight
    // expiry window the server gives up on the snapshot and resends.
    for _ in 0..70 {
        turn(&mut server);
    }
    let retry = snet.snapshot(&server, 1).unwrap();
    assert!(cnet.apply(&mut client, &retry).is_ok());
    assert_eq!(get(&client, 0, id), Some(Pos { x: 5.0, y: 5.0 }));
}

#[test]
fn net_tests_silent_ack_gap_expires_in_flight_state_and_resends() {
    silent_gap_expires();
}

#[test]
fn net_silent_ack_gap_expires_in_flight_state_and_resends() {
    silent_gap_expires();
}

fn removal_replicates() {
    let (mut server, mut snet, mut client, cnet) = server_client_pair();
    let a = server.id_add();
    add(&mut server, 0, a, Pos { x: 1.0, y: 0.0 });
    turn(&mut server);
    let snap = snet.snapshot(&server, 1).unwrap();
    let ap = cnet.apply(&mut client, &snap).ok().unwrap();
    snet.ack(1, ap.tick, ap.seq);
    turn(&mut client);
    assert!(client.id_alive(a));

    // Remove on the server. Index must NOT recycle yet: peer 1 hasn't
    // acked the removal.
    server.id_remove(a);
    turn(&mut server);
    snet.prune(&mut server);
    let b = server.id_add();
    assert_ne!(b.index(), a.index(), "recycle before ack would race the wire");

    // Removal rides the delta; client applies it through the normal
    // deferred path.
    turn(&mut server);
    let snap = snet.snapshot(&server, 1).unwrap();
    let ap = cnet.apply(&mut client, &snap).ok().unwrap();
    snet.ack(1, ap.tick, ap.seq);
    turn(&mut client);
    assert!(!client.id_alive(a));
    assert!(get(&client, 0, a).is_none());

    // Acked by every peer: now the index recycles, with a bumped gen.
    snet.prune(&mut server);
    let c = server.id_add();
    assert_eq!(c.index(), a.index());
    assert_eq!(c.generation(), a.generation() + 1);
}

#[test]
fn net_tests_removal_replicates_and_recycling_waits_for_ack() {
    removal_replicates();
}

#[test]
fn net_removal_replicates_and_recycling_waits_for_ack() {
    removal_replicates();
}

fn local_entities_coexist() {
    let (mut server, mut snet, mut client, cnet) = server_client_pair();
    // Client spawns a local-only entity (e.g. a predicted cosmetic).
    let local = client.id_add();
    assert_eq!(local.peer(), 1, "client allocates in its own peer space");
    add(&mut client, 0, local, Pos { x: -1.0, y: -1.0 });

    let remote = server.id_add();
    add(&mut server, 0, remote, Pos { x: 1.0, y: 1.0 });
    turn(&mut server);
    let snap = snet.snapshot(&server, 1).unwrap();
    assert!(cnet.apply(&mut client, &snap).is_ok());

    assert_eq!(len(&client, 0), 2);
    assert_eq!(get(&client, 0, local), Some(Pos { x: -1.0, y: -1.0 }));
    assert_eq!(get(&client, 0, remote), Some(Pos { x: 1.0, y: 1.0 }));
}

#[test]
fn net_tests_client_local_entities_coexist_with_replicated_ones() {
    local_entities_coexist();
}

#[test]
fn net_client_local_entities_coexist_with_replicated_ones() {
    local_entities_coexist();
}

#[test]
fn pool_order_is_irrelevant_keyed_by_name() {
    let mut server: World = Pm::new();
    let s_pos = server.pool("pos", BytePool::new(8));
    let s_tag = server.pool("tag", BytePool::new(4));
    let mut snet = NetServer::new(&mut server);
    // Server registers pos then tag...
    snet.pool_sync("pos", s_pos);
    snet.pool_sync("tag", s_tag);
    snet.peer_add(1);

    let mut client: World = Pm::new();
    client.local_peer_set(1);
    let c_tag = client.pool("tag", BytePool::new(4));
    let c_pos = client.pool("pos", BytePool::new(8));
    let mut cnet = NetClient::new();
    // ...client registers tag then pos (reversed).
    cnet.pool_sync("tag", c_tag);
    cnet.pool_sync("pos", c_pos);

    let id = server.id_add();
    add(&mut server, s_pos, id, Pos { x: 3.0, y: 4.0 });
    server.pool_at_mut(s_tag).add(id, 0xABCDu32.to_le_bytes().to_vec());
    turn(&mut server);

    let snap = snet.snapshot(&server, 1).unwrap();
    assert!(cnet.apply(&mut client, &snap).is_ok());

    assert_eq!(get(&client, c_pos, id), Some(Pos { x: 3.0, y: 4.0 }));
    let tag = client.pool_at(c_tag).rows_ref().get(id).unwrap().clone();
    assert_eq!(tag, 0xABCDu32.to_le_bytes().to_vec());
}

fn malformed_snapshots_error() {
    let (mut server, mut snet, mut client, cnet) = server_client_pair();
    let id = server.id_add();
    add(&mut server, 0, id, Pos { x: 1.0, y: 2.0 });
    turn(&mut server);

    let snap = snet.snapshot(&server, 1).unwrap();
    assert!(matches!(cnet.apply(&mut client, &snap[..3]), Err(NetError::Truncated)));
    assert!(matches!(
        cnet.apply(&mut client, &snap[..snap.len() - 1]),
        Err(NetError::Truncated)
    ));
}

#[test]
fn net_tests_malformed_snapshots_error_instead_of_panicking() {
    malformed_snapshots_error();
}

#[test]
fn net_malformed_snapshots_error_instead_of_panicking() {
    malformed_snapshots_error();
}

#[test]
fn every_cut_of_a_snapshot_is_truncated() {
    let (mut server, mut snet, _, cnet) = server_client_pair();
    for i in 0..3 {
        let id = server.id_add();
        add(&mut server, 0, id, Pos { x: i as f32, y: 0.0 });
    }
    let gone = server.id_add();
    server.id_remove(gone);
    snet.owners_set(vec![(1, 7)]);
    turn(&mut server);
    let snap = snet.snapshot(&server, 1).unwrap();
    for k in 0..snap.len() {
        let mut fresh: World = Pm::new();
        fresh.pool("pos", BytePool::new(8));
        assert!(matches!(cnet.apply(&mut fresh, &snap[..k]), Err(NetError::Truncated)));
    }
}

#[test]
fn an_unknown_pool_is_named_by_its_key() {
    let (mut server, mut snet, _, _) = server_client_pair();
    turn(&mut server);
    let snap = snet.snapshot(&server, 1).unwrap();
    let mut other: World = Pm::new();
    let at = other.pool("other", BytePool::new(8));
    let mut cnet = NetClient::new();
    cnet.pool_sync("other", at);
    match cnet.apply(&mut other, &snap) {
        Err(NetError::UnknownPool(key)) => assert_eq!(key, pm::reg::pool_key("pos")),
        _ => panic!("the key belongs to no pool here"),
    }
}

fn two_worlds_converge() {
    let (mut server, mut snet, mut client, cnet) = server_client_pair();
    let ids: Vec<Id> = (0..50)
        .map(|i| {
            let id = server.id_add();
            add(&mut server, 0, id, Pos { x: i as f32, y: 0.0 });
            id
        })
        .collect();
    let mut s2c: VecDeque<Vec<u8>> = VecDeque::new();
    let mut acks: VecDeque<(u32, u32)> = VecDeque::new();

    // Pump both worlds, dropping every 4th snapshot to simulate loss.
    for round in 0..40 {
        server.tick_begin();
        let running = server.tick_tasks();
        // Net-send first in the tick (low priority): drain acks, snapshot, prune.
        while let Some((tick, seq)) = acks.pop_front() {
            snet.ack(1, tick, seq);
        }
        s2c.push_back(snet.snapshot(&server, 1).unwrap());
        snet.prune(&mut server);
        // Physics runs for 30 ticks, then holds still so both sides settle.
        if server.tick() <= 30 {
            shift(&mut server, 0, 1.0, 0.5);
        }
        server.tick_end(running);
        if round % 4 == 0 {
            s2c.pop_front();
        }
        client.tick_begin();
        let running = client.tick_tasks();
        while let Some(snap) = s2c.pop_front() {
            let a = cnet.apply(&mut client, &snap).ok().unwrap();
            acks.push_back((a.tick, a.seq));
        }
        client.tick_end(running);
    }

    // Physics stopped at tick 30 and later rounds flushed the queues:
    // the client must hold the exact server state.
    assert_eq!(len(&client, 0), 50);
    for &id in &ids {
        assert_eq!(get(&client, 0, id), get(&server, 0, id), "entity {id:?} diverged");
    }
    // Kernel ticks start at 1, so "tick <= 30" fires on ticks 2..=30.
    assert_eq!(get(&server, 0, ids[0]), Some(Pos { x: 29.0, y: 14.5 }));
}

#[test]
fn net_tests_two_pms_converge_through_tasked_net_loop() {
    two_worlds_converge();
}

#[test]
fn net_two_pms_converge_through_tasked_net_loop() {
    two_worlds_converge();
}

const BUDGET: usize = 500; // ~40 entries of 12 bytes

fn dense_pool_streams() {
    // Many entities, ALL changed every tick, with a snapshot budget an order
    // of magnitude too small for one tick's changes: everyone must rotate
    // through within N/K snapshots.
    let (mut server, mut snet, mut client, cnet) = server_client_pair();
    for i in 0..300 {
        let id = server.id_add();
        add(&mut server, 0, id, Pos { x: i as f32, y: 0.0 });
    }

    let mut rounds = 0;
    while len(&client, 0) < 300 {
        rounds += 1;
        assert!(rounds <= 12, "rotation failed to cover all entities");
        turn(&mut server);
        // Everything moves every tick — worst case for delta models.
        shift(&mut server, 0, 0.0, 1.0);
        let snap = snet.snapshot_budgeted(&server, 1, BUDGET).unwrap();
        assert!(snap.bytes.len() <= BUDGET, "snapshot {} > budget", snap.bytes.len());
        assert!(snap.more, "a dirty horde always outweighs this budget");
        let applied = cnet.apply(&mut client, &snap.bytes).ok().unwrap();
        snet.ack(1, applied.tick, applied.seq);
    }
    // ceil(300/40) = 8 snapshots to cover everyone.
    assert!(rounds >= 8, "budget should force rotation, got {rounds}");

    // And the same mechanism converges to silence when changes stop.
    for _ in 0..70 {
        turn(&mut server);
        let snap = snet.snapshot_budgeted(&server, 1, BUDGET).unwrap();
        let applied = cnet.apply(&mut client, &snap.bytes).ok().unwrap();
        snet.ack(1, applied.tick, applied.seq);
    }
    turn(&mut server);
    let quiet = snet.snapshot_budgeted(&server, 1, BUDGET).unwrap();
    // Header (13: tick + send seq + input-seq + empty owner table) +
    // removal count (4) + section count (2) + one section header (6) and
    // zero entries.
    assert_eq!(quiet.bytes.len(), 25, "fully-confirmed world should pack empty");
    assert_eq!(quiet.entries, 0);
    assert!(!quiet.more, "a converged world reports a drained backlog");
}

#[test]
fn net_tests_dense_pool_streams_through_a_byte_budget() {
    dense_pool_streams();
}

#[test]
fn dense_pool_does_not_starve_pools_registered_after_it() {
    // A change-dense pool registered FIRST whose per-tick dirty set alone
    // outweighs the whole budget, with a sparse pool registered AFTER it.
    // Smallest-dirty-first packing must deliver the sparse one promptly.
    let mut server: World = Pm::new();
    let s_horde = server.pool("horde", BytePool::new(8));
    let s_score = server.pool("score", BytePool::new(8));
    let mut snet = NetServer::new(&mut server);
    snet.pool_sync("horde", s_horde);
    snet.pool_sync("score", s_score);
    snet.peer_add(1);

    let mut client: World = Pm::new();
    client.local_peer_set(1);
    let c_horde = client.pool("horde", BytePool::new(8));
    let c_score = client.pool("score", BytePool::new(8));
    let mut cnet = NetClient::new();
    cnet.pool_sync("horde", c_horde);
    cnet.pool_sync("score", c_score);

    for i in 0..200 {
        let id = server.id_add();
        add(&mut server, s_horde, id, Pos { x: i as f32, y: 0.0 });
    }
    let score_id = server.id_add();
    add(&mut server, s_score, score_id, Pos { x: 0.0, y: 0.0 });
    turn(&mut server);

    // ~40 entries fit; the horde alone re-dirties 200 every tick.
    for round in 0..30 {
        turn(&mut server);
        shift(&mut server, s_horde, 0.0, 1.0); // whole horde moves every tick
        // scoreboard also changes every tick
        add(&mut server, s_score, score_id, Pos { x: round as f32 + 1.0, y: 0.0 });
        let snap = snet.snapshot_budgeted(&server, 1, BUDGET).unwrap();
        assert!(snap.bytes.len() <= BUDGET, "snapshot {} > budget", snap.bytes.len());
        let applied = cnet.apply(&mut client, &snap.bytes).ok().unwrap();
        snet.ack(1, applied.tick, applied.seq);
        turn(&mut client);
    }

    // The sparse pool stayed fresh (within an ack round-trip of the last
    // write), and the horde still streamed through the leftover budget.
    let score = get(&client, c_score, score_id).expect("score never arrived");
    assert!(score.x >= 28.0, "scoreboard stale: saw {}, server wrote 30", score.x);
    assert!(
        len(&client, c_horde) == 200,
        "horde should still stream through leftovers, got {}",
        len(&client, c_horde)
    );
}

#[test]
fn same_tick_flight_drains_the_backlog() {
    let (mut server, mut snet, mut client, cnet) = server_client_pair();
    for i in 0..300 {
        let id = server.id_add();
        add(&mut server, 0, id, Pos { x: i as f32, y: 0.0 });
    }
    turn(&mut server);

    let mut sends = 0;
    loop {
        sends += 1;
        assert!(sends <= 12, "flight failed to drain the backlog");
        let snap = snet.snapshot_budgeted(&server, 1, BUDGET).unwrap();
        assert!(snap.bytes.len() <= BUDGET);
        let a = cnet.apply(&mut client, &snap.bytes).ok().unwrap();
        snet.ack(1, a.tick, a.seq);
        if !snap.more {
            break;
        }
    }
    assert!(sends >= 8, "300 dirty entities need several datagrams, took {sends}");
    assert_eq!(len(&client, 0), 300, "one tick's flight carried everyone");

    // Fully acked flight: the next tick opens with a drained backlog.
    turn(&mut server);
    let quiet = snet.snapshot_budgeted(&server, 1, BUDGET).unwrap();
    assert_eq!(quiet.entries, 0);
    assert!(!quiet.more);
}

#[test]
fn same_tick_sends_ack_by_seq_not_label() {
    let (mut server, mut snet, mut client, cnet) = server_client_pair();
    for i in 0..60 {
        let id = server.id_add();
        add(&mut server, 0, id, Pos { x: i as f32, y: 0.0 });
    }
    turn(&mut server);

    const SMALL: usize = 400; // ~31 entries: 60 dirty = two sends
    let first = snet.snapshot_budgeted(&server, 1, SMALL).unwrap();
    assert!(first.more, "60 entries must not fit one 400 B budget");
    let second = snet.snapshot_budgeted(&server, 1, SMALL).unwrap();
    assert!(second.entries > 0);
    assert!(!second.more, "two sends cover 60 entries");

    let lost = first.entries; // lost on the wire; only the second arrives
    let a = cnet.apply(&mut client, &second.bytes).ok().unwrap();
    snet.ack(1, a.tick, a.seq);

    // The ack settled the second send as received and the first as lost:
    // the next send carries exactly the lost chunk, nothing more.
    let third = snet.snapshot_budgeted(&server, 1, SMALL).unwrap();
    assert_eq!(third.entries, lost, "exactly the lost send's entries resend");
    let a = cnet.apply(&mut client, &third.bytes).ok().unwrap();
    snet.ack(1, a.tick, a.seq);
    assert_eq!(len(&client, 0), 60);

    // Everything confirmed: a fresh send packs empty.
    let quiet = snet.snapshot_budgeted(&server, 1, SMALL).unwrap();
    assert_eq!(quiet.entries, 0);
}

#[test]
fn owner_table_rides_every_header() {
    let (mut server, mut snet, mut client, cnet) = server_client_pair();
    let id1 = server.id_add();
    let id2 = server.id_add();
    turn(&mut server);

    // Unsorted input: the wire table comes back sorted by peer.
    snet.owners_set(vec![(2, id2.0), (1, id1.0)]);
    let snap = snet.snapshot(&server, 1).unwrap();
    let applied = cnet.apply(&mut client, &snap).ok().unwrap();
    assert_eq!(applied.owners, vec![(1, id1), (2, id2)]);

    // The table rides EVERY header, not just the first — a lost snapshot
    // costs nothing.
    turn(&mut server);
    let snap = snet.snapshot(&server, 1).unwrap();
    let applied = cnet.apply(&mut client, &snap).ok().unwrap();
    assert_eq!(applied.owners, vec![(1, id1), (2, id2)]);

    // A cleared table packs (and parses) empty.
    snet.owners_set(Vec::new());
    turn(&mut server);
    let snap = snet.snapshot(&server, 1).unwrap();
    assert!(cnet.apply(&mut client, &snap).ok().unwrap().owners.is_empty());
}

#[test]
fn applying_a_snapshot_twice_changes_nothing() {
    let (mut server, mut snet, mut client, cnet) = server_client_pair();
    for i in 0..5 {
        let id = server.id_add();
        add(&mut server, 0, id, Pos { x: i as f32, y: 1.0 });
    }
    turn(&mut server);
    let snap = snet.snapshot(&server, 1).unwrap();
    assert!(cnet.apply(&mut client, &snap).is_ok());
    let before: Vec<Vec<u8>> = client.pool_at(0).rows_ref().values().to_vec();
    assert!(cnet.apply(&mut client, &snap).is_ok());
    assert_eq!(client.pool_at(0).rows_ref().values().to_vec(), before);
    assert_eq!(len(&client, 0), 5);
}

#[test]
fn a_stranger_gets_no_snapshot_and_a_leaver_is_forgotten() {
    let (mut server, mut snet, _, _) = server_client_pair();
    turn(&mut server);
    assert!(snet.snapshot(&server, 9).is_none());
    assert_eq!(snet.peers(), vec![1]);
    snet.input_processed(1, 77);
    let snap = snet.snapshot(&server, 1).unwrap();
    assert_eq!(&snap[8..12], &77u32.to_le_bytes());
    snet.peer_remove(1);
    assert!(snet.snapshot(&server, 1).is_none());
    assert_eq!(snet.acked_tick(1), 0);
}
