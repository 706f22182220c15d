//! Past-tick windows and expiry.

use pm::history::{pool_expire, HistoryRing, Journal, PoolHistory};
use pm::id::Id;
use pm::kernel::Pm;
use pm::pool::Pool;

fn id(n: u32) -> Id {
    Id::new(0, 0, n)
}

fn tick(pm: &mut Pm<Pool<f32>>) {
    pm.tick_begin();
    let running = pm.tick_tasks();
    pm.tick_end(running);
}

#[test]
fn journal_ring_caps_and_clamps() {
    let mut ring = Journal::new(4);
    assert_eq!(ring.frame(0), None, "empty ring has no frames");
    for t in 1..=10u32 {
        ring.push(t, vec![(id(1), t as f32)]);
    }
    assert_eq!(ring.oldest(), Some(7));
    assert_eq!(ring.newest(), Some(10));
    // Exact hit, clamp-below, clamp-above.
    assert_eq!(ring.frame(8), Some(&[(id(1), 8.0)][..]));
    assert_eq!(ring.frame(2), Some(&[(id(1), 7.0)][..]));
    assert_eq!(ring.frame(50), Some(&[(id(1), 10.0)][..]));
}

#[test]
fn journal_ring_ignores_stale_labels_and_recaps() {
    let mut ring = Journal::new(8);
    ring.push(5, vec![(id(1), 1)]);
    ring.push(5, vec![(id(1), 2)]); // same label: ignored
    ring.push(4, vec![(id(1), 3)]); // older label: ignored
    assert_eq!(ring.frame(5), Some(&[(id(1), 1)][..]));
    for t in 6..=12u32 {
        ring.push(t, vec![(id(1), t)]);
    }
    ring.cap_set(3);
    assert_eq!(ring.oldest(), Some(10), "cap_set drops oldest frames");
}

#[test]
fn duration_ring_caps_and_clamps() {
    let mut ring = HistoryRing::new(4);
    assert_eq!(ring.frame(0), None, "empty ring has no frames");
    for t in 1..=10u32 {
        ring.push(t, vec![(id(1), t as f32)]);
    }
    assert_eq!(ring.oldest(), Some(7));
    assert_eq!(ring.newest(), Some(10));
    // Exact hit, clamp-below, clamp-above.
    assert_eq!(ring.frame(8), Some(&[(id(1), 8.0)][..]));
    assert_eq!(ring.frame(2), Some(&[(id(1), 7.0)][..]));
    assert_eq!(ring.frame(50), Some(&[(id(1), 10.0)][..]));
}

#[test]
fn duration_ring_ignores_stale_labels_and_recaps() {
    let mut ring = HistoryRing::new(8);
    ring.push(5, vec![(id(1), 1)]);
    ring.push(5, vec![(id(1), 2)]); // same label: ignored
    ring.push(4, vec![(id(1), 3)]); // older label: ignored
    assert_eq!(ring.frame(5), Some(&[(id(1), 1)][..]));
    for t in 6..=12u32 {
        ring.push(t, vec![(id(1), t)]);
    }
    ring.cap_set(3);
    assert_eq!(ring.oldest(), Some(10), "cap_set drops oldest frames");
}

/// One tick of a world whose expiry task runs over the pool.
fn ttl_tick(pm: &mut Pm<Pool<f32>>, at: usize, ttl: u32) {
    pm.tick_begin();
    let running = pm.tick_tasks();
    let mut pool: Pool<f32> = Pool::new();
    std::mem::swap(&mut pool, pm.pool_at_mut(at));
    pool_expire(pm, &pool, ttl);
    std::mem::swap(&mut pool, pm.pool_at_mut(at));
    pm.tick_end(running);
}

fn expires_after_ttl() {
    let mut pm: Pm<Pool<f32>> = Pm::new();
    let at = pm.pool("p", Pool::new());
    let a = pm.id_add();
    let b = pm.id_add();
    pm.pool_at_mut(at).add(a, 0.0);
    pm.pool_at_mut(at).add(b, 0.0);
    for i in 0..4 {
        // Keep writing `b`: its TTL clock restarts every write.
        if let Some(e) = pm.pool_at_mut(at).get_mut(b) {
            *e = i as f32;
        }
        ttl_tick(&mut pm, at, 5);
    }
    assert!(pm.pool_at(at).contains(a), "still inside ttl");
    for _ in 0..4 {
        ttl_tick(&mut pm, at, 5);
    }
    assert!(!pm.pool_at(at).contains(a), "expired after ttl ticks");
    assert!(pm.pool_at(at).contains(b), "writes refreshed b's ttl");
    assert!(!pm.id_alive(a), "expiry removes the entity, not just the entry");
}

#[test]
fn duration_expire_removes_after_ttl_and_refreshes_on_write() {
    expires_after_ttl();
}

#[test]
fn netmod_tests_expire_removes_after_ttl_and_refreshes_on_write() {
    expires_after_ttl();
}

#[test]
fn ttl_pool_expires_stale_entries() {
    let mut pm: Pm<Pool<f32>> = Pm::new();
    let at = pm.pool("pos", Pool::new());
    let a = pm.id_add();
    pm.pool_at_mut(at).add(a, 1.0);
    for _ in 0..3 {
        ttl_tick(&mut pm, at, 6); // 0.1 s at 60 Hz
    }
    assert!(pm.pool_at(at).contains(a), "still inside the lifetime");
    for _ in 0..10 {
        ttl_tick(&mut pm, at, 6);
    }
    assert!(!pm.pool_at(at).contains(a), "expired after the ttl");
    assert!(!pm.id_alive(a), "expiry removes the entity, not just the entry");
}

#[test]
fn pool_history_rewinds_past_ticks() {
    let mut pm: Pm<Pool<f32>> = Pm::new();
    let at = pm.pool("pos", Pool::new());
    let mut hist: PoolHistory<f32> = PoolHistory::new();
    let id = pm.id_add();
    pm.pool_at_mut(at).add(id, 0.0);
    for i in 0..40 {
        if let Some(e) = pm.pool_at_mut(at).get_mut(id) {
            *e = i as f32;
        }
        tick(&mut pm);
        hist.record(pm.tick(), 30, pm.pool_at(at)); // 0.5 s at 60 Hz
    }
    // The kernel is born at tick 1, so iteration i (which set x == i) runs
    // as tick i+2 and its frame is labeled with the last completed tick:
    // frame L reads L-1.
    let probe = |label: u32| hist.frame(label).expect("frame")[0].1;
    assert_eq!(probe(35), 34.0, "exact rewind");
    assert_eq!(probe(11), 10.0, "exact rewind at the window edge");
    assert_eq!(probe(0), 10.0, "older than the window clamps to oldest");
    assert_eq!(probe(1000), 39.0, "future clamps to newest");
}

#[test]
fn a_gap_rewinds_to_the_frame_before_it() {
    let mut ring = HistoryRing::new(8);
    ring.push(10, vec![(id(1), 'a')]);
    ring.push(14, vec![(id(1), 'b')]);
    assert_eq!(ring.frame(14), Some(&[(id(1), 'b')][..]));
    assert_eq!(ring.frame(12), Some(&[(id(1), 'a')][..]));
    assert_eq!(ring.frame(9), Some(&[(id(1), 'a')][..]));
}

#[test]
fn the_newest_label_is_never_lost() {
    for cap in [0usize, 1, 3] {
        let mut j: Journal<u32> = Journal::new(cap);
        assert_eq!(j.newest(), None);
        for (tick, newest) in [(5u32, 5u32), (3, 5), (9, 9), (9, 9), (12, 12), (1, 12)] {
            j.push(tick, vec![(id(1), tick)]);
            assert_eq!(j.newest(), Some(newest));
            j.cap_set(0);
            assert_eq!(j.newest(), Some(newest));
            j.cap_set(cap);
        }
        assert_eq!(j.frame(u32::MAX).unwrap()[0].1, 12);
    }
}
