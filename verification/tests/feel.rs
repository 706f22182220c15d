//! Prediction, mirroring and interpolation.

use pm::id::Id;
use pm::pool::Pool;
use pm::predict::{pool_mirror, predict_tick, Predictor, Sent};
use pm::smooth::{pool_interp, Bracket, InterpBuffer};

// 1-D "physics": position integrates velocity commands.
fn step(s: f32, c: f32) -> f32 {
    s + c
}

fn close(a: &f32, b: &f32) -> bool {
    (a - b).abs() <= 1e-6
}

#[test]
fn clean_echo_means_no_corrections() {
    let mut p: Predictor<f32, f32> = Predictor::default();
    p.reconcile(0.0, 0, &step, &close); // seed
    for seq in 1..=100u32 {
        p.predict(seq, 1.0, &step);
    }
    // Server applied through seq 50 and (deterministically) agrees.
    assert!(!p.reconcile(50.0, 50, &step, &close));
    assert_eq!(p.corrections(), 0);
    assert_eq!(p.state(), Some(100.0));
}

#[test]
fn divergence_rewinds_and_replays() {
    let mut p: Predictor<f32, f32> = Predictor::default();
    p.reconcile(0.0, 0, &step, &close);
    for seq in 1..=10u32 {
        p.predict(seq, 1.0, &step);
    }
    // Server says position was 3.5 at seq 5 (we predicted 5.0):
    // rewind to 3.5, replay seqs 6..=10 -> 8.5.
    assert!(p.reconcile(3.5, 5, &step, &close));
    assert_eq!(p.corrections(), 1);
    assert_eq!(p.state(), Some(8.5));
}

#[test]
fn stall_adopts_authority() {
    let mut p: Predictor<f32, f32> = Predictor::default();
    p.reconcile(0.0, 0, &step, &close);
    p.predict(1, 1.0, &step);
    // Echo far past everything we have queued.
    p.reconcile(42.0, 99, &step, &close);
    assert_eq!(p.state(), Some(42.0));
}

#[test]
fn nothing_is_predicted_before_the_first_snapshot() {
    let mut p: Predictor<f32, f32> = Predictor::with_cap(4);
    p.predict(1, 1.0, &step);
    assert_eq!(p.state(), None);
    p.reset(3.0);
    for seq in 1..=10u32 {
        p.predict(seq, 1.0, &step);
    }
    assert_eq!(p.state(), Some(13.0));
    // Only the last four inputs are kept, so an echo of the fifth finds no
    // prediction and leaves the state alone.
    assert!(!p.reconcile(0.0, 5, &step, &close));
    assert_eq!(p.state(), Some(13.0));
}

#[test]
fn a_reset_leaves_nothing_to_compare() {
    let mut p: Predictor<f32, f32> = Predictor::default();
    p.reconcile(0.0, 0, &step, &close);
    for seq in 1..=10u32 {
        p.predict(seq, 1.0, &step);
    }
    assert!(p.reconcile(3.5, 5, &step, &close));
    for echo in [0u32, 1, 7, 99] {
        p.reset(2.0);
        assert_eq!(p.state(), Some(2.0));
        let never = |_: f32, _: f32| -> f32 { panic!("nothing to replay") };
        let none = |_: &f32, _: &f32| -> bool { panic!("nothing to compare") };
        assert!(!p.reconcile(2.0, echo, &never, &none));
        assert_eq!((p.state(), p.corrections()), (Some(2.0), 1));
    }
}

fn partial(s: f32, c: f32) -> f32 {
    s + 0.5 * c
}

#[test]
fn a_predicted_tick_reconciles_then_predicts_then_draws() {
    let me = Id::new(0, 0, 1);
    let mut auth: Pool<f32> = Pool::new();
    let mut draw: Pool<f32> = Pool::new();
    let mut p: Predictor<f32, f32> = Predictor::new();
    auth.add(me, 10.0);

    // No avatar yet: nothing happens.
    let sent = vec![Sent { seq: 1, cmd: 1.0 }];
    predict_tick(&mut p, None, &auth, &mut draw, &vec![0], &sent, 1.0, &step, &close, &partial);
    assert_eq!(p.state(), None);
    assert!(draw.is_empty());

    // The first snapshot seeds, the send predicts, the draw leads by half a
    // step.
    predict_tick(&mut p, Some(me), &auth, &mut draw, &vec![0], &sent, 1.0, &step, &close, &partial);
    assert_eq!(p.state(), Some(11.0));
    assert_eq!(draw.get(me), Some(&11.5));

    // Authority disagrees about input 1: rewind, then predict input 2.
    auth.add(me, 20.0);
    let sent = vec![Sent { seq: 2, cmd: 1.0 }];
    predict_tick(&mut p, Some(me), &auth, &mut draw, &vec![1], &sent, 0.0, &step, &close, &partial);
    assert_eq!(p.corrections(), 1);
    assert_eq!(p.state(), Some(21.0));
    assert_eq!(draw.get(me), Some(&21.0));

    // The avatar is gone from authority: the predictor idles.
    auth.remove(me);
    predict_tick(&mut p, Some(me), &auth, &mut draw, &vec![], &vec![], 0.0, &step, &close, &partial);
    assert_eq!(p.state(), None);
}

#[test]
fn the_mirror_copies_blends_and_drops() {
    let a = Id::new(0, 0, 1);
    let b = Id::new(0, 0, 2);
    let mut auth: Pool<f32> = Pool::new();
    let mut draw: Pool<f32> = Pool::new();
    auth.add(a, 10.0);
    let halfway = |_: Id, d: f32, t: &f32| d + (t - d) * 0.5;
    pool_mirror(&auth, &mut draw, halfway);
    assert_eq!(draw.get(a), Some(&10.0), "new entities copy in");
    auth.add(a, 20.0);
    auth.add(b, 5.0);
    pool_mirror(&auth, &mut draw, halfway);
    assert_eq!(draw.get(a), Some(&15.0), "existing ones blend");
    assert_eq!(draw.get(b), Some(&5.0));
    auth.remove(a);
    pool_mirror(&auth, &mut draw, halfway);
    assert!(!draw.contains(a), "entities gone from authority drop out");
    assert_eq!(draw.len(), 1);
}

fn t(x: f64) -> u64 {
    x.to_bits()
}

fn same(a: &f32, b: &f32) -> bool {
    a == b
}

const DELAY: f64 = 0.1;
const WINDOW: f64 = 0.5;

fn push(buf: &mut InterpBuffer<f32>, id: Id, now: f64, v: f32) {
    buf.push(id, t(now), v, t(now - (DELAY + WINDOW)), &same);
}

/// The blend of a moment, holding past the newest.
fn lerp_at(target: f64) -> impl Fn(Bracket<f32>) -> f32 {
    move |b| match b {
        Bracket::Hold(v) => v,
        Bracket::Between { before, after } => {
            let (t0, t1) = (f64::from_bits(before.time), f64::from_bits(after.time));
            let f = ((target - t0) / (t1 - t0)) as f32;
            before.value + (after.value - before.value) * f
        }
        Bracket::Dry { newest, .. } => newest.value,
    }
}

fn sample(buf: &InterpBuffer<f32>, id: Id, now: f64) -> Option<f32> {
    let target = now - DELAY;
    buf.sample(id, t(target)).map(lerp_at(target))
}

#[test]
fn samples_between_known_points_never_past_newest() {
    let mut buf = InterpBuffer::new(); // render 100 ms behind newest
    let id = Id::new(0, 0, 1);
    push(&mut buf, id, 0.0, 0.0); // sample at t=0.0
    push(&mut buf, id, 0.1, 10.0); // sample at t=0.1 (moved 0 -> 10)
    // At now=0.15 we render now-delay=0.05 — halfway BETWEEN the two
    // known-true samples, never extrapolated past the newest.
    assert_eq!(sample(&buf, id, 0.15), Some(5.0));
    // Pure-interp default: past the newest sample it holds.
    assert_eq!(sample(&buf, id, 0.5), Some(10.0));
}

#[test]
fn a_stationary_entity_grows_no_ring() {
    let mut buf = InterpBuffer::new();
    let id = Id::new(0, 0, 1);
    for i in 0..100 {
        push(&mut buf, id, i as f64 * 0.016, 7.0);
    }
    match buf.sample(id, t(100.0)) {
        Some(Bracket::Dry { prior: None, newest }) => {
            assert_eq!(newest.value, 7.0);
            assert_eq!(newest.time, t(0.0));
        }
        _ => panic!("one sample, held"),
    }
}

#[test]
fn old_samples_drop_down_to_two() {
    let mut buf = InterpBuffer::new();
    let id = Id::new(0, 0, 1);
    push(&mut buf, id, 0.0, 0.0);
    push(&mut buf, id, 1.0, 1.0);
    push(&mut buf, id, 2.0, 2.0); // 0.0 is past the window and a third
    match buf.sample(id, t(0.5)) {
        Some(Bracket::Hold(v)) => assert_eq!(v, 1.0),
        _ => panic!("the oldest kept sample holds"),
    }
    assert!(buf.sample(Id::new(0, 0, 9), t(0.5)).is_none());
}

#[test]
fn interpolating_a_pool_follows_authority() {
    let a = Id::new(0, 0, 1);
    let b = Id::new(0, 0, 2);
    let mut auth: Pool<f32> = Pool::new();
    let mut draw: Pool<f32> = Pool::new();
    let mut buf: InterpBuffer<f32> = InterpBuffer::new();
    auth.add(a, 0.0);
    auth.add(b, 1.0);
    let mut frame = |auth: &Pool<f32>, draw: &mut Pool<f32>, buf: &mut InterpBuffer<f32>, now: f64| {
        let target = now - DELAY;
        pool_interp(
            auth,
            draw,
            buf,
            t(now),
            t(now - (DELAY + WINDOW)),
            t(target),
            &same,
            &lerp_at(target),
        );
    };
    frame(&auth, &mut draw, &mut buf, 0.0);
    assert_eq!(draw.get(a), Some(&0.0));
    auth.add(a, 10.0);
    frame(&auth, &mut draw, &mut buf, 0.1);
    frame(&auth, &mut draw, &mut buf, 0.15);
    assert_eq!(draw.get(a), Some(&5.0));
    assert_eq!(draw.get(b), Some(&1.0));
    auth.remove(b);
    frame(&auth, &mut draw, &mut buf, 0.16);
    assert!(!draw.contains(b) && !buf.contains(b));
    assert!(buf.contains(a));
}
