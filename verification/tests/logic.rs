//! Logic helpers: edges, latches, counters, timers, births, the generator.

use pm::id::Id;
use pm::pool::Pool;
use pm::timer::{interval_due, Cooldown, DelayTimer, Hysteresis};
use pm::util::{Births, Counter, FallingEdge, Latch, RisingEdge, Rng};

fn plus(a: u32, b: u32) -> u32 {
    (f32::from_bits(a) + f32::from_bits(b)).to_bits()
}

fn minus(a: u32, b: u32) -> u32 {
    (f32::from_bits(a) - f32::from_bits(b)).to_bits()
}

#[test]
fn edges_and_latch_and_counter() {
    let mut re = RisingEdge::default();
    assert!(re.update(true));
    assert!(!re.update(true));
    let mut fe = FallingEdge::default();
    fe.update(true);
    assert!(fe.update(false));

    let mut l = Latch::default();
    l.update(true, false);
    assert!(l.is_on());
    l.update(true, true); // reset-dominant
    assert!(!l.is_on());

    let mut c = Counter::new(2);
    c.increment();
    assert!(!c.done);
    c.increment();
    assert!(c.done);
    c.increment();
    assert_eq!(c.count, 2);
}

#[test]
fn a_set_dominant_latch_stays_on_when_both_are_true() {
    let mut l = Latch::new(false);
    l.update(true, true);
    assert!(l.is_on());
    l.update(false, true);
    assert!(!l.is_on());
}

#[test]
fn counting_down_stops_at_zero() {
    let mut c = Counter::new(5);
    c.increment();
    c.decrement();
    assert_eq!(c.count, 0);
    assert!(c.done);
    c.reset_to(1);
    assert_eq!((c.count, c.preset, c.done), (0, 1, false));
    c.increment();
    assert!(c.done);
}

#[test]
fn hysteresis_blocks_flicker() {
    let same = |a: &bool, b: &bool| a == b;
    let mut h = Hysteresis::new(false, 0.1f32.to_bits());
    h.set(true, &same);
    assert!(h.get());
    h.set(false, &same); // inside hold window: ignored
    assert!(h.get());
    h.update(0.11f32.to_bits(), &minus);
    h.set(false, &same);
    assert!(!h.get());
}

#[test]
fn cooldown_fires_once_per_interval() {
    let mut c = Cooldown::new(0.5f32.to_bits());
    let mut fires = 0;
    for _ in 0..60 {
        if c.ready((1.0f32 / 60.0).to_bits(), &plus, &minus) {
            fires += 1;
        }
    }
    assert_eq!(fires, 2);
    c.reset();
    assert_eq!(c.elapsed, 0);
}

#[test]
fn delay_timer_on_off() {
    let mut t = DelayTimer::new(0.2f32.to_bits(), 0.1f32.to_bits());
    for _ in 0..11 {
        t.update(true, (1.0f32 / 60.0).to_bits(), &plus);
    }
    assert!(!t.is_on()); // 11/60 s < 0.2
    t.update(true, 0.1f32.to_bits(), &plus);
    assert!(t.is_on());
    t.update(false, 0.05f32.to_bits(), &plus);
    assert!(t.is_on()); // off-delay not elapsed
    t.update(false, 0.06f32.to_bits(), &plus);
    assert!(!t.is_on());
    t.update(true, 0.1f32.to_bits(), &plus);
    t.update(false, 0.1f32.to_bits(), &plus);
    assert_eq!(t.elapsed, 0, "an interrupted on-delay starts over");
}

#[test]
fn intervals_take_off_what_they_used() {
    let mut accum = 0u32;
    let second = 1.0f32.to_bits();
    let quarter = 0.25f32.to_bits();
    let fired: Vec<bool> = (0..10)
        .map(|_| interval_due(second, &mut accum, quarter, &plus, &minus))
        .collect();
    assert_eq!(fired.iter().filter(|f| **f).count(), 2);
    assert!(fired[3] && fired[7]);
    assert_eq!(f32::from_bits(accum), 0.5);
    // No interval: every tick.
    assert!(interval_due(0, &mut accum, quarter, &plus, &minus));
}

#[test]
fn births_prime_silently_and_report_once() {
    let mut pool: Pool<f32> = Pool::new();
    let mut sfx = Births::default();
    pool.add(Id::new(0, 0, 1), 1.0);
    assert!(sfx.drain(&pool).is_empty()); // first call: prime, no replay
    pool.add(Id::new(0, 0, 2), 2.0);
    assert_eq!(sfx.drain(&pool), vec![Id::new(0, 0, 2)]); // the newborn
    assert!(sfx.drain(&pool).is_empty()); // an entity is born once
    // A recycled slot's next occupant counts as born.
    pool.remove(Id::new(0, 0, 2));
    assert!(sfx.drain(&pool).is_empty());
    pool.add(Id::new(0, 1, 2), 3.0);
    assert_eq!(sfx.drain(&pool), vec![Id::new(0, 1, 2)]);
}

#[test]
fn the_generator_is_deterministic_and_never_sticks() {
    let mut a = Rng::new(123);
    let mut b = Rng::new(123);
    for _ in 0..1000 {
        let x = a.next_u32();
        assert_eq!(x, b.next_u32());
        assert_ne!(x, 0);
    }
    // Two rounds of the shifts 13, 17, 5 by hand.
    let mut r = Rng::new(1);
    assert_eq!(r.next_u32(), 270_369);
    assert_eq!(r.next_u32(), 67_634_689);
}

fn rf(rng: &mut Rng) -> f32 {
    (rng.next_u32() & 0xFF_FFFF) as f32 / 0x100_0000 as f32
}

fn rfr(rng: &mut Rng, lo: f32, hi: f32) -> f32 {
    lo + rf(rng) * (hi - lo)
}

#[test]
fn math_rng_is_deterministic_and_in_range() {
    let mut a = Rng::new(7);
    let mut b = Rng::new(7);
    for _ in 0..1000 {
        let f = rf(&mut a);
        assert!((0.0..1.0).contains(&f));
        assert_eq!(f, rf(&mut b)); // same seed, same stream
        let r = rfr(&mut a, -2.0, 3.0);
        assert!((-2.0..=3.0).contains(&r));
        assert_eq!(r, rfr(&mut b, -2.0, 3.0));
    }
    assert_eq!(Rng::new(0).next_u32(), Rng::new(1).next_u32()); // zero-seed guard
}
