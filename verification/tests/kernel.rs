//! The kernel driven as a program drives it: closures by token, one loop
//! turn at a time.

use std::cell::RefCell;
use std::rc::Rc;

use pm::handle::{AccessError, PoolHandle, SingleHandle};
use pm::id::Id;
use pm::kernel::Pm;
use pm::pace::{Pace, Pacer};
use pm::pool::Pool;
use pm::timer::interval_due;

const DT: f32 = 1.0 / 60.0;

#[derive(Default, Clone, Copy, PartialEq, Debug)]
struct Pos {
    x: f32,
    y: f32,
}

/// What the pools of these worlds hold.
#[derive(Clone, Copy, PartialEq, Debug)]
enum Val {
    Pos(Pos),
    Num(u32),
}

type Body = Box<dyn FnMut(&mut World) -> Result<(), String>>;

struct Slot {
    token: u64,
    interval: f32,
    accum: u32,
    body: Option<Body>,
}

/// A kernel with its closures.
struct World {
    pm: Pm<Pool<Val>>,
    slots: Vec<Slot>,
    dt: f32,
}

fn plus(a: u32, b: u32) -> u32 {
    (f32::from_bits(a) + f32::from_bits(b)).to_bits()
}

fn minus(a: u32, b: u32) -> u32 {
    (f32::from_bits(a) - f32::from_bits(b)).to_bits()
}

impl World {
    fn new() -> World {
        World { pm: Pm::new(), slots: Vec::new(), dt: 0.0 }
    }

    fn pool(&mut self, name: &str) -> usize {
        self.pm.pool(name, Pool::new())
    }

    fn at(&mut self, i: usize) -> &mut Pool<Val> {
        self.pm.pool_at_mut(i)
    }

    fn pos_of(&mut self, i: usize, id: Id) -> Option<Pos> {
        match self.at(i).get(id) {
            Some(Val::Pos(p)) => Some(*p),
            _ => None,
        }
    }

    fn keep(&mut self, token: u64, interval: f32, body: Body) {
        self.slots.push(Slot { token, interval, accum: 0, body: Some(body) });
    }

    fn task_add(&mut self, name: &str, prio: f32, interval: f32, body: Body) {
        let token = self.pm.task_add(name, prio.to_bits());
        self.keep(token, interval, body);
    }

    fn task_add_or_replace(&mut self, name: &str, prio: f32, interval: f32, body: Body) {
        let token = self.pm.task_add_or_replace(name, prio.to_bits());
        self.keep(token, interval, body);
    }

    fn loop_once(&mut self, dt: f32) {
        self.dt = dt;
        self.pm.tick_begin();
        let mut running = self.pm.tick_tasks();
        for task in running.iter_mut() {
            let k = self.slots.iter().position(|s| s.token == task.token).unwrap();
            let slot = &mut self.slots[k];
            let interval = slot.interval.to_bits();
            if !interval_due(interval, &mut slot.accum, dt.to_bits(), &plus, &minus) {
                continue;
            }
            let mut body = slot.body.take().unwrap();
            self.pm.task_enter(task);
            let error = body(self).err();
            self.pm.task_done(task, 1000, error);
            self.slots[k].body = Some(body);
        }
        self.pm.tick_end(running);
    }
}

#[test]
fn single_is_one_entity_shared_by_name() {
    let mut pm: Pm<Pool<u32>> = Pm::new();
    let a = SingleHandle::fetch(&mut pm, "hits", 0);
    *a.get_mut(&mut pm).get_mut() = 7;
    let b = SingleHandle::fetch(&mut pm, "hits", 0);
    assert_eq!(*b.get(&pm), 7);
    assert_eq!(a.id(), b.id());
    // It's an ordinary pool entity underneath.
    assert_eq!(PoolHandle::fetch(&mut pm, "hits").get(&pm).len(), 1);
    assert_eq!(a.pool().name(), "hits");
}

#[test]
fn tasks_run_in_priority_order() {
    let mut w = World::new();
    let order = Rc::new(RefCell::new(Vec::new()));
    for (name, prio) in [("c", 30.0), ("a", 10.0), ("b", 20.0)] {
        let order = order.clone();
        w.task_add(
            name,
            prio,
            0.0,
            Box::new(move |_| {
                order.borrow_mut().push(name);
                Ok(())
            }),
        );
    }
    w.loop_once(DT);
    assert_eq!(*order.borrow(), vec!["a", "b", "c"]);
}

#[test]
fn equal_priorities_keep_registration_order_and_negatives_come_first() {
    let mut w = World::new();
    let order = Rc::new(RefCell::new(Vec::new()));
    for (name, prio) in [("x", 1.0), ("y", -2.0), ("z", 1.0), ("w", -2.0)] {
        let order = order.clone();
        w.task_add(
            name,
            prio,
            0.0,
            Box::new(move |_| {
                order.borrow_mut().push(name);
                Ok(())
            }),
        );
    }
    w.loop_once(DT);
    assert_eq!(*order.borrow(), vec!["y", "w", "x", "z"]);
}

#[test]
fn the_canonical_pattern_works() {
    // Fetch during init, capture the handle in the closure, mutate in the task.
    let mut w = World::new();
    let pos = w.pool("pos");
    let id = w.pm.id_add();
    w.at(pos).add(id, Val::Pos(Pos { x: 0.0, y: 0.0 }));
    w.task_add(
        "physics",
        30.0,
        0.0,
        Box::new(move |w| {
            let dt = w.dt;
            let ids: Vec<Id> = w.at(pos).ids().to_vec();
            for id in ids {
                if let Some(Val::Pos(p)) = w.at(pos).get_mut(id) {
                    p.x += 10.0 * dt;
                }
            }
            Ok(())
        }),
    );
    w.loop_once(0.5);
    w.loop_once(0.5);
    assert_eq!(w.pos_of(pos, id), Some(Pos { x: 10.0, y: 0.0 }));
}

#[test]
fn id_remove_is_deferred_and_flushes_all_pools() {
    let mut w = World::new();
    let pos = w.pool("pos");
    let hp = w.pool("hp");
    let id = w.pm.id_add();
    w.at(pos).add(id, Val::Pos(Pos::default()));
    w.at(hp).add(id, Val::Num(100));

    let seen_alive_after_remove = Rc::new(RefCell::new(false));
    let seen = seen_alive_after_remove.clone();
    w.task_add(
        "reaper",
        10.0,
        0.0,
        Box::new(move |w| {
            w.pm.id_remove(id);
            // Deferred: still alive within the same tick.
            *seen.borrow_mut() = w.pm.id_alive(id);
            Ok(())
        }),
    );

    w.loop_once(DT);
    assert!(*seen_alive_after_remove.borrow());
    assert!(!w.pm.id_alive(id));
    assert!(!w.at(pos).contains(id));
    assert!(!w.at(hp).contains(id));
}

#[test]
fn removed_ids_recycle_with_bumped_generation() {
    let mut w = World::new();
    let pos = w.pool("pos");
    let a = w.pm.id_add();
    w.at(pos).add(a, Val::Pos(Pos { x: 1.0, y: 0.0 }));
    w.pm.id_remove(a);
    w.loop_once(DT); // flush: kill + (no peers) release

    let b = w.pm.id_add();
    assert_eq!(b.index(), a.index(), "index should recycle");
    assert_eq!(b.generation(), a.generation() + 1, "generation should bump");
    assert!(!w.pm.id_alive(a) && w.pm.id_alive(b));

    w.at(pos).add(b, Val::Pos(Pos { x: 2.0, y: 0.0 }));
    assert_eq!(w.pos_of(pos, a), None, "stale handle must miss");
    assert_eq!(w.pos_of(pos, b), Some(Pos { x: 2.0, y: 0.0 }));
}

#[test]
fn tick_advances_and_stamps_changes() {
    let mut w = World::new();
    let hp = w.pool("hp");
    let id = w.pm.id_add();
    w.at(hp).add(id, Val::Num(100)); // init-time add, stamped tick 1
    let init_tick = w.pm.tick();

    w.task_add(
        "damage",
        10.0,
        0.0,
        Box::new(move |w| {
            if let Some(Val::Num(h)) = w.at(hp).get_mut(id) {
                *h -= 1;
            }
            Ok(())
        }),
    );
    w.loop_once(DT);
    w.loop_once(DT);

    assert_eq!(w.pm.tick(), init_tick + 2);
    let now = w.pm.tick();
    assert_eq!(w.at(hp).changed_tick(id), Some(now));
    // A peer that acked the first tick still sees the later change.
    assert_eq!(w.at(hp).changed_since(init_tick + 1).len(), 1);
    assert_eq!(w.at(hp).changed_since(now).len(), 0);
}

#[test]
fn periodic_task_fires_once_per_interval() {
    let mut w = World::new();
    let count = Rc::new(RefCell::new(0));
    let c = count.clone();
    w.task_add(
        "slow",
        10.0,
        1.0,
        Box::new(move |_| {
            *c.borrow_mut() += 1;
            Ok(())
        }),
    );
    for _ in 0..10 {
        w.loop_once(0.25); // 2.5 seconds total
    }
    assert_eq!(*count.borrow(), 2);
}

#[test]
fn task_add_and_stop_from_inside_a_task() {
    let mut w = World::new();
    let log = Rc::new(RefCell::new(Vec::new()));
    let l = log.clone();
    w.task_add(
        "spawner",
        10.0,
        0.0,
        Box::new(move |w| {
            l.borrow_mut().push("spawner");
            let l = l.clone();
            w.task_add(
                "spawned",
                5.0,
                0.0,
                Box::new(move |_| {
                    l.borrow_mut().push("spawned");
                    Ok(())
                }),
            );
            w.pm.task_stop("spawner");
            Ok(())
        }),
    );
    w.loop_once(DT); // spawner runs, adds "spawned", stops itself
    w.loop_once(DT); // only "spawned" runs
    w.loop_once(DT);
    assert_eq!(*log.borrow(), vec!["spawner", "spawned", "spawned"]);
}

#[test]
fn quit_stops_loop_run() {
    let mut w = World::new();
    let ticks = Rc::new(RefCell::new(0));
    let t = ticks.clone();
    w.task_add(
        "control",
        0.0,
        0.0,
        Box::new(move |w| {
            *t.borrow_mut() += 1;
            if *t.borrow() == 3 {
                w.pm.loop_quit();
            }
            Ok(())
        }),
    );
    let mut pacer = Pacer::new(0, 0);
    while !w.pm.quitting() {
        w.loop_once(0.0);
        // Rate 0 is uncapped: never a wait.
        assert_eq!(pacer.step(0, 0, 0), Pace::Run);
    }
    assert_eq!(*ticks.borrow(), 3);
}

#[test]
fn task_stats_record_timings() {
    let mut w = World::new();
    w.task_add("busy", 1.0, 0.0, Box::new(|_| Ok(())));
    w.loop_once(DT);
    w.loop_once(DT);
    let stats = w.pm.task_stats();
    assert_eq!(stats[0].name, "busy");
    assert_eq!(stats[0].stat.calls, 2);
    assert!(stats[0].stat.ns_total >= stats[0].stat.ns_max);
    assert_eq!(stats[0].stat.ns_total, 2000);
    w.pm.task_stats_reset();
    assert!(w.pm.task_stats().is_empty());
}

#[test]
fn stats_are_heaviest_first() {
    let mut pm: Pm<Pool<u32>> = Pm::new();
    pm.stat_record("light", 5);
    pm.stat_record("heavy", 500);
    pm.stat_record("light", 7);
    let stats = pm.task_stats();
    assert_eq!(stats[0].name, "heavy");
    assert_eq!(stats[1].stat.ns_total, 12);
    assert_eq!(stats[1].stat.ns_max, 7);
}

#[test]
fn loop_rate_is_accurate_on_average() {
    // Every sleep overshoots by half a millisecond; absolute deadlines keep
    // the average exact.
    let period: u64 = 1_000_000_000 / 240;
    let mut pacer = Pacer::new(0, 0);
    let mut now: u64 = 0;
    for _ in 0..120 {
        now += 100_000; // the tick itself
        match pacer.step(now, 240, period) {
            Pace::Sleep { requested } => {
                now += requested + 500_000;
                pacer.slept(requested, requested + 500_000, 0);
            }
            Pace::Spin => now = pacer.deadline,
            Pace::Run => {}
        }
    }
    let elapsed = now as f64 / 1e9;
    assert!((0.46..0.56).contains(&elapsed), "120 ticks at 240Hz took {elapsed:.3}s");
    assert_eq!(pacer.deadline, 120 * period);
}

#[test]
fn pacing_resyncs_after_a_stall_and_learns_oversleep() {
    let mut pacer = Pacer::new(0, 2000);
    assert_eq!(pacer.margin, 2_000_000);
    assert_eq!(pacer.step(500_000, 100, 10_000_000), Pace::Sleep { requested: 7_500_000 });
    pacer.slept(7_500_000, 7_600_000, 2000);
    assert_eq!(pacer.margin, 1_980_000, "decays by 20 us toward the overshoot");
    assert_eq!(pacer.step(19_000_000, 100, 10_000_000), Pace::Spin);
    // 4 periods late and more: the deadline is given up on.
    assert_eq!(pacer.step(90_000_000, 100, 10_000_000), Pace::Run);
    assert_eq!(pacer.deadline, 90_000_000);
}

#[test]
fn faulting_task_is_benched_and_the_loop_survives() {
    let mut w = World::new();
    let counts = Rc::new(RefCell::new((0u32, 0u32)));
    let c = counts.clone();
    w.task_add(
        "flaky",
        10.0,
        0.0,
        Box::new(move |_| {
            c.borrow_mut().0 += 1;
            Err("disk on fire".to_string())
        }),
    );
    let c = counts.clone();
    w.task_add(
        "steady",
        20.0,
        0.0,
        Box::new(move |_| {
            c.borrow_mut().1 += 1;
            Ok(())
        }),
    );

    for _ in 0..3 {
        w.loop_once(DT);
    }
    // Flaky ran once, got benched; steady never noticed.
    assert_eq!(*counts.borrow(), (1, 3));
    assert_eq!(w.pm.task_faults().len(), 1);
    let fault = &w.pm.task_faults()[0];
    assert_eq!(fault.task, "flaky");
    assert_eq!(fault.error, "disk on fire");
    assert_eq!(fault.tick, 2);
    w.pm.task_faults_clear();
    assert!(w.pm.task_faults().is_empty());
}

#[test]
fn tasks_can_use_question_mark() {
    let mut w = World::new();
    w.task_add(
        "parse",
        10.0,
        0.0,
        Box::new(|_| {
            let n: i32 = "not a number".parse().map_err(|e: std::num::ParseIntError| e.to_string())?;
            let _ = n;
            Ok(())
        }),
    );
    w.loop_once(DT);
    assert_eq!(w.pm.task_faults().len(), 1);
    assert!(w.pm.task_faults()[0].error.contains("invalid digit"));
}

#[test]
fn task_add_or_replace_swaps_a_task_in_place() {
    let mut w = World::new();
    let log = Rc::new(RefCell::new(Vec::new()));
    let say = |what: &'static str| -> Body {
        let log = log.clone();
        Box::new(move |_| {
            log.borrow_mut().push(what);
            Ok(())
        })
    };
    w.task_add("worker", 10.0, 0.0, say("v1"));
    w.loop_once(DT); // v1

    // Replace between ticks: the new body takes over, no duplicate.
    w.task_add_or_replace("worker", 10.0, 0.0, say("v2"));
    w.loop_once(DT);
    w.loop_once(DT);
    assert_eq!(*log.borrow(), vec!["v1", "v2", "v2"]);
}

#[test]
fn task_add_or_replace_drops_the_old_body_mid_tick() {
    // The hot-reload shape: a lower-priority "reloader" replaces a task
    // that is *also scheduled this tick*. The old body must not survive
    // alongside the new one — they share a name, so the merge keeps the
    // most recent and drops the in-flight copy.
    let mut w = World::new();
    let log = Rc::new(RefCell::new(Vec::new()));
    let l = log.clone();
    w.task_add(
        "worker",
        10.0,
        0.0,
        Box::new(move |_| {
            l.borrow_mut().push("v1");
            Ok(())
        }),
    );
    let l = log.clone();
    w.task_add(
        "reload",
        5.0,
        0.0,
        Box::new(move |w| {
            let l = l.clone();
            w.task_add_or_replace(
                "worker",
                10.0,
                0.0,
                Box::new(move |_| {
                    l.borrow_mut().push("v2");
                    Ok(())
                }),
            );
            w.pm.task_stop("reload");
            Ok(())
        }),
    );

    w.loop_once(DT); // reload swaps worker; v1 still runs this tick, then is dropped
    w.loop_once(DT);
    w.loop_once(DT);
    assert_eq!(*log.borrow(), vec!["v1", "v2", "v2"]);
}

#[test]
fn pool_remove_drops_the_pool() {
    let mut w = World::new();
    let pool = w.pool("p");
    let id = w.pm.id_add();
    w.at(pool).add(id, Val::Pos(Pos { x: 1.0, y: 0.0 }));
    w.pm.pool_remove("p");
    // A fresh fetch makes a new empty pool.
    let fresh = w.pool("p");
    assert_eq!(w.at(fresh).len(), 0);
}

#[test]
fn get_id_is_none_for_a_missing_entity() {
    let mut pm: Pm<Pool<Pos>> = Pm::new();
    let pos = PoolHandle::fetch(&mut pm, "pos");
    let ghost = pm.id_add(); // never added to the pool
    assert!(pos.get_id(&pm, ghost).is_none());
    assert!(pos.get_id_mut(&mut pm, ghost).is_none());

    let id = pm.id_add();
    pos.get_mut(&mut pm).add(id, Pos { x: 1.0, y: 1.0 });
    assert_eq!(*pos.get_id(&pm, id).unwrap(), Pos { x: 1.0, y: 1.0 });
}

#[test]
fn access_errors_say_what_is_missing() {
    let mut pm: Pm<Pool<Pos>> = Pm::new();
    let pos = PoolHandle::fetch(&mut pm, "pos");
    let ghost = Id(7);
    match pos.try_get(&pm, ghost) {
        Err(e) => assert_eq!(e.text(), "entity Id(7) not in pool 'pos'"),
        Ok(_) => panic!("never added"),
    }
    let busy = AccessError::Busy { pool: "pos".to_string() };
    assert_eq!(busy.text(), "pool 'pos' is busy (borrowed elsewhere)");
    let id = pm.id_add();
    pos.get_mut(&mut pm).add(id, Pos { x: 2.0, y: 0.0 });
    assert!(matches!(pos.try_get(&pm, id), Ok(p) if p.x == 2.0));
    assert!(matches!(pos.try_borrow(&pm), Ok(p) if p.len() == 1 && p.contains(id)));
    let other = pm.id_add();
    match pos.try_borrow_mut(&mut pm) {
        Ok(pool) => pool.add(other, Pos { x: 5.0, y: 0.0 }),
        Err(e) => panic!("{}", e.text()),
    }
    assert_eq!(pos.get_id(&pm, other), Some(&Pos { x: 5.0, y: 0.0 }));
    match pos.try_mut(&mut pm, ghost) {
        Err(e) => assert_eq!(e.text(), "entity Id(7) not in pool 'pos'"),
        Ok(_) => panic!("never added"),
    }
    turn(&mut pm);
    let before = pos.get(&pm).changed_tick(id).unwrap();
    match pos.try_mut(&mut pm, id) {
        Ok(p) => p.y = 3.0,
        Err(e) => panic!("{}", e.text()),
    }
    assert_eq!(*pos.get_id(&pm, id).unwrap(), Pos { x: 2.0, y: 3.0 });
    assert_eq!(pos.get(&pm).changed_tick(id).unwrap(), before + 1);
}

#[test]
fn a_guard_only_read_stamps_nothing() {
    let mut pm: Pm<Pool<u32>> = Pm::new();
    let hits = SingleHandle::fetch(&mut pm, "hits", 4);
    let id = hits.id();
    turn(&mut pm);
    turn(&mut pm);
    let before = hits.pool().get(&pm).changed_tick(id).unwrap();
    assert_eq!(*hits.get_mut(&mut pm).get(), 4);
    drop(hits.get_mut(&mut pm));
    assert_eq!(*hits.pool().get_id_mut(&mut pm, id).unwrap().get(), 4);
    assert_eq!(hits.pool().get(&pm).changed_tick(id).unwrap(), before);
    let mut guard = hits.get_mut(&mut pm);
    if *guard.get() == 4 {
        *guard.get_mut() = 5;
    }
    assert_eq!(*guard.get(), 5);
    assert_eq!(*hits.get(&pm), 5);
    assert!(matches!(hits.try_get(&pm), Ok(5)));
    if let Ok(v) = hits.try_mut(&mut pm) {
        *v = 6;
    }
    assert_eq!(*hits.get(&pm), 6);
    assert_eq!(hits.pool().get(&pm).changed_tick(id).unwrap(), before + 2);
}

#[test]
fn stopped_tasks_leave_the_list() {
    let mut pm: Pm<Pool<Pos>> = Pm::new();
    let first = pm.task_add("first", 1.0f32.to_bits());
    let second = pm.task_add("second", 2.0f32.to_bits());
    let held = |pm: &Pm<Pool<Pos>>| pm.tasks().iter().map(|t| t.token).collect::<Vec<u64>>();
    assert_eq!(held(&pm), vec![first, second]);
    pm.task_stop("first");
    assert_eq!(held(&pm), vec![second]);
    pm.tick_begin();
    let running = pm.tick_tasks();
    assert!(pm.tasks().is_empty());
    pm.task_stop("second");
    pm.tick_end(running);
    assert!(pm.tasks().is_empty());
}

fn turn<T>(pm: &mut Pm<Pool<T>>) {
    pm.tick_begin();
    let running = pm.tick_tasks();
    pm.tick_end(running);
}

#[test]
fn get_id_mut_stamps_the_changed_tick() {
    let mut pm: Pm<Pool<Pos>> = Pm::new();
    let pos = PoolHandle::fetch(&mut pm, "pos");
    let id = pm.id_add();
    pos.get_mut(&mut pm).add(id, Pos::default());
    turn(&mut pm);
    turn(&mut pm);

    let before = pos.get(&pm).changed_tick(id).unwrap();
    pos.get_id_mut(&mut pm, id).unwrap().get_mut().x = 5.0;
    let after = pos.get(&pm).changed_tick(id).unwrap();
    assert!(after > before, "get_id_mut must stamp for the sync layer");
}

#[test]
fn a_singleton_survives_id_remove_of_its_entity() {
    let mut pm: Pm<Pool<u32>> = Pm::new();
    let hits = SingleHandle::fetch(&mut pm, "hits", 0);
    *hits.get_mut(&mut pm).get_mut() = 9;
    // Even if the singleton's id is fed to the removal flush, the pool
    // lock keeps its entity (and the value) intact.
    pm.id_remove(hits.id());
    turn(&mut pm);
    assert_eq!(*hits.get(&pm), 9);
    assert_eq!(PoolHandle::fetch(&mut pm, "hits").get(&pm).len(), 1);
}

#[test]
fn a_module_owns_what_it_registers() {
    let mut w = World::new();
    let log = Rc::new(RefCell::new(0));
    let previous = w.pm.module_open("camera");
    let rigs = w.pool("cam.rig");
    let l = log.clone();
    w.task_add(
        "camera",
        35.0,
        0.0,
        Box::new(move |_| {
            *l.borrow_mut() += 1;
            Ok(())
        }),
    );
    w.pm.module_close("camera", previous, false);
    let id = w.pm.id_add();
    w.at(rigs).add(id, Val::Pos(Pos::default()));
    w.loop_once(DT);
    assert_eq!(*log.borrow(), 1);
    w.pm.module_remove("camera");
    w.loop_once(DT);
    assert_eq!(*log.borrow(), 1, "its tasks are gone");
    let fresh = w.pool("cam.rig");
    assert_eq!(w.at(fresh).len(), 0, "its pools are gone");
}

#[test]
fn pool_stats_list_the_largest_first() {
    let mut w = World::new();
    let small = w.pool("small");
    let big = w.pool("big");
    w.pool("also_empty");
    for _ in 0..3 {
        let id = w.pm.id_add();
        w.at(big).add(id, Val::Num(1));
    }
    let id = w.pm.id_add();
    w.at(small).add(id, Val::Pos(Pos::default()));
    let rows: Vec<(String, usize)> =
        w.pm.pool_stats().into_iter().map(|s| (s.name, s.count)).collect();
    assert_eq!(
        rows,
        vec![("big".to_string(), 3), ("small".to_string(), 1), ("also_empty".to_string(), 0)]
    );
}

#[test]
fn phases_keep_their_order_and_additions_join_behind() {
    let mut pm: Pm<Pool<u32>> = Pm::new();
    pm.phase_present("apply", 1);
    pm.phase_present_front("recv", 2);
    let steps = pm.present_take();
    let tokens: Vec<u64> = steps.iter().map(|s| s.token).collect();
    assert_eq!(tokens, vec![2, 1]);
    pm.phase_present("late", 3); // registered while the phase runs
    pm.present_put(steps);
    let tokens: Vec<u64> = pm.present_take().iter().map(|s| s.token).collect();
    assert_eq!(tokens, vec![2, 1, 3]);
    pm.phase_commit("send", 4);
    pm.phase_commit_front("journal", 5);
    let tokens: Vec<u64> = pm.commit_take().iter().map(|s| s.token).collect();
    assert_eq!(tokens, vec![5, 4]);
}

#[test]
fn held_removals_wait_for_release() {
    let mut pm: Pm<Pool<u32>> = Pm::new();
    pm.removal_hold_set(true);
    let a = pm.id_add();
    pm.id_remove(a);
    turn(&mut pm);
    assert!(!pm.id_alive(a));
    assert_eq!(pm.removal_log(), &[(a, 2)]);
    let b = pm.id_add();
    assert_ne!(a.index(), b.index());
    pm.removal_release_upto(2);
    assert!(pm.removal_log().is_empty());
    let c = pm.id_add();
    assert_eq!(c.index(), a.index());
}
