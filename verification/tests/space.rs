//! Boxes, the broadphase tree, the grid and the cameras.

use pm::aabb::{Aabb, Point};
use pm::bvh::{DynamicTree, Price, WHOLE};
use pm::camera::{camera_step, CamAnchor, CamManager, CamRig, CamView};
use pm::id::Id;
use pm::kernel::Pm;
use pm::pool::Pool;
use pm::spatial::{SpatialGrid, Spot};
use pm::util::Rng;

#[derive(Clone, Copy, PartialEq, Debug)]
struct V(f32, f32, f32);

fn point(v: V) -> Point {
    Point { x: v.0.to_bits(), y: v.1.to_bits(), z: v.2.to_bits() }
}

fn vec(p: Point) -> V {
    V(f32::from_bits(p.x), f32::from_bits(p.y), f32::from_bits(p.z))
}

fn sub(a: V, b: V) -> V {
    V(a.0 - b.0, a.1 - b.1, a.2 - b.2)
}

fn add(a: V, b: V) -> V {
    V(a.0 + b.0, a.1 + b.1, a.2 + b.2)
}

fn around(c: V, half: V) -> Aabb {
    Aabb::new(point(sub(c, half)), point(add(c, half)))
}

fn cube(c: V, half: f32) -> Aabb {
    around(c, V(half, half, half))
}

fn expand(b: Aabb, r: f32) -> Aabb {
    let e = V(r, r, r);
    Aabb::new(point(sub(vec(b.min), e)), point(add(vec(b.max), e)))
}

fn area(b: &Aabb) -> f32 {
    let w = sub(vec(b.max), vec(b.min));
    2.0 * (w.0 * w.1 + w.1 * w.2 + w.2 * w.0)
}

fn center(b: &Aabb) -> V {
    let s = add(vec(b.min), vec(b.max));
    V(s.0 * 0.5, s.1 * 0.5, s.2 * 0.5)
}

fn price(node: &Aabb, leaf: &Aabb) -> Price {
    let direct = area(&node.union(*leaf));
    let base = area(node);
    let d = sub(center(node), center(leaf));
    Price {
        direct: direct.to_bits(),
        growth: (direct - base).to_bits(),
        slack: (area(leaf) - base).min(0.0).to_bits(),
        gap: (d.0 * d.0 + d.1 * d.1 + d.2 * d.2).to_bits(),
    }
}

fn plus(a: u32, b: u32) -> u32 {
    (f32::from_bits(a) + f32::from_bits(b)).to_bits()
}

/// A tree that fattens what it is given.
struct Fat {
    tree: DynamicTree,
    margin: f32,
}

impl Fat {
    fn new(margin: f32) -> Fat {
        Fat { tree: DynamicTree::new(), margin }
    }

    fn insert(&mut self, b: Aabb, bits: u64, id: Id) -> u32 {
        self.tree.insert(expand(b, self.margin), bits, id, &price, &plus)
    }

    fn update(&mut self, proxy: u32, b: Aabb) -> bool {
        self.tree.update(proxy, b, expand(b, self.margin), &price, &plus)
    }
}

fn id(i: u32) -> Id {
    Id::new(0, 0, i)
}

#[test]
fn insert_query_remove() {
    let mut t = Fat::new(0.5);
    let a = t.insert(cube(V(0.0, 0.0, 0.0), 1.0), 1, id(1));
    let _b = t.insert(cube(V(100.0, 0.0, 0.0), 1.0), 1, id(2));
    assert!(t.tree.validate());

    let hits = t.tree.query(cube(V(0.0, 0.0, 0.0), 5.0), u64::MAX);
    assert_eq!(hits, vec![id(1)]);

    t.tree.remove(a);
    assert!(t.tree.validate());
    let hits = t.tree.query(cube(V(0.0, 0.0, 0.0), 5.0), u64::MAX);
    assert!(hits.is_empty());
    assert_eq!(t.tree.len(), 1);
}

#[test]
fn mask_prunes_but_bits_stay_reachable() {
    // Mixed-bit subtrees must still yield the matching leaf: internal
    // bits are ORs, never filters of their own.
    let mut t = Fat::new(0.5);
    for i in 0..64u32 {
        let bits = 1u64 << (i % 4);
        t.insert(cube(V(i as f32, 0.0, 0.0), 0.4), bits, id(i));
    }
    assert!(t.tree.validate());
    let mut hits = t.tree.query(cube(V(32.0, 0.0, 0.0), 100.0), 1 << 2);
    hits.sort_by_key(|i| i.0);
    let want: Vec<Id> = (0..64).filter(|i| i % 4 == 2).map(id).collect();
    assert_eq!(hits, want);
}

#[test]
fn update_is_lazy_within_margin() {
    let mut t = Fat::new(1.0);
    let p = t.insert(cube(V(0.0, 0.0, 0.0), 1.0), 1, id(1));
    assert!(!t.update(p, cube(V(0.5, 0.0, 0.0), 1.0)), "inside margin");
    assert!(t.update(p, cube(V(3.0, 0.0, 0.0), 1.0)), "past margin");
    assert!(t.tree.validate());
    let hits = t.tree.query(cube(V(3.0, 0.0, 0.0), 0.5), u64::MAX);
    assert_eq!(hits.len(), 1);
    assert_eq!(t.tree.id(p), id(1));
    assert_eq!(t.tree.fat(p), cube(V(3.0, 0.0, 0.0), 2.0));
}

#[test]
fn sorted_line_insert_stays_balanced() {
    // Worst case for an unbalanced tree: monotone insertion order.
    let mut t = Fat::new(0.1);
    for i in 0..1024u32 {
        t.insert(cube(V(i as f32 * 2.0, 0.0, 0.0), 0.5), 1, id(i));
    }
    assert!(t.tree.validate());
    assert!(t.tree.height() <= 22, "height {} for 1024 leaves", t.tree.height());
}

/// The slab test of a swept segment against a box grown by `r`.
fn hit_by(b: &Aabb, p1: V, p2: V, r: f32, max_t: f32) -> bool {
    let b = expand(*b, r);
    let d = sub(p2, p1);
    let (lo, hi) = (vec(b.min), vec(b.max));
    let (mut t0, mut t1) = (0.0f32, max_t);
    for (p, dir, min, max) in
        [(p1.0, d.0, lo.0, hi.0), (p1.1, d.1, lo.1, hi.1), (p1.2, d.2, lo.2, hi.2)]
    {
        if dir.abs() < 1e-8 {
            if p < min || p > max {
                return false;
            }
        } else {
            let inv = 1.0 / dir;
            let (a, b) = ((min - p) * inv, (max - p) * inv);
            let (near, far) = if a < b { (a, b) } else { (b, a) };
            t0 = t0.max(near);
            t1 = t1.min(far);
            if t0 > t1 {
                return false;
            }
        }
    }
    true
}

fn cast(t: &Fat, p1: V, p2: V, radius: f32, f: &mut dyn FnMut(Id) -> f32) {
    let crosses = |b: &Aabb, reach: u32| hit_by(b, p1, p2, radius, f32::from_bits(reach));
    let mut sweep = t.tree.cast(u64::MAX);
    while let Some(id) = sweep.next(&crosses) {
        sweep.clip(f(id).to_bits());
    }
}

#[test]
fn cast_finds_first_hit_and_clips() {
    let mut t = Fat::new(0.1);
    for i in 1..=5u32 {
        t.insert(cube(V(i as f32 * 10.0, 0.0, 0.0), 1.0), 1, id(i));
    }
    // Sweep down the row; report each candidate, clip at its center.
    let mut seen = Vec::new();
    cast(&t, V(0.0, 0.0, 0.0), V(100.0, 0.0, 0.0), 0.0, &mut |i| {
        seen.push(i);
        i.index() as f32 * 10.0 / 100.0
    });
    // Box order isn't sorted along the ray, but after all callbacks
    // the clip must have excluded boxes past the nearest hit.
    assert!(seen.contains(&id(1)));
    let nearest = seen.iter().map(|i| i.index()).min().unwrap();
    assert_eq!(nearest, 1);
    // A miss (parallel offset ray) reports nothing.
    let mut n = 0;
    cast(&t, V(0.0, 50.0, 0.0), V(100.0, 50.0, 0.0), 0.0, &mut |_| {
        n += 1;
        1.0
    });
    assert_eq!(n, 0);
    // Radius turns the miss back into hits (sweep passes within 50).
    let mut n = 0;
    cast(&t, V(0.0, 50.0, 0.0), V(100.0, 50.0, 0.0), 49.5, &mut |_| {
        n += 1;
        1.0
    });
    assert!(n == 5, "fat sweep sees the whole row, got {n}");
    // Zero stops after the first candidate.
    let mut n = 0;
    cast(&t, V(0.0, 0.0, 0.0), V(100.0, 0.0, 0.0), 0.0, &mut |_| {
        n += 1;
        0.0
    });
    assert_eq!(n, 1);
    assert_eq!(f32::from_bits(WHOLE), 1.0);
}

fn unit(rng: &mut Rng) -> f32 {
    (rng.next_u32() & 0xFF_FFFF) as f32 / 0x100_0000 as f32
}

fn rfr(rng: &mut Rng, lo: f32, hi: f32) -> f32 {
    lo + unit(rng) * (hi - lo)
}

/// Brute-force reference for the fuzz test.
fn scan(entries: &[(Id, Aabb, u64)], q: Aabb, mask: u64) -> Vec<Id> {
    let mut v: Vec<Id> = entries
        .iter()
        .filter(|(_, a, b)| b & mask != 0 && a.overlaps(q))
        .map(|(i, _, _)| *i)
        .collect();
    v.sort_by_key(|i| i.0);
    v
}

#[test]
fn fuzz_against_linear_scan() {
    let mut rng = Rng::new(0xB3);
    let mut t = Fat::new(0.5);
    let mut entries: Vec<(Id, Aabb, u64, u32)> = Vec::new(); // (.., proxy)
    let mut next = 0u32;
    let spot = |rng: &mut Rng| {
        V(rfr(rng, -100.0, 100.0), rfr(rng, -20.0, 20.0), rfr(rng, -100.0, 100.0))
    };
    for round in 0..2000 {
        let op = rng.next_u32() % 10;
        if op < 4 || entries.is_empty() {
            let c = spot(&mut rng);
            let a = cube(c, rfr(&mut rng, 0.2, 8.0));
            let bits = 1u64 << (rng.next_u32() % 3);
            next += 1;
            let p = t.insert(a, bits, id(next));
            entries.push((id(next), a, bits, p));
        } else if op < 6 {
            let k = rng.next_u32() as usize % entries.len();
            let (i, _, bits, p) = entries[k];
            let c = spot(&mut rng);
            let a = cube(c, rfr(&mut rng, 0.2, 8.0));
            t.update(p, a);
            entries[k] = (i, a, bits, p);
        } else if op < 7 {
            let k = rng.next_u32() as usize % entries.len();
            t.tree.remove(entries[k].3);
            entries.swap_remove(k);
        } else {
            let c = spot(&mut rng);
            let q = cube(c, rfr(&mut rng, 1.0, 40.0));
            let mask = 1u64 << (rng.next_u32() % 3);
            let got = t.tree.query(q, mask);
            let flat: Vec<(Id, Aabb, u64)> =
                entries.iter().map(|&(i, a, b, _)| (i, a, b)).collect();
            // The tree stores FAT boxes, so it may report a few extra
            // near-misses (broadphase is allowed false positives, never
            // false negatives).
            for want in scan(&flat, q, mask) {
                assert!(got.contains(&want), "round {round}: missing {want:?}");
            }
            // A re-inserted entry's fat box may be from an earlier place, so
            // the exact set is checked against what the tree stores.
            let mut exact: Vec<Id> = entries
                .iter()
                .filter(|e| e.2 & mask != 0 && t.tree.fat(e.3).overlaps(q))
                .map(|e| e.0)
                .collect();
            exact.sort_by_key(|i| i.0);
            let mut sorted = got.clone();
            sorted.sort_by_key(|i| i.0);
            assert_eq!(sorted, exact, "round {round}");
            for have in &got {
                let (_, a, b, _) = entries.iter().find(|e| e.0 == *have).unwrap();
                assert!(
                    b & mask != 0 && expand(*a, 0.5).overlaps(q),
                    "round {round}: {have:?} beyond fat bounds"
                );
            }
        }
        if round % 250 == 0 {
            assert!(t.tree.validate());
        }
    }
    assert!(t.tree.validate());
    assert_eq!(t.tree.len(), entries.len());
}

#[test]
fn a_walk_visits_every_node_once() {
    let mut t = Fat::new(0.1);
    assert!(t.tree.walk().is_empty());
    assert!(t.tree.is_empty());
    for i in 0..33u32 {
        t.insert(cube(V(i as f32 * 3.0, 0.0, 0.0), 1.0), 1, id(i));
    }
    let boxes = t.tree.walk();
    assert_eq!(boxes.len(), 2 * 33 - 1);
    assert_eq!(boxes.iter().filter(|(_, leaf)| *leaf).count(), 33);
    // The first box visited is the root's, which holds everyone's.
    assert!(boxes.iter().all(|(b, _)| boxes[0].0.contains(*b)));
}

#[test]
fn freed_proxies_are_reused_newest_first() {
    let mut t = Fat::new(0.1);
    let a = t.insert(cube(V(0.0, 0.0, 0.0), 1.0), 1, id(1));
    assert_eq!(a, 0);
    t.tree.remove(a);
    assert!(t.tree.has_room());
    let b = t.insert(cube(V(5.0, 0.0, 0.0), 1.0), 1, id(2));
    assert_eq!(a, b);
    assert_eq!(t.tree.height(), 0);
    // The second leaf takes 1 and its parent 2; a leave frees the parent
    // first, so the entry's own index heads the list.
    let c = t.insert(cube(V(9.0, 0.0, 0.0), 1.0), 1, id(3));
    assert_eq!((c, t.tree.height()), (1, 1));
    t.tree.remove(b);
    assert_eq!(t.tree.height(), 0);
    let d = t.insert(cube(V(1.0, 0.0, 0.0), 1.0), 1, id(4));
    assert_eq!((d, t.tree.height()), (b, 1));
    assert_eq!(t.insert(cube(V(3.0, 0.0, 0.0), 1.0), 1, id(5)), 3);
}

#[test]
fn a_box_with_a_nan_is_never_reported_and_fails_validation() {
    let mut t = Fat::new(0.0);
    t.insert(cube(V(0.0, 0.0, 0.0), 1.0), 1, id(1));
    let nan = Aabb::new(point(V(f32::NAN, 0.0, 0.0)), point(V(1.0, 1.0, 1.0)));
    t.tree.insert(nan, 1, id(2), &price, &plus);
    assert_eq!(t.tree.query(cube(V(0.0, 0.0, 0.0), 5.0), 1), vec![id(1)]);
    assert!(!t.tree.validate());
}

#[test]
fn boxes_join_overlap_and_contain() {
    let a = cube(V(0.0, 0.0, 0.0), 1.0);
    let b = cube(V(3.0, 0.0, 0.0), 1.0);
    assert!(!a.overlaps(b));
    let u = a.union(b);
    assert_eq!(vec(u.min), V(-1.0, -1.0, -1.0));
    assert_eq!(vec(u.max), V(4.0, 1.0, 1.0));
    assert!(u.contains(a) && u.contains(b) && !a.contains(u));
    assert!(a.overlaps(cube(V(2.0, 0.0, 0.0), 1.0)), "touching counts");
    assert_eq!(Aabb::default(), cube(V(0.0, 0.0, 0.0), 0.0));
}

// --- the grid ---------------------------------------------------------------

struct Grid {
    grid: SpatialGrid,
    cell: f32,
}

impl Grid {
    fn new(w: f32, h: f32, cell: f32) -> Grid {
        let cols = (w / cell).ceil().max(1.0) as i32;
        let rows = (h / cell).ceil().max(1.0) as i32;
        Grid { grid: SpatialGrid::new(cols, rows), cell }
    }

    fn insert(&mut self, id: Id, x: f32, y: f32) {
        let spot = Spot { x: x.to_bits(), y: y.to_bits() };
        self.grid.insert(id, spot, (x / self.cell) as i32, (y / self.cell) as i32);
    }

    fn query(&self, x: f32, y: f32, radius: f32) -> Vec<Id> {
        let at = |v: f32| (v / self.cell) as i32;
        let near = |p: Spot| {
            let (dx, dy) = (f32::from_bits(p.x) - x, f32::from_bits(p.y) - y);
            dx * dx + dy * dy <= radius * radius
        };
        self.grid
            .query(at(x - radius), at(x + radius), at(y - radius), at(y + radius), &near)
            .iter()
            .map(|p| p.id)
            .collect()
    }
}

#[test]
fn finds_only_entities_in_radius() {
    let mut grid = Grid::new(900.0, 700.0, 64.0);
    let (a, b, c) = (id(1), id(2), id(3));
    grid.insert(a, 100.0, 100.0);
    grid.insert(b, 130.0, 100.0); // 30 away
    grid.insert(c, 300.0, 300.0); // far
    let mut hits = grid.query(100.0, 100.0, 50.0);
    hits.sort_by_key(|id| id.index());
    assert_eq!(hits, vec![a, b]);
}

#[test]
fn clamps_out_of_bounds_and_reuses_capacity() {
    // The cell is clamped to the grid edge, but the stored position
    // stays exact — distance filtering still applies to the real pos.
    let mut grid = Grid::new(100.0, 100.0, 32.0);
    grid.insert(id(1), -50.0, 5000.0);
    assert_eq!(grid.query(0.0, 100.0, 200.0).len(), 0, "real position is far outside the radius");
    assert_eq!(grid.query(0.0, 100.0, 5000.0).len(), 1);
    grid.grid.clear();
    assert_eq!(grid.query(0.0, 100.0, 5000.0).len(), 0);
}

#[test]
fn an_empty_range_finds_nothing() {
    let mut grid = SpatialGrid::new(4, 4);
    let spot = Spot { x: 0, y: 0 };
    grid.insert(id(1), spot, 2, 2);
    let all = |_: Spot| true;
    assert_eq!(grid.query(3, 1, 0, 3, &all).len(), 0);
    assert_eq!(grid.query(2, 2, 2, 2, &all).len(), 1);
    assert_eq!(grid.query(-9, 99, -9, 99, &all).len(), 1);
    assert_eq!(grid.query(0, 1, 0, 3, &all).len(), 0);
}

// --- cameras ----------------------------------------------------------------

fn scale(a: V, k: f32) -> V {
    V(a.0 * k, a.1 * k, a.2 * k)
}

/// Carry a mount offset out of an anchor's frame (right, up, forward).
fn mount(a: &CamAnchor, o: Point) -> Point {
    let (pos, fwd, o) = (vec(a.pos), vec(a.fwd), vec(o));
    // Up cross forward, for a forward on the ground plane.
    let right = V(fwd.2, 0.0, -fwd.0);
    point(add(add(add(pos, scale(right, o.0)), V(0.0, o.1, 0.0)), scale(fwd, o.2)))
}

const DT: f32 = 1.0 / 60.0;

/// Frame-rate independent spring.
fn spring(stiffness: u32, from: Point, to: Point) -> Point {
    let k = 1.0 - (-f32::from_bits(stiffness) * DT).exp();
    point(add(vec(from), scale(sub(vec(to), vec(from)), k)))
}

fn distance(a: V, b: V) -> f32 {
    let d = sub(a, b);
    (d.0 * d.0 + d.1 * d.1 + d.2 * d.2).sqrt()
}

struct Rack {
    rigs: Pool<CamRig>,
    anchors: Pool<CamAnchor>,
    mgr: CamManager,
    view: CamView,
    car: Id,
    next: u32,
}

fn rack() -> Rack {
    let car = id(0);
    let mut anchors = Pool::new();
    anchors.add(
        car,
        CamAnchor { pos: point(V(10.0, 0.0, 5.0)), fwd: point(V(0.0, 0.0, 1.0)) },
    );
    let mut mgr = CamManager::default();
    assert!(mgr.install(), "the first touch installs");
    assert!(!mgr.install(), "the latch holds");
    Rack { rigs: Pool::new(), anchors, mgr, view: CamView::default(), car, next: 1 }
}

impl Rack {
    fn mount(&mut self, rig: CamRig) -> Id {
        let cam = id(self.next);
        self.next += 1;
        self.mgr.mount(&mut self.rigs, cam, self.car, rig);
        cam
    }

    fn tick(&mut self) {
        camera_step(&mut self.rigs, &self.anchors, &mut self.view, &mount, &spring);
    }
}

#[test]
fn chase_converges_on_a_static_anchor() {
    let mut r = rack();
    let cam = r.mount(CamRig::chase());
    r.mgr.show(&mut r.view, cam);
    assert_eq!(r.mgr.active(&r.view), Some(cam));
    assert!(!r.view.ready());
    for _ in 0..240 {
        r.tick();
    }
    assert!(r.view.ready());
    let (eye, target) = (vec(r.view.eye), vec(r.view.target));
    // Eye should settle at anchor - fwd*9 + up*3.6: (10, 3.6, -4).
    assert!(distance(eye, V(10.0, 3.6, -4.0)) < 0.05, "eye = {eye:?}");
    assert!(distance(target, V(10.0, 1.0, 9.0)) < 0.05, "target = {target:?}");
    assert!((f32::from_bits(r.view.fov_deg) - 100.0).abs() < 1e-6);
}

#[test]
fn rigid_mounts_weld_and_switching_swaps_fov() {
    let mut r = rack();
    r.mount(CamRig::chase());
    let rear = r.mount(CamRig::rear());
    r.mgr.show(&mut r.view, rear);

    // Rigid (stiffness 0): exact after a single tick, no settling.
    r.tick();
    assert_eq!(r.view.active, Some(rear));
    let (eye, target) = (vec(r.view.eye), vec(r.view.target));
    // fwd = +z, right = UP×fwd = +x; rear eye (0, 1.5, -1.9).
    assert!(distance(eye, V(10.0, 1.5, 3.1)) < 1e-4, "eye = {eye:?}");
    assert!(distance(target, V(10.0, 0.4, -7.0)) < 1e-4, "target = {target:?}");
    assert!((f32::from_bits(r.view.fov_deg) - 120.0).abs() < 1e-6);
}

#[test]
fn show_index_follows_mount_order() {
    let mut r = rack();
    let chase = r.mount(CamRig::chase());
    r.mount(CamRig::rear());
    let side = r.mount(CamRig::side());
    r.mgr.show_index(&mut r.view, 0);
    assert_eq!(r.mgr.active(&r.view), Some(chase));
    r.mgr.show_index(&mut r.view, 2);
    assert_eq!(r.mgr.active(&r.view), Some(side));
    r.mgr.show_index(&mut r.view, 9); // out of range: no-op
    assert_eq!(r.mgr.active(&r.view), Some(side));
    assert_eq!(r.mgr.cams().len(), 3);
}

#[test]
fn toggle_panini_flips_the_view_flag() {
    let mut r = rack();
    assert!(r.view.panini); // house default
    r.mgr.toggle_panini(&mut r.view);
    assert!(!r.view.panini);
    r.mgr.toggle_panini(&mut r.view);
    assert!(r.view.panini);
}

#[test]
fn a_sprung_rig_is_placed_first_and_moves_after() {
    let mut r = rack();
    let cam = r.mount(CamRig::chase());
    r.mgr.show(&mut r.view, cam);
    r.tick();
    let placed = vec(r.view.eye);
    assert_eq!(placed, V(10.0, 3.6, -4.0), "the first tick puts it at its mount");
    r.anchors.add(
        r.car,
        CamAnchor { pos: point(V(20.0, 0.0, 5.0)), fwd: point(V(0.0, 0.0, 1.0)) },
    );
    r.tick();
    let moved = vec(r.view.eye);
    assert!(moved.0 > 10.0 && moved.0 < 20.0, "then it follows: {moved:?}");
    // Without its anchor a rig stays where it is.
    r.anchors.remove(r.car);
    r.tick();
    assert_eq!(vec(r.view.eye), moved);
}

#[test]
fn rig_presets_are_the_stated_numbers() {
    let c = CamRig::chase();
    assert_eq!(vec(c.eye), V(0.0, 3.6, -9.0));
    assert_eq!(vec(c.look), V(0.0, 1.0, 4.0));
    assert_eq!((f32::from_bits(c.fov_deg), f32::from_bits(c.stiffness)), (100.0, 6.0));
    let r = CamRig::rear();
    assert_eq!(vec(r.eye), V(0.0, 1.5, -1.9));
    assert_eq!(vec(r.look), V(0.0, 0.4, -12.0));
    assert_eq!((f32::from_bits(r.fov_deg), f32::from_bits(r.stiffness)), (120.0, 0.0));
    let s = CamRig::side();
    assert_eq!(vec(s.eye), V(1.7, 0.7, 0.4));
    assert_eq!(vec(s.look), V(1.7, 0.6, 14.0));
    assert_eq!((f32::from_bits(s.fov_deg), f32::from_bits(s.stiffness)), (85.0, 0.0));
    assert_eq!(CamRig::default(), c);
    assert_eq!(f32::from_bits(pm::camera::CAMERA_PRIO), 35.0);
}

// --- the camera as a module --------------------------------------------------

enum Part {
    Rig(CamRig),
    Anchor(CamAnchor),
    Manager,
}

type Stage = Pm<Pool<Part>>;

/// Track a static entity and mount one camera on it: installs the module on
/// the first touch. Gives the camera.
fn track_static(pm: &mut Stage, car: Id, rig: CamRig) -> (Id, bool) {
    let previous = pm.module_open("camera");
    let (at, id, fresh) = pm.single("cam.manager", Pool::new());
    if fresh {
        pm.pool_at_mut(at).add(id, Part::Manager);
        pm.pool_at_mut(at).lock();
        pm.task_add("camera", 0);
    }
    let anchors = pm.pool("cam.anchor", Pool::new());
    let rigs = pm.pool("cam.rig", Pool::new());
    pm.module_close("camera", previous, false);
    let still = CamAnchor { pos: point(V(10.0, 0.0, 5.0)), fwd: point(V(0.0, 0.0, 1.0)) };
    pm.pool_at_mut(anchors).add(car, Part::Anchor(still));
    let cam = pm.id_add();
    pm.pool_at_mut(rigs).add(cam, Part::Rig(CamRig { target: car, ..rig }));
    (cam, fresh)
}

fn count(pm: &mut Stage, name: &str) -> usize {
    let at = pm.pool(name, Pool::new());
    pm.pool_at(at).len()
}

fn loop_once(pm: &mut Stage) {
    pm.tick_begin();
    let running = pm.tick_tasks();
    pm.tick_end(running);
}

#[test]
fn module_remove_tears_the_camera_down() {
    let mut pm: Stage = Pm::new();
    let car = pm.id_add();
    let (_, installed) = track_static(&mut pm, car, CamRig::chase());
    assert!(installed);
    pm.module_remove("camera");
    loop_once(&mut pm);
    // Everything the module owned is gone, the manager's latch with it, so
    // the next track reinstalls a working module.
    assert_eq!(count(&mut pm, "cam.rig"), 0);
    assert_eq!(count(&mut pm, "cam.anchor"), 0);
    let (cam, installed) = track_static(&mut pm, car, CamRig::rear());
    assert!(installed);
    assert_eq!(count(&mut pm, "cam.rig"), 1);
    loop_once(&mut pm);

    let (rigs, anchors) = (pm.pool("cam.rig", Pool::new()), pm.pool("cam.anchor", Pool::new()));
    let mut rig_pool: Pool<CamRig> = Pool::new();
    if let Some(Part::Rig(r)) = pm.pool_at(rigs).get(cam) {
        rig_pool.add(cam, *r);
    }
    let mut anchor_pool: Pool<CamAnchor> = Pool::new();
    if let Some(Part::Anchor(a)) = pm.pool_at(anchors).get(car) {
        anchor_pool.add(car, *a);
    }
    let mut view = CamView::default();
    CamManager::default().show(&mut view, cam);
    camera_step(&mut rig_pool, &anchor_pool, &mut view, &mount, &spring);
    assert!(view.ready());
    assert_eq!(view.active, Some(cam));
}
