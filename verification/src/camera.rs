//! Cameras as entities attached to other entities.
//!
//! Each camera is its own entity carrying a [`CamRig`] whose `target` names
//! the entity it is mounted on. One car can carry a chase cam, a rear cam
//! and a side cam at once, each with its own mount offsets, field of view
//! and spring stiffness; switching the screen between them is one call.
//!
//! Per tick, in priority order: the anchor samplers write where the tracked
//! entities are, [`camera_step`] moves every rig toward its mount and
//! publishes the active one, rendering reads the [`CamView`]. Positions and
//! angles are `f32` bit patterns; the caller supplies the geometry.

use vstd::prelude::*;

use crate::aabb::Point;
use crate::id::Id;
use crate::order::{le_num, lt_num, num_le, num_lt};
use crate::pool::{Entry, Pool};

verus! {

/// Priority of the camera's spring task, the pattern of 35.
pub const CAMERA_PRIO: u32 = 0x420c_0000;

/// Where a tracked entity is right now.
#[derive(Clone, Copy, PartialEq, Eq, Debug, Structural)]
pub struct CamAnchor {
    pub pos: Point,
    /// Unit facing direction.
    pub fwd: Point,
}

/// A camera mounted on an entity. Mount offsets are in the anchor's frame.
#[derive(Clone, Copy, PartialEq, Eq, Debug, Structural)]
pub struct CamRig {
    /// The entity this camera is mounted on.
    pub target: Id,
    /// Eye offset from the anchor, in its frame.
    pub eye: Point,
    /// Look-at offset from the anchor, in its frame.
    pub look: Point,
    /// Horizontal field of view this camera wants.
    pub fov_deg: u32,
    /// Spring stiffness; zero is a rigid mount, welded to the entity.
    pub stiffness: u32,
    /// Where eye and look-at have come to.
    pub eye_w: Point,
    pub look_w: Point,
    /// Whether they have been placed once.
    pub seeded: bool,
}

/// The origin.
pub open spec fn origin() -> Point {
    Point { x: 0, y: 0, z: 0 }
}

/// A rig not yet mounted or placed.
pub open spec fn fresh_rig(eye: Point, look: Point, fov_deg: u32, stiffness: u32) -> CamRig {
    CamRig {
        target: Id(0),
        eye,
        look,
        fov_deg,
        stiffness,
        eye_w: origin(),
        look_w: origin(),
        seeded: false,
    }
}

impl CamRig {
    pub fn new(eye: Point, look: Point, fov_deg: u32, stiffness: u32) -> (r: Self)
        ensures
            r == fresh_rig(eye, look, fov_deg, stiffness),
    {
        let zero: Point = Point { x: 0, y: 0, z: 0 };
        CamRig {
            target: Id(0),
            eye,
            look,
            fov_deg,
            stiffness,
            eye_w: zero,
            look_w: zero,
            seeded: false,
        }
    }

    /// Classic third-person chase: behind, above, sprung.
    pub fn chase() -> (r: Self)
        ensures
            r == fresh_rig(
                Point { x: 0x0000_0000, y: 0x4066_6666, z: 0xc110_0000 },
                Point { x: 0x0000_0000, y: 0x3f80_0000, z: 0x4080_0000 },
                0x42c8_0000,
                0x40c0_0000,
            ),
    {
        CamRig::new(
            Point { x: 0x0000_0000, y: 0x4066_6666, z: 0xc110_0000 },
            Point { x: 0x0000_0000, y: 0x3f80_0000, z: 0x4080_0000 },
            0x42c8_0000,
            0x40c0_0000,
        )
    }

    /// Rear-facing cam: tail-mounted, looking back, very wide. Rigid.
    pub fn rear() -> (r: Self)
        ensures
            r == fresh_rig(
                Point { x: 0x0000_0000, y: 0x3fc0_0000, z: 0xbff3_3333 },
                Point { x: 0x0000_0000, y: 0x3ecc_cccd, z: 0xc140_0000 },
                0x42f0_0000,
                0x0000_0000,
            ),
    {
        CamRig::new(
            Point { x: 0x0000_0000, y: 0x3fc0_0000, z: 0xbff3_3333 },
            Point { x: 0x0000_0000, y: 0x3ecc_cccd, z: 0xc140_0000 },
            0x42f0_0000,
            0x0000_0000,
        )
    }

    /// Broadcast-style wheel cam off the right flank, looking forward. Rigid.
    pub fn side() -> (r: Self)
        ensures
            r == fresh_rig(
                Point { x: 0x3fd9_999a, y: 0x3f33_3333, z: 0x3ecc_cccd },
                Point { x: 0x3fd9_999a, y: 0x3f19_999a, z: 0x4160_0000 },
                0x42aa_0000,
                0x0000_0000,
            ),
    {
        CamRig::new(
            Point { x: 0x3fd9_999a, y: 0x3f33_3333, z: 0x3ecc_cccd },
            Point { x: 0x3fd9_999a, y: 0x3f19_999a, z: 0x4160_0000 },
            0x42aa_0000,
            0x0000_0000,
        )
    }
}

impl Default for CamRig {
    fn default() -> (r: Self)
        ensures
            r == fresh_rig(
                Point { x: 0x0000_0000, y: 0x4066_6666, z: 0xc110_0000 },
                Point { x: 0x0000_0000, y: 0x3f80_0000, z: 0x4080_0000 },
                0x42c8_0000,
                0x40c0_0000,
            ),
    {
        CamRig::chase()
    }
}

/// The active camera's smoothed presentation: eye and target, plus the field
/// of view and panini flag the renderer applies each frame.
#[derive(Clone, Copy, PartialEq, Eq, Debug, Structural)]
pub struct CamView {
    /// Which camera drives the screen (nothing until something is shown).
    pub active: Option<Id>,
    pub eye: Point,
    pub target: Point,
    /// The active rig's field of view.
    pub fov_deg: u32,
    /// Whether the panini look is on.
    pub panini: bool,
}

impl Default for CamView {
    fn default() -> (r: Self)
        ensures
            r == (CamView {
                active: None,
                eye: origin(),
                target: origin(),
                fov_deg: 0x42c8_0000,
                panini: true,
            }),
    {
        let zero: Point = Point { x: 0, y: 0, z: 0 };
        CamView { active: None, eye: zero, target: zero, fov_deg: 0x42c8_0000, panini: true }
    }
}

/// The numbers two patterns encode are equal.
pub open spec fn same_num(a: u32, b: u32) -> bool {
    le_num(a, b) && le_num(b, a)
}

/// Two points are equal, coordinate by coordinate.
pub open spec fn same_point(a: Point, b: Point) -> bool {
    same_num(a.x, b.x) && same_num(a.y, b.y) && same_num(a.z, b.z)
}

fn num_eq(a: u32, b: u32) -> (r: bool)
    ensures
        r == same_num(a, b),
{
    num_le(a, b) && num_le(b, a)
}

impl CamView {
    /// True once the active camera has produced a usable view.
    pub fn ready(&self) -> (r: bool)
        ensures
            r == (self.active is Some && !same_point(self.eye, self.target)),
    {
        self.active.is_some() && !(num_eq(self.eye.x, self.target.x) && num_eq(
            self.eye.y,
            self.target.y,
        ) && num_eq(self.eye.z, self.target.z))
    }
}

/// The camera module's runtime surface: the ordered list of mounted cameras
/// and which of them drives the screen.
pub struct CamManager {
    cams: Vec<Id>,
    installed: bool,
}

/// A manager as contracts see it.
#[verifier::ext_equal]
pub struct CamList {
    pub cams: Seq<Id>,
    pub installed: bool,
}

impl View for CamManager {
    type V = CamList;

    closed spec fn view(&self) -> CamList {
        CamList { cams: self.cams@, installed: self.installed }
    }
}

impl Default for CamManager {
    fn default() -> (r: Self)
        ensures
            r@ == (CamList { cams: Seq::empty(), installed: false }),
    {
        CamManager { cams: Vec::new(), installed: false }
    }
}

impl CamManager {
    /// Latch the module's installation. Returns whether the caller is the
    /// first and should set the module up.
    pub fn install(&mut self) -> (r: bool)
        ensures
            r == !old(self)@.installed,
            final(self)@ == (CamList { installed: true, ..old(self)@ }),
    {
        let first: bool = !self.installed;
        self.installed = true;
        first
    }

    /// The cameras mounted so far, in mount order (what `show_index`
    /// indexes).
    pub fn cams(&self) -> (r: &[Id])
        ensures
            r@ == self@.cams,
    {
        self.cams.as_slice()
    }

    /// Which camera currently drives the screen.
    pub fn active(&self, view: &CamView) -> (r: Option<Id>)
        requires
            self@.installed,
        ensures
            r == view.active,
    {
        view.active
    }

    /// Make `cam` drive the screen.
    pub fn show(&self, view: &mut CamView, cam: Id)
        requires
            self@.installed,
        ensures
            *final(view) == (CamView { active: Some(cam), ..*old(view) }),
    {
        view.active = Some(cam);
    }

    /// Show the i-th mounted camera (mount order). No-op if out of range.
    pub fn show_index(&self, view: &mut CamView, i: usize)
        requires
            self@.installed,
        ensures
            *final(view) == if i < self@.cams.len() {
                CamView { active: Some(self@.cams[i as int]), ..*old(view) }
            } else {
                *old(view)
            },
    {
        if i < self.cams.len() {
            self.show(view, self.cams[i]);
        }
    }

    /// Flip the panini look on the active view.
    pub fn toggle_panini(&self, view: &mut CamView)
        requires
            self@.installed,
        ensures
            *final(view) == (CamView { panini: !old(view).panini, ..*old(view) }),
    {
        view.panini = !view.panini;
    }

    /// Mount a camera on a tracked entity: `cam` is its fresh id.
    pub fn mount(&mut self, rigs: &mut Pool<CamRig>, cam: Id, target: Id, rig: CamRig)
        requires
            old(rigs).wf(),
        ensures
            final(rigs).wf(),
            final(rigs).stamp() == old(rigs).stamp(),
            final(rigs)@ == old(rigs)@.insert(
                cam.slot_of(),
                Entry { id: cam, value: CamRig { target, ..rig }, tick: old(rigs).stamp() },
            ),
            final(self)@ == (CamList { cams: old(self)@.cams.push(cam), ..old(self)@ }),
    {
        let mut mounted: CamRig = rig;
        mounted.target = target;
        rigs.add(cam, mounted);
        self.cams.push(cam);
    }
}

// --- the spring task --------------------------------------------------------

/// What a tick may make of a rig whose anchor is there: a placed, sprung rig
/// moves part of the way to its mount, any other is put there.
pub open spec fn driven<M: Fn(&CamAnchor, Point) -> Point, S: Fn(u32, Point, Point) -> Point>(
    rig: CamRig,
    anchor: CamAnchor,
    mount: M,
    spring: S,
    after: CamRig,
) -> bool {
    exists|eye: Point, look: Point|
        {
            &&& #[trigger] mount.ensures((&anchor, rig.eye), eye)
            &&& #[trigger] mount.ensures((&anchor, rig.look), look)
            &&& if rig.seeded && lt_num(0, rig.stiffness) {
                &&& spring.ensures((rig.stiffness, rig.eye_w, eye), after.eye_w)
                &&& spring.ensures((rig.stiffness, rig.look_w, look), after.look_w)
            } else {
                after.eye_w == eye && after.look_w == look
            }
            &&& after == CamRig {
                eye_w: after.eye_w,
                look_w: after.look_w,
                seeded: true,
                ..rig
            }
        }
}

/// What a tick may make of a camera's row.
pub open spec fn row_driven<M: Fn(&CamAnchor, Point) -> Point, S: Fn(u32, Point, Point) -> Point>(
    row: Entry<CamRig>,
    anchors: Pool<CamAnchor>,
    stamp: u32,
    mount: M,
    spring: S,
    after: Entry<CamRig>,
) -> bool {
    if anchors.has(row.value.target) {
        &&& driven(
            row.value,
            anchors@[row.value.target.slot_of()].value,
            mount,
            spring,
            after.value,
        )
        &&& after.id == row.id
        &&& after.tick == stamp
    } else {
        after == row
    }
}

/// The view with a rig's placement published.
pub open spec fn published(view: CamView, rig: CamRig) -> CamView {
    CamView { eye: rig.eye_w, target: rig.look_w, fov_deg: rig.fov_deg, ..view }
}

/// One tick of the camera module: every rig whose target has an anchor moves
/// toward its mount, and the one that drives the screen is published. `mount`
/// carries an offset out of the anchor's frame; `spring` moves a point part
/// of the way at a stiffness.
pub fn camera_step<M: Fn(&CamAnchor, Point) -> Point, S: Fn(u32, Point, Point) -> Point>(
    rigs: &mut Pool<CamRig>,
    anchors: &Pool<CamAnchor>,
    view: &mut CamView,
    mount: &M,
    spring: &S,
)
    requires
        old(rigs).wf(),
        anchors.wf(),
        forall|a: &CamAnchor, p: Point| #[trigger] mount.requires((a, p)),
        forall|k: u32, a: Point, b: Point| #[trigger] spring.requires((k, a, b)),
    ensures
        final(rigs).wf(),
        final(rigs).stamp() == old(rigs).stamp(),
        final(rigs)@.dom() == old(rigs)@.dom(),
        forall|s: u32| #[trigger]
            old(rigs)@.contains_key(s) ==> row_driven(
                old(rigs)@[s],
                *anchors,
                old(rigs).stamp(),
                *mount,
                *spring,
                final(rigs)@[s],
            ),
        ({
            let shown = old(view).active;
            if shown is Some && old(rigs).has(shown->0) && anchors.has(
                old(rigs)@[shown->0.slot_of()].value.target,
            ) {
                *final(view) == published(*old(view), final(rigs)@[shown->0.slot_of()].value)
            } else {
                *final(view) == *old(view)
            }
        }),
{
    proof {
        rigs.wf_columns_agree();
    }
    let ghost before = rigs@;
    let ghost first = *view;
    let ids: Vec<Id> = copy_ids(rigs.ids());
    let mut i: usize = 0;
    while i < ids.len()
        invariant
            rigs.wf(),
            anchors.wf(),
            forall|a: &CamAnchor, p: Point| #[trigger] mount.requires((a, p)),
            forall|k: u32, a: Point, b: Point| #[trigger] spring.requires((k, a, b)),
            before == old(rigs)@,
            first == *old(view),
            old(rigs).columns_agree(),
            ids@ == old(rigs).dense_ids(),
            i <= ids@.len(),
            rigs.stamp() == old(rigs).stamp(),
            rigs@.dom() == before.dom(),
            view.active == first.active,
            forall|k: int|
                0 <= k < i ==> row_driven(
                    before[(#[trigger] ids@[k]).slot_of()],
                    *anchors,
                    old(rigs).stamp(),
                    *mount,
                    *spring,
                    rigs@[ids@[k].slot_of()],
                ),
            forall|k: int|
                i <= k < ids@.len() ==> rigs@[(#[trigger] ids@[k]).slot_of()]
                    == before[ids@[k].slot_of()],
            *view == if shows(ids@, i as int, first.active, before, *anchors) {
                published(first, rigs@[first.active->0.slot_of()].value)
            } else {
                first
            },
        decreases ids@.len() - i,
    {
        let cam: Id = ids[i];
        let ghost mid = rigs@;
        proof {
            assert(old(rigs).dense_ids()[i as int] == cam);
            assert(before[cam.slot_of()].id == cam);
            assert(mid.dom().contains(cam.slot_of()));
            assert forall|k: int| 0 <= k < ids@.len() && k != i implies (
            #[trigger] ids@[k]).slot_of() != cam.slot_of() by {
            }
        }
        let rig: CamRig = *rigs.get(cam).unwrap();
        if let Some(a) = anchors.get(rig.target) {
            let eye: Point = mount(a, rig.eye);
            let look: Point = mount(a, rig.look);
            let mut next: CamRig = rig;
            if rig.seeded && num_lt(0, rig.stiffness) {
                next.eye_w = spring(rig.stiffness, rig.eye_w, eye);
                next.look_w = spring(rig.stiffness, rig.look_w, look);
            } else {
                next.eye_w = eye;
                next.look_w = look;
                next.seeded = true;
            }
            assert(driven(rig, *a, *mount, *spring, next));
            rigs.add(cam, next);
            let here: bool = match view.active {
                Some(shown) => shown.0 == cam.0,
                None => false,
            };
            if here {
                view.eye = next.eye_w;
                view.target = next.look_w;
                view.fov_deg = next.fov_deg;
            }
        }
        proof {
            assert(rigs@.dom() =~= before.dom());
            assert(row_driven(
                before[cam.slot_of()],
                *anchors,
                old(rigs).stamp(),
                *mount,
                *spring,
                rigs@[cam.slot_of()],
            ));
            assert forall|k: int| 0 <= k < i + 1 implies row_driven(
                before[(#[trigger] ids@[k]).slot_of()],
                *anchors,
                old(rigs).stamp(),
                *mount,
                *spring,
                rigs@[ids@[k].slot_of()],
            ) by {
                if k < i {
                    assert(rigs@[ids@[k].slot_of()] == mid[ids@[k].slot_of()]);
                }
            }
            if shows(ids@, i + 1, first.active, before, *anchors) {
                let k = choose|k: int|
                    0 <= k < i + 1 && Some(#[trigger] ids@[k]) == first.active && anchors.has(
                        before[ids@[k].slot_of()].value.target,
                    );
                if k < i {
                    assert(shows(ids@, i as int, first.active, before, *anchors));
                    assert(ids@[k] != cam);
                }
            } else {
                assert(!shows(ids@, i as int, first.active, before, *anchors)) by {
                    if shows(ids@, i as int, first.active, before, *anchors) {
                        let k = choose|k: int|
                            0 <= k < i && Some(#[trigger] ids@[k]) == first.active && anchors.has(
                                before[ids@[k].slot_of()].value.target,
                            );
                        assert(ids@[k] == ids@[k]);
                    }
                }
            }
        }
        i += 1;
    }
    proof {
        assert forall|s: u32| #[trigger] before.contains_key(s) implies row_driven(
            before[s],
            *anchors,
            old(rigs).stamp(),
            *mount,
            *spring,
            rigs@[s],
        ) by {
            assert(old(rigs).dense_ids().contains(before[s].id));
            let k = choose|k: int| 0 <= k < ids@.len() && ids@[k] == before[s].id;
            assert(ids@[k].slot_of() == s);
        }
        let n = ids@.len() as int;
        if first.active is Some && old(rigs).has(first.active->0) && anchors.has(
            before[first.active->0.slot_of()].value.target,
        ) {
            let cam = first.active->0;
            assert(old(rigs).dense_ids().contains(before[cam.slot_of()].id));
            let k = choose|k: int| 0 <= k < ids@.len() && ids@[k] == cam;
            assert(shows(ids@, n, first.active, before, *anchors));
        } else if shows(ids@, n, first.active, before, *anchors) {
            let k = choose|k: int|
                0 <= k < n && Some(#[trigger] ids@[k]) == first.active && anchors.has(
                    before[ids@[k].slot_of()].value.target,
                );
            assert(old(rigs).has(ids@[k]));
        }
    }
}

/// Whether the shown camera is among the first `n` and has an anchor.
spec fn shows(
    ids: Seq<Id>,
    n: int,
    active: Option<Id>,
    rows: Map<u32, Entry<CamRig>>,
    anchors: Pool<CamAnchor>,
) -> bool {
    exists|k: int|
        0 <= k < n && Some(#[trigger] ids[k]) == active && anchors.has(
            rows[ids[k].slot_of()].value.target,
        )
}

/// Copy of a list of ids.
fn copy_ids(ids: &[Id]) -> (r: Vec<Id>)
    ensures
        r@ == ids@,
{
    let mut out: Vec<Id> = Vec::new();
    let mut i: usize = 0;
    while i < ids.len()
        invariant
            i <= ids@.len(),
            out@ == ids@.take(i as int),
        decreases ids@.len() - i,
    {
        out.push(ids[i]);
        assert(out@ =~= ids@.take(i + 1));
        i += 1;
    }
    assert(out@ =~= ids@);
    out
}

/// A rigid mount is welded: wherever it was, a tick with its anchor there
/// puts it exactly at its mount.
pub proof fn rigid_mounts_weld<M: Fn(&CamAnchor, Point) -> Point, S: Fn(
    u32,
    Point,
    Point,
) -> Point>(rig: CamRig, anchor: CamAnchor, mount: M, spring: S, after: CamRig)
    requires
        driven(rig, anchor, mount, spring, after),
        !lt_num(0, rig.stiffness),
    ensures
        mount.ensures((&anchor, rig.eye), after.eye_w),
        mount.ensures((&anchor, rig.look), after.look_w),
        after.seeded,
{
}

/// A row is driven from its own mount: both offsets are mounted on the
/// target's pose. A soft row that was placed before springs towards them, any
/// other stands on them at once; it counts as placed and nothing else of it
/// moves.
pub proof fn rows_are_driven_from_their_mount<
    M: Fn(&CamAnchor, Point) -> Point,
    S: Fn(u32, Point, Point) -> Point,
>(rig: CamRig, anchor: CamAnchor, mount: M, spring: S, after: CamRig)
    requires
        driven(rig, anchor, mount, spring, after),
    ensures
        after.target == rig.target,
        after.eye == rig.eye,
        after.look == rig.look,
        after.fov_deg == rig.fov_deg,
        after.stiffness == rig.stiffness,
        after.seeded,
        rig.seeded && lt_num(0, rig.stiffness) ==> exists|eye: Point, look: Point| #[trigger]
            mount.ensures((&anchor, rig.eye), eye) && #[trigger] mount.ensures(
                (&anchor, rig.look),
                look,
            ) && spring.ensures((rig.stiffness, rig.eye_w, eye), after.eye_w) && spring.ensures(
                (rig.stiffness, rig.look_w, look),
                after.look_w,
            ),
        !rig.seeded || !lt_num(0, rig.stiffness) ==> mount.ensures(
            (&anchor, rig.eye),
            after.eye_w,
        ) && mount.ensures((&anchor, rig.look), after.look_w),
{
}

/// Only rows whose target has a pose are driven, each on its target's pose and
/// stamped; the others stay as they are.
pub proof fn rows_without_a_pose_stand_still<
    M: Fn(&CamAnchor, Point) -> Point,
    S: Fn(u32, Point, Point) -> Point,
>(
    row: Entry<CamRig>,
    anchors: Pool<CamAnchor>,
    stamp: u32,
    mount: M,
    spring: S,
    after: Entry<CamRig>,
)
    requires
        row_driven(row, anchors, stamp, mount, spring, after),
    ensures
        after.id == row.id,
        !anchors.has(row.value.target) ==> after == row,
        anchors.has(row.value.target) ==> after.tick == stamp && driven(
            row.value,
            anchors@[row.value.target.slot_of()].value,
            mount,
            spring,
            after.value,
        ),
{
}

/// A published view stands where its row stands, with its opening; the rest
/// of the view stays.
pub proof fn a_view_shows_its_row(view: CamView, rig: CamRig)
    ensures
        published(view, rig).eye == rig.eye_w,
        published(view, rig).target == rig.look_w,
        published(view, rig).fov_deg == rig.fov_deg,
        published(view, rig) == (CamView {
            eye: rig.eye_w,
            target: rig.look_w,
            fov_deg: rig.fov_deg,
            ..view
        }),
{
}

/// Coordinates are the same where their bits are, or both are zero; what is
/// no number is the same as nothing.
pub proof fn same_numbers_have_the_same_bits(a: u32, b: u32)
    ensures
        same_num(a, b) <==> (a <= 0x7f80_0000 || 0x8000_0000 <= a <= 0xff80_0000) && (b
            <= 0x7f80_0000 || 0x8000_0000 <= b <= 0xff80_0000) && (a == b || (a == 0 || a
            == 0x8000_0000) && (b == 0 || b == 0x8000_0000)),
{
}

/// A new row is on no target, stands nowhere yet and springs as asked.
pub proof fn new_rows_are_unplaced(eye: Point, look: Point, fov_deg: u32, stiffness: u32)
    ensures
        ({
            let rig = fresh_rig(eye, look, fov_deg, stiffness);
            &&& rig.target == Id(0)
            &&& rig.eye == eye && rig.look == look
            &&& rig.fov_deg == fov_deg && rig.stiffness == stiffness
            &&& !rig.seeded
        }),
        ({
            let o = origin();
            o.x == 0 && o.y == 0 && o.z == 0
        }),
{
}

/// Points are the same where all three coordinates are.
pub proof fn same_points_have_the_same_coordinates(a: Point, b: Point)
    ensures
        same_point(a, b) <==> same_num(a.x, b.x) && same_num(a.y, b.y) && same_num(a.z, b.z),
{
}

} // verus!
