//! Snapshot interpolation: a per-entity ring of authoritative samples, so
//! rendering can show a remote entity a fixed delay behind the newest one —
//! between two known-true samples instead of past the last. Loss only widens
//! the bracket.
//!
//! Times are `f64` bit patterns: the buffer orders them, callers do the
//! arithmetic of the blend.

use vstd::prelude::*;

use crate::id::Id;
use crate::order::{le_num64, lt_num64, num_le64, num_lt64};
use crate::pool::{Entry, Pool};

verus! {

/// One authoritative value and when it held.
#[derive(Clone, Copy)]
pub struct Sample<T> {
    pub time: u64,
    pub value: T,
}

/// Where a moment falls among an entity's samples.
#[derive(Clone, Copy)]
pub enum Bracket<T> {
    /// At or before the oldest: show it as it is.
    Hold(T),
    /// After `before` and no later than `after`, two neighbours.
    Between { before: Sample<T>, after: Sample<T> },
    /// Past the newest; `prior` is the one before it, for callers that
    /// carry the last segment on a little.
    Dry { prior: Option<Sample<T>>, newest: Sample<T> },
}

/// The samples of one entity, oldest first.
struct Ring<T> {
    id: Id,
    samples: Vec<Sample<T>>,
}

/// Per-entity rings of authoritative samples.
pub struct InterpBuffer<T> {
    rings: Vec<Ring<T>>,
}

/// Old samples drop off the front down to two.
pub open spec fn trimmed<T>(ring: Seq<Sample<T>>, cutoff: u64) -> Seq<Sample<T>>
    decreases ring.len(),
{
    if ring.len() > 2 && lt_num64(ring[0].time, cutoff) {
        trimmed(ring.drop_first(), cutoff)
    } else {
        ring
    }
}

/// What pushing a sample may make of a ring: a value that is the same as
/// the last is not kept, then the ring is trimmed.
pub open spec fn pushed<T, F: Fn(&T, &T) -> bool>(
    ring: Seq<Sample<T>>,
    now: u64,
    value: T,
    cutoff: u64,
    same: F,
    after: Seq<Sample<T>>,
) -> bool {
    ||| (ring.len() == 0 || same.ensures((&ring.last().value, &value), false)) && after == trimmed(
        ring.push(Sample { time: now, value }),
        cutoff,
    )
    ||| ring.len() > 0 && same.ensures((&ring.last().value, &value), true) && after == trimmed(
        ring,
        cutoff,
    )
}

/// The first sample from `k` on that is not before the moment.
pub open spec fn first_at<T>(ring: Seq<Sample<T>>, target: u64, k: int) -> int
    decreases ring.len() - k,
{
    if k >= ring.len() || le_num64(target, ring[k].time) {
        k
    } else {
        first_at(ring, target, k + 1)
    }
}

/// Where a moment falls.
pub open spec fn bracket<T>(ring: Seq<Sample<T>>, target: u64) -> Option<Bracket<T>> {
    let k = first_at(ring, target, 0);
    if ring.len() == 0 {
        None
    } else if k == 0 {
        Some(Bracket::Hold(ring[0].value))
    } else if k < ring.len() {
        Some(Bracket::Between { before: ring[k - 1], after: ring[k] })
    } else {
        Some(
            Bracket::Dry {
                prior: if ring.len() > 1 {
                    Some(ring[ring.len() - 2])
                } else {
                    None
                },
                newest: ring.last(),
            },
        )
    }
}

impl<T> View for InterpBuffer<T> {
    type V = Map<Id, Seq<Sample<T>>>;

    closed spec fn view(&self) -> Map<Id, Seq<Sample<T>>> {
        Map::new(
            |id: Id| ring_at(self.rings@, id) < self.rings@.len(),
            |id: Id| self.rings@[ring_at(self.rings@, id)].samples@,
        )
    }
}

/// Position of an entity's ring, or past the end.
spec fn ring_at<T>(rings: Seq<Ring<T>>, id: Id) -> int
    decreases rings.len(),
{
    if rings.len() == 0 {
        0
    } else if rings[0].id == id {
        0
    } else {
        1 + ring_at(rings.drop_first(), id)
    }
}

proof fn ring_at_bounds<T>(rings: Seq<Ring<T>>, id: Id)
    ensures
        0 <= ring_at(rings, id) <= rings.len(),
        ring_at(rings, id) < rings.len() ==> rings[ring_at(rings, id)].id == id,
        forall|k: int| 0 <= k < ring_at(rings, id) ==> (#[trigger] rings[k]).id != id,
    decreases rings.len(),
{
    if rings.len() > 0 && rings[0].id != id {
        let rest = rings.drop_first();
        ring_at_bounds(rest, id);
        assert forall|k: int| 0 <= k < ring_at(rings, id) implies (#[trigger] rings[k]).id
            != id by {
            if k > 0 {
                assert(rings[k] == rest[k - 1]);
            }
        }
        if ring_at(rings, id) < rings.len() {
            assert(rings[ring_at(rings, id)] == rest[ring_at(rest, id)]);
        }
    }
}

/// Of rings with distinct owners, the one found is the one there is.
proof fn ring_at_is<T>(rings: Seq<Ring<T>>, id: Id, k: int)
    requires
        0 <= k < rings.len(),
        rings[k].id == id,
        distinct(rings),
    ensures
        ring_at(rings, id) == k,
{
    ring_at_bounds(rings, id);
}

spec fn distinct<T>(rings: Seq<Ring<T>>) -> bool {
    forall|i: int, j: int|
        0 <= i < j < rings.len() ==> (#[trigger] rings[i]).id != (#[trigger] rings[j]).id
}

impl<T: Copy> InterpBuffer<T> {
    /// Every entity has at most one ring, and none is empty.
    pub closed spec fn wf(&self) -> bool {
        &&& distinct(self.rings@)
        &&& forall|k: int|
            0 <= k < self.rings@.len() ==> (#[trigger] self.rings@[k]).samples@.len() > 0
    }

    /// An empty buffer.
    pub fn new() -> (r: Self)
        ensures
            r.wf(),
            r@ == Map::<Id, Seq<Sample<T>>>::empty(),
    {
        let r = InterpBuffer { rings: Vec::new() };
        assert(r@ =~= Map::<Id, Seq<Sample<T>>>::empty());
        r
    }

    /// Position of an entity's ring.
    fn find(&self, id: Id) -> (r: Option<usize>)
        requires
            self.wf(),
        ensures
            match r {
                Some(k) => k < self.rings@.len() && self.rings@[k as int].id == id && ring_at(
                    self.rings@,
                    id,
                ) == k && self@.contains_key(id) && self@[id] == self.rings@[k as int].samples@,
                None => !self@.contains_key(id) && forall|k: int|
                    0 <= k < self.rings@.len() ==> (#[trigger] self.rings@[k]).id != id,
            },
    {
        let mut k: usize = 0;
        while k < self.rings.len()
            invariant
                self.wf(),
                k <= self.rings@.len(),
                forall|j: int| 0 <= j < k ==> (#[trigger] self.rings@[j]).id != id,
            decreases self.rings@.len() - k,
        {
            if self.rings[k].id.0 == id.0 {
                proof {
                    ring_at_is(self.rings@, id, k as int);
                }
                return Some(k);
            }
            k += 1;
        }
        proof {
            ring_at_bounds(self.rings@, id);
        }
        None
    }

    /// Record an authoritative sample. A value that is the same as the last
    /// one stored is not kept, so call it every tick — only real changes
    /// cost anything. Samples before `cutoff` drop off, down to two.
    pub fn push<F: Fn(&T, &T) -> bool>(
        &mut self,
        id: Id,
        now: u64,
        value: T,
        cutoff: u64,
        same: &F,
    )
        requires
            old(self).wf(),
            forall|a: &T, b: &T| #[trigger] same.requires((a, b)),
        ensures
            final(self).wf(),
            final(self)@.dom() == old(self)@.dom().insert(id),
            forall|other: Id|
                other != id && old(self)@.contains_key(other) ==> #[trigger] final(self)@[other]
                    == old(self)@[other],
            pushed(
                if old(self)@.contains_key(id) {
                    old(self)@[id]
                } else {
                    Seq::empty()
                },
                now,
                value,
                cutoff,
                *same,
                final(self)@[id],
            ),
    {
        let ghost before = self.rings@;
        let ghost map = self@;
        let k: usize = match self.find(id) {
            Some(k) => k,
            None => {
                self.rings.push(Ring { id, samples: Vec::new() });
                self.rings.len() - 1
            },
        };
        let ghost ring = if map.contains_key(id) {
            map[id]
        } else {
            Seq::empty()
        };
        let mut samples: Vec<Sample<T>> = Vec::new();
        std::mem::swap(&mut samples, &mut self.rings[k].samples);
        assert(samples@ =~= ring);
        let n: usize = samples.len();
        let fresh: bool = n == 0 || !same(&samples[n - 1].value, &value);
        if fresh {
            samples.push(Sample { time: now, value });
        }
        let ghost grown = samples@;
        while samples.len() > 2 && num_lt64(samples[0].time, cutoff)
            invariant
                trimmed(samples@, cutoff) == trimmed(grown, cutoff),
                samples@.len() > 0,
            decreases samples@.len(),
        {
            let ghost was = samples@;
            let _ = samples.remove(0);
            assert(samples@ =~= was.drop_first());
        }
        assert(samples@ == trimmed(grown, cutoff));
        self.rings[k].samples = samples;
        proof {
            let after = self.rings@;
            assert(after.len() >= before.len());
            assert forall|j: int| 0 <= j < after.len() implies (#[trigger] after[j]).id == if j
                < before.len() {
                before[j].id
            } else {
                id
            } by {
            }
            assert(distinct(after));
            assert forall|other: Id| #[trigger] self@.contains_key(other) <==> map.contains_key(
                other,
            ) || other == id by {
                ring_at_bounds(after, other);
                ring_at_bounds(before, other);
                if map.contains_key(other) {
                    let j = ring_at(before, other);
                    assert(after[j].id == other);
                    ring_at_is(after, other, j);
                } else if other == id {
                    assert(after[k as int].id == id);
                    ring_at_is(after, id, k as int);
                }
                if self@.contains_key(other) {
                    let j = ring_at(after, other);
                    if j < before.len() {
                        assert(before[j].id == other);
                        ring_at_is(before, other, j);
                    }
                }
            }
            assert(self@.dom() =~= map.dom().insert(id));
            assert forall|other: Id| other != id && map.contains_key(other) implies #[trigger] self@[other]
                == map[other] by {
                ring_at_bounds(before, other);
                let j = ring_at(before, other);
                assert(after[j].id == other);
                ring_at_is(after, other, j);
                assert(j != k);
                assert(after[j] == before[j]);
            }
            ring_at_is(after, id, k as int);
            assert(self@[id] == samples@);
        }
    }

    /// Where a moment falls among an entity's samples.
    pub fn sample(&self, id: Id, target: u64) -> (r: Option<Bracket<T>>)
        requires
            self.wf(),
        ensures
            r == if self@.contains_key(id) {
                bracket(self@[id], target)
            } else {
                None
            },
            r is Some <==> self@.contains_key(id),
    {
        let k: usize = match self.find(id) {
            Some(k) => k,
            None => {
                return None;
            },
        };
        let ring: &Vec<Sample<T>> = &self.rings[k].samples;
        let mut i: usize = 0;
        while i < ring.len() && !num_le64(target, ring[i].time)
            invariant
                i <= ring@.len(),
                first_at(ring@, target, 0) == first_at(ring@, target, i as int),
            decreases ring@.len() - i,
        {
            i += 1;
        }
        let n: usize = ring.len();
        if i == 0 {
            Some(Bracket::Hold(ring[0].value))
        } else if i < n {
            Some(Bracket::Between { before: ring[i - 1], after: ring[i] })
        } else {
            let prior: Option<Sample<T>> = if n > 1 {
                Some(ring[n - 2])
            } else {
                None
            };
            Some(Bracket::Dry { prior, newest: ring[n - 1] })
        }
    }

    /// Whether the entity has a ring.
    pub fn contains(&self, id: Id) -> (r: bool)
        requires
            self.wf(),
        ensures
            r == self@.contains_key(id),
    {
        self.find(id).is_some()
    }

    /// Drop the rings of entities that are gone from `live`.
    fn retain_live(&mut self, live: &Pool<T>)
        requires
            old(self).wf(),
            live.wf(),
        ensures
            final(self).wf(),
            forall|id: Id| #[trigger]
                final(self)@.contains_key(id) <==> old(self)@.contains_key(id) && live.has(id),
            forall|id: Id|
                old(self)@.contains_key(id) && live.has(id) ==> #[trigger] final(self)@[id]
                    == old(self)@[id],
    {
        let ghost map = self@;
        let mut k: usize = 0;
        while k < self.rings.len()
            invariant
                self.wf(),
                live.wf(),
                map == old(self)@,
                k <= self.rings@.len(),
                forall|id: Id| #[trigger] self@.contains_key(id) ==> map.contains_key(id),
                forall|id: Id|
                    #[trigger] map.contains_key(id) && live.has(id) ==> self@.contains_key(id),
                forall|id: Id| #[trigger] self@.contains_key(id) ==> self@[id] == map[id],
                forall|j: int| 0 <= j < k ==> live.has((#[trigger] self.rings@[j]).id),
            decreases self.rings@.len() - k,
        {
            let ghost before = self.rings@;
            let ghost was = self@;
            let id: Id = self.rings[k].id;
            if live.contains(id) {
                k += 1;
            } else {
                let _ = self.rings.remove(k);
                proof {
                    let after = self.rings@;
                    assert(after =~= before.remove(k as int));
                    assert forall|i: int, j: int| 0 <= i < j < after.len() implies (
                    #[trigger] after[i]).id != (#[trigger] after[j]).id by {
                        let a = if i < k {
                            i
                        } else {
                            i + 1
                        };
                        let b = if j < k {
                            j
                        } else {
                            j + 1
                        };
                        assert(after[i] == before[a] && after[j] == before[b]);
                    }
                    assert forall|x: Id| #[trigger] self@.contains_key(x) <==> was.contains_key(x)
                        && x != id by {
                        drop_ring(before, k as int, x);
                    }
                    assert forall|x: Id| #[trigger] self@.contains_key(x) implies self@[x]
                        == was[x] by {
                        drop_ring(before, k as int, x);
                    }
                }
            }
        }
        proof {
            assert forall|id: Id| #[trigger] self@.contains_key(id) implies live.has(id) by {
                ring_at_bounds(self.rings@, id);
                assert(self.rings@[ring_at(self.rings@, id)].id == id);
            }
        }
    }
}

/// Taking one ring out leaves every other entity's in place.
proof fn drop_ring<T>(rings: Seq<Ring<T>>, k: int, x: Id)
    requires
        0 <= k < rings.len(),
        distinct(rings),
    ensures
        ({
            let after = rings.remove(k);
            &&& ring_at(after, x) < after.len() <==> ring_at(rings, x) < rings.len() && x
                != rings[k].id
            &&& ring_at(after, x) < after.len() ==> after[ring_at(after, x)] == rings[ring_at(
                rings,
                x,
            )]
        }),
{
    let after = rings.remove(k);
    assert(distinct(after)) by {
        assert forall|i: int, j: int| 0 <= i < j < after.len() implies (#[trigger] after[i]).id
            != (#[trigger] after[j]).id by {
            let a = if i < k {
                i
            } else {
                i + 1
            };
            let b = if j < k {
                j
            } else {
                j + 1
            };
            assert(after[i] == rings[a] && after[j] == rings[b]);
        }
    }
    ring_at_bounds(rings, x);
    ring_at_bounds(after, x);
    let i = ring_at(rings, x);
    let j = ring_at(after, x);
    if i < rings.len() && x != rings[k].id {
        let to = if i < k {
            i
        } else {
            i - 1
        };
        assert(after[to] == rings[i]);
        ring_at_is(after, x, to);
    }
    if j < after.len() {
        let from = if j < k {
            j
        } else {
            j + 1
        };
        assert(after[j] == rings[from]);
        ring_at_is(rings, x, from);
    }
}

/// One draw row: the blend of where the moment falls among the samples.
pub open spec fn drawn<T, G: Fn(Bracket<T>) -> T>(
    lerp: G,
    ring: Seq<Sample<T>>,
    target: u64,
    id: Id,
    tick: u32,
    row: Entry<T>,
) -> bool {
    &&& bracket(ring, target) is Some
    &&& lerp.ensures((bracket(ring, target)->0,), row.value)
    &&& row.id == id
    &&& row.tick == tick
}

/// The ring an entity starts a push from.
pub open spec fn ring_or_none<T>(rings: Map<Id, Seq<Sample<T>>>, id: Id) -> Seq<Sample<T>> {
    if rings.contains_key(id) {
        rings[id]
    } else {
        Seq::empty()
    }
}

/// Mirror `auth` into `draw` through the buffer: feed this tick's
/// authoritative values in stamped at `push_now`, then write each entity's
/// value at `target` out, blended by `lerp`. Entities gone from `auth` drop
/// from both the buffer and `draw`.
pub fn pool_interp<T: Copy, F: Fn(&T, &T) -> bool, G: Fn(Bracket<T>) -> T>(
    auth: &Pool<T>,
    draw: &mut Pool<T>,
    buf: &mut InterpBuffer<T>,
    push_now: u64,
    cutoff: u64,
    target: u64,
    same: &F,
    lerp: &G,
)
    requires
        auth.wf(),
        old(draw).wf(),
        old(buf).wf(),
        forall|a: &T, b: &T| #[trigger] same.requires((a, b)),
        forall|b: Bracket<T>| #[trigger] lerp.requires((b,)),
    ensures
        final(draw).wf(),
        final(buf).wf(),
        final(draw).stamp() == old(draw).stamp(),
        forall|id: Id| #[trigger] final(buf)@.contains_key(id) <==> auth.has(id),
        forall|id: Id| #[trigger]
            auth.has(id) ==> pushed(
                ring_or_none(old(buf)@, id),
                push_now,
                auth@[id.slot_of()].value,
                cutoff,
                *same,
                final(buf)@[id],
            ),
        forall|s: u32| #[trigger] final(draw)@.contains_key(s) <==> auth@.contains_key(s),
        forall|s: u32| #[trigger]
            final(draw)@.contains_key(s) ==> drawn(
                *lerp,
                final(buf)@[auth@[s].id],
                target,
                auth@[s].id,
                old(draw).stamp(),
                final(draw)@[s],
            ),
{
    feed(auth, buf, push_now, cutoff, same);
    render(auth, draw, buf, target, lerp);
}

/// Whether one of the first `n` ids is this one.
spec fn among(ids: Seq<Id>, n: int, id: Id) -> bool {
    exists|k: int| 0 <= k < n && #[trigger] ids[k] == id
}

/// Feed this tick's authoritative values into the buffer and forget who is
/// gone.
fn feed<T: Copy, F: Fn(&T, &T) -> bool>(
    auth: &Pool<T>,
    buf: &mut InterpBuffer<T>,
    push_now: u64,
    cutoff: u64,
    same: &F,
)
    requires
        auth.wf(),
        old(buf).wf(),
        forall|a: &T, b: &T| #[trigger] same.requires((a, b)),
    ensures
        final(buf).wf(),
        forall|id: Id| #[trigger] final(buf)@.contains_key(id) <==> auth.has(id),
        forall|id: Id| #[trigger]
            auth.has(id) ==> pushed(
                ring_or_none(old(buf)@, id),
                push_now,
                auth@[id.slot_of()].value,
                cutoff,
                *same,
                final(buf)@[id],
            ),
{
    proof {
        auth.wf_columns_agree();
    }
    let ids: &[Id] = auth.ids();
    let values: &[T] = auth.values();
    let ghost before = buf@;
    let mut i: usize = 0;
    while i < ids.len()
        invariant
            auth.wf(),
            auth.columns_agree(),
            buf.wf(),
            before == old(buf)@,
            forall|a: &T, b: &T| #[trigger] same.requires((a, b)),
            ids@ == auth.dense_ids(),
            values@ == auth.dense_values(),
            ids@.len() == values@.len(),
            i <= ids@.len(),
            forall|k: int|
                0 <= k < i ==> buf@.contains_key(#[trigger] ids@[k]) && pushed(
                    ring_or_none(before, ids@[k]),
                    push_now,
                    values@[k],
                    cutoff,
                    *same,
                    buf@[ids@[k]],
                ),
            forall|id: Id|
                !among(ids@, i as int, id) ==> ((#[trigger] buf@.contains_key(id))
                    <==> before.contains_key(id)),
            forall|id: Id|
                !among(ids@, i as int, id) && before.contains_key(id) ==> #[trigger] buf@[id]
                    == before[id],
        decreases ids@.len() - i,
    {
        let id: Id = ids[i];
        let ghost mid = buf@;
        proof {
            assert forall|k: int| 0 <= k < i implies #[trigger] ids@[k] != id by {
            }
            assert(!among(ids@, i as int, id));
            assert(mid.contains_key(id) <==> before.contains_key(id));
            assert(ring_or_none(mid, id) == ring_or_none(before, id));
        }
        buf.push(id, push_now, values[i], cutoff, same);
        proof {
            assert forall|k: int| 0 <= k < i + 1 implies buf@.contains_key(#[trigger] ids@[k])
                && pushed(
                ring_or_none(before, ids@[k]),
                push_now,
                values@[k],
                cutoff,
                *same,
                buf@[ids@[k]],
            ) by {
                if k < i {
                    assert(mid.contains_key(ids@[k]));
                    assert(buf@[ids@[k]] == mid[ids@[k]]);
                }
            }
            assert forall|x: Id| !among(ids@, i + 1, x) implies ((#[trigger] buf@.contains_key(x))
                <==> before.contains_key(x)) by {
                assert(ids@[i as int] != x);
                assert(!among(ids@, i as int, x));
                assert(mid.contains_key(x) <==> before.contains_key(x));
            }
            assert forall|x: Id|
                !among(ids@, i + 1, x) && before.contains_key(x) implies #[trigger] buf@[x]
                == before[x] by {
                assert(ids@[i as int] != x);
                assert(!among(ids@, i as int, x));
                assert(mid.contains_key(x) <==> before.contains_key(x));
                assert(mid[x] == before[x]);
            }
        }
        i += 1;
    }
    let ghost filled = buf@;
    buf.retain_live(auth);
    proof {
        assert forall|id: Id| #[trigger] auth.has(id) implies filled.contains_key(id) && pushed(
            ring_or_none(before, id),
            push_now,
            auth@[id.slot_of()].value,
            cutoff,
            *same,
            buf@[id],
        ) by {
            assert(auth.dense_ids().contains(id));
            let k = choose|k: int| 0 <= k < ids@.len() && ids@[k] == id;
            assert(filled.contains_key(ids@[k]));
            assert(buf@[id] == filled[id]);
        }
    }
}

/// Write each entity's value at `target` out.
fn render<T: Copy, G: Fn(Bracket<T>) -> T>(
    auth: &Pool<T>,
    draw: &mut Pool<T>,
    buf: &InterpBuffer<T>,
    target: u64,
    lerp: &G,
)
    requires
        auth.wf(),
        old(draw).wf(),
        buf.wf(),
        forall|id: Id| #[trigger] buf@.contains_key(id) <==> auth.has(id),
        forall|b: Bracket<T>| #[trigger] lerp.requires((b,)),
    ensures
        final(draw).wf(),
        final(draw).stamp() == old(draw).stamp(),
        forall|s: u32| #[trigger] final(draw)@.contains_key(s) <==> auth@.contains_key(s),
        forall|s: u32| #[trigger]
            final(draw)@.contains_key(s) ==> drawn(
                *lerp,
                buf@[auth@[s].id],
                target,
                auth@[s].id,
                old(draw).stamp(),
                final(draw)@[s],
            ),
{
    proof {
        auth.wf_columns_agree();
    }
    let ids: &[Id] = auth.ids();
    let mut i: usize = 0;
    while i < ids.len()
        invariant
            auth.wf(),
            auth.columns_agree(),
            buf.wf(),
            draw.wf(),
            draw.stamp() == old(draw).stamp(),
            forall|id: Id| #[trigger] buf@.contains_key(id) <==> auth.has(id),
            forall|b: Bracket<T>| #[trigger] lerp.requires((b,)),
            ids@ == auth.dense_ids(),
            i <= ids@.len(),
            forall|k: int|
                0 <= k < i ==> draw@.contains_key((#[trigger] ids@[k]).slot_of()) && drawn(
                    *lerp,
                    buf@[ids@[k]],
                    target,
                    ids@[k],
                    old(draw).stamp(),
                    draw@[ids@[k].slot_of()],
                ),
        decreases ids@.len() - i,
    {
        let id: Id = ids[i];
        let ghost mid = draw@;
        proof {
            assert(auth@[id.slot_of()].id == id);
            assert(auth.has(id));
            assert(buf@.contains_key(id));
        }
        if let Some(b) = buf.sample(id, target) {
            let v: T = lerp(b);
            draw.add(id, v);
        }
        proof {
            assert forall|k: int| 0 <= k < i + 1 implies draw@.contains_key(
                (#[trigger] ids@[k]).slot_of(),
            ) && drawn(
                *lerp,
                buf@[ids@[k]],
                target,
                ids@[k],
                old(draw).stamp(),
                draw@[ids@[k].slot_of()],
            ) by {
                if k < i {
                    assert(ids@[k].slot_of() != id.slot_of());
                    assert(draw@[ids@[k].slot_of()] == mid[ids@[k].slot_of()]);
                }
            }
        }
        i += 1;
    }
    let ghost filled = draw@;
    proof {
        draw.wf_columns_agree();
    }
    let keep = |id: Id, v: &T| -> (r: bool)
        ensures
            r == auth.has(id),
        { auth.contains(id) };
    draw.retain(keep);
    proof {
        assert forall|s: u32| #[trigger] draw@.contains_key(s) <==> auth@.contains_key(s) by {
            if auth@.contains_key(s) {
                let id = auth@[s].id;
                assert(auth.dense_ids().contains(id));
                let k = choose|k: int| 0 <= k < ids@.len() && ids@[k] == id;
                assert(ids@[k].slot_of() == s);
                assert(filled.contains_key(s));
                assert(auth.has(filled[s].id));
            }
            if draw@.contains_key(s) {
                assert(filled.contains_key(s));
                assert(auth.has(filled[s].id));
            }
        }
        assert forall|s: u32| #[trigger] draw@.contains_key(s) implies drawn(
            *lerp,
            buf@[auth@[s].id],
            target,
            auth@[s].id,
            old(draw).stamp(),
            draw@[s],
        ) by {
            assert(auth@.contains_key(s));
            let id = auth@[s].id;
            assert(auth.dense_ids().contains(id));
            let k = choose|k: int| 0 <= k < ids@.len() && ids@[k] == id;
            assert(ids@[k].slot_of() == s);
        }
    }
}

/// A moment is only ever shown between the two samples around it: strictly
/// after the one and no later than the other, and they are neighbours in
/// the ring.
pub proof fn brackets_hold_the_moment<T>(ring: Seq<Sample<T>>, target: u64)
    requires
        bracket(ring, target) matches Some(Bracket::Between { .. }),
    ensures
        bracket(ring, target) matches Some(Bracket::Between { before, after }) && {
            &&& !le_num64(target, before.time)
            &&& le_num64(target, after.time)
            &&& exists|k: int| 1 <= k < ring.len() && before == ring[k - 1] && after == #[trigger] ring[k]
        },
{
    first_at_splits(ring, target, 0);
    let k = first_at(ring, target, 0);
    assert(ring[k] == ring[k]);
    assert(!le_num64(target, ring[k - 1].time));
}

/// The first sample not before the moment has every earlier one before it.
proof fn first_at_splits<T>(ring: Seq<Sample<T>>, target: u64, k: int)
    requires
        0 <= k <= ring.len(),
    ensures
        k <= first_at(ring, target, k) <= ring.len(),
        first_at(ring, target, k) < ring.len() ==> le_num64(
            target,
            ring[first_at(ring, target, k)].time,
        ),
        forall|j: int|
            k <= j < first_at(ring, target, k) ==> !le_num64(target, (#[trigger] ring[j]).time),
    decreases ring.len() - k,
{
    if k < ring.len() && !le_num64(target, ring[k].time) {
        first_at_splits(ring, target, k + 1);
    }
}

/// Past the newest sample the buffer runs dry rather than guess, and says
/// which sample is the newest.
pub proof fn past_the_newest_runs_dry<T>(ring: Seq<Sample<T>>, target: u64)
    requires
        ring.len() > 0,
        forall|j: int| 0 <= j < ring.len() ==> !le_num64(target, (#[trigger] ring[j]).time),
    ensures
        bracket(ring, target) matches Some(Bracket::Dry { prior, newest }) && newest
            == ring.last(),
{
    first_at_splits(ring, target, 0);
}

/// Trimming takes only a front of the ring, only samples before the cutoff,
/// stops at two, and stops only there or at one not before the cutoff.
proof fn trimming_takes_old_samples<T>(ring: Seq<Sample<T>>, cutoff: u64)
    ensures
        ({
            let out = trimmed(ring, cutoff);
            let gone = ring.len() - out.len();
            &&& 0 <= gone
            &&& out == ring.skip(gone)
            &&& forall|j: int| 0 <= j < gone ==> lt_num64((#[trigger] ring[j]).time, cutoff)
            &&& gone > 0 ==> out.len() >= 2
            &&& out.len() > 2 ==> !lt_num64(out[0].time, cutoff)
        }),
    decreases ring.len(),
{
    if lt_num64(ring[0].time, cutoff) && ring.len() > 2 {
        let rest = ring.drop_first();
        trimming_takes_old_samples(rest, cutoff);
        let out = trimmed(ring, cutoff);
        let gone = ring.len() - out.len();
        assert(out =~= ring.skip(gone));
        assert forall|j: int| 0 <= j < gone implies lt_num64(
            (#[trigger] ring[j]).time,
            cutoff,
        ) by {
            if j > 0 {
                assert(rest[j - 1] == ring[j]);
            }
        }
    } else {
        assert(ring =~= ring.skip(0));
    }
}

/// Every recent sample stays: after a push the ring is a tail of the old one
/// with the new sample behind it — or without, where the value was found the
/// same as the last — and what is missing is only samples before the cutoff;
/// the first one left is not before the cutoff or one of the last two.
pub proof fn a_push_keeps_every_recent_sample<T, F: Fn(&T, &T) -> bool>(
    ring: Seq<Sample<T>>,
    now: u64,
    value: T,
    cutoff: u64,
    same: F,
    after: Seq<Sample<T>>,
) -> (fresh: bool)
    requires
        pushed(ring, now, value, cutoff, same, after),
    ensures
        fresh ==> ring.len() == 0 || same.ensures((&ring.last().value, &value), false),
        !fresh ==> ring.len() > 0 && same.ensures((&ring.last().value, &value), true),
        ({
            let all = if fresh {
                ring.push(Sample { time: now, value })
            } else {
                ring
            };
            let gone = all.len() - after.len();
            &&& 0 <= gone
            &&& after.len() > 0
            &&& forall|k: int| 0 <= k < after.len() ==> #[trigger] after[k] == all[gone + k]
            &&& forall|j: int| 0 <= j < gone ==> lt_num64((#[trigger] all[j]).time, cutoff)
            &&& gone > 0 ==> after.len() >= 2
            &&& after.len() <= 2 || !lt_num64(after[0].time, cutoff)
        }),
{
    let grown = ring.push(Sample { time: now, value });
    let fresh = (ring.len() == 0 || same.ensures((&ring.last().value, &value), false)) && after
        == trimmed(grown, cutoff);
    trimming_takes_old_samples(grown, cutoff);
    trimming_takes_old_samples(ring, cutoff);
    fresh
}

/// Where a moment falls is decided by the first sample not before it: at the
/// oldest it is held, between two neighbours it is blended, past all of them
/// the newest two are handed out.
pub proof fn the_first_sample_not_before_decides<T>(ring: Seq<Sample<T>>, target: u64, k: int)
    requires
        ring.len() > 0,
        0 <= k <= ring.len(),
        forall|j: int| 0 <= j < k ==> !le_num64(target, (#[trigger] ring[j]).time),
        k < ring.len() ==> le_num64(target, ring[k].time),
    ensures
        k == 0 ==> bracket(ring, target) == Some(Bracket::Hold(ring[0].value)),
        0 < k < ring.len() ==> bracket(ring, target) == Some(
            Bracket::Between { before: ring[k - 1], after: ring[k] },
        ),
        k == ring.len() ==> bracket(ring, target) == Some(
            Bracket::Dry {
                prior: if ring.len() > 1 {
                    Some(ring[ring.len() - 2])
                } else {
                    None
                },
                newest: ring[ring.len() - 1],
            },
        ),
{
    first_at_splits(ring, target, 0);
    let at = first_at(ring, target, 0);
    if at < k {
        assert(!le_num64(target, ring[at].time));
    } else if k < at {
        assert(!le_num64(target, ring[k].time));
    }
}

/// A drawn row is its entity's, written now, and blends what lies around the
/// moment.
pub proof fn drawn_rows_show_the_moment<T, G: Fn(Bracket<T>) -> T>(
    lerp: G,
    ring: Seq<Sample<T>>,
    target: u64,
    id: Id,
    tick: u32,
    row: Entry<T>,
    k: int,
)
    requires
        drawn(lerp, ring, target, id, tick, row),
        0 <= k <= ring.len(),
        forall|j: int| 0 <= j < k ==> !le_num64(target, (#[trigger] ring[j]).time),
        k < ring.len() ==> le_num64(target, ring[k].time),
    ensures
        ring.len() > 0,
        row.id == id,
        row.tick == tick,
        k == 0 ==> lerp.ensures((Bracket::Hold(ring[0].value),), row.value),
        0 < k < ring.len() ==> lerp.ensures(
            (Bracket::Between { before: ring[k - 1], after: ring[k] },),
            row.value,
        ),
{
    the_first_sample_not_before_decides(ring, target, k);
}

/// An entity without samples starts from none, one with samples from its own.
pub proof fn rings_are_their_own<T>(rings: Map<Id, Seq<Sample<T>>>, id: Id)
    ensures
        !rings.contains_key(id) ==> ring_or_none(rings, id).len() == 0,
        rings.contains_key(id) ==> ring_or_none(rings, id) == rings[id],
{
}

} // verus!
