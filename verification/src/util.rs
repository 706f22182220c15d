//! PLC-inspired logic helpers: edges, latches, counters, births — and the
//! deterministic random generator.

use vstd::prelude::*;

use crate::id::Id;
use crate::pool::Pool;

verus! {

/// One-tick pulse when the input goes false to true.
#[derive(Clone, Copy, Debug, PartialEq, Eq, Structural)]
pub struct RisingEdge {
    pub previous: bool,
}

impl Default for RisingEdge {
    fn default() -> (r: Self)
        ensures
            r == (RisingEdge { previous: false }),
    {
        RisingEdge { previous: false }
    }
}

impl RisingEdge {
    /// Whether the input rose since the last call.
    pub fn update(&mut self, input: bool) -> (r: bool)
        ensures
            r == (input && !old(self).previous),
            final(self).previous == input,
    {
        let fired: bool = input && !self.previous;
        self.previous = input;
        fired
    }
}

/// One-tick pulse when the input goes true to false.
#[derive(Clone, Copy, Debug, PartialEq, Eq, Structural)]
pub struct FallingEdge {
    pub previous: bool,
}

impl Default for FallingEdge {
    fn default() -> (r: Self)
        ensures
            r == (FallingEdge { previous: false }),
    {
        FallingEdge { previous: false }
    }
}

impl FallingEdge {
    /// Whether the input fell since the last call.
    pub fn update(&mut self, input: bool) -> (r: bool)
        ensures
            r == (!input && old(self).previous),
            final(self).previous == input,
    {
        let fired: bool = !input && self.previous;
        self.previous = input;
        fired
    }
}

/// Set-reset flip-flop. When set and reset are both true, `reset_dominant`
/// decides which wins (default: reset).
#[derive(Clone, Copy, Debug, PartialEq, Eq, Structural)]
pub struct Latch {
    pub output: bool,
    pub reset_dominant: bool,
}

impl Default for Latch {
    fn default() -> (r: Self)
        ensures
            r == (Latch { output: false, reset_dominant: true }),
    {
        Latch { output: false, reset_dominant: true }
    }
}

impl Latch {
    /// An open latch.
    pub fn new(reset_dominant: bool) -> (r: Self)
        ensures
            r == (Latch { output: false, reset_dominant }),
    {
        Latch { output: false, reset_dominant }
    }

    /// Apply the two inputs.
    pub fn update(&mut self, set: bool, reset: bool)
        ensures
            final(self).reset_dominant == old(self).reset_dominant,
            final(self).output == if set && reset {
                !old(self).reset_dominant
            } else if set {
                true
            } else if reset {
                false
            } else {
                old(self).output
            },
    {
        if set && reset {
            self.output = !self.reset_dominant;
        } else if set {
            self.output = true;
        } else if reset {
            self.output = false;
        }
    }

    /// Whether the latch is on.
    pub fn is_on(&self) -> (r: bool)
        ensures
            r == self.output,
    {
        self.output
    }
}

/// Count up/down toward a preset with a done flag. Compose with
/// `RisingEdge` for edge-triggered counting.
#[derive(Clone, Copy, Debug, PartialEq, Eq, Structural)]
pub struct Counter {
    pub count: i32,
    pub preset: i32,
    pub done: bool,
}

impl Default for Counter {
    fn default() -> (r: Self)
        ensures
            r == (Counter { count: 0, preset: 0, done: false }),
    {
        Counter { count: 0, preset: 0, done: false }
    }
}

impl Counter {
    /// A counter at zero.
    pub fn new(preset: i32) -> (r: Self)
        ensures
            r == (Counter { count: 0, preset, done: false }),
    {
        Counter { count: 0, preset, done: false }
    }

    /// Count up; done once the preset is reached, and frozen then.
    pub fn increment(&mut self)
        requires
            !old(self).done ==> old(self).count < i32::MAX,
        ensures
            *final(self) == if old(self).done {
                *old(self)
            } else {
                Counter {
                    count: (old(self).count + 1) as i32,
                    done: old(self).count + 1 >= old(self).preset,
                    ..*old(self)
                }
            },
    {
        if self.done {
            return;
        }
        self.count = self.count + 1;
        if self.count >= self.preset {
            self.done = true;
        }
    }

    /// Count down; done once zero is reached, and frozen then.
    pub fn decrement(&mut self)
        requires
            !old(self).done ==> old(self).count > i32::MIN,
        ensures
            *final(self) == if old(self).done {
                *old(self)
            } else {
                Counter {
                    count: if old(self).count - 1 <= 0 {
                        0
                    } else {
                        (old(self).count - 1) as i32
                    },
                    done: old(self).count - 1 <= 0,
                    ..*old(self)
                }
            },
    {
        if self.done {
            return;
        }
        self.count = self.count - 1;
        if self.count <= 0 {
            self.count = 0;
            self.done = true;
        }
    }

    /// Back to zero, same preset.
    pub fn reset(&mut self)
        ensures
            *final(self) == (Counter { count: 0, done: false, ..*old(self) }),
    {
        self.count = 0;
        self.done = false;
    }

    /// Back to zero with a new preset.
    pub fn reset_to(&mut self, new_preset: i32)
        ensures
            *final(self) == (Counter { count: 0, preset: new_preset, done: false }),
    {
        self.preset = new_preset;
        self.reset();
    }
}

/// `RisingEdge` for pool membership: which entities appeared since the last
/// call? Replication converges state, but one-shot reactions — sounds,
/// particles — need the edge. The first call primes silently: a join
/// shouldn't replay every standing entity as if it just happened.
pub struct Births {
    seen: Pool<bool>,
    primed: bool,
}

/// The ids among these not in a set, in order.
pub open spec fn newcomers(ids: Seq<Id>, seen: Set<Id>) -> Seq<Id>
    decreases ids.len(),
{
    if ids.len() == 0 {
        ids
    } else {
        let before = newcomers(ids.drop_last(), seen);
        if seen.contains(ids.last()) {
            before
        } else {
            before.push(ids.last())
        }
    }
}

impl Births {
    /// The ids seen last time.
    pub closed spec fn known(&self) -> Set<Id> {
        Set::new(|id: Id| self.seen.has(id))
    }

    /// Whether a first call was made.
    pub closed spec fn started(&self) -> bool {
        self.primed
    }

    /// The set of seen ids is well-formed.
    pub closed spec fn wf(&self) -> bool {
        self.seen.wf()
    }

    /// Nothing seen.
    pub fn new() -> (r: Self)
        ensures
            r.wf(),
            r.known() == Set::<Id>::empty(),
            !r.started(),
    {
        let r = Births { seen: Pool::new(), primed: false };
        assert(r.known() =~= Set::<Id>::empty());
        r
    }

    /// Ids present in `pool` that weren't present last call; ids removed
    /// since are forgotten, so a recycled slot's next occupant still counts
    /// as born.
    pub fn drain<T>(&mut self, pool: &Pool<T>) -> (r: Vec<Id>)
        requires
            old(self).wf(),
            pool.wf(),
        ensures
            final(self).wf(),
            final(self).started(),
            final(self).known() == pool.dense_ids().to_set(),
            r@ == if old(self).started() {
                newcomers(pool.dense_ids(), old(self).known())
            } else {
                Seq::empty()
            },
    {
        let ghost known = self.known();
        proof {
            pool.wf_columns_agree();
        }
        let ids: &[Id] = pool.ids();
        let mut born: Vec<Id> = Vec::new();
        let mut now: Pool<bool> = Pool::new();
        let mut i: usize = 0;
        assert(ids@.take(0) =~= Seq::<Id>::empty());
        while i < ids.len()
            invariant
                self.seen.wf(),
                now.wf(),
                pool.wf(),
                known == Set::new(|id: Id| self.seen.has(id)),
                ids@ == pool.dense_ids(),
                forall|a: int, b: int|
                    0 <= a < ids@.len() && 0 <= b < ids@.len() && a != b ==> (
                    #[trigger] ids@[a]).slot_of() != (#[trigger] ids@[b]).slot_of(),
                i <= ids@.len(),
                born@ == if self.primed {
                    newcomers(ids@.take(i as int), known)
                } else {
                    Seq::empty()
                },
                forall|id: Id| #[trigger] now.has(id) <==> ids@.take(i as int).contains(id),
            decreases ids@.len() - i,
        {
            let id: Id = ids[i];
            proof {
                let next = ids@.take(i + 1);
                assert(next.drop_last() =~= ids@.take(i as int));
                assert(next =~= ids@.take(i as int).push(id));
            }
            if !self.seen.contains(id) && self.primed {
                born.push(id);
            }
            let ghost before = now;
            now.add(id, true);
            proof {
                assert forall|x: Id| #[trigger] now.has(x) <==> ids@.take(i + 1).contains(x) by {
                    crate::sort::contains_push(ids@.take(i as int), id, x);
                    if before.has(x) && x.slot_of() == id.slot_of() {
                        let k = choose|k: int|
                            0 <= k < ids@.take(i as int).len() && ids@.take(i as int)[k] == x;
                        assert(ids@[k].slot_of() != ids@[i as int].slot_of());
                    }
                    if x.slot_of() != id.slot_of() {
                        assert(now.has(x) == before.has(x));
                    }
                }
            }
            i += 1;
        }
        assert(ids@.take(i as int) =~= ids@);
        self.seen = now;
        self.primed = true;
        assert(self.known() =~= pool.dense_ids().to_set());
        born
    }
}

impl Default for Births {
    fn default() -> (r: Self)
        ensures
            r.wf(),
            r.known() == Set::<Id>::empty(),
            !r.started(),
    {
        Births::new()
    }
}

/// An entity is born once: nothing present at one call is reported at the
/// next.
pub proof fn born_once(ids: Seq<Id>, seen: Set<Id>, id: Id)
    requires
        seen.contains(id),
    ensures
        !newcomers(ids, seen).contains(id),
    decreases ids.len(),
{
    if ids.len() > 0 {
        born_once(ids.drop_last(), seen, id);
        let before = newcomers(ids.drop_last(), seen);
        if !seen.contains(ids.last()) {
            crate::sort::contains_push(before, ids.last(), id);
        }
    }
}

/// Deterministic xorshift generator: same seed, same sequence, on every
/// machine.
#[derive(Clone, Copy, Debug, PartialEq, Eq, Structural)]
pub struct Rng {
    pub state: u32,
}

/// The state after one step.
pub open spec fn xorshift(x: u32) -> u32 {
    let a = x ^ (x << 13u32);
    let b = a ^ (a >> 17u32);
    b ^ (b << 5u32)
}

impl Rng {
    /// A generator; a zero seed (the one fixed point) becomes 1.
    pub fn new(seed: u32) -> (r: Self)
        ensures
            r.state == if seed == 0 {
                1
            } else {
                seed
            },
    {
        Rng {
            state: if seed == 0 {
                1
            } else {
                seed
            },
        }
    }

    /// The next number.
    pub fn next_u32(&mut self) -> (r: u32)
        ensures
            r == xorshift(old(self).state),
            final(self).state == r,
    {
        let mut x: u32 = self.state;
        x = x ^ (x << 13u32);
        x = x ^ (x >> 17u32);
        x = x ^ (x << 5u32);
        self.state = x;
        x
    }
}

impl Default for Rng {
    fn default() -> (r: Self)
        ensures
            r.state == 42,
    {
        Rng::new(42)
    }
}

/// The generator never gets stuck: from a nonzero state every step gives a
/// nonzero number, and no two states lead to the same one.
pub proof fn xorshift_never_sticks(x: u32, y: u32)
    ensures
        x != 0 ==> xorshift(x) != 0,
        xorshift(x) == xorshift(y) ==> x == y,
{
    assert(x != 0 ==> ({
        let a = x ^ (x << 13u32);
        let b = a ^ (a >> 17u32);
        (b ^ (b << 5u32)) != 0
    })) by (bit_vector);
    assert(({
        let a = x ^ (x << 13u32);
        let b = a ^ (a >> 17u32);
        b ^ (b << 5u32)
    }) == ({
        let a = y ^ (y << 13u32);
        let b = a ^ (a >> 17u32);
        b ^ (b << 5u32)
    }) ==> x == y) by (bit_vector);
}

/// Newcomers are exactly the ids not seen before, in order.
pub proof fn newcomers_are_the_unseen(ids: Seq<Id>, seen: Set<Id>) -> (at: Seq<int>)
    ensures
        newcomers(ids, seen).len() == at.len(),
        forall|k: int|
            0 <= k < at.len() ==> 0 <= #[trigger] at[k] < ids.len() && newcomers(ids, seen)[k]
                == ids[at[k]],
        forall|j: int, k: int| 0 <= j < k < at.len() ==> (#[trigger] at[j]) < (#[trigger] at[k]),
        forall|i: int|
            0 <= i < ids.len() ==> (#[trigger] at.contains(i) <==> !seen.contains(ids[i])),
    decreases ids.len(),
{
    if ids.len() == 0 {
        Seq::empty()
    } else {
        let init = ids.drop_last();
        let before = newcomers_are_the_unseen(init, seen);
        let n = ids.len() - 1;
        let at = if !seen.contains(ids[n]) {
            before.push(n)
        } else {
            before
        };
        let out = newcomers(ids, seen);
        assert forall|k: int| 0 <= k < at.len() implies 0 <= #[trigger] at[k] < ids.len() && out[k]
            == ids[at[k]] by {
            if k < before.len() {
                assert(at[k] == before[k]);
                assert(init[before[k]] == ids[at[k]]);
            }
        }
        assert forall|j: int, k: int| 0 <= j < k < at.len() implies (#[trigger] at[j]) < (
        #[trigger] at[k]) by {
            assert(at[j] == before[j]);
            if k < before.len() {
                assert(at[k] == before[k]);
            }
        }
        assert forall|i: int| 0 <= i < ids.len() implies (#[trigger] at.contains(i)
            <==> !seen.contains(ids[i])) by {
            crate::sort::contains_push(before, n, i);
            if i < n {
                assert(before.contains(i) <==> !seen.contains(init[i]));
            } else if before.contains(i) {
                let k = choose|k: int| 0 <= k < before.len() && before[k] == i;
                assert(before[k] < init.len());
            }
        }
        at
    }
}

/// The generator is the 32-bit xorshift with the shifts 13, 17 and 5.
pub proof fn the_generator_shifts_by_13_17_5(x: u32, a: u32, b: u32)
    requires
        a == x ^ (x << 13u32),
        b == a ^ (a >> 17u32),
    ensures
        xorshift(x) == b ^ (b << 5u32),
{
}

} // verus!
