//! Generational peer-owned entity ids: 32-bit `[peer:8 | gen:8 | index:16]`.
//!
//! Indices recycle through a FIFO free list; each reuse bumps the slot's
//! generation, so stale handles fail the liveness/lookup check. On a
//! networked server, recycling is gated by the kernel's removal log: an
//! index is released only after every peer has acked the removal.
//! Peer 0 = server/single-player.

use std::collections::VecDeque;

use vstd::prelude::*;

use crate::paged::PagedArray;

verus! {

/// Width of the generation field.
pub const GEN_BITS: u32 = 8;

/// Width of the index field.
pub const INDEX_BITS: u32 = 16;

/// Largest index, and the mask that extracts it.
pub const INDEX_MASK: u32 = 65535;

/// An entity handle: owner peer, slot generation and slot index packed into
/// one word.
#[derive(Copy, Clone, PartialEq, Eq, Hash, Debug, Structural)]
pub struct Id(pub u32);

impl Id {
    /// The owner peer.
    pub open spec fn peer_of(self) -> int {
        self.0 as int / 0x100_0000
    }

    /// The slot's generation this handle was minted at.
    pub open spec fn generation_of(self) -> int {
        self.0 as int / 0x1_0000 % 256
    }

    /// The index inside the owner's space.
    pub open spec fn index_of(self) -> int {
        self.0 as int % 0x1_0000
    }

    /// The generation-less storage key `[peer:8 | index:16]`.
    pub open spec fn slot_of(self) -> u32 {
        (self.peer_of() * 0x1_0000 + self.index_of()) as u32
    }

    /// Pack the three fields.
    pub fn new(peer: u8, generation: u8, index: u32) -> (r: Self)
        requires
            index <= INDEX_MASK,
        ensures
            r.peer_of() == peer,
            r.generation_of() == generation,
            r.index_of() == index,
            r.0 == peer * 0x100_0000 + generation * 0x1_0000 + index,
    {
        let word: u32 = ((peer as u32) << (GEN_BITS + INDEX_BITS)) | ((generation as u32)
            << INDEX_BITS) | index;
        proof {
            let p = peer as u32;
            let g = generation as u32;
            assert(((p << 24u32) | (g << 16u32) | index) == p * 0x100_0000 + g * 0x1_0000 + index)
                by (bit_vector)
                requires
                    p < 256,
                    g < 256,
                    index <= 65535,
            ;
        }
        Id(word)
    }

    /// The owner peer.
    pub fn peer(self) -> (r: u8)
        ensures
            r == self.peer_of(),
    {
        let w: u32 = self.0;
        assert((w >> 24u32) == w / 0x100_0000 && (w >> 24u32) < 256) by (bit_vector);
        (w >> (GEN_BITS + INDEX_BITS)) as u8
    }

    /// The generation field.
    pub fn generation(self) -> (r: u8)
        ensures
            r == self.generation_of(),
    {
        let w: u32 = self.0;
        assert(((w >> 16u32) as u8) == w / 0x1_0000 % 256) by (bit_vector);
        #[verifier::truncate]
        let g: u8 = (w >> INDEX_BITS) as u8;
        g
    }

    /// The index field.
    pub fn index(self) -> (r: u32)
        ensures
            r == self.index_of(),
            r <= INDEX_MASK,
    {
        let w: u32 = self.0;
        assert((w & 65535u32) == w % 0x1_0000) by (bit_vector);
        w & INDEX_MASK
    }

    /// Generation-less storage key `[peer:8 | index:16]` — what sparse
    /// arrays and the delta cursors identify entities by.
    pub fn slot(self) -> (r: u32)
        ensures
            r == self.slot_of(),
            r < 0x100_0000,
    {
        let p: u32 = self.peer() as u32;
        let i: u32 = self.index();
        assert(((p << 16u32) | i) == p * 0x1_0000 + i) by (bit_vector)
            requires
                p < 256,
                i <= 65535,
        ;
        (p << INDEX_BITS) | i
    }
}

/// Two handles of one slot and one generation are the same handle.
pub proof fn slot_and_generation_identify(a: Id, b: Id)
    requires
        a.slot_of() == b.slot_of(),
        a.generation_of() == b.generation_of(),
    ensures
        a == b,
{
    let (x, y) = (a.0 as int, b.0 as int);
    assert(x == (x / 0x100_0000) * 0x100_0000 + (x / 0x1_0000 % 256) * 0x1_0000 + x % 0x1_0000);
    assert(y == (y / 0x100_0000) * 0x100_0000 + (y / 0x1_0000 % 256) * 0x1_0000 + y % 0x1_0000);
}

/// What an allocator knows, as plain mathematics: the generation of every
/// slot, the occupied slots, and per peer the free list and the high-water
/// mark.
#[verifier::ext_equal]
pub struct IdSpace {
    pub gens: Map<u32, u8>,
    pub live: Set<u32>,
    pub free: Map<u8, Seq<u16>>,
    pub high: Map<u8, int>,
}

impl IdSpace {
    /// Nothing handed out, every generation at zero.
    pub open spec fn fresh() -> IdSpace {
        IdSpace {
            gens: Map::new(|s: u32| true, |s: u32| 0u8),
            live: Set::empty(),
            free: Map::new(|p: u8| true, |p: u8| Seq::<u16>::empty()),
            high: Map::new(|p: u8| true, |p: u8| 0int),
        }
    }

    /// A handle is alive while its slot is occupied at its generation.
    pub open spec fn alive(self, id: Id) -> bool {
        self.live.contains(id.slot_of()) && self.gens[id.slot_of()] == id.generation_of()
    }

    /// Whether `peer`'s space can hand out another id.
    pub open spec fn has_room(self, peer: u8) -> bool {
        self.free[peer].len() > 0 || self.high[peer] <= INDEX_MASK
    }

    /// The index the next id for `peer` carries: the oldest released one,
    /// else a fresh one.
    pub open spec fn next_index(self, peer: u8) -> int {
        if self.free[peer].len() > 0 {
            self.free[peer][0] as int
        } else {
            self.high[peer]
        }
    }

    /// The slot of that index.
    pub open spec fn next_slot(self, peer: u8) -> u32 {
        (peer * 0x1_0000 + self.next_index(peer)) as u32
    }

    /// The id the next allocation for `peer` returns.
    pub open spec fn next_id(self, peer: u8) -> Id {
        Id(
            (peer * 0x100_0000 + self.gens[self.next_slot(peer)] * 0x1_0000 + self.next_index(
                peer,
            )) as u32,
        )
    }

    /// The space after that allocation.
    pub open spec fn add(self, peer: u8) -> IdSpace {
        IdSpace {
            live: self.live.insert(self.next_slot(peer)),
            free: if self.free[peer].len() > 0 {
                self.free.insert(peer, self.free[peer].drop_first())
            } else {
                self.free
            },
            high: if self.free[peer].len() > 0 {
                self.high
            } else {
                self.high.insert(peer, self.high[peer] + 1)
            },
            ..self
        }
    }

    /// The space after accepting a remote handle.
    pub open spec fn sync(self, id: Id) -> IdSpace {
        IdSpace {
            gens: self.gens.insert(id.slot_of(), id.generation_of() as u8),
            live: self.live.insert(id.slot_of()),
            ..self
        }
    }

    /// The space after the handle's entity died: unoccupied, generation
    /// bumped past the handle.
    pub open spec fn kill(self, id: Id) -> IdSpace {
        IdSpace {
            gens: self.gens.insert(id.slot_of(), ((id.generation_of() + 1) % 256) as u8),
            live: self.live.remove(id.slot_of()),
            ..self
        }
    }

    /// The space after the handle's index joined its peer's free list.
    pub open spec fn release(self, id: Id) -> IdSpace {
        let p = id.peer_of() as u8;
        IdSpace { free: self.free.insert(p, self.free[p].push(id.index_of() as u16)), ..self }
    }

    /// Per-peer allocation discipline: the free list holds each index once,
    /// everything on it was handed out and is unoccupied, and nothing past
    /// the high-water mark is occupied.
    pub open spec fn sound(self, peer: u8) -> bool {
        &&& self.high[peer] >= 0
        &&& self.free[peer].no_duplicates()
        &&& forall|i: int|
            0 <= i < self.free[peer].len() ==> (#[trigger] self.free[peer][i]) < self.high[peer]
                && !self.live.contains((peer * 0x1_0000 + self.free[peer][i]) as u32)
        &&& forall|k: int|
            self.high[peer] <= k <= INDEX_MASK ==> !#[trigger] self.live.contains(
                (peer * 0x1_0000 + k) as u32,
            )
    }
}

/// The handle an allocation returns belongs to the asking peer, carries the
/// slot's current generation and is alive afterwards.
pub proof fn next_id_fields(space: IdSpace, peer: u8)
    requires
        space.has_room(peer),
        space.high[peer] >= 0,
    ensures
        space.next_id(peer).peer_of() == peer,
        space.next_id(peer).index_of() == space.next_index(peer),
        space.next_id(peer).generation_of() == space.gens[space.next_slot(peer)],
        space.next_id(peer).slot_of() == space.next_slot(peer),
        space.add(peer).alive(space.next_id(peer)),
{
}

/// Under the discipline an allocation never hands out a slot that is in
/// use, so no two live entities share a slot, and the discipline holds
/// afterwards.
pub proof fn add_is_exclusive(space: IdSpace, peer: u8)
    requires
        space.sound(peer),
        space.has_room(peer),
    ensures
        !space.live.contains(space.next_slot(peer)),
        space.add(peer).sound(peer),
        forall|id: Id| #[trigger] space.alive(id) ==> id != space.next_id(peer) && space.add(
            peer,
        ).alive(id),
{
    next_id_fields(space, peer);
    let out = space.add(peer);
    if space.free[peer].len() > 0 {
        assert(space.free[peer][0] < space.high[peer]);
        assert forall|i: int| 0 <= i < out.free[peer].len() implies (#[trigger] out.free[peer][i])
            < out.high[peer] && !out.live.contains((peer * 0x1_0000 + out.free[peer][i]) as u32) by {
            assert(out.free[peer][i] == space.free[peer][i + 1]);
        }
        assert forall|k: int| out.high[peer] <= k <= INDEX_MASK implies !#[trigger] out.live.contains(
            (peer * 0x1_0000 + k) as u32,
        ) by {
            assert(!space.live.contains((peer * 0x1_0000 + k) as u32));
        }
    } else {
        assert(!space.live.contains((peer * 0x1_0000 + space.high[peer]) as u32));
        assert forall|k: int| out.high[peer] <= k <= INDEX_MASK implies !#[trigger] out.live.contains(
            (peer * 0x1_0000 + k) as u32,
        ) by {
            assert(!space.live.contains((peer * 0x1_0000 + k) as u32));
        }
    }
}

/// Killing keeps the discipline, and the handle is dead at once.
pub proof fn kill_keeps_sound(space: IdSpace, id: Id, peer: u8)
    requires
        space.sound(peer),
    ensures
        space.kill(id).sound(peer),
        !space.kill(id).alive(id),
{
    let out = space.kill(id);
    assert forall|i: int| 0 <= i < out.free[peer].len() implies (#[trigger] out.free[peer][i])
        < out.high[peer] && !out.live.contains((peer * 0x1_0000 + out.free[peer][i]) as u32) by {
        assert(!space.live.contains((peer * 0x1_0000 + space.free[peer][i]) as u32));
    }
    assert forall|k: int| out.high[peer] <= k <= INDEX_MASK implies !#[trigger] out.live.contains(
        (peer * 0x1_0000 + k) as u32,
    ) by {
        assert(!space.live.contains((peer * 0x1_0000 + k) as u32));
    }
}

/// Releasing a dead, handed-out index that is not yet on the free list keeps
/// the discipline.
pub proof fn release_keeps_sound(space: IdSpace, id: Id, peer: u8)
    requires
        space.sound(peer),
        id.peer_of() == peer ==> id.index_of() < space.high[peer] && !space.live.contains(
            id.slot_of(),
        ) && !space.free[peer].contains(id.index_of() as u16),
    ensures
        space.release(id).sound(peer),
{
    let out = space.release(id);
    if id.peer_of() == peer {
        assert(out.free[peer] == space.free[peer].push(id.index_of() as u16));
        assert forall|i: int| 0 <= i < out.free[peer].len() implies (#[trigger] out.free[peer][i])
            < out.high[peer] && !out.live.contains((peer * 0x1_0000 + out.free[peer][i]) as u32) by {
            if i < space.free[peer].len() {
                assert(out.free[peer][i] == space.free[peer][i]);
            }
        }
        assert forall|k: int| out.high[peer] <= k <= INDEX_MASK implies !#[trigger] out.live.contains(
            (peer * 0x1_0000 + k) as u32,
        ) by {
            assert(!space.live.contains((peer * 0x1_0000 + k) as u32));
        }
    } else {
        assert(out.free[peer] == space.free[peer]);
    }
}

/// A slot's next occupant carries the bumped generation, so the dead handle
/// stays dead after the index is reused.
pub proof fn stale_handle_stays_dead(space: IdSpace, id: Id, peer: u8)
    requires
        space.sound(peer),
        space.alive(id),
        id.peer_of() == peer,
        space.free[peer].len() == 0,
        space.gens.dom() == Set::<u32>::full(),
    ensures
        space.kill(id).release(id).next_index(peer) == id.index_of(),
        space.kill(id).release(id).next_id(peer).generation_of() == (id.generation_of() + 1) % 256,
        !space.kill(id).release(id).add(peer).alive(id),
{
    let after = space.kill(id).release(id);
    assert(after.free[peer] == space.free[peer].push(id.index_of() as u16));
    assert(after.free[peer][0] == id.index_of());
    assert(after.next_slot(peer) == id.slot_of());
    assert(after.gens[id.slot_of()] == ((id.generation_of() + 1) % 256) as u8);
    let g = after.gens[id.slot_of()];
    let w = peer * 0x100_0000 + g * 0x1_0000 + id.index_of();
    assert(w / 0x1_0000 % 256 == g as int);
}

/// A handle whose slot has moved past its generation is dead, and stays so
/// through every allocation and release and through the death of any other
/// slot's occupant: only the slot's own next deaths, or a remote handle of
/// the slot, touch its generation again. Killing makes every handle such.
pub proof fn past_generations_stay_dead(space: IdSpace, id: Id, peer: u8, other: Id)
    ensures
        space.kill(id).gens[id.slot_of()] != id.generation_of(),
        space.gens[id.slot_of()] != id.generation_of() ==> {
            &&& !space.alive(id)
            &&& space.add(peer).gens[id.slot_of()] != id.generation_of()
            &&& !space.add(peer).alive(id)
            &&& space.release(other).gens[id.slot_of()] != id.generation_of()
            &&& !space.release(other).alive(id)
            &&& other.slot_of() != id.slot_of() ==> {
                &&& space.kill(other).gens[id.slot_of()] != id.generation_of()
                &&& !space.kill(other).alive(id)
                &&& space.sync(other).gens[id.slot_of()] != id.generation_of()
                &&& !space.sync(other).alive(id)
            }
        },
{
}

/// One peer's index space.
pub struct PeerSlots {
    next_index: u32,
    free: VecDeque<u16>,
}

/// Hands out ids per peer space and tracks which handles are alive.
pub struct IdAllocator {
    peers: Vec<PeerSlots>,
    gens: PagedArray<u8>,
    occupied: PagedArray<bool>,
}

impl View for IdAllocator {
    type V = IdSpace;

    closed spec fn view(&self) -> IdSpace {
        IdSpace {
            gens: Map::new(|s: u32| true, |s: u32| self.gens.at(s)),
            live: Set::new(|s: u32| self.occupied.at(s)),
            free: Map::new(|p: u8| true, |p: u8| self.peers@[p as int].free@),
            high: Map::new(|p: u8| true, |p: u8| self.peers@[p as int].next_index as int),
        }
    }
}

impl IdAllocator {
    /// All 256 peer spaces exist and no high-water mark passes the index
    /// range.
    pub closed spec fn wf(&self) -> bool {
        &&& self.peers@.len() == 256
        &&& self.gens.wf()
        &&& self.occupied.wf()
        &&& forall|p: int|
            0 <= p < 256 ==> (#[trigger] self.peers@[p]).next_index <= 0x1_0000
    }

    /// The four maps of a well-formed allocator are total.
    pub proof fn wf_total(&self)
        requires
            self.wf(),
        ensures
            forall|s: u32| #[trigger] self@.gens.contains_key(s),
            forall|p: u8| #[trigger] self@.free.contains_key(p),
            forall|p: u8| #[trigger] self@.high.contains_key(p) && 0 <= self@.high[p] <= 0x1_0000,
    {
        assert forall|p: u8| #[trigger] self@.high.contains_key(p) && 0 <= self@.high[p]
            <= 0x1_0000 by {
            assert(self.peers@[p as int].next_index <= 0x1_0000);
        }
    }

    /// An allocator with nothing handed out.
    pub fn new() -> (r: Self)
        ensures
            r.wf(),
            r@ == IdSpace::fresh(),
    {
        let mut peers: Vec<PeerSlots> = Vec::with_capacity(256);
        while peers.len() < 256
            invariant
                peers@.len() <= 256,
                forall|p: int|
                    0 <= p < peers@.len() ==> (#[trigger] peers@[p]).next_index == 0
                        && peers@[p].free@ == Seq::<u16>::empty(),
            decreases 256 - peers@.len(),
        {
            peers.push(PeerSlots { next_index: 0, free: VecDeque::new() });
        }
        let r = IdAllocator {
            peers,
            gens: PagedArray::new(0u8),
            occupied: PagedArray::new(false),
        };
        assert(r@ =~= IdSpace::fresh());
        r
    }

    /// Whether `peer`'s space can hand out another id.
    pub fn room(&self, peer: u8) -> (r: bool)
        requires
            self.wf(),
        ensures
            r == self@.has_room(peer),
    {
        self.peers[peer as usize].free.len() > 0 || self.peers[peer as usize].next_index
            <= INDEX_MASK
    }

    /// Hand out an id in `peer`'s space: the oldest released index, or a
    /// fresh one.
    pub fn add(&mut self, peer: u8) -> (r: Id)
        requires
            old(self).wf(),
            old(self)@.has_room(peer),
        ensures
            final(self).wf(),
            r == old(self)@.next_id(peer),
            final(self)@ == old(self)@.add(peer),
    {
        broadcast use vstd::laws_eq::group_laws_eq;

        let mut slots: PeerSlots = PeerSlots { next_index: 0, free: VecDeque::new() };
        std::mem::swap(&mut slots, &mut self.peers[peer as usize]);
        let ghost before = slots.free@;
        let index: u32 = match slots.free.pop_front() {
            Some(i) => i as u32,
            None => {
                let i: u32 = slots.next_index;
                slots.next_index = i + 1;
                i
            },
        };
        assert(before.len() > 0 ==> slots.free@ =~= before.drop_first());
        self.peers.set(peer as usize, slots);
        let probe: Id = Id::new(peer, 0, index);
        let slot: u32 = probe.slot();
        let id: Id = Id::new(peer, self.gens.get(slot), index);
        self.occupied.set(slot, true);
        assert(self@ =~= old(self)@.add(peer));
        id
    }

    /// Whether `id` names a live entity.
    pub fn alive(&self, id: Id) -> (r: bool)
        requires
            self.wf(),
        ensures
            r == self@.alive(id),
    {
        let slot: u32 = id.slot();
        self.occupied.get(slot) && self.gens.get(slot) == id.generation()
    }

    /// Accept a remote id: mark it alive locally and record its generation.
    /// Safe because remote ids live in another peer's index space — the
    /// local allocator never hands them out.
    pub fn sync(&mut self, id: Id)
        requires
            old(self).wf(),
        ensures
            final(self).wf(),
            final(self)@ == old(self)@.sync(id),
            final(self)@.alive(id),
    {
        broadcast use vstd::laws_eq::group_laws_eq;

        let slot: u32 = id.slot();
        self.occupied.set(slot, true);
        self.gens.set(slot, id.generation());
        assert(self@ =~= old(self)@.sync(id));
    }

    /// Mark dead and bump the generation so stale handles fail immediately.
    /// Does NOT recycle the index — see `release`.
    pub fn kill(&mut self, id: Id)
        requires
            old(self).wf(),
        ensures
            final(self).wf(),
            final(self)@ == old(self)@.kill(id),
            !final(self)@.alive(id),
    {
        broadcast use vstd::laws_eq::group_laws_eq;

        let slot: u32 = id.slot();
        self.occupied.set(slot, false);
        self.gens.set(slot, id.generation().wrapping_add(1));
        assert(self@ =~= old(self)@.kill(id));
    }

    /// Return the index to the free list for reuse. Called by the kernel
    /// when the removal log prunes (i.e. all peers acked the removal).
    pub fn release(&mut self, id: Id)
        requires
            old(self).wf(),
        ensures
            final(self).wf(),
            final(self)@ == old(self)@.release(id),
    {
        let peer: usize = id.peer() as usize;
        let mut slots: PeerSlots = PeerSlots { next_index: 0, free: VecDeque::new() };
        std::mem::swap(&mut slots, &mut self.peers[peer]);
        slots.free.push_back(id.index() as u16);
        self.peers.set(peer, slots);
        assert(self@ =~= old(self)@.release(id));
    }
}

impl Default for IdAllocator {
    fn default() -> (r: Self)
        ensures
            r.wf(),
            r@ == IdSpace::fresh(),
    {
        Self::new()
    }
}

/// A fresh space holds nobody, and its first index for any peer is 0 at
/// generation 0.
pub proof fn a_fresh_space_is_empty(id: Id, peer: u8)
    ensures
        !IdSpace::fresh().alive(id),
        IdSpace::fresh().has_room(peer),
        IdSpace::fresh().next_id(peer).index_of() == 0,
        IdSpace::fresh().next_id(peer).generation_of() == 0,
        IdSpace::fresh().next_id(peer).peer_of() == peer,
{
}

/// Only occupied slots hold the living, one handle each: the one at the
/// slot's generation.
pub proof fn the_living_occupy_their_slots(space: IdSpace, a: Id, b: Id)
    requires
        space.alive(a),
    ensures
        space.live.contains(a.slot_of()),
        space.alive(b) && a.slot_of() == b.slot_of() ==> a == b,
{
    if space.alive(b) && a.slot_of() == b.slot_of() {
        slot_and_generation_identify(a, b);
    }
}

/// Released indices come back oldest first, each once; without any, the next
/// index is one never handed out; other peers' lists and marks stay.
pub proof fn indices_come_back_oldest_first(space: IdSpace, peer: u8, id: Id)
    requires
        forall|p: u8| #[trigger] space.free.contains_key(p),
        forall|p: u8| #[trigger] space.high.contains_key(p),
    ensures
        ({
            let out = space.add(peer);
            let back = space.release(id);
            let own = id.peer_of() as u8;
            let n = space.free[peer].len();
            &&& n > 0 ==> space.next_index(peer) == space.free[peer][0] && out.free[peer].len() == n
                - 1 && out.high[peer] == space.high[peer]
            &&& n > 0 ==> forall|k: int|
                0 <= k < n - 1 ==> #[trigger] out.free[peer][k] == space.free[peer][k + 1]
            &&& n == 0 ==> space.next_index(peer) == space.high[peer] && out.free[peer].len() == 0
                && out.high[peer] == space.high[peer] + 1
            &&& forall|p: u8|
                p != peer ==> #[trigger] out.free[p] == space.free[p] && out.high[p]
                    == space.high[p]
            &&& back.free[own].len() == space.free[own].len() + 1
            &&& back.free[own].last() == id.index_of()
            &&& forall|k: int|
                0 <= k < space.free[own].len() ==> #[trigger] back.free[own][k]
                    == space.free[own][k]
            &&& forall|p: u8| p != own ==> #[trigger] back.free[p] == space.free[p]
        }),
{
    assert(id.index_of() <= u16::MAX);
    assert(0 <= id.peer_of() <= 255);
}

/// An allocation makes its id alive and changes no other's life; so does
/// accepting a remote handle, but for whoever had its slot.
pub proof fn allocations_touch_one_slot(space: IdSpace, peer: u8, remote: Id, other: Id)
    requires
        space.has_room(peer),
        0 <= space.high[peer],
        !space.live.contains(space.next_slot(peer)),
    ensures
        space.add(peer).alive(space.next_id(peer)),
        space.add(peer).alive(other) <==> space.alive(other) || other == space.next_id(peer),
        space.sync(remote).alive(remote),
        other.slot_of() != remote.slot_of() ==> (space.sync(remote).alive(other) <==> space.alive(
            other,
        )),
        other.slot_of() == remote.slot_of() && other != remote ==> !space.sync(remote).alive(other),
        space.sync(remote).free == space.free,
        space.sync(remote).high == space.high,
{
    next_id_fields(space, peer);
    let id = space.next_id(peer);
    if space.add(peer).alive(other) && other.slot_of() == id.slot_of() {
        slot_and_generation_identify(other, id);
    }
    if other.slot_of() == remote.slot_of() && other != remote && other.generation_of()
        == remote.generation_of() {
        slot_and_generation_identify(other, remote);
    }
}

/// The fields of a handle are the parts of its word, and the slot its peer and
/// index.
pub proof fn handles_pack_their_fields(id: Id)
    ensures
        0 <= id.peer_of() <= 255,
        0 <= id.generation_of() <= 255,
        0 <= id.index_of() <= 65535,
        id.0 == id.peer_of() * 0x100_0000 + id.generation_of() * 0x1_0000 + id.index_of(),
        id.slot_of() == id.peer_of() * 0x1_0000 + id.index_of(),
{
    let x = id.0 as int;
    assert(x == (x / 0x100_0000) * 0x100_0000 + (x / 0x1_0000 % 256) * 0x1_0000 + x % 0x1_0000);
}

} // verus!
