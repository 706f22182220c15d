//! Duration-side helpers for replicated pools — "a duration of stuff kept
//! around", in two flavours. **TTL** (`pool_expire`): an entity whose row
//! hasn't been written for a lifetime is removed, which makes transient
//! facts safe as ordinary pool rows. **History** (`HistoryRing`): a window of
//! past ticks of a pool, so the server can rewind other entities to the view
//! an acting peer actually saw.

use std::collections::VecDeque;

use vstd::prelude::*;

use crate::id::Id;
use crate::kernel::{KernelView, Pm};
use crate::pool::{ErasedPool, Pool};

verus! {

/// The ids not written for more than `ttl` ticks, in dense order.
pub open spec fn expired(ids: Seq<Id>, ticks: Seq<u32>, now: u32, ttl: u32) -> Seq<Id>
    decreases ids.len(),
{
    if ids.len() == 0 {
        Seq::empty()
    } else {
        let before = expired(ids.drop_last(), ticks.drop_last(), now, ttl);
        if now > ticks.last() + ttl {
            before.push(ids.last())
        } else {
            before
        }
    }
}

/// Remove every entity whose row in `pool` was last written more than
/// `ttl_ticks` ago. Removal goes through the normal deferred path, so on a
/// server it replicates like any other. A write refreshes the lifetime.
/// Expiry removes the *entity*, not just the row.
pub fn pool_expire<P: ErasedPool, T>(pm: &mut Pm<P>, pool: &Pool<T>, ttl_ticks: u32)
    requires
        old(pm).wf(),
        pool.wf(),
    ensures
        final(pm).wf(),
        final(pm)@ == (KernelView {
            pending_removes: old(pm)@.pending_removes + expired(
                pool.dense_ids(),
                pool.dense_ticks(),
                old(pm)@.tick,
                ttl_ticks,
            ),
            ..old(pm)@
        }),
{
    let now: u32 = pm.tick();
    let ids: &[Id] = pool.ids();
    let ticks: &[u32] = pool.changed_ticks();
    proof {
        pool.wf_columns_agree();
    }
    let ghost k0 = pm@;
    let mut i: usize = 0;
    proof {
        assert(ids@.take(0) =~= Seq::<Id>::empty());
        assert(k0.pending_removes + Seq::<Id>::empty() =~= k0.pending_removes);
    }
    while i < ids.len()
        invariant
            pm.wf(),
            i <= ids@.len(),
            ids@.len() == ticks@.len(),
            now == k0.tick,
            pm@ == (KernelView {
                pending_removes: k0.pending_removes + expired(
                    ids@.take(i as int),
                    ticks@.take(i as int),
                    now,
                    ttl_ticks,
                ),
                ..k0
            }),
        decreases ids@.len() - i,
    {
        let ghost before = pm@.pending_removes;
        proof {
            assert(ids@.take(i + 1).drop_last() =~= ids@.take(i as int));
            assert(ticks@.take(i + 1).drop_last() =~= ticks@.take(i as int));
        }
        if now.saturating_sub(ticks[i]) > ttl_ticks {
            pm.id_remove(ids[i]);
            assert(pm@.pending_removes =~= k0.pending_removes + expired(
                ids@.take(i + 1),
                ticks@.take(i + 1),
                now,
                ttl_ticks,
            ));
        }
        i += 1;
    }
    proof {
        assert(ids@.take(i as int) =~= ids@);
        assert(ticks@.take(i as int) =~= ticks@);
    }
}

/// One recorded frame: the tick it is labelled with and the pool's rows.
pub struct PastFrame<T> {
    pub tick: u32,
    pub rows: Vec<(Id, T)>,
}

/// A recorded frame as plain values.
#[verifier::ext_equal]
pub struct PastView<T> {
    pub tick: u32,
    pub rows: Seq<(Id, T)>,
}

/// Labels rise strictly.
pub open spec fn labels_rise<T>(frames: Seq<PastView<T>>) -> bool {
    forall|i: int, j: int|
        0 <= i < j < frames.len() ==> (#[trigger] frames[i]).tick < (#[trigger] frames[j]).tick
}

/// The last `cap` frames.
pub open spec fn newest_frames<T>(frames: Seq<PastView<T>>, cap: nat) -> Seq<PastView<T>> {
    if frames.len() > cap {
        frames.skip(frames.len() - cap)
    } else {
        frames
    }
}

/// The frame a rewind to `tick` gets: the newest at or before it — or, when
/// the window starts later, the oldest.
pub open spec fn frame_for<T>(frames: Seq<PastView<T>>, tick: u32, at: int) -> bool {
    &&& 0 <= at < frames.len()
    &&& at == 0 || frames[at].tick <= tick
    &&& forall|j: int| at < j < frames.len() ==> (#[trigger] frames[j]).tick > tick
}

/// A bounded window of past pool frames, one per tick, oldest first.
///
/// Push once per tick; look up with `frame`, which clamps out-of-range ticks
/// to the window edge (a rewind deeper than the window is served the oldest
/// frame — bounded rewind, never a miss).
pub struct HistoryRing<T> {
    frames: VecDeque<PastFrame<T>>,
    cap: usize,
}

impl<T> View for HistoryRing<T> {
    type V = Seq<PastView<T>>;

    closed spec fn view(&self) -> Seq<PastView<T>> {
        self.frames@.map_values(
            |f: PastFrame<T>| PastView { tick: f.tick, rows: f.rows@ },
        )
    }
}

impl<T> HistoryRing<T> {
    /// How many frames the window holds.
    pub closed spec fn window(&self) -> nat {
        self.cap as nat
    }

    /// At least one frame fits, no more than that are kept, labels rise.
    pub open spec fn wf(&self) -> bool {
        &&& self.window() >= 1
        &&& self@.len() <= self.window()
        &&& labels_rise(self@)
    }

    /// A ring keeping at most `cap` frames (at least 1).
    pub fn new(cap: usize) -> (r: Self)
        ensures
            r.wf(),
            r@ == Seq::<PastView<T>>::empty(),
            r.window() == if cap == 0 {
                1
            } else {
                cap as nat
            },
    {
        let r = HistoryRing {
            frames: VecDeque::new(),
            cap: if cap == 0 {
                1
            } else {
                cap
            },
        };
        assert(r@ =~= Seq::<PastView<T>>::empty());
        r
    }

    /// Drop the oldest frames past the cap.
    fn trim(&mut self)
        ensures
            final(self).cap == old(self).cap,
            final(self)@ == newest_frames(old(self)@, old(self).cap as nat),
    {
        let ghost all = self@;
        let ghost mut k: int = 0;
        assert(all.skip(0) =~= all);
        while self.frames.len() > self.cap
            invariant
                self.cap == old(self).cap,
                0 <= k <= all.len(),
                self@ == all.skip(k),
                k > 0 ==> all.len() - k >= self.cap,
            decreases self.frames@.len(),
        {
            let ghost before = self.frames@;
            assert(self@.len() == before.len());
            let _ = self.frames.pop_front();
            proof {
                assert forall|i: int| 0 <= i < self@.len() implies #[trigger] self@[i] == all.skip(
                    k + 1,
                )[i] by {
                    assert(self.frames@[i] == before[i + 1]);
                    assert(all.skip(k)[i + 1] == all[k + i + 1]);
                }
                assert(self@ =~= all.skip(k + 1));
                k = k + 1;
            }
        }
        assert(self@ =~= newest_frames(all, self.cap as nat));
    }

    /// Adjust the window size; excess oldest frames drop immediately.
    pub fn cap_set(&mut self, cap: usize)
        requires
            old(self).wf(),
        ensures
            final(self).wf(),
            final(self).window() == if cap == 0 {
                1
            } else {
                cap as nat
            },
            final(self)@ == newest_frames(old(self)@, final(self).window()),
    {
        self.cap = if cap == 0 {
            1
        } else {
            cap
        };
        let ghost all = self@;
        self.trim();
        proof {
            newest_rise(all, self.cap as nat);
        }
    }

    /// Record the pool's rows as the frame for `tick`. A label at or below
    /// the newest is ignored (frames are facts about completed ticks — they
    /// don't rewrite).
    pub fn push(&mut self, tick: u32, frame: Vec<(Id, T)>)
        requires
            old(self).wf(),
        ensures
            final(self).wf(),
            final(self).window() == old(self).window(),
            final(self)@ == if old(self)@.len() > 0 && tick <= old(self)@.last().tick {
                old(self)@
            } else {
                newest_frames(
                    old(self)@.push(PastView { tick, rows: frame@ }),
                    old(self).window(),
                )
            },
    {
        let ghost before = self@;
        let n: usize = self.frames.len();
        if n > 0 && tick <= self.frames[n - 1].tick {
            return;
        }
        let ghost rows = frame@;
        self.frames.push_back(PastFrame { tick, rows: frame });
        proof {
            assert(self@ =~= before.push(PastView { tick, rows }));
            let all = self@;
            assert forall|i: int, j: int| 0 <= i < j < all.len() implies (#[trigger] all[i]).tick < (
            #[trigger] all[j]).tick by {
                if j == before.len() && i < before.len() - 1 {
                    assert(before[i].tick < before[before.len() - 1].tick);
                }
            }
            newest_rise(all, self.cap as nat);
        }
        self.trim();
    }

    /// Position of the frame a rewind to `tick` gets.
    fn locate(&self, tick: u32) -> (r: usize)
        requires
            self.wf(),
            self@.len() > 0,
        ensures
            frame_for(self@, tick, r as int),
    {
        // Binary search for the first frame labelled past `tick`.
        let mut lo: usize = 0;
        let mut hi: usize = self.frames.len();
        while lo < hi
            invariant
                self.wf(),
                lo <= hi <= self@.len(),
                forall|j: int| 0 <= j < lo ==> (#[trigger] self@[j]).tick <= tick,
                forall|j: int| hi <= j < self@.len() ==> (#[trigger] self@[j]).tick > tick,
            decreases hi - lo,
        {
            let mid: usize = lo + (hi - lo) / 2;
            assert(self@[mid as int].tick == self.frames@[mid as int].tick);
            if self.frames[mid].tick <= tick {
                assert forall|j: int| 0 <= j < mid + 1 implies (#[trigger] self@[j]).tick
                    <= tick by {
                    if j < mid {
                        assert(self@[j].tick < self@[mid as int].tick);
                    }
                }
                lo = mid + 1;
            } else {
                assert forall|j: int| mid <= j < self@.len() implies (#[trigger] self@[j]).tick
                    > tick by {
                    if j > mid {
                        assert(self@[mid as int].tick < self@[j].tick);
                    }
                }
                hi = mid;
            }
        }
        if lo == 0 {
            0
        } else {
            lo - 1
        }
    }

    /// The frame recorded at `tick`, clamped to the window: older than the
    /// window serves the oldest frame, newer than the newest serves the
    /// newest. `None` only before anything was pushed.
    pub fn frame(&self, tick: u32) -> (r: Option<&[(Id, T)]>)
        requires
            self.wf(),
        ensures
            match r {
                Some(rows) => exists|at: int|
                    #[trigger] frame_for(self@, tick, at) && rows@ == self@[at].rows,
                None => self@.len() == 0,
            },
    {
        if self.frames.len() == 0 {
            return None;
        }
        let at: usize = self.locate(tick);
        Some(self.frames[at].rows.as_slice())
    }

    /// The newest recorded tick label, if any.
    pub fn newest(&self) -> (r: Option<u32>)
        ensures
            r == if self@.len() == 0 {
                None
            } else {
                Some(self@.last().tick)
            },
    {
        let n: usize = self.frames.len();
        if n == 0 {
            None
        } else {
            Some(self.frames[n - 1].tick)
        }
    }

    /// The oldest recorded tick label, if any.
    pub fn oldest(&self) -> (r: Option<u32>)
        ensures
            r == if self@.len() == 0 {
                None
            } else {
                Some(self@[0].tick)
            },
    {
        if self.frames.len() == 0 {
            None
        } else {
            Some(self.frames[0].tick)
        }
    }
}

/// Dropping the oldest keeps labels rising.
proof fn newest_rise<T>(frames: Seq<PastView<T>>, cap: nat)
    requires
        labels_rise(frames),
    ensures
        labels_rise(newest_frames(frames, cap)),
{
    let kept = newest_frames(frames, cap);
    if frames.len() > cap {
        let d = frames.len() - cap;
        assert forall|i: int, j: int| 0 <= i < j < kept.len() implies (#[trigger] kept[i]).tick < (
        #[trigger] kept[j]).tick by {
            assert(kept[i] == frames[i + d] && kept[j] == frames[j + d]);
        }
    }
}

/// A rewind is answered by exactly one frame.
pub proof fn rewind_is_unambiguous<T>(frames: Seq<PastView<T>>, tick: u32, a: int, b: int)
    requires
        labels_rise(frames),
        frame_for(frames, tick, a),
        frame_for(frames, tick, b),
    ensures
        a == b,
{
    if a < b {
        assert(frames[b].tick > tick);
    } else if b < a {
        assert(frames[a].tick > tick);
    }
}

/// A tick inside the window gets its own frame; older than the window gets
/// the oldest, newer than the newest gets the newest.
pub proof fn rewind_clamps_to_the_window<T>(frames: Seq<PastView<T>>, tick: u32, at: int)
    requires
        labels_rise(frames),
        frame_for(frames, tick, at),
    ensures
        forall|i: int| 0 <= i < frames.len() && (#[trigger] frames[i]).tick == tick ==> at == i,
        tick < frames[0].tick ==> at == 0,
        tick >= frames.last().tick ==> at == frames.len() - 1,
{
    assert forall|i: int| 0 <= i < frames.len() && (#[trigger] frames[i]).tick == tick implies at
        == i by {
        if i > at {
            assert(frames[i].tick > tick);
        } else if i < at {
            assert(frames[i].tick < frames[at].tick);
        }
    }
    if tick < frames[0].tick && at > 0 {
        assert(frames[0].tick < frames[at].tick);
    }
    if at < frames.len() - 1 {
        assert(frames[frames.len() - 1].tick > tick);
    }
}

/// A rewind gets the frame with the greatest label at or below the tick, or
/// the oldest frame when every label is past it.
pub proof fn rewinds_get_the_greatest_label_below<T>(
    frames: Seq<PastView<T>>,
    tick: u32,
    at: int,
    i: int,
)
    requires
        labels_rise(frames),
        frame_for(frames, tick, at),
        0 <= i < frames.len(),
    ensures
        frames[i].tick <= tick ==> frames[i].tick <= frames[at].tick <= tick,
        frames[0].tick > tick ==> at == 0,
{
    if frames[i].tick <= tick {
        if i > at {
            assert(frames[i].tick > tick);
        } else if i < at {
            assert(frames[i].tick < frames[at].tick);
        }
    }
    if at > 0 {
        assert(frames[0].tick < frames[at].tick);
    }
}

/// What a journal can be asked to do.
pub enum JournalCall<T> {
    /// Record a frame.
    Push { tick: u32, rows: Seq<(Id, T)> },
    /// Adjust the window.
    CapSet { cap: usize },
}

/// A window holds at least one frame.
pub open spec fn window_of(cap: usize) -> nat {
    if cap == 0 {
        1
    } else {
        cap as nat
    }
}

/// A journal's window and frames after these calls on a new one.
pub open spec fn journal_run<T>(cap: usize, calls: Seq<JournalCall<T>>) -> (
    nat,
    Seq<PastView<T>>,
)
    decreases calls.len(),
{
    if calls.len() == 0 {
        (window_of(cap), Seq::empty())
    } else {
        let (window, frames) = journal_run(cap, calls.drop_last());
        match calls.last() {
            JournalCall::Push { tick, rows } => (
                window,
                if frames.len() > 0 && tick <= frames.last().tick {
                    frames
                } else {
                    newest_frames(frames.push(PastView { tick, rows }), window)
                },
            ),
            JournalCall::CapSet { cap: size } => (
                window_of(size),
                newest_frames(frames, window_of(size)),
            ),
        }
    }
}

/// The largest label ever pushed.
pub open spec fn largest_pushed<T>(calls: Seq<JournalCall<T>>) -> Option<u32>
    decreases calls.len(),
{
    if calls.len() == 0 {
        None
    } else {
        let before = largest_pushed(calls.drop_last());
        match calls.last() {
            JournalCall::Push { tick, .. } => match before {
                Some(t) if t >= tick => Some(t),
                _ => Some(tick),
            },
            JournalCall::CapSet { .. } => before,
        }
    }
}

/// The newest frame is never lost: after any run of calls a journal's newest
/// label is the largest ever pushed — none exactly when nothing was — so it
/// never goes down, whatever the window.
pub proof fn the_newest_label_is_the_largest_pushed<T>(cap: usize, calls: Seq<JournalCall<T>>)
    ensures
        ({
            let (window, frames) = journal_run(cap, calls);
            &&& window >= 1
            &&& frames.len() <= window
            &&& largest_pushed(calls) == if frames.len() == 0 {
                None
            } else {
                Some(frames.last().tick)
            }
        }),
    decreases calls.len(),
{
    if calls.len() > 0 {
        the_newest_label_is_the_largest_pushed(cap, calls.drop_last());
        let (window, frames) = journal_run(cap, calls.drop_last());
        match calls.last() {
            JournalCall::Push { tick, rows } => {
                let all = frames.push(PastView { tick, rows });
                assert(newest_frames(all, window).last() == all.last());
            },
            JournalCall::CapSet { cap: size } => {
                if frames.len() > 0 {
                    assert(newest_frames(frames, window_of(size)).last() == frames.last());
                }
            },
        }
    }
}

/// The journal behind a pool: the storage recordings and rewinds read.
pub struct Journal<T> {
    ring: HistoryRing<T>,
}

impl<T> View for Journal<T> {
    type V = Seq<PastView<T>>;

    closed spec fn view(&self) -> Seq<PastView<T>> {
        self.ring@
    }
}

impl<T> Journal<T> {
    /// How many frames the journal holds.
    pub closed spec fn window(&self) -> nat {
        self.ring.window()
    }

    /// At least one frame fits, no more than that are kept, labels rise.
    pub open spec fn wf(&self) -> bool {
        &&& self.window() >= 1
        &&& self@.len() <= self.window()
        &&& labels_rise(self@)
    }

    /// A journal keeping at most `cap` frames (at least 1).
    pub fn new(cap: usize) -> (r: Self)
        ensures
            r.wf(),
            r@ == Seq::<PastView<T>>::empty(),
            r.window() == if cap == 0 {
                1
            } else {
                cap as nat
            },
    {
        Journal { ring: HistoryRing::new(cap) }
    }

    /// Adjust the window size; excess oldest frames drop immediately.
    pub fn cap_set(&mut self, cap: usize)
        requires
            old(self).wf(),
        ensures
            final(self).wf(),
            final(self).window() == if cap == 0 {
                1
            } else {
                cap as nat
            },
            final(self)@ == newest_frames(old(self)@, final(self).window()),
    {
        self.ring.cap_set(cap);
    }

    /// Record the pool's rows as the frame for `tick`; a label at or below
    /// the newest is ignored.
    pub fn push(&mut self, tick: u32, frame: Vec<(Id, T)>)
        requires
            old(self).wf(),
        ensures
            final(self).wf(),
            final(self).window() == old(self).window(),
            final(self)@ == if old(self)@.len() > 0 && tick <= old(self)@.last().tick {
                old(self)@
            } else {
                newest_frames(
                    old(self)@.push(PastView { tick, rows: frame@ }),
                    old(self).window(),
                )
            },
    {
        self.ring.push(tick, frame);
    }

    /// The frame recorded at `tick`, clamped to the window.
    pub fn frame(&self, tick: u32) -> (r: Option<&[(Id, T)]>)
        requires
            self.wf(),
        ensures
            match r {
                Some(rows) => exists|at: int|
                    #[trigger] frame_for(self@, tick, at) && rows@ == self@[at].rows,
                None => self@.len() == 0,
            },
    {
        assert(self@ == self.ring@);
        self.ring.frame(tick)
    }

    /// The newest recorded tick label, if any.
    pub fn newest(&self) -> (r: Option<u32>)
        ensures
            r == if self@.len() == 0 {
                None
            } else {
                Some(self@.last().tick)
            },
    {
        self.ring.newest()
    }

    /// The oldest recorded tick label, if any.
    pub fn oldest(&self) -> (r: Option<u32>)
        ensures
            r == if self@.len() == 0 {
                None
            } else {
                Some(self@[0].tick)
            },
    {
        self.ring.oldest()
    }
}

/// A pool's past ticks, recorded once per tick and labelled like snapshots,
/// so a frame label is a snapshot tick a client may have seen.
pub struct PoolHistory<T> {
    ring: HistoryRing<T>,
}

impl<T> View for PoolHistory<T> {
    type V = Seq<PastView<T>>;

    closed spec fn view(&self) -> Seq<PastView<T>> {
        self.ring@
    }
}

/// A pool's rows in dense order.
pub open spec fn pool_rows<T>(pool: Pool<T>) -> Seq<(Id, T)> {
    Seq::new(pool.dense_ids().len(), |i: int| (pool.dense_ids()[i], pool.dense_values()[i]))
}

impl<T: Copy> PoolHistory<T> {
    /// How many frames the window holds.
    pub closed spec fn window(&self) -> nat {
        self.ring.window()
    }

    /// At least one frame fits, no more than that are kept, labels rise.
    pub open spec fn wf(&self) -> bool {
        &&& self.window() >= 1
        &&& self@.len() <= self.window()
        &&& labels_rise(self@)
    }

    /// Nothing recorded.
    pub fn new() -> (r: Self)
        ensures
            r.wf(),
            r@ == Seq::<PastView<T>>::empty(),
            r.window() == 1,
    {
        PoolHistory { ring: HistoryRing::new(1) }
    }

    /// Record the pool as of kernel tick `tick` — the frame is labelled with
    /// the last completed tick — keeping `cap` frames (at least 1).
    pub fn record(&mut self, tick: u32, cap: usize, pool: &Pool<T>)
        requires
            old(self).wf(),
            pool.wf(),
        ensures
            final(self).wf(),
            final(self).window() == if cap == 0 {
                1
            } else {
                cap as nat
            },
            ({
                let kept = newest_frames(old(self)@, final(self).window());
                let label = crate::net::label_at(tick);
                final(self)@ == if kept.len() > 0 && label <= kept.last().tick {
                    kept
                } else {
                    newest_frames(
                        kept.push(PastView { tick: label, rows: pool_rows(*pool) }),
                        final(self).window(),
                    )
                }
            }),
    {
        self.ring.cap_set(cap);
        proof {
            pool.wf_columns_agree();
        }
        let ids: &[Id] = pool.ids();
        let values: &[T] = pool.values();
        let mut rows: Vec<(Id, T)> = Vec::new();
        let mut i: usize = 0;
        while i < ids.len()
            invariant
                i <= ids@.len(),
                ids@.len() == values@.len(),
                ids@ == pool.dense_ids(),
                values@ == pool.dense_values(),
                rows@.len() == i,
                forall|k: int| 0 <= k < i ==> #[trigger] rows@[k] == (ids@[k], values@[k]),
            decreases ids@.len() - i,
        {
            rows.push((ids[i], values[i]));
            i += 1;
        }
        assert(rows@ =~= pool_rows(*pool));
        self.ring.push(tick.saturating_sub(1), rows);
    }

    /// The recorded frame nearest `tick`, clamped to the window edges.
    pub fn frame(&self, tick: u32) -> (r: Option<&[(Id, T)]>)
        requires
            self.wf(),
        ensures
            match r {
                Some(rows) => exists|at: int|
                    #[trigger] frame_for(self@, tick, at) && rows@ == self@[at].rows,
                None => self@.len() == 0,
            },
    {
        assert(self@ == self.ring@);
        self.ring.frame(tick)
    }
}

/// Exactly the rows whose last change lies more than the lifetime back
/// expire, in dense order.
pub proof fn exactly_the_outlived_expire(ids: Seq<Id>, ticks: Seq<u32>, now: u32, ttl: u32) -> (at:
    Seq<int>)
    requires
        ids.len() == ticks.len(),
    ensures
        expired(ids, ticks, now, ttl).len() == at.len(),
        forall|k: int|
            0 <= k < at.len() ==> 0 <= #[trigger] at[k] < ids.len() && expired(
                ids,
                ticks,
                now,
                ttl,
            )[k] == ids[at[k]],
        forall|j: int, k: int| 0 <= j < k < at.len() ==> (#[trigger] at[j]) < (#[trigger] at[k]),
        forall|i: int|
            0 <= i < ids.len() ==> (#[trigger] at.contains(i) <==> now - ticks[i] > ttl),
    decreases ids.len(),
{
    if ids.len() == 0 {
        Seq::empty()
    } else {
        let init = ids.drop_last();
        let before = exactly_the_outlived_expire(init, ticks.drop_last(), now, ttl);
        let n = ids.len() - 1;
        let at = if now - ticks[n] > ttl {
            before.push(n)
        } else {
            before
        };
        let out = expired(ids, ticks, now, ttl);
        assert forall|k: int| 0 <= k < at.len() implies 0 <= #[trigger] at[k] < ids.len() && out[k]
            == ids[at[k]] by {
            if k < before.len() {
                assert(at[k] == before[k]);
                assert(init[before[k]] == ids[at[k]]);
            }
        }
        assert forall|j: int, k: int| 0 <= j < k < at.len() implies (#[trigger] at[j]) < (
        #[trigger] at[k]) by {
            assert(at[j] == before[j]);
            if k < before.len() {
                assert(at[k] == before[k]);
            }
        }
        assert forall|i: int| 0 <= i < ids.len() implies (#[trigger] at.contains(i) <==> now
            - ticks[i] > ttl) by {
            crate::sort::contains_push(before, n, i);
            if i < n {
                assert(before.contains(i) <==> now - ticks.drop_last()[i] > ttl);
            } else if before.contains(i) {
                let k = choose|k: int| 0 <= k < before.len() && before[k] == i;
                assert(before[k] < init.len());
            }
        }
        at
    }
}

/// A full window drops its oldest frames and keeps the rest in order.
pub proof fn the_window_keeps_the_newest<T>(frames: Seq<PastView<T>>, cap: nat, k: int)
    ensures
        ({
            let out = newest_frames(frames, cap);
            &&& out.len() == if frames.len() < cap {
                frames.len()
            } else {
                cap
            }
            &&& 0 <= k < out.len() ==> out[k] == frames[frames.len() - out.len() + k]
        }),
{
}

/// A journal frame holds every row of its pool with its value.
pub proof fn frames_hold_every_row<T>(pool: Pool<T>, i: int)
    ensures
        pool_rows(pool).len() == pool.dense_ids().len(),
        0 <= i < pool.dense_ids().len() ==> pool_rows(pool)[i].0 == pool.dense_ids()[i]
            && pool_rows(pool)[i].1 == pool.dense_values()[i],
{
}

/// A window holds at least one frame.
pub proof fn a_window_holds_a_frame(cap: usize)
    ensures
        cap > 0 ==> window_of(cap) == cap,
        cap == 0 ==> window_of(cap) == 1,
{
}

} // verus!
