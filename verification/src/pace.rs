//! Loop pacing against absolute deadlines.
//!
//! Sleeping reliably oversleeps by scheduler latency, and a relative sleep
//! per tick accumulates that error. Advancing a fixed deadline instead means
//! oversleep on one tick shortens the next sleep, so the average rate stays
//! exact. Per-tick jitter is bounded by sleep-then-spin: sleep until the
//! margin short of the deadline, then busy-wait the rest; the margin adapts
//! to the oversleep the OS actually delivers.
//!
//! All times are nanoseconds on the driver's monotonic clock.

use vstd::prelude::*;

verus! {

/// How much the margin decays per sleep, so one bad wakeup does not pin it
/// high forever.
pub const MARGIN_DECAY_NS: u64 = 20_000;

/// Ticks of lateness past which the deadline is given up on.
pub const RESYNC_PERIODS: u64 = 4;

/// What to do between two ticks.
#[derive(Copy, Clone, Debug, PartialEq, Eq, Structural)]
pub enum Pace {
    /// Start the next tick now.
    Run,
    /// Sleep this long, report it with `slept`, then spin to the deadline.
    Sleep { requested: u64 },
    /// Spin to the deadline.
    Spin,
}

/// The pacing state: the next tick's deadline and the adaptive margin.
pub struct Pacer {
    pub deadline: u64,
    pub margin: u64,
}

/// Largest margin for a spin setting in microseconds.
pub open spec fn margin_cap(spin_us: u32) -> int {
    spin_us * 1000
}

/// The deadline after one tick: one period on, or `now` when the loop fell
/// more than the resync bound behind.
pub open spec fn deadline_after(deadline: int, now: int, period: int) -> int {
    if now - (deadline + period) > RESYNC_PERIODS * period {
        now
    } else {
        deadline + period
    }
}

impl Pacer {
    /// Start pacing at `now` with the full margin.
    pub fn new(now: u64, spin_us: u32) -> (r: Self)
        ensures
            r.deadline == now,
            r.margin == margin_cap(spin_us),
    {
        Pacer { deadline: now, margin: spin_us as u64 * 1000 }
    }

    /// A tick just ended at `now`: advance the deadline and decide how to
    /// wait for it. A rate of 0 is uncapped.
    pub fn step(&mut self, now: u64, rate: u32, period: u64) -> (r: Pace)
        requires
            rate != 0 ==> old(self).deadline + period <= u64::MAX,
            rate != 0 ==> RESYNC_PERIODS * period <= u64::MAX,
        ensures
            final(self).margin == old(self).margin,
            rate == 0 ==> r == Pace::Run && *final(self) == *old(self),
            rate != 0 ==> {
                let due = old(self).deadline + period;
                &&& final(self).deadline == deadline_after(
                    old(self).deadline as int,
                    now as int,
                    period as int,
                )
                &&& r == if due <= now {
                    Pace::Run
                } else if due - now > old(self).margin {
                    Pace::Sleep { requested: (due - now - old(self).margin) as u64 }
                } else {
                    Pace::Spin
                }
            },
    {
        if rate == 0 {
            return Pace::Run;
        }
        self.deadline = self.deadline + period;
        if self.deadline > now {
            let until: u64 = self.deadline - now;
            if until > self.margin {
                Pace::Sleep { requested: until - self.margin }
            } else {
                Pace::Spin
            }
        } else {
            if now - self.deadline > RESYNC_PERIODS * period {
                self.deadline = now;
            }
            Pace::Run
        }
    }

    /// A sleep of `requested` took `elapsed`: learn the overshoot. The
    /// margin decays toward zero, covers the overshoot and stays under the
    /// cap.
    pub fn slept(&mut self, requested: u64, elapsed: u64, spin_us: u32)
        ensures
            final(self).deadline == old(self).deadline,
            ({
                let decayed: int = if old(self).margin > MARGIN_DECAY_NS {
                    old(self).margin - MARGIN_DECAY_NS
                } else {
                    0
                };
                let over: int = if elapsed > requested {
                    elapsed - requested
                } else {
                    0
                };
                let want = if over > decayed {
                    over
                } else {
                    decayed
                };
                final(self).margin == if want < margin_cap(spin_us) {
                    want
                } else {
                    margin_cap(spin_us)
                }
            }),
            final(self).margin <= margin_cap(spin_us),
    {
        let cap: u64 = spin_us as u64 * 1000;
        let decayed: u64 = self.margin.saturating_sub(MARGIN_DECAY_NS);
        let over: u64 = elapsed.saturating_sub(requested);
        let want: u64 = if over > decayed {
            over
        } else {
            decayed
        };
        self.margin = if want < cap {
            want
        } else {
            cap
        };
    }
}

/// The deadline after ticks that ended at these times.
pub open spec fn deadline_after_all(start: int, ends: Seq<int>, period: int) -> int
    decreases ends.len(),
{
    if ends.len() == 0 {
        start
    } else {
        deadline_after(deadline_after_all(start, ends.drop_last(), period), ends.last(), period)
    }
}

/// Oversleep never accumulates: as long as no tick ends more than the resync
/// bound late, the n-th deadline is exactly n periods after the start,
/// whatever each tick took.
pub proof fn average_rate_is_exact(start: int, ends: Seq<int>, period: int)
    requires
        period >= 0,
        forall|i: int|
            0 <= i < ends.len() ==> #[trigger] ends[i] - (start + (i + 1) * period)
                <= RESYNC_PERIODS * period,
    ensures
        deadline_after_all(start, ends, period) == start + ends.len() * period,
    decreases ends.len(),
{
    if ends.len() > 0 {
        let init = ends.drop_last();
        assert forall|i: int| 0 <= i < init.len() implies #[trigger] init[i] - (start + (i + 1)
            * period) <= RESYNC_PERIODS * period by {
            assert(init[i] == ends[i]);
        }
        average_rate_is_exact(start, init, period);
        let n = ends.len() as int;
        assert(n * period == (n - 1) * period + period) by (nonlinear_arith);
        assert(ends[n - 1] - (start + n * period) <= RESYNC_PERIODS * period);
    } else {
        assert(0 * period == 0);
    }
}

/// A frame more than four periods late starts the count over at the present;
/// any other advances its deadline by one period.
pub proof fn only_a_late_frame_starts_over(deadline: int, now: int, period: int)
    ensures
        now > deadline + 5 * period ==> deadline_after(deadline, now, period) == now,
        now <= deadline + 5 * period ==> deadline_after(deadline, now, period) == deadline + period,
{
}

/// The spin margin never exceeds the microseconds asked for.
pub proof fn the_margin_is_capped_in_microseconds(spin_us: u32)
    ensures
        margin_cap(spin_us) == 1000 * spin_us,
{
}

} // verus!
