//! Timed logic helpers: intervals, cooldowns, hold times, on/off delays.
//!
//! Seconds are `f32` bit patterns. The helpers decide by comparing them; the
//! caller supplies the addition and subtraction.

use vstd::prelude::*;

use crate::order::{le_num, lt_num, num_le, num_lt};

verus! {

/// Whether a task with an interval runs this tick; zero or less runs every
/// tick. Otherwise `accum` collects the ticks' lengths, and the task runs
/// when it is no longer short of the interval, which is then taken off.
pub open spec fn interval_step<A: Fn(u32, u32) -> u32, B: Fn(u32, u32) -> u32>(
    interval: u32,
    accum: u32,
    dt: u32,
    plus: A,
    minus: B,
    after: u32,
    due: bool,
) -> bool {
    if !lt_num(0, interval) {
        due && after == accum
    } else {
        exists|sum: u32|
            {
                &&& #[trigger] plus.ensures((accum, dt), sum)
                &&& due == !lt_num(sum, interval)
                &&& if due {
                    minus.ensures((sum, interval), after)
                } else {
                    after == sum
                }
            }
    }
}

/// Whether a task with this interval runs this tick.
pub fn interval_due<A: Fn(u32, u32) -> u32, B: Fn(u32, u32) -> u32>(
    interval: u32,
    accum: &mut u32,
    dt: u32,
    plus: &A,
    minus: &B,
) -> (r: bool)
    requires
        forall|a: u32, b: u32| #[trigger] plus.requires((a, b)),
        forall|a: u32, b: u32| #[trigger] minus.requires((a, b)),
    ensures
        interval_step(interval, *old(accum), dt, *plus, *minus, *final(accum), r),
{
    if !num_lt(0, interval) {
        return true;
    }
    let sum: u32 = plus(*accum, dt);
    assert(plus.ensures((*old(accum), dt), sum));
    if num_lt(sum, interval) {
        *accum = sum;
        return false;
    }
    *accum = minus(sum, interval);
    true
}

/// Value with dead-zone persistence: changes are blocked for `hold` seconds
/// after each transition (anti-flicker).
#[derive(Clone, Copy)]
pub struct Hysteresis<T> {
    pub value: T,
    pub hold: u32,
    pub cooldown: u32,
}

impl<T: Copy> Hysteresis<T> {
    pub fn new(initial: T, hold: u32) -> (r: Self)
        ensures
            r == (Hysteresis { value: initial, hold, cooldown: 0 }),
    {
        Hysteresis { value: initial, hold, cooldown: 0 }
    }

    /// Let time pass.
    pub fn update<B: Fn(u32, u32) -> u32>(&mut self, dt: u32, minus: &B)
        requires
            forall|a: u32, b: u32| #[trigger] minus.requires((a, b)),
        ensures
            final(self).value == old(self).value,
            final(self).hold == old(self).hold,
            if lt_num(0, old(self).cooldown) {
                minus.ensures((old(self).cooldown, dt), final(self).cooldown)
            } else {
                final(self).cooldown == old(self).cooldown
            },
    {
        if num_lt(0, self.cooldown) {
            self.cooldown = minus(self.cooldown, dt);
        }
    }

    /// Applies only if the hold time has passed; a real change starts it
    /// again. `same` compares two values.
    pub fn set<F: Fn(&T, &T) -> bool>(&mut self, v: T, same: &F)
        requires
            forall|a: &T, b: &T| #[trigger] same.requires((a, b)),
        ensures
            final(self).hold == old(self).hold,
            lt_num(0, old(self).cooldown) ==> *final(self) == *old(self),
            !lt_num(0, old(self).cooldown) ==> {
                ||| same.ensures((&old(self).value, &v), true) && *final(self) == *old(self)
                ||| same.ensures((&old(self).value, &v), false) && *final(self) == (Hysteresis {
                    value: v,
                    hold: old(self).hold,
                    cooldown: old(self).hold,
                })
            },
    {
        if num_lt(0, self.cooldown) {
            return;
        }
        if !same(&self.value, &v) {
            self.value = v;
            self.cooldown = self.hold;
        }
    }

    pub fn get(&self) -> (r: T)
        ensures
            r == self.value,
    {
        self.value
    }
}

/// Fire-once-per-interval timer.
#[derive(Clone, Copy, PartialEq, Eq, Debug, Structural)]
pub struct Cooldown {
    pub interval: u32,
    pub elapsed: u32,
}

impl Cooldown {
    pub fn new(interval: u32) -> (r: Self)
        ensures
            r == (Cooldown { interval, elapsed: 0 }),
    {
        Cooldown { interval, elapsed: 0 }
    }

    /// Accumulates `dt`; returns true once per interval.
    pub fn ready<A: Fn(u32, u32) -> u32, B: Fn(u32, u32) -> u32>(
        &mut self,
        dt: u32,
        plus: &A,
        minus: &B,
    ) -> (r: bool)
        requires
            forall|a: u32, b: u32| #[trigger] plus.requires((a, b)),
            forall|a: u32, b: u32| #[trigger] minus.requires((a, b)),
        ensures
            final(self).interval == old(self).interval,
            exists|sum: u32|
                {
                    &&& #[trigger] plus.ensures((old(self).elapsed, dt), sum)
                    &&& r == le_num(old(self).interval, sum)
                    &&& if r {
                        minus.ensures((sum, old(self).interval), final(self).elapsed)
                    } else {
                        final(self).elapsed == sum
                    }
                },
    {
        let sum: u32 = plus(self.elapsed, dt);
        assert(plus.ensures((old(self).elapsed, dt), sum));
        if num_le(self.interval, sum) {
            self.elapsed = minus(sum, self.interval);
            return true;
        }
        self.elapsed = sum;
        false
    }

    pub fn reset(&mut self)
        ensures
            *final(self) == (Cooldown { elapsed: 0, ..*old(self) }),
    {
        self.elapsed = 0;
    }
}

/// Unified on-delay / off-delay timer. Output goes true after the input has
/// been true for `on_delay` seconds; false after the input has been false
/// for `off_delay` seconds.
#[derive(Clone, Copy, PartialEq, Eq, Debug, Structural)]
pub struct DelayTimer {
    pub on_delay: u32,
    pub off_delay: u32,
    pub elapsed: u32,
    pub output: bool,
}

impl DelayTimer {
    pub fn new(on_delay: u32, off_delay: u32) -> (r: Self)
        ensures
            r == (DelayTimer { on_delay, off_delay, elapsed: 0, output: false }),
    {
        DelayTimer { on_delay, off_delay, elapsed: 0, output: false }
    }

    /// Feed the input for `dt` seconds.
    pub fn update<A: Fn(u32, u32) -> u32>(&mut self, input: bool, dt: u32, plus: &A)
        requires
            forall|a: u32, b: u32| #[trigger] plus.requires((a, b)),
        ensures
            ({
                let was = *old(self);
                let now = *final(self);
                let delay = if was.output {
                    was.off_delay
                } else {
                    was.on_delay
                };
                if was.output == input {
                    now == (DelayTimer { elapsed: 0, ..was })
                } else {
                    exists|sum: u32| #[trigger]
                        plus.ensures((was.elapsed, dt), sum) && now == if le_num(delay, sum) {
                            DelayTimer { output: input, elapsed: 0, ..was }
                        } else {
                            DelayTimer { elapsed: sum, ..was }
                        }
                }
            }),
    {
        if self.output != input {
            let sum: u32 = plus(self.elapsed, dt);
            assert(plus.ensures((old(self).elapsed, dt), sum));
            let delay: u32 = if self.output {
                self.off_delay
            } else {
                self.on_delay
            };
            if num_le(delay, sum) {
                self.output = input;
                self.elapsed = 0;
            } else {
                self.elapsed = sum;
            }
        } else {
            self.elapsed = 0;
        }
    }

    pub fn reset(&mut self)
        ensures
            *final(self) == (DelayTimer { output: false, elapsed: 0, ..*old(self) }),
    {
        self.output = false;
        self.elapsed = 0;
    }

    pub fn is_on(&self) -> (r: bool)
        ensures
            r == self.output,
    {
        self.output
    }
}

/// An interval of zero or less, or none, is due every time and collects
/// nothing; any other collects the time that passed, is due exactly when what
/// it has is not short of the interval, and keeps the rest.
pub proof fn intervals_keep_the_rest<A: Fn(u32, u32) -> u32, B: Fn(u32, u32) -> u32>(
    interval: u32,
    accum: u32,
    dt: u32,
    plus: A,
    minus: B,
    after: u32,
    due: bool,
)
    requires
        interval_step(interval, accum, dt, plus, minus, after, due),
    ensures
        interval == 0 || interval > 0x7f80_0000 ==> due && after == accum,
        0 < interval <= 0x7f80_0000 && !due ==> plus.ensures((accum, dt), after) && lt_num(
            after,
            interval,
        ),
        0 < interval <= 0x7f80_0000 && due ==> exists|sum: u32| #[trigger]
            plus.ensures((accum, dt), sum) && !lt_num(sum, interval) && minus.ensures(
                (sum, interval),
                after,
            ),
{
}

} // verus!
