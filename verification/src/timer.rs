//! Countdown and repeating timers with edge detection.

use vstd::arithmetic::div_mod::{
    lemma_basic_div, lemma_fundamental_div_mod, lemma_fundamental_div_mod_converse,
    lemma_mod_bound, lemma_small_mod,
};
use vstd::prelude::*;

verus! {

/// Microseconds in one second: the resolution of every elapsed-time sample.
pub const TICKS_PER_SECOND: u64 = 1_000_000;

/// What a timer does once its duration has elapsed.
#[derive(Clone, Copy, Debug, PartialEq, Eq, Structural)]
pub enum TimerMode {
    /// Stop at the duration and stay finished.
    Once,
    /// Wrap around and start the next period.
    Repeating,
}

/// A timer that counts elapsed microseconds against a duration. A timer
/// without duration completes on every tick.
#[derive(Clone, Copy, Debug, PartialEq, Eq, Structural)]
pub struct Timer {
    /// Microseconds counted in the current period.
    pub elapsed: u64,
    /// Length of one period in microseconds.
    pub duration: u64,
    /// What happens when the duration is reached.
    pub mode: TimerMode,
    /// The duration was reached (by the last tick for a repeating timer, by
    /// any tick so far for a one-shot timer).
    pub finished: bool,
    /// The last tick was the one that reached the duration.
    pub just_completed: bool,
}

/// The progress that one elapsed-time sample stands for: negative samples
/// count as no time at all.
pub open spec fn clamp_delta(delta: int) -> nat {
    if delta > 0 {
        delta as nat
    } else {
        0
    }
}

/// Sum of the progress of all samples in `deltas`.
pub open spec fn total_time(deltas: Seq<int>) -> nat
    decreases deltas.len(),
{
    if deltas.len() == 0 {
        0
    } else {
        total_time(deltas.drop_last()) + clamp_delta(deltas.last())
    }
}

impl Timer {
    /// A timer that has not counted anything yet.
    pub open spec fn fresh(duration: u64, mode: TimerMode) -> Timer {
        Timer { elapsed: 0, duration, mode, finished: false, just_completed: false }
    }

    /// The counter stays within one period and the flags agree with it.
    pub open spec fn wf(self) -> bool {
        &&& self.duration > 0
        &&& self.elapsed <= self.duration
        &&& self.mode == TimerMode::Repeating ==> self.elapsed < self.duration
        &&& self.mode == TimerMode::Once ==> (self.finished <==> self.elapsed == self.duration)
        &&& self.just_completed ==> self.finished
    }

    /// The timer after one tick of `delta` microseconds.
    ///
    /// A finished one-shot timer only drops its edge flag. Otherwise the
    /// clamped sample is added; on reaching the duration a one-shot timer
    /// stops there and a repeating one keeps the remainder. The edge flag is
    /// raised once, however many periods the sample covered.
    pub open spec fn advanced(self, delta: int) -> Timer {
        let total = self.elapsed + clamp_delta(delta);
        if self.mode == TimerMode::Once && self.finished {
            Timer { just_completed: false, ..self }
        } else if total >= self.duration {
            Timer {
                elapsed: match self.mode {
                    TimerMode::Once => self.duration,
                    TimerMode::Repeating => if self.duration == 0 {
                        0
                    } else {
                        (total % self.duration as int) as u64
                    },
                },
                finished: true,
                just_completed: true,
                ..self
            }
        } else {
            Timer { elapsed: total as u64, finished: false, just_completed: false, ..self }
        }
    }

    /// Number of whole periods that a tick of `delta` completes.
    pub open spec fn periods_crossed(self, delta: int) -> int {
        if self.duration == 0 || (self.mode == TimerMode::Once && self.finished) {
            0
        } else {
            (self.elapsed + clamp_delta(delta)) / self.duration as int
        }
    }

    /// The timer after one tick for each sample of `deltas`, in order.
    pub open spec fn run(self, deltas: Seq<int>) -> Timer
        decreases deltas.len(),
    {
        if deltas.len() == 0 {
            self
        } else {
            self.run(deltas.drop_last()).advanced(deltas.last())
        }
    }

    /// Number of ticks of `deltas` after which the edge flag was raised.
    pub open spec fn completions(self, deltas: Seq<int>) -> nat
        decreases deltas.len(),
    {
        if deltas.len() == 0 {
            0
        } else {
            self.completions(deltas.drop_last()) + if self.run(deltas).just_completed {
                1nat
            } else {
                0nat
            }
        }
    }

    /// No tick of `deltas` completes more than one period.
    pub open spec fn single_steps(self, deltas: Seq<int>) -> bool
        decreases deltas.len(),
    {
        deltas.len() > 0 ==> {
            &&& self.single_steps(deltas.drop_last())
            &&& self.run(deltas.drop_last()).periods_crossed(deltas.last()) <= 1
        }
    }

    /// A timer of `duration` microseconds that has not counted anything yet.
    pub fn new(duration: u64, mode: TimerMode) -> (timer: Timer)
        ensures
            timer == Timer::fresh(duration, mode),
    {
        Timer { elapsed: 0, duration, mode, finished: false, just_completed: false }
    }

    /// A timer of `seconds` whole seconds; the duration saturates at the
    /// largest count of microseconds.
    pub fn from_seconds(seconds: u64, mode: TimerMode) -> (timer: Timer)
        ensures
            timer == Timer::fresh(
                if seconds * TICKS_PER_SECOND <= u64::MAX {
                    (seconds * TICKS_PER_SECOND) as u64
                } else {
                    u64::MAX
                },
                mode,
            ),
    {
        let duration: u64 = match seconds.checked_mul(TICKS_PER_SECOND) {
            Some(d) => d,
            None => u64::MAX,
        };
        Timer::new(duration, mode)
    }

    /// Counts one elapsed-time sample.
    pub fn advance(&mut self, delta: i64)
        ensures
            *final(self) == old(self).advanced(delta as int),
            old(self).wf() ==> final(self).wf(),
    {
        let once: bool = match self.mode {
            TimerMode::Once => true,
            TimerMode::Repeating => false,
        };
        if once && self.finished {
            self.just_completed = false;
            return ;
        }
        let step: u64 = if delta > 0 {
            delta as u64
        } else {
            0
        };
        let total: u128 = self.elapsed as u128 + step as u128;
        if total >= self.duration as u128 {
            if once {
                self.elapsed = self.duration;
            } else if self.duration == 0 {
                self.elapsed = 0;
            } else {
                self.elapsed = (total % (self.duration as u128)) as u64;
            }
            self.finished = true;
            self.just_completed = true;
        } else {
            self.elapsed = total as u64;
            self.finished = false;
            self.just_completed = false;
        }
    }

    /// Whether the last tick was the one on which the duration was reached.
    pub fn just_completed(&self) -> (edge: bool)
        ensures
            edge == self.just_completed,
    {
        self.just_completed
    }
}

/// Adding `x` to a count `t` moves its quotient and remainder by `d` as
/// adding `x` to the remainder of `t` does.
proof fn lemma_div_mod_step(t: int, x: int, d: int)
    requires
        t >= 0,
        x >= 0,
        d > 0,
    ensures
        (t + x) / d == t / d + (t % d + x) / d,
        (t + x) % d == (t % d + x) % d,
{
    let q = t / d;
    let s = t % d + x;
    lemma_fundamental_div_mod(t, d);
    lemma_fundamental_div_mod(s, d);
    lemma_mod_bound(s, d);
    assert(t + x == (q + s / d) * d + s % d) by (nonlinear_arith)
        requires
            t == d * q + t % d,
            s == t % d + x,
            s == d * (s / d) + s % d,
    ;
    lemma_fundamental_div_mod_converse(t + x, d, q + s / d, s % d);
}

/// Until the summed samples reach the duration, a fresh timer holds exactly
/// their sum and none of its flags is raised.
pub proof fn lemma_counts_up_to_duration(duration: u64, mode: TimerMode, deltas: Seq<int>)
    requires
        total_time(deltas) < duration,
    ensures
        Timer::fresh(duration, mode).run(deltas) == (Timer {
            elapsed: total_time(deltas) as u64,
            duration,
            mode,
            finished: false,
            just_completed: false,
        }),
    decreases deltas.len(),
{
    if deltas.len() > 0 {
        lemma_counts_up_to_duration(duration, mode, deltas.drop_last());
    }
}

/// A fresh timer of either mode raises its edge flag on exactly the tick at
/// which the summed samples first reach the duration: while the sum before a
/// tick is below the duration, the flag after that tick says whether the sum
/// has now reached it.
pub proof fn lemma_first_completion(duration: u64, mode: TimerMode, deltas: Seq<int>)
    requires
        duration > 0,
        deltas.len() > 0,
        total_time(deltas.drop_last()) < duration,
    ensures
        Timer::fresh(duration, mode).run(deltas).just_completed <==> total_time(deltas)
            >= duration,
        Timer::fresh(duration, mode).run(deltas).finished <==> total_time(deltas) >= duration,
{
    lemma_counts_up_to_duration(duration, mode, deltas.drop_last());
}

/// Once the summed samples have reached the duration, a one-shot timer is
/// finished and rests at its duration.
pub proof fn lemma_once_stays_finished(duration: u64, deltas: Seq<int>)
    requires
        duration > 0,
        total_time(deltas) >= duration,
    ensures
        Timer::fresh(duration, TimerMode::Once).run(deltas).finished,
        Timer::fresh(duration, TimerMode::Once).run(deltas).elapsed == duration,
        Timer::fresh(duration, TimerMode::Once).run(deltas).duration == duration,
        Timer::fresh(duration, TimerMode::Once).run(deltas).mode == TimerMode::Once,
    decreases deltas.len(),
{
    if total_time(deltas.drop_last()) >= duration {
        lemma_once_stays_finished(duration, deltas.drop_last());
    } else {
        lemma_counts_up_to_duration(duration, TimerMode::Once, deltas.drop_last());
    }
}

/// A fresh one-shot timer raises its edge flag on one tick only: the tick at
/// which the summed samples first reach the duration.
pub proof fn lemma_once_completes_on_crossing(duration: u64, deltas: Seq<int>)
    requires
        duration > 0,
        deltas.len() > 0,
    ensures
        Timer::fresh(duration, TimerMode::Once).run(deltas).just_completed <==> (total_time(
            deltas.drop_last(),
        ) < duration <= total_time(deltas)),
{
    if total_time(deltas.drop_last()) >= duration {
        lemma_once_stays_finished(duration, deltas.drop_last());
    } else {
        lemma_first_completion(duration, TimerMode::Once, deltas);
    }
}

/// A fresh repeating timer whose ticks each complete at most one period has
/// raised its edge flag once for every whole period of the summed samples,
/// and holds what is left of the sum.
pub proof fn lemma_repeating_counts_periods(duration: u64, deltas: Seq<int>)
    requires
        duration > 0,
        Timer::fresh(duration, TimerMode::Repeating).single_steps(deltas),
    ensures
        Timer::fresh(duration, TimerMode::Repeating).completions(deltas) == total_time(deltas)
            / duration as nat,
        Timer::fresh(duration, TimerMode::Repeating).run(deltas).elapsed == total_time(deltas)
            % duration as nat,
        Timer::fresh(duration, TimerMode::Repeating).run(deltas).duration == duration,
        Timer::fresh(duration, TimerMode::Repeating).run(deltas).mode == TimerMode::Repeating,
    decreases deltas.len(),
{
    let d = duration as int;
    if deltas.len() == 0 {
        lemma_basic_div(0, d);
        lemma_small_mod(0, duration as nat);
    } else {
        let before = deltas.drop_last();
        let t = total_time(before) as int;
        let x = clamp_delta(deltas.last()) as int;
        lemma_repeating_counts_periods(duration, before);
        lemma_mod_bound(t, d);
        lemma_div_mod_step(t, x, d);
        let s = t % d + x;
        if s >= d {
            lemma_fundamental_div_mod(s, d);
            lemma_mod_bound(s, d);
            assert(s / d >= 1) by (nonlinear_arith)
                requires
                    s == d * (s / d) + s % d,
                    s % d < d,
                    s >= d,
                    d > 0,
            ;
        } else {
            lemma_basic_div(s, d);
            lemma_small_mod(s as nat, d as nat);
        }
    }
}

} // verus!
