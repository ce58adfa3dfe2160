//! Per-sample parameter smoothing: a control value converges toward a target
//! with bounded, monotonic steps, so host automation never produces audible
//! jumps.
//!
//! Control values are Q16 fixed point (`interp::FRAC_ONE` units per whole
//! unit) and are bounded by [`PARAM_LIMIT`] in magnitude.  Two styles exist:
//! linear (a fixed-size step, reaching the target exactly when the ramp
//! elapses) and logarithmic (a fixed per-call ratio of the remaining
//! distance, rounded up so the target is still reached after finitely many
//! steps).

use vstd::prelude::*;
use vstd::arithmetic::div_mod::{
    lemma_basic_div, lemma_div_is_ordered, lemma_div_by_self, lemma_div_pos_is_pos,
    lemma_multiply_divide_le,
};
use vstd::arithmetic::mul::lemma_mul_inequality;

verus! {

/// Largest magnitude a control value may take, in Q16 units (16.0 whole
/// units).  Keeps all smoothing and delay-mapping arithmetic inside `i64`.
pub const PARAM_LIMIT: i32 = 1048576;

/// Largest ramp duration, in samples.
pub const RAMP_LIMIT: u32 = 16777216;

/// How a smoothed parameter approaches its target.
#[derive(Clone, Copy, PartialEq, Eq, Structural, Debug)]
pub enum SmoothingStyle {
    /// Fixed-size step per call; the target is reached exactly when the ramp
    /// duration elapses.
    Linear,
    /// Fixed ratio of the remaining distance per call (geometric
    /// convergence), rounded away from zero so progress never stalls.
    Logarithmic,
}

/// `x` lies in the closed interval spanned by `a` and `b`, whichever order
/// they come in.
pub open spec fn within_span(a: int, b: int, x: int) -> bool {
    if b >= a {
        a <= x <= b
    } else {
        b <= x <= a
    }
}

/// The value of a linear ramp from `start` to `target` over `total` steps,
/// after `done` steps: `start + (target - start) * done / total`, with the
/// offset rounded toward `start`.  A zero-length ramp jumps to the target on
/// the first step.
pub open spec fn linear_value(start: int, target: int, total: int, done: int) -> int {
    if done <= 0 {
        start
    } else if done >= total {
        target
    } else if target >= start {
        start + (target - start) * done / total
    } else {
        start - (start - target) * done / total
    }
}

/// Number of steps after which a linear ramp has certainly reached its
/// target: the ramp duration, but at least one step.
pub open spec fn ramp_steps(total: int) -> int {
    if total >= 1 {
        total
    } else {
        1
    }
}

/// One logarithmic step from `current` toward `target`: the remaining
/// distance shrinks by its `1/total` part, rounded up so that a nonzero
/// distance always shrinks by at least one unit.
pub open spec fn log_next(current: int, target: int, total: int) -> int {
    if total <= 0 {
        target
    } else if target >= current {
        current + (target - current + total - 1) / total
    } else {
        current - (current - target + total - 1) / total
    }
}

/// Mathematical model of a smoothed parameter.
pub struct SmootherModel {
    pub style: SmoothingStyle,
    pub start: int,
    pub target: int,
    pub ramp_total: int,
    pub steps_done: int,
    pub current: int,
}

impl SmootherModel {
    pub open spec fn wf(self) -> bool {
        &&& -PARAM_LIMIT <= self.start <= PARAM_LIMIT
        &&& -PARAM_LIMIT <= self.target <= PARAM_LIMIT
        &&& 0 <= self.ramp_total <= RAMP_LIMIT
        &&& 0 <= self.steps_done <= ramp_steps(self.ramp_total)
        &&& within_span(self.start, self.target, self.current)
        &&& (self.style == SmoothingStyle::Linear ==> self.current == linear_value(
            self.start,
            self.target,
            self.ramp_total,
            self.steps_done,
        ))
    }

    /// A freshly constructed smoother: at rest on its initial value.
    pub open spec fn init(style: SmoothingStyle, initial: int, ramp_total: int) -> SmootherModel {
        SmootherModel {
            style,
            start: initial,
            target: initial,
            ramp_total,
            steps_done: 0,
            current: initial,
        }
    }

    /// Setting a new target restarts convergence from the current value; the
    /// current value itself does not move.
    pub open spec fn retarget(self, value: int) -> SmootherModel {
        SmootherModel {
            style: self.style,
            start: self.current,
            target: value,
            ramp_total: self.ramp_total,
            steps_done: 0,
            current: self.current,
        }
    }

    /// Advancing by exactly one sample.
    pub open spec fn step(self) -> SmootherModel {
        match self.style {
            SmoothingStyle::Linear => {
                let done = if self.steps_done < ramp_steps(self.ramp_total) {
                    self.steps_done + 1
                } else {
                    self.steps_done
                };
                SmootherModel {
                    style: self.style,
                    start: self.start,
                    target: self.target,
                    ramp_total: self.ramp_total,
                    steps_done: done,
                    current: linear_value(self.start, self.target, self.ramp_total, done),
                }
            },
            SmoothingStyle::Logarithmic => SmootherModel {
                style: self.style,
                start: self.start,
                target: self.target,
                ramp_total: self.ramp_total,
                steps_done: self.steps_done,
                current: log_next(self.current, self.target, self.ramp_total),
            },
        }
    }

    /// Advancing by `n` samples.
    pub open spec fn advanced(self, n: nat) -> SmootherModel
        decreases n,
    {
        if n == 0 {
            self
        } else {
            self.advanced((n - 1) as nat).step()
        }
    }
}

/// The scaled ramp offset `d * done / total` never exceeds `d` and never
/// goes negative.
proof fn lemma_ratio_bounds(d: int, done: int, total: int)
    requires
        0 <= d,
        0 < total,
        0 <= done <= total,
    ensures
        0 <= d * done / total <= d,
{
    lemma_mul_inequality(done, total, d);
    assert(d * done <= total * d);
    lemma_multiply_divide_le(d * done, total, d);
    lemma_div_pos_is_pos(d * done, total);
    assert(d * done >= 0) by (nonlinear_arith)
        requires 0 <= d, 0 <= done;
}

/// The scaled ramp offset grows with the number of steps taken.
proof fn lemma_ratio_monotone(d: int, done1: int, done2: int, total: int)
    requires
        0 <= d,
        0 < total,
        0 <= done1 <= done2,
    ensures
        d * done1 / total <= d * done2 / total,
{
    lemma_mul_inequality(done1, done2, d);
    lemma_div_is_ordered(d * done1, d * done2, total);
}

/// A linear ramp stays within the interval spanned by its endpoints.
proof fn lemma_linear_value_bounds(start: int, target: int, total: int, done: int)
    requires
        0 <= done,
    ensures
        within_span(start, target, linear_value(start, target, total, done)),
{
    if 0 < done < total {
        if target >= start {
            lemma_ratio_bounds(target - start, done, total);
        } else {
            lemma_ratio_bounds(start - target, done, total);
        }
    }
}

/// A linear ramp moves monotonically: a later step is never on the far side
/// of an earlier one, in either direction.
proof fn lemma_linear_value_monotone(start: int, target: int, total: int, done1: int, done2: int)
    requires
        0 <= done1 <= done2,
    ensures
        target >= start ==> linear_value(start, target, total, done1) <= linear_value(
            start,
            target,
            total,
            done2,
        ),
        target <= start ==> linear_value(start, target, total, done1) >= linear_value(
            start,
            target,
            total,
            done2,
        ),
{
    lemma_linear_value_bounds(start, target, total, done1);
    lemma_linear_value_bounds(start, target, total, done2);
    if 0 < done1 && done2 < total {
        if target >= start {
            lemma_ratio_monotone(target - start, done1, done2, total);
        } else {
            lemma_ratio_monotone(start - target, done1, done2, total);
        }
    }
}

/// The rounded-up ratio step `(d + total - 1) / total` of a nonzero distance
/// `d` moves at least one unit and never past the target.
proof fn lemma_ceil_ratio_bounds(d: int, total: int)
    requires
        0 <= d,
        1 <= total,
    ensures
        d == 0 ==> (d + total - 1) / total == 0,
        d >= 1 ==> 1 <= (d + total - 1) / total <= d,
{
    if d == 0 {
        lemma_basic_div(total - 1, total);
    } else {
        lemma_div_by_self(total);
        lemma_div_is_ordered(total, d + total - 1, total);
        assert(d + total - 1 <= total * d) by (nonlinear_arith)
            requires 1 <= total, 1 <= d;
        lemma_multiply_divide_le(d + total - 1, total, d);
    }
}

/// One smoothing step keeps the model well formed, leaves the ramp
/// configuration and target alone, and moves the current value toward the
/// target without overshooting it.
pub proof fn lemma_step_toward_target(m: SmootherModel)
    requires
        m.wf(),
    ensures
        m.step().wf(),
        m.step().style == m.style,
        m.step().start == m.start,
        m.step().target == m.target,
        m.step().ramp_total == m.ramp_total,
        within_span(m.current, m.target, m.step().current),
{
    match m.style {
        SmoothingStyle::Linear => {
            let done = m.step().steps_done;
            lemma_linear_value_bounds(m.start, m.target, m.ramp_total, m.steps_done);
            lemma_linear_value_bounds(m.start, m.target, m.ramp_total, done);
            lemma_linear_value_monotone(m.start, m.target, m.ramp_total, m.steps_done, done);
        },
        SmoothingStyle::Logarithmic => {
            if m.ramp_total > 0 {
                if m.target >= m.current {
                    lemma_ceil_ratio_bounds(m.target - m.current, m.ramp_total);
                } else {
                    lemma_ceil_ratio_bounds(m.current - m.target, m.ramp_total);
                }
            }
        },
    }
}

/// Convergence is monotonic: under a constant target, the smoothed value at
/// any later sample lies between the value at any earlier sample and the
/// target — it never backs away and never overshoots, in either direction.
pub proof fn lemma_smoothing_monotone(m: SmootherModel, n1: nat, n2: nat)
    requires
        m.wf(),
        n1 <= n2,
    ensures
        m.advanced(n2).wf(),
        within_span(m.advanced(n1).current, m.target, m.advanced(n2).current),
    decreases n2,
{
    if n2 == 0 {
    } else if n1 == n2 {
        lemma_smoothing_monotone(m, (n1 - 1) as nat, (n2 - 1) as nat);
        lemma_step_toward_target(m.advanced((n2 - 1) as nat));
    } else {
        lemma_smoothing_monotone(m, n1, (n2 - 1) as nat);
        lemma_step_toward_target(m.advanced((n2 - 1) as nat));
        lemma_advanced_fields(m, (n2 - 1) as nat);
    }
}

/// Advancing never changes the ramp configuration, endpoints, or style.
pub proof fn lemma_advanced_fields(m: SmootherModel, n: nat)
    requires
        m.wf(),
    ensures
        m.advanced(n).wf(),
        m.advanced(n).style == m.style,
        m.advanced(n).target == m.target,
        m.advanced(n).ramp_total == m.ramp_total,
    decreases n,
{
    if n > 0 {
        lemma_advanced_fields(m, (n - 1) as nat);
        lemma_step_toward_target(m.advanced((n - 1) as nat));
    }
}

/// A linear ramp reaches its target exactly — not merely within tolerance —
/// once the ramp duration has elapsed under a constant target, and holds it.
pub proof fn lemma_linear_ramp_converges(m: SmootherModel, n: nat)
    requires
        m.wf(),
        m.style == SmoothingStyle::Linear,
        n >= ramp_steps(m.ramp_total) - m.steps_done,
    ensures
        m.advanced(n).wf(),
        m.advanced(n).current == m.target,
    decreases n,
{
    if n == 0 {
        assert(m.steps_done >= ramp_steps(m.ramp_total) >= 1);
    } else {
        lemma_step_toward_target(m);
        lemma_linear_ramp_converges(m.step(), (n - 1) as nat);
        assert(m.step().advanced((n - 1) as nat) == m.advanced(n)) by {
            lemma_advanced_shift(m, (n - 1) as nat);
        }
    }
}

/// Advancing `n + 1` samples is one step and then `n` samples.
proof fn lemma_advanced_shift(m: SmootherModel, n: nat)
    ensures
        m.step().advanced(n) == m.advanced(n + 1),
    decreases n,
{
    if n == 0 {
        assert(m.advanced(1) == m.advanced(0).step());
    } else {
        lemma_advanced_shift(m, (n - 1) as nat);
        assert(m.step().advanced(n) == m.step().advanced((n - 1) as nat).step());
        assert(m.advanced(n + 1) == m.advanced(n).step());
    }
}

/// A logarithmic smoother, too, reaches its target exactly after finitely
/// many samples under a constant target: at most the fixed-point distance to
/// the target, since every step closes at least one unit.
pub proof fn lemma_log_converges(m: SmootherModel, n: nat)
    requires
        m.wf(),
        m.style == SmoothingStyle::Logarithmic,
        n >= abs_diff(m.current, m.target),
    ensures
        m.advanced(n).wf(),
        m.advanced(n).current == m.target,
    decreases n,
{
    lemma_step_toward_target(m);
    if m.current == m.target {
        lemma_log_holds_target(m, n);
    } else {
        if m.ramp_total > 0 {
            if m.target >= m.current {
                lemma_ceil_ratio_bounds(m.target - m.current, m.ramp_total);
            } else {
                lemma_ceil_ratio_bounds(m.current - m.target, m.ramp_total);
            }
        }
        assert(abs_diff(m.step().current, m.target) < abs_diff(m.current, m.target));
        lemma_log_converges(m.step(), (n - 1) as nat);
        lemma_advanced_shift(m, (n - 1) as nat);
    }
}

/// Distance between two control values.
pub open spec fn abs_diff(a: int, b: int) -> int {
    if a >= b {
        a - b
    } else {
        b - a
    }
}

/// A smoother that sits on its target stays there.
proof fn lemma_log_holds_target(m: SmootherModel, n: nat)
    requires
        m.wf(),
        m.style == SmoothingStyle::Logarithmic,
        m.current == m.target,
    ensures
        m.advanced(n).wf(),
        m.advanced(n).current == m.target,
    decreases n,
{
    if n > 0 {
        lemma_step_toward_target(m);
        lemma_log_holds_target(m.step(), (n - 1) as nat);
        lemma_advanced_shift(m, (n - 1) as nat);
    }
}

/// A control parameter smoothed once per audio sample.
pub struct SmoothedParameter {
    style: SmoothingStyle,
    start: i32,
    target: i32,
    ramp_total: u32,
    steps_done: u32,
    current: i32,
}

impl View for SmoothedParameter {
    type V = SmootherModel;

    closed spec fn view(&self) -> SmootherModel {
        SmootherModel {
            style: self.style,
            start: self.start as int,
            target: self.target as int,
            ramp_total: self.ramp_total as int,
            steps_done: self.steps_done as int,
            current: self.current as int,
        }
    }
}

impl SmoothedParameter {
    pub fn new(style: SmoothingStyle, initial: i32, ramp_total: u32) -> (r: SmoothedParameter)
        requires
            -PARAM_LIMIT <= initial <= PARAM_LIMIT,
            ramp_total <= RAMP_LIMIT,
        ensures
            r@ == SmootherModel::init(style, initial as int, ramp_total as int),
            r@.wf(),
    {
        SmoothedParameter { style, start: initial, target: initial, ramp_total, steps_done: 0, current: initial }
    }

    /// Restores the smoother to its freshly constructed state on `initial`.
    pub fn reset(&mut self, initial: i32)
        requires
            old(self)@.wf(),
            -PARAM_LIMIT <= initial <= PARAM_LIMIT,
        ensures
            final(self)@ == SmootherModel::init(old(self)@.style, initial as int, old(self)@.ramp_total),
            final(self)@.wf(),
    {
        self.start = initial;
        self.target = initial;
        self.steps_done = 0;
        self.current = initial;
    }

    /// Aims the smoother at a new target; convergence restarts from the
    /// current value, which itself does not jump.
    pub fn set_target(&mut self, value: i32)
        requires
            old(self)@.wf(),
            -PARAM_LIMIT <= value <= PARAM_LIMIT,
        ensures
            final(self)@ == old(self)@.retarget(value as int),
            final(self)@.wf(),
            final(self)@.current == old(self)@.current,
    {
        self.start = self.current;
        self.target = value;
        self.steps_done = 0;
    }

    pub fn current_value(&self) -> (r: i32)
        ensures
            r == self@.current,
    {
        self.current
    }

    pub fn target_value(&self) -> (r: i32)
        ensures
            r == self@.target,
    {
        self.target
    }

    /// Advances the smoother by exactly one sample and returns the new
    /// smoothed value, which moves toward the target without overshooting.
    pub fn next(&mut self) -> (r: i32)
        requires
            old(self)@.wf(),
        ensures
            final(self)@ == old(self)@.step(),
            final(self)@.wf(),
            r == final(self)@.current,
            within_span(old(self)@.current, old(self)@.target, r as int),
    {
        proof {
            lemma_step_toward_target(old(self)@);
        }
        match self.style {
            SmoothingStyle::Linear => {
                let cap = if self.ramp_total >= 1 {
                    self.ramp_total
                } else {
                    1
                };
                if self.steps_done < cap {
                    self.steps_done = self.steps_done + 1;
                }
                self.current = linear_now(self.start, self.target, self.ramp_total, self.steps_done);
            },
            SmoothingStyle::Logarithmic => {
                self.current = log_now(self.current, self.target, self.ramp_total);
            },
        }
        self.current
    }
}

/// The linear ramp value, computed in unsigned `u64` arithmetic.
fn linear_now(start: i32, target: i32, total: u32, done: u32) -> (r: i32)
    requires
        -PARAM_LIMIT <= start <= PARAM_LIMIT,
        -PARAM_LIMIT <= target <= PARAM_LIMIT,
        total <= RAMP_LIMIT,
        done <= ramp_steps(total as int),
    ensures
        r == linear_value(start as int, target as int, total as int, done as int),
{
    proof {
        lemma_linear_value_bounds(start as int, target as int, total as int, done as int);
    }
    if done == 0 {
        start
    } else if done >= total {
        target
    } else if target >= start {
        let d: u64 = ((target as i64) - (start as i64)) as u64;
        proof {
            assert(d * (done as u64) <= 2097152 * 16777216) by (nonlinear_arith)
                requires
                    d <= 2097152,
                    done <= 16777216;
        }
        let q: u64 = (d * (done as u64)) / (total as u64);
        proof {
            lemma_ratio_bounds(d as int, done as int, total as int);
        }
        ((start as i64) + (q as i64)) as i32
    } else {
        let d: u64 = ((start as i64) - (target as i64)) as u64;
        proof {
            assert(d * (done as u64) <= 2097152 * 16777216) by (nonlinear_arith)
                requires
                    d <= 2097152,
                    done <= 16777216;
        }
        let q: u64 = (d * (done as u64)) / (total as u64);
        proof {
            lemma_ratio_bounds(d as int, done as int, total as int);
        }
        ((start as i64) - (q as i64)) as i32
    }
}

/// One logarithmic step, computed in unsigned `u64` arithmetic.
fn log_now(current: i32, target: i32, total: u32) -> (r: i32)
    requires
        -PARAM_LIMIT <= current <= PARAM_LIMIT,
        -PARAM_LIMIT <= target <= PARAM_LIMIT,
        total <= RAMP_LIMIT,
    ensures
        r == log_next(current as int, target as int, total as int),
{
    if total == 0 {
        target
    } else if target >= current {
        let d: u64 = ((target as i64) - (current as i64)) as u64;
        let s: u64 = (d + (total as u64) - 1) / (total as u64);
        proof {
            lemma_ceil_ratio_bounds(d as int, total as int);
        }
        ((current as i64) + (s as i64)) as i32
    } else {
        let d: u64 = ((current as i64) - (target as i64)) as u64;
        let s: u64 = (d + (total as u64) - 1) / (total as u64);
        proof {
            lemma_ceil_ratio_bounds(d as int, total as int);
        }
        ((current as i64) - (s as i64)) as i32
    }
}

} // verus!
