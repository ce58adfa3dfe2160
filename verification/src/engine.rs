//! The delay engine: once per sample it writes the input into the ring
//! buffer, advances the parameter smoothers, maps the smoothed controls to a
//! fractional delay length, wraps the read position into the buffer, and
//! interpolates the output.
//!
//! The engine processes one logical stream through a single shared delay
//! line; a multi-channel caller collapses its channels onto that stream and
//! fans the output back out.  The read position is taken one sample behind
//! the write cursor, so a delay of zero reproduces the sample written in the
//! same step.

use vstd::prelude::*;
use vstd::arithmetic::div_mod::{
    lemma_fundamental_div_mod, lemma_fundamental_div_mod_converse_mod, lemma_mod_bound,
    lemma_mod_multiples_basic, lemma_multiply_divide_lt, lemma_small_mod,
};
use crate::interp::{FRAC_ONE, interpolate, lerp_spec, lemma_lerp_bounds};
use crate::ring_buffer::{RingBuffer, RingModel};
use crate::smoother::{
    PARAM_LIMIT, RAMP_LIMIT, SmoothedParameter, SmootherModel, SmoothingStyle,
    lemma_step_toward_target,
};

verus! {

/// Longest supported delay, in seconds of history the ring buffer holds.
pub const MAX_DELAY_SECONDS: u32 = 3;

/// Largest supported sample rate, in samples per second.
pub const MAX_SAMPLE_RATE: u32 = 1000000;

/// Largest supported delay scale, in samples per whole unit of the combined
/// control product.
pub const SCALE_LIMIT: u32 = 1048576;

/// Host-facing description of one control parameter: its range, initial
/// value, and smoothing configuration.  Plain data, no dynamic dispatch.
#[derive(Clone, Copy, Debug)]
pub struct ParamDescriptor {
    /// Smallest admissible target value, Q16.
    pub min: i32,
    /// Largest admissible target value, Q16.
    pub max: i32,
    /// Value the parameter starts on and returns to at reset, Q16.
    pub initial: i32,
    /// Ramp duration in samples; zero disables smoothing.
    pub ramp_samples: u32,
    pub style: SmoothingStyle,
}

impl ParamDescriptor {
    pub open spec fn wf(self) -> bool {
        &&& -PARAM_LIMIT <= self.min
        &&& self.min <= self.initial <= self.max
        &&& self.max <= PARAM_LIMIT
        &&& self.ramp_samples <= RAMP_LIMIT
    }

    /// Runtime check mirroring well-formedness.
    pub fn is_valid(&self) -> (r: bool)
        ensures
            r == self.wf(),
    {
        -PARAM_LIMIT <= self.min && self.min <= self.initial && self.initial <= self.max
            && self.max <= PARAM_LIMIT && self.ramp_samples <= RAMP_LIMIT
    }
}

/// `v` clamped into the closed interval `[lo, hi]`.
pub open spec fn clamped(v: int, lo: int, hi: int) -> int {
    if v < lo {
        lo
    } else if v > hi {
        hi
    } else {
        v
    }
}

/// Integer division rounding toward zero, for a positive divisor.
pub open spec fn div_toward_zero(n: int, d: int) -> int {
    if n >= 0 {
        n / d
    } else {
        -((-n) / d)
    }
}

/// The delay length in Q16 samples that the smoothed controls map to:
/// `dive * depth * scale`, with the Q32 product reduced back to Q16.  The
/// result may be negative (a negative excursion wraps into buffer history);
/// its magnitude is clamped to `capacity - 1` samples so the read position
/// can never overtake the write cursor into unwritten territory.
pub open spec fn delay_fp_spec(dive: int, depth: int, scale: int, capacity: int) -> int {
    let raw = div_toward_zero(dive * depth * scale, FRAC_ONE as int);
    let limit = (capacity - 1) * 65536;
    clamped(raw, -limit, limit)
}

/// The wrapped fractional read position, in Q16 units within
/// `[0, capacity * FRAC_ONE)`: one sample behind the (already advanced)
/// write cursor, minus the delay, wrapped into the buffer.
pub open spec fn read_pos_fp(write_index: int, capacity: int, delay_fp: int) -> int {
    let span = capacity * 65536;
    let base = (write_index - 1) * 65536 - delay_fp;
    let once = if base < 0 {
        base + span
    } else {
        base
    };
    if once >= span {
        once - span
    } else {
        once
    }
}

/// For every parameter combination across the full admissible range of dive
/// and depth — not merely the configured subrange — the computed read
/// position, and with it the read index, stays within the buffer.
pub proof fn lemma_read_position_in_range(
    dive: int,
    depth: int,
    scale: int,
    capacity: int,
    write_index: int,
)
    requires
        -PARAM_LIMIT <= dive <= PARAM_LIMIT,
        -PARAM_LIMIT <= depth <= PARAM_LIMIT,
        1 <= scale <= SCALE_LIMIT,
        1 <= capacity,
        0 <= write_index < capacity,
    ensures
        0 <= read_pos_fp(write_index, capacity, delay_fp_spec(dive, depth, scale, capacity))
            < capacity * 65536,
        0 <= read_pos_fp(write_index, capacity, delay_fp_spec(dive, depth, scale, capacity))
            / (FRAC_ONE as int) < capacity,
{
    let one = FRAC_ONE as int;
    let d = delay_fp_spec(dive, depth, scale, capacity);
    assert(-(capacity - 1) * one <= d <= (capacity - 1) * one);
    let rp = read_pos_fp(write_index, capacity, d);
    assert(0 <= rp < capacity * one);
    lemma_multiply_divide_lt(rp, one, capacity);
    vstd::arithmetic::div_mod::lemma_div_pos_is_pos(rp, one);
}

/// Mathematical model of the whole engine.
pub struct EngineModel {
    pub ring: RingModel,
    pub dive: SmootherModel,
    pub depth: SmootherModel,
    pub dive_desc: ParamDescriptor,
    pub depth_desc: ParamDescriptor,
    pub scale: int,
    pub sample_rate: int,
}

impl EngineModel {
    pub open spec fn capacity(self) -> int {
        self.ring.capacity()
    }

    pub open spec fn wf(self) -> bool {
        &&& self.ring.wf()
        &&& self.dive.wf()
        &&& self.depth.wf()
        &&& self.dive_desc.wf()
        &&& self.depth_desc.wf()
        &&& self.dive.style == self.dive_desc.style
        &&& self.dive.ramp_total == self.dive_desc.ramp_samples
        &&& self.depth.style == self.depth_desc.style
        &&& self.depth.ramp_total == self.depth_desc.ramp_samples
        &&& 1 <= self.scale <= SCALE_LIMIT
        &&& 1 <= self.sample_rate <= MAX_SAMPLE_RATE
        &&& self.capacity() == 3 * self.sample_rate
    }

    /// The state of a freshly constructed engine: a zeroed buffer sized from
    /// the negotiated sample rate, both smoothers at rest on their initial
    /// values.
    pub open spec fn fresh(
        dive_desc: ParamDescriptor,
        depth_desc: ParamDescriptor,
        scale: int,
        sample_rate: int,
    ) -> EngineModel {
        EngineModel {
            ring: RingModel::zeroed(3 * sample_rate),
            dive: SmootherModel::init(
                dive_desc.style,
                dive_desc.initial as int,
                dive_desc.ramp_samples as int,
            ),
            depth: SmootherModel::init(
                depth_desc.style,
                depth_desc.initial as int,
                depth_desc.ramp_samples as int,
            ),
            dive_desc,
            depth_desc,
            scale,
            sample_rate,
        }
    }

    /// What reset leaves behind: exactly a fresh engine with the same
    /// configuration.
    pub open spec fn reset_spec(self) -> EngineModel {
        EngineModel::fresh(self.dive_desc, self.depth_desc, self.scale, self.sample_rate)
    }

    /// The state after processing one input sample.
    pub open spec fn after_sample(self, input: i32) -> EngineModel {
        EngineModel {
            ring: self.ring.write(input),
            dive: self.dive.step(),
            depth: self.depth.step(),
            dive_desc: self.dive_desc,
            depth_desc: self.depth_desc,
            scale: self.scale,
            sample_rate: self.sample_rate,
        }
    }

    /// The delay length, in Q16 samples, used while processing one sample:
    /// the smoothers advance first, then their values are mapped.
    pub open spec fn sample_delay_fp(self) -> int {
        delay_fp_spec(self.dive.step().current, self.depth.step().current, self.scale, self.capacity())
    }

    /// The wrapped fractional read position used while processing one sample.
    pub open spec fn sample_read_pos(self, input: i32) -> int {
        read_pos_fp(self.ring.write(input).write_index, self.capacity(), self.sample_delay_fp())
    }

    /// The output sample: the weighted interpolation between the two buffer
    /// entries around the read position, after the input has been written.
    pub open spec fn sample_output(self, input: i32) -> int {
        let ring1 = self.ring.write(input);
        let rp = self.sample_read_pos(input);
        let one = FRAC_ONE as int;
        let lo = rp / one;
        let fr = rp % one;
        let hi = if lo + 1 == self.capacity() {
            0
        } else {
            lo + 1
        };
        lerp_spec(ring1.samples[lo] as int, ring1.samples[hi] as int, fr)
    }

    /// The state after processing a whole block, first sample first.
    pub open spec fn run(self, inputs: Seq<i32>) -> EngineModel
        decreases inputs.len(),
    {
        if inputs.len() == 0 {
            self
        } else {
            self.run(inputs.drop_last()).after_sample(inputs.last())
        }
    }

    /// The output samples a whole block produces.
    pub open spec fn outputs(self, inputs: Seq<i32>) -> Seq<int>
        decreases inputs.len(),
    {
        if inputs.len() == 0 {
            Seq::empty()
        } else {
            self.outputs(inputs.drop_last()).push(
                self.run(inputs.drop_last()).sample_output(inputs.last()),
            )
        }
    }
}

/// A block produces exactly one output sample per input sample.
pub proof fn lemma_outputs_len(m: EngineModel, inputs: Seq<i32>)
    ensures
        m.outputs(inputs).len() == inputs.len(),
    decreases inputs.len(),
{
    if inputs.len() > 0 {
        lemma_outputs_len(m, inputs.drop_last());
    }
}

/// Resetting an engine restores it, for every subsequent input sequence, to
/// the output behavior of a freshly constructed engine with the same
/// configuration, regardless of prior processing history.
pub proof fn lemma_reset_restores_fresh_behavior(m: EngineModel, inputs: Seq<i32>)
    ensures
        m.reset_spec().outputs(inputs) == EngineModel::fresh(
            m.dive_desc,
            m.depth_desc,
            m.scale,
            m.sample_rate,
        ).outputs(inputs),
        m.reset_spec().run(inputs) == EngineModel::fresh(
            m.dive_desc,
            m.depth_desc,
            m.scale,
            m.sample_rate,
        ).run(inputs),
{
}

/// When the mapped delay is a whole number `k` of samples, the interpolation
/// fraction is zero and the output is the stored sample itself, exactly —
/// no blending error — read from the slot exactly `k + 1` behind the
/// advanced write cursor, modulo the capacity: the value written `k` steps
/// before the current input.
pub proof fn lemma_integer_delay_reads_exact(m: EngineModel, input: i32)
    requires
        m.wf(),
        m.sample_delay_fp() % (FRAC_ONE as int) == 0,
    ensures
        m.sample_read_pos(input) % (FRAC_ONE as int) == 0,
        m.sample_read_pos(input) / (FRAC_ONE as int) == (m.ring.write(input).write_index - 1
            - m.sample_delay_fp() / (FRAC_ONE as int)) % m.capacity(),
        m.sample_output(input) == m.ring.write(input).samples[
            m.sample_read_pos(input) / (FRAC_ONE as int)
        ],
{
    lemma_step_toward_target(m.dive);
    lemma_step_toward_target(m.depth);
    lemma_read_position_in_range(
        m.dive.step().current,
        m.depth.step().current,
        m.scale,
        m.capacity(),
        m.ring.write(input).write_index,
    );
    let one = FRAC_ONE as int;
    let cap = m.capacity();
    let d = m.sample_delay_fp();
    let wi = m.ring.write(input).write_index;
    let base = (wi - 1) * one - d;
    lemma_fundamental_div_mod(d, one);
    let k = d / one;
    assert(d == one * k);
    assert(base == one * (wi - 1 - k)) by (nonlinear_arith)
        requires
            base == (wi - 1) * one - d,
            d == one * k;
    let rp = m.sample_read_pos(input);
    assert(rp == base || rp == base + cap * one || rp == base - cap * one);
    let q = if rp == base {
        wi - 1 - k
    } else if rp == base + cap * one {
        wi - 1 - k + cap
    } else {
        wi - 1 - k - cap
    };
    assert(rp == one * q) by (nonlinear_arith)
        requires
            base == one * (wi - 1 - k),
            rp == base && q == wi - 1 - k || rp == base + cap * one && q == wi - 1 - k + cap
                || rp == base - cap * one && q == wi - 1 - k - cap;
    lemma_mod_multiples_basic(q, one);
    assert((one * q) % one == 0);
    let lo = rp / one;
    assert(0 <= lo < cap);
    assert(rp == one * lo + rp % one) by {
        lemma_fundamental_div_mod(rp, one);
    }
    assert(lo == q) by (nonlinear_arith)
        requires
            rp == one * q,
            rp == one * lo,
            one >= 1;
    if rp == base {
        lemma_fundamental_div_mod_converse_mod(wi - 1 - k, cap, 0, q);
    } else if rp == base + cap * one {
        lemma_fundamental_div_mod_converse_mod(wi - 1 - k, cap, -1, q);
    } else {
        lemma_fundamental_div_mod_converse_mod(wi - 1 - k, cap, 1, q);
    }
    let ring1 = m.ring.write(input);
    let hi = if lo + 1 == cap {
        0
    } else {
        lo + 1
    };
    lemma_lerp_bounds(ring1.samples[lo] as int, ring1.samples[hi] as int, rp % one);
}

/// Running a block only ever writes the inputs into the ring in order, and
/// smoothers that sit on their target with smoothing disabled stay there for
/// the whole block.
proof fn lemma_run_with_settled_smoothers(m: EngineModel, inputs: Seq<i32>)
    requires
        m.wf(),
        m.dive.ramp_total == 0,
        m.depth.ramp_total == 0,
        m.dive.current == m.dive.target,
        m.depth.current == m.depth.target,
    ensures
        m.run(inputs).wf(),
        m.run(inputs).ring == m.ring.write_all(inputs),
        m.run(inputs).dive.ramp_total == 0,
        m.run(inputs).depth.ramp_total == 0,
        m.run(inputs).dive.current == m.dive.current,
        m.run(inputs).dive.target == m.dive.target,
        m.run(inputs).depth.current == m.depth.current,
        m.run(inputs).depth.target == m.depth.target,
        m.run(inputs).dive_desc == m.dive_desc,
        m.run(inputs).depth_desc == m.depth_desc,
        m.run(inputs).scale == m.scale,
        m.run(inputs).sample_rate == m.sample_rate,
    decreases inputs.len(),
{
    if inputs.len() > 0 {
        lemma_run_with_settled_smoothers(m, inputs.drop_last());
        let prev = m.run(inputs.drop_last());
        lemma_step_toward_target(prev.dive);
        lemma_step_toward_target(prev.depth);
    }
}

/// The Q16 delay that a fresh configuration maps its initial control values
/// to.
pub open spec fn initial_delay_fp(
    dive_desc: ParamDescriptor,
    depth_desc: ParamDescriptor,
    scale: int,
    sample_rate: int,
) -> int {
    delay_fp_spec(dive_desc.initial as int, depth_desc.initial as int, scale, 3 * sample_rate)
}

/// That delay as a whole number of samples.
pub open spec fn initial_delay_samples(
    dive_desc: ParamDescriptor,
    depth_desc: ParamDescriptor,
    scale: int,
    sample_rate: int,
) -> int {
    initial_delay_fp(dive_desc, depth_desc, scale, sample_rate) / (FRAC_ONE as int)
}

/// With smoothing disabled and the controls sitting on values that map to a
/// constant whole-sample delay `k`, a fresh engine echoes its input delayed
/// by exactly `k` samples: output `n` is the input written `k` samples
/// earlier, and zero while the delay still reaches into the zeroed history.
pub proof fn lemma_constant_delay_echoes_history(
    dive_desc: ParamDescriptor,
    depth_desc: ParamDescriptor,
    scale: int,
    sample_rate: int,
    inputs: Seq<i32>,
)
    requires
        dive_desc.wf(),
        depth_desc.wf(),
        dive_desc.ramp_samples == 0,
        depth_desc.ramp_samples == 0,
        1 <= scale <= SCALE_LIMIT,
        1 <= sample_rate <= MAX_SAMPLE_RATE,
        initial_delay_fp(dive_desc, depth_desc, scale, sample_rate) % (FRAC_ONE as int) == 0,
        initial_delay_fp(dive_desc, depth_desc, scale, sample_rate) >= 0,
        inputs.len() + initial_delay_samples(dive_desc, depth_desc, scale, sample_rate)
            <= 3 * sample_rate,
    ensures
        EngineModel::fresh(dive_desc, depth_desc, scale, sample_rate).outputs(inputs).len()
            == inputs.len(),
        forall|n: int|
            0 <= n < inputs.len() ==> EngineModel::fresh(
                dive_desc,
                depth_desc,
                scale,
                sample_rate,
            ).outputs(inputs)[n] == (if n >= initial_delay_samples(
                dive_desc,
                depth_desc,
                scale,
                sample_rate,
            ) {
                inputs[n - initial_delay_samples(dive_desc, depth_desc, scale, sample_rate)] as int
            } else {
                0
            }),
    decreases inputs.len(),
{
    let one = FRAC_ONE as int;
    let cap = 3 * sample_rate;
    let m = EngineModel::fresh(dive_desc, depth_desc, scale, sample_rate);
    let dfp = initial_delay_fp(dive_desc, depth_desc, scale, sample_rate);
    let k = dfp / one;
    lemma_fundamental_div_mod(dfp, one);
    vstd::arithmetic::div_mod::lemma_div_pos_is_pos(dfp, one);
    lemma_outputs_len(m, inputs);
    assert(m.wf()) by {
        crate::ring_buffer::lemma_cursor_after_writes(m.ring, Seq::empty());
    }
    if inputs.len() > 0 {
        let prefix = inputs.drop_last();
        let n = inputs.len() - 1;
        lemma_constant_delay_echoes_history(dive_desc, depth_desc, scale, sample_rate, prefix);
        lemma_outputs_len(m, prefix);
        lemma_run_with_settled_smoothers(m, prefix);
        let mp = m.run(prefix);
        // The smoothers still sit on the initial values, so this step uses
        // the same whole-sample delay.
        lemma_step_toward_target(mp.dive);
        lemma_step_toward_target(mp.depth);
        assert(mp.sample_delay_fp() == dfp);
        lemma_integer_delay_reads_exact(mp, inputs.last());
        // The buffer after this step's write holds exactly the inputs so
        // far, in order, over zeroed history.
        assert(mp.ring.write(inputs.last()) == m.ring.write_all(inputs));
        crate::ring_buffer::lemma_writes_fill_fresh_buffer(cap, inputs);
        crate::ring_buffer::lemma_cursor_after_writes(m.ring, inputs);
        let wi = mp.ring.write(inputs.last()).write_index;
        lemma_mod_bound(inputs.len() as int, cap);
        assert(wi == inputs.len() as int % cap);
        // The slot the read lands on: `n - k`, wrapped once if negative.
        let slot = (wi - 1 - k) % cap;
        assert(slot == (n - k) % cap) by {
            lemma_fundamental_div_mod(inputs.len() as int, cap);
            let laps = inputs.len() as int / cap;
            lemma_fundamental_div_mod(wi - 1 - k, cap);
            lemma_mod_bound(wi - 1 - k, cap);
            let q1 = (wi - 1 - k) / cap;
            let r1 = (wi - 1 - k) % cap;
            assert((q1 + laps) * cap + r1 == n - k) by (nonlinear_arith)
                requires
                    wi - 1 - k == cap * q1 + r1,
                    inputs.len() as int == cap * laps + wi,
                    n == inputs.len() - 1;
            lemma_fundamental_div_mod_converse_mod(n - k, cap, q1 + laps, r1);
        }
        if n >= k {
            lemma_small_mod((n - k) as nat, cap as nat);
            assert(slot == n - k);
            assert(m.ring.write_all(inputs).samples[slot] == inputs[n - k]);
        } else {
            // The read reaches `k - n` samples into the zeroed history.
            lemma_fundamental_div_mod_converse_mod(n - k, cap, -1, n - k + cap);
            assert(slot == n - k + cap);
            assert(inputs.len() <= slot < cap);
            assert(m.ring.write_all(inputs).samples[slot] == 0i32);
        }
        assert(m.outputs(inputs)[n] == mp.sample_output(inputs.last()));
    }
}

/// The real-time delay engine.
pub struct DelayEngine {
    ring: RingBuffer,
    dive: SmoothedParameter,
    depth: SmoothedParameter,
    dive_desc: ParamDescriptor,
    depth_desc: ParamDescriptor,
    scale: u32,
    sample_rate: u32,
}

impl View for DelayEngine {
    type V = EngineModel;

    closed spec fn view(&self) -> EngineModel {
        EngineModel {
            ring: self.ring@,
            dive: self.dive@,
            depth: self.depth@,
            dive_desc: self.dive_desc,
            depth_desc: self.depth_desc,
            scale: self.scale as int,
            sample_rate: self.sample_rate as int,
        }
    }
}

impl DelayEngine {
    /// Builds an engine for the negotiated sample rate, allocating
    /// `MAX_DELAY_SECONDS` of zeroed history.  Returns `None` exactly when
    /// the configuration is invalid: a sample rate of zero or beyond
    /// `MAX_SAMPLE_RATE` (which would make the buffer capacity zero or
    /// unrepresentable), a malformed parameter descriptor, or a delay scale
    /// of zero or beyond `SCALE_LIMIT`.
    pub fn try_new(
        sample_rate: u32,
        dive_desc: ParamDescriptor,
        depth_desc: ParamDescriptor,
        scale: u32,
    ) -> (r: Option<DelayEngine>)
        ensures
            r.is_some() == (1 <= sample_rate <= MAX_SAMPLE_RATE && dive_desc.wf()
                && depth_desc.wf() && 1 <= scale <= SCALE_LIMIT),
            r matches Some(engine) ==> engine@ == EngineModel::fresh(
                dive_desc,
                depth_desc,
                scale as int,
                sample_rate as int,
            ) && engine@.wf(),
    {
        if sample_rate < 1 || sample_rate > MAX_SAMPLE_RATE || !dive_desc.is_valid()
            || !depth_desc.is_valid() || scale < 1 || scale > SCALE_LIMIT {
            return None;
        }
        let capacity: usize = (sample_rate * 3) as usize;
        let ring = RingBuffer::new(capacity);
        let dive = SmoothedParameter::new(dive_desc.style, dive_desc.initial, dive_desc.ramp_samples);
        let depth = SmoothedParameter::new(
            depth_desc.style,
            depth_desc.initial,
            depth_desc.ramp_samples,
        );
        Some(DelayEngine { ring, dive, depth, dive_desc, depth_desc, scale, sample_rate })
    }

    pub fn capacity(&self) -> (c: usize)
        ensures
            c == self@.capacity(),
    {
        self.ring.capacity()
    }

    pub fn sample_rate(&self) -> (r: u32)
        ensures
            r == self@.sample_rate,
    {
        self.sample_rate
    }

    /// Aims the dive control at a new target, clamped into its configured
    /// range; the smoothed value approaches it over the configured ramp.
    pub fn set_dive_target(&mut self, value: i32)
        requires
            old(self)@.wf(),
        ensures
            final(self)@.wf(),
            final(self)@ == (EngineModel {
                dive: old(self)@.dive.retarget(clamped(
                    value as int,
                    old(self)@.dive_desc.min as int,
                    old(self)@.dive_desc.max as int,
                )),
                ..old(self)@
            }),
    {
        let lo = self.dive_desc.min;
        let hi = self.dive_desc.max;
        let v = if value < lo {
            lo
        } else if value > hi {
            hi
        } else {
            value
        };
        self.dive.set_target(v);
    }

    /// Aims the depth control at a new target, clamped into its configured
    /// range.
    pub fn set_depth_target(&mut self, value: i32)
        requires
            old(self)@.wf(),
        ensures
            final(self)@.wf(),
            final(self)@ == (EngineModel {
                depth: old(self)@.depth.retarget(clamped(
                    value as int,
                    old(self)@.depth_desc.min as int,
                    old(self)@.depth_desc.max as int,
                )),
                ..old(self)@
            }),
    {
        let lo = self.depth_desc.min;
        let hi = self.depth_desc.max;
        let v = if value < lo {
            lo
        } else if value > hi {
            hi
        } else {
            value
        };
        self.depth.set_target(v);
    }

    /// Processes one input sample: writes it into the buffer, advances both
    /// smoothers by one sample, maps their values to the delay length, and
    /// returns the interpolated output.
    pub fn process_sample(&mut self, input: i32) -> (out: i32)
        requires
            old(self)@.wf(),
        ensures
            final(self)@ == old(self)@.after_sample(input),
            final(self)@.wf(),
            out == old(self)@.sample_output(input),
    {
        let ghost m = old(self)@;
        let cap = self.ring.capacity();
        self.ring.write(input);
        let dive_v = self.dive.next();
        let depth_v = self.depth.next();
        let delay = delay_length_fp(dive_v, depth_v, self.scale, cap);
        let wi = self.ring.write_index();
        let rp = read_position_fp(wi, cap, delay);
        proof {
            lemma_read_position_in_range(
                m.dive.step().current,
                m.depth.step().current,
                m.scale,
                m.capacity(),
                m.ring.write(input).write_index,
            );
            lemma_mod_bound(rp as int, FRAC_ONE as int);
        }
        let lo: usize = ((rp as u64) / (FRAC_ONE as u64)) as usize;
        let fr: u32 = ((rp as u64) % (FRAC_ONE as u64)) as u32;
        let hi: usize = if lo + 1 == cap {
            0
        } else {
            lo + 1
        };
        proof {
            lemma_small_mod(lo as nat, cap as nat);
            lemma_small_mod(hi as nat, cap as nat);
        }
        let s_lo = self.ring.read(lo);
        let s_hi = self.ring.read(hi);
        interpolate(s_lo, s_hi, fr)
    }

    /// Processes a whole block in order, returning one output sample per
    /// input sample.
    pub fn process_block(&mut self, inputs: &Vec<i32>) -> (outs: Vec<i32>)
        requires
            old(self)@.wf(),
        ensures
            final(self)@ == old(self)@.run(inputs@),
            final(self)@.wf(),
            outs@.len() == inputs@.len(),
            forall|j: int| 0 <= j < inputs@.len() ==> outs@[j] == old(self)@.outputs(inputs@)[j],
    {
        let ghost m0 = old(self)@;
        let mut outs: Vec<i32> = Vec::new();
        let mut i: usize = 0;
        while i < inputs.len()
            invariant
                m0.wf(),
                i <= inputs@.len(),
                self@ == m0.run(inputs@.take(i as int)),
                self@.wf(),
                outs@.len() == i,
                forall|j: int| 0 <= j < i ==> outs@[j] == m0.outputs(inputs@.take(i as int))[j],
            decreases inputs@.len() - i,
        {
            let ghost prefix = inputs@.take(i as int);
            let o = self.process_sample(inputs[i]);
            outs.push(o);
            i = i + 1;
            proof {
                let longer = inputs@.take(i as int);
                lemma_outputs_len(m0, prefix);
                lemma_outputs_len(m0, longer);
                assert(longer.drop_last() =~= prefix);
                assert(longer.last() == inputs@[i - 1]);
                assert(m0.run(longer) == m0.run(prefix).after_sample(inputs@[i - 1]));
                assert(m0.outputs(longer) == m0.outputs(prefix).push(
                    m0.run(prefix).sample_output(inputs@[i - 1]),
                ));
            }
        }
        proof {
            assert(inputs@.take(inputs@.len() as int) =~= inputs@);
            lemma_outputs_len(m0, inputs@);
        }
        outs
    }

    /// Zeroes the buffer and returns both smoothers to their configured
    /// initial values, without reallocating: the engine behaves from here on
    /// exactly like a freshly constructed one.
    pub fn reset(&mut self)
        requires
            old(self)@.wf(),
        ensures
            final(self)@ == old(self)@.reset_spec(),
            final(self)@.wf(),
    {
        self.ring.reset();
        self.dive.reset(self.dive_desc.initial);
        self.depth.reset(self.depth_desc.initial);
    }
}

/// The delay length the smoothed controls map to, computed in `i64` and
/// clamped so its magnitude stays below the capacity.
fn delay_length_fp(dive: i32, depth: i32, scale: u32, capacity: usize) -> (r: i64)
    requires
        -PARAM_LIMIT <= dive <= PARAM_LIMIT,
        -PARAM_LIMIT <= depth <= PARAM_LIMIT,
        1 <= scale <= SCALE_LIMIT,
        1 <= capacity <= 3000000,
    ensures
        r == delay_fp_spec(dive as int, depth as int, scale as int, capacity as int),
        -(capacity - 1) * 65536 <= r <= (capacity - 1) * 65536,
{
    proof {
        assert(-1099511627776 <= (dive as i64) * (depth as i64) <= 1099511627776)
            by (nonlinear_arith)
            requires
                -1048576 <= dive <= 1048576,
                -1048576 <= depth <= 1048576;
    }
    let a: i64 = (dive as i64) * (depth as i64);
    proof {
        assert(-1152921504606846976 <= a * (scale as i64) <= 1152921504606846976)
            by (nonlinear_arith)
            requires
                -1099511627776 <= a <= 1099511627776,
                1 <= scale <= 1048576;
    }
    let p: i64 = a * (scale as i64);
    let raw: i64 = if p >= 0 {
        ((p as u64) / 65536) as i64
    } else {
        -((((-p) as u64) / 65536) as i64)
    };
    let limit: i64 = ((capacity as i64) - 1) * 65536;
    if raw > limit {
        limit
    } else if raw < -limit {
        -limit
    } else {
        raw
    }
}

/// The wrapped fractional read position, one sample behind the advanced
/// write cursor minus the delay.
fn read_position_fp(write_index: usize, capacity: usize, delay_fp: i64) -> (r: i64)
    requires
        1 <= capacity <= 3000000,
        write_index < capacity,
        -(capacity - 1) * 65536 <= delay_fp <= (capacity - 1) * 65536,
    ensures
        r == read_pos_fp(write_index as int, capacity as int, delay_fp as int),
        0 <= r < capacity * 65536,
{
    let span: i64 = (capacity as i64) * 65536;
    let base: i64 = (write_index as i64) * 65536 - 65536 - delay_fp;
    let once: i64 = if base < 0 {
        base + span
    } else {
        base
    };
    if once >= span {
        once - span
    } else {
        once
    }
}

} // verus!
