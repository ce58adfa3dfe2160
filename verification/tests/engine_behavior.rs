//! End-to-end tests of the delay engine.

use whammy::engine::{DelayEngine, ParamDescriptor};
use whammy::smoother::SmoothingStyle;

const ONE: i32 = 65536;

/// A descriptor that sits on `initial` with smoothing disabled.
fn fixed(initial: i32) -> ParamDescriptor {
    ParamDescriptor {
        min: -16 * ONE,
        max: 16 * ONE,
        initial,
        ramp_samples: 0,
        style: SmoothingStyle::Linear,
    }
}

#[test]
fn construction_rejects_invalid_configuration() {
    assert!(DelayEngine::try_new(0, fixed(0), fixed(ONE), 1000).is_none());
    assert!(DelayEngine::try_new(1000001, fixed(0), fixed(ONE), 1000).is_none());
    assert!(DelayEngine::try_new(44100, fixed(0), fixed(ONE), 0).is_none());
    assert!(DelayEngine::try_new(44100, fixed(0), fixed(ONE), 1048577).is_none());
    let bad = ParamDescriptor { min: ONE, max: 0, initial: 0, ramp_samples: 0, style: SmoothingStyle::Linear };
    assert!(DelayEngine::try_new(44100, bad, fixed(ONE), 1000).is_none());
    assert!(DelayEngine::try_new(44100, fixed(0), bad, 1000).is_none());
    let engine = DelayEngine::try_new(44100, fixed(0), fixed(ONE), 1000);
    assert!(engine.is_some());
    assert_eq!(engine.unwrap().capacity(), 3 * 44100);
}

#[test]
fn impulse_returns_after_exactly_the_configured_delay() {
    // A 44100-sample buffer; dive and depth fixed at 1.0 with smoothing
    // disabled and 100 samples of delay per unit: a constant 100-sample
    // integer delay.
    let mut engine = DelayEngine::try_new(14700, fixed(ONE), fixed(ONE), 100).unwrap();
    assert_eq!(engine.capacity(), 44100);
    let amplitude = 1 << 20;
    let mut input = vec![0i32; 300];
    input[0] = amplitude;
    let output = engine.process_block(&input);
    assert_eq!(output.len(), 300);
    for (n, &o) in output.iter().enumerate() {
        if n == 100 {
            assert_eq!(o, amplitude, "impulse must reappear at index 100, undimmed");
        } else {
            assert_eq!(o, 0, "unexpected nonzero output at index {n}");
        }
    }
}

#[test]
fn integer_delay_echoes_exactly_with_no_blending() {
    // Delay fixed at exactly 3 samples.
    let mut engine = DelayEngine::try_new(10, fixed(ONE), fixed(ONE), 3).unwrap();
    let input = vec![10, 20, 30, 40, 50, 60];
    let output = engine.process_block(&input);
    assert_eq!(output, vec![0, 0, 0, 10, 20, 30]);
}

#[test]
fn zero_delay_reproduces_the_current_sample() {
    let mut engine = DelayEngine::try_new(10, fixed(ONE), fixed(0), 1000).unwrap();
    let input = vec![5, -6, 7, -8];
    let output = engine.process_block(&input);
    assert_eq!(output, input);
}

#[test]
fn fractional_delay_blends_the_two_neighbors() {
    // dive 0.5, depth 1.0, 5 samples per unit: a constant delay of exactly
    // 2.5 samples.
    let mut engine = DelayEngine::try_new(10, fixed(ONE / 2), fixed(ONE), 5).unwrap();
    let input: Vec<i32> = (0..8).map(|n| n * 1000).collect();
    let output = engine.process_block(&input);
    // Each output is the halfway blend of the samples 3 and 2 steps back;
    // the first three fall in zeroed history.
    assert_eq!(output, vec![0, 0, 0, 500, 1500, 2500, 3500, 4500]);
}

#[test]
fn negative_dive_reads_across_the_wrap() {
    // dive -1.0 at 2 samples per unit: a delay of -2 samples, wrapping the
    // read position ahead of the write cursor into the oldest history.
    let mut engine = DelayEngine::try_new(10, fixed(-ONE), fixed(ONE), 2).unwrap();
    let capacity = engine.capacity();
    assert_eq!(capacity, 30);
    let input = vec![7i32; 60];
    let output = engine.process_block(&input);
    for n in 0..60 {
        // The read lands two slots ahead of the newest sample, which stays
        // zero until the cursor has nearly lapped the buffer.
        let expected = if n < capacity - 2 { 0 } else { 7 };
        assert_eq!(output[n], expected, "at sample {n}");
    }
}

#[test]
fn oversized_delays_clamp_below_the_capacity() {
    // The extreme corner of the parameter space maps far beyond the buffer;
    // the delay clamps to capacity - 1 = 2 samples and stays in bounds.
    let mut engine = DelayEngine::try_new(1, fixed(16 * ONE), fixed(16 * ONE), 1048576).unwrap();
    assert_eq!(engine.capacity(), 3);
    let input = vec![5, 6, 7, 8, 9];
    let output = engine.process_block(&input);
    assert_eq!(output, vec![0, 0, 5, 6, 7]);
}

#[test]
fn smoothed_dive_sweeps_the_delay() {
    // With a ramp, the delay glides: outputs come from progressively more
    // delayed positions without ever leaving the buffer.
    let dive = ParamDescriptor {
        min: 0,
        max: ONE,
        initial: 0,
        ramp_samples: 50,
        style: SmoothingStyle::Linear,
    };
    let mut engine = DelayEngine::try_new(100, dive, fixed(ONE), 20).unwrap();
    engine.set_dive_target(ONE);
    let input = vec![1000i32; 200];
    let output = engine.process_block(&input);
    // After the ramp the signal is constant again: a constant input delayed
    // by a constant amount is the input itself.
    assert_eq!(output[199], 1000);
}

#[test]
fn target_setting_clamps_to_the_configured_range() {
    let dive = ParamDescriptor {
        min: 0,
        max: ONE / 2,
        initial: 0,
        ramp_samples: 0,
        style: SmoothingStyle::Linear,
    };
    // Ask for a dive far beyond the configured maximum of 0.5; with 4
    // samples per unit the delay settles at 2 samples, not 32.
    let mut engine = DelayEngine::try_new(10, dive, fixed(ONE), 4).unwrap();
    engine.set_dive_target(8 * ONE);
    let input = vec![10, 20, 30, 40, 50];
    let output = engine.process_block(&input);
    assert_eq!(output, vec![0, 0, 10, 20, 30]);
}

#[test]
fn reset_restores_fresh_engine_behavior() {
    let dive = ParamDescriptor {
        min: 0,
        max: ONE,
        initial: ONE / 4,
        ramp_samples: 16,
        style: SmoothingStyle::Logarithmic,
    };
    let depth = ParamDescriptor {
        min: 0,
        max: 3 * ONE,
        initial: ONE,
        ramp_samples: 8,
        style: SmoothingStyle::Linear,
    };
    let mut seasoned = DelayEngine::try_new(25, dive, depth, 40).unwrap();
    // Push the engine through an arbitrary history.
    seasoned.set_dive_target(ONE);
    seasoned.set_depth_target(2 * ONE);
    let history: Vec<i32> = (0..123).map(|n| (n * 37) % 1000 - 500).collect();
    let _ = seasoned.process_block(&history);
    seasoned.reset();

    let mut fresh = DelayEngine::try_new(25, dive, depth, 40).unwrap();
    let probe: Vec<i32> = (0..150).map(|n| (n * 91) % 2000 - 700).collect();
    let from_seasoned = seasoned.process_block(&probe);
    let from_fresh = fresh.process_block(&probe);
    assert_eq!(from_seasoned, from_fresh);
}

#[test]
fn sample_by_sample_matches_block_processing() {
    let mut by_block = DelayEngine::try_new(10, fixed(ONE / 2), fixed(ONE), 7).unwrap();
    let mut by_sample = DelayEngine::try_new(10, fixed(ONE / 2), fixed(ONE), 7).unwrap();
    let input: Vec<i32> = (0..40).map(|n| n * n - 300).collect();
    let block_out = by_block.process_block(&input);
    for (n, &s) in input.iter().enumerate() {
        assert_eq!(by_sample.process_sample(s), block_out[n]);
    }
}
