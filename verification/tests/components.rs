//! Tests of the individual engine components: ring buffer, interpolation,
//! and parameter smoothing.

use whammy::interp::interpolate;
use whammy::ring_buffer::RingBuffer;
use whammy::smoother::{SmoothedParameter, SmoothingStyle};

const ONE: i32 = 65536;

#[test]
fn ring_buffer_write_and_read_wrap() {
    let mut rb = RingBuffer::new(4);
    assert_eq!(rb.capacity(), 4);
    for s in [10, 20, 30, 40] {
        rb.write(s);
    }
    assert_eq!(rb.read(0), 10);
    assert_eq!(rb.read(1), 20);
    assert_eq!(rb.read(2), 30);
    assert_eq!(rb.read(3), 40);
    // Read indices resolve modulo the capacity.
    assert_eq!(rb.read(5), 20);
    // The next write overwrites the oldest slot.
    rb.write(50);
    assert_eq!(rb.read(0), 50);
    assert_eq!(rb.read(1), 20);
}

#[test]
fn ring_buffer_cursor_cycles_with_period_capacity() {
    let mut rb = RingBuffer::new(5);
    assert_eq!(rb.write_index(), 0);
    let mut seen = Vec::new();
    for i in 0..10 {
        seen.push(rb.write_index());
        rb.write(i);
    }
    // One full cycle through [0, 5), then the same cycle again.
    assert_eq!(seen, vec![0, 1, 2, 3, 4, 0, 1, 2, 3, 4]);
}

#[test]
fn ring_buffer_reset_zeroes_without_moving_capacity() {
    let mut rb = RingBuffer::new(3);
    rb.write(7);
    rb.write(8);
    rb.reset();
    assert_eq!(rb.capacity(), 3);
    assert_eq!(rb.write_index(), 0);
    for i in 0..3 {
        assert_eq!(rb.read(i), 0);
    }
}

#[test]
fn interpolate_zero_fraction_returns_low_exactly() {
    assert_eq!(interpolate(1234, 99999, 0), 1234);
    assert_eq!(interpolate(-500, -400, 0), -500);
}

#[test]
fn interpolate_weights_by_fraction() {
    // Halfway between 0 and 1000.
    assert_eq!(interpolate(0, 1000, 32768), 500);
    // A quarter of the way up from 1000 to 3000.
    assert_eq!(interpolate(1000, 3000, 16384), 1500);
    // Descending pair: a quarter of the way down from 1000 to 0.
    assert_eq!(interpolate(1000, 0, 16384), 750);
    // Negative samples.
    assert_eq!(interpolate(-1000, 1000, 32768), 0);
}

#[test]
fn linear_ramp_reaches_target_exactly_and_monotonically() {
    let mut p = SmoothedParameter::new(SmoothingStyle::Linear, 0, 10);
    p.set_target(1000);
    let mut prev = 0;
    for step in 0..10 {
        let v = p.next();
        assert!(v >= prev, "ramp moved backwards at step {step}");
        assert!(v <= 1000, "ramp overshot at step {step}");
        prev = v;
    }
    assert_eq!(prev, 1000);
    // The value holds after the ramp has elapsed.
    assert_eq!(p.next(), 1000);
}

#[test]
fn linear_ramp_descends_monotonically() {
    let mut p = SmoothedParameter::new(SmoothingStyle::Linear, 800, 8);
    p.set_target(-200);
    let mut prev = 800;
    for _ in 0..8 {
        let v = p.next();
        assert!(v <= prev);
        assert!(v >= -200);
        prev = v;
    }
    assert_eq!(prev, -200);
}

#[test]
fn zero_ramp_disables_smoothing() {
    let mut p = SmoothedParameter::new(SmoothingStyle::Linear, 0, 0);
    p.set_target(ONE);
    assert_eq!(p.next(), ONE);
}

#[test]
fn retargeting_mid_ramp_does_not_jump() {
    let mut p = SmoothedParameter::new(SmoothingStyle::Linear, 0, 10);
    p.set_target(1000);
    for _ in 0..5 {
        p.next();
    }
    let held = p.current_value();
    assert_eq!(held, 500);
    p.set_target(0);
    // The current value itself does not move on retargeting...
    assert_eq!(p.current_value(), held);
    // ...and convergence restarts from it toward the new target.
    let mut prev = held;
    for _ in 0..10 {
        let v = p.next();
        assert!(v <= prev);
        assert!(v >= 0);
        prev = v;
    }
    assert_eq!(prev, 0);
}

#[test]
fn logarithmic_ramp_converges_without_overshoot() {
    let mut p = SmoothedParameter::new(SmoothingStyle::Logarithmic, 0, 4);
    p.set_target(1000);
    let mut prev = 0;
    let mut reached_at = None;
    for step in 0..1000 {
        let v = p.next();
        assert!(v >= prev, "log ramp moved backwards");
        assert!(v <= 1000, "log ramp overshot");
        prev = v;
        if v == 1000 && reached_at.is_none() {
            reached_at = Some(step);
        }
    }
    assert_eq!(prev, 1000);
    let at = reached_at.expect("log ramp never reached its target");
    // Geometric convergence closes most of the distance quickly.
    assert!(at < 60, "log ramp took {at} steps");
}

#[test]
fn logarithmic_first_step_takes_ratio_of_distance() {
    let mut p = SmoothedParameter::new(SmoothingStyle::Logarithmic, 0, 4);
    p.set_target(1000);
    // One quarter of the remaining distance per call, rounded up.
    assert_eq!(p.next(), 250);
    assert_eq!(p.next(), 438);
}
