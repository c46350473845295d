//! Delays, against the arithmetic of the machine.

use cloudscraper_rs::ieee::{Float, Format};
use cloudscraper_rs::timing::{DelayStrategy, TimingFeedback};
use std::time::Duration;

fn double(x: f64) -> Float {
    Float::from_bits(Format::Double, x.to_bits())
}

/// The delay as the machine computes it.
fn expected(base: u64, min: u64, max: u64, variance: f64, failures: u32, word: u64) -> u64 {
    let mut delay = base as f64;
    if failures == 2 {
        delay *= 1.5;
    } else if failures > 2 {
        delay *= 2.0;
    }
    let fraction = (word >> 11) as f64 * (1.0 / (1u64 << 53) as f64);
    let spread = delay * variance;
    let jitter = fraction * spread - (spread / 2.0);
    delay = (delay + jitter).clamp(min as f64, max as f64);
    delay.max(0.0) as u64
}

fn with_failures(mut strategy: DelayStrategy, failures: u32) -> DelayStrategy {
    for _ in 0..failures {
        strategy.register_feedback(TimingFeedback::Failure);
    }
    strategy
}

#[test]
fn next_delay_respects_bounds() {
    let strategy = DelayStrategy::new(1000)
        .with_bounds(500, 2000)
        .with_variance(double(0.25));
    for _ in 0..50 {
        let delay = strategy.next_delay().as_millis() as u64;
        assert!((500..=2000).contains(&delay), "delay {delay} out of bounds");
    }
}

#[test]
fn failures_escalate_delay() {
    // Variance 0 makes the delay deterministic; wide bounds avoid clamping.
    let mut strategy = DelayStrategy::new(1000)
        .with_variance(double(0.0))
        .with_bounds(0, 100_000);
    let base = strategy.next_delay();

    strategy.register_feedback(TimingFeedback::Failure);
    strategy.register_feedback(TimingFeedback::Failure); // two failures: x1.5
    let escalated = strategy.next_delay();
    assert!(escalated > base);

    strategy.register_feedback(TimingFeedback::Failure); // more than two: x2.0
    let escalated_more = strategy.next_delay();
    assert!(escalated_more > escalated);
}

#[test]
fn rate_limited_then_success_recovers() {
    let mut strategy = DelayStrategy::new(1000)
        .with_variance(double(0.0))
        .with_bounds(0, 100_000);
    strategy.register_feedback(TimingFeedback::RateLimited); // +2 -> x1.5
    assert!(strategy.next_delay() > Duration::from_millis(1000));

    strategy.register_feedback(TimingFeedback::Success); // -1
    strategy.register_feedback(TimingFeedback::Success); // -1 -> back to 0
    assert_eq!(strategy.next_delay(), Duration::from_millis(1000));
}

#[test]
fn success_below_floor_saturates_at_zero() {
    let mut strategy = DelayStrategy::new(500).with_variance(double(0.0));
    strategy.register_feedback(TimingFeedback::Success); // stays at zero
    // No panic and delay stays sane.
    assert!(strategy.next_delay() <= Duration::from_millis(1000));
}

#[test]
fn steady_delays_have_exact_values() {
    let steady = DelayStrategy::new(1000).with_variance(double(0.0)).with_bounds(0, 100_000);
    assert_eq!(with_failures(steady.clone(), 0).delay_for(7), 1000);
    assert_eq!(with_failures(steady.clone(), 1).delay_for(7), 1000);
    assert_eq!(with_failures(steady.clone(), 2).delay_for(7), 1500);
    assert_eq!(with_failures(steady.clone(), 3).delay_for(7), 2000);
    assert_eq!(with_failures(steady, 9).delay_for(7), 2000);
}

#[test]
fn a_new_strategy_is_bounded_by_half_and_twice() {
    let wild = DelayStrategy::new(1001).with_variance(double(100.0));
    assert_eq!(wild.delay_for(0), 500);
    assert_eq!(wild.delay_for(u64::MAX), 2002);
}

#[test]
fn the_quarter_of_variance_is_half_to_either_side() {
    let strategy = DelayStrategy::new(1000);
    assert_eq!(strategy.delay_for(0), 875);
    assert_eq!(strategy.delay_for(1 << 63), 1000);
    assert_eq!(strategy.delay_for(u64::MAX), 1125);
}

#[test]
fn delays_agree_with_the_machine() {
    let variances = [0.0, 0.25, 1.0, 3.7, -0.5, 1e300, -1e300, f64::INFINITY, f64::NAN, 5e-324];
    let bases = [0u64, 1, 999, 1000, 123_456_789, (1 << 53) + 1, u64::MAX / 2];
    let words = [0u64, 1, 2047, 2048, 1 << 63, 0x0123_4567_89AB_CDEF, u64::MAX];
    for base in bases {
        for variance in variances {
            for failures in 0..4 {
                for word in words {
                    for (min, max) in [(base / 2, base * 2), (0, 100_000), (10, u64::MAX)] {
                        let strategy = with_failures(
                            DelayStrategy::new(base)
                                .with_variance(double(variance))
                                .with_bounds(min, max),
                            failures,
                        );
                        assert_eq!(
                            strategy.delay_for(word),
                            expected(base, min, max, variance, failures, word),
                            "base {base} variance {variance} failures {failures} word {word}"
                        );
                    }
                }
            }
        }
    }
}

#[test]
fn failures_stop_at_the_largest_count() {
    let mut strategy = DelayStrategy::new(100).with_variance(double(0.0));
    for _ in 0..5 {
        strategy.register_feedback(TimingFeedback::RateLimited);
    }
    for _ in 0..8 {
        strategy.register_feedback(TimingFeedback::Success);
    }
    assert_eq!(strategy.delay_for(0), 150);
    strategy.register_feedback(TimingFeedback::Success);
    assert_eq!(strategy.delay_for(0), 100);
}

#[test]
fn delays_are_drawn_anew() {
    let strategy = DelayStrategy::new(1_000_000).with_variance(double(1.0));
    let first = strategy.next_delay();
    assert!((0..50).any(|_| strategy.next_delay() != first));
}

#[test]
fn a_spread_without_end_gives_no_delay() {
    let wild = DelayStrategy::new(1000).with_variance(double(f64::INFINITY));
    assert_eq!(wild.delay_for(1 << 40), 0);
    let short = DelayStrategy::new(1).with_variance(double(0.0)).with_bounds(0, 10);
    assert_eq!(with_failures(short, 2).delay_for(0), 1);
}

#[test]
fn delays_lie_within_half_the_spread() {
    for base in [0u64, 1, 10, 1000, 86_400_000, 1 << 50] {
        // Variances in eighths, so that the edges are whole sixteenths.
        for eighths in 0..=8u64 {
            for failures in 0..4 {
                let halves = [2u64, 2, 3, 4][failures as usize];
                let strategy = with_failures(
                    DelayStrategy::new(base)
                        .with_variance(double(eighths as f64 / 8.0))
                        .with_bounds(3, 1 << 53),
                    failures,
                );
                let near = (base * halves / 2 * (16 - eighths) / 16).clamp(3, 1 << 53);
                let far = (base * halves * (16 + eighths) / 32).clamp(3, 1 << 53);
                let mut last = 0;
                for word in [0u64, 1 << 20, 1 << 62, 1 << 63, u64::MAX - 4096, u64::MAX] {
                    let delay = strategy.delay_for(word);
                    assert!(near <= delay + 1 && delay <= far + 1, "{near} {delay} {far}");
                    assert!(last <= delay);
                    last = delay;
                }
            }
        }
    }
}

#[test]
fn a_full_variance_reaches_half_and_half_as_much_again() {
    let strategy = DelayStrategy::new(1000).with_variance(double(1.0)).with_bounds(0, 100_000);
    assert_eq!(strategy.delay_for(0), 500);
    assert_eq!(strategy.delay_for(1 << 63), 1000);
    assert_eq!(strategy.delay_for(u64::MAX), 1500);
    assert_eq!(with_failures(strategy.clone(), 2).delay_for(0), 750);
    assert_eq!(with_failures(strategy, 3).delay_for(0), 1000);
}

#[test]
fn a_negative_zero_is_no_variance() {
    let steady = DelayStrategy::new(1000).with_variance(double(-0.0)).with_bounds(0, 100_000);
    for word in [0, 1 << 63, u64::MAX] {
        assert_eq!(steady.delay_for(word), 1000);
        assert_eq!(with_failures(steady.clone(), 2).delay_for(word), 1500);
    }
}
