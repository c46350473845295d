//! Delays that follow the outcome of earlier attempts.

use crate::ieee::{Float, Format};
use crate::ieee;
use crate::random::random_word;
use crate::rounding;
use std::time::Duration;
use vstd::prelude::*;

verus! {

/// The duration of a number of milliseconds.
pub uninterp spec fn millis(n: u64) -> Duration;

/// `std::time::Duration::from_millis`: the result depends on the number alone.
pub assume_specification[ std::time::Duration::from_millis ](n: u64) -> (r: Duration)
    ensures
        r == millis(n),
;

/// What came of an attempt.
#[derive(Debug, Clone, Copy, PartialEq, Eq, Structural)]
pub enum TimingFeedback {
    Success,
    Failure,
    RateLimited,
}

/// Computes the delay before a challenge is replayed.
#[derive(Debug)]
pub struct DelayStrategy {
    base_delay_ms: u64,
    min_delay_ms: u64,
    max_delay_ms: u64,
    variance_pct: Float,
    recent_failures: u32,
}

/// What a strategy holds.
pub struct DelayView {
    pub base: u64,
    pub min: u64,
    pub max: u64,
    /// A double-precision number.
    pub variance: Float,
    pub failures: u32,
}

impl View for DelayStrategy {
    type V = DelayView;

    closed spec fn view(&self) -> DelayView {
        DelayView {
            base: self.base_delay_ms,
            min: self.min_delay_ms,
            max: self.max_delay_ms,
            variance: self.variance_pct,
            failures: self.recent_failures,
        }
    }
}

/// The count of failures after one more attempt, held to the range of `u32`.
pub open spec fn failures_after(failures: u32, feedback: TimingFeedback) -> u32 {
    match feedback {
        TimingFeedback::Success => if failures == 0 {
            0
        } else {
            (failures - 1) as u32
        },
        TimingFeedback::Failure => if failures + 1 > u32::MAX {
            u32::MAX
        } else {
            (failures + 1) as u32
        },
        TimingFeedback::RateLimited => if failures + 2 > u32::MAX {
            u32::MAX
        } else {
            (failures + 2) as u32
        },
    }
}

/// A random word as a fraction of one, by its 53 highest bits.
pub open spec fn fraction(word: u64) -> Float {
    Float::rounded(Format::Double, false, (word / 2048) as nat, 1, -53)
}

/// A number held between two others, the upper one last; what is not a number
/// stays so.
pub open spec fn held(x: Float, low: Float, high: Float) -> Float {
    let raised = if x.below(low) { low } else { x };
    if high.below(raised) { high } else { raised }
}

/// The number, or zero where it is negative or not a number.
pub open spec fn at_least_zero(x: Float) -> Float {
    let zero = Float::of_count(Format::Double, 0);
    if x is NotANumber || x.below(zero) { zero } else { x }
}

impl DelayView {
    /// The base delay, half as much again at two recent failures and twice as
    /// much beyond.
    pub open spec fn escalated(self) -> Float {
        let f = Format::Double;
        let base = Float::of_count(f, self.base as nat);
        if self.failures < 2 {
            base
        } else if self.failures == 2 {
            base.times(f, Float::of_ratio(f, 3, 2))
        } else {
            base.times(f, Float::of_count(f, 2))
        }
    }

    /// The width of the band in which the delay varies.
    pub open spec fn spread(self) -> Float {
        self.escalated().times(Format::Double, self.variance)
    }

    /// The delay for a random word, before it is held to the bounds: the
    /// escalated delay, moved within half the spread to either side.
    pub open spec fn varied(self, word: u64) -> Float {
        let f = Format::Double;
        let jitter = fraction(word).times(f, self.spread()).minus(
            f,
            self.spread().over(f, Float::of_count(f, 2)),
        );
        self.escalated().plus(f, jitter)
    }

    /// The lower bound as a number.
    pub open spec fn low(self) -> Float {
        Float::of_count(Format::Double, self.min as nat)
    }

    /// The upper bound as a number.
    pub open spec fn high(self) -> Float {
        Float::of_count(Format::Double, self.max as nat)
    }

    /// Whether the lower bound does not pass the upper one.
    pub open spec fn ordered(self) -> bool {
        !self.high().below(self.low())
    }

    /// The delay in milliseconds for a random word.
    pub open spec fn delay(self, word: u64) -> u64 {
        at_least_zero(held(self.varied(word), self.low(), self.high())).whole()
    }
}

impl Clone for DelayStrategy {
    fn clone(&self) -> (r: DelayStrategy)
        ensures
            r@ == self@,
    {
        proof {
            use_type_invariant(self);
        }
        DelayStrategy {
            base_delay_ms: self.base_delay_ms,
            min_delay_ms: self.min_delay_ms,
            max_delay_ms: self.max_delay_ms,
            variance_pct: self.variance_pct,
            recent_failures: self.recent_failures,
        }
    }
}

impl DelayStrategy {
    #[verifier::type_invariant]
    spec fn double(self) -> bool {
        self.variance_pct.wf(Format::Double)
    }

    /// A strategy around a base delay, bounded by half and twice as much.
    pub fn new(base_delay_ms: u64) -> (r: DelayStrategy)
        requires
            2 * base_delay_ms <= u64::MAX,
        ensures
            r@ == (DelayView {
                base: base_delay_ms,
                min: base_delay_ms / 2,
                max: (2 * base_delay_ms) as u64,
                variance: Float::of_ratio(Format::Double, 1, 4),
                failures: 0,
            }),
    {
        DelayStrategy {
            base_delay_ms,
            min_delay_ms: base_delay_ms / 2,
            max_delay_ms: base_delay_ms * 2,
            variance_pct: Float::from_ratio(Format::Double, 1, 4),
            recent_failures: 0,
        }
    }

    /// The strategy with other bounds.
    pub fn with_bounds(self, min_delay_ms: u64, max_delay_ms: u64) -> (r: DelayStrategy)
        ensures
            r@ == (DelayView { min: min_delay_ms, max: max_delay_ms, ..self@ }),
    {
        proof {
            use_type_invariant(&self);
        }
        DelayStrategy { min_delay_ms, max_delay_ms, ..self }
    }

    /// The strategy with another variance, a double-precision number.
    pub fn with_variance(self, variance_pct: Float) -> (r: DelayStrategy)
        requires
            variance_pct.wf(Format::Double),
        ensures
            r@ == (DelayView { variance: variance_pct, ..self@ }),
    {
        DelayStrategy { variance_pct, ..self }
    }

    /// Takes note of what came of an attempt.
    pub fn register_feedback(&mut self, feedback: TimingFeedback)
        ensures
            final(self)@ == (DelayView {
                failures: failures_after(old(self)@.failures, feedback),
                ..old(self)@
            }),
    {
        proof {
            use_type_invariant(&*self);
        }
        match feedback {
            TimingFeedback::Success => {
                self.recent_failures = self.recent_failures.saturating_sub(1);
            },
            TimingFeedback::Failure => {
                self.recent_failures = self.recent_failures.saturating_add(1);
            },
            TimingFeedback::RateLimited => {
                self.recent_failures = self.recent_failures.saturating_add(2);
            },
        }
    }

    /// The delay in milliseconds that a random word gives.
    pub fn delay_for(&self, word: u64) -> (r: u64)
        requires
            self@.ordered(),
        ensures
            r == self@.delay(word),
    {
        proof {
            use_type_invariant(self);
        }
        let f: Format = Format::Double;
        let two: Float = Float::from_count(f, 2);
        let base: Float = Float::from_count(f, self.base_delay_ms);
        let delay: Float = if self.recent_failures < 2 {
            base
        } else if self.recent_failures == 2 {
            base.multiply(f, Float::from_ratio(f, 3, 2))
        } else {
            base.multiply(f, two)
        };
        let spread: Float = delay.multiply(f, self.variance_pct);
        let jitter: Float = Float::from_word(word).multiply(f, spread).subtract(
            f,
            spread.divide(f, two),
        );
        let varied: Float = delay.add(f, jitter);
        let low: Float = Float::from_count(f, self.min_delay_ms);
        let high: Float = Float::from_count(f, self.max_delay_ms);
        let raised: Float = if varied.less_than(f, low) { low } else { varied };
        let bounded: Float = if high.less_than(f, raised) { high } else { raised };
        let zero: Float = Float::from_count(f, 0);
        if matches!(bounded, Float::NotANumber) || bounded.less_than(f, zero) {
            zero.to_whole(f)
        } else {
            bounded.to_whole(f)
        }
    }

    /// The next delay, varied at random.
    pub fn next_delay(&self) -> (r: Duration)
        requires
            self@.ordered(),
        ensures
            exists|word: u64| r == millis(#[trigger] self@.delay(word)),
    {
        let word: u64 = random_word();
        let r = Duration::from_millis(self.delay_for(word));
        assert(r == millis(self@.delay(word)));
        r
    }
}

/// Bounds given in order are in order as numbers.
pub proof fn law_bounds_in_order(s: DelayView)
    requires
        s.min <= s.max,
    ensures
        s.ordered(),
{
    rounding::law_counts_keep_order(Format::Double, s.min, s.max);
}

/// The sum of a finite number and one that is a number is a number.
proof fn lemma_sum_is_number(x: Float, y: Float)
    requires
        x is Finite,
        !(y is NotANumber),
    ensures
        !(x.plus(Format::Double, y) is NotANumber),
        !(y.plus(Format::Double, x) is NotANumber),
        y.wf(Format::Double) ==> x.plus(Format::Double, y).wf(Format::Double),
        y.wf(Format::Double) ==> y.plus(Format::Double, x).wf(Format::Double),
{
    if y is Finite {
        let base = x.shared_place(y);
        let total = x.counted(base) + y.counted(base);
        rounding::law_rounded_is_number(Format::Double, true, (-total) as nat, 1, base);
        rounding::law_rounded_is_number(Format::Double, false, total as nat, 1, base);
    }
}

proof fn lemma_product_is_number(x: Float, y: Float)
    requires
        x is Finite,
        y is Finite,
    ensures
        !(x.times(Format::Double, y) is NotANumber),
        x.times(Format::Double, y).wf(Format::Double),
{
    rounding::law_rounded_is_number(
        Format::Double,
        x.is_negative() != y.is_negative(),
        x->units as nat * y->units as nat,
        1,
        x->place + y->place,
    );
}

/// Where the spread is finite the varied delay is a number.
proof fn lemma_varied_is_number(s: DelayView, word: u64)
    requires
        s.spread() is Finite,
    ensures
        !(s.varied(word) is NotANumber),
        s.varied(word).wf(Format::Double),
{
    let f = Format::Double;
    let e = s.escalated();
    assert(e is Finite && s.variance is Finite);
    lemma_product_is_number(e, s.variance);
    let _ = rounding::lemma_dyadic(f, false, (word / 2048) as nat, -53);
    let shift = fraction(word).times(f, s.spread());
    lemma_product_is_number(fraction(word), s.spread());
    let two = rounding::lemma_count_bounded(f, 2);
    rounding::lemma_quotient_bounded(f, s.spread(), two);
    let half = s.spread().over(f, Float::of_count(f, 2));
    lemma_sum_is_number(half.negated(), shift);
    assert(half.negated().wf(f));
    let jitter = shift.minus(f, half);
    lemma_sum_is_number(e, jitter);
}

/// Where the spread is not finite the varied delay is not a number.
proof fn lemma_wild_is_no_number(s: DelayView, word: u64)
    requires
        !(s.spread() is Finite),
    ensures
        s.varied(word) is NotANumber,
{
    let f = Format::Double;
    let _ = rounding::lemma_dyadic(f, false, (word / 2048) as nat, -53);
    let two = rounding::lemma_count_bounded(f, 2);
    let shift = fraction(word).times(f, s.spread());
    let half = s.spread().over(f, two);
    assert(shift.minus(f, half) is NotANumber);
}

/// Every delay lies within the bounds, whatever the random word, unless the
/// spread is not finite and the lower bound is not zero. Bounds beyond two to
/// the power of 53 are those nearest to them in double precision.
pub proof fn law_delay_within_bounds(s: DelayView, word: u64)
    requires
        s.ordered(),
        s.spread() is Finite || s.min == 0,
    ensures
        s.low().whole() <= s.delay(word) <= s.high().whole(),
        s.min <= s.max <= 0x20_0000_0000_0000 ==> s.min <= s.delay(word) <= s.max,
{
    let f = Format::Double;
    let x = s.varied(word);
    if s.min <= s.max <= 0x20_0000_0000_0000 {
        rounding::law_counts_survive(f, s.min);
        rounding::law_counts_survive(f, s.max);
    }
    let zero = rounding::lemma_count_value(f, 0);
    rounding::law_counts_survive(f, 0);
    if s.spread() is Finite {
        lemma_varied_is_number(s, word);
        rounding::law_rounded_is_number(f, false, s.min as nat, 1, 0);
        rounding::law_rounded_is_number(f, false, s.max as nat, 1, 0);
        let y = held(x, s.low(), s.high());
        ieee::law_order(f, x, s.low());
        ieee::law_order(f, s.high(), x);
        ieee::law_order(f, s.high(), s.low());
        ieee::law_order(f, y, s.low());
        ieee::law_order(f, s.high(), y);
        rounding::law_counts_keep_order(f, 0, s.min);
        ieee::law_order(f, s.low(), zero);
        ieee::law_order(f, y, zero);
        assert(at_least_zero(y) == y);
        rounding::law_whole_keeps_order(f, s.low(), y);
        rounding::law_whole_keeps_order(f, y, s.high());
    } else {
        lemma_wild_is_no_number(s, word);
    }
}

/// A rate limit followed by two successes leaves the count of failures as it
/// was, unless the count was about to overflow.
pub proof fn law_rate_limit_recovers(failures: u32)
    requires
        failures + 2 <= u32::MAX,
    ensures
        failures_after(
            failures_after(
                failures_after(failures, TimingFeedback::RateLimited),
                TimingFeedback::Success,
            ),
            TimingFeedback::Success,
        ) == failures,
{
}

/// A failure followed by a success leaves the count of failures as it was,
/// unless the count is full.
pub proof fn law_success_undoes_failure(failures: u32)
    requires
        failures < u32::MAX,
    ensures
        failures_after(
            failures_after(failures, TimingFeedback::Failure),
            TimingFeedback::Success,
        ) == failures,
{
}

/// A success never raises the count of failures, a failure never lowers it.
pub proof fn law_feedback_direction(failures: u32)
    ensures
        failures_after(failures, TimingFeedback::Success) <= failures,
        failures <= failures_after(failures, TimingFeedback::Failure) <= failures_after(
            failures,
            TimingFeedback::RateLimited,
        ),
{
}

/// How many halves of the base delay make the escalated one.
pub open spec fn halves(failures: u32) -> nat {
    if failures < 2 {
        2
    } else if failures == 2 {
        3
    } else {
        4
    }
}

/// A whole number held between two others.
pub open spec fn between(n: int, low: int, high: int) -> int {
    if n < low {
        low
    } else if n > high {
        high
    } else {
        n
    }
}

/// One of the two zeros of double precision.
pub open spec fn zero(negative: bool) -> Float {
    Float::Finite { negative, units: 0, place: Format::Double.lowest() as i32 }
}

/// Whether a number is zero, of either sign.
pub open spec fn is_zero(x: Float) -> bool {
    x == zero(x.is_negative())
}

proof fn lemma_rounded_zero(negative: bool, den: nat, place: int)
    requires
        den > 0,
    ensures
        Float::rounded(Format::Double, negative, 0, den, place) == (Float::Finite {
            negative,
            units: 0,
            place: Format::Double.lowest() as i32,
        }),
{
    let f = Format::Double;
    let base = if place < f.lowest() { place } else { f.lowest() };
    let over = 0nat * ieee::two(place - base);
    let under = den * ieee::two(f.lowest() - base);
    ieee::lemma_two_pos(f.lowest() - base);
    ieee::lemma_two_zero();
    assert(over == 0) by (nonlinear_arith)
        requires
            over == 0nat * ieee::two(place - base),
    ;
    assert(under * ieee::two(0) > 0 && under * f.span() > 0) by (nonlinear_arith)
        requires
            under == den * ieee::two(f.lowest() - base),
            den > 0,
            ieee::two(f.lowest() - base) > 0,
            ieee::two(0) == 1,
            f.span() > 0,
    ;
    vstd::arithmetic::div_mod::lemma_div_of0((under * ieee::two(0)) as int);
    vstd::arithmetic::div_mod::lemma_small_mod(0, under * ieee::two(0));
}

/// The product of two numbers of exact values `a` and `b`, counted at places
/// `i` and `j`, where the product fits.
proof fn lemma_exact_product(x: Float, y: Float, a: nat, i: int, b: nat, j: int)
    requires
        x is Finite,
        y is Finite,
        x.wf(Format::Double),
        y.wf(Format::Double),
        !x.is_negative(),
        !y.is_negative(),
        -2 <= i <= 0,
        -2 <= j <= 0,
        x.counted(-1074) == a * ieee::two(i + 1074),
        y.counted(-1074) == b * ieee::two(j + 1074),
        a * b < Format::Double.span(),
    ensures
        ({
            let r = x.times(Format::Double, y);
            &&& r is Finite
            &&& r.wf(Format::Double)
            &&& !r.is_negative()
            &&& r.counted(-1074) == (a * b) * ieee::two(i + j + 1074)
        }),
{
    let f = Format::Double;
    let (u, v) = (x->units as nat, y->units as nat);
    let (p, q) = (x->place as int, y->place as int);
    let (s, t) = (ieee::two(p + 1074), ieee::two(q + 1074));
    let (g, h) = (ieee::two(i + 1074), ieee::two(j + 1074));
    ieee::lemma_two_add(p + 1074, q + 1074);
    ieee::lemma_two_add(i + 1074, j + 1074);
    assert((u * v) * (s * t) * 1 == (a * b) * (g * h) * 1) by (nonlinear_arith)
        requires
            u * s == a * g,
            v * t == b * h,
    ;
    rounding::lemma_rounded_same(f, false, u * v, 1, p + q, a * b, 1, i + j, -2148);
    let _ = rounding::lemma_dyadic(f, false, a * b, i + j);
}

/// The escalated delay is exact for base delays that leave room for it.
proof fn lemma_escalated_exact(s: DelayView)
    requires
        s.base < 0x8_0000_0000_0000,
    ensures
        s.escalated() is Finite,
        s.escalated().wf(Format::Double),
        !s.escalated().is_negative(),
        s.escalated().counted(-1074) == (s.base as nat * halves(s.failures)) * ieee::two(1073),
{
    let f = Format::Double;
    let n = s.base as nat;
    let base = rounding::lemma_count_value(f, n);
    let h = ieee::two(1073);
    ieee::lemma_two_step(1074);
    if s.failures < 2 {
        assert(n * (2 * h) == (n * 2) * h) by (nonlinear_arith);
    } else if s.failures == 2 {
        assert(3nat * ieee::two(2148) * 1 == 3 * ieee::two(2147) * 2) by {
            ieee::lemma_two_step(2148);
        }
        rounding::lemma_rounded_same(f, false, 3, 2, 0, 3, 1, -1, -2148);
        let _ = rounding::lemma_dyadic(f, false, 3, -1);
        lemma_exact_product(base, Float::of_ratio(f, 3, 2), n, 0, 3, -1);
    } else {
        let two = rounding::lemma_count_value(f, 2);
        lemma_exact_product(base, two, n, 0, 2, 0);
        assert((n * 2) * (2 * h) == (n * 4) * h) by (nonlinear_arith);
    }
}

/// Adding zero to a number that is not negative changes nothing.
proof fn lemma_plus_zero(x: Float)
    requires
        x is Finite,
        x.wf(Format::Double),
        !x.is_negative(),
    ensures
        x.plus(Format::Double, zero(false)) == x,
{
    let f = Format::Double;
    ieee::lemma_two_zero();
    let t = ieee::two(x->place + 1074);
    ieee::lemma_two_pos(x->place + 1074);
    let u = x->units as nat;
    let total = x.counted(-1074);
    assert(0 * ieee::two(0) == 0);
    assert(total == 0 <==> u == 0) by (nonlinear_arith)
        requires
            total == u * t,
            t > 0,
    ;
    if total != 0 {
        assert(total * ieee::two(0) == u * t * 1) by (nonlinear_arith)
            requires
                total == u * t,
                ieee::two(0) == 1,
        ;
        assert(total > 0) by (nonlinear_arith)
            requires
                total == u * t,
                u != 0,
                u >= 0,
                t > 0,
        ;
        rounding::law_rounding_is_exact(f, false, total as nat, 1, -1074, x->units, x->place);
    }
}

/// A fraction of zero and the half of zero are zero, of the same sign.
proof fn lemma_parts_of_zero(negative: bool, word: u64)
    ensures
        fraction(word).times(Format::Double, zero(negative)) == zero(negative),
        zero(negative).over(Format::Double, Float::of_count(Format::Double, 2)) == zero(negative),
{
    let f = Format::Double;
    let _ = rounding::lemma_dyadic(f, false, (word / 2048) as nat, -53);
    let r = fraction(word);
    assert(r->units as nat * 0nat == 0) by (nonlinear_arith);
    lemma_rounded_zero(negative, 1, r->place - 1074);
    let two = rounding::lemma_count_value(f, 2);
    let w = ieee::two(two->place + 1074);
    ieee::lemma_two_pos(1074);
    assert(two->units > 0) by (nonlinear_arith)
        requires
            two->units * w == 2 * ieee::two(1074),
            ieee::two(1074) > 0,
    ;
    lemma_rounded_zero(negative, two->units as nat, -1074 - two->place);
}

/// Without variance there is no variation.
proof fn lemma_varied_steady(s: DelayView, word: u64)
    requires
        is_zero(s.variance),
        s.base < 0x8_0000_0000_0000,
    ensures
        s.varied(word) == s.escalated(),
{
    let f = Format::Double;
    let e = s.escalated();
    let negative = s.variance.is_negative();
    lemma_escalated_exact(s);
    assert(e->units as nat * 0nat == 0) by (nonlinear_arith);
    lemma_rounded_zero(negative, 1, e->place - 1074);
    let x = zero(negative);
    assert(s.spread() == x);
    lemma_parts_of_zero(negative, word);
    ieee::lemma_two_zero();
    assert(x.counted(-1074) == 0 && x.negated().counted(-1074) == 0);
    assert(x.minus(f, x) == zero(false));
    lemma_plus_zero(e);
}

/// Without variance the delay is the base delay, half as much again at two
/// recent failures and twice as much beyond, held to the bounds, whatever the
/// random word. This is for base delays under two to the power of 51 and
/// bounds up to two to the power of 53, which are exact in double precision.
pub proof fn law_steady_delay(s: DelayView, word: u64)
    requires
        is_zero(s.variance),
        s.base < 0x8_0000_0000_0000,
        s.min <= s.max <= 0x20_0000_0000_0000,
    ensures
        s.delay(word) == between(
            s.base * halves(s.failures) / 2,
            s.min as int,
            s.max as int,
        ),
{
    let f = Format::Double;
    let n = s.base as nat * halves(s.failures);
    let e = s.escalated();
    let h = ieee::two(1073);
    lemma_escalated_exact(s);
    lemma_varied_steady(s, word);
    let low = rounding::lemma_count_value(f, s.min as nat);
    let high = rounding::lemma_count_value(f, s.max as nat);
    ieee::lemma_two_step(1074);
    ieee::lemma_two_pos(1073);
    rounding::lemma_below_at(e, low, -1074);
    rounding::lemma_below_at(high, e, -1074);
    rounding::lemma_below_at(high, low, -1074);
    let (m, x) = (s.min as nat, s.max as nat);
    assert((n * h < m * (2 * h) <==> n < 2 * m) && (x * (2 * h) < n * h <==> 2 * x < n) && (x * (2
        * h) < m * (2 * h) <==> x < m)) by (nonlinear_arith)
        requires
            h > 0,
    ;
    assert(held(e, low, high) == if n < 2 * m {
        low
    } else if 2 * x < n {
        high
    } else {
        e
    });
    let y = held(e, low, high);
    let nought = rounding::lemma_count_value(f, 0);
    rounding::lemma_below_at(y, nought, -1074);
    assert(0nat * ieee::two(1074) == 0) by (nonlinear_arith);
    assert(y.counted(-1074) >= 0) by {
        rounding::lemma_whole_at(y, -1074);
    }
    rounding::law_counts_survive(f, s.min);
    rounding::law_counts_survive(f, s.max);
    rounding::lemma_whole_at(e, -1074);
    assert((n * h) as int / (h * 2) as int == (n as int) / 2) by {
        vstd::arithmetic::div_mod::lemma_div_denominator((n * h) as int, h as int, 2);
        vstd::arithmetic::div_mod::lemma_div_by_multiple(n as int, h as int);
    }
    assert(n <= 4 * s.base) by (nonlinear_arith)
        requires
            n == s.base as nat * halves(s.failures),
            halves(s.failures) <= 4,
    ;
}

/// Without variance more recent failures never give a shorter delay.
pub proof fn law_failures_escalate(s: DelayView, failures: u32, word: u64, other: u64)
    requires
        is_zero(s.variance),
        s.base < 0x8_0000_0000_0000,
        s.min <= s.max <= 0x20_0000_0000_0000,
        s.failures <= failures,
    ensures
        s.delay(word) <= (DelayView { failures, ..s }).delay(other),
{
    let t = DelayView { failures, ..s };
    law_steady_delay(s, word);
    law_steady_delay(t, other);
    assert(s.base as nat * halves(s.failures) <= s.base as nat * halves(failures))
        by (nonlinear_arith)
        requires
            halves(s.failures) <= halves(failures),
    ;
}

/// Without variance and within the bounds, a second recent failure makes the
/// delay longer, and a third one longer still. A base delay of one millisecond
/// is too short to tell it from half as much again.
pub proof fn law_escalation_is_strict(s: DelayView, failures: u32, word: u64, other: u64)
    requires
        is_zero(s.variance),
        2 <= s.base < 0x8_0000_0000_0000,
        s.min <= s.base,
        2 * s.base <= s.max <= 0x20_0000_0000_0000,
        s.failures < 2 <= failures || s.failures == 2 < failures,
    ensures
        s.delay(word) < (DelayView { failures, ..s }).delay(other),
{
    law_steady_delay(s, word);
    law_steady_delay(DelayView { failures, ..s }, other);
}

/// How many grains make a millisecond. The edges of the band in which a delay
/// varies are whole numbers of grains.
pub open spec fn grains() -> nat {
    4 * ieee::two(1074)
}

impl DelayView {
    /// The escalated delay less half its product with the variance, exactly, in
    /// grains.
    pub open spec fn near_edge(self) -> int {
        self.base * halves(self.failures) * (2 * ieee::two(1074) - self.variance.counted(-1074))
    }

    /// The escalated delay plus half its product with the variance, exactly, in
    /// grains.
    pub open spec fn far_edge(self) -> int {
        self.base * halves(self.failures) * (2 * ieee::two(1074) + self.variance.counted(-1074))
    }

    /// Whether the variance is a number from zero, of either sign, to one.
    pub open spec fn moderate(self) -> bool {
        is_zero(self.variance) || (rounding::is_amount(Format::Double, self.variance)
            && !Float::of_count(Format::Double, 1).below(self.variance))
    }
}

/// A variance given as a share is moderate, such as the quarter that a strategy
/// starts with.
pub proof fn law_shares_are_moderate(s: DelayView, num: nat, den: nat)
    requires
        0 < den,
        num <= den,
        s.variance == Float::of_ratio(Format::Double, num, den),
    ensures
        s.moderate(),
{
    let f = Format::Double;
    let t = ieee::two(-f.lowest());
    rounding::law_rounded_is_number(f, false, num, den, 0);
    rounding::law_rounded_is_number(f, false, 1, 1, 0);
    assert(num * t * 1 <= 1 * t * den) by (nonlinear_arith)
        requires
            num <= den,
    ;
    rounding::lemma_rounded_ordered(f, false, num, den, 0, false, 1, 1, 0, f.lowest());
    ieee::law_order(f, Float::of_count(f, 1), s.variance);
}

/// A moderate variance is finite, and one at most.
proof fn lemma_moderate(s: DelayView)
    requires
        s.moderate(),
    ensures
        s.variance is Finite,
        0 <= s.variance.counted(-1074) <= ieee::two(1074),
{
    let f = Format::Double;
    if is_zero(s.variance) {
        ieee::lemma_two_zero();
        assert(0 * ieee::two(0) == 0);
    } else {
        let one = rounding::lemma_count_value(f, 1);
        rounding::lemma_below_at(one, s.variance, -1074);
        rounding::lemma_whole_at(s.variance, -1074);
    }
}

/// Finite amounts are ranked as their counts are.
proof fn lemma_ranked(x: Float, y: Float)
    requires
        rounding::is_amount(Format::Double, x),
        rounding::is_amount(Format::Double, y),
        x is Finite,
        y is Finite,
    ensures
        x.rank(Format::Double) <= y.rank(Format::Double) <==> x.counted(-1074) <= y.counted(-1074),
{
    ieee::law_order(Format::Double, y, x);
    rounding::lemma_below_at(y, x, -1074);
}

/// The spread under a moderate variance is the product of the escalated delay
/// and the variance, up to rounding.
proof fn lemma_spread_value(s: DelayView)
    requires
        s.base < 0x8_0000_0000_0000,
        s.moderate(),
        !s.variance.is_negative(),
    ensures
        rounding::is_amount(Format::Double, s.spread()),
        s.spread() is Finite,
        ({
            let product = s.base * halves(s.failures) * s.variance.counted(-1074);
            let span = Format::Double.span();
            -product - span <= span * (2 * s.spread().counted(-1074) - product) <= product + span
        }),
{
    let f = Format::Double;
    let z = f.lowest();
    let span = f.span();
    let e = s.escalated();
    let v = s.variance;
    lemma_escalated_exact(s);
    lemma_moderate(s);
    let n = s.base * halves(s.failures);
    let one = rounding::lemma_count_value(f, 1);
    lemma_ranked(v, one);
    rounding::lemma_times_ordered(f, v, one, e);
    rounding::lemma_times_one(f, e);
    let (u, p) = (e->units as nat, e->place as int);
    let (w, q) = (v->units as nat, v->place as int);
    assert(u * w == w * u) by (nonlinear_arith);
    let r = s.spread();
    assert(r == v.times(f, e));
    rounding::lemma_bits_bounded(f, e);
    rounding::lemma_bits_bounded(f, r);
    let num = u * w;
    let base = if p + q < z { p + q } else { z };
    let over = num * ieee::two(p + q - base);
    let under = 1 * ieee::two(z - base);
    rounding::lemma_rounding_error(f, false, num, 1, p + q, base);
    // The exact value, by the counts of both factors.
    let (a, b) = (ieee::two(p - z), ieee::two(q - z));
    let (t, h) = (ieee::two(-z), ieee::two(-z - 1));
    let g = ieee::two(p + q - base);
    ieee::lemma_two_step(-z);
    ieee::lemma_two_pos(-z - 1);
    ieee::lemma_two_add(p - z, q - z);
    ieee::lemma_two_add(p + q - 2 * z, z - base);
    ieee::lemma_two_add(p + q - base, -z);
    let c = v.counted(-1074);
    let product = n * c;
    assert(2 * over == product * under) by (nonlinear_arith)
        requires
            over == (u * w) * g,
            u * a == n * h,
            w * b == c,
            (a * b) * under == g * t,
            t == 2 * h,
            h > 0,
            product == n * c,
    {
        assert((u * a) * (w * b) == (u * w) * (a * b));
        assert(((u * a) * (w * b)) * under == (u * w) * ((a * b) * under));
        assert((n * h * c) * under == (u * w) * (g * t));
        assert((u * w) * (g * t) == over * (2 * h));
        assert((n * h * c) * under == (product * under) * h);
        assert((product * under) * h == (2 * over) * h);
    }
    let away = r.counted(-1074) * under - over;
    let d = 2 * r.counted(-1074) - product;
    assert(2 * away == d * under) by (nonlinear_arith)
        requires
            away == r.counted(-1074) * under - over,
            d == 2 * r.counted(-1074) - product,
            2 * over == product * under,
    ;
    assert(product >= 0) by (nonlinear_arith)
        requires
            product == n * c,
            n >= 0,
            c >= 0,
    ;
    if -under <= 2 * away <= under {
        assert(-1 <= d <= 1) by (nonlinear_arith)
            requires
                -under <= d * under <= under,
                under > 0,
        ;
    } else {
        assert(-product <= span * d <= product) by (nonlinear_arith)
            requires
                -over <= span * away <= over,
                2 * away == d * under,
                2 * over == product * under,
                under > 0,
        {
            assert(span * (2 * away) == (span * d) * under);
            assert(-(product * under) <= (span * d) * under <= product * under);
        }
    }
}

/// The number two.
proof fn lemma_two_parts()
    ensures
        Float::of_count(Format::Double, 2) == (Float::Finite {
            negative: false,
            units: 0x10_0000_0000_0000,
            place: (-51) as i32,
        }),
{
    vstd::arithmetic::power2::lemma2_to64_rest();
    ieee::lemma_two_add(51, 1023);
    let g = ieee::two(1023);
    assert(2 * (0x8_0000_0000_0000 * g) == 0x10_0000_0000_0000 * g * 1) by (nonlinear_arith);
    rounding::law_rounding_is_exact(
        Format::Double,
        false,
        2,
        1,
        0,
        0x10_0000_0000_0000,
        (-51) as i32,
    );
}

/// Half of an amount is exact, but for the smallest amounts, where it is off by
/// half a unit of the lowest place at most.
proof fn lemma_half_value(x: Float)
    requires
        rounding::is_amount(Format::Double, x),
        x is Finite,
    ensures
        ({
            let h = x.over(Format::Double, Float::of_count(Format::Double, 2));
            &&& rounding::is_amount(Format::Double, h)
            &&& h is Finite
            &&& -1 <= 2 * h.counted(-1074) - x.counted(-1074) <= 1
            &&& 2 * h.counted(-1074) == x.counted(-1074) || x.counted(-1074)
                < Format::Double.span()
        }),
{
    let f = Format::Double;
    let z = f.lowest();
    let two = rounding::lemma_count_bounded(f, 2);
    lemma_two_parts();
    rounding::lemma_quotient_bounded(f, x, two);
    let h = x.over(f, two);
    let (u, p) = (x->units as nat, x->place as int);
    let d = 0x10_0000_0000_0000nat;
    let g = ieee::two(p + 51 - z);
    vstd::arithmetic::power2::lemma2_to64_rest();
    if p > z {
        let l = ieee::two(p - 1 - z);
        ieee::lemma_two_add(p - 1 - z, 52);
        ieee::lemma_two_step(p - z);
        assert(u * g == u * l * d) by (nonlinear_arith)
            requires
                g == l * d,
        ;
        rounding::law_rounding_is_exact(f, false, u, d, p + 51, x->units, (p - 1) as i32);
        assert(u * (2 * l) == 2 * (u * l)) by (nonlinear_arith);
    } else {
        ieee::lemma_two_zero();
        ieee::lemma_two_step(52);
        let half = ieee::two(51);
        let under = d * ieee::two(0);
        let over = u * half;
        assert(under == 2 * half);
        rounding::lemma_rounding_error(f, false, u, d, p + 51, z);
        let c = h.counted(-1074);
        let away = c * under - over;
        let e = 2 * c - u;
        assert(away == e * half) by (nonlinear_arith)
            requires
                away == c * (2 * half) - u * half,
                e == 2 * c - u,
        ;
        assert(x.counted(-1074) == u) by (nonlinear_arith)
            requires
                x.counted(-1074) == u * ieee::two(0),
                ieee::two(0) == 1,
        ;
        let span = f.span();
        if -under <= 2 * away <= under {
            assert(-1 <= e <= 1) by (nonlinear_arith)
                requires
                    -(2 * half) <= 2 * (e * half) <= 2 * half,
                    half > 0,
            ;
        } else {
            assert(-1 <= e <= 1) by (nonlinear_arith)
                requires
                    -(u * half) <= span * (e * half) <= u * half,
                    u < span,
                    half > 0,
            {
                assert((span * e) * half == span * (e * half));
                assert(-u <= span * e <= u);
            }
        }
    }
}

/// The shift of a delay away from the escalated one is half the spread `x` at
/// most.
proof fn lemma_jitter_value(x: Float, word: u64)
    requires
        rounding::is_amount(Format::Double, x),
        x is Finite,
    ensures
        ({
            let f = Format::Double;
            let shift = fraction(word).times(f, x);
            let jitter = shift.minus(f, x.over(f, Float::of_count(f, 2)));
            &&& rounding::is_amount(f, shift)
            &&& shift is Finite
            &&& jitter is Finite
            &&& jitter.wf(f)
            &&& -x.counted(-1074) - 1 <= 2 * jitter.counted(-1074) <= x.counted(-1074) + 1
        }),
{
    let f = Format::Double;
    let z = f.lowest();
    let r = fraction(word);
    lemma_half_value(x);
    let half = x.over(f, Float::of_count(f, 2));
    let one = rounding::lemma_count_value(f, 1);
    // The fraction is one at most, so the product is the spread at most.
    let m = (word / 2048) as nat;
    let _ = rounding::lemma_dyadic(f, false, m, -53);
    vstd::arithmetic::power2::lemma2_to64_rest();
    ieee::lemma_two_add(53, 1021);
    let g = ieee::two(1021);
    assert(m * g <= 0x20_0000_0000_0000 * g) by (nonlinear_arith)
        requires
            m <= 0x20_0000_0000_0000,
    ;
    lemma_ranked(r, one);
    rounding::lemma_times_ordered(f, r, one, x);
    rounding::lemma_times_one(f, x);
    let shift = r.times(f, x);
    rounding::lemma_bits_bounded(f, x);
    rounding::lemma_bits_bounded(f, shift);
    lemma_ranked(shift, x);
    let away = half.negated();
    assert(away.counted(-1074) == -half.counted(-1074)) by (nonlinear_arith)
        requires
            half.counted(-1074) == half->units * ieee::two(half->place + 1074),
            away.counted(-1074) == -(half->units * ieee::two(half->place + 1074)),
    ;
    rounding::lemma_sum_value(f, shift, away);
    let t = shift.counted(-1074) - half.counted(-1074);
    let c = half.counted(-1074);
    let jitter = shift.minus(f, half);
    if t != 0 {
        let size = (if t > 0 { t } else { -t }) as nat;
        let negative = t < 0;
        assert(jitter == Float::rounded(f, negative, size, 1, z));
        if x.counted(-1074) < f.span() {
            // Small amounts are exact.
            let _ = rounding::lemma_dyadic(f, negative, size, z);
            ieee::lemma_two_zero();
            assert(size * ieee::two(0) == size) by (nonlinear_arith)
                requires
                    ieee::two(0) == 1,
            ;
        } else {
            ieee::lemma_two_zero();
            assert(size * ieee::two(0) * 1 <= c * ieee::two(0) * 1 && c * ieee::two(0) == c)
                by (nonlinear_arith)
                requires
                    size <= c,
                    ieee::two(0) == 1,
            ;
            rounding::lemma_rounded_ordered(f, negative, size, 1, z, false, c as nat, 1, z, z);
            rounding::law_rounding_is_exact(f, false, c as nat, 1, z, half->units, half->place);
            rounding::law_rounded_is_number(f, negative, size, 1, z);
            rounding::lemma_bits_bounded(f, half);
            rounding::lemma_bits_bounded(f, jitter);
            let bare = Float::Finite { negative: false, units: jitter->units, place: jitter->place };
            lemma_ranked(bare, half);
        }
    }
}

/// Under a moderate variance, a delay before it is held to the bounds lies in
/// the band of half the spread to either side of the escalated delay, up to a
/// rounding error of one part in two to the power of 52 of the far edge. This
/// is for base delays under two to the power of 51 milliseconds.
pub proof fn law_varied_in_band(s: DelayView, word: u64)
    requires
        s.base < 0x8_0000_0000_0000,
        s.moderate(),
    ensures
        s.varied(word) is Finite,
        rounding::is_amount(Format::Double, s.varied(word)),
        0x10_0000_0000_0000 * s.near_edge() - s.far_edge() <= 0x10_0000_0000_0000 * (4
            * s.varied(word).counted(-1074)) <= 0x10_0000_0000_0000 * s.far_edge() + s.far_edge(),
{
    let f = Format::Double;
    let z = f.lowest();
    let span = f.span();
    let n = s.base * halves(s.failures);
    let e = s.escalated();
    let x = s.spread();
    let (t, h) = (ieee::two(1074), ieee::two(1073));
    lemma_escalated_exact(s);
    lemma_moderate(s);
    ieee::lemma_two_step(1074);
    ieee::lemma_two_add(63, 1011);
    ieee::lemma_two_pos(1011);
    vstd::arithmetic::power2::lemma2_to64_rest();
    let c = s.variance.counted(-1074);
    let product = n * c;
    let whole = n * t;
    assert(t >= 0x8000_0000_0000_0000) by (nonlinear_arith)
        requires
            t == 0x8000_0000_0000_0000 * ieee::two(1011),
            ieee::two(1011) > 0,
    ;
    assert(4 * e.counted(-1074) == 2 * whole) by (nonlinear_arith)
        requires
            e.counted(-1074) == n * h,
            t == 2 * h,
            whole == n * t,
    ;
    assert(0 <= product <= whole && (n >= 1 ==> whole >= t) && (n == 0 ==> whole == 0))
        by (nonlinear_arith)
        requires
            product == n * c,
            whole == n * t,
            n >= 0,
            0 <= c <= t,
    ;
    assert(s.near_edge() == 2 * whole - product && s.far_edge() == 2 * whole + product)
        by (nonlinear_arith)
        requires
            s.near_edge() == n * (2 * t - c),
            s.far_edge() == n * (2 * t + c),
            product == n * c,
            whole == n * t,
    ;
    let r = s.varied(word);
    assert(n <= 4 * s.base && n >= 0) by (nonlinear_arith)
        requires
            n == s.base * halves(s.failures),
            2 <= halves(s.failures) <= 4,
    ;
    if s.variance.is_negative() {
        lemma_varied_steady(s, word);
        ieee::lemma_two_zero();
        assert(product == 0) by (nonlinear_arith)
            requires
                product == n * c,
                c == 0,
        ;
    } else {
        lemma_spread_value(s);
        lemma_jitter_value(x, word);
        let jitter = fraction(word).times(f, x).minus(f, x.over(f, Float::of_count(f, 2)));
        rounding::lemma_sum_value(f, e, jitter);
        let deep = e.counted(-1074) + jitter.counted(-1074);
        if n == 0 {
            assert(deep == 0);
        } else {
            assert(0 < deep < whole);
            ieee::lemma_two_zero();
            assert(deep * ieee::two(0) * 1 <= n * t * 1 && deep * ieee::two(0) == deep)
                by (nonlinear_arith)
                requires
                    deep <= n * t,
                    ieee::two(0) == 1,
            ;
            let most = rounding::lemma_count_value(f, n as nat);
            rounding::lemma_rounded_ordered(f, false, deep as nat, 1, z, false, n as nat, 1, 0, z);
            rounding::law_rounded_is_number(f, false, deep as nat, 1, z);
            rounding::lemma_bits_bounded(f, most);
            rounding::lemma_bits_bounded(f, r);
            rounding::lemma_rounding_error(f, false, deep as nat, 1, z, z);
            let away = r.counted(-1074) - deep;
            assert(-deep <= span * away <= deep);
        }
    }
}

/// Under a moderate variance, every delay lies in the band of half the spread to
/// either side of the escalated delay, held to the bounds, up to the cut to
/// whole milliseconds and a rounding error of one part in two to the power of
/// 52 of the far edge. This is for base delays under two to the power of 51 and
/// bounds up to two to the power of 53, which are exact in double precision.
pub proof fn law_delay_in_band(s: DelayView, word: u64)
    requires
        s.base < 0x8_0000_0000_0000,
        s.min <= s.max <= 0x20_0000_0000_0000,
        s.moderate(),
    ensures
        0x10_0000_0000_0000 * between(s.near_edge(), s.min * grains(), s.max * grains())
            - s.far_edge() < 0x10_0000_0000_0000 * ((s.delay(word) + 1) * grains()),
        0x10_0000_0000_0000 * (s.delay(word) * grains()) <= 0x10_0000_0000_0000 * between(
            s.far_edge(),
            s.min * grains(),
            s.max * grains(),
        ) + s.far_edge(),
{
    let f = Format::Double;
    let x = s.varied(word);
    let t = ieee::two(1074);
    let (near, far) = (s.near_edge(), s.far_edge());
    law_varied_in_band(s, word);
    lemma_edges(s);
    let low = rounding::lemma_count_value(f, s.min as nat);
    let high = rounding::lemma_count_value(f, s.max as nat);
    let zero = rounding::lemma_count_value(f, 0);
    rounding::lemma_below_at(x, low, -1074);
    rounding::lemma_below_at(high, x, -1074);
    rounding::lemma_below_at(high, low, -1074);
    ieee::lemma_two_pos(1074);
    let (a, b) = (s.min * t, s.max * t);
    assert(0 <= a <= b && s.min * grains() == 4 * a && s.max * grains() == 4 * b)
        by (nonlinear_arith)
        requires
            a == s.min * t,
            b == s.max * t,
            grains() == 4 * t,
            s.min <= s.max,
    ;
    let y = held(x, low, high);
    let c = y.counted(-1074);
    assert(c == between(x.counted(-1074), a, b));
    rounding::lemma_below_at(y, zero, -1074);
    assert(0nat * t == 0) by (nonlinear_arith);
    rounding::lemma_whole_at(y, -1074);
    let d = c / t as int;
    vstd::arithmetic::div_mod::lemma_fundamental_div_mod(c, t as int);
    assert(d <= s.max) by (nonlinear_arith)
        requires
            c == t * d + c % (t as int),
            c % (t as int) >= 0,
            c <= s.max * t,
            t > 0,
    ;
    assert(s.delay(word) == d);
    assert(d * grains() <= 4 * c < (d + 1) * grains()) by (nonlinear_arith)
        requires
            grains() == 4 * t,
            c == t * d + c % (t as int),
            0 <= c % (t as int) < t,
    ;
}

/// The edges lie in order, the far one at no more than half as much again as
/// the escalated delay.
proof fn lemma_edges(s: DelayView)
    requires
        s.moderate(),
    ensures
        0 <= s.near_edge() <= s.far_edge(),
        4 * s.far_edge() <= 3 * (s.base * grains() * halves(s.failures)),
{
    lemma_moderate(s);
    let n = s.base * halves(s.failures);
    let t = ieee::two(1074);
    let c = s.variance.counted(-1074);
    let g = grains();
    assert(0 <= n * (2 * t - c) <= n * (2 * t + c)) by (nonlinear_arith)
        requires
            n >= 0,
            0 <= c <= t,
    ;
    assert(4 * (n * (2 * t + c)) <= 3 * (s.base * g * halves(s.failures))) by (nonlinear_arith)
        requires
            n == s.base * halves(s.failures),
            g == 4 * t,
            n >= 0,
            0 <= c <= t,
    {
        assert(s.base * g * halves(s.failures) == n * (4 * t));
        assert(n * (2 * t + c) <= n * (3 * t));
    }
}

/// Under a moderate variance and a base delay up to two to the power of 50,
/// every delay lies within a millisecond of the band of half the spread to
/// either side of the escalated delay, held to the bounds, all in whole
/// milliseconds.
pub proof fn law_delay_near_band(s: DelayView, word: u64)
    requires
        s.base <= 0x4_0000_0000_0000,
        s.min <= s.max <= 0x20_0000_0000_0000,
        s.moderate(),
    ensures
        between(s.near_edge() / grains() as int, s.min as int, s.max as int) - 1 <= s.delay(word)
            <= between(s.far_edge() / grains() as int, s.min as int, s.max as int) + 1,
{
    let g = grains();
    let (near, far) = (s.near_edge(), s.far_edge());
    law_delay_in_band(s, word);
    lemma_edges(s);
    ieee::lemma_two_pos(1074);
    assert(s.base * g * halves(s.failures) <= 0x10_0000_0000_0000 * g) by (nonlinear_arith)
        requires
            s.base <= 0x4_0000_0000_0000,
            halves(s.failures) <= 4,
            g > 0,
    {
        assert(s.base * halves(s.failures) <= 0x10_0000_0000_0000);
        assert(s.base * g * halves(s.failures) == (s.base * halves(s.failures)) * g);
    }
    lemma_between_cut(near, s.min as int, s.max as int, g as int);
    lemma_between_cut(far, s.min as int, s.max as int, g as int);
    let m = between(near / g as int, s.min as int, s.max as int);
    let k = between(far / g as int, s.min as int, s.max as int);
    let d = s.delay(word) as int;
    assert(m - 1 <= d) by (nonlinear_arith)
        requires
            4 * (m * g) - 3 * g < 4 * ((d + 1) * g),
            g > 0,
    ;
    assert(d <= k + 1) by (nonlinear_arith)
        requires
            4 * (d * g) < 4 * ((k + 1) * g) + 3 * g,
            g > 0,
    ;
}

/// Holding a number between multiples and cutting it to a multiple may change
/// places.
proof fn lemma_between_cut(n: int, low: int, high: int, g: int)
    requires
        0 <= low <= high,
        g > 0,
    ensures
        ({
            let m = between(n / g, low, high);
            m * g <= between(n, low * g, high * g) < (m + 1) * g
        }),
{
    let q = n / g;
    vstd::arithmetic::div_mod::lemma_fundamental_div_mod(n, g);
    assert(low * g <= high * g && (n < low * g <==> q < low) && (q > high ==> n > high * g) && (n
        > high * g ==> q >= high) && q * g <= n < (q + 1) * g && (low + 1) * g == low * g + g && (
    high + 1) * g == high * g + g) by (nonlinear_arith)
        requires
            n == g * q + n % g,
            0 <= n % g < g,
            low <= high,
            g > 0,
    ;
}

/// Two delays are ordered as they are before they are held to the bounds.
proof fn lemma_delay_ordered(s: DelayView, word: u64, other: u64)
    requires
        s.varied(word).wf(Format::Double),
        s.varied(other).wf(Format::Double),
        !(s.varied(word) is NotANumber),
        !(s.varied(other) is NotANumber),
        s.varied(word).rank(Format::Double) <= s.varied(other).rank(Format::Double),
    ensures
        s.delay(word) <= s.delay(other),
{
    let f = Format::Double;
    let (x, y) = (s.varied(word), s.varied(other));
    let (low, high) = (s.low(), s.high());
    rounding::law_rounded_is_number(f, false, s.min as nat, 1, 0);
    rounding::law_rounded_is_number(f, false, s.max as nat, 1, 0);
    rounding::law_rounded_is_number(f, false, 0, 1, 0);
    let zero = Float::of_count(f, 0);
    ieee::law_order(f, x, low);
    ieee::law_order(f, y, low);
    let a = if x.below(low) { low } else { x };
    let b = if y.below(low) { low } else { y };
    ieee::law_order(f, high, a);
    ieee::law_order(f, high, b);
    let (c, d) = (held(x, low, high), held(y, low, high));
    ieee::law_order(f, c, zero);
    ieee::law_order(f, d, zero);
    ieee::law_order(f, at_least_zero(d), at_least_zero(c));
    rounding::law_whole_keeps_order(f, at_least_zero(c), at_least_zero(d));
}

/// A larger random word never gives a shorter delay, as long as the spread is
/// finite and not below zero.
pub proof fn law_delay_follows_word(s: DelayView, word: u64, other: u64)
    requires
        s.variance.wf(Format::Double),
        s.spread() is Finite,
        is_zero(s.spread()) || !s.spread().is_negative(),
        word <= other,
    ensures
        s.delay(word) <= s.delay(other),
{
    let f = Format::Double;
    if is_zero(s.spread()) {
        lemma_parts_of_zero(s.spread().is_negative(), word);
        lemma_parts_of_zero(s.spread().is_negative(), other);
    } else {
        lemma_spread_follows_word(s, word, other);
    }
}

proof fn lemma_spread_follows_word(s: DelayView, word: u64, other: u64)
    requires
        s.variance.wf(Format::Double),
        s.spread() is Finite,
        !s.spread().is_negative(),
        word <= other,
    ensures
        s.delay(word) <= s.delay(other),
{
    let f = Format::Double;
    let z = f.lowest();
    let e = s.escalated();
    let x = s.spread();
    rounding::law_rounded_is_number(f, false, s.base as nat, 1, 0);
    rounding::law_rounded_is_number(f, false, 3, 2, 0);
    rounding::law_rounded_is_number(f, false, 2, 1, 0);
    rounding::law_results_belong(f, Float::of_count(f, s.base as nat), Float::of_ratio(f, 3, 2));
    rounding::law_results_belong(f, Float::of_count(f, s.base as nat), Float::of_count(f, 2));
    rounding::law_results_belong(f, e, s.variance);
    let (m, n) = ((word / 2048) as nat, (other / 2048) as nat);
    let (a, b) = (fraction(word), fraction(other));
    let _ = rounding::lemma_dyadic(f, false, m, -53);
    let _ = rounding::lemma_dyadic(f, false, n, -53);
    let g = ieee::two(-53 - z);
    assert(m * g * 1 <= n * g * 1) by (nonlinear_arith)
        requires
            m <= n,
    ;
    rounding::lemma_rounded_ordered(f, false, m, 1, -53, false, n, 1, -53, z);
    rounding::lemma_times_ordered(f, a, b, x);
    lemma_half_value(x);
    lemma_jitter_value(x, word);
    lemma_jitter_value(x, other);
    let back = x.over(f, Float::of_count(f, 2)).negated();
    let (c, d) = (a.times(f, x), b.times(f, x));
    rounding::lemma_sum_ordered(f, back, c, d);
    rounding::lemma_sum_ordered(f, e, c.plus(f, back), d.plus(f, back));
    lemma_delay_ordered(s, word, other);
}

/// A rate limit counts as two failures.
pub proof fn law_rate_limit_counts_twice(failures: u32)
    ensures
        failures_after(failures, TimingFeedback::RateLimited) == failures_after(
            failures_after(failures, TimingFeedback::Failure),
            TimingFeedback::Failure,
        ),
{
}

/// Each success takes one failure away until there is none, and each failure
/// adds one until the count is full.
pub proof fn law_feedback_steps(failures: u32)
    ensures
        failures_after(0, TimingFeedback::Success) == 0,
        failures > 0 ==> failures_after(failures, TimingFeedback::Success) == failures - 1,
        failures < u32::MAX ==> failures_after(failures, TimingFeedback::Failure) == failures + 1,
        failures_after(u32::MAX, TimingFeedback::Failure) == u32::MAX,
{
}

/// Without variance and within the bounds the delay is the base delay up to one
/// recent failure, half as much again at two, and twice as much from three on.
pub proof fn law_steps_of_escalation(s: DelayView, word: u64)
    requires
        is_zero(s.variance),
        s.base < 0x8_0000_0000_0000,
        s.min == 0,
        2 * s.base <= s.max <= 0x20_0000_0000_0000,
    ensures
        s.failures <= 1 ==> s.delay(word) == s.base,
        s.failures == 2 ==> s.delay(word) == s.base + s.base / 2,
        s.failures >= 3 ==> s.delay(word) == 2 * s.base,
{
    law_steady_delay(s, word);
}

/// The count of recent failures matters only in three steps: up to one, two, and
/// more.
pub proof fn law_failures_count_in_steps(s: DelayView, failures: u32, word: u64)
    requires
        (s.failures <= 1 && failures <= 1) || (s.failures >= 3 && failures >= 3),
    ensures
        s.delay(word) == (DelayView { failures, ..s }).delay(word),
{
}

/// More than two recent failures give the delay of twice the base, whatever the
/// variance, the bounds and the random word.
pub proof fn law_many_failures_double_the_base(s: DelayView, word: u64)
    requires
        s.failures > 2,
        2 * s.base <= u64::MAX,
    ensures
        s.delay(word) == (DelayView { base: (2 * s.base) as u64, failures: 0, ..s }).delay(word),
{
    let f = Format::Double;
    let t = DelayView { base: (2 * s.base) as u64, failures: 0, ..s };
    let x = Float::of_count(f, s.base as nat);
    lemma_two_parts();
    if s.base == 0 {
        lemma_rounded_zero(false, 1, 0);
        assert(0nat * 0x10_0000_0000_0000nat == 0) by (nonlinear_arith);
        lemma_rounded_zero(false, 1, -1074 - 51);
        assert(x == zero(false));
    } else {
        let z = f.lowest();
        let _ = rounding::lemma_count_bounded(f, s.base);
        rounding::lemma_count_doubled(f, s.base);
        lemma_count_place(s.base);
        let (u, p) = (x->units as nat, x->place as int);
        vstd::arithmetic::power2::lemma2_to64_rest();
        ieee::lemma_two_add(52, p - 51 - z);
        let (a, b) = (ieee::two(p - 51 - z), ieee::two(p + 1 - z));
        assert((u * 0x10_0000_0000_0000) * a == u * b * 1) by (nonlinear_arith)
            requires
                b == 0x10_0000_0000_0000 * a,
        ;
        rounding::law_rounding_is_exact(
            f,
            false,
            u * 0x10_0000_0000_0000,
            1,
            p - 51,
            x->units,
            (p + 1) as i32,
        );
    }
    assert(s.escalated() == t.escalated());
}

/// A count has its last digit far above the lowest place.
proof fn lemma_count_place(n: u64)
    requires
        n > 0,
    ensures
        Float::of_count(Format::Double, n as nat)->place >= -100,
{
    let f = Format::Double;
    let z = f.lowest();
    let x = rounding::lemma_count_bounded(f, n);
    if x->place < -100 {
        let u = x->units as nat;
        let g = ieee::two(x->place - z);
        ieee::lemma_two_add(x->place - z, -x->place);
        ieee::lemma_two_add(54, -x->place - 54);
        ieee::lemma_two_pos(-x->place - 54);
        ieee::lemma_two_pos(x->place - z);
        vstd::arithmetic::power2::lemma2_to64_rest();
        let (w, l) = (ieee::two(-x->place), ieee::two(-x->place - 54));
        assert(w > u) by (nonlinear_arith)
            requires
                w == 0x40_0000_0000_0000 * l,
                l >= 1,
                u < 0x20_0000_0000_0000,
        ;
        assert(u * g < g * w) by (nonlinear_arith)
            requires
                u < w,
                g > 0,
        ;
    }
}

/// Two recent failures give the delay of half as much again as the base,
/// whatever the variance, the bounds and the random word.
pub proof fn law_two_failures_add_half(s: DelayView, half: u64, word: u64)
    requires
        s.failures == 2,
        s.base == 2 * half,
        3 * half <= 0x20_0000_0000_0000,
    ensures
        s.delay(word) == (DelayView { base: (3 * half) as u64, failures: 0, ..s }).delay(word),
{
    let f = Format::Double;
    let z = f.lowest();
    let t = ieee::two(1074);
    let x = rounding::lemma_count_value(f, s.base as nat);
    ieee::lemma_two_step(2148);
    assert(3nat * ieee::two(2148) * 1 == 3 * ieee::two(2147) * 2);
    rounding::lemma_rounded_same(f, false, 3, 2, 0, 3, 1, -1, -2148);
    let _ = rounding::lemma_dyadic(f, false, 3, -1);
    let y = Float::of_ratio(f, 3, 2);
    ieee::lemma_two_step(1074);
    let h = ieee::two(1073);
    let (u, p) = (x->units as nat, x->place as int);
    let (v, q) = (y->units as nat, y->place as int);
    let (a, b) = (ieee::two(p - z), ieee::two(q - z));
    ieee::lemma_two_add(p - z, q - z);
    ieee::lemma_two_add(1074, 1074);
    assert((u * v) * (a * b) * 1 == (3 * half) * (t * t) * 1) by (nonlinear_arith)
        requires
            u * a == (2 * half) * t,
            v * b == 3 * h,
            t == 2 * h,
    {
        assert((u * a) * (v * b) == (u * v) * (a * b));
        assert(((2 * half) * t) * (3 * h) == (3 * half) * t * (2 * h));
    }
    rounding::lemma_rounded_same(f, false, u * v, 1, p + q, 3 * half as nat, 1, 0, -2148);
    assert(s.escalated() == (DelayView { base: (3 * half) as u64, failures: 0, ..s }).escalated());
}

/// The fraction that a random word gives: its 53 highest bits, as so many parts
/// in two to the power of 53. It is less than one.
pub proof fn law_fraction(word: u64)
    ensures
        rounding::is_amount(Format::Double, fraction(word)),
        fraction(word) is Finite,
        fraction(word).counted(-1074) * 0x20_0000_0000_0000 == (word / 2048) * ieee::two(1074),
        fraction(word).below(Float::of_count(Format::Double, 1)),
{
    let f = Format::Double;
    let m = (word / 2048) as nat;
    let _ = rounding::lemma_dyadic(f, false, m, -53);
    vstd::arithmetic::power2::lemma2_to64_rest();
    ieee::lemma_two_add(53, 1021);
    ieee::lemma_two_pos(1021);
    let g = ieee::two(1021);
    let one = rounding::lemma_count_value(f, 1);
    rounding::lemma_below_at(fraction(word), one, -1074);
    assert(m * g * 0x20_0000_0000_0000 == m * (0x20_0000_0000_0000 * g) && m * g
        < 0x20_0000_0000_0000 * g) by (nonlinear_arith)
        requires
            m < 0x20_0000_0000_0000,
            g > 0,
    ;
}

/// The word in the middle gives the delay that there is without variance,
/// whatever the moderate variance.
pub proof fn law_middle_word_is_steady(s: DelayView, word: u64)
    requires
        0x8000_0000_0000_0000 <= word < 0x8000_0000_0000_0800,
        s.base < 0x8_0000_0000_0000,
        s.moderate(),
    ensures
        s.delay(word) == (DelayView { variance: zero(false), ..s }).delay(word),
{
    let f = Format::Double;
    let z = f.lowest();
    let x = s.spread();
    let t = DelayView { variance: zero(false), ..s };
    lemma_escalated_exact(s);
    lemma_varied_steady(t, word);
    assert(s.escalated() == t.escalated());
    if s.variance.is_negative() {
        lemma_varied_steady(s, word);
    } else {
        lemma_spread_value(s);
        lemma_jitter_value(x, word);
        lemma_half_value(x);
        let half = x.over(f, Float::of_count(f, 2));
        let shift = fraction(word).times(f, x);
        assert((word / 2048) as nat == 0x10_0000_0000_0000);
        lemma_half_fraction(x, word);
        let back = half.negated();
        ieee::lemma_two_zero();
        assert(shift == half);
        assert(half.minus(f, half) == zero(false)) by {
            let b = half.shared_place(back);
            assert(half.counted(b) + back.counted(b) == 0);
        }
        lemma_plus_zero(s.escalated());
    }
}

/// One half times an amount is the amount over two.
proof fn lemma_half_fraction(x: Float, word: u64)
    requires
        rounding::is_amount(Format::Double, x),
        x is Finite,
        word / 2048 == 0x10_0000_0000_0000,
    ensures
        fraction(word).times(Format::Double, x) == x.over(
            Format::Double,
            Float::of_count(Format::Double, 2),
        ),
{
    let f = Format::Double;
    let z = f.lowest();
    let d = 0x10_0000_0000_0000nat;
    lemma_two_parts();
    ieee::lemma_two_zero();
    rounding::law_rounding_is_exact(f, false, d, 1, -53, 0x10_0000_0000_0000, (-53) as i32);
    let (u, p) = (x->units as nat, x->place as int);
    vstd::arithmetic::power2::lemma2_to64_rest();
    let low = 2 * z;
    ieee::lemma_two_add(p - 53 - low, 104);
    ieee::lemma_two_add(52, 52);
    let (a, b) = (ieee::two(p - 53 - low), ieee::two(p + 51 - low));
    assert((d * u) * a * d == u * b * 1) by (nonlinear_arith)
        requires
            b == a * (d * d),
    ;
    rounding::lemma_rounded_same(f, false, d * u, 1, p - 53, u, d, p + 51, low);
}

/// What a delay is made of, for any base delay and any variance: the base delay
/// as it is, half as much again or twice, moved by a share of its product with
/// the variance, less half of that product.
pub proof fn law_variation(s: DelayView, word: u64)
    ensures
        ({
            let f = Format::Double;
            let base = Float::of_count(f, s.base as nat);
            let delay = if s.failures < 2 {
                base
            } else if s.failures == 2 {
                base.times(f, Float::of_ratio(f, 3, 2))
            } else {
                base.times(f, Float::of_count(f, 2))
            };
            let spread = delay.times(f, s.variance);
            let jitter = fraction(word).times(f, spread).minus(
                f,
                spread.over(f, Float::of_count(f, 2)),
            );
            s.varied(word) == delay.plus(f, jitter)
        }),
{
}

/// Holding to the bounds changes only what lies outside of them, to the bound
/// that it passes; the delay is the whole part of what comes out. What is no
/// number gives no delay.
pub proof fn law_held_to_the_bounds(s: DelayView, word: u64)
    requires
        s.ordered(),
    ensures
        s.varied(word) is NotANumber ==> s.delay(word) == 0,
        !(s.varied(word) is NotANumber) ==>
        ({
            let x = s.varied(word);
            let low = Float::of_count(Format::Double, s.min as nat);
            let high = Float::of_count(Format::Double, s.max as nat);
            &&& x.below(low) ==> s.delay(word) == low.whole()
            &&& high.below(x) ==> s.delay(word) == high.whole()
            &&& !x.below(low) && !high.below(x) ==> s.delay(word) == x.whole()
        }),
{
    let f = Format::Double;
    let x = s.varied(word);
    rounding::law_rounded_is_number(f, false, s.min as nat, 1, 0);
    rounding::law_rounded_is_number(f, false, s.max as nat, 1, 0);
    let zero = rounding::lemma_count_value(f, 0);
    rounding::law_counts_keep_order(f, 0, s.min);
    rounding::law_counts_keep_order(f, 0, s.max);
    rounding::law_counts_survive(f, 0);
    if s.spread() is Finite {
        lemma_varied_is_number(s, word);
        let y = held(x, s.low(), s.high());
        ieee::law_order(f, x, s.low());
        ieee::law_order(f, s.high(), x);
        ieee::law_order(f, s.high(), s.low());
        ieee::law_order(f, s.low(), zero);
        ieee::law_order(f, s.high(), zero);
        ieee::law_order(f, y, zero);
        ieee::law_order(f, y, s.low());
        assert(at_least_zero(y) == y);
    } else {
        lemma_wild_is_no_number(s, word);
    }
}

} // verus!
