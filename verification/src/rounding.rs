//! Facts about rounding.

use crate::ieee;
use crate::ieee::{Float, Format};
use vstd::prelude::*;

verus! {

/// The finest place is reached after some number of steps up: the count fits
/// there and does not fit one place lower.
proof fn lemma_finest_place_found(f: Format, num: nat, den: nat, place: int) -> (k: int)
    requires
        den > 0,
    ensures
        k >= 0,
        ieee::finest_place(f, num, den, place) == place + k,
        num < den * ieee::two(k) * f.span(),
        k == 0 || num >= den * ieee::two(k - 1) * f.span(),
    decreases num - den,
{
    ieee::lemma_two_zero();
    assert(den * ieee::two(0) == den) by (nonlinear_arith)
        requires
            ieee::two(0) == 1,
    ;
    if num < den * f.span() {
        0
    } else {
        assert(num >= 2 * den) by (nonlinear_arith)
            requires
                num >= den * f.span(),
                f.span() >= 2,
        ;
        let k = lemma_finest_place_found(f, num, 2 * den, place + 1);
        ieee::lemma_two_step(k + 1);
        let t = ieee::two(k);
        assert((2 * den) * t * f.span() == den * (2 * t) * f.span()) by (nonlinear_arith);
        if k > 0 {
            ieee::lemma_two_step(k);
            let h = ieee::two(k - 1);
            assert((2 * den) * h * f.span() == den * (2 * h) * f.span()) by (nonlinear_arith);
        }
        k + 1
    }
}

/// A larger ratio has no smaller nearest whole number.
proof fn lemma_nearest_ordered(n1: nat, d1: nat, n2: nat, d2: nat)
    requires
        d1 > 0,
        d2 > 0,
        n1 * d2 <= n2 * d1,
    ensures
        ieee::nearest(n1, d1) <= ieee::nearest(n2, d2),
{
    let (q1, r1) = (n1 / d1, n1 % d1);
    let (q2, r2) = (n2 / d2, n2 % d2);
    vstd::arithmetic::div_mod::lemma_fundamental_div_mod(n1 as int, d1 as int);
    vstd::arithmetic::div_mod::lemma_fundamental_div_mod(n2 as int, d2 as int);
    assert(q1 <= q2) by (nonlinear_arith)
        requires
            n1 == d1 * q1 + r1,
            n2 == d2 * q2 + r2,
            0 <= r1 < d1,
            0 <= r2 < d2,
            n1 * d2 <= n2 * d1,
    ;
    if q1 == q2 {
        assert(r1 * d2 <= r2 * d1) by (nonlinear_arith)
            requires
                n1 == d1 * q1 + r1,
                n2 == d2 * q1 + r2,
                n1 * d2 <= n2 * d1,
        ;
        assert((2 * r1 > d1 ==> 2 * r2 > d2) && (2 * r1 >= d1 ==> 2 * r2 >= d2)) by (nonlinear_arith)
            requires
                r1 * d2 <= r2 * d1,
                d1 > 0,
                d2 > 0,
        ;
    }
}

/// The nearest whole number to a ratio between two whole numbers is between
/// them.
proof fn lemma_nearest_between(num: nat, den: nat, low: nat, high: nat)
    requires
        den > 0,
        den * low <= num,
        num < den * high,
    ensures
        low <= ieee::nearest(num, den) <= high,
{
    let below = num / den;
    vstd::arithmetic::div_mod::lemma_fundamental_div_mod(num as int, den as int);
    assert(low <= below < high) by (nonlinear_arith)
        requires
            num == den * below + num % den,
            0 <= num % den < den,
            den * low <= num,
            num < den * high,
    ;
}

/// What rounding comes to: a number of the format, and its encoding as the
/// count of units after the places passed, held at the infinite one.
proof fn lemma_rounded_shape(f: Format, negative: bool, num: nat, den: nat, place: int) -> (r: (
    int,
    nat,
))
    requires
        den > 0,
    ensures
        ({
            let base = if place < f.lowest() { place } else { f.lowest() };
            let over = num * ieee::two(place - base);
            let under = den * ieee::two(f.lowest() - base);
            let (k, m) = r;
            &&& k >= 0
            &&& m == ieee::nearest(over, under * ieee::two(k))
            &&& under > 0
            &&& over < under * ieee::two(k) * f.span()
            &&& k == 0 || over >= under * ieee::two(k - 1) * f.span()
            &&& m <= f.span()
            &&& k == 0 || 2 * m >= f.span()
        }),
        Float::rounded(f, negative, num, den, place).wf(f),
        Float::rounded(f, negative, num, den, place).is_negative() == negative,
        !(Float::rounded(f, negative, num, den, place) is NotANumber),
        ({
            let r = r.0 * (f.span() / 2) + r.1;
            Float::rounded(f, negative, num, den, place).magnitude_bits(f) == if r
                < f.infinite_bits() {
                r
            } else {
                f.infinite_bits() as int
            }
        }),
{
    let base = if place < f.lowest() { place } else { f.lowest() };
    let over = num * ieee::two(place - base);
    let under = den * ieee::two(f.lowest() - base);
    ieee::lemma_two_pos(f.lowest() - base);
    assert(under > 0) by (nonlinear_arith)
        requires
            under == den * ieee::two(f.lowest() - base),
            den > 0,
            ieee::two(f.lowest() - base) > 0,
    ;
    let k = lemma_finest_place_found(f, over, under, f.lowest());
    let scale = under * ieee::two(k);
    ieee::lemma_two_pos(k);
    assert(scale > 0) by (nonlinear_arith)
        requires
            scale == under * ieee::two(k),
            under > 0,
            ieee::two(k) > 0,
    ;
    let half = f.span() / 2;
    assert(f.span() == 2 * half) by {
        match f {
            Format::Single => {},
            Format::Double => {},
        }
    }
    let m = ieee::nearest(over, scale);
    if k == 0 {
        assert(scale * 0 == 0) by (nonlinear_arith);
        lemma_nearest_between(over, scale, 0, f.span());
    } else {
        ieee::lemma_two_step(k);
        let t = ieee::two(k - 1);
        assert(scale * half <= over) by (nonlinear_arith)
            requires
                scale == under * (2 * t),
                over >= under * t * (2 * half),
        ;
        lemma_nearest_between(over, scale, half, f.span());
    }
    ieee::lemma_infinite_bits(f);
    let fields = f.highest() - f.lowest() + 2;
    assert(k + 2 > fields && k > 0 ==> k * half + m >= fields * half) by (nonlinear_arith)
        requires
            k > 0 ==> m >= half,
            half > 0,
    ;
    assert(k + 2 == fields && m == 2 * half ==> k * half + m == fields * half) by (nonlinear_arith);
    assert(k + 2 <= fields && m < 2 * half ==> k * half + m < fields * half) by (nonlinear_arith)
        requires
            half > 0,
    ;
    assert(k + 3 <= fields && m <= 2 * half ==> k * half + m < fields * half) by (nonlinear_arith)
        requires
            half > 0,
    ;
    assert((k + 1) * half + half == k * half + 2 * half) by (nonlinear_arith);
    (k, m)
}

/// Rounding keeps the order of magnitudes.
pub(crate) proof fn lemma_rounded_ordered(
    f: Format,
    s1: bool,
    n1: nat,
    d1: nat,
    p1: int,
    s2: bool,
    n2: nat,
    d2: nat,
    p2: int,
    z: int,
)
    requires
        d1 > 0,
        d2 > 0,
        z <= p1,
        z <= p2,
        z <= f.lowest(),
        n1 * ieee::two(p1 - z) * d2 <= n2 * ieee::two(p2 - z) * d1,
    ensures
        Float::rounded(f, s1, n1, d1, p1).magnitude_bits(f) <= Float::rounded(
            f,
            s2,
            n2,
            d2,
            p2,
        ).magnitude_bits(f),
{
    let low = f.lowest();
    let b1 = if p1 < low { p1 } else { low };
    let b2 = if p2 < low { p2 } else { low };
    let (k1, m1) = lemma_rounded_shape(f, s1, n1, d1, p1);
    let (k2, m2) = lemma_rounded_shape(f, s2, n2, d2, p2);
    let o1 = n1 * ieee::two(p1 - b1);
    let u1 = d1 * ieee::two(low - b1);
    let o2 = n2 * ieee::two(p2 - b2);
    let u2 = d2 * ieee::two(low - b2);
    let e1 = ieee::two(b1 - z);
    let e2 = ieee::two(b2 - z);
    let l1 = ieee::two(low - b1);
    let l2 = ieee::two(low - b2);
    let g1 = ieee::two(p1 - b1);
    let g2 = ieee::two(p2 - b2);
    let l = ieee::two(low - z);
    ieee::lemma_two_add(p1 - b1, b1 - z);
    ieee::lemma_two_add(p2 - b2, b2 - z);
    ieee::lemma_two_add(low - b1, b1 - z);
    ieee::lemma_two_add(low - b2, b2 - z);
    ieee::lemma_two_pos(b1 - z);
    ieee::lemma_two_pos(b2 - z);
    ieee::lemma_two_pos(low - z);
    assert(o1 * u2 * (e1 * e2) == n1 * ieee::two(p1 - z) * d2 * l) by (nonlinear_arith)
        requires
            o1 == n1 * g1,
            u2 == d2 * l2,
            g1 * e1 == ieee::two(p1 - z),
            l2 * e2 == l,
    ;
    assert(o2 * u1 * (e1 * e2) == n2 * ieee::two(p2 - z) * d1 * l) by (nonlinear_arith)
        requires
            o2 == n2 * g2,
            u1 == d1 * l1,
            g2 * e2 == ieee::two(p2 - z),
            l1 * e1 == l,
    ;
    let lhs = n1 * ieee::two(p1 - z) * d2;
    let rhs = n2 * ieee::two(p2 - z) * d1;
    assert(lhs * l <= rhs * l) by (nonlinear_arith)
        requires
            lhs <= rhs,
    ;
    assert(e1 * e2 > 0) by (nonlinear_arith)
        requires
            e1 > 0,
            e2 > 0,
    ;
    let ee = e1 * e2;
    assert(o1 * u2 <= o2 * u1) by (nonlinear_arith)
        requires
            o1 * u2 * ee <= o2 * u1 * ee,
            ee > 0,
    ;
    lemma_shapes_ordered(f, o1, u1, k1, m1, o2, u2, k2, m2);
}

proof fn lemma_shapes_ordered(
    f: Format,
    o1: nat,
    u1: nat,
    k1: int,
    m1: nat,
    o2: nat,
    u2: nat,
    k2: int,
    m2: nat,
)
    requires
        u1 > 0,
        u2 > 0,
        k1 >= 0,
        k2 >= 0,
        o1 * u2 <= o2 * u1,
        m1 == ieee::nearest(o1, u1 * ieee::two(k1)),
        m2 == ieee::nearest(o2, u2 * ieee::two(k2)),
        k1 == 0 || o1 >= u1 * ieee::two(k1 - 1) * f.span(),
        o2 < u2 * ieee::two(k2) * f.span(),
        m1 <= f.span(),
        k2 == 0 || 2 * m2 >= f.span(),
    ensures
        k1 * (f.span() / 2) + m1 <= k2 * (f.span() / 2) + m2,
{
    let half = f.span() / 2;
    let span = f.span();
    assert(span == 2 * half) by {
        match f {
            Format::Single => {},
            Format::Double => {},
        }
    }
    if k1 > k2 {
        let t1 = ieee::two(k1 - 1);
        let t2 = ieee::two(k2);
        if k1 - 1 > k2 {
            vstd::arithmetic::power2::lemma_pow2_strictly_increases(k2 as nat, (k1 - 1) as nat);
        }
        assert(o1 >= u1 * t2 * span) by (nonlinear_arith)
            requires
                o1 >= u1 * t1 * span,
                t1 >= t2,
                u1 > 0,
                span > 0,
        ;
        assert(false) by (nonlinear_arith)
            requires
                o1 >= u1 * t2 * span,
                o2 < u2 * t2 * span,
                o1 * u2 <= o2 * u1,
                u1 > 0,
                u2 > 0,
        ;
    } else if k1 == k2 {
        let t = ieee::two(k1);
        ieee::lemma_two_pos(k1);
        let c1 = u1 * t;
        let c2 = u2 * t;
        assert(c1 > 0 && c2 > 0) by (nonlinear_arith)
            requires
                c1 == u1 * t,
                c2 == u2 * t,
                u1 > 0,
                u2 > 0,
                t > 0,
        ;
        assert(o1 * c2 <= o2 * c1) by (nonlinear_arith)
            requires
                o1 * u2 <= o2 * u1,
                c1 == u1 * t,
                c2 == u2 * t,
                t > 0,
        ;
        lemma_nearest_ordered(o1, c1, o2, c2);
    } else {
        assert(k1 * half + m1 <= k2 * half + m2) by (nonlinear_arith)
            requires
                k1 + 1 <= k2,
                m1 <= 2 * half,
                m2 >= half,
        ;
    }
}

/// Rounding depends on the value alone, not on how it is written.
pub(crate) proof fn lemma_rounded_same(
    f: Format,
    negative: bool,
    n1: nat,
    d1: nat,
    p1: int,
    n2: nat,
    d2: nat,
    p2: int,
    z: int,
)
    requires
        d1 > 0,
        d2 > 0,
        z <= p1,
        z <= p2,
        z <= f.lowest(),
        n1 * ieee::two(p1 - z) * d2 == n2 * ieee::two(p2 - z) * d1,
    ensures
        Float::rounded(f, negative, n1, d1, p1) == Float::rounded(f, negative, n2, d2, p2),
{
    let x = Float::rounded(f, negative, n1, d1, p1);
    let y = Float::rounded(f, negative, n2, d2, p2);
    let _ = lemma_rounded_shape(f, negative, n1, d1, p1);
    let _ = lemma_rounded_shape(f, negative, n2, d2, p2);
    lemma_rounded_ordered(f, negative, n1, d1, p1, negative, n2, d2, p2, z);
    lemma_rounded_ordered(f, negative, n2, d2, p2, negative, n1, d1, p1, z);
    ieee::law_bits_round_trip(f, x);
    ieee::law_bits_round_trip(f, y);
}

/// Rounding gives a number of the format.
pub proof fn law_rounded_is_number(f: Format, negative: bool, num: nat, den: nat, place: int)
    requires
        den > 0,
    ensures
        Float::rounded(f, negative, num, den, place).wf(f),
        Float::rounded(f, negative, num, den, place).is_negative() == negative,
        !(Float::rounded(f, negative, num, den, place) is NotANumber),
{
    let _ = lemma_rounded_shape(f, negative, num, den, place);
}

/// A value that a number of the format has is rounded to that number.
pub proof fn law_rounding_is_exact(
    f: Format,
    negative: bool,
    num: nat,
    den: nat,
    place: int,
    units: u64,
    at: i32,
)
    requires
        den > 0,
        place >= f.lowest(),
        (Float::Finite { negative, units, place: at }).wf(f),
        num * ieee::two(place - f.lowest()) == units * ieee::two(at - f.lowest()) * den,
    ensures
        Float::rounded(f, negative, num, den, place) == (Float::Finite { negative, units, place: at }),
{
    let z = f.lowest();
    assert(units * (den * ieee::two(at - z)) == num * ieee::two(place - z) * 1) by (nonlinear_arith)
        requires
            num * ieee::two(place - z) == units * ieee::two(at - z) * den,
    ;
    ieee::lemma_rounded(f, negative, num, den, place, z, units as nat, 1, at as int);
    assert(units as nat / 1 == units && units as nat % 1 == 0);
}

/// Finite numbers may be compared at any place below theirs.
pub(crate) proof fn lemma_below_at(x: Float, y: Float, z: int)
    requires
        x is Finite,
        y is Finite,
        z <= x->place,
        z <= y->place,
    ensures
        x.below(y) <==> x.counted(z) < y.counted(z),
{
    let base = x.shared_place(y);
    let t = ieee::two(base - z);
    ieee::lemma_two_pos(base - z);
    lemma_counted_at(x, base, z);
    lemma_counted_at(y, base, z);
    let a = x.counted(base);
    let b = y.counted(base);
    assert(a < b <==> a * t < b * t) by (nonlinear_arith)
        requires
            t > 0,
    ;
}

/// The count of a finite number at a lower place.
pub(crate) proof fn lemma_counted_at(x: Float, base: int, z: int)
    requires
        x is Finite,
        z <= base <= x->place,
    ensures
        x.counted(z) == x.counted(base) * ieee::two(base - z),
{
    ieee::lemma_two_add(x->place - base, base - z);
    let u = x->units as nat;
    let a = ieee::two(x->place - base);
    let t = ieee::two(base - z);
    assert(u * (a * t) == (u * a) * t) by (nonlinear_arith);
    assert(-(u * a) * t == -((u * a) * t)) by (nonlinear_arith);
}

/// The whole part of a finite number that is not negative, from its count at a
/// place below its own and below the units.
pub(crate) proof fn lemma_whole_at(x: Float, z: int)
    requires
        x is Finite,
        !x.is_negative(),
        z <= x->place,
        z <= 0,
    ensures
        x.counted(z) >= 0,
        x.whole() == if x.counted(z) / ieee::two(-z) as int > u64::MAX {
            u64::MAX as int
        } else {
            x.counted(z) / ieee::two(-z) as int
        },
{
    let u = x->units as nat;
    let p = x->place as int;
    let d = ieee::two(-z) as int;
    ieee::lemma_two_pos(-z);
    ieee::lemma_two_pos(p - z);
    let c = u * ieee::two(p - z);
    assert(c >= 0) by (nonlinear_arith)
        requires
            c == u * ieee::two(p - z),
    ;
    if p >= 0 {
        ieee::lemma_two_add(p, -z);
        let t = ieee::two(p);
        assert(c == (u * t) * d) by (nonlinear_arith)
            requires
                c == u * ieee::two(p - z),
                ieee::two(p - z) == t * d,
        ;
        vstd::arithmetic::div_mod::lemma_div_by_multiple((u * t) as int, d);
    } else {
        ieee::lemma_two_add(p - z, -p);
        ieee::lemma_two_pos(-p);
        let t = ieee::two(p - z) as int;
        let e = ieee::two(-p) as int;
        assert(d == t * e);
        vstd::arithmetic::div_mod::lemma_div_denominator(c as int, t, e);
        vstd::arithmetic::div_mod::lemma_div_by_multiple(u as int, t);
        assert(c as int / t == u);
    }
}

proof fn lemma_normalised(f: Format, n: nat, q: int) -> (r: (u64, i32))
    requires
        n < f.span(),
        f.lowest() <= q <= f.highest(),
    ensures
        r.0 < f.span(),
        f.lowest() <= r.1 <= f.highest(),
        2 * r.0 >= f.span() || r.1 == f.lowest(),
        r.0 * ieee::two(r.1 - f.lowest()) == n * ieee::two(q - f.lowest()),
    decreases q - f.lowest(),
{
    if 2 * n >= f.span() || q == f.lowest() {
        (n as u64, q as i32)
    } else {
        ieee::lemma_two_step(q - f.lowest());
        let t = ieee::two(q - 1 - f.lowest());
        assert((2 * n) * t == n * (2 * t)) by (nonlinear_arith);
        lemma_normalised(f, 2 * n, q - 1)
    }
}

/// A count of units that fits its place is not changed by rounding.
pub(crate) proof fn lemma_dyadic(f: Format, negative: bool, n: nat, q: int) -> (r: (u64, i32))
    requires
        n < f.span(),
        f.lowest() <= q <= f.highest(),
    ensures
        Float::rounded(f, negative, n, 1, q) == (Float::Finite { negative, units: r.0, place: r.1 }),
        Float::rounded(f, negative, n, 1, q).wf(f),
        r.0 * ieee::two(r.1 - f.lowest()) == n * ieee::two(q - f.lowest()),
{
    let (units, at) = lemma_normalised(f, n, q);
    law_rounding_is_exact(f, negative, n, 1, q, units, at);
    (units, at)
}

/// A count of at most the span survives being made a number and cut back.
pub proof fn law_counts_survive(f: Format, n: u64)
    requires
        n <= f.span(),
    ensures
        Float::of_count(f, n as nat).whole() == n,
{
    let x = lemma_count_value(f, n as nat);
    let z = f.lowest();
    lemma_whole_at(x, z);
    ieee::lemma_two_pos(-z);
    vstd::arithmetic::div_mod::lemma_div_by_multiple(n as int, ieee::two(-z) as int);
}

/// The exact value of a count that fits.
pub(crate) proof fn lemma_count_value(f: Format, n: nat) -> (x: Float)
    requires
        n <= f.span(),
    ensures
        x == Float::of_count(f, n),
        x is Finite,
        x.wf(f),
        !x.is_negative(),
        x.counted(f.lowest()) == n * ieee::two(-f.lowest()),
{
    let z = f.lowest();
    if n < f.span() {
        let _ = lemma_dyadic(f, false, n, 0);
    } else {
        let half = (f.span() / 2) as u64;
        ieee::lemma_two_step(1 - z);
        let t = ieee::two(-z);
        assert(n * t == half * (2 * t) * 1) by (nonlinear_arith)
            requires
                n == 2 * half,
        ;
        law_rounding_is_exact(f, false, n, 1, 0, half, 1);
        assert(half * (2 * t) == n * t) by (nonlinear_arith)
            requires
                n == 2 * half,
        ;
    }
    Float::of_count(f, n)
}

/// Making counts into numbers keeps their order.
pub proof fn law_counts_keep_order(f: Format, m: u64, n: u64)
    requires
        m <= n,
    ensures
        !Float::of_count(f, n as nat).below(Float::of_count(f, m as nat)),
{
    let z = f.lowest();
    let t = ieee::two(-z);
    assert(m * t * 1 <= n * t * 1) by (nonlinear_arith)
        requires
            m <= n,
    ;
    lemma_rounded_ordered(f, false, m as nat, 1, 0, false, n as nat, 1, 0, z);
    law_rounded_is_number(f, false, m as nat, 1, 0);
    law_rounded_is_number(f, false, n as nat, 1, 0);
    ieee::law_order(f, Float::of_count(f, n as nat), Float::of_count(f, m as nat));
}

/// The whole parts of two numbers are ordered as the numbers are.
pub proof fn law_whole_keeps_order(f: Format, x: Float, y: Float)
    requires
        x.wf(f),
        y.wf(f),
        !(x is NotANumber),
        !(y is NotANumber),
        !y.below(x),
    ensures
        x.whole() <= y.whole(),
{
    if x is Finite && y is Finite && !x.is_negative() && !y.is_negative() {
        let z = f.lowest();
        lemma_below_at(y, x, z);
        lemma_whole_at(x, z);
        lemma_whole_at(y, z);
        ieee::lemma_two_pos(-z);
        vstd::arithmetic::div_mod::lemma_div_is_ordered(
            x.counted(z),
            y.counted(z),
            ieee::two(-z) as int,
        );
    } else if x is Finite && y is Finite && !x.is_negative() {
        let z = f.lowest();
        lemma_below_at(y, x, z);
        ieee::lemma_two_pos(x->place - z);
        ieee::lemma_two_pos(y->place - z);
        let (u, v) = (x->units, y->units);
        let (a, b) = (ieee::two(x->place - z), ieee::two(y->place - z));
        assert(u == 0) by (nonlinear_arith)
            requires
                u * a <= -(v * b),
                a > 0,
                b > 0,
                u >= 0,
                v >= 0,
        ;
        lemma_whole_at(x, z);
        assert(u * a == 0) by (nonlinear_arith)
            requires
                u == 0,
        ;
        ieee::lemma_two_pos(-z);
        vstd::arithmetic::div_mod::lemma_div_of0(ieee::two(-z) as int);
    }
}

/// A number that is there, of format `f`, and not negative.
pub open spec fn is_amount(f: Format, x: Float) -> bool {
    x.wf(f) && !(x is NotANumber) && !x.is_negative()
}

/// The encodings of numbers reach up to the infinite one, which no finite
/// number has.
pub(crate) proof fn lemma_bits_bounded(f: Format, x: Float)
    requires
        x.wf(f),
        !(x is NotANumber),
    ensures
        x.magnitude_bits(f) <= f.infinite_bits(),
        x is Finite <==> x.magnitude_bits(f) < f.infinite_bits(),
{
    if x is Finite {
        ieee::lemma_infinite_bits(f);
        let half = f.span() / 2;
        let fields = f.highest() - f.lowest() + 2;
        let passed = x->place - f.lowest();
        let units = x->units;
        assert(f.span() == 2 * half) by {
            match f {
                Format::Single => {},
                Format::Double => {},
            }
        }
        assert(passed * half + units < fields * half) by (nonlinear_arith)
            requires
                passed + 2 <= fields,
                units < 2 * half,
        ;
    }
}

/// Multiplying by the same amount keeps the order of finite amounts.
pub(crate) proof fn lemma_times_ordered(f: Format, x: Float, y: Float, t: Float)
    requires
        is_amount(f, x),
        is_amount(f, y),
        is_amount(f, t),
        x is Finite,
        y is Finite,
        t is Finite,
        x.rank(f) <= y.rank(f),
    ensures
        is_amount(f, x.times(f, t)),
        is_amount(f, y.times(f, t)),
        x.times(f, t).rank(f) <= y.times(f, t).rank(f),
{
    let z = f.lowest();
    ieee::law_order(f, y, x);
    lemma_below_at(y, x, z);
    let (u, p) = (x->units as nat, x->place as int);
    let (v, q) = (y->units as nat, y->place as int);
    let (w, r) = (t->units as nat, t->place as int);
    let (a, b, c) = (ieee::two(p - z), ieee::two(q - z), ieee::two(r - z));
    ieee::lemma_two_add(p - z, r - z);
    ieee::lemma_two_add(q - z, r - z);
    assert((u * w) * (a * c) * 1 <= (v * w) * (b * c) * 1) by (nonlinear_arith)
        requires
            u * a <= v * b,
            w >= 0,
            c >= 0,
    {
        assert((u * a) * (w * c) <= (v * b) * (w * c));
    }
    lemma_rounded_ordered(f, false, u * w, 1, p + r, false, v * w, 1, q + r, 2 * z);
    law_rounded_is_number(f, false, u * w, 1, p + r);
    law_rounded_is_number(f, false, v * w, 1, q + r);
}

/// The sum of two amounts is an amount, no less than either.
pub(crate) proof fn lemma_plus_grows(f: Format, w: Float, x: Float)
    requires
        is_amount(f, w),
        is_amount(f, x),
        w is Finite,
    ensures
        is_amount(f, w.plus(f, x)),
        w.rank(f) <= w.plus(f, x).rank(f),
{
    let none = Float::Finite { negative: false, units: 0, place: f.lowest() as i32 };
    lemma_bits_bounded(f, w);
    if x is Finite {
        ieee::lemma_two_zero();
        lemma_amount_counted(f, w);
        lemma_amount_counted(f, x);
        lemma_sum_exact(f, w, x);
        lemma_plus_none(f, w);
        lemma_sum_exact(f, w, none);
        assert(none.counted(f.lowest()) == 0);
        ieee::law_order(f, x, none);
        lemma_below_at(x, none, f.lowest());
        lemma_plus_ordered(f, w, none, x);
    }
}

proof fn lemma_amount_counted(f: Format, x: Float)
    requires
        is_amount(f, x),
        x is Finite,
    ensures
        x.counted(f.lowest()) >= 0,
        x.counted(f.lowest()) == 0 <==> x->units == 0,
{
    let t = ieee::two(x->place - f.lowest());
    let u = x->units as nat;
    ieee::lemma_two_pos(x->place - f.lowest());
    assert(u * t >= 0 && (u * t == 0 <==> u == 0)) by (nonlinear_arith)
        requires
            t > 0,
            u >= 0,
    ;
}

/// The sum of two finite amounts, from their counts at the lowest place.
proof fn lemma_sum_exact(f: Format, w: Float, x: Float)
    requires
        is_amount(f, w),
        is_amount(f, x),
        w is Finite,
        x is Finite,
    ensures
        is_amount(f, w.plus(f, x)),
        w.plus(f, x) == Float::rounded(
            f,
            false,
            (w.counted(f.lowest()) + x.counted(f.lowest())) as nat,
            1,
            f.lowest(),
        ),
{
    let z = f.lowest();
    let base = w.shared_place(x);
    let total = w.counted(base) + x.counted(base);
    let deep = w.counted(z) + x.counted(z);
    let t = ieee::two(base - z);
    lemma_amount_counted(f, w);
    lemma_amount_counted(f, x);
    lemma_counted_at(w, base, z);
    lemma_counted_at(x, base, z);
    ieee::lemma_two_pos(base - z);
    ieee::lemma_two_zero();
    let (a, b) = (w.counted(base), x.counted(base));
    assert(deep == total * t && (total == 0 <==> deep == 0) && (total >= 0 <==> deep >= 0))
        by (nonlinear_arith)
        requires
            deep == a * t + b * t,
            total == a + b,
            t > 0,
    ;
    assert(deep * ieee::two(0) * 1 == total * t * 1) by (nonlinear_arith)
        requires
            deep == total * t,
            ieee::two(0) == 1,
    ;
    lemma_rounded_same(f, false, deep as nat, 1, z, total as nat, 1, base, z);
    law_rounded_is_number(f, false, deep as nat, 1, z);
    if total == 0 {
        assert(0nat * ieee::two(0) == 0nat * ieee::two(0) * 1);
        law_rounding_is_exact(f, false, 0, 1, z, 0, z as i32);
    }
}

/// Adding zero changes no amount.
proof fn lemma_plus_none(f: Format, w: Float)
    requires
        is_amount(f, w),
        w is Finite,
    ensures
        w.plus(f, Float::Finite { negative: false, units: 0, place: f.lowest() as i32 }) == w,
{
    let none = Float::Finite { negative: false, units: 0, place: f.lowest() as i32 };
    let z = f.lowest();
    lemma_sum_exact(f, w, none);
    lemma_amount_counted(f, w);
    ieee::lemma_two_zero();
    let u = w->units as nat;
    let t = ieee::two(w->place - z);
    let n = u * t;
    assert(n * ieee::two(0) == u * t * 1) by (nonlinear_arith)
        requires
            n == u * t,
            ieee::two(0) == 1,
    ;
    law_rounding_is_exact(f, false, n, 1, z, w->units, w->place);
}

/// Adding to the same amount keeps the order of amounts.
pub(crate) proof fn lemma_plus_ordered(f: Format, w: Float, x: Float, y: Float)
    requires
        is_amount(f, w),
        is_amount(f, x),
        is_amount(f, y),
        w is Finite,
        x.rank(f) <= y.rank(f),
    ensures
        is_amount(f, w.plus(f, x)),
        is_amount(f, w.plus(f, y)),
        w.plus(f, x).rank(f) <= w.plus(f, y).rank(f),
{
    let z = f.lowest();
    lemma_bits_bounded(f, x);
    lemma_bits_bounded(f, y);
    if x is Finite && y is Finite {
        lemma_sum_exact(f, w, x);
        lemma_sum_exact(f, w, y);
        lemma_amount_counted(f, w);
        lemma_amount_counted(f, x);
        lemma_amount_counted(f, y);
        ieee::law_order(f, y, x);
        lemma_below_at(y, x, z);
        ieee::lemma_two_zero();
        let a = (w.counted(z) + x.counted(z)) as nat;
        let b = (w.counted(z) + y.counted(z)) as nat;
        assert(a * ieee::two(0) * 1 <= b * ieee::two(0) * 1) by (nonlinear_arith)
            requires
                a <= b,
                ieee::two(0) == 1,
        ;
        lemma_rounded_ordered(f, false, a, 1, z, false, b, 1, z, z);
    } else if x is Finite {
        lemma_sum_exact(f, w, x);
        lemma_bits_bounded(f, w.plus(f, x));
    }
}

/// Dividing by one or more makes no finite number larger.
pub(crate) proof fn lemma_quotient_bounded(f: Format, x: Float, y: Float)
    requires
        x.wf(f),
        x is Finite,
        is_amount(f, y),
        y is Finite,
        y.counted(f.lowest()) >= ieee::two(-f.lowest()),
    ensures
        x.over(f, y) is Finite,
        x.over(f, y).wf(f),
        x.over(f, y).is_negative() == x.is_negative(),
        x.over(f, y).magnitude_bits(f) <= x.magnitude_bits(f),
{
    let z = f.lowest();
    let (u, p) = (x->units as nat, x->place as int);
    let (v, q) = (y->units as nat, y->place as int);
    let deep = if p - q < z { p - q } else { z };
    let l = ieee::two(-z);
    let w = ieee::two(q - z);
    ieee::lemma_two_pos(-z);
    ieee::lemma_two_pos(q - z);
    assert(v > 0) by (nonlinear_arith)
        requires
            v * w >= l,
            l > 0,
            v >= 0,
    ;
    ieee::lemma_two_add(p - q - deep, q - z);
    ieee::lemma_two_add(p - deep, -z);
    let a = ieee::two(p - q - deep);
    let b = ieee::two(p - deep);
    assert(a <= b * v) by (nonlinear_arith)
        requires
            a * w == b * l,
            v * w >= l,
            w > 0,
            b >= 0,
    {
        assert(b * (v * w) >= b * l);
        assert(b * v * w >= a * w);
    }
    assert(u * a * 1 <= u * b * v) by (nonlinear_arith)
        requires
            a <= b * v,
            u >= 0,
    ;
    let negative = x.is_negative();
    lemma_rounded_ordered(f, negative, u, v, p - q, negative, u, 1, p, deep);
    law_rounding_is_exact(f, negative, u, 1, p, x->units, x->place);
    law_rounded_is_number(f, negative, u, v, p - q);
    lemma_bits_bounded(f, x);
    lemma_bits_bounded(f, x.over(f, y));
}

/// One or more times two to the power of 64 at most, as a number: finite, and
/// worth one at least.
pub(crate) proof fn lemma_count_bounded(f: Format, n: u64) -> (x: Float)
    requires
        n > 0,
    ensures
        x == Float::of_count(f, n as nat),
        x is Finite,
        is_amount(f, x),
        x.counted(f.lowest()) >= ieee::two(-f.lowest()),
{
    let z = f.lowest();
    let x = Float::of_count(f, n as nat);
    let t = ieee::two(-z);
    let top = 0x1_0000_0000_0000_0000nat;
    let one = lemma_count_value(f, 1);
    law_rounded_is_number(f, false, n as nat, 1, 0);
    assert(1nat * t * 1 <= n * t * 1 && n * t * 1 <= top * t * 1) by (nonlinear_arith)
        requires
            1 <= n <= top,
    ;
    lemma_rounded_ordered(f, false, 1, 1, 0, false, n as nat, 1, 0, z);
    lemma_rounded_ordered(f, false, n as nat, 1, 0, false, top, 1, 0, z);
    // Two to the power of 64 is half a span at the place that completes it.
    let at: int = match f {
        Format::Single => 41,
        Format::Double => 12,
    };
    let half = (f.span() / 2) as u64;
    vstd::arithmetic::power2::lemma2_to64();
    vstd::arithmetic::power2::lemma2_to64_rest();
    let g = ieee::two(at);
    assert(half * g == top) by (nonlinear_arith)
        requires
            (half == 0x80_0000 && g == 0x200_0000_0000) || (half == 0x10_0000_0000_0000 && g
                == 0x1000),
            top == 0x1_0000_0000_0000_0000,
    ;
    ieee::lemma_two_add(at, -z);
    assert(top * t == half * (g * t) * 1) by (nonlinear_arith)
        requires
            half * g == top,
    ;
    law_rounding_is_exact(f, false, top, 1, 0, half, at as i32);
    lemma_bits_bounded(f, x);
    lemma_bits_bounded(f, Float::rounded(f, false, top, 1, 0));
    ieee::law_order(f, x, one);
    lemma_below_at(x, one, z);
    x
}

/// Multiplying by one changes no finite amount.
pub(crate) proof fn lemma_times_one(f: Format, x: Float)
    requires
        is_amount(f, x),
        x is Finite,
    ensures
        Float::of_count(f, 1).times(f, x) == x,
{
    let z = f.lowest();
    let one = lemma_count_value(f, 1);
    let (m, q) = (one->units as nat, one->place as int);
    let (u, p) = (x->units as nat, x->place as int);
    ieee::lemma_two_add(q - z, p - z);
    ieee::lemma_two_add(-z, p - z);
    let (a, b, c) = (ieee::two(q - z), ieee::two(p - z), ieee::two(-z));
    assert((m * u) * (a * b) * 1 == u * (c * b) * 1) by (nonlinear_arith)
        requires
            m * a == c,
    ;
    lemma_rounded_same(f, false, m * u, 1, q + p, u, 1, p, 2 * z);
    law_rounding_is_exact(f, false, u, 1, p, x->units, x->place);
}

/// A count over itself is one.
pub(crate) proof fn lemma_over_itself(f: Format, n: u64)
    requires
        n > 0,
    ensures
        Float::of_count(f, n as nat).over(f, Float::of_count(f, n as nat)) == Float::of_count(f, 1),
{
    let z = f.lowest();
    let x = lemma_count_bounded(f, n);
    let u = x->units as nat;
    lemma_amount_counted(f, x);
    ieee::lemma_two_pos(-z);
    let t = ieee::two(-z);
    assert(u * t * 1 == 1 * t * u) by (nonlinear_arith);
    lemma_rounded_same(f, false, u, u, 0, 1, 1, 0, z);
}

/// Sums, products and quotients of numbers of a format belong to it.
pub proof fn law_results_belong(f: Format, x: Float, y: Float)
    requires
        x.wf(f),
        y.wf(f),
    ensures
        x.plus(f, y).wf(f),
        x.times(f, y).wf(f),
        x.over(f, y).wf(f),
{
    if x is Finite && y is Finite {
        let (u, p) = (x->units as nat, x->place as int);
        let (v, q) = (y->units as nat, y->place as int);
        let negative = x.is_negative() != y.is_negative();
        law_rounded_is_number(f, negative, u * v, 1, p + q);
        if v > 0 {
            law_rounded_is_number(f, negative, u, v, p - q);
        }
        let base = x.shared_place(y);
        let total = x.counted(base) + y.counted(base);
        if total > 0 {
            law_rounded_is_number(f, false, total as nat, 1, base);
        } else if total < 0 {
            law_rounded_is_number(f, true, (-total) as nat, 1, base);
        }
    }
}

/// An amount over one that is no smaller is one at most.
pub(crate) proof fn lemma_quotient_at_most_one(f: Format, x: Float, y: Float)
    requires
        is_amount(f, x),
        is_amount(f, y),
        x is Finite,
        y is Finite,
        y->units > 0,
        x.rank(f) <= y.rank(f),
    ensures
        is_amount(f, x.over(f, y)),
        x.over(f, y).rank(f) <= Float::of_count(f, 1).rank(f),
{
    let z = f.lowest();
    let (u, p) = (x->units as nat, x->place as int);
    let (v, q) = (y->units as nat, y->place as int);
    ieee::law_order(f, y, x);
    lemma_below_at(y, x, z);
    let deep = if p - q < z { p - q } else { z };
    let (a, b, w) = (ieee::two(p - q - deep), ieee::two(-deep), ieee::two(q - z));
    let g = ieee::two(p - z);
    ieee::lemma_two_pos(q - z);
    ieee::lemma_two_add(p - q - deep, q - z);
    ieee::lemma_two_add(p - z, -deep);
    assert(u * a * 1 <= 1 * b * v) by (nonlinear_arith)
        requires
            u * g <= v * w,
            a * w == g * b,
            w > 0,
            u >= 0,
            b >= 0,
    {
        assert((u * g) * b <= (v * w) * b);
        assert((u * a) * w <= (v * b) * w);
    }
    lemma_rounded_ordered(f, false, u, v, p - q, false, 1, 1, 0, deep);
    law_rounded_is_number(f, false, u, v, p - q);
    law_rounded_is_number(f, false, 1, 1, 0);
}

/// The quotient of two counts that fit is their ratio, rounded once.
pub(crate) proof fn lemma_quotient_of_counts(f: Format, m: nat, n: nat)
    requires
        m <= f.span(),
        0 < n <= f.span(),
    ensures
        Float::of_count(f, m).over(f, Float::of_count(f, n)) == Float::of_ratio(f, m, n),
{
    let z = f.lowest();
    let x = lemma_count_value(f, m);
    let y = lemma_count_value(f, n);
    let (u, p) = (x->units as nat, x->place as int);
    let (v, q) = (y->units as nat, y->place as int);
    let t = ieee::two(-z);
    ieee::lemma_two_pos(-z);
    ieee::lemma_two_pos(q - z);
    let deep = if p - q < z { p - q } else { z };
    let (a, b, w) = (ieee::two(p - q - deep), ieee::two(-deep), ieee::two(q - z));
    let g = ieee::two(p - z);
    ieee::lemma_two_add(p - q - deep, q - z);
    ieee::lemma_two_add(p - z, -deep);
    assert(v > 0) by (nonlinear_arith)
        requires
            v * w == n * t,
            n > 0,
            t > 0,
            v >= 0,
    ;
    assert(u * a * n == m * b * v) by (nonlinear_arith)
        requires
            u * g == m * t,
            v * w == n * t,
            a * w == g * b,
            w > 0,
            t > 0,
    {
        assert((u * a * n) * (w * t) == (u * (a * w)) * (n * t));
        assert((u * (g * b)) * (v * w) == ((u * g) * b) * (v * w));
        assert(((m * t) * b) * (v * w) == (m * b * v) * (w * t));
        assert((u * a * n) * (w * t) == (m * b * v) * (w * t));
        assert(w * t > 0);
    }
    lemma_rounded_same(f, false, u, v, p - q, m, n, 0, deep);
}

/// The nearest whole number is half a unit away at most.
proof fn lemma_nearest_error(num: nat, den: nat)
    requires
        den > 0,
    ensures
        -(den as int) <= 2 * (ieee::nearest(num, den) * den - num) <= den,
{
    let (q, r) = (num / den, num % den);
    vstd::arithmetic::div_mod::lemma_fundamental_div_mod(num as int, den as int);
    assert(q * den == den * q && (q + 1) * den == den * q + den) by (nonlinear_arith);
}

/// How far rounding moves a magnitude: by half a unit of the lowest place at
/// most, or by one part in the span of the format. The result is counted at the
/// lowest place, where the exact value is `over / under`.
pub(crate) proof fn lemma_rounding_error(
    f: Format,
    negative: bool,
    num: nat,
    den: nat,
    place: int,
    base: int,
)
    requires
        den > 0,
        base == if place < f.lowest() { place } else { f.lowest() },
        Float::rounded(f, negative, num, den, place) is Finite,
    ensures
        ({
            let r = Float::rounded(f, negative, num, den, place);
            let over = num * ieee::two(place - base);
            let under = den * ieee::two(f.lowest() - base);
            let away = r->units * ieee::two(r->place - f.lowest()) * under - over;
            &&& under > 0
            &&& (-under <= 2 * away <= under) || (-over <= f.span() * away <= over)
        }),
{
    let r = Float::rounded(f, negative, num, den, place);
    let over = num * ieee::two(place - base);
    let under = den * ieee::two(f.lowest() - base);
    let z = f.lowest();
    ieee::lemma_two_pos(z - base);
    assert(under > 0) by (nonlinear_arith)
        requires
            under == den * ieee::two(z - base),
            den > 0,
            ieee::two(z - base) > 0,
    ;
    let k = lemma_finest_place_found(f, over, under, z);
    let g = ieee::two(k);
    let unit = under * g;
    ieee::lemma_two_pos(k);
    assert(unit > 0) by (nonlinear_arith)
        requires
            unit == under * g,
            under > 0,
            g > 0,
    ;
    let m = ieee::nearest(over, unit);
    lemma_nearest_error(over, unit);
    assert(unit * 0 == 0) by (nonlinear_arith);
    lemma_nearest_between(over, unit, 0, f.span());
    assert(r == Float::settled(f, negative, m, z + k));
    let c = r->units * ieee::two(r->place - z);
    assert(c == m * g) by {
        if m == f.span() {
            ieee::lemma_two_step(k + 1);
            let half = f.span() / 2;
            assert(f.span() == 2 * half) by {
                match f {
                    Format::Single => {},
                    Format::Double => {},
                }
            }
            assert(half * (2 * g) == (2 * half) * g) by (nonlinear_arith);
        }
    }
    let away = c * under - over;
    assert(m * unit == c * under) by (nonlinear_arith)
        requires
            c == m * g,
            unit == under * g,
    ;
    if k == 0 {
        ieee::lemma_two_zero();
        assert(unit == under) by (nonlinear_arith)
            requires
                unit == under * g,
                g == 1,
        ;
    } else {
        ieee::lemma_two_step(k);
        let t = ieee::two(k - 1);
        let span = f.span();
        assert(-over <= span * away <= over) by (nonlinear_arith)
            requires
                unit == under * (2 * t),
                over >= under * t * span,
                -(unit as int) <= 2 * away <= unit,
                span > 0,
        {
            assert(span * unit == 2 * (under * t * span));
            assert(span * (2 * away) <= span * unit);
            assert(span * (2 * away) >= -(span * unit));
        }
    }
}

/// The sum of two finite numbers, from their counts at the lowest place.
pub(crate) proof fn lemma_sum_value(f: Format, x: Float, y: Float)
    requires
        x.wf(f),
        y.wf(f),
        x is Finite,
        y is Finite,
    ensures
        ({
            let deep = x.counted(f.lowest()) + y.counted(f.lowest());
            let r = x.plus(f, y);
            &&& deep == 0 ==> {
                &&& r is Finite
                &&& r.wf(f)
                &&& r.counted(f.lowest()) == 0
                &&& r.is_negative() == (x.is_negative() && y.is_negative())
            }
            &&& deep > 0 ==> r == Float::rounded(f, false, deep as nat, 1, f.lowest())
            &&& deep < 0 ==> r == Float::rounded(f, true, (-deep) as nat, 1, f.lowest())
        }),
{
    let z = f.lowest();
    let base = x.shared_place(y);
    let (a, b) = (x.counted(base), y.counted(base));
    let total = a + b;
    let deep = x.counted(z) + y.counted(z);
    let t = ieee::two(base - z);
    lemma_counted_at(x, base, z);
    lemma_counted_at(y, base, z);
    ieee::lemma_two_pos(base - z);
    ieee::lemma_two_zero();
    assert(deep == total * t && (total == 0 <==> deep == 0) && (total > 0 <==> deep > 0))
        by (nonlinear_arith)
        requires
            deep == a * t + b * t,
            total == a + b,
            t > 0,
    ;
    if total > 0 {
        assert(deep * ieee::two(0) * 1 == total * t * 1) by (nonlinear_arith)
            requires
                deep == total * t,
                ieee::two(0) == 1,
        ;
        lemma_rounded_same(f, false, deep as nat, 1, z, total as nat, 1, base, z);
    } else if total < 0 {
        assert((-deep) * ieee::two(0) * 1 == (-total) * t * 1) by (nonlinear_arith)
            requires
                deep == total * t,
                ieee::two(0) == 1,
        ;
        lemma_rounded_same(f, true, (-deep) as nat, 1, z, (-total) as nat, 1, base, z);
    } else {
        assert(0 * ieee::two(0) == 0);
    }
}

/// Adding the same number keeps the order of finite numbers.
pub(crate) proof fn lemma_sum_ordered(f: Format, w: Float, x: Float, y: Float)
    requires
        w.wf(f),
        x.wf(f),
        y.wf(f),
        w is Finite,
        x is Finite,
        y is Finite,
        x.rank(f) <= y.rank(f),
    ensures
        w.plus(f, x).wf(f),
        w.plus(f, y).wf(f),
        !(w.plus(f, x) is NotANumber),
        !(w.plus(f, y) is NotANumber),
        w.plus(f, x).rank(f) <= w.plus(f, y).rank(f),
        x.plus(f, w) == w.plus(f, x),
        y.plus(f, w) == w.plus(f, y),
{
    let z = f.lowest();
    ieee::law_order(f, y, x);
    lemma_below_at(y, x, z);
    lemma_sum_value(f, w, x);
    lemma_sum_value(f, w, y);
    law_results_belong(f, w, x);
    law_results_belong(f, w, y);
    let a = w.counted(z) + x.counted(z);
    let b = w.counted(z) + y.counted(z);
    let (m, n) = ((if a > 0 { a } else { -a }) as nat, (if b > 0 { b } else { -b }) as nat);
    law_rounded_is_number(f, a < 0, m, 1, z);
    law_rounded_is_number(f, b < 0, n, 1, z);
    ieee::lemma_two_zero();
    let t = ieee::two(0);
    assert((m <= n ==> m * t * 1 <= n * t * 1) && (n <= m ==> n * t * 1 <= m * t * 1))
        by (nonlinear_arith)
        requires
            t == 1,
    ;
    if m <= n {
        lemma_rounded_ordered(f, a < 0, m, 1, z, b < 0, n, 1, z, z);
    } else {
        lemma_rounded_ordered(f, b < 0, n, 1, z, a < 0, m, 1, z, z);
    }
    lemma_zero_rank(f, w.plus(f, x));
    lemma_zero_rank(f, w.plus(f, y));
}

/// A finite number worth nothing has rank zero.
proof fn lemma_zero_rank(f: Format, x: Float)
    requires
        x.wf(f),
    ensures
        x is Finite && x.counted(f.lowest()) == 0 ==> x.rank(f) == 0,
{
    if x is Finite && x.counted(f.lowest()) == 0 {
        let t = ieee::two(x->place - f.lowest());
        ieee::lemma_two_pos(x->place - f.lowest());
        let u = x->units as nat;
        assert(u == 0) by (nonlinear_arith)
            requires
                u * t == 0,
                t > 0,
                u >= 0,
        ;
        assert(0 * (f.span() / 2) == 0);
    }
}

/// Dividing by the same amount keeps the order of finite amounts.
pub(crate) proof fn lemma_quotient_ordered(f: Format, x: Float, y: Float, t: Float)
    requires
        is_amount(f, x),
        is_amount(f, y),
        is_amount(f, t),
        x is Finite,
        y is Finite,
        t is Finite,
        t->units > 0,
        x.rank(f) <= y.rank(f),
    ensures
        is_amount(f, x.over(f, t)),
        is_amount(f, y.over(f, t)),
        x.over(f, t).rank(f) <= y.over(f, t).rank(f),
{
    let z = f.lowest();
    ieee::law_order(f, y, x);
    lemma_below_at(y, x, z);
    let (u, p) = (x->units as nat, x->place as int);
    let (v, q) = (y->units as nat, y->place as int);
    let (w, r) = (t->units as nat, t->place as int);
    let deep = 3 * z - f.highest();
    let (a, b) = (ieee::two(p - z), ieee::two(q - z));
    let g = ieee::two(z - r - deep);
    ieee::lemma_two_add(p - z, z - r - deep);
    ieee::lemma_two_add(q - z, z - r - deep);
    assert(u * (a * g) * w <= v * (b * g) * w) by (nonlinear_arith)
        requires
            u * a <= v * b,
            g >= 0,
            w >= 0,
    {
        assert((u * a) * g <= (v * b) * g);
        assert((u * a) * g * w <= (v * b) * g * w);
    }
    lemma_rounded_ordered(f, false, u, w, p - r, false, v, w, q - r, deep);
    law_rounded_is_number(f, false, u, w, p - r);
    law_rounded_is_number(f, false, v, w, q - r);
}

/// Twice a count is the same units one place up.
pub(crate) proof fn lemma_count_doubled(f: Format, n: u64)
    requires
        n > 0,
    ensures
        ({
            let x = Float::of_count(f, n as nat);
            &&& x is Finite
            &&& x->place < f.highest()
            &&& 2 * x->units >= f.span()
            &&& Float::of_count(f, 2 * n as nat) == (Float::Finite {
                negative: false,
                units: x->units,
                place: (x->place + 1) as i32,
            })
        }),
{
    let z = f.lowest();
    let x = lemma_count_bounded(f, n);
    let t = ieee::two(-z);
    ieee::lemma_two_zero();
    ieee::lemma_two_pos(-z);
    let over = n as nat * t;
    let under = 1 * ieee::two(0);
    let k = lemma_finest_place_found(f, over, under, z);
    let g = ieee::two(k);
    let span = f.span();
    assert(under * g == g && over >= t) by (nonlinear_arith)
        requires
            under == 1,
            over == n * t,
            n >= 1,
    ;
    assert(t >= span * span) by {
        vstd::arithmetic::power2::lemma2_to64();
        vstd::arithmetic::power2::lemma2_to64_rest();
        ieee::lemma_two_add(53, 53);
        ieee::lemma_two_add(106, -z - 106);
        ieee::lemma_two_pos(-z - 106);
        let l = ieee::two(-z - 106);
        assert(ieee::two(106) * l >= ieee::two(106)) by (nonlinear_arith)
            requires
                l >= 1,
        ;
        assert(span * span <= 0x20_0000_0000_0000 * 0x20_0000_0000_0000) by (nonlinear_arith)
            requires
                span <= 0x20_0000_0000_0000,
        ;
    }
    assert(k > 0) by {
        if k == 0 {
            assert(over < span);
            assert(span * span >= span) by (nonlinear_arith)
                requires
                    span >= 1,
            ;
        }
    }
    ieee::lemma_two_step(k);
    ieee::lemma_two_step(k + 1);
    let h = ieee::two(k - 1);
    assert(2 * over >= g * span) by (nonlinear_arith)
        requires
            over >= 1 * h * span,
            g == 2 * h,
    ;
    assert(over * (1 * (2 * g)) == (2 * n) * t * g) by (nonlinear_arith)
        requires
            over == n * t,
    ;
    ieee::lemma_two_pos(k);
    ieee::lemma_rounded(f, false, 2 * n as nat, 1, 0, z, over, g, z + k + 1);
    let m = ieee::nearest(over, g);
    assert(x == Float::settled(f, false, m, z + k));
    let half = span / 2;
    assert(span == 2 * half) by {
        match f {
            Format::Single => {},
            Format::Double => {},
        }
    }
    assert(g * half <= over) by (nonlinear_arith)
        requires
            over >= 1 * h * span,
            g == 2 * h,
            span == 2 * half,
    ;
    lemma_nearest_between(over, g, half, span);
    lemma_count_in_range(f, n);
}

/// A count of 64 bits lies well within the places of a format.
proof fn lemma_count_in_range(f: Format, n: u64)
    requires
        n > 0,
    ensures
        Float::of_count(f, n as nat)->place <= 64,
{
    let z = f.lowest();
    let x = lemma_count_bounded(f, n);
    let top = 0xFFFF_FFFF_FFFF_FFFFu64;
    let y = lemma_count_bounded(f, top);
    law_counts_keep_order(f, n, top);
    ieee::law_order(f, y, x);
    lemma_below_at(y, x, z);
    if x->place > 64 {
        // Such a number would be worth more than twice the largest count.
        lemma_rounding_error(f, false, n as nat, 1, 0, z);
        ieee::lemma_two_zero();
        let t = ieee::two(-z);
        let c = x->units * ieee::two(x->place - z);
        let over = n * t;
        ieee::lemma_two_add(x->place as int, -z);
        ieee::lemma_two_add(x->place - 65, 65);
        ieee::lemma_two_pos(x->place - 65);
        ieee::lemma_two_pos(-z);
        vstd::arithmetic::power2::lemma2_to64();
        ieee::lemma_two_step(65);
        let w = ieee::two(x->place as int);
        let l = ieee::two(x->place - 65);
        assert(w >= 0x2_0000_0000_0000_0000) by (nonlinear_arith)
            requires
                w == l * 0x2_0000_0000_0000_0000,
                l >= 1,
        ;
        lemma_amount_counted(f, x);
        let u = x->units as nat;
        assert(u > 0) by {
            if u == 0 {
                assert(0 * ieee::two(x->place - z) == 0);
            }
        }
        assert(c >= 0x2_0000_0000_0000_0000 * t) by (nonlinear_arith)
            requires
                c == u * (w * t),
                w >= 0x2_0000_0000_0000_0000,
                u >= 1,
                t > 0,
        {
            assert(w * t >= 0x2_0000_0000_0000_0000 * t);
            assert(u * (w * t) >= w * t);
        }
        assert(over < 0x1_0000_0000_0000_0000 * t) by (nonlinear_arith)
            requires
                over == n * t,
                n <= 0xFFFF_FFFF_FFFF_FFFF,
                t > 0,
        ;
        let span = f.span();
        let away = c * 1 - over;
        assert(span * away > over) by (nonlinear_arith)
            requires
                away > over,
                over >= 0,
                span >= 1,
        ;
        assert(over >= 1) by (nonlinear_arith)
            requires
                over == n * t,
                n >= 1,
                t >= 1,
        ;
    }
}

/// How far rounding moves a value: by half a unit of the lowest place at most,
/// or by one part in the span of the format, whichever is more.
pub proof fn law_rounding_is_close(f: Format, negative: bool, num: nat, den: nat)
    requires
        den > 0,
        Float::rounded(f, negative, num, den, f.lowest()) is Finite,
    ensures
        ({
            let r = Float::rounded(f, negative, num, den, f.lowest());
            let away = r->units * ieee::two(r->place - f.lowest()) * den - num;
            (-den <= 2 * away <= den) || (-num <= f.span() * away <= num)
        }),
{
    ieee::lemma_two_zero();
    assert(num * ieee::two(0) == num && den * ieee::two(0) == den) by (nonlinear_arith)
        requires
            ieee::two(0) == 1,
    ;
    lemma_rounding_error(f, negative, num, den, f.lowest(), f.lowest());
}

/// Rounding keeps the order of values.
pub proof fn law_rounding_keeps_order(f: Format, num: nat, den: nat, other: nat, other_den: nat)
    requires
        den > 0,
        other_den > 0,
        num * other_den <= other * den,
    ensures
        !Float::of_ratio(f, other, other_den).below(Float::of_ratio(f, num, den)),
{
    let z = f.lowest();
    let t = ieee::two(-z);
    assert(num * t * other_den <= other * t * den) by (nonlinear_arith)
        requires
            num * other_den <= other * den,
    ;
    lemma_rounded_ordered(f, false, num, den, 0, false, other, other_den, 0, z);
    law_rounded_is_number(f, false, num, den, 0);
    law_rounded_is_number(f, false, other, other_den, 0);
    ieee::law_order(f, Float::of_ratio(f, other, other_den), Float::of_ratio(f, num, den));
}

/// Arithmetic on counts that fit is that of whole numbers: sums, products and
/// quotients are right, and the order is theirs.
pub proof fn law_arithmetic_of_counts(f: Format, m: nat, n: nat)
    requires
        m <= f.span(),
        n <= f.span(),
    ensures
        Float::of_count(f, m).plus(f, Float::of_count(f, n)) == Float::of_count(f, m + n),
        Float::of_count(f, m).times(f, Float::of_count(f, n)) == Float::of_count(f, m * n),
        n > 0 ==> Float::of_count(f, m).over(f, Float::of_count(f, n)) == Float::of_ratio(f, m, n),
        Float::of_count(f, m).below(Float::of_count(f, n)) <==> m < n,
{
    let z = f.lowest();
    let t = ieee::two(-z);
    let x = lemma_count_value(f, m);
    let y = lemma_count_value(f, n);
    ieee::lemma_two_pos(-z);
    ieee::lemma_two_zero();
    lemma_sum_exact(f, x, y);
    let deep = (x.counted(z) + y.counted(z)) as nat;
    assert(deep * ieee::two(0) * 1 == (m + n) * t * 1) by (nonlinear_arith)
        requires
            deep == m * t + n * t,
            ieee::two(0) == 1,
    ;
    lemma_rounded_same(f, false, deep, 1, z, m + n, 1, 0, z);
    let (u, p) = (x->units as nat, x->place as int);
    let (v, q) = (y->units as nat, y->place as int);
    let (a, b) = (ieee::two(p - z), ieee::two(q - z));
    ieee::lemma_two_add(p - z, q - z);
    ieee::lemma_two_add(-z, -z);
    assert((u * v) * (a * b) * 1 == (m * n) * (t * t) * 1) by (nonlinear_arith)
        requires
            u * a == m * t,
            v * b == n * t,
    ;
    lemma_rounded_same(f, false, u * v, 1, p + q, m * n, 1, 0, 2 * z);
    if n > 0 {
        lemma_quotient_of_counts(f, m, n);
    }
    lemma_below_at(x, y, z);
    assert(m * t < n * t <==> m < n) by (nonlinear_arith)
        requires
            t > 0,
    ;
}

/// Sums and products do not depend on the order of their parts.
pub proof fn law_arithmetic_commutes(f: Format, x: Float, y: Float)
    ensures
        x.plus(f, y) == y.plus(f, x),
        x.times(f, y) == y.times(f, x),
{
    if x is Finite && y is Finite {
        assert(x->units as nat * y->units as nat == y->units as nat * x->units as nat)
            by (nonlinear_arith);
    }
}

/// A quotient just between two whole numbers goes to the even one.
proof fn lemma_nearest_tie(num: nat, den: nat)
    requires
        den > 0,
    ensures
        ({
            let away = ieee::nearest(num, den) * den - num;
            (2 * away == den || 2 * away == -den) ==> ieee::nearest(num, den) % 2 == 0
        }),
{
    let (q, r) = (num / den, num % den);
    vstd::arithmetic::div_mod::lemma_fundamental_div_mod(num as int, den as int);
    assert(q * den == den * q && (q + 1) * den == den * q + den) by (nonlinear_arith);
}

/// A value just between two neighbouring numbers of the format is rounded to the
/// one with an even count of units.
pub proof fn law_ties_go_to_even(f: Format, negative: bool, num: nat, den: nat)
    requires
        den > 0,
        Float::rounded(f, negative, num, den, f.lowest()) is Finite,
    ensures
        ({
            let r = Float::rounded(f, negative, num, den, f.lowest());
            let unit = den * ieee::two(r->place - f.lowest());
            let away = r->units * unit - num;
            (2 * away == unit || 2 * away == -unit) ==> r->units % 2 == 0
        }),
{
    let r = Float::rounded(f, negative, num, den, f.lowest());
    ieee::lemma_two_zero();
    assert(num * ieee::two(0) == num && den * ieee::two(0) == den) by (nonlinear_arith)
        requires
            ieee::two(0) == 1,
    ;
    let k = lemma_finest_place_found(f, num, den, f.lowest());
    let unit = den * ieee::two(k);
    ieee::lemma_two_pos(k);
    assert(unit > 0) by (nonlinear_arith)
        requires
            unit == den * ieee::two(k),
            den > 0,
            ieee::two(k) > 0,
    ;
    let m = ieee::nearest(num, unit);
    lemma_nearest_tie(num, unit);
    assert(unit * 0 == 0) by (nonlinear_arith);
    lemma_nearest_between(num, unit, 0, f.span());
    assert(r == Float::settled(f, negative, m, f.lowest() + k));
    assert((f.span() / 2) % 2 == 0) by {
        match f {
            Format::Single => {},
            Format::Double => {},
        }
    }
}

} // verus!
