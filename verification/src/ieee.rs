//! Binary floating-point numbers held as integers.
//!
//! Scores and delays follow the single and double formats of IEEE 754. The
//! numbers are kept unpacked (a sign, a whole number of units and the place of
//! that unit), so every operation is integer arithmetic and its rounding is
//! covered by proof.

use vstd::prelude::*;

verus! {

/// The two binary interchange formats in use.
#[derive(Clone, Copy, Debug, PartialEq, Eq, Structural)]
pub enum Format {
    Single,
    Double,
}

impl Format {
    /// Place of the last digit of the smallest numbers.
    pub open spec fn lowest(self) -> int {
        match self {
            Format::Single => -149,
            Format::Double => -1074,
        }
    }

    /// Place of the last digit of the largest finite numbers.
    pub open spec fn highest(self) -> int {
        match self {
            Format::Single => 104,
            Format::Double => 971,
        }
    }

    /// One more than the largest count of units a number can hold.
    pub open spec fn span(self) -> nat {
        match self {
            Format::Single => 0x100_0000,
            Format::Double => 0x20_0000_0000_0000,
        }
    }

    /// The encoding of the sign.
    pub open spec fn sign_bit(self) -> nat {
        match self {
            Format::Single => 0x8000_0000,
            Format::Double => 0x8000_0000_0000_0000,
        }
    }

    /// The encoding of the infinite magnitude.
    pub open spec fn infinite_bits(self) -> nat {
        match self {
            Format::Single => 0x7F80_0000,
            Format::Double => 0x7FF0_0000_0000_0000,
        }
    }
}

/// A number of one of the formats.
#[derive(Clone, Copy, Debug)]
pub enum Float {
    NotANumber,
    Infinite { negative: bool },
    /// `units` times two to the power of `place`.
    Finite { negative: bool, units: u64, place: i32 },
}

/// `2` to the power of `e`.
pub open spec fn two(e: int) -> nat {
    vstd::arithmetic::power2::pow2(e as nat)
}

/// The whole number nearest to `num / den`, the even one of two equally near.
pub open spec fn nearest(num: nat, den: nat) -> nat {
    let below = num / den;
    let rest = num % den;
    if 2 * rest < den || (2 * rest == den && below % 2 == 0) {
        below
    } else {
        below + 1
    }
}

/// The finest place, counted up from `place`, whose unit goes fewer than
/// `span` times into `num / den` units of `place`.
pub open spec fn finest_place(f: Format, num: nat, den: nat, place: int) -> int
    decreases num - den,
{
    if den == 0 || num < den * f.span() {
        place
    } else {
        finest_place(f, num, 2 * den, place + 1)
    }
}

impl Float {
    /// Whether the number belongs to format `f`, in its canonical form.
    pub open spec fn wf(self, f: Format) -> bool {
        match self {
            Float::Finite { negative, units, place } => {
                &&& units < f.span()
                &&& f.lowest() <= place <= f.highest()
                &&& 2 * units >= f.span() || place == f.lowest()
            },
            _ => true,
        }
    }

    /// `units` at `place`, carried into the next place where the count is full
    /// and infinite beyond the highest place.
    pub open spec fn settled(f: Format, negative: bool, units: nat, place: int) -> Float {
        let full = units == f.span();
        let at = if full { place + 1 } else { place };
        if at > f.highest() {
            Float::Infinite { negative }
        } else {
            Float::Finite {
                negative,
                units: (if full { f.span() / 2 } else { units }) as u64,
                place: at as i32,
            }
        }
    }

    /// The number of format `f` nearest to `num / den` times two to the power of
    /// `place`, ties to the even count of units.
    pub open spec fn rounded(f: Format, negative: bool, num: nat, den: nat, place: int) -> Float {
        let base = if place < f.lowest() { place } else { f.lowest() };
        let over = num * two(place - base);
        let under = den * two(f.lowest() - base);
        let at = finest_place(f, over, under, f.lowest());
        Float::settled(f, negative, nearest(over, under * two(at - f.lowest())), at)
    }

    /// The number of format `f` nearest to the count `n`.
    pub open spec fn of_count(f: Format, n: nat) -> Float {
        Float::rounded(f, false, n, 1, 0)
    }

    /// The number of format `f` nearest to `num / den`.
    pub open spec fn of_ratio(f: Format, num: nat, den: nat) -> Float {
        Float::rounded(f, false, num, den, 0)
    }

    /// Whether the sign is set.
    pub open spec fn is_negative(self) -> bool {
        match self {
            Float::NotANumber => false,
            Float::Infinite { negative } => negative,
            Float::Finite { negative, .. } => negative,
        }
    }

    /// The exact value of a finite number, counted at place `base`.
    pub open spec fn counted(self, base: int) -> int {
        match self {
            Float::Finite { negative, units, place } => if negative {
                -(units * two(place - base))
            } else {
                units * two(place - base) as int
            },
            _ => 0,
        }
    }

    /// The lower one of the places of two finite numbers.
    pub open spec fn shared_place(self, other: Float) -> int {
        match (self, other) {
            (Float::Finite { place: p, .. }, Float::Finite { place: q, .. }) => if p < q {
                p as int
            } else {
                q as int
            },
            _ => 0,
        }
    }

    /// The number with the other sign.
    pub open spec fn negated(self) -> Float {
        match self {
            Float::NotANumber => Float::NotANumber,
            Float::Infinite { negative } => Float::Infinite { negative: !negative },
            Float::Finite { negative, units, place } => Float::Finite {
                negative: !negative,
                units,
                place,
            },
        }
    }

    /// The sum, rounded into format `f`.
    pub open spec fn plus(self, f: Format, other: Float) -> Float {
        match (self, other) {
            (Float::NotANumber, _) => Float::NotANumber,
            (_, Float::NotANumber) => Float::NotANumber,
            (Float::Infinite { negative: m }, Float::Infinite { negative: n }) => if m == n {
                self
            } else {
                Float::NotANumber
            },
            (Float::Infinite { .. }, _) => self,
            (_, Float::Infinite { .. }) => other,
            (Float::Finite { .. }, Float::Finite { .. }) => {
                let base = self.shared_place(other);
                let total = self.counted(base) + other.counted(base);
                if total == 0 {
                    Float::Finite {
                        negative: self.is_negative() && other.is_negative(),
                        units: 0,
                        place: f.lowest() as i32,
                    }
                } else if total < 0 {
                    Float::rounded(f, true, (-total) as nat, 1, base)
                } else {
                    Float::rounded(f, false, total as nat, 1, base)
                }
            },
        }
    }

    /// The difference, rounded into format `f`.
    pub open spec fn minus(self, f: Format, other: Float) -> Float {
        self.plus(f, other.negated())
    }

    /// The product, rounded into format `f`.
    pub open spec fn times(self, f: Format, other: Float) -> Float {
        let negative = self.is_negative() != other.is_negative();
        match (self, other) {
            (Float::NotANumber, _) => Float::NotANumber,
            (_, Float::NotANumber) => Float::NotANumber,
            (Float::Infinite { .. }, Float::Finite { units, .. }) => if units == 0 {
                Float::NotANumber
            } else {
                Float::Infinite { negative }
            },
            (Float::Finite { units, .. }, Float::Infinite { .. }) => if units == 0 {
                Float::NotANumber
            } else {
                Float::Infinite { negative }
            },
            (Float::Infinite { .. }, Float::Infinite { .. }) => Float::Infinite { negative },
            (
                Float::Finite { units: u, place: p, .. },
                Float::Finite { units: v, place: q, .. },
            ) => Float::rounded(f, negative, u as nat * v as nat, 1, p + q),
        }
    }

    /// The quotient, rounded into format `f`.
    pub open spec fn over(self, f: Format, other: Float) -> Float {
        let negative = self.is_negative() != other.is_negative();
        match (self, other) {
            (Float::NotANumber, _) => Float::NotANumber,
            (_, Float::NotANumber) => Float::NotANumber,
            (Float::Infinite { .. }, Float::Infinite { .. }) => Float::NotANumber,
            (Float::Infinite { .. }, Float::Finite { .. }) => Float::Infinite { negative },
            (Float::Finite { .. }, Float::Infinite { .. }) => Float::Finite {
                negative,
                units: 0,
                place: f.lowest() as i32,
            },
            (
                Float::Finite { units: u, place: p, .. },
                Float::Finite { units: v, place: q, .. },
            ) => if v == 0 {
                if u == 0 {
                    Float::NotANumber
                } else {
                    Float::Infinite { negative }
                }
            } else {
                Float::rounded(f, negative, u as nat, v as nat, p - q)
            },
        }
    }

    /// The interchange encoding of a magnitude: counts of half a span for the
    /// places passed, then the units.
    pub open spec fn magnitude_bits(self, f: Format) -> nat {
        match self {
            Float::NotANumber => f.infinite_bits() + f.span() / 4,
            Float::Infinite { .. } => f.infinite_bits(),
            Float::Finite { units, place, .. } => ((place - f.lowest()) * (f.span() / 2)
                + units) as nat,
        }
    }

    /// The interchange encoding: the sign above the magnitude.
    pub open spec fn bits(self, f: Format) -> nat {
        if self.is_negative() {
            f.sign_bit() + self.magnitude_bits(f)
        } else {
            self.magnitude_bits(f)
        }
    }

    /// The number that an interchange encoding stands for.
    pub open spec fn of_bits(f: Format, bits: nat) -> Float {
        let negative = bits >= f.sign_bit();
        let magnitude = if negative { (bits - f.sign_bit()) as nat } else { bits };
        let half = f.span() / 2;
        let field = magnitude / half;
        if magnitude > f.infinite_bits() {
            Float::NotANumber
        } else if magnitude == f.infinite_bits() {
            Float::Infinite { negative }
        } else if field == 0 {
            Float::Finite { negative, units: magnitude as u64, place: f.lowest() as i32 }
        } else {
            Float::Finite {
                negative,
                units: (half + magnitude % half) as u64,
                place: (f.lowest() + field - 1) as i32,
            }
        }
    }

    /// Whether the number is less than `other`; nothing is less than, nor more
    /// than, what is not a number.
    pub open spec fn below(self, other: Float) -> bool {
        match (self, other) {
            (Float::NotANumber, _) => false,
            (_, Float::NotANumber) => false,
            (Float::Infinite { negative: m }, Float::Infinite { negative: n }) => m && !n,
            (Float::Infinite { negative }, Float::Finite { .. }) => negative,
            (Float::Finite { .. }, Float::Infinite { negative }) => !negative,
            (Float::Finite { .. }, Float::Finite { .. }) => {
                let base = self.shared_place(other);
                self.counted(base) < other.counted(base)
            },
        }
    }

    /// The whole part as an unsigned 64-bit count, held to the range of the
    /// type; what is not a number gives zero.
    pub open spec fn whole(self) -> u64 {
        match self {
            Float::NotANumber => 0,
            Float::Infinite { negative } => if negative {
                0
            } else {
                u64::MAX
            },
            Float::Finite { negative, units, place } => {
                let part = if place >= 0 {
                    units as nat * two(place as int)
                } else {
                    units as nat / two(-place)
                };
                if negative {
                    0
                } else if part > u64::MAX {
                    u64::MAX
                } else {
                    part as u64
                }
            },
        }
    }
}

pub(crate) proof fn lemma_two_step(e: int)
    requires
        e > 0,
    ensures
        two(e) == 2 * two(e - 1),
{
    vstd::arithmetic::power2::lemma_pow2_unfold(e as nat);
}

pub(crate) proof fn lemma_two_add(e1: int, e2: int)
    requires
        e1 >= 0,
        e2 >= 0,
    ensures
        two(e1) * two(e2) == two(e1 + e2),
{
    vstd::arithmetic::power2::lemma_pow2_adds(e1 as nat, e2 as nat);
}

pub(crate) proof fn lemma_two_pos(e: int)
    ensures
        two(e) > 0,
{
    vstd::arithmetic::power2::lemma_pow2_pos(e as nat);
}

pub(crate) proof fn lemma_two_zero()
    ensures
        two(0) == 1,
{
    vstd::arithmetic::power2::lemma2_to64();
}

/// The finest place lies `k` places up where the count fits there and does not
/// fit one place lower.
pub(crate) proof fn lemma_finest_place(f: Format, num: nat, den: nat, place: int, k: int)
    requires
        den > 0,
        k >= 0,
        num < den * two(k) * f.span(),
        k == 0 || num >= den * two(k - 1) * f.span(),
    ensures
        finest_place(f, num, den, place) == place + k,
    decreases k,
{
    lemma_two_zero();
    if k > 0 {
        lemma_two_step(k);
        lemma_two_pos(k - 1);
        let t = two(k - 1);
        assert(num >= den * f.span()) by (nonlinear_arith)
            requires
                num >= den * t * f.span(),
                t >= 1,
                den > 0,
                f.span() > 0,
        ;
        assert((2 * den) * t * f.span() == den * (2 * t) * f.span()) by (nonlinear_arith);
        if k > 1 {
            lemma_two_step(k - 1);
            let s = two(k - 2);
            assert((2 * den) * s * f.span() == den * (2 * s) * f.span()) by (nonlinear_arith);
        }
        lemma_finest_place(f, num, 2 * den, place + 1, k - 1);
    } else {
        assert(two(k) == 1);
        assert(den * two(k) == den) by (nonlinear_arith)
            requires
                two(k) == 1,
        ;
    }
}

/// The nearest whole number depends on the ratio alone.
pub(crate) proof fn lemma_nearest_ratio(n1: nat, d1: nat, n2: nat, d2: nat)
    requires
        d1 > 0,
        d2 > 0,
        n1 * d2 == n2 * d1,
    ensures
        nearest(n1, d1) == nearest(n2, d2),
{
    let (q1, r1) = (n1 / d1, n1 % d1);
    let (q2, r2) = (n2 / d2, n2 % d2);
    vstd::arithmetic::div_mod::lemma_fundamental_div_mod(n1 as int, d1 as int);
    vstd::arithmetic::div_mod::lemma_fundamental_div_mod(n2 as int, d2 as int);
    let n = n1 * d2;
    let d = d1 * d2;
    assert(n == q1 * d + r1 * d2 && 0 <= r1 * d2 < d) by (nonlinear_arith)
        requires
            n1 == d1 * q1 + r1,
            0 <= r1 < d1,
            d2 > 0,
            n == n1 * d2,
            d == d1 * d2,
    ;
    assert(n == q2 * d + r2 * d1 && 0 <= r2 * d1 < d) by (nonlinear_arith)
        requires
            n2 == d2 * q2 + r2,
            0 <= r2 < d2,
            d1 > 0,
            n == n2 * d1,
            d == d1 * d2,
    ;
    vstd::arithmetic::div_mod::lemma_fundamental_div_mod_converse(
        n as int,
        d as int,
        q1 as int,
        (r1 * d2) as int,
    );
    vstd::arithmetic::div_mod::lemma_fundamental_div_mod_converse(
        n as int,
        d as int,
        q2 as int,
        (r2 * d1) as int,
    );
    assert(q1 == q2);
    assert(r1 * d2 == r2 * d1);
    assert((2 * r1 < d1 <==> 2 * r2 < d2) && (2 * r1 == d1 <==> 2 * r2 == d2)) by (nonlinear_arith)
        requires
            r1 * d2 == r2 * d1,
            d1 > 0,
            d2 > 0,
    ;
}

/// Rounding may start from any form `a / b` at place `q` of the same value,
/// provided that the count of units fits there as it must.
pub(crate) proof fn lemma_rounded(
    f: Format,
    negative: bool,
    num: nat,
    den: nat,
    place: int,
    base: int,
    a: nat,
    b: nat,
    q: int,
)
    requires
        den > 0,
        b > 0,
        base == if place < f.lowest() { place } else { f.lowest() },
        q >= f.lowest(),
        a < b * f.span(),
        q == f.lowest() || 2 * a >= b * f.span(),
        a * (den * two(q - base)) == num * two(place - base) * b,
    ensures
        Float::rounded(f, negative, num, den, place) == Float::settled(f, negative, nearest(a, b), q),
{
    let over = num * two(place - base);
    let under = den * two(f.lowest() - base);
    let k = q - f.lowest();
    let scale = under * two(k);
    lemma_two_pos(f.lowest() - base);
    lemma_two_pos(k);
    lemma_two_add(f.lowest() - base, k);
    assert(scale == den * two(q - base)) by (nonlinear_arith)
        requires
            scale == den * two(f.lowest() - base) * two(k),
            two(f.lowest() - base) * two(k) == two(q - base),
    ;
    assert(under > 0) by (nonlinear_arith)
        requires
            under == den * two(f.lowest() - base),
            den > 0,
            two(f.lowest() - base) > 0,
    ;
    assert(scale > 0) by (nonlinear_arith)
        requires
            scale == under * two(k),
            under > 0,
            two(k) > 0,
    ;
    let span = f.span();
    assert(over < scale * span) by (nonlinear_arith)
        requires
            a * scale == over * b,
            a < b * span,
            b > 0,
            scale > 0,
    ;
    if k > 0 {
        lemma_two_step(k);
        let t = two(k - 1);
        assert(over >= under * t * span) by (nonlinear_arith)
            requires
                a * scale == over * b,
                2 * a >= b * span,
                scale == under * (2 * t),
                b > 0,
                scale > 0,
        ;
    }
    lemma_finest_place(f, over, under, f.lowest(), k);
    lemma_nearest_ratio(over, scale, a, b);
}

impl Format {
    fn units_span(self) -> (n: u128)
        ensures
            n == self.span(),
    {
        match self {
            Format::Single => 0x100_0000,
            Format::Double => 0x20_0000_0000_0000,
        }
    }

    fn sign_mask(self) -> (n: u64)
        ensures
            n == self.sign_bit(),
    {
        match self {
            Format::Single => 0x8000_0000,
            Format::Double => 0x8000_0000_0000_0000,
        }
    }

    fn infinite_mask(self) -> (n: u64)
        ensures
            n == self.infinite_bits(),
    {
        match self {
            Format::Single => 0x7F80_0000,
            Format::Double => 0x7FF0_0000_0000_0000,
        }
    }

    fn lowest_place(self) -> (n: i32)
        ensures
            n == self.lowest(),
    {
        match self {
            Format::Single => -149,
            Format::Double => -1074,
        }
    }

    fn highest_place(self) -> (n: i32)
        ensures
            n == self.highest(),
    {
        match self {
            Format::Single => 104,
            Format::Double => 971,
        }
    }
}

/// Exact magnitudes that the rounding takes stay below this bound.
const MAGNITUDE_LIMIT: u128 = 0x40_0000_0000_0000_0000_0000_0000_0000;

/// Divisors that the rounding takes are at most this large.
const DIVISOR_LIMIT: u128 = 0x1_0000_0000_0000_0000;

/// Beyond this divisor a magnitude is less than half a unit.
const VANISHING: u128 = 0x100_0000_0000_0000_0000_0000_0000_0000;

impl Float {
    fn settle(f: Format, negative: bool, units: u64, place: i32) -> (r: Float)
        requires
            units <= f.span(),
            f.lowest() <= place < 20000,
            2 * units >= f.span() || place == f.lowest(),
        ensures
            r == Float::settled(f, negative, units as nat, place as int),
            r.wf(f),
    {
        let mut units: u64 = units;
        let mut at: i32 = place;
        if units as u128 == f.units_span() {
            units = units / 2;
            at = at + 1;
        }
        if at > f.highest_place() {
            Float::Infinite { negative }
        } else {
            Float::Finite { negative, units, place: at }
        }
    }

    /// Rounds `num / den` times two to the power of `place` into format `f`.
    fn round(f: Format, negative: bool, num: u128, den: u128, place: i32) -> (r: Float)
        requires
            num < MAGNITUDE_LIMIT,
            0 < den <= DIVISOR_LIMIT,
            -8000 <= place <= 8000,
        ensures
            r == Float::rounded(f, negative, num as nat, den as nat, place as int),
            r.wf(f),
    {
        let span: u128 = f.units_span();
        let half: u128 = span / 2;
        let lowest: i32 = f.lowest_place();
        let ghost base: int = if place < f.lowest() { place as int } else { f.lowest() };
        let ghost whole: nat = num as nat * two(place - base);
        let mut a: u128 = num;
        let mut b: u128 = den;
        let mut q: i32 = place;
        proof {
            assert(a * (den * two(q - base)) == whole * b) by (nonlinear_arith)
                requires
                    a == num,
                    b == den,
                    q == place,
                    whole == num * two(place - base),
            ;
        }
        while q > lowest && a / half < b
            invariant
                span == f.span(),
                half == span / 2,
                lowest == f.lowest(),
                base == if place < f.lowest() { place as int } else { f.lowest() },
                b == den,
                0 < den <= DIVISOR_LIMIT,
                a < MAGNITUDE_LIMIT,
                base <= q <= place <= 8000,
                a * (den * two(q - base)) == whole * b,
            decreases q - lowest,
        {
            assert(a < b * half) by (nonlinear_arith)
                requires
                    a / half < b,
                    half > 0,
            ;
            assert(b * half <= DIVISOR_LIMIT * 0x10_0000_0000_0000) by (nonlinear_arith)
                requires
                    b <= DIVISOR_LIMIT,
                    half <= 0x10_0000_0000_0000,
            ;
            proof {
                lemma_two_step(q - base);
                let t = two(q - 1 - base);
                assert((2 * a) * (den * t) == a * (den * (2 * t))) by (nonlinear_arith);
            }
            a = a * 2;
            q = q - 1;
        }
        assert(q <= lowest || 2 * a >= b * span) by (nonlinear_arith)
            requires
                q <= lowest || a / half >= b,
                half > 0,
                span == 2 * half,
        ;
        while q < lowest
            invariant
                span == f.span(),
                lowest == f.lowest(),
                base == if place < f.lowest() { place as int } else { f.lowest() },
                whole == num * two(place - base),
                0 < den <= DIVISOR_LIMIT,
                0 < b < 2 * VANISHING,
                a < MAGNITUDE_LIMIT,
                base <= q <= 8000,
                q <= lowest || (b == den && 2 * a >= b * span),
                a * (den * two(q - base)) == whole * b,
            decreases lowest - q,
        {
            if b >= VANISHING {
                proof {
                    lemma_vanishing(f, negative, num as nat, den as nat, place as int, base, a as nat, b as nat, q as int);
                }
                return Float::Finite { negative, units: 0, place: lowest };
            }
            proof {
                lemma_two_step(q + 1 - base);
                let t = two(q - base);
                assert(a * (den * (2 * t)) == 2 * (a * (den * t))) by (nonlinear_arith);
                assert(whole * (2 * b) == 2 * (whole * b)) by (nonlinear_arith);
            }
            b = b * 2;
            q = q + 1;
        }
        let ghost start = q;
        let ghost mut k: int = 0;
        proof {
            lemma_two_zero();
        }
        while a / span >= b
            invariant
                span == f.span(),
                lowest == f.lowest(),
                base == if place < f.lowest() { place as int } else { f.lowest() },
                whole == num * two(place - base),
                b > 0,
                a < MAGNITUDE_LIMIT,
                base <= lowest <= start <= 8000,
                k >= 0,
                q == start + k,
                q <= 8128,
                b >= two(k),
                q == lowest || 2 * a >= b * span,
                a * (den * two(q - base)) == whole * b,
            decreases a - b,
        {
            assert(a >= b * span && a >= b) by (nonlinear_arith)
                requires
                    a / span >= b,
                    span > 1,
            ;
            proof {
                lemma_two_step(q + 1 - base);
                let t = two(q - base);
                assert(a * (den * (2 * t)) == 2 * (a * (den * t))) by (nonlinear_arith);
                assert(whole * (2 * b) == 2 * (whole * b)) by (nonlinear_arith);
                assert((2 * b) * span == 2 * (b * span)) by (nonlinear_arith);
                lemma_two_step(k + 1);
                if k >= 127 {
                    vstd::arithmetic::power2::lemma2_to64();
                    vstd::arithmetic::power2::lemma2_to64_rest();
                    lemma_two_add(63, 64);
                    assert(two(127) == 0x8000_0000_0000_0000_0000_0000_0000_0000) by (nonlinear_arith)
                        requires
                            two(63) * two(64) == two(127),
                            two(63) == 0x8000_0000_0000_0000,
                            two(64) == 0x1_0000_0000_0000_0000,
                    ;
                    if k > 127 {
                        vstd::arithmetic::power2::lemma_pow2_strictly_increases(127, k as nat);
                    }
                    assert(false);
                }
            }
            b = b * 2;
            q = q + 1;
            proof {
                k = k + 1;
            }
        }
        let below: u128 = a / b;
        let rest: u128 = a % b;
        assert(a < b * span && below < span) by (nonlinear_arith)
            requires
                a / span < b,
                span > 0,
                b > 0,
                below == a / b,
        ;
        proof {
            lemma_rounded(f, negative, num as nat, den as nat, place as int, base, a as nat, b as nat, q as int);
        }
        let up: bool = rest > b - rest || (rest == b - rest && below % 2 == 1);
        let units: u128 = if up { below + 1 } else { below };
        proof {
            if q != lowest {
                assert(half * b <= a) by (nonlinear_arith)
                    requires
                        2 * a >= b * span,
                        span == 2 * half,
                ;
                vstd::arithmetic::div_mod::lemma_div_by_multiple(half as int, b as int);
                vstd::arithmetic::div_mod::lemma_div_is_ordered(half * b, a as int, b as int);
            }
        }
        Float::settle(f, negative, units as u64, q)
    }
}

/// Two to the power of `e`.
fn power(e: i32) -> (n: u128)
    requires
        0 <= e <= 64,
    ensures
        n == two(e as int),
        0 < n <= DIVISOR_LIMIT,
{
    let mut n: u128 = 1;
    let mut i: i32 = 0;
    proof {
        lemma_two_zero();
        vstd::arithmetic::power2::lemma2_to64();
    }
    while i < e
        invariant
            0 <= i <= e <= 64,
            n == two(i as int),
            two(64) == DIVISOR_LIMIT,
        decreases e - i,
    {
        proof {
            lemma_two_step(i + 1);
            vstd::arithmetic::power2::lemma_pow2_strictly_increases(i as nat, 64);
        }
        n = n * 2;
        i = i + 1;
    }
    proof {
        lemma_two_pos(e as int);
        if e < 64 {
            vstd::arithmetic::power2::lemma_pow2_strictly_increases(e as nat, 64);
        }
    }
    n
}

impl Float {
    /// The number nearest to a count.
    pub fn from_count(f: Format, n: u64) -> (r: Float)
        ensures
            r == Float::of_count(f, n as nat),
            r.wf(f),
    {
        Float::round(f, false, n as u128, 1, 0)
    }

    /// The number nearest to a ratio of two counts.
    pub fn from_ratio(f: Format, num: u64, den: u64) -> (r: Float)
        requires
            den > 0,
        ensures
            r == Float::of_ratio(f, num as nat, den as nat),
            r.wf(f),
    {
        Float::round(f, false, num as u128, den as u128, 0)
    }

    /// A word as a fraction of one, by its 53 highest bits.
    pub fn from_word(word: u64) -> (r: Float)
        ensures
            r == Float::rounded(Format::Double, false, (word / 2048) as nat, 1, -53),
            r.wf(Format::Double),
    {
        Float::round(Format::Double, false, (word / 2048) as u128, 1, -53)
    }

    fn sign(self) -> (negative: bool)
        ensures
            negative == self.is_negative(),
    {
        match self {
            Float::NotANumber => false,
            Float::Infinite { negative } => negative,
            Float::Finite { negative, .. } => negative,
        }
    }

    /// The number with its sign turned.
    pub fn negate(self) -> (r: Float)
        ensures
            r == self.negated(),
            forall|f: Format| #[trigger] self.wf(f) ==> r.wf(f),
    {
        match self {
            Float::NotANumber => Float::NotANumber,
            Float::Infinite { negative } => Float::Infinite { negative: !negative },
            Float::Finite { negative, units, place } => Float::Finite {
                negative: !negative,
                units,
                place,
            },
        }
    }

    /// Multiplies two numbers of format `f`.
    pub fn multiply(self, f: Format, other: Float) -> (r: Float)
        requires
            self.wf(f),
            other.wf(f),
        ensures
            r == self.times(f, other),
            r.wf(f),
    {
        let negative: bool = self.sign() != other.sign();
        match (self, other) {
            (Float::NotANumber, _) => Float::NotANumber,
            (_, Float::NotANumber) => Float::NotANumber,
            (Float::Infinite { .. }, Float::Finite { units, .. }) => if units == 0 {
                Float::NotANumber
            } else {
                Float::Infinite { negative }
            },
            (Float::Finite { units, .. }, Float::Infinite { .. }) => if units == 0 {
                Float::NotANumber
            } else {
                Float::Infinite { negative }
            },
            (Float::Infinite { .. }, Float::Infinite { .. }) => Float::Infinite { negative },
            (
                Float::Finite { units: u, place: p, .. },
                Float::Finite { units: v, place: q, .. },
            ) => {
                assert(u * v < MAGNITUDE_LIMIT) by (nonlinear_arith)
                    requires
                        u < 0x20_0000_0000_0000,
                        v < 0x20_0000_0000_0000,
                ;
                Float::round(f, negative, u as u128 * v as u128, 1, p + q)
            },
        }
    }

    /// Divides two numbers of format `f`.
    pub fn divide(self, f: Format, other: Float) -> (r: Float)
        requires
            self.wf(f),
            other.wf(f),
        ensures
            r == self.over(f, other),
            r.wf(f),
    {
        let negative: bool = self.sign() != other.sign();
        match (self, other) {
            (Float::NotANumber, _) => Float::NotANumber,
            (_, Float::NotANumber) => Float::NotANumber,
            (Float::Infinite { .. }, Float::Infinite { .. }) => Float::NotANumber,
            (Float::Infinite { .. }, Float::Finite { .. }) => Float::Infinite { negative },
            (Float::Finite { .. }, Float::Infinite { .. }) => Float::Finite {
                negative,
                units: 0,
                place: f.lowest_place(),
            },
            (
                Float::Finite { units: u, place: p, .. },
                Float::Finite { units: v, place: q, .. },
            ) => if v == 0 {
                if u == 0 {
                    Float::NotANumber
                } else {
                    Float::Infinite { negative }
                }
            } else {
                Float::round(f, negative, u as u128, v as u128, p - q)
            },
        }
    }

    /// Adds two finite numbers, the first at the higher place.
    fn add_finite(
        f: Format,
        m: bool,
        u: u64,
        p: i32,
        n: bool,
        v: u64,
        q: i32,
    ) -> (r: Float)
        requires
            (Float::Finite { negative: m, units: u, place: p }).wf(f),
            (Float::Finite { negative: n, units: v, place: q }).wf(f),
            p >= q,
        ensures
            r == (Float::Finite { negative: m, units: u, place: p }).plus(
                f,
                Float::Finite { negative: n, units: v, place: q },
            ),
            r.wf(f),
    {
        proof {
            lemma_two_zero();
            assert(v * two(0) == v) by (nonlinear_arith)
                requires
                    two(0) == 1,
            ;
        }
        if p - q > 64 {
            proof {
                lemma_absorbed(f, m, u as nat, p as int, q as int, if m == n { v as int } else { -v });
            }
            return Float::Finite { negative: m, units: u, place: p };
        }
        let scale: u128 = power(p - q);
        assert(u * scale <= 0x20_0000_0000_0000 * DIVISOR_LIMIT) by (nonlinear_arith)
            requires
                u < 0x20_0000_0000_0000,
                scale <= DIVISOR_LIMIT,
        ;
        let big: u128 = u as u128 * scale;
        let small: u128 = v as u128;
        if m == n {
            if big + small == 0 {
                Float::Finite { negative: m, units: 0, place: f.lowest_place() }
            } else {
                Float::round(f, m, big + small, 1, q)
            }
        } else if big > small {
            Float::round(f, m, big - small, 1, q)
        } else if big < small {
            Float::round(f, n, small - big, 1, q)
        } else {
            Float::Finite { negative: false, units: 0, place: f.lowest_place() }
        }
    }

    /// Adds two numbers of format `f`.
    pub fn add(self, f: Format, other: Float) -> (r: Float)
        requires
            self.wf(f),
            other.wf(f),
        ensures
            r == self.plus(f, other),
            r.wf(f),
    {
        match (self, other) {
            (Float::NotANumber, _) => Float::NotANumber,
            (_, Float::NotANumber) => Float::NotANumber,
            (Float::Infinite { negative: m }, Float::Infinite { negative: n }) => if m == n {
                self
            } else {
                Float::NotANumber
            },
            (Float::Infinite { .. }, _) => self,
            (_, Float::Infinite { .. }) => other,
            (
                Float::Finite { negative: m, units: u, place: p },
                Float::Finite { negative: n, units: v, place: q },
            ) => if p >= q {
                Float::add_finite(f, m, u, p, n, v, q)
            } else {
                Float::add_finite(f, n, v, q, m, u, p)
            },
        }
    }

    /// Subtracts a number of format `f` from another.
    pub fn subtract(self, f: Format, other: Float) -> (r: Float)
        requires
            self.wf(f),
            other.wf(f),
        ensures
            r == self.minus(f, other),
            r.wf(f),
    {
        self.add(f, other.negate())
    }

    /// Reads an interchange encoding of format `f`.
    pub fn from_bits(f: Format, bits: u64) -> (r: Float)
        requires
            bits < 2 * f.sign_bit(),
        ensures
            r == Float::of_bits(f, bits as nat),
            r.wf(f),
    {
        let negative: bool = bits >= f.sign_mask();
        let magnitude: u64 = if negative { bits - f.sign_mask() } else { bits };
        let half: u64 = (f.units_span() / 2) as u64;
        if magnitude > f.infinite_mask() {
            Float::NotANumber
        } else if magnitude == f.infinite_mask() {
            Float::Infinite { negative }
        } else {
            let field: u64 = magnitude / half;
            let rest: u64 = magnitude % half;
            proof {
                lemma_infinite_bits(f);
                let fields = f.highest() - f.lowest() + 2;
                assert(field < fields) by (nonlinear_arith)
                    requires
                        field == magnitude / half,
                        magnitude < fields * half,
                        half > 0,
                ;
                vstd::arithmetic::div_mod::lemma_fundamental_div_mod(magnitude as int, half as int);
                assert(field == 0 ==> half * field == 0) by (nonlinear_arith);
            }
            if field == 0 {
                Float::Finite { negative, units: magnitude, place: f.lowest_place() }
            } else {
                Float::Finite {
                    negative,
                    units: half + rest,
                    place: f.lowest_place() + (field as i32 - 1),
                }
            }
        }
    }

    /// The interchange encoding of a number of format `f`.
    pub fn to_bits(self, f: Format) -> (bits: u64)
        requires
            self.wf(f),
        ensures
            bits == self.bits(f),
            bits < 2 * f.sign_bit(),
    {
        let half: u64 = (f.units_span() / 2) as u64;
        let magnitude: u64 = match self {
            Float::NotANumber => f.infinite_mask() + half / 2,
            Float::Infinite { .. } => f.infinite_mask(),
            Float::Finite { units, place, .. } => {
                let passed: u64 = (place - f.lowest_place()) as u64;
                proof {
                    lemma_infinite_bits(f);
                    let fields = f.highest() - f.lowest() + 2;
                    assert(passed * half + units < fields * half) by (nonlinear_arith)
                        requires
                            passed + 2 <= fields,
                            units < 2 * half,
                    ;
                }
                passed * half + units
            },
        };
        if self.sign() {
            f.sign_mask() + magnitude
        } else {
            magnitude
        }
    }

    /// Whether the number belongs to format `f`.
    pub fn belongs(self, f: Format) -> (r: bool)
        ensures
            r == self.wf(f),
    {
        match self {
            Float::Finite { units, place, .. } => {
                let units: u128 = units as u128;
                units < f.units_span() && f.lowest_place() <= place && place <= f.highest_place()
                    && (2 * units >= f.units_span() || place == f.lowest_place())
            },
            _ => true,
        }
    }

    /// Compares two numbers of format `f`.
    pub fn less_than(self, f: Format, other: Float) -> (r: bool)
        requires
            self.wf(f),
            other.wf(f),
        ensures
            r == self.below(other),
    {
        match (self, other) {
            (Float::NotANumber, _) => false,
            (_, Float::NotANumber) => false,
            (Float::Infinite { negative: m }, Float::Infinite { negative: n }) => m && !n,
            (Float::Infinite { negative }, Float::Finite { .. }) => negative,
            (Float::Finite { .. }, Float::Infinite { negative }) => !negative,
            (
                Float::Finite { negative: m, units: u, place: p },
                Float::Finite { negative: n, units: v, place: q },
            ) => {
                proof {
                    lemma_magnitudes(f, u as nat, p as int, v as nat, q as int);
                }
                if u == 0 && v == 0 {
                    false
                } else if m != n {
                    m
                } else if m {
                    q < p || (q == p && v < u)
                } else {
                    p < q || (p == q && u < v)
                }
            },
        }
    }

    /// Cuts a number of format `f` down to an unsigned 64-bit count.
    pub fn to_whole(self, f: Format) -> (r: u64)
        requires
            self.wf(f),
        ensures
            r == self.whole(),
    {
        match self {
            Float::NotANumber => 0,
            Float::Infinite { negative } => if negative {
                0
            } else {
                u64::MAX
            },
            Float::Finite { negative, units, place } => {
                if negative {
                    return 0;
                }
                if place > 64 {
                    proof {
                        vstd::arithmetic::power2::lemma2_to64();
                        vstd::arithmetic::power2::lemma_pow2_strictly_increases(64, place as nat);
                        assert(units * two(place as int) > u64::MAX) by (nonlinear_arith)
                            requires
                                units >= 1,
                                two(place as int) > 0x1_0000_0000_0000_0000,
                        ;
                    }
                    u64::MAX
                } else if place >= 0 {
                    let scale: u128 = power(place);
                    assert(units * scale <= 0x20_0000_0000_0000 * DIVISOR_LIMIT) by (nonlinear_arith)
                        requires
                            units < 0x20_0000_0000_0000,
                            scale <= DIVISOR_LIMIT,
                    ;
                    let part: u128 = units as u128 * scale;
                    if part > u64::MAX as u128 {
                        u64::MAX
                    } else {
                        part as u64
                    }
                } else if place >= -64 {
                    let part: u128 = units as u128 / power(-place);
                    assert(part <= units) by (nonlinear_arith)
                        requires
                            part == units as nat / two(-place),
                            two(-place) > 0,
                    ;
                    part as u64
                } else {
                    proof {
                        vstd::arithmetic::power2::lemma2_to64();
                        vstd::arithmetic::power2::lemma_pow2_strictly_increases(64, (-place) as nat);
                        vstd::arithmetic::div_mod::lemma_basic_div(units as int, two(-place) as int);
                    }
                    0
                }
            },
        }
    }
}

/// Encoding a number and reading it back gives the number.
pub proof fn law_bits_round_trip(f: Format, x: Float)
    requires
        x.wf(f),
    ensures
        x.bits(f) < 2 * f.sign_bit(),
        Float::of_bits(f, x.bits(f)) == x,
{
    lemma_infinite_bits(f);
    if let Float::Finite { negative, units, place } = x {
        let half = f.span() / 2;
        let fields = f.highest() - f.lowest() + 2;
        let passed = place - f.lowest();
        let magnitude = passed * half + units;
        assert(f.span() == 2 * half) by {
            match f {
                Format::Single => {},
                Format::Double => {},
            }
        }
        assert(0 <= magnitude < fields * half) by (nonlinear_arith)
            requires
                magnitude == passed * half + units,
                0 <= passed,
                passed + 2 <= fields,
                units < 2 * half,
        ;
        if units < half {
            assert(passed * half == 0) by (nonlinear_arith)
                requires
                    passed == 0,
            ;
            vstd::arithmetic::div_mod::lemma_basic_div(magnitude, half as int);
        } else {
            assert(magnitude == half * (passed + 1) + (units - half)) by (nonlinear_arith)
                requires
                    magnitude == passed * half + units,
            ;
            vstd::arithmetic::div_mod::lemma_fundamental_div_mod_converse(
                magnitude,
                half as int,
                passed + 1,
                units - half,
            );
        }
    }
}

pub(crate) proof fn lemma_infinite_bits(f: Format)
    ensures
        f.infinite_bits() == (f.highest() - f.lowest() + 2) * (f.span() / 2),
        f.infinite_bits() + f.span() / 4 < f.sign_bit(),
{
    match f {
        Format::Single => {
            assert((104 + 149 + 2) * 0x80_0000 == 0x7F80_0000) by (nonlinear_arith);
        },
        Format::Double => {
            assert((971 + 1074 + 2) * 0x10_0000_0000_0000 == 0x7FF0_0000_0000_0000) by (nonlinear_arith);
        },
    }
}

impl Float {
    /// The place of a number in the order of its format.
    pub open spec fn rank(self, f: Format) -> int {
        if self.is_negative() {
            -self.magnitude_bits(f)
        } else {
            self.magnitude_bits(f) as int
        }
    }
}

/// Numbers are compared as whole numbers are: by their ranks.
pub proof fn law_order(f: Format, x: Float, y: Float)
    requires
        x.wf(f),
        y.wf(f),
        !(x is NotANumber),
        !(y is NotANumber),
    ensures
        x.below(y) <==> x.rank(f) < y.rank(f),
{
    lemma_infinite_bits(f);
    let half = f.span() / 2;
    let fields = f.highest() - f.lowest() + 2;
    assert(f.span() == 2 * half) by {
        match f {
            Format::Single => {},
            Format::Double => {},
        }
    }
    assert forall|u: u64, p: i32|
        u < f.span() && f.lowest() <= p <= f.highest() implies 0 <= #[trigger] encoded(
        f,
        u as nat,
        p as int,
    ) < f.infinite_bits() by {
        let passed = p - f.lowest();
        assert(0 <= passed * half + u < fields * half) by (nonlinear_arith)
            requires
                0 <= passed,
                passed + 2 <= fields,
                u < 2 * half,
        ;
    }
    if let Float::Finite { negative: m, units: u, place: p } = x {
        assert(encoded(f, u as nat, p as int) == x.magnitude_bits(f));
        if let Float::Finite { negative: n, units: v, place: q } = y {
            assert(encoded(f, v as nat, q as int) == y.magnitude_bits(f));
            lemma_magnitudes(f, u as nat, p as int, v as nat, q as int);
            lemma_encoded_order(f, u as nat, p as int, v as nat, q as int);
            lemma_encoded_order(f, v as nat, q as int, u as nat, p as int);
        }
    } else if let Float::Finite { negative: n, units: v, place: q } = y {
        assert(encoded(f, v as nat, q as int) == y.magnitude_bits(f));
    }
}

spec fn encoded(f: Format, u: nat, p: int) -> int {
    (p - f.lowest()) * (f.span() / 2) + u
}

proof fn lemma_encoded_order(f: Format, u: nat, p: int, v: nat, q: int)
    requires
        u < f.span(),
        v < f.span(),
        2 * u >= f.span() || p == f.lowest(),
        2 * v >= f.span() || q == f.lowest(),
        f.lowest() <= p,
        f.lowest() <= q,
    ensures
        encoded(f, u, p) < encoded(f, v, q) <==> (p < q || (p == q && u < v)),
        encoded(f, u, p) == 0 <==> u == 0,
{
    let half = f.span() / 2;
    assert(f.span() == 2 * half) by {
        match f {
            Format::Single => {},
            Format::Double => {},
        }
    }
    let a = p - f.lowest();
    let b = q - f.lowest();
    if p < q {
        assert(a * half + u < b * half + v) by (nonlinear_arith)
            requires
                a + 1 <= b,
                u < 2 * half,
                v >= half,
        ;
    } else if q < p {
        assert(b * half + v < a * half + u) by (nonlinear_arith)
            requires
                b + 1 <= a,
                v < 2 * half,
                u >= half,
        ;
    }
    assert(a * half + u == 0 <==> u == 0) by (nonlinear_arith)
        requires
            a >= 0,
            half > 0,
            u > 0 || a == 0,
    ;
}

/// Canonical magnitudes of one format are ordered by place, then by units.
pub(crate) proof fn lemma_magnitudes(f: Format, u: nat, p: int, v: nat, q: int)
    requires
        u < f.span(),
        v < f.span(),
        2 * u >= f.span() || p == f.lowest(),
        2 * v >= f.span() || q == f.lowest(),
        f.lowest() <= p,
        f.lowest() <= q,
    ensures
        ({
            let base = if p < q { p } else { q };
            &&& u * two(p - base) < v * two(q - base) <==> (p < q || (p == q && u < v))
            &&& u * two(p - base) == 0 <==> u == 0
            &&& v * two(q - base) == 0 <==> v == 0
            &&& v * two(q - base) < u * two(p - base) <==> (q < p || (q == p && v < u))
        }),
{
    lemma_two_zero();
    let base = if p < q { p } else { q };
    lemma_two_pos(p - base);
    lemma_two_pos(q - base);
    if p < q {
        lemma_two_step(q - p);
        lemma_two_pos(q - p - 1);
        let t = two(q - p - 1);
        assert(v * (2 * t) >= 2 * v) by (nonlinear_arith)
            requires
                t >= 1,
        ;
    } else if q < p {
        lemma_two_step(p - q);
        lemma_two_pos(p - q - 1);
        let t = two(p - q - 1);
        assert(u * (2 * t) >= 2 * u) by (nonlinear_arith)
            requires
                t >= 1,
        ;
    }
    assert(u * two(p - base) == 0 <==> u == 0) by (nonlinear_arith)
        requires
            two(p - base) > 0,
    ;
    assert(v * two(q - base) == 0 <==> v == 0) by (nonlinear_arith)
        requires
            two(q - base) > 0,
    ;
    assert(p - base == 0 ==> u * two(p - base) == u) by (nonlinear_arith)
        requires
            two(0) == 1,
    ;
    assert(q - base == 0 ==> v * two(q - base) == v) by (nonlinear_arith)
        requires
            two(0) == 1,
    ;
}

/// A number far below the last digit of another does not change it.
proof fn lemma_absorbed(f: Format, negative: bool, u: nat, p: int, q: int, delta: int)
    requires
        f.span() <= 2 * u,
        u < f.span(),
        f.lowest() <= q,
        p <= f.highest(),
        p - q > 64,
        -f.span() < delta < f.span(),
    ensures
        u * two(p - q) + delta > 0,
        Float::rounded(f, negative, (u * two(p - q) + delta) as nat, 1, q) == (Float::Finite {
            negative,
            units: u as u64,
            place: p as i32,
        }),
{
    let d = p - q;
    let t = two(d);
    let total = (u * t + delta) as nat;
    let span = f.span();
    let base = f.lowest();
    vstd::arithmetic::power2::lemma2_to64();
    vstd::arithmetic::power2::lemma_pow2_strictly_increases(64, d as nat);
    assert(u * t >= t) by (nonlinear_arith)
        requires
            u >= 1,
    ;
    assert(u * t + delta > 0);
    if delta >= 0 || 2 * u > span {
        assert(total < t * span) by (nonlinear_arith)
            requires
                total == u * t + delta,
                u + 1 <= span,
                delta < t,
        ;
        if delta >= 0 {
            assert(2 * total >= t * span) by (nonlinear_arith)
                requires
                    total == u * t + delta,
                    2 * u >= span,
                    delta >= 0,
            ;
        } else {
            assert(2 * total >= t * span) by (nonlinear_arith)
                requires
                    total == u * t + delta,
                    2 * u >= span + 2,
                    delta > -t,
            ;
        }
        lemma_two_add(q - base, d);
        assert(total * (1 * two(p - base)) == total * two(q - base) * t) by (nonlinear_arith)
            requires
                two(q - base) * t == two(p - base),
        ;
        lemma_rounded(f, negative, total, 1, q, base, total, t, p);
        if delta >= 0 {
            assert(total == t * u + delta) by (nonlinear_arith)
                requires
                    total == u * t + delta,
            ;
            vstd::arithmetic::div_mod::lemma_fundamental_div_mod_converse(
                total as int,
                t as int,
                u as int,
                delta,
            );
        } else {
            assert(total == t * (u - 1) + (t + delta)) by (nonlinear_arith)
                requires
                    total == u * t + delta,
            ;
            vstd::arithmetic::div_mod::lemma_fundamental_div_mod_converse(
                total as int,
                t as int,
                u - 1,
                t + delta,
            );
        }
    } else {
        lemma_two_step(d);
        let h = two(d - 1);
        assert(total == h * span + delta) by (nonlinear_arith)
            requires
                total == u * t + delta,
                t == 2 * h,
                2 * u == span,
        ;
        assert(2 * total >= h * span) by (nonlinear_arith)
            requires
                total == h * span + delta,
                delta > -h,
                span >= 4,
        ;
        lemma_two_add(q - base, d - 1);
        assert(total * (1 * two(p - 1 - base)) == total * two(q - base) * h) by (nonlinear_arith)
            requires
                two(q - base) * h == two(p - 1 - base),
        ;
        lemma_rounded(f, negative, total, 1, q, base, total, h, p - 1);
        assert(total == h * (span - 1) + (h + delta)) by (nonlinear_arith)
            requires
                total == h * span + delta,
        ;
        vstd::arithmetic::div_mod::lemma_fundamental_div_mod_converse(
            total as int,
            h as int,
            span - 1,
            h + delta,
        );
    }
}

/// A magnitude under half a unit of the lowest place rounds to zero.
proof fn lemma_vanishing(
    f: Format,
    negative: bool,
    num: nat,
    den: nat,
    place: int,
    base: int,
    a: nat,
    b: nat,
    q: int,
)
    requires
        den > 0,
        b > 2 * a,
        base == if place < f.lowest() { place } else { f.lowest() },
        base <= q <= f.lowest(),
        a * (den * two(q - base)) == num * two(place - base) * b,
    ensures
        Float::rounded(f, negative, num, den, place) == (Float::Finite {
            negative,
            units: 0,
            place: f.lowest() as i32,
        }),
{
    let rise = f.lowest() - q;
    let wide = b * two(rise);
    let over = num * two(place - base);
    lemma_two_pos(rise);
    lemma_two_add(q - base, rise);
    assert(wide >= b) by (nonlinear_arith)
        requires
            wide == b * two(rise),
            two(rise) >= 1,
    ;
    assert(a * (den * two(f.lowest() - base)) == over * wide) by (nonlinear_arith)
        requires
            a * (den * two(q - base)) == over * b,
            two(q - base) * two(rise) == two(f.lowest() - base),
            wide == b * two(rise),
    ;
    assert(a < wide * f.span()) by (nonlinear_arith)
        requires
            a < wide,
            f.span() >= 1,
    ;
    lemma_rounded(f, negative, num, den, place, base, a, wide, f.lowest());
    assert(a / wide == 0 && a % wide == a) by {
        vstd::arithmetic::div_mod::lemma_basic_div(a as int, wide as int);
        vstd::arithmetic::div_mod::lemma_small_mod(a, wide);
    }
}

} // verus!
