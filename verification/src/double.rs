//! Binary64 numbers as their bits, with the arithmetic that the rest of the library needs.
//!
//! Prices, rates and amounts are binary64 throughout. Each operation is stated over the exact
//! value of its operands: the result is the binary64 number nearest to the exact result.
use crate::rounding::{
    lemma_rounding_error, lemma_rounding_exact, lemma_rounding_monotone, nearest_magnitude,
    power_of_two, round_parts, units, FRACTION_RANGE, INFINITY_MAGNITUDE,
};
use vstd::arithmetic::power2::{
    lemma_pow2_adds, lemma_pow2_pos, lemma_pow2_strictly_increases, lemma_pow2_unfold, pow2,
};
use vstd::prelude::*;

verus! {

/// The sign bit.
pub const SIGN_BIT: u64 = 0x8000_0000_0000_0000;

/// The NaN that invalid operations give.
pub const NAN_BITS: u64 = 0x7ff8_0000_0000_0000;

/// The bits of 1.
pub const ONE_BITS: u64 = 0x3ff0_0000_0000_0000;

/// The bits of 100.
pub const HUNDRED_BITS: u64 = 0x4059_0000_0000_0000;

/// A binary64 number. Two NaN of different bits stand for the same thing.
#[derive(Clone, Copy, Debug)]
pub struct Double {
    pub bits: u64,
}

impl Double {
    /// The bits without the sign.
    pub open spec fn magnitude(self) -> nat {
        (self.bits % SIGN_BIT) as nat
    }

    pub open spec fn negative(self) -> bool {
        self.bits >= SIGN_BIT
    }

    pub open spec fn nan(self) -> bool {
        self.magnitude() > INFINITY_MAGNITUDE
    }

    pub open spec fn infinite(self) -> bool {
        self.magnitude() == INFINITY_MAGNITUDE
    }

    pub open spec fn finite(self) -> bool {
        self.magnitude() < INFINITY_MAGNITUDE
    }

    pub open spec fn zero(self) -> bool {
        self.magnitude() == 0
    }

    /// The exact value, in units of the smallest positive number.
    pub open spec fn value(self) -> int {
        if self.negative() {
            -(units(self.magnitude()) as int)
        } else {
            units(self.magnitude()) as int
        }
    }
}

/// The number of the given sign and magnitude.
pub open spec fn with_sign(negative: bool, magnitude: nat) -> Double {
    Double {
        bits: if negative {
            (SIGN_BIT + magnitude) as u64
        } else {
            magnitude as u64
        },
    }
}

/// The NaN that invalid operations give.
pub open spec fn invalid() -> Double {
    Double { bits: NAN_BITS }
}

/// One.
pub open spec fn one() -> Double {
    Double { bits: ONE_BITS }
}

/// One hundred.
pub open spec fn hundred() -> Double {
    Double { bits: HUNDRED_BITS }
}

/// Zero.
pub open spec fn zero() -> Double {
    Double { bits: 0 }
}

/// Positive infinity.
pub open spec fn infinity() -> Double {
    Double { bits: INFINITY_MAGNITUDE }
}

/// One unit of value is two to the power of minus this number.
pub open spec fn unit_exponent() -> nat {
    1074
}

/// The number nearest to an exact value in units, with the sign of a zero result given.
pub open spec fn nearest(value: int, zero_negative: bool) -> Double {
    if value == 0 {
        with_sign(zero_negative, 0)
    } else if value > 0 {
        with_sign(false, nearest_magnitude(value as nat, 1))
    } else {
        with_sign(true, nearest_magnitude((-value) as nat, 1))
    }
}

/// `a + b`.
pub open spec fn sum(a: Double, b: Double) -> Double {
    if a.nan() || b.nan() {
        invalid()
    } else if a.infinite() {
        if b.infinite() && a.negative() != b.negative() {
            invalid()
        } else {
            a
        }
    } else if b.infinite() {
        b
    } else {
        nearest(a.value() + b.value(), a.negative() && b.negative())
    }
}

/// `-a`.
pub open spec fn negated(a: Double) -> Double {
    with_sign(!a.negative(), a.magnitude())
}

/// `a - b`.
pub open spec fn difference(a: Double, b: Double) -> Double {
    sum(a, negated(b))
}

/// `a * b`.
pub open spec fn product(a: Double, b: Double) -> Double {
    let negative = a.negative() != b.negative();
    if a.nan() || b.nan() || (a.infinite() && b.zero()) || (a.zero() && b.infinite()) {
        invalid()
    } else if a.infinite() || b.infinite() {
        with_sign(negative, INFINITY_MAGNITUDE as nat)
    } else {
        with_sign(
            negative,
            nearest_magnitude(
                units(a.magnitude()) * units(b.magnitude()),
                pow2(unit_exponent()),
            ),
        )
    }
}

/// `a / b`.
pub open spec fn quotient(a: Double, b: Double) -> Double {
    let negative = a.negative() != b.negative();
    if a.nan() || b.nan() || (a.infinite() && b.infinite()) || (a.zero() && b.zero()) {
        invalid()
    } else if a.infinite() || b.zero() {
        with_sign(negative, INFINITY_MAGNITUDE as nat)
    } else if b.infinite() {
        with_sign(negative, 0)
    } else {
        with_sign(
            negative,
            nearest_magnitude(
                units(a.magnitude()) * pow2(unit_exponent()),
                units(b.magnitude()),
            ),
        )
    }
}

/// `a < b`.
pub open spec fn less(a: Double, b: Double) -> bool {
    !a.nan() && !b.nan() && a.value() < b.value()
}

/// `a <= b`.
pub open spec fn at_most(a: Double, b: Double) -> bool {
    !a.nan() && !b.nan() && a.value() <= b.value()
}

/// The smaller of the two, or the one that is a number.
pub open spec fn smaller(a: Double, b: Double) -> Double {
    if a.nan() || less(b, a) {
        b
    } else {
        a
    }
}

/// The larger of the two, or the one that is a number.
pub open spec fn larger(a: Double, b: Double) -> Double {
    if a.nan() || less(a, b) {
        b
    } else {
        a
    }
}

/// The number nearest to a whole number.
pub open spec fn of_nat(n: nat) -> Double {
    with_sign(false, nearest_magnitude(n * pow2(unit_exponent()), 1))
}

/// The whole part of a number, held to the range of `u64`; zero for NaN and for what is
/// below one.
pub open spec fn whole_part(a: Double) -> nat {
    if a.nan() || a.negative() {
        0
    } else {
        let whole = units(a.magnitude()) / pow2(unit_exponent());
        if whole <= u64::MAX {
            whole
        } else {
            u64::MAX as nat
        }
    }
}

/// The whole number nearest to a number, the larger of two that are as near, held to the range of
/// `u64`; zero for NaN and for what is below zero.
pub open spec fn nearest_whole(a: Double) -> nat {
    if a.nan() || a.negative() {
        0
    } else {
        let one = pow2(unit_exponent());
        let whole = units(a.magnitude()) / one + if units(a.magnitude()) % one * 2 >= one {
            1nat
        } else {
            0
        };
        if whole <= u64::MAX {
            whole
        } else {
            u64::MAX as nat
        }
    }
}

/// The next magnitude stands for more units.
pub proof fn lemma_units_step(magnitude: nat)
    ensures
        units(magnitude) < units(magnitude + 1),
{
    let e = magnitude / (FRACTION_RANGE as nat);
    let f = magnitude % (FRACTION_RANGE as nat);
    if magnitude + 1 < FRACTION_RANGE {
    } else if magnitude < FRACTION_RANGE {
        vstd::arithmetic::power2::lemma2_to64();
        assert(FRACTION_RANGE as nat * pow2(0) == FRACTION_RANGE) by (nonlinear_arith)
            requires
                pow2(0) == 1,
        ;
    } else {
        let step = pow2((e - 1) as nat);
        lemma_pow2_pos((e - 1) as nat);
        if f + 1 < FRACTION_RANGE {
            assert((magnitude + 1) / (FRACTION_RANGE as nat) == e && (magnitude + 1) % (
            FRACTION_RANGE as nat) == f + 1);
            assert((FRACTION_RANGE + f) * step < (FRACTION_RANGE + (f + 1)) * step)
                by (nonlinear_arith)
                requires
                    step > 0,
            ;
        } else {
            assert((magnitude + 1) / (FRACTION_RANGE as nat) == e + 1 && (magnitude + 1) % (
            FRACTION_RANGE as nat) == 0);
            lemma_pow2_unfold(e);
            assert((FRACTION_RANGE + f) * step < FRACTION_RANGE * pow2(e)) by (nonlinear_arith)
                requires
                    step > 0,
                    pow2(e) == 2 * step,
                    f < FRACTION_RANGE,
            ;
        }
    }
}

/// A larger magnitude stands for more units.
pub proof fn lemma_units_increase(a: nat, b: nat)
    requires
        a < b,
    ensures
        units(a) < units(b),
    decreases b - a,
{
    lemma_units_step(a);
    if a + 1 < b {
        lemma_units_increase(a + 1, b);
    }
}

/// The order of values is the order of magnitudes, turned round below zero.
proof fn lemma_value_order(a: Double, b: Double)
    ensures
        a.value() < b.value() <==> ordinal(a) < ordinal(b),
        a.value() == b.value() <==> ordinal(a) == ordinal(b),
{
    let (x, y) = (a.magnitude(), b.magnitude());
    if x < y {
        lemma_units_increase(x, y);
    }
    if y < x {
        lemma_units_increase(y, x);
    }
    if x > 0 {
        lemma_units_increase(0, x);
    }
    if y > 0 {
        lemma_units_increase(0, y);
    }
}

/// The place of a number in the order.
spec fn ordinal(a: Double) -> int {
    if a.negative() {
        -(a.magnitude() as int)
    } else {
        a.magnitude() as int
    }
}

/// Every number has its place in the order: infinity is above, its opposite below all others.
pub proof fn lemma_value_bounds(a: Double)
    requires
        !a.nan(),
    ensures
        -units(INFINITY_MAGNITUDE as nat) <= a.value() <= units(INFINITY_MAGNITUDE as nat),
{
    if a.magnitude() < INFINITY_MAGNITUDE {
        lemma_units_increase(a.magnitude(), INFINITY_MAGNITUDE as nat);
    }
}

/// Rounding keeps the order of exact values.
pub proof fn lemma_nearest_monotone(a: int, b: int, zero_negative: bool, other_zero_negative: bool)
    requires
        a <= b,
    ensures
        at_most(nearest(a, zero_negative), nearest(b, other_zero_negative)),
{
    let x = nearest(a, zero_negative);
    let y = nearest(b, other_zero_negative);
    let p = nearest_magnitude(if a < 0 { (-a) as nat } else { a as nat }, 1);
    let q = nearest_magnitude(if b < 0 { (-b) as nat } else { b as nat }, 1);
    lemma_nearest_bound(if a < 0 { (-a) as nat } else { a as nat }, 1);
    lemma_nearest_bound(if b < 0 { (-b) as nat } else { b as nat }, 1);
    if a > 0 {
        lemma_rounding_monotone(a as nat, b as nat, 1);
    } else if b < 0 {
        lemma_rounding_monotone((-b) as nat, (-a) as nat, 1);
    }
    assert(units(0) == 0);
    assert(a != 0 ==> x.magnitude() == p && x.negative() == (a < 0));
    assert(b != 0 ==> y.magnitude() == q && y.negative() == (b < 0));
    if p < q {
        lemma_units_increase(p, q);
    } else if q < p {
        lemma_units_increase(q, p);
    }
}

/// The sum of two finite numbers, where it is finite, differs from the exact sum by no more than one
/// part in two to the power of 53 of it.
pub proof fn lemma_sum_error(a: Double, b: Double)
    requires
        a.finite(),
        b.finite(),
        sum(a, b).finite(),
    ensures
        ({
            let exact = a.value() + b.value();
            let size = if exact < 0 {
                -exact
            } else {
                exact
            };
            -size <= 0x20_0000_0000_0000 * (sum(a, b).value() - exact) <= size
        }),
{
    let exact = a.value() + b.value();
    let size: nat = if exact < 0 {
        (-exact) as nat
    } else {
        exact as nat
    };
    lemma_nearest_bound(size, 1);
    if exact != 0 {
        let m = nearest_magnitude(size, 1);
        assert(sum(a, b).magnitude() == m && sum(a, b).negative() == (exact < 0));
        lemma_rounding_error(size);
    } else {
        assert(units(0) == 0);
    }
}

/// Adding a finite number keeps the order.
pub proof fn lemma_sum_monotone(a: Double, b: Double, w: Double)
    requires
        at_most(a, b),
        w.finite(),
    ensures
        at_most(sum(a, w), sum(b, w)),
{
    lemma_value_bounds(a);
    lemma_value_bounds(b);
    lemma_value_bounds(w);
    if a.finite() && b.finite() {
        lemma_nearest_monotone(
            a.value() + w.value(),
            b.value() + w.value(),
            a.negative() && w.negative(),
            b.negative() && w.negative(),
        );
    } else {
        let inf = INFINITY_MAGNITUDE as nat;
        if a.finite() {
            lemma_units_increase(a.magnitude(), inf);
            lemma_sum_bounds(a, w);
        }
        if b.finite() {
            lemma_units_increase(b.magnitude(), inf);
            lemma_sum_bounds(b, w);
        }
    }
}

/// A sum of finite numbers is a number.
pub proof fn lemma_sum_bounds(a: Double, w: Double)
    requires
        a.finite(),
        w.finite(),
    ensures
        !sum(a, w).nan(),
        -units(INFINITY_MAGNITUDE as nat) <= sum(a, w).value() <= units(INFINITY_MAGNITUDE as nat),
{
    lemma_nearest_monotone(
        a.value() + w.value(),
        a.value() + w.value(),
        a.negative() && w.negative(),
        a.negative() && w.negative(),
    );
    lemma_value_bounds(sum(a, w));
}

/// Adding zero changes no finite number but the sign of a zero.
pub proof fn lemma_sum_with_zero(a: Double)
    requires
        a.finite(),
    ensures
        sum(a, zero()).value() == a.value(),
        !a.zero() ==> sum(a, zero()) == a,
{
    if a.magnitude() > 0 {
        lemma_units_increase(0, a.magnitude());
        lemma_rounding_exact(a.magnitude());
    }
}

/// A sum that is less than half a step away from its larger term rounds to that term.
proof fn lemma_far_term(m: nat, e: nat, other: nat, other_e: nat)
    requires
        0x10_0000_0000_0000 <= m < 0x20_0000_0000_0000,
        other < 0x20_0000_0000_0000,
        e <= 2045,
        other_e + 60 < e,
    ensures
        other * pow2(other_e) < m * pow2(e),
        nearest_magnitude((m * pow2(e) + other * pow2(other_e)) as nat, 1) == e * FRACTION_RANGE + m,
        nearest_magnitude((m * pow2(e) - other * pow2(other_e)) as nat, 1) == e * FRACTION_RANGE + m,
{
    let big = pow2(e);
    let small = pow2(other_e);
    let d = other * small;
    lemma_pow2_pos(e);
    lemma_pow2_pos(other_e);
    assert(pow2(53) == 0x20_0000_0000_0000 && pow2(56) == 0x100_0000_0000_0000) by {
        vstd::arithmetic::power2::lemma2_to64_rest();
    }
    // Eight times the smaller term is below one step of the larger.
    lemma_pow2_adds(other_e, 56);
    lemma_pow2_strictly_increases(other_e + 56, e);
    assert(8 * d < big) by (nonlinear_arith)
        requires
            d == other * small,
            other < 0x20_0000_0000_0000,
            small * 0x100_0000_0000_0000 < big,
            small > 0,
    ;
    assert(m * big >= big) by (nonlinear_arith)
        requires
            m >= 1,
            big > 0,
    ;
    assert(1 * big == big);
    let more = (m * big + d) as nat;
    assert(m * (1 * big) <= more && more < (m + 1) * (1 * big)) by (nonlinear_arith)
        requires
            more == m * big + d,
            0 <= d < big,
    ;
    crate::rounding::lemma_nearest_magnitude(more, 1, e, m);
    let less = (m * big - d) as nat;
    if d == 0 {
    } else if m > 0x10_0000_0000_0000 {
        let q = (m - 1) as nat;
        assert(q * (1 * big) <= less && less < (q + 1) * (1 * big) && less - q * (1 * big) == big
            - d) by (nonlinear_arith)
            requires
                less == m * big - d,
                q == m - 1,
                0 < d < big,
        ;
        crate::rounding::lemma_nearest_magnitude(less, 1, e, q);
    } else {
        let f = (e - 1) as nat;
        let half = pow2(f);
        lemma_pow2_unfold(e);
        let q: nat = 0x1f_ffff_ffff_ffff;
        assert(1 * half == half);
        assert(q * (1 * half) <= less && less < (q + 1) * (1 * half) && less - q * (1 * half)
            == half - d) by (nonlinear_arith)
            requires
                less == m * big - d,
                m == 0x10_0000_0000_0000,
                q == 0x1f_ffff_ffff_ffff,
                big == 2 * half,
                0 < d < half,
        ;
        crate::rounding::lemma_nearest_magnitude(less, 1, f, q);
    }
}

/// The number with the given sign and magnitude.
fn signed(negative: bool, magnitude: u64) -> (r: Double)
    requires
        magnitude <= INFINITY_MAGNITUDE,
    ensures
        r == with_sign(negative, magnitude as nat),
        r.negative() == negative,
        r.magnitude() == magnitude,
{
    Double {
        bits: if negative {
            SIGN_BIT + magnitude
        } else {
            magnitude
        },
    }
}

impl Double {
    /// The number with the given bits.
    pub fn from_bits(bits: u64) -> (r: Double)
        ensures
            r.bits == bits,
    {
        Double { bits }
    }

    /// Zero.
    pub fn zero_value() -> (r: Double)
        ensures
            r == zero(),
    {
        Double { bits: 0 }
    }

    /// One.
    pub fn one_value() -> (r: Double)
        ensures
            r == one(),
    {
        Double { bits: ONE_BITS }
    }

    /// NaN.
    pub fn nan_value() -> (r: Double)
        ensures
            r == invalid(),
    {
        Double { bits: NAN_BITS }
    }

    /// Positive infinity.
    pub fn infinity_value() -> (r: Double)
        ensures
            r == infinity(),
    {
        Double { bits: INFINITY_MAGNITUDE }
    }

    /// The bits of the number.
    pub fn to_bits(self) -> (r: u64)
        ensures
            r == self.bits,
    {
        self.bits
    }

    /// Whether the number is neither infinite nor NaN.
    pub fn is_finite(self) -> (r: bool)
        ensures
            r == self.finite(),
    {
        self.bits % SIGN_BIT < INFINITY_MAGNITUDE
    }

    /// Whether the number is NaN.
    pub fn is_nan(self) -> (r: bool)
        ensures
            r == self.nan(),
    {
        self.bits % SIGN_BIT > INFINITY_MAGNITUDE
    }

    /// Whether the number is one of the two infinities.
    pub fn is_infinite(self) -> (r: bool)
        ensures
            r == self.infinite(),
    {
        self.bits % SIGN_BIT == INFINITY_MAGNITUDE
    }

    /// Whether the number is zero, of either sign.
    pub fn is_zero(self) -> (r: bool)
        ensures
            r == self.zero(),
    {
        self.bits % SIGN_BIT == 0
    }

    /// `self < other`.
    pub fn lt(self, other: Double) -> (r: bool)
        ensures
            r == less(self, other),
    {
        proof {
            lemma_value_order(self, other);
        }
        if self.is_nan() || other.is_nan() {
            return false;
        }
        let a: u64 = self.bits % SIGN_BIT;
        let b: u64 = other.bits % SIGN_BIT;
        if self.bits >= SIGN_BIT {
            if other.bits >= SIGN_BIT {
                b < a
            } else {
                a > 0 || b > 0
            }
        } else if other.bits >= SIGN_BIT {
            false
        } else {
            a < b
        }
    }

    /// `self <= other`.
    pub fn le(self, other: Double) -> (r: bool)
        ensures
            r == at_most(self, other),
    {
        !self.is_nan() && !other.is_nan() && !other.lt(self)
    }

    /// `self > other`.
    pub fn gt(self, other: Double) -> (r: bool)
        ensures
            r == less(other, self),
    {
        other.lt(self)
    }

    /// `self >= other`.
    pub fn ge(self, other: Double) -> (r: bool)
        ensures
            r == at_most(other, self),
    {
        other.le(self)
    }

    /// The smaller of the two numbers.
    pub fn min(self, other: Double) -> (r: Double)
        ensures
            r == smaller(self, other),
    {
        if self.is_nan() || other.lt(self) {
            other
        } else {
            self
        }
    }

    /// The larger of the two numbers.
    pub fn max(self, other: Double) -> (r: Double)
        ensures
            r == larger(self, other),
    {
        if self.is_nan() || self.lt(other) {
            other
        } else {
            self
        }
    }

    /// Significand and exponent of a finite number.
    fn parts(self) -> (r: (u64, u32))
        requires
            self.finite(),
        ensures
            units(self.magnitude()) == r.0 * pow2(r.1 as nat),
            r.0 < 0x20_0000_0000_0000,
            r.1 <= 2045,
            r.1 > 0 ==> r.0 >= 0x10_0000_0000_0000,
            self.magnitude() == r.1 * FRACTION_RANGE + r.0,
            r.0 == 0 <==> self.zero(),
            r.0 == 0 ==> r.1 == 0,
    {
        let magnitude: u64 = self.bits % SIGN_BIT;
        if magnitude < FRACTION_RANGE {
            proof {
                vstd::arithmetic::power2::lemma2_to64();
                assert(magnitude * pow2(0) == magnitude) by (nonlinear_arith)
                    requires
                        pow2(0) == 1,
                ;
            }
            (magnitude, 0)
        } else {
            let e: u64 = magnitude / FRACTION_RANGE;
            let f: u64 = magnitude % FRACTION_RANGE;
            (FRACTION_RANGE + f, (e - 1) as u32)
        }
    }

    /// `-self`.
    pub fn neg(self) -> (r: Double)
        ensures
            r == negated(self),
    {
        let magnitude: u64 = self.bits % SIGN_BIT;
        if self.bits >= SIGN_BIT {
            Double { bits: magnitude }
        } else {
            Double { bits: SIGN_BIT + magnitude }
        }
    }

    /// `self + other`.
    pub fn plus(self, other: Double) -> (r: Double)
        ensures
            r == sum(self, other),
    {
        if self.is_nan() || other.is_nan() {
            return Double { bits: NAN_BITS };
        }
        let self_negative: bool = self.bits >= SIGN_BIT;
        let other_negative: bool = other.bits >= SIGN_BIT;
        if self.is_infinite() {
            if other.is_infinite() && self_negative != other_negative {
                return Double { bits: NAN_BITS };
            }
            return self;
        }
        if other.is_infinite() {
            return other;
        }
        let (m, e) = self.parts();
        let (n, f) = other.parts();
        if e >= f {
            add_ordered(self, m, e, other, n, f)
        } else {
            add_ordered(other, n, f, self, m, e)
        }
    }

    /// `self - other`.
    pub fn minus(self, other: Double) -> (r: Double)
        ensures
            r == difference(self, other),
    {
        self.plus(other.neg())
    }

    /// `self * other`.
    pub fn times(self, other: Double) -> (r: Double)
        ensures
            r == product(self, other),
    {
        if self.is_nan() || other.is_nan() {
            return Double { bits: NAN_BITS };
        }
        let negative: bool = (self.bits >= SIGN_BIT) != (other.bits >= SIGN_BIT);
        let a: u64 = self.bits % SIGN_BIT;
        let b: u64 = other.bits % SIGN_BIT;
        if self.is_infinite() || other.is_infinite() {
            if a == 0 || b == 0 {
                return Double { bits: NAN_BITS };
            }
            return signed(negative, INFINITY_MAGNITUDE);
        }
        let (m, e) = self.parts();
        let (n, f) = other.parts();
        let ghost num = units(self.magnitude()) * units(other.magnitude());
        let ghost den = pow2(1074);
        proof {
            assert(m * n < 0x400_0000_0000_0000_0000_0000_0000) by (nonlinear_arith)
                requires
                    0 <= m < 0x20_0000_0000_0000,
                    0 <= n < 0x20_0000_0000_0000,
            ;
            assert(m * n >= 0) by (nonlinear_arith)
                requires
                    m >= 0,
                    n >= 0,
            ;
            lemma_pow2_pos(1074);
            lemma_pow2_pos((e + f) as nat);
            lemma_pow2_adds(e as nat, f as nat);
        }
        let p: u128 = m as u128 * n as u128;
        proof {
            assert(p * (den * pow2((e + f) as nat)) == num * pow2(1074)) by (nonlinear_arith)
                requires
                    p == m * n,
                    num == (m * pow2(e as nat)) * (n * pow2(f as nat)),
                    pow2((e + f) as nat) == pow2(e as nat) * pow2(f as nat),
                    den == pow2(1074),
            ;
            assert(p * (den * pow2((e + f) as nat)) < (p + 1) * (den * pow2((e + f) as nat)))
                by (nonlinear_arith)
                requires
                    den > 0,
                    pow2((e + f) as nat) > 0,
            ;
        }
        let r: u64 = round_parts(p, false, e + f, 1074, Ghost(num), Ghost(den));
        proof {
            lemma_nearest_bound(num, den);
        }
        signed(negative, r)
    }

    /// `self / other`.
    pub fn over(self, other: Double) -> (r: Double)
        ensures
            r == quotient(self, other),
    {
        if self.is_nan() || other.is_nan() {
            return Double { bits: NAN_BITS };
        }
        let negative: bool = (self.bits >= SIGN_BIT) != (other.bits >= SIGN_BIT);
        let a: u64 = self.bits % SIGN_BIT;
        let b: u64 = other.bits % SIGN_BIT;
        if self.is_infinite() {
            if other.is_infinite() {
                return Double { bits: NAN_BITS };
            }
            return signed(negative, INFINITY_MAGNITUDE);
        }
        if b == 0 {
            if a == 0 {
                return Double { bits: NAN_BITS };
            }
            return signed(negative, INFINITY_MAGNITUDE);
        }
        if other.is_infinite() {
            return signed(negative, 0);
        }
        let (m, e) = self.parts();
        let (n, f) = other.parts();
        let r: u64 = divide_parts(m, e, n, f);
        proof {
            lemma_pow2_pos(f as nat);
            assert(n * pow2(f as nat) > 0) by (nonlinear_arith)
                requires
                    n > 0,
                    pow2(f as nat) > 0,
            ;
            lemma_nearest_bound(
                units(self.magnitude()) * pow2(1074),
                units(other.magnitude()),
            );
        }
        signed(negative, r)
    }

    /// The number nearest to `n`.
    pub fn from_u64(n: u64) -> (r: Double)
        ensures
            r == of_nat(n as nat),
    {
        let ghost num = n as nat * pow2(1074);
        proof {
            lemma_pow2_pos(1074);
            vstd::arithmetic::power2::lemma2_to64();
            assert(n * (1 * pow2(1074)) == num * pow2(0)) by (nonlinear_arith)
                requires
                    num == n * pow2(1074),
                    pow2(0) == 1,
            ;
            assert(n * (1 * pow2(1074)) < (n + 1) * (1 * pow2(1074))) by (nonlinear_arith)
                requires
                    pow2(1074) > 0,
            ;
        }
        let r: u64 = round_parts(n as u128, false, 1074, 0, Ghost(num), Ghost(1nat));
        proof {
            lemma_nearest_bound(num, 1);
        }
        signed(false, r)
    }

    /// The whole part of the number, held to the range of `u64`.
    pub fn whole(self) -> (r: u64)
        ensures
            r == whole_part(self),
    {
        if self.is_nan() || self.bits >= SIGN_BIT {
            return 0;
        }
        if self.is_infinite() {
            proof {
                let m = INFINITY_MAGNITUDE as nat;
                assert(m / (FRACTION_RANGE as nat) == 2047 && m % (FRACTION_RANGE as nat) == 0);
                assert(units(self.magnitude()) == FRACTION_RANGE as nat * pow2(2046));
                lemma_whole_above(FRACTION_RANGE as nat, 2046);
            }
            return 0xffff_ffff_ffff_ffff;
        }
        let (m, e): (u64, u32) = self.parts();
        if e >= 1074 + 12 {
            proof {
                lemma_whole_above(m as nat, e as nat);
            }
            return 0xffff_ffff_ffff_ffff;
        }
        if e >= 1074 {
            proof {
                lemma_whole_shift(m as nat, e as nat);
                assert(pow2((e - 1074) as nat) <= 2048) by {
                    vstd::arithmetic::power2::lemma2_to64();
                    if e < 1085 {
                        lemma_pow2_strictly_increases((e - 1074) as nat, 11);
                    }
                }
                assert(m * pow2((e - 1074) as nat) < 0x100_0000_0000_0000_0000) by (nonlinear_arith)
                    requires
                        m < 0x20_0000_0000_0000,
                        pow2((e - 1074) as nat) <= 2048,
                ;
            }
            let whole: u128 = m as u128 * power_of_two(e - 1074);
            if whole <= 0xffff_ffff_ffff_ffff {
                whole as u64
            } else {
                0xffff_ffff_ffff_ffff
            }
        } else {
            let d: u32 = 1074 - e;
            proof {
                lemma_whole_part(m as nat, e as nat, d as nat);
            }
            if d >= 64 {
                proof {
                    vstd::arithmetic::power2::lemma2_to64();
                    if d > 64 {
                        lemma_pow2_strictly_increases(64, d as nat);
                    }
                    vstd::arithmetic::div_mod::lemma_basic_div(m as int, pow2(d as nat) as int);
                }
                return 0;
            }
            let divisor: u128 = power_of_two(d);
            proof {
                lemma_pow2_pos(d as nat);
                vstd::arithmetic::div_mod::lemma_div_is_ordered_by_denominator(
                    m as int,
                    1,
                    divisor as int,
                );
            }
            (m as u128 / divisor) as u64
        }
    }

    /// The whole number nearest to the number, held to the range of `u64`.
    pub fn rounded(self) -> (r: u64)
        ensures
            r == nearest_whole(self),
    {
        let whole: u64 = self.whole();
        if self.is_nan() || self.bits >= SIGN_BIT || whole == 0xffff_ffff_ffff_ffff {
            return whole;
        }
        if self.is_infinite() {
            proof {
                let m = INFINITY_MAGNITUDE as nat;
                assert(m / (FRACTION_RANGE as nat) == 2047 && m % (FRACTION_RANGE as nat) == 0);
                lemma_whole_above(FRACTION_RANGE as nat, 2046);
            }
            return whole;
        }
        let (m, e): (u64, u32) = self.parts();
        if e >= 1074 {
            proof {
                lemma_rest_shift(m as nat, e as nat);
            }
            return whole;
        }
        let d: u32 = 1074 - e;
        proof {
            lemma_rest(m as nat, e as nat, d as nat);
            lemma_pow2_pos(d as nat);
        }
        if d >= 64 {
            proof {
                vstd::arithmetic::power2::lemma2_to64();
                if d > 64 {
                    lemma_pow2_strictly_increases(64, d as nat);
                }
                vstd::arithmetic::div_mod::lemma_small_mod(m as nat, pow2(d as nat));
            }
            return whole;
        }
        let divisor: u128 = power_of_two(d);
        let rest: u128 = m as u128 % divisor;
        assert(rest < 0x20_0000_0000_0000) by {
            vstd::arithmetic::div_mod::lemma_mod_decreases(m as nat, divisor as nat);
        }
        if rest * 2 >= divisor {
            whole + 1
        } else {
            whole
        }
    }
}

/// Whether a number is NaN or without a minus sign.
pub open spec fn unsigned(a: Double) -> bool {
    a.nan() || !a.negative()
}

/// Products and quotients of numbers without a minus sign have none, unless they are NaN.
pub proof fn lemma_unsigned(a: Double, b: Double)
    requires
        unsigned(a),
        unsigned(b),
    ensures
        unsigned(product(a, b)),
        unsigned(quotient(a, b)),
{
    lemma_pow2_pos(unit_exponent());
    lemma_nearest_bound(units(a.magnitude()) * units(b.magnitude()), pow2(unit_exponent()));
    if units(b.magnitude()) > 0 {
        lemma_nearest_bound(units(a.magnitude()) * pow2(unit_exponent()), units(b.magnitude()));
    } else if b.magnitude() > 0 {
        lemma_units_increase(0, b.magnitude());
    }
}

/// The difference of a finite number and one that is not above it has no minus sign.
pub proof fn lemma_unsigned_difference(a: Double, b: Double)
    requires
        a.finite(),
        b.finite(),
        !a.negative(),
        b.value() <= a.value(),
    ensures
        unsigned(difference(a, b)),
{
    let v = a.value() - b.value();
    assert(negated(b).value() == -b.value());
    if v > 0 {
        lemma_nearest_bound(v as nat, 1);
    }
}

/// What is left of a multiple of a power of two of units above its whole part, where the power is
/// below one: at least a half where that is so of the multiple.
proof fn lemma_rest(m: nat, e: nat, d: nat)
    requires
        e + d == unit_exponent(),
    ensures
        (m * pow2(e)) % pow2(unit_exponent()) * 2 >= pow2(unit_exponent()) <==> m % pow2(d) * 2
            >= pow2(d),
{
    let (u, p, q) = (m * pow2(e), pow2(unit_exponent()), pow2(d));
    let a = pow2(e);
    lemma_whole_part(m, e, d);
    lemma_pow2_adds(e, d);
    lemma_pow2_pos(e);
    lemma_pow2_pos(d);
    lemma_pow2_pos(unit_exponent());
    let k = m / q;
    vstd::arithmetic::div_mod::lemma_fundamental_div_mod(u as int, p as int);
    vstd::arithmetic::div_mod::lemma_fundamental_div_mod(m as int, q as int);
    let r = m % q;
    let rest = u % p;
    assert(rest == a * r) by (nonlinear_arith)
        requires
            u == m * a,
            p == a * q,
            u == p * k + rest,
            m == q * k + r,
    ;
    assert((a * r) * 2 >= a * q <==> r * 2 >= q) by (nonlinear_arith)
        requires
            a > 0,
    ;
}

/// Nothing is left of a multiple of a power of two of units above its whole part, where the power
/// is one or above.
proof fn lemma_rest_shift(m: nat, e: nat)
    requires
        e >= unit_exponent(),
    ensures
        (m * pow2(e)) % pow2(unit_exponent()) == 0,
        pow2(unit_exponent()) > 0,
{
    let k = (e - unit_exponent()) as nat;
    let u = pow2(unit_exponent());
    lemma_pow2_adds(unit_exponent(), k);
    lemma_pow2_pos(unit_exponent());
    assert(m * (u * pow2(k)) == (m * pow2(k)) * u) by (nonlinear_arith);
    vstd::arithmetic::div_mod::lemma_mod_multiples_basic((m * pow2(k)) as int, u as int);
}

/// The whole part of a multiple of a power of two of units, where the power is below one.
proof fn lemma_whole_part(m: nat, e: nat, d: nat)
    requires
        e + d == unit_exponent(),
    ensures
        (m * pow2(e)) / pow2(unit_exponent()) == m / pow2(d),
{
    lemma_pow2_adds(e, d);
    lemma_pow2_pos(e);
    lemma_pow2_pos(d);
    vstd::arithmetic::div_mod::lemma_div_denominator(
        (m * pow2(e)) as int,
        pow2(e) as int,
        pow2(d) as int,
    );
    vstd::arithmetic::div_mod::lemma_div_by_multiple(m as int, pow2(e) as int);
}

/// The whole part of a multiple of a power of two of units, where the power is one or above.
proof fn lemma_whole_shift(m: nat, e: nat)
    requires
        e >= unit_exponent(),
    ensures
        (m * pow2(e)) / pow2(unit_exponent()) == m * pow2((e - unit_exponent()) as nat),
{
    let k = (e - unit_exponent()) as nat;
    let u = pow2(unit_exponent());
    lemma_pow2_adds(unit_exponent(), k);
    lemma_pow2_pos(unit_exponent());
    assert(m * (u * pow2(k)) == (m * pow2(k)) * u) by (nonlinear_arith);
    vstd::arithmetic::div_mod::lemma_div_by_multiple((m * pow2(k)) as int, u as int);
}

/// Far above one the whole part does not fit.
proof fn lemma_whole_above(m: nat, e: nat)
    requires
        m >= 0x10_0000_0000_0000,
        e >= unit_exponent() + 12,
    ensures
        (m * pow2(e)) / pow2(unit_exponent()) > u64::MAX,
{
    let k = (e - unit_exponent()) as nat;
    lemma_whole_shift(m, e);
    vstd::arithmetic::power2::lemma2_to64();
    if k > 12 {
        lemma_pow2_strictly_increases(12, k);
    }
    assert(m * pow2(k) >= 0x10_0000_0000_0000 * 4096) by (nonlinear_arith)
        requires
            m >= 0x10_0000_0000_0000,
            pow2(k) >= 4096,
    ;
}

/// A nearest magnitude is at most that of infinity.
pub(crate) proof fn lemma_nearest_bound(num: nat, den: nat)
    requires
        den > 0,
    ensures
        nearest_magnitude(num, den) <= INFINITY_MAGNITUDE,
{
    let e = crate::rounding::rounding_exponent(num, den);
    lemma_pow2_pos(e);
    assert(den * pow2(e) > 0) by (nonlinear_arith)
        requires
            den > 0,
            pow2(e) > 0,
    ;
    assert(num / (den * pow2(e)) >= 0) by {
        vstd::arithmetic::div_mod::lemma_div_pos_is_pos(num as int, (den * pow2(e)) as int);
    }
}

/// The sum of two finite numbers, the one of the larger exponent first.
fn add_ordered(a: Double, m: u64, e: u32, b: Double, n: u64, f: u32) -> (r: Double)
    requires
        a.finite(),
        b.finite(),
        units(a.magnitude()) == m * pow2(e as nat),
        units(b.magnitude()) == n * pow2(f as nat),
        m < 0x20_0000_0000_0000,
        n < 0x20_0000_0000_0000,
        f <= e <= 2045,
        e > 0 ==> m >= 0x10_0000_0000_0000,
        a.magnitude() == e * FRACTION_RANGE + m,
    ensures
        r == nearest(a.value() + b.value(), a.negative() && b.negative()),
{
    let a_negative: bool = a.bits >= SIGN_BIT;
    let b_negative: bool = b.bits >= SIGN_BIT;
    let gap: u32 = e - f;
    proof {
        lemma_pow2_pos(e as nat);
        lemma_pow2_pos(f as nat);
    }
    if gap > 60 {
        proof {
            lemma_far_term(m as nat, e as nat, n as nat, f as nat);
        }
        return a;
    }
    let ghost s = pow2(gap as nat);
    proof {
        lemma_pow2_adds(gap as nat, f as nat);
        lemma_pow2_pos(gap as nat);
        assert(pow2(60) == 0x1000_0000_0000_0000) by {
            vstd::arithmetic::power2::lemma2_to64_rest();
        }
        if gap < 60 {
            lemma_pow2_strictly_increases(gap as nat, 60);
        }
        assert(0 <= m * s <= 0x2_0000_0000_0000_0000_0000_0000_0000) by (nonlinear_arith)
            requires
                0 <= m < 0x20_0000_0000_0000,
                0 < s <= 0x1000_0000_0000_0000,
        ;
        assert(m * pow2(e as nat) == (m * s) * pow2(f as nat)) by (nonlinear_arith)
            requires
                pow2(e as nat) == s * pow2(f as nat),
        ;
    }
    let x: u128 = m as u128 * crate::rounding::power_of_two(gap);
    let y: u128 = n as u128;
    let (negative, p): (bool, u128) = if a_negative == b_negative {
        (a_negative, x + y)
    } else if x >= y {
        (a_negative, x - y)
    } else {
        (b_negative, y - x)
    };
    let ghost total = a.value() + b.value();
    let ghost num: nat = if total < 0 {
        (-total) as nat
    } else {
        total as nat
    };
    proof {
        let w = pow2(f as nat);
        assert((x + y) * w == x * w + y * w) by (nonlinear_arith);
        assert((x - y) * w == x * w - y * w) by (nonlinear_arith);
        assert((y - x) * w == y * w - x * w) by (nonlinear_arith);
        assert(num == p * w) by {
            if a_negative != b_negative {
                if x >= y {
                    assert(x * w >= y * w) by (nonlinear_arith)
                        requires
                            x >= y,
                            w > 0,
                    ;
                } else {
                    assert(x * w < y * w) by (nonlinear_arith)
                        requires
                            x < y,
                            w > 0,
                    ;
                }
            } else {
                assert(x * w >= 0 && y * w >= 0) by (nonlinear_arith)
                    requires
                        x >= 0,
                        y >= 0,
                        w > 0,
                ;
            }
        }
        assert(total == 0 <==> p == 0) by (nonlinear_arith)
            requires
                num == p * w,
                w > 0,
                total == 0 <==> num == 0,
        ;
        assert(p != 0 ==> (total < 0 <==> negative)) by {
            if a_negative != b_negative && p != 0 {
                assert(p * w > 0) by (nonlinear_arith)
                    requires
                        p > 0,
                        w > 0,
                ;
            }
        }
    }
    if p == 0 {
        return signed(a_negative && b_negative, 0);
    }
    proof {
        vstd::arithmetic::power2::lemma2_to64();
        assert(p * (1 * pow2(f as nat)) == num * pow2(0)) by (nonlinear_arith)
            requires
                num == p * pow2(f as nat),
                pow2(0) == 1,
        ;
        assert(p * (1 * pow2(f as nat)) < (p + 1) * (1 * pow2(f as nat))) by (nonlinear_arith)
            requires
                pow2(f as nat) > 0,
        ;
    }
    let r: u64 = round_parts(p, false, f, 0, Ghost(num), Ghost(1nat));
    proof {
        lemma_nearest_bound(num, 1);
    }
    signed(negative, r)
}

/// The magnitude of the quotient of two finite numbers, given by their parts.
fn divide_parts(m: u64, e: u32, n: u64, f: u32) -> (r: u64)
    requires
        m < 0x20_0000_0000_0000,
        0 < n < 0x20_0000_0000_0000,
        e <= 2045,
        f <= 2045,
    ensures
        r == nearest_magnitude((m * pow2(e as nat)) as nat * pow2(1074), (n * pow2(f as nat)) as nat),
{
    let ghost num = (m * pow2(e as nat)) as nat * pow2(1074);
    let ghost den = (n * pow2(f as nat)) as nat;
    proof {
        lemma_pow2_pos(e as nat);
        lemma_pow2_pos(f as nat);
        lemma_pow2_pos(1074);
        vstd::arithmetic::power2::lemma2_to64();
        vstd::arithmetic::power2::lemma2_to64_rest();
        assert(den > 0) by (nonlinear_arith)
            requires
                den == n * pow2(f as nat),
                n > 0,
                pow2(f as nat) > 0,
        ;
    }
    // Bring the dividend to 53 bits, so that the quotient has at least 60.
    let mut k: u32 = 0;
    let mut dividend: u64 = m;
    proof {
        assert(m * pow2(0) == m) by (nonlinear_arith)
            requires
                pow2(0) == 1,
        ;
    }
    while m > 0 && dividend < 0x10_0000_0000_0000
        invariant
            dividend == m * pow2(k as nat),
            dividend < 0x20_0000_0000_0000,
            k <= 52,
            m > 0 ==> dividend >= pow2(k as nat),
            pow2(52) == 0x10_0000_0000_0000,
            m == 0 ==> k == 0,
        decreases 53 - k,
    {
        proof {
            lemma_pow2_unfold((k + 1) as nat);
            assert(m * pow2((k + 1) as nat) == 2 * (m * pow2(k as nat))) by (nonlinear_arith)
                requires
                    pow2((k + 1) as nat) == 2 * pow2(k as nat),
            ;
            lemma_pow2_pos(k as nat);
        }
        dividend = dividend * 2;
        k = k + 1;
    }
    let wide: u128 = dividend as u128 * 0x1_0000_0000_0000_0000;
    let q: u128 = wide / n as u128;
    let rest: u128 = wide % n as u128;
    let shift: u32 = k + 64;
    let up: u32 = e + 1074;
    let down: u32 = f + shift;
    proof {
        let w = pow2(shift as nat);
        lemma_pow2_adds(k as nat, 64);
        lemma_pow2_adds(e as nat, 1074);
        lemma_pow2_adds(f as nat, shift as nat);
        vstd::arithmetic::div_mod::lemma_fundamental_div_mod(wide as int, n as int);
        assert(q * n + rest == wide) by (nonlinear_arith)
            requires
                wide == n * q + rest,
        ;
        assert(wide == m * w) by (nonlinear_arith)
            requires
                wide == dividend * 0x1_0000_0000_0000_0000,
                dividend == m * pow2(k as nat),
                w == pow2(k as nat) * 0x1_0000_0000_0000_0000,
        ;
        let a = pow2(up as nat);
        let c = pow2(f as nat);
        // Both sides in units of one part of the dividend.
        assert(num * pow2(down as nat) == wide * (a * c)) by (nonlinear_arith)
            requires
                num == (m * pow2(e as nat)) * pow2(1074),
                a == pow2(e as nat) * pow2(1074),
                pow2(down as nat) == c * w,
                wide == m * w,
        ;
        assert(q * (den * a) == (q * n) * (a * c)) by (nonlinear_arith)
            requires
                den == n * c,
        ;
        assert((q + 1) * (den * a) == (q * n + n) * (a * c)) by (nonlinear_arith)
            requires
                den == n * c,
        ;
        lemma_pow2_pos(up as nat);
        assert(a * c > 0) by (nonlinear_arith)
            requires
                a > 0,
                c > 0,
        ;
        assert((q * n) * (a * c) <= wide * (a * c) && wide * (a * c) < (q * n + n) * (a * c)
            && ((q * n) * (a * c) != wide * (a * c) <==> rest != 0)) by (nonlinear_arith)
            requires
                q * n + rest == wide,
                0 <= rest < n,
                a * c > 0,
        ;
        if rest != 0 {
            assert(q >= 0x1000_0000_0000_0000) by (nonlinear_arith)
                requires
                    q * n + rest == wide,
                    rest < n,
                    n < 0x20_0000_0000_0000,
                    wide >= 0x10_0000_0000_0000 * 0x1_0000_0000_0000_0000,
                    q >= 0,
            {
                assert((q + 1) * n > wide);
                if q + 1 <= 0x1000_0000_0000_0000 {
                    assert((q + 1) * n <= 0x1000_0000_0000_0000 * 0x20_0000_0000_0000);
                }
            }
        }
        assert(q <= wide) by (nonlinear_arith)
            requires
                q * n <= wide,
                n >= 1,
                q >= 0,
        ;
    }
    round_parts(q, rest != 0, up, down, Ghost(num), Ghost(den))
}

} // verus!
