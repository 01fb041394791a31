//! What the arithmetic on binary64 numbers keeps of exact arithmetic: order, sign, and results up to
//! rounding.
use crate::double::{
    at_most, difference, lemma_nearest_bound, lemma_nearest_monotone, lemma_sum_error,
    lemma_units_increase, lemma_unsigned_difference, lemma_value_bounds, nearest, negated, of_nat, one, product, quotient, sum, unit_exponent,
    Double,
};
use crate::rounding::{
    lemma_rounding_error_of, lemma_rounding_exact, lemma_rounding_monotone, lemma_rounding_scaled,
    nearest_magnitude, units, FRACTION_RANGE, INFINITY_MAGNITUDE,
};
use vstd::arithmetic::power2::{lemma_pow2_adds, lemma_pow2_pos, pow2};
use vstd::prelude::*;

verus! {

/// How many units one is.
pub open spec fn unit() -> int {
    pow2(unit_exponent()) as int
}

/// Whether a number is finite and without a minus sign.
pub open spec fn plain(a: Double) -> bool {
    a.finite() && !a.negative()
}

/// One is as many units as its name says.
pub proof fn lemma_one()
    ensures
        one().value() == unit(),
        unit() > 0,
        plain(one()),
{
    let m = one().magnitude();
    assert(m == 1023 * FRACTION_RANGE);
    assert(m / (FRACTION_RANGE as nat) == 1023 && m % (FRACTION_RANGE as nat) == 0);
    vstd::arithmetic::power2::lemma2_to64_rest();
    lemma_pow2_adds(52, 1022);
    lemma_pow2_pos(unit_exponent());
}

/// A number without a minus sign is not below zero, and only zero is zero.
pub proof fn lemma_plain(a: Double)
    ensures
        !a.negative() ==> a.value() >= 0,
        a.value() > 0 ==> !a.negative(),
        a.value() == 0 <==> a.zero(),
{
    if a.magnitude() > 0 {
        lemma_units_increase(0, a.magnitude());
    }
}

/// A finite product of two numbers without a minus sign is the exact one, up to one part in two to
/// the power of 53 and half a unit.
pub proof fn lemma_product_near(a: Double, b: Double)
    requires
        plain(a),
        plain(b),
    ensures
        !product(a, b).nan() && !product(a, b).negative(),
        product(a, b).finite() ==> {
            let exact = a.value() * b.value();
            let gap = product(a, b).value() * unit() - exact;
            let room = exact + 0x10_0000_0000_0000 * unit();
            -room <= 0x20_0000_0000_0000 * gap <= room
        },
{
    let num = units(a.magnitude()) * units(b.magnitude());
    let den = pow2(unit_exponent());
    lemma_pow2_pos(unit_exponent());
    lemma_nearest_bound(num, den);
    if nearest_magnitude(num, den) < INFINITY_MAGNITUDE {
        lemma_rounding_error_of(num, den);
    }
}

/// A finite quotient of two numbers without a minus sign is the exact one, up to one part in two to
/// the power of 53 and half a unit.
pub proof fn lemma_quotient_near(a: Double, b: Double)
    requires
        plain(a),
        plain(b),
        b.value() > 0,
    ensures
        !quotient(a, b).nan() && !quotient(a, b).negative(),
        quotient(a, b).finite() ==> {
            let exact = a.value() * unit();
            let gap = quotient(a, b).value() * b.value() - exact;
            let room = exact + 0x10_0000_0000_0000 * b.value();
            -room <= 0x20_0000_0000_0000 * gap <= room
        },
{
    let num = units(a.magnitude()) * pow2(unit_exponent());
    let den = units(b.magnitude());
    lemma_plain(b);
    lemma_nearest_bound(num, den);
    if nearest_magnitude(num, den) < INFINITY_MAGNITUDE {
        lemma_rounding_error_of(num, den);
    }
}

/// A value of up to two to the power of 900 is rounded to a finite number.
proof fn lemma_rounded_finite(num: nat, den: nat)
    requires
        den > 0,
        num <= den * pow2(1974),
    ensures
        nearest_magnitude(num, den) < INFINITY_MAGNITUDE,
{
    let m = (1923 * FRACTION_RANGE) as nat;
    assert(m / (FRACTION_RANGE as nat) == 1923 && m % (FRACTION_RANGE as nat) == 0);
    vstd::arithmetic::power2::lemma2_to64_rest();
    lemma_pow2_adds(52, 1922);
    assert(units(m) == pow2(1974));
    lemma_rounding_exact(m);
    lemma_rounding_scaled(units(m), 1, den);
    assert(units(m) * den == den * pow2(1974) && 1 * den == den) by (nonlinear_arith)
        requires
            units(m) == pow2(1974),
    ;
    lemma_rounding_monotone(num, units(m) * den, den);
}

/// What two to the power of 900 is in units.
pub open spec fn vast() -> int {
    pow2(1974) as int
}

/// A thousandfold of a thousandfold and more of one fits below the end of the range.
pub proof fn lemma_vast()
    ensures
        vast() == unit() * pow2(900),
        pow2(900) >= 0x1_0000_0000_0000_0000_0000_0000_0000_0000
            * 0x1_0000_0000_0000_0000_0000_0000_0000_0000,
        unit() >= 0x1_0000_0000_0000_0000_0000_0000_0000_0000
            * 0x1_0000_0000_0000_0000_0000_0000_0000_0000
            * 0x1_0000_0000_0000_0000_0000_0000_0000_0000
            * 0x1_0000_0000_0000_0000_0000_0000_0000_0000,
{
    lemma_pow2_adds(1074, 900);
    vstd::arithmetic::power2::lemma2_to64();
    lemma_pow2_adds(64, 64);
    lemma_pow2_adds(128, 128);
    lemma_pow2_adds(256, 256);
    let a: int = 0x1_0000_0000_0000_0000_0000_0000_0000_0000int;
    assert(pow2(512) == a * a * a * a) by (nonlinear_arith)
        requires
            pow2(512) == pow2(256) * pow2(256),
            pow2(256) == a * a,
    ;
    vstd::arithmetic::power2::lemma_pow2_strictly_increases(256, 900);
    vstd::arithmetic::power2::lemma_pow2_strictly_increases(512, 1074);
}

/// A product that is not vast is finite.
pub proof fn lemma_product_finite(a: Double, b: Double)
    requires
        plain(a),
        plain(b),
        a.value() * b.value() <= unit() * vast(),
    ensures
        plain(product(a, b)),
{
    lemma_pow2_pos(unit_exponent());
    lemma_rounded_finite(units(a.magnitude()) * units(b.magnitude()), pow2(unit_exponent()));
}

/// A quotient that is not vast is finite.
pub proof fn lemma_quotient_finite(a: Double, b: Double)
    requires
        plain(a),
        plain(b),
        b.value() > 0,
        a.value() * unit() <= b.value() * vast(),
    ensures
        plain(quotient(a, b)),
{
    lemma_plain(b);
    lemma_rounded_finite(units(a.magnitude()) * pow2(unit_exponent()), units(b.magnitude()));
}

/// A sum that is not vast is finite.
pub proof fn lemma_sum_finite(a: Double, b: Double)
    requires
        plain(a),
        plain(b),
        a.value() + b.value() <= 2 * vast(),
    ensures
        plain(sum(a, b)),
{
    lemma_plain(a);
    lemma_plain(b);
    let exact = a.value() + b.value();
    if exact > 0 {
        lemma_pow2_adds(1, 1974);
        lemma_rounded_finite_sum(exact as nat);
        lemma_nearest_bound(exact as nat, 1);
    }
}

proof fn lemma_rounded_finite_sum(num: nat)
    requires
        num <= 2 * pow2(1974),
    ensures
        nearest_magnitude(num, 1) < INFINITY_MAGNITUDE,
{
    let m = (1924 * FRACTION_RANGE) as nat;
    assert(m / (FRACTION_RANGE as nat) == 1924 && m % (FRACTION_RANGE as nat) == 0);
    vstd::arithmetic::power2::lemma2_to64();
    vstd::arithmetic::power2::lemma2_to64_rest();
    lemma_pow2_adds(52, 1923);
    lemma_pow2_adds(1, 1974);
    assert(units(m) == pow2(1975));
    lemma_rounding_exact(m);
    lemma_rounding_monotone(num, units(m), 1);
}

/// The errors of a quotient and of a product of it, together: `q` is `m` by `a`, and `r` is `q` times
/// `f`, each as it is rounded, with numbers that are far from the ends of the range.
pub proof fn lemma_quotient_then_product(u: int, m: int, a: int, f: int, q: int, r: int)
    requires
        u >= 0x1_0000_0000_0000_0000_0000_0000_0000_0000
            * 0x1_0000_0000_0000_0000_0000_0000_0000_0000
            * 0x1_0000_0000_0000_0000_0000_0000_0000_0000
            * 0x1_0000_0000_0000_0000_0000_0000_0000_0000,
        u <= 1_000_000_000_000_000_000_000_000_000_000 * m,
        u <= 1_000_000_000_000_000_000_000_000_000_000 * a,
        a <= 1_000_000_000_000_000_000_000_000_000_000 * u,
        u <= 1_000_000_000_000_000_000_000_000_000_000 * f,
        -(m * u + 0x10_0000_0000_0000 * a) <= 0x20_0000_0000_0000 * (q * a - m * u) <= m * u
            + 0x10_0000_0000_0000 * a,
        -(q * f + 0x10_0000_0000_0000 * u) <= 0x20_0000_0000_0000 * (r * u - q * f) <= q * f
            + 0x10_0000_0000_0000 * u,
    ensures
        -(f * m) <= 0x4_0000_0000_0000 * (r * a - f * m) <= f * m,
{
    let c: int = 1_000_000_000_000_000_000_000_000_000_000;
    let h: int = 0x10_0000_0000_0000;
    let e1 = q * a - m * u;
    let e2 = r * u - q * f;
    let mu = m * u;
    let fmu = f * mu;
    let qf = q * f;
    assert(h * a <= mu) by (nonlinear_arith)
        requires
            a <= c * u,
            u <= c * m,
            u >= h * c * c,
            mu == m * u,
            c == 1_000_000_000_000_000_000_000_000_000_000,
            h == 0x10_0000_0000_0000,
    {
        assert(h * c * (c * m) >= h * c * u);
        assert(c * (h * a) <= c * (h * (c * u)));
        assert(c * mu == (c * m) * u);
        assert((c * m) * u >= u * u);
        assert(u * u >= (h * c * c) * u);
        assert(c * (h * (c * u)) == (h * c * c) * u);
    }
    assert(mu > 0) by (nonlinear_arith)
        requires
            m > 0,
            u > 0,
            mu == m * u,
    ;
    assert(-(f * (mu + h * a)) <= 0x20_0000_0000_0000 * (f * e1) <= f * (mu + h * a))
        by (nonlinear_arith)
        requires
            f > 0,
            -(mu + h * a) <= 0x20_0000_0000_0000 * e1 <= mu + h * a,
    ;
    assert(f * (mu + h * a) <= 2 * fmu) by (nonlinear_arith)
        requires
            f > 0,
            h * a <= mu,
            fmu == f * mu,
    ;
    assert(a * qf == fmu + f * e1) by (nonlinear_arith)
        requires
            e1 == q * a - mu,
            qf == q * f,
            fmu == f * mu,
    ;
    assert(-(a * (qf + h * u)) <= 0x20_0000_0000_0000 * (a * e2) <= a * (qf + h * u))
        by (nonlinear_arith)
        requires
            a > 0,
            -(qf + h * u) <= 0x20_0000_0000_0000 * e2 <= qf + h * u,
    ;
    assert(h * (a * u) <= fmu) by {
        assert(a * u <= c * (u * u)) by (nonlinear_arith)
            requires
                a <= c * u,
                u > 0,
        ;
        assert(c * c * fmu >= (u * u) * u) by (nonlinear_arith)
            requires
                u <= c * f,
                u <= c * m,
                u > 0,
                fmu == f * (m * u),
                c > 0,
        {
            assert((c * f) * (c * m) >= u * u);
            assert((c * f) * (c * m) == c * c * (f * m));
            assert((c * c * (f * m)) * u >= (u * u) * u);
            assert((c * c * (f * m)) * u == c * c * (f * (m * u)));
        }
        assert((u * u) * u >= (h * c * c * c) * (u * u)) by (nonlinear_arith)
            requires
                u >= h * c * c * c,
        ;
        assert(h * (a * u) <= fmu) by (nonlinear_arith)
            requires
                a * u <= c * (u * u),
                c * c * fmu >= (h * c * c * c) * (u * u),
                c == 1_000_000_000_000_000_000_000_000_000_000,
                h == 0x10_0000_0000_0000,
        {
            assert(c * c * fmu >= c * c * (h * (c * (u * u))));
            assert(fmu >= h * (c * (u * u)));
        }
    }
    assert(a * (qf + h * u) == a * qf + h * (a * u)) by (nonlinear_arith);
    let g = r * a - f * m;
    assert(u * g == f * e1 + a * e2) by (nonlinear_arith)
        requires
            g == r * a - f * m,
            e1 == q * a - m * u,
            e2 == r * u - q * f,
    ;
    assert(-(5 * fmu) <= 0x20_0000_0000_0000 * (u * g) <= 5 * fmu);
    let fm = f * m;
    assert(fm > 0) by (nonlinear_arith)
        requires
            f > 0,
            m > 0,
            fm == f * m,
    ;
    assert(-fm <= 0x4_0000_0000_0000 * g <= fm) by (nonlinear_arith)
        requires
            -(5 * fmu) <= 0x20_0000_0000_0000 * (u * g) <= 5 * fmu,
            fmu == f * (m * u),
            fm == f * m,
            u > 0,
            fm > 0,
    {
        assert(fmu == u * fm);
        assert(u * (0x20_0000_0000_0000 * g) <= u * (5 * fm));
        assert(u * (0x20_0000_0000_0000 * g) >= u * (-(5 * fm)));
        assert(0x20_0000_0000_0000 * g <= 5 * fm);
        assert(0x20_0000_0000_0000 * g >= -(5 * fm));
    }
}

/// The errors of a product and of a product of it, together: `y` is `m` times `b`, and `r` is `y`
/// times `f`, each as it is rounded, with numbers that are far from the ends of the range.
pub proof fn lemma_product_then_product(u: int, m: int, b: int, f: int, y: int, r: int)
    requires
        u >= 0x1_0000_0000_0000_0000_0000_0000_0000_0000
            * 0x1_0000_0000_0000_0000_0000_0000_0000_0000
            * 0x1_0000_0000_0000_0000_0000_0000_0000_0000
            * 0x1_0000_0000_0000_0000_0000_0000_0000_0000,
        u <= 1_000_000_000_000_000_000_000_000_000_000 * m,
        u <= 1_000_000_000_000_000_000_000_000_000_000 * b,
        u <= 1_000_000_000_000_000_000_000_000_000_000 * f,
        -(m * b + 0x10_0000_0000_0000 * u) <= 0x20_0000_0000_0000 * (y * u - m * b) <= m * b
            + 0x10_0000_0000_0000 * u,
        -(y * f + 0x10_0000_0000_0000 * u) <= 0x20_0000_0000_0000 * (r * u - y * f) <= y * f
            + 0x10_0000_0000_0000 * u,
    ensures
        -(f * (m * b)) <= 0x4_0000_0000_0000 * (r * u * u - f * (m * b)) <= f * (m * b),
{
    let c: int = 1_000_000_000_000_000_000_000_000_000_000;
    let h: int = 0x10_0000_0000_0000;
    let mb = m * b;
    let e1 = y * u - mb;
    let e2 = r * u - y * f;
    let fmb = f * mb;
    let yf = y * f;
    assert(c * c * mb >= u * u) by (nonlinear_arith)
        requires
            u <= c * m,
            u <= c * b,
            u > 0,
            c > 0,
            mb == m * b,
    {
        assert((c * m) * (c * b) >= u * u);
        assert((c * m) * (c * b) == c * c * (m * b));
    }
    assert(h * u <= mb) by (nonlinear_arith)
        requires
            c * c * mb >= u * u,
            u >= h * c * c,
            c == 1_000_000_000_000_000_000_000_000_000_000,
            h == 0x10_0000_0000_0000,
    {
        assert(u * u >= (h * c * c) * u);
        assert((h * c * c) * u == c * c * (h * u));
    }
    assert(-(f * (mb + h * u)) <= 0x20_0000_0000_0000 * (f * e1) <= f * (mb + h * u))
        by (nonlinear_arith)
        requires
            f > 0,
            -(mb + h * u) <= 0x20_0000_0000_0000 * e1 <= mb + h * u,
    ;
    assert(f * (mb + h * u) <= 2 * fmb) by (nonlinear_arith)
        requires
            f > 0,
            h * u <= mb,
            fmb == f * mb,
    ;
    assert(u * yf == fmb + f * e1) by (nonlinear_arith)
        requires
            e1 == y * u - mb,
            yf == y * f,
            fmb == f * mb,
    ;
    assert(-(u * (yf + h * u)) <= 0x20_0000_0000_0000 * (u * e2) <= u * (yf + h * u))
        by (nonlinear_arith)
        requires
            u > 0,
            -(yf + h * u) <= 0x20_0000_0000_0000 * e2 <= yf + h * u,
    ;
    assert(h * (u * u) <= fmb) by {
        assert(c * c * c * fmb >= (u * u) * u) by (nonlinear_arith)
            requires
                c * c * mb >= u * u,
                u <= c * f,
                u > 0,
                c > 0,
                fmb == f * mb,
        {
            assert((c * c * mb) * (c * f) >= (u * u) * u);
            assert((c * c * mb) * (c * f) == c * c * c * (f * mb));
        }
        assert((u * u) * u >= (h * c * c * c) * (u * u)) by (nonlinear_arith)
            requires
                u >= h * c * c * c,
        ;
        assert(h * (u * u) <= fmb) by (nonlinear_arith)
            requires
                c * c * c * fmb >= (h * c * c * c) * (u * u),
                c == 1_000_000_000_000_000_000_000_000_000_000,
                h == 0x10_0000_0000_0000,
        ;
    }
    assert(u * (yf + h * u) == u * yf + h * (u * u)) by (nonlinear_arith);
    let g = r * u * u - fmb;
    assert(g == f * e1 + u * e2) by (nonlinear_arith)
        requires
            g == r * u * u - fmb,
            fmb == f * mb,
            e1 == y * u - mb,
            e2 == r * u - y * f,
    ;
    assert(u * u > 0) by (nonlinear_arith)
        requires
            u > 0,
    ;
}

/// The larger factor gives the larger product.
pub proof fn lemma_product_monotone(a: Double, b: Double, c: Double)
    requires
        plain(a),
        plain(b),
        plain(c),
        a.value() <= b.value(),
    ensures
        at_most(product(a, c), product(b, c)),
        product(a, c) == product(c, a),
{
    let (x, y, z) = (units(a.magnitude()), units(b.magnitude()), units(c.magnitude()));
    let den = pow2(unit_exponent());
    lemma_pow2_pos(unit_exponent());
    assert(x * z <= y * z && x * z == z * x) by (nonlinear_arith)
        requires
            x <= y,
    ;
    lemma_rounding_monotone(x * z, y * z, den);
    lemma_nearest_bound(x * z, den);
    lemma_nearest_bound(y * z, den);
    lemma_magnitudes(nearest_magnitude(x * z, den), nearest_magnitude(y * z, den));
}

/// The larger factor gives the larger product, an infinite one too.
pub proof fn lemma_product_grows(a: Double, b: Double, c: Double)
    requires
        !a.nan() && !a.negative(),
        !b.nan() && !b.negative(),
        plain(c),
        a.value() <= b.value(),
        c.value() > 0,
    ensures
        at_most(product(a, c), product(b, c)),
{
    lemma_plain(c);
    let den = pow2(unit_exponent());
    let x = units(a.magnitude()) * units(c.magnitude());
    lemma_pow2_pos(unit_exponent());
    lemma_nearest_bound(x, den);
    if a.infinite() && !b.infinite() {
        lemma_units_increase(b.magnitude(), a.magnitude());
    } else if b.infinite() {
        lemma_magnitudes(nearest_magnitude(x, den), INFINITY_MAGNITUDE as nat);
    } else {
        lemma_product_monotone(a, b, c);
    }
}

/// The larger dividend gives the larger quotient.
pub proof fn lemma_quotient_monotone(a: Double, b: Double, c: Double)
    requires
        plain(a),
        plain(b),
        plain(c),
        a.value() <= b.value(),
        c.value() > 0,
    ensures
        at_most(quotient(a, c), quotient(b, c)),
{
    let (x, y, z) = (units(a.magnitude()), units(b.magnitude()), units(c.magnitude()));
    let k = pow2(unit_exponent());
    lemma_plain(c);
    assert(x * k <= y * k) by (nonlinear_arith)
        requires
            x <= y,
    ;
    lemma_rounding_monotone(x * k, y * k, z);
    lemma_nearest_bound(x * k, z);
    lemma_nearest_bound(y * k, z);
    lemma_magnitudes(nearest_magnitude(x * k, z), nearest_magnitude(y * k, z));
}

/// The larger divisor gives the smaller quotient.
pub proof fn lemma_quotient_antitone(a: Double, b: Double, c: Double)
    requires
        plain(a),
        plain(b),
        plain(c),
        0 < b.value() <= c.value(),
    ensures
        at_most(quotient(a, c), quotient(a, b)),
{
    let (x, y, z) = (
        units(a.magnitude()) * pow2(unit_exponent()),
        units(b.magnitude()),
        units(c.magnitude()),
    );
    lemma_plain(b);
    lemma_plain(c);
    lemma_rounding_scaled(x, y, z);
    lemma_rounding_scaled(x, z, y);
    assert(x * y <= x * z && y * z == z * y && y * z > 0) by (nonlinear_arith)
        requires
            0 < y <= z,
    ;
    lemma_rounding_monotone(x * y, x * z, y * z);
    lemma_nearest_bound(x, y);
    lemma_nearest_bound(x, z);
    lemma_magnitudes(nearest_magnitude(x, z), nearest_magnitude(x, y));
}

proof fn lemma_magnitudes(a: nat, b: nat)
    requires
        a <= b,
    ensures
        units(a) <= units(b),
{
    if a < b {
        lemma_units_increase(a, b);
    }
}

/// A factor of one changes nothing.
pub proof fn lemma_product_one(a: Double)
    requires
        plain(a),
    ensures
        product(a, one()) == a,
        quotient(a, one()) == a,
{
    lemma_one();
    let (x, k) = (units(a.magnitude()), pow2(unit_exponent()));
    assert(units(one().magnitude()) == k);
    assert(1 * k == k);
    lemma_rounding_scaled(x, 1, k);
    lemma_rounding_exact(a.magnitude());
}

/// The difference of two finite numbers is above zero, zero or below it as the exact one is.
pub proof fn lemma_difference_sign(a: Double, b: Double)
    requires
        a.finite(),
        b.finite(),
    ensures
        !difference(a, b).nan(),
        difference(a, b).value() > 0 <==> a.value() > b.value(),
        difference(a, b).value() == 0 <==> a.value() == b.value(),
{
    let d = a.value() - b.value();
    assert(negated(b).value() == -b.value());
    if d != 0 {
        let size: nat = if d < 0 {
            (-d) as nat
        } else {
            d as nat
        };
        lemma_nearest_bound(size, 1);
        lemma_rounding_monotone(1, size, 1);
        lemma_rounding_exact(1);
        assert(units(1) == 1);
        lemma_units_increase(0, nearest_magnitude(size, 1));
    } else {
        assert(units(0) == 0);
    }
}

/// The difference of two finite numbers, where it is finite, is the exact one up to one part in two
/// to the power of 53.
pub proof fn lemma_difference_near(a: Double, b: Double)
    requires
        a.finite(),
        b.finite(),
        difference(a, b).finite(),
    ensures
        ({
            let exact = a.value() - b.value();
            let size = if exact < 0 {
                -exact
            } else {
                exact
            };
            -size <= 0x20_0000_0000_0000 * (difference(a, b).value() - exact) <= size
        }),
{
    assert(negated(b).value() == -b.value() && negated(b).finite());
    lemma_sum_error(a, negated(b));
}

/// Larger terms give the larger sum.
pub proof fn lemma_sum_grows(a: Double, b: Double, c: Double, d: Double)
    requires
        a.finite(),
        b.finite(),
        c.finite(),
        d.finite(),
        a.value() <= b.value(),
        c.value() <= d.value(),
    ensures
        at_most(sum(a, c), sum(b, d)),
{
    lemma_nearest_monotone(
        a.value() + c.value(),
        b.value() + d.value(),
        a.negative() && c.negative(),
        b.negative() && d.negative(),
    );
}

/// A term without a minus sign makes no sum smaller.
pub proof fn lemma_sum_plain(a: Double, b: Double)
    requires
        plain(a),
        plain(b),
    ensures
        !sum(a, b).nan() && !sum(a, b).negative(),
        sum(a, b).value() >= a.value(),
        sum(a, b).value() >= b.value(),
{
    lemma_plain(a);
    lemma_plain(b);
    lemma_nearest_monotone(a.value(), a.value() + b.value(), false, false);
    lemma_nearest_monotone(b.value(), a.value() + b.value(), false, false);
    if a.magnitude() > 0 {
        lemma_rounding_exact(a.magnitude());
    }
    if b.magnitude() > 0 {
        lemma_rounding_exact(b.magnitude());
    }
    if a.value() + b.value() > 0 {
        lemma_nearest_bound((a.value() + b.value()) as nat, 1);
    }
}

/// Whether a number is one, without a minus sign; it may be infinite.
pub open spec fn counted(a: Double) -> bool {
    !a.nan() && !a.negative()
}

/// Terms without a minus sign make no sum smaller, infinite ones too.
pub proof fn lemma_sum_counted(a: Double, b: Double)
    requires
        counted(a),
        counted(b),
    ensures
        counted(sum(a, b)),
        at_most(a, sum(a, b)),
        at_most(b, sum(a, b)),
        sum(a, b).finite() ==> a.finite() && b.finite(),
{
    lemma_value_bounds(a);
    lemma_value_bounds(b);
    if a.finite() && b.finite() {
        lemma_sum_plain(a, b);
    }
}

/// Larger terms give the larger sum, infinite ones too.
pub proof fn lemma_sum_grows_counted(a: Double, b: Double, c: Double, d: Double)
    requires
        counted(a),
        counted(b),
        counted(c),
        counted(d),
        a.value() <= b.value(),
        c.value() <= d.value(),
    ensures
        at_most(sum(a, c), sum(b, d)),
{
    lemma_sum_counted(a, c);
    lemma_sum_counted(b, d);
    lemma_value_bounds(sum(a, c));
    if b.finite() && d.finite() {
        if !a.finite() {
            lemma_units_increase(b.magnitude(), a.magnitude());
        }
        if !c.finite() {
            lemma_units_increase(d.magnitude(), c.magnitude());
        }
        lemma_sum_grows(a, b, c, d);
    }
}

/// Subtracting something keeps what is left from growing.
pub proof fn lemma_difference_shrinks(a: Double, b: Double)
    requires
        plain(a),
        plain(b),
    ensures
        difference(a, b).finite(),
        difference(a, b).value() <= a.value(),
        b.value() <= a.value() ==> !difference(a, b).negative(),
{
    let d = a.value() - b.value();
    lemma_plain(a);
    lemma_plain(b);
    assert(negated(b).value() == -b.value());
    lemma_nearest_monotone(d, a.value(), false, false);
    if a.magnitude() > 0 {
        lemma_rounding_exact(a.magnitude());
    }
    if d > 0 {
        lemma_nearest_bound(d as nat, 1);
        lemma_rounding_monotone(d as nat, a.value() as nat, 1);
    } else if d < 0 {
        lemma_nearest_bound((-d) as nat, 1);
        lemma_rounding_monotone((-d) as nat, b.value() as nat, 1);
        lemma_rounding_exact(b.magnitude());
    }
}

/// What a fee from zero to one leaves is from zero to one.
pub proof fn lemma_kept(fee: Double)
    requires
        fee.finite(),
        0 <= fee.value() <= unit(),
    ensures
        ({
            let kept = difference(one(), fee);
            plain(kept) && 0 <= kept.value() <= unit()
        }),
{
    lemma_one();
    lemma_plain(fee);
    lemma_difference_sign(one(), fee);
    let kept = difference(one(), fee);
    lemma_unsigned_difference(one(), fee);
    lemma_nearest_monotone(
        unit() - fee.value(),
        unit(),
        one().negative() && negated(fee).negative(),
        false,
    );
    lemma_rounding_exact(one().magnitude());
    assert(negated(fee).value() == -fee.value());
    assert(nearest(unit(), false).value() == unit());
    assert(at_most(kept, one()));
    if !kept.finite() {
        lemma_units_increase(one().magnitude(), kept.magnitude());
    }
    lemma_plain(kept);
}

/// A whole number that is not vast is finite as a number.
pub proof fn lemma_of_nat_finite(n: nat)
    requires
        n <= pow2(900),
    ensures
        plain(of_nat(n)),
{
    lemma_vast();
    let (u, k) = (pow2(unit_exponent()), pow2(900));
    assert(n * u <= 1 * pow2(1974)) by (nonlinear_arith)
        requires
            n <= k,
            pow2(1974) == u * k,
    ;
    lemma_rounded_finite(n * u, 1);
}

} // verus!
