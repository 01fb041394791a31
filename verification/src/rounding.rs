//! Rounding of an exact non-negative fraction to the nearest binary64 value.
//!
//! A binary64 magnitude is its 63 low bits read as an integer, so that the magnitudes of
//! zero, the subnormal, the normal numbers and infinity follow each other as integers do.
//! The unit of all exact values is the smallest positive binary64 number, two to the
//! power of minus 1074: every finite binary64 value is a whole number of units.
use vstd::arithmetic::power2::{
    lemma_pow2_adds, lemma_pow2_pos, lemma_pow2_strictly_increases, lemma_pow2_unfold, pow2,
};
use vstd::prelude::*;

verus! {

/// Weight of the lowest exponent bit: fractions take the 52 bits below it.
pub const FRACTION_RANGE: u64 = 0x10_0000_0000_0000;

/// Magnitude of infinity. Larger magnitudes are those of NaN.
pub const INFINITY_MAGNITUDE: u64 = 0x7ff0_0000_0000_0000;

/// The number of units that a magnitude stands for.
///
/// Infinity is given the value that follows the largest finite one, which puts it in its
/// place in the order.
pub open spec fn units(magnitude: nat) -> nat {
    if magnitude < FRACTION_RANGE {
        magnitude
    } else {
        ((FRACTION_RANGE + magnitude % (FRACTION_RANGE as nat)) as nat) * pow2(
            (magnitude / (FRACTION_RANGE as nat) - 1) as nat,
        )
    }
}

/// The smallest exponent at which the quotient of `num` and `den` has at most 53 bits
/// before the binary point.
pub open spec fn rounding_exponent(num: nat, den: nat) -> nat
    decreases num - den,
{
    if den == 0 || num < den * 0x20_0000_0000_0000 {
        0
    } else {
        1 + rounding_exponent(num, 2 * den)
    }
}

/// Whether a quotient `q` that leaves `rest` of the divisor `step` goes up to `q + 1`:
/// beyond the half always, at the half if `q` is odd.
pub open spec fn goes_up(q: nat, rest: nat, step: nat) -> bool {
    2 * rest > step || (2 * rest == step && q % 2 == 1)
}

/// The magnitude nearest to `num / den` units, the even one of two that are equally near;
/// infinity from the midpoint of the largest finite value and its successor on.
pub open spec fn nearest_magnitude(num: nat, den: nat) -> nat {
    let e = rounding_exponent(num, den);
    let step = den * pow2(e);
    let q = num / step;
    let rounded = if goes_up(q, num % step, step) {
        q + 1
    } else {
        q
    };
    let magnitude = e * FRACTION_RANGE + rounded;
    if magnitude < INFINITY_MAGNITUDE {
        magnitude as nat
    } else {
        INFINITY_MAGNITUDE as nat
    }
}

/// The rounding exponent is determined by the range of the quotient at it.
pub(crate) proof fn lemma_rounding_exponent(num: nat, den: nat, e: nat)
    requires
        den > 0,
        num < den * pow2(e) * 0x20_0000_0000_0000,
        e > 0 ==> num >= den * pow2(e) * 0x10_0000_0000_0000,
    ensures
        rounding_exponent(num, den) == e,
    decreases e,
{
    if e == 0 {
        assert(pow2(0) == 1) by {
            vstd::arithmetic::power2::lemma2_to64();
        }
        assert(den * pow2(0) == den) by (nonlinear_arith)
            requires
                pow2(0) == 1,
        ;
    } else {
        let f = (e - 1) as nat;
        lemma_pow2_unfold(e);
        lemma_pow2_pos(f);
        assert(den * pow2(e) == 2 * den * pow2(f)) by (nonlinear_arith)
            requires
                pow2(e) == 2 * pow2(f),
        ;
        assert(den * pow2(e) >= 2 * den) by (nonlinear_arith)
            requires
                den * pow2(e) == 2 * den * pow2(f),
                pow2(f) >= 1,
        ;
        lemma_rounding_exponent(num, 2 * den, f);
    }
}

/// The nearest magnitude, from a quotient and the exponent that it was taken at.
pub(crate) proof fn lemma_nearest_magnitude(num: nat, den: nat, e: nat, q: nat)
    requires
        den > 0,
        q * (den * pow2(e)) <= num < (q + 1) * (den * pow2(e)),
        q < 0x20_0000_0000_0000,
        e > 0 ==> q >= 0x10_0000_0000_0000,
    ensures
        den * pow2(e) > 0,
        nearest_magnitude(num, den) == {
            let rounded = if goes_up(q, (num - q * (den * pow2(e))) as nat, den * pow2(e)) {
                q + 1
            } else {
                q
            };
            let magnitude = e * FRACTION_RANGE + rounded;
            if magnitude < INFINITY_MAGNITUDE {
                magnitude as nat
            } else {
                INFINITY_MAGNITUDE as nat
            }
        },
{
    let step = den * pow2(e);
    lemma_pow2_pos(e);
    assert(step > 0) by (nonlinear_arith)
        requires
            den > 0,
            pow2(e) > 0,
            step == den * pow2(e),
    ;
    assert(num < step * 0x20_0000_0000_0000) by (nonlinear_arith)
        requires
            num < (q + 1) * step,
            q + 1 <= 0x20_0000_0000_0000,
            step > 0,
    ;
    if e > 0 {
        assert(num >= step * 0x10_0000_0000_0000) by (nonlinear_arith)
            requires
                num >= q * step,
                q >= 0x10_0000_0000_0000,
                step > 0,
        ;
    }
    lemma_rounding_exponent(num, den, e);
    assert((q + 1) * step == q * step + step) by (nonlinear_arith);
    vstd::arithmetic::div_mod::lemma_fundamental_div_mod_converse(
        num as int,
        step as int,
        q as int,
        num - q * step,
    );
}

/// The range of the quotient at the rounding exponent.
proof fn lemma_rounding_exponent_range(num: nat, den: nat)
    requires
        den > 0,
    ensures
        ({
            let e = rounding_exponent(num, den);
            &&& num < den * pow2(e) * 0x20_0000_0000_0000
            &&& e > 0 ==> num >= den * pow2(e) * 0x10_0000_0000_0000
        }),
    decreases num - den,
{
    vstd::arithmetic::power2::lemma2_to64();
    assert(den * pow2(0) == den) by (nonlinear_arith)
        requires
            pow2(0) == 1,
    ;
    if num >= den * 0x20_0000_0000_0000 {
        let f = rounding_exponent(num, 2 * den);
        lemma_rounding_exponent_range(num, 2 * den);
        lemma_pow2_unfold(f + 1);
        assert(2 * den * pow2(f) == den * pow2(f + 1)) by (nonlinear_arith)
            requires
                pow2(f + 1) == 2 * pow2(f),
        ;
        if f == 0 {
            assert(2 * den * pow2(0) == 2 * den) by (nonlinear_arith)
                requires
                    pow2(0) == 1,
            ;
        }
    }
}

/// A larger fraction is rounded at the same exponent or a larger one.
proof fn lemma_rounding_exponent_monotone(num: nat, other: nat, den: nat)
    requires
        den > 0,
        num <= other,
    ensures
        rounding_exponent(num, den) <= rounding_exponent(other, den),
    decreases num - den,
{
    if num >= den * 0x20_0000_0000_0000 {
        lemma_rounding_exponent_monotone(num, other, 2 * den);
    }
}

/// Rounding keeps the order: of two fractions the larger one is not rounded to the smaller
/// magnitude.
pub proof fn lemma_rounding_monotone(num: nat, other: nat, den: nat)
    requires
        den > 0,
        num <= other,
    ensures
        nearest_magnitude(num, den) <= nearest_magnitude(other, den),
{
    let e = rounding_exponent(num, den);
    let f = rounding_exponent(other, den);
    lemma_rounding_exponent_monotone(num, other, den);
    lemma_rounding_exponent_range(num, den);
    lemma_rounding_exponent_range(other, den);
    lemma_pow2_pos(e);
    lemma_pow2_pos(f);
    let step = den * pow2(e);
    let wide = den * pow2(f);
    assert(step > 0 && wide > 0) by (nonlinear_arith)
        requires
            step == den * pow2(e),
            wide == den * pow2(f),
            den > 0,
            pow2(e) > 0,
            pow2(f) > 0,
    ;
    let q = num / step;
    let p = other / wide;
    vstd::arithmetic::div_mod::lemma_fundamental_div_mod(num as int, step as int);
    vstd::arithmetic::div_mod::lemma_fundamental_div_mod(other as int, wide as int);
    assert(q < 0x20_0000_0000_0000) by (nonlinear_arith)
        requires
            num == step * q + num % step,
            num % step >= 0,
            num < step * 0x20_0000_0000_0000,
            step > 0,
    ;
    if e < f {
        assert(p >= 0x10_0000_0000_0000) by (nonlinear_arith)
            requires
                other == wide * p + other % wide,
                other % wide < wide,
                other >= wide * 0x10_0000_0000_0000,
                wide > 0,
        ;
    } else {
        vstd::arithmetic::div_mod::lemma_div_is_ordered(num as int, other as int, step as int);
    }
}

/// A value that a finite magnitude stands for is rounded to that magnitude.
pub proof fn lemma_rounding_exact(magnitude: nat)
    requires
        magnitude < INFINITY_MAGNITUDE,
    ensures
        nearest_magnitude(units(magnitude), 1) == magnitude,
{
    let (e, q) = if magnitude < FRACTION_RANGE {
        (0nat, magnitude)
    } else {
        (
            (magnitude / (FRACTION_RANGE as nat) - 1) as nat,
            (FRACTION_RANGE + magnitude % (FRACTION_RANGE as nat)) as nat,
        )
    };
    vstd::arithmetic::power2::lemma2_to64();
    lemma_pow2_pos(e);
    let step = 1 * pow2(e);
    assert(q * pow2(0) == q) by (nonlinear_arith)
        requires
            pow2(0) == 1,
    ;
    assert(units(magnitude) == q * step);
    assert(q * step < (q + 1) * step) by (nonlinear_arith)
        requires
            step > 0,
    ;
    lemma_nearest_magnitude(units(magnitude), 1, e, q);
}

/// What the magnitude at an exponent with a significand stands for.
proof fn lemma_units_at(e: nat, rounded: nat)
    requires
        rounded <= 0x20_0000_0000_0000,
        e > 0 ==> rounded >= 0x10_0000_0000_0000,
    ensures
        units((e * FRACTION_RANGE + rounded) as nat) == rounded * pow2(e),
{
    vstd::arithmetic::power2::lemma2_to64();
    let fr = FRACTION_RANGE as nat;
    let m = (e * FRACTION_RANGE + rounded) as nat;
    if e == 0 && rounded < fr {
        assert(rounded * pow2(0) == rounded) by (nonlinear_arith)
            requires
                pow2(0) == 1,
        ;
    } else if rounded < 2 * fr {
        let f = (rounded - fr) as nat;
        assert(m == (e + 1) * fr + f) by (nonlinear_arith)
            requires
                m == e * fr + rounded,
                rounded == fr + f,
        ;
        vstd::arithmetic::div_mod::lemma_fundamental_div_mod_converse(
            m as int,
            fr as int,
            e as int + 1,
            f as int,
        );
    } else {
        assert(m == (e + 2) * fr) by (nonlinear_arith)
            requires
                m == e * fr + rounded,
                rounded == 2 * fr,
        ;
        vstd::arithmetic::div_mod::lemma_fundamental_div_mod_converse(
            m as int,
            fr as int,
            e as int + 2,
            0,
        );
        lemma_pow2_unfold(e + 1);
        assert(fr * pow2(e + 1) == rounded * pow2(e)) by (nonlinear_arith)
            requires
                pow2(e + 1) == 2 * pow2(e),
                rounded == 2 * fr,
        ;
    }
}

/// A value and the finite one nearest to it differ by no more than one part in two to the power
/// of 53.
pub proof fn lemma_rounding_error(num: nat)
    requires
        nearest_magnitude(num, 1) < INFINITY_MAGNITUDE,
    ensures
        -num <= 0x20_0000_0000_0000 * (units(nearest_magnitude(num, 1)) - num) <= num,
{
    let e = rounding_exponent(num, 1);
    let step = 1 * pow2(e);
    let q = num / step;
    let rest = num % step;
    lemma_rounding_exponent_range(num, 1);
    lemma_pow2_pos(e);
    vstd::arithmetic::div_mod::lemma_fundamental_div_mod(num as int, step as int);
    assert(q < 0x20_0000_0000_0000) by (nonlinear_arith)
        requires
            num == step * q + rest,
            rest >= 0,
            num < step * 0x20_0000_0000_0000,
            step > 0,
    ;
    if e > 0 {
        assert(q >= 0x10_0000_0000_0000) by (nonlinear_arith)
            requires
                num == step * q + rest,
                rest < step,
                num >= step * 0x10_0000_0000_0000,
                step > 0,
        ;
    } else {
        vstd::arithmetic::power2::lemma2_to64();
    }
    let rounded = if goes_up(q, rest, step) {
        q + 1
    } else {
        q
    };
    lemma_units_at(e, rounded);
    let u = units(nearest_magnitude(num, 1));
    assert(u == rounded * step);
    assert((q + 1) * step == step * q + step && q * step == step * q) by (nonlinear_arith);
    let gap = u - num;
    assert(-step <= 2 * gap <= step);
    if e > 0 {
        assert(0x20_0000_0000_0000 * gap <= num && -num <= 0x20_0000_0000_0000 * gap)
            by (nonlinear_arith)
            requires
                -step <= 2 * gap <= step,
                num >= step * 0x10_0000_0000_0000,
        ;
    } else {
        assert(rest == 0);
        assert(gap == 0);
    }
}

/// A fraction and the finite value nearest to it differ by no more than one part in two to the power
/// of 53 of the fraction and half a unit.
pub proof fn lemma_rounding_error_of(num: nat, den: nat)
    requires
        den > 0,
        nearest_magnitude(num, den) < INFINITY_MAGNITUDE,
    ensures
        ({
            let gap = units(nearest_magnitude(num, den)) * den - num;
            let room = num + 0x10_0000_0000_0000 * den;
            -room <= 0x20_0000_0000_0000 * gap <= room
        }),
{
    let e = rounding_exponent(num, den);
    let step = den * pow2(e);
    let q = num / step;
    let rest = num % step;
    lemma_rounding_exponent_range(num, den);
    lemma_pow2_pos(e);
    assert(step > 0) by (nonlinear_arith)
        requires
            step == den * pow2(e),
            den > 0,
            pow2(e) > 0,
    ;
    vstd::arithmetic::div_mod::lemma_fundamental_div_mod(num as int, step as int);
    assert(q < 0x20_0000_0000_0000) by (nonlinear_arith)
        requires
            num == step * q + rest,
            rest >= 0,
            num < step * 0x20_0000_0000_0000,
            step > 0,
    ;
    if e > 0 {
        assert(q >= 0x10_0000_0000_0000) by (nonlinear_arith)
            requires
                num == step * q + rest,
                rest < step,
                num >= step * 0x10_0000_0000_0000,
                step > 0,
        ;
    } else {
        vstd::arithmetic::power2::lemma2_to64();
        assert(step == den) by (nonlinear_arith)
            requires
                step == den * pow2(e),
                pow2(e) == 1,
        ;
    }
    let rounded = if goes_up(q, rest, step) {
        q + 1
    } else {
        q
    };
    lemma_units_at(e, rounded);
    let u = units(nearest_magnitude(num, den));
    assert(u * den == rounded * step) by (nonlinear_arith)
        requires
            u == rounded * pow2(e),
            step == den * pow2(e),
    ;
    assert((q + 1) * step == step * q + step && q * step == step * q) by (nonlinear_arith);
    let gap = u * den - num;
    assert(-step <= 2 * gap <= step);
}

/// A fraction may be written with larger terms.
pub proof fn lemma_rounding_scaled(num: nat, den: nat, k: nat)
    requires
        den > 0,
        k > 0,
    ensures
        nearest_magnitude(num * k, den * k) == nearest_magnitude(num, den),
{
    let e = rounding_exponent(num, den);
    let step = den * pow2(e);
    let q = num / step;
    let rest = num % step;
    lemma_rounding_exponent_range(num, den);
    lemma_pow2_pos(e);
    assert(step > 0 && den * k > 0) by (nonlinear_arith)
        requires
            step == den * pow2(e),
            den > 0,
            k > 0,
            pow2(e) > 0,
    ;
    vstd::arithmetic::div_mod::lemma_fundamental_div_mod(num as int, step as int);
    assert(q < 0x20_0000_0000_0000) by (nonlinear_arith)
        requires
            num == step * q + rest,
            rest >= 0,
            num < step * 0x20_0000_0000_0000,
            step > 0,
    ;
    if e > 0 {
        assert(q >= 0x10_0000_0000_0000) by (nonlinear_arith)
            requires
                num == step * q + rest,
                rest < step,
                num >= step * 0x10_0000_0000_0000,
                step > 0,
        ;
    }
    let wide = (den * k) * pow2(e);
    assert(wide == step * k) by (nonlinear_arith)
        requires
            wide == (den * k) * pow2(e),
            step == den * pow2(e),
    ;
    assert(num * k - q * wide == rest * k && q * wide <= num * k && num * k < (q + 1) * wide)
        by (nonlinear_arith)
        requires
            wide == step * k,
            num == step * q + rest,
            0 <= rest < step,
            k > 0,
    ;
    lemma_nearest_magnitude(num * k, den * k, e, q);
    assert(2 * (rest * k) > step * k <==> 2 * rest > step) by (nonlinear_arith)
        requires
            k > 0,
    ;
    assert(2 * (rest * k) == step * k <==> 2 * rest == step) by (nonlinear_arith)
        requires
            k > 0,
    ;
}

/// Number of bits up to the highest set one.
fn bit_length(p: u128) -> (n: u32)
    ensures
        n <= 128,
        p < pow2(n as nat),
        n > 0 ==> p >= pow2((n - 1) as nat),
        p > 0 ==> n > 0,
{
    let mut n: u32 = 0;
    let mut rest: u128 = p;
    proof {
        vstd::arithmetic::power2::lemma2_to64();
        assert(rest * pow2(0) <= p) by (nonlinear_arith)
            requires
                pow2(0) == 1,
                rest == p,
        ;
        assert(p < (rest + 1) * pow2(0)) by (nonlinear_arith)
            requires
                pow2(0) == 1,
                rest == p,
        ;
    }
    while rest > 0
        invariant
            n <= 128,
            rest * pow2(n as nat) <= p < (rest + 1) * pow2(n as nat),
            n > 0 ==> p >= pow2((n - 1) as nat),
            p > 0 ==> (rest > 0 || n > 0),
        decreases rest,
    {
        let ghost before = rest;
        proof {
            lemma_pow2_unfold((n + 1) as nat);
            lemma_pow2_pos(n as nat);
            assert(p >= pow2(n as nat)) by (nonlinear_arith)
                requires
                    p >= rest * pow2(n as nat),
                    rest >= 1,
                    pow2(n as nat) > 0,
            ;
            if n == 128 {
                assert(pow2(128) == 0x1_0000_0000_0000_0000_0000_0000_0000_0000) by {
                    vstd::arithmetic::power2::lemma2_to64();
                    lemma_pow2_adds(64, 64);
                }
            }
        }
        rest = rest / 2;
        n = n + 1;
        proof {
            assert(rest * pow2(n as nat) <= before * pow2((n - 1) as nat)) by (nonlinear_arith)
                requires
                    2 * rest <= before,
                    pow2(n as nat) == 2 * pow2((n - 1) as nat),
                    pow2((n - 1) as nat) > 0,
            ;
            assert((before + 1) * pow2((n - 1) as nat) <= (rest + 1) * pow2(n as nat))
                by (nonlinear_arith)
                requires
                    before + 1 <= 2 * rest + 2,
                    pow2(n as nat) == 2 * pow2((n - 1) as nat),
                    pow2((n - 1) as nat) > 0,
            ;
        }
    }
    proof {
        assert((rest + 1) * pow2(n as nat) == pow2(n as nat)) by (nonlinear_arith)
            requires
                rest == 0,
        ;
    }
    n
}

/// Two to the power of `n`.
pub(crate) fn power_of_two(n: u32) -> (r: u128)
    requires
        n < 128,
    ensures
        r == pow2(n as nat),
{
    let mut r: u128 = 1;
    let mut i: u32 = 0;
    proof {
        vstd::arithmetic::power2::lemma2_to64();
    }
    while i < n
        invariant
            i <= n < 128,
            r == pow2(i as nat),
        decreases n - i,
    {
        proof {
            lemma_pow2_unfold((i + 1) as nat);
            assert(pow2(127) == 0x8000_0000_0000_0000_0000_0000_0000_0000) by {
                vstd::arithmetic::power2::lemma2_to64();
                vstd::arithmetic::power2::lemma2_to64_rest();
                lemma_pow2_adds(64, 63);
            }
            if i + 1 < 127 {
                lemma_pow2_strictly_increases((i + 1) as nat, 127);
            }
        }
        r = r * 2;
        i = i + 1;
    }
    r
}

/// The nearest magnitude of `num / den` units, from the whole part `p` of the fraction
/// `num / den` divided by two to the power of `up - down`, and whether there is a rest.
pub(crate) fn round_parts(
    p: u128,
    sticky: bool,
    up: u32,
    down: u32,
    Ghost(num): Ghost<nat>,
    Ghost(den): Ghost<nat>,
) -> (r: u64)
    requires
        den > 0,
        p < 0x4000_0000_0000_0000_0000_0000_0000_0000,
        up <= 5000,
        down <= 5000,
        p * (den * pow2(up as nat)) <= num * pow2(down as nat),
        num * pow2(down as nat) < (p + 1) * (den * pow2(up as nat)),
        sticky == (p * (den * pow2(up as nat)) != num * pow2(down as nat)),
        sticky ==> p >= 0x1000_0000_0000_0000,
    ensures
        r == nearest_magnitude(num, den),
{
    let ghost unit = den * pow2(up as nat);
    let ghost scaled = num * pow2(down as nat);
    proof {
        lemma_pow2_pos(up as nat);
        lemma_pow2_pos(down as nat);
        assert(unit > 0) by (nonlinear_arith)
            requires
                unit == den * pow2(up as nat),
                den > 0,
                pow2(up as nat) > 0,
        ;
    }
    if p == 0 {
        proof {
            assert(num == 0) by (nonlinear_arith)
                requires
                    num * pow2(down as nat) == 0 * unit,
                    pow2(down as nat) > 0,
            ;
            vstd::arithmetic::power2::lemma2_to64();
            assert(den * pow2(0) == den) by (nonlinear_arith)
                requires
                    pow2(0) == 1,
            ;
            assert(0 * (den * pow2(0)) <= num && num < (0 + 1) * (den * pow2(0)))
                by (nonlinear_arith)
                requires
                    den * pow2(0) == den,
                    num == 0,
                    den > 0,
            ;
            lemma_nearest_magnitude(num, den, 0, 0);
        }
        return 0;
    }
    let n: u32 = bit_length(p);
    let wanted: i32 = n as i32 + up as i32 - down as i32 - 53;
    let e: u32 = if wanted > 0 {
        wanted as u32
    } else {
        0
    };
    let t: i32 = e as i32 - (up as i32 - down as i32);
    proof {
        assert(pow2(52) == 0x10_0000_0000_0000 && pow2(53) == 0x20_0000_0000_0000 && pow2(60)
            == 0x1000_0000_0000_0000) by {
            vstd::arithmetic::power2::lemma2_to64_rest();
        }
        if p >= 0x1000_0000_0000_0000 && n <= 60 {
            if n < 60 {
                lemma_pow2_strictly_increases(n as nat, 60);
            }
        }
    }
    if t <= 0 {
        // The fraction is a whole number of steps.
        let shift: u32 = (-t) as u32;
        proof {
            assert(n + shift <= 53);
            lemma_pow2_adds(n as nat, shift as nat);
            lemma_pow2_pos(shift as nat);
            if n + shift < 53 {
                lemma_pow2_strictly_increases((n + shift) as nat, 53);
            }
            assert(p * pow2(shift as nat) < pow2(n as nat) * pow2(shift as nat))
                by (nonlinear_arith)
                requires
                    p < pow2(n as nat),
                    pow2(shift as nat) > 0,
            ;
        }
        let q: u128 = p * power_of_two(shift);
        let ghost step = den * pow2(e as nat);
        proof {
            if e > 0 {
                assert(n + shift == 53);
                lemma_pow2_adds((n - 1) as nat, shift as nat);
                assert(q >= pow2(52)) by (nonlinear_arith)
                    requires
                        q == p * pow2(shift as nat),
                        p >= pow2((n - 1) as nat),
                        pow2(52) == pow2((n - 1) as nat) * pow2(shift as nat),
                        pow2(shift as nat) > 0,
                ;
            }
            assert(up == shift + e + down);
            lemma_pow2_adds((shift + e) as nat, down as nat);
            lemma_pow2_adds(shift as nat, e as nat);
            assert(num == q * step) by (nonlinear_arith)
                requires
                    num * pow2(down as nat) == p * (den * pow2(up as nat)),
                    pow2(up as nat) == (pow2(shift as nat) * pow2(e as nat)) * pow2(down as nat),
                    q == p * pow2(shift as nat),
                    step == den * pow2(e as nat),
                    pow2(down as nat) > 0,
            {
                assert(p * (den * ((pow2(shift as nat) * pow2(e as nat)) * pow2(down as nat)))
                    == ((p * pow2(shift as nat)) * (den * pow2(e as nat))) * pow2(down as nat));
                assert(num * pow2(down as nat) == (q * step) * pow2(down as nat));
            }
            lemma_pow2_pos(e as nat);
            assert(step > 0 && num < (q + 1) * step) by (nonlinear_arith)
                requires
                    num == q * step,
                    step == den * pow2(e as nat),
                    den > 0,
                    pow2(e as nat) > 0,
            ;
            lemma_nearest_magnitude(num, den, e as nat, q as nat);
        }
        clamp_magnitude(e, q as u64)
    } else if t >= 128 {
        // Less than half a step.
        proof {
            lemma_pow2_strictly_increases(126, t as nat);
            assert(pow2(126) == 0x4000_0000_0000_0000_0000_0000_0000_0000 && pow2(127)
                == 0x8000_0000_0000_0000_0000_0000_0000_0000) by {
                vstd::arithmetic::power2::lemma2_to64();
                vstd::arithmetic::power2::lemma2_to64_rest();
                lemma_pow2_adds(64, 62);
                lemma_pow2_adds(64, 63);
            }
            lemma_pow2_strictly_increases(127, t as nat);
            if n > 126 {
                if n - 1 > 126 {
                    lemma_pow2_strictly_increases(126, (n - 1) as nat);
                }
            }
            assert(n <= 126);
            assert(e == 0);
            assert(up + t == down);
            lemma_pow2_adds(up as nat, t as nat);
            vstd::arithmetic::power2::lemma2_to64();
            assert(2 * num < den) by (nonlinear_arith)
                requires
                    num * pow2(down as nat) < (p + 1) * (den * pow2(up as nat)),
                    pow2(down as nat) == pow2(up as nat) * pow2(t as nat),
                    2 * (p + 1) <= pow2(t as nat),
                    pow2(up as nat) > 0,
                    pow2(t as nat) > 0,
                    den > 0,
            {
                let u = pow2(up as nat);
                let d = pow2(down as nat);
                let w = pow2(t as nat);
                assert(2 * (num * d) < (2 * (p + 1)) * (den * u));
                assert((2 * (p + 1)) * (den * u) <= w * (den * u));
                assert(w * (den * u) == den * d);
                assert((2 * num) * d < den * d);
            }
            assert(den * pow2(0) == den) by (nonlinear_arith)
                requires
                    pow2(0) == 1,
            ;
            assert(0 * (den * pow2(0)) <= num && num < (0 + 1) * (den * pow2(0)))
                by (nonlinear_arith)
                requires
                    den * pow2(0) == den,
                    2 * num < den,
            ;
            lemma_nearest_magnitude(num, den, 0, 0);
        }
        0
    } else {
        let step: u128 = power_of_two(t as u32);
        proof {
            lemma_pow2_pos(t as nat);
        }
        let q: u128 = p / step;
        let rest: u128 = p % step;
        proof {
            lemma_pow2_pos(t as nat);
            lemma_pow2_unfold(t as nat);
            vstd::arithmetic::div_mod::lemma_fundamental_div_mod(p as int, step as int);
            assert(q * step + rest == p) by (nonlinear_arith)
                requires
                    p == step * q + rest,
            ;
            assert((q + 1) * step == q * step + step) by (nonlinear_arith);
            // The quotient has at most 53 bits.
            assert(n - t <= 53);
            if n - t >= 0 {
                lemma_pow2_adds((n - t) as nat, t as nat);
                if n - t < 53 {
                    lemma_pow2_strictly_increases((n - t) as nat, 53);
                }
                assert(q < pow2((n - t) as nat)) by (nonlinear_arith)
                    requires
                        q * step <= p,
                        p < pow2((n - t) as nat) * step,
                        step > 0,
                ;
            } else {
                lemma_pow2_strictly_increases(n as nat, t as nat);
                assert(q == 0) by (nonlinear_arith)
                    requires
                        q * step <= p,
                        p < step,
                        q >= 0,
                ;
            }
            assert(q < 0x20_0000_0000_0000);
            if e > 0 {
                assert(n - t == 53);
                lemma_pow2_adds(52, t as nat);
                assert(q >= 0x10_0000_0000_0000) by (nonlinear_arith)
                    requires
                        p >= 0x10_0000_0000_0000 * step,
                        p < (q + 1) * step,
                        step > 0,
                ;
            }
        }
        let half: u128 = step / 2;
        let carry: bool = rest > half || (rest == half && (sticky || q % 2 == 1));
        let rounded: u128 = if carry {
            q + 1
        } else {
            q
        };
        proof {
            let whole = den * pow2(e as nat);
            let d = pow2(down as nat);
            // One step of the result is `step` units of `p`.
            assert(e + down == t + up);
            lemma_pow2_adds(e as nat, down as nat);
            lemma_pow2_adds(t as nat, up as nat);
            assert(whole * d == step * unit) by (nonlinear_arith)
                requires
                    whole == den * pow2(e as nat),
                    unit == den * pow2(up as nat),
                    pow2(e as nat) * d == step * pow2(up as nat),
            {
                assert(whole * d == den * (pow2(e as nat) * d));
                assert(step * unit == den * (step * pow2(up as nat)));
            }
            assert(q * whole <= num && num < (q + 1) * whole) by (nonlinear_arith)
                requires
                    p * unit <= scaled,
                    scaled < (p + 1) * unit,
                    scaled == num * d,
                    whole * d == step * unit,
                    q * step <= p,
                    p + 1 <= (q + 1) * step,
                    unit > 0,
                    d > 0,
            {
                assert((q * step) * unit <= p * unit);
                assert((q * whole) * d == (q * step) * unit);
                assert((q * whole) * d <= num * d);
                assert((p + 1) * unit <= ((q + 1) * step) * unit);
                assert(((q + 1) * whole) * d == ((q + 1) * step) * unit);
                assert(num * d < ((q + 1) * whole) * d);
            }
            lemma_nearest_magnitude(num, den, e as nat, q as nat);
            let left = (num - q * whole) as nat;
            // The rest, in units of `p`.
            assert(left * d == scaled - (q * step) * unit) by (nonlinear_arith)
                requires
                    left == num - q * whole,
                    scaled == num * d,
                    whole * d == step * unit,
            {
                assert((num - q * whole) * d == num * d - (q * whole) * d);
                assert((q * whole) * d == q * (whole * d));
                assert(q * (step * unit) == (q * step) * unit);
            }
            assert(rest * unit <= left * d && left * d < (rest + 1) * unit) by (nonlinear_arith)
                requires
                    left * d == scaled - (q * step) * unit,
                    p * unit <= scaled,
                    scaled < (p + 1) * unit,
                    p == q * step + rest,
            {
                assert(p * unit == (q * step) * unit + rest * unit);
                assert((p + 1) * unit == (q * step) * unit + (rest + 1) * unit);
            }
            assert(sticky == (rest * unit != left * d)) by {
                assert(p * unit == (q * step) * unit + rest * unit) by (nonlinear_arith)
                    requires
                        p == q * step + rest,
                ;
            }
            lemma_compare_halves(rest as nat, half as nat, unit, left, whole, d, sticky);
            assert(carry == goes_up(q as nat, left, whole));
        }
        clamp_magnitude(e, rounded as u64)
    }
}

/// A rest compared with half a step, in two scales.
proof fn lemma_compare_halves(
    rest: nat,
    half: nat,
    unit: nat,
    left: nat,
    whole: nat,
    d: nat,
    sticky: bool,
)
    requires
        unit > 0,
        d > 0,
        whole * d == (2 * half) * unit,
        rest * unit <= left * d < (rest + 1) * unit,
        sticky == (rest * unit != left * d),
    ensures
        2 * left > whole <==> (rest > half || (rest == half && sticky)),
        2 * left == whole <==> (rest == half && !sticky),
{
    assert((2 * left) * d == 2 * (left * d)) by (nonlinear_arith);
    assert((2 * half) * unit == 2 * (half * unit)) by (nonlinear_arith);
    if rest > half {
        assert(rest * unit >= (half + 1) * unit) by (nonlinear_arith)
            requires
                rest >= half + 1,
        ;
        assert((half + 1) * unit == half * unit + unit) by (nonlinear_arith);
    } else if rest < half {
        assert((rest + 1) * unit <= half * unit) by (nonlinear_arith)
            requires
                rest + 1 <= half,
        ;
    }
    assert((2 * left) * d > whole * d <==> 2 * left > whole) by (nonlinear_arith)
        requires
            d > 0,
    ;
    assert((2 * left) * d == whole * d <==> 2 * left == whole) by (nonlinear_arith)
        requires
            d > 0,
    ;
}

/// The magnitude at exponent `e` with significand `rounded`, infinity when it is too large.
fn clamp_magnitude(e: u32, rounded: u64) -> (r: u64)
    requires
        e <= 6000,
        rounded <= 0x20_0000_0000_0000,
    ensures
        r as int == (if e * FRACTION_RANGE + rounded < INFINITY_MAGNITUDE {
            e * FRACTION_RANGE + rounded
        } else {
            INFINITY_MAGNITUDE as int
        }),
{
    if e > 2047 {
        return INFINITY_MAGNITUDE;
    }
    let magnitude: u128 = e as u128 * 0x10_0000_0000_0000 + rounded as u128;
    if magnitude < INFINITY_MAGNITUDE as u128 {
        magnitude as u64
    } else {
        INFINITY_MAGNITUDE
    }
}

} // verus!
