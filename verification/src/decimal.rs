//! Decimal amounts: a whole number and the number of decimal places it is scaled down by.
//!
//! The arithmetic is that of `rust_decimal`. An amount is handed to it as the whole number and
//! the scale, and comes back as the same two.
use crate::double::{at_most, nearest, one, unit_exponent, zero, Double};
use crate::text::{digits_value, lemma_all_digits, lemma_number_text, number_text};
use rust_decimal::prelude::ToPrimitive;
use rust_decimal::Decimal;
use vstd::arithmetic::div_mod::{
    lemma_div_pos_is_pos, lemma_fundamental_div_mod, lemma_mod_bound, lemma_mod_breakdown,
};
use vstd::arithmetic::power::{lemma_pow0, lemma_pow1, lemma_pow_adds, lemma_pow_positive, pow};
use vstd::arithmetic::power2::{lemma_pow2_pos, pow2};
use vstd::prelude::*;

verus! {

/// The largest whole number that an amount holds: 96 bits.
pub const MAX_MANTISSA: i128 = 79_228_162_514_264_337_593_543_950_335;

/// The largest number of decimal places.
pub const MAX_SCALE: u32 = 28;

/// Whether a whole number and a scale are those of an amount.
pub open spec fn in_range(mantissa: int, scale: int) -> bool {
    -MAX_MANTISSA <= mantissa <= MAX_MANTISSA && 0 <= scale <= MAX_SCALE
}

/// Whether `a` is less than `b`, each a whole number and a scale.
pub open spec fn decimal_less(a: (int, int), b: (int, int)) -> bool {
    a.0 * pow(10, b.1 as nat) < b.0 * pow(10, a.1 as nat)
}

/// A decimal amount.
#[derive(Clone, Copy, Debug)]
pub struct Amount {
    mantissa: i128,
    scale: u32,
}

/// `Decimal::cmp` by way of `<`: the order of the two values. Both must be in range.
#[verifier::external_body]
fn decimal_lt(am: i128, a_scale: u32, bm: i128, b_scale: u32) -> (r: bool)
    requires
        in_range(am as int, a_scale as int),
        in_range(bm as int, b_scale as int),
    ensures
        r == decimal_less((am as int, a_scale as int), (bm as int, b_scale as int)),
{
    Decimal::from_i128_with_scale(am, a_scale) < Decimal::from_i128_with_scale(bm, b_scale)
}

/// The larger of two numbers of decimal places.
pub open spec fn common_places(a: (int, int), b: (int, int)) -> int {
    if a.1 < b.1 {
        b.1
    } else {
        a.1
    }
}

/// The whole number of an amount that is written with more decimal places.
pub open spec fn with_places(a: (int, int), places: int) -> int {
    a.0 * pow(10, (places - a.1) as nat)
}

/// Whether two amounts have the same value.
pub open spec fn same_value(a: (int, int), b: (int, int)) -> bool {
    a.0 * pow(10, b.1 as nat) == b.0 * pow(10, a.1 as nat)
}

/// Whether two amounts, and the whole number `n`, fit when they are written with as many decimal
/// places as the one of the two that has more.
pub open spec fn fit_together(a: (int, int), b: (int, int), n: int) -> bool {
    &&& a.1 >= 0 && b.1 >= 0
    &&& in_range(with_places(a, common_places(a, b)), common_places(a, b))
    &&& in_range(with_places(b, common_places(a, b)), common_places(a, b))
    &&& in_range(n, common_places(a, b))
}

/// The sum of two amounts, written with as many decimal places as the one that has more.
pub open spec fn exact_sum(a: (int, int), b: (int, int)) -> (int, int) {
    (with_places(a, common_places(a, b)) + with_places(b, common_places(a, b)), common_places(a, b))
}

/// The difference of two amounts, written with as many decimal places as the one that has more.
pub open spec fn exact_difference(a: (int, int), b: (int, int)) -> (int, int) {
    (with_places(a, common_places(a, b)) - with_places(b, common_places(a, b)), common_places(a, b))
}

/// Whether no digit is lost in a sum: one of the amounts is zero, or all digits fit.
pub open spec fn sums_exactly(a: (int, int), b: (int, int)) -> bool {
    a.0 == 0 || b.0 == 0 || fit_together(a, b, exact_sum(a, b).0)
}

/// What `Decimal::checked_add` makes of a sum in which digits are lost, none when it is too large.
pub uninterp spec fn rounded_sum(a: (int, int), b: (int, int)) -> Option<(int, int)>;

/// The sum of two amounts: the other one of zero and an amount, the exact sum where all digits fit.
pub open spec fn decimal_sum(a: (int, int), b: (int, int)) -> Option<(int, int)> {
    if a.0 == 0 {
        Some(b)
    } else if b.0 == 0 {
        Some(a)
    } else if fit_together(a, b, exact_sum(a, b).0) {
        Some(exact_sum(a, b))
    } else {
        rounded_sum(a, b)
    }
}

/// `Decimal::checked_add`: the other one of zero and an amount, and the exact sum where all digits
/// fit. A sum in which digits are lost is in range where there is one; it depends on the two amounts
/// alone and is named, not described.
#[verifier::external_body]
fn decimal_add(am: i128, a_scale: u32, bm: i128, b_scale: u32) -> (r: Option<(i128, u32)>)
    requires
        in_range(am as int, a_scale as int),
        in_range(bm as int, b_scale as int),
    ensures
        sums_exactly((am as int, a_scale as int), (bm as int, b_scale as int)) ==> pair_of(r)
            == decimal_sum((am as int, a_scale as int), (bm as int, b_scale as int)),
        !sums_exactly((am as int, a_scale as int), (bm as int, b_scale as int)) ==> pair_of(r)
            == rounded_sum((am as int, a_scale as int), (bm as int, b_scale as int)),
        r matches Some(d) ==> in_range(d.0 as int, d.1 as int),
{
    let a = Decimal::from_i128_with_scale(am, a_scale);
    let b = Decimal::from_i128_with_scale(bm, b_scale);
    match a.checked_add(b) {
        Some(d) => Some((d.mantissa(), d.scale())),
        None => None,
    }
}

/// Whether no digit is lost in a difference: one of the amounts is zero, or all digits fit.
pub open spec fn differs_exactly(a: (int, int), b: (int, int)) -> bool {
    a.0 == 0 || b.0 == 0 || fit_together(a, b, exact_difference(a, b).0)
}

/// What `Decimal::checked_sub` makes of a difference in which digits are lost, none when it is too
/// large.
pub uninterp spec fn rounded_difference(a: (int, int), b: (int, int)) -> Option<(int, int)>;

/// The difference of two amounts: the opposite of what is taken from zero, the exact difference
/// where all digits fit.
pub open spec fn decimal_difference(a: (int, int), b: (int, int)) -> Option<(int, int)> {
    if a.0 == 0 {
        Some((-b.0, b.1))
    } else if b.0 == 0 {
        Some(a)
    } else if fit_together(a, b, exact_difference(a, b).0) {
        Some(exact_difference(a, b))
    } else {
        rounded_difference(a, b)
    }
}

/// `Decimal::checked_sub`: the opposite of what is taken from zero, and the exact difference where
/// all digits fit. A difference in which digits are lost is in range where there is one; it depends
/// on the two amounts alone and is named, not described.
#[verifier::external_body]
fn decimal_sub(am: i128, a_scale: u32, bm: i128, b_scale: u32) -> (r: Option<(i128, u32)>)
    requires
        in_range(am as int, a_scale as int),
        in_range(bm as int, b_scale as int),
    ensures
        differs_exactly((am as int, a_scale as int), (bm as int, b_scale as int)) ==> pair_of(r)
            == decimal_difference((am as int, a_scale as int), (bm as int, b_scale as int)),
        !differs_exactly((am as int, a_scale as int), (bm as int, b_scale as int)) ==> pair_of(r)
            == rounded_difference((am as int, a_scale as int), (bm as int, b_scale as int)),
        r matches Some(d) ==> in_range(d.0 as int, d.1 as int),
{
    let a = Decimal::from_i128_with_scale(am, a_scale);
    let b = Decimal::from_i128_with_scale(bm, b_scale);
    match a.checked_sub(b) {
        Some(d) => Some((d.mantissa(), d.scale())),
        None => None,
    }
}

/// An amount has the same value with more decimal places.
proof fn lemma_with_places(a: (int, int), places: int)
    requires
        0 <= a.1 <= places,
    ensures
        with_places(a, places) * pow(10, a.1 as nat) == a.0 * pow(10, places as nat),
{
    let up = pow(10, (places - a.1) as nat);
    let down = pow(10, a.1 as nat);
    lemma_pow_adds(10, (places - a.1) as nat, a.1 as nat);
    let m = a.0;
    assert((m * up) * down == m * (up * down)) by (nonlinear_arith);
}

/// A sum has the value of the exact sum where all digits fit.
pub proof fn lemma_sum_value(a: (int, int), b: (int, int))
    requires
        fit_together(a, b, exact_sum(a, b).0),
    ensures
        decimal_sum(a, b) is Some,
        same_value(decimal_sum(a, b)->0, exact_sum(a, b)),
{
    let p = common_places(a, b);
    lemma_with_places(a, p);
    lemma_with_places(b, p);
    if a.0 == 0 {
        assert(0 * pow(10, (p - a.1) as nat) == 0) by (nonlinear_arith);
    } else if b.0 == 0 {
        assert(0 * pow(10, (p - b.1) as nat) == 0) by (nonlinear_arith);
    }
}

/// A difference has the value of the exact difference where all digits fit.
pub proof fn lemma_difference_value(a: (int, int), b: (int, int))
    requires
        fit_together(a, b, exact_difference(a, b).0),
    ensures
        decimal_difference(a, b) is Some,
        same_value(decimal_difference(a, b)->0, exact_difference(a, b)),
{
    let p = common_places(a, b);
    lemma_with_places(a, p);
    lemma_with_places(b, p);
    if a.0 == 0 {
        assert(0 * pow(10, (p - a.1) as nat) == 0) by (nonlinear_arith);
        let m = b.0;
        let whole = pow(10, p as nat);
        let w = with_places(b, p);
        let down = pow(10, b.1 as nat);
        assert((-m) * whole == (0 - w) * down) by (nonlinear_arith)
            requires
                w * down == m * whole,
        ;
    } else if b.0 == 0 {
        assert(0 * pow(10, (p - b.1) as nat) == 0) by (nonlinear_arith);
    }
}

/// Whether a division leaves no digit open: one of the amounts is zero, or the whole number of the
/// divisor divides that of the dividend, which has at least as many decimal places.
pub open spec fn divides_exactly(a: (int, int), b: (int, int)) -> bool {
    a.0 == 0 || b.0 == 0 || (a.0 % b.0 == 0 && a.1 >= b.1)
}

/// What `Decimal::checked_div` makes of any other division, none when the quotient does not fit.
pub uninterp spec fn rounded_quotient(a: (int, int), b: (int, int)) -> Option<(int, int)>;

/// The quotient of two amounts: none for a zero divisor, zero of zero, and the quotient of the whole
/// numbers where it is one.
pub open spec fn decimal_quotient(a: (int, int), b: (int, int)) -> Option<(int, int)> {
    if b.0 == 0 {
        None
    } else if a.0 == 0 {
        Some(zero_amount())
    } else if a.0 % b.0 == 0 && a.1 >= b.1 {
        Some((a.0 / b.0, a.1 - b.1))
    } else {
        rounded_quotient(a, b)
    }
}

/// `Decimal::checked_div`: none for a zero divisor, zero of zero, and the quotient of the whole
/// numbers where it is one. Any other quotient is in range where there is one; it depends on the two
/// amounts alone and is named, not described.
#[verifier::external_body]
fn decimal_div(am: i128, a_scale: u32, bm: i128, b_scale: u32) -> (r: Option<(i128, u32)>)
    requires
        in_range(am as int, a_scale as int),
        in_range(bm as int, b_scale as int),
    ensures
        divides_exactly((am as int, a_scale as int), (bm as int, b_scale as int)) ==> pair_of(r)
            == decimal_quotient((am as int, a_scale as int), (bm as int, b_scale as int)),
        !divides_exactly((am as int, a_scale as int), (bm as int, b_scale as int)) ==> pair_of(r)
            == rounded_quotient((am as int, a_scale as int), (bm as int, b_scale as int)),
        r matches Some(d) ==> in_range(d.0 as int, d.1 as int),
{
    let a = Decimal::from_i128_with_scale(am, a_scale);
    let b = Decimal::from_i128_with_scale(bm, b_scale);
    match a.checked_div(b) {
        Some(d) => Some((d.mantissa(), d.scale())),
        None => None,
    }
}

/// The last `places` decimal digits of a number, zeros before it where it has fewer.
pub open spec fn last_digits(n: nat, places: nat) -> Seq<char>
    decreases places,
{
    if places == 0 {
        Seq::empty()
    } else {
        last_digits(n / 10, (places - 1) as nat).push((n % 10 + '0' as int) as char)
    }
}

/// The text of an amount: a sign before a negative one, the digits before the point, and as many
/// after it as there are decimal places.
pub open spec fn decimal_text(mantissa: int, scale: int) -> Seq<char> {
    let n = if mantissa < 0 {
        -mantissa
    } else {
        mantissa
    };
    let sign = if mantissa < 0 {
        seq!['-']
    } else {
        Seq::empty()
    };
    let whole = number_text((n / pow(10, scale as nat)) as nat);
    if scale == 0 {
        sign + whole
    } else {
        sign + whole + seq!['.'] + last_digits(n as nat, scale as nat)
    }
}

/// `Display` of `Decimal`: the digits of the amount, with all of its decimal places.
#[verifier::external_body]
fn decimal_display(mantissa: i128, scale: u32) -> (r: String)
    requires
        in_range(mantissa as int, scale as int),
    ensures
        r@ == decimal_text(mantissa as int, scale as int),
{
    Decimal::from_i128_with_scale(mantissa, scale).to_string()
}

/// The last digits of a number stand for its remainder.
proof fn lemma_last_digits(n: nat, places: nat)
    ensures
        last_digits(n, places).len() == places,
        digits_value(last_digits(n, places)) == Some((n as int % pow(10, places)) as nat),
    decreases places,
{
    lemma_pow_positive(10, places);
    if places == 0 {
        lemma_pow0(10);
    } else {
        let before = (places - 1) as nat;
        let head = last_digits(n / 10, before);
        let all = last_digits(n, places);
        lemma_last_digits(n / 10, before);
        lemma_pow_positive(10, before);
        lemma_pow1(10);
        lemma_pow_adds(10, 1, before);
        assert(all.drop_last() =~= head);
        lemma_mod_breakdown(n as int, 10, pow(10, before));
    }
}

/// Whether a text is that of an amount.
pub open spec fn is_text_of(text: Seq<char>, mantissa: int, scale: int) -> bool {
    in_range(mantissa, scale) && text == decimal_text(mantissa, scale)
}

/// The parts of the text of an amount: how long the sign is, the digits before the point, and those
/// after it.
proof fn lemma_decimal_text(mantissa: int, scale: int)
    requires
        scale >= 0,
    ensures
        ({
            let text = decimal_text(mantissa, scale);
            let n = if mantissa < 0 {
                -mantissa
            } else {
                mantissa
            };
            let from: int = if mantissa < 0 {
                1
            } else {
                0
            };
            let point = if scale == 0 {
                text.len() as int
            } else {
                text.len() - 1 - scale
            };
            &&& from < point
            &&& mantissa < 0 <==> text[0] == '-'
            &&& digits_value(text.subrange(from, point)) == Some((n / pow(10, scale as nat)) as nat)
            &&& scale > 0 ==> text[point] == '.' && digits_value(
                text.subrange(point + 1, text.len() as int),
            ) == Some((n % pow(10, scale as nat)) as nat)
            &&& n / pow(10, scale as nat) >= 0
        }),
{
    let text = decimal_text(mantissa, scale);
    let n = if mantissa < 0 {
        -mantissa
    } else {
        mantissa
    };
    let p = pow(10, scale as nat);
    lemma_pow_positive(10, scale as nat);
    lemma_div_pos_is_pos(n, p);
    let whole = number_text((n / p) as nat);
    let tail = last_digits(n as nat, scale as nat);
    lemma_number_text((n / p) as nat);
    lemma_last_digits(n as nat, scale as nat);
    let from: int = if mantissa < 0 {
        1
    } else {
        0
    };
    assert(text.subrange(from, from + whole.len()) =~= whole);
    assert(text[from] == whole[0]);
    if scale > 0 {
        assert(text.len() == from + whole.len() + 1 + scale);
        assert(text.subrange(from + whole.len() + 1, text.len() as int) =~= tail);
    }
}

/// A text is that of one amount at most.
pub proof fn lemma_text_of_one(text: Seq<char>, m: int, s: int, m2: int, s2: int)
    requires
        is_text_of(text, m, s),
        is_text_of(text, m2, s2),
    ensures
        m == m2,
        s == s2,
{
    lemma_decimal_text(m, s);
    lemma_decimal_text(m2, s2);
    let len = text.len() as int;
    let from: int = if m < 0 {
        1
    } else {
        0
    };
    let point = if s == 0 {
        len
    } else {
        len - 1 - s
    };
    let point2 = if s2 == 0 {
        len
    } else {
        len - 1 - s2
    };
    lemma_all_digits(text.subrange(from, point));
    lemma_all_digits(text.subrange(from, point2));
    if point < point2 {
        assert(text.subrange(from, point2)[point - from] == text[point]);
    }
    if point2 < point {
        assert(text.subrange(from, point)[point2 - from] == text[point2]);
    }
    assert(s == s2);
    let p = pow(10, s as nat);
    let n = if m < 0 {
        -m
    } else {
        m
    };
    let n2 = if m2 < 0 {
        -m2
    } else {
        m2
    };
    lemma_pow_positive(10, s as nat);
    assert(n / p == n2 / p);
    if s == 0 {
        lemma_pow0(10);
        assert(n / 1 == n && n2 / 1 == n2);
    } else {
        lemma_mod_bound(n, p);
        lemma_mod_bound(n2, p);
        assert(n % p == n2 % p);
        lemma_fundamental_div_mod(n, p);
        lemma_fundamental_div_mod(n2, p);
    }
}

/// What `Decimal::from_str` makes of a text that is not that of an amount: an amount all the same,
/// or the message of the error.
pub uninterp spec fn parsed_otherwise(text: Seq<char>) -> Result<(int, int), Seq<char>>;

/// What a text stands for: the amount that it is the text of, or else what `Decimal::from_str` makes
/// of it.
pub open spec fn parsed_decimal(text: Seq<char>) -> Result<(int, int), Seq<char>> {
    if exists|m: int, s: int| is_text_of(text, m, s) {
        Ok(choose|m: int, s: int| is_text_of(text, m, s))
    } else {
        parsed_otherwise(text)
    }
}

/// The text of an amount is read back as the amount.
pub proof fn lemma_amount_read_back(m: int, s: int)
    requires
        in_range(m, s),
    ensures
        parsed_decimal(decimal_text(m, s)) == Ok::<(int, int), Seq<char>>((m, s)),
{
    let text = decimal_text(m, s);
    assert(is_text_of(text, m, s));
    let (m2, s2) = choose|m: int, s: int| is_text_of(text, m, s);
    lemma_text_of_one(text, m, s, m2, s2);
}

/// Whether a text was read as an amount with these parts.
pub open spec fn reads_as(r: Result<(i128, u32), String>, mantissa: int, scale: int) -> bool {
    match r {
        Ok(d) => d.0 == mantissa && d.1 == scale,
        Err(_) => false,
    }
}

/// What was read of a text, as values.
pub open spec fn read_view(r: Result<(i128, u32), String>) -> Result<(int, int), Seq<char>> {
    match r {
        Ok(d) => Ok((d.0 as int, d.1 as int)),
        Err(e) => Err(e@),
    }
}

/// `Decimal::from_str` by way of `str::parse`, the error by its message. An amount is in range, and
/// the text of an amount is read back as that amount. What becomes of any other text depends on the
/// text alone; it is named, not described.
#[verifier::external_body]
fn decimal_parse(text: &str) -> (r: Result<(i128, u32), String>)
    ensures
        r matches Ok(d) ==> in_range(d.0 as int, d.1 as int),
        forall|m: int, s: int| #[trigger] is_text_of(text@, m, s) ==> reads_as(r, m, s),
        (forall|m: int, s: int| !is_text_of(text@, m, s)) ==> read_view(r) == parsed_otherwise(text@),
{
    match text.parse::<Decimal>() {
        Ok(d) => Ok((d.mantissa(), d.scale())),
        Err(e) => Err(e.to_string()),
    }
}

/// How many times a deviation from an amount fits into the amount at least.
pub const CLOSENESS: u64 = 0x100_0000_0000;

/// Whether a whole number is close to another: within one part in two to the power of forty.
pub open spec fn is_close(n: int, exact: int) -> bool {
    if exact < 0 {
        exact <= CLOSENESS * (n - exact) <= -exact
    } else {
        -exact <= CLOSENESS * (n - exact) <= exact
    }
}

/// Whether a number may stand for an amount: it is finite and close to it, it is the nearest one to
/// an amount without a fraction, and for an amount from zero to one it is a number from zero to one.
pub open spec fn stands_for(number: Double, amount: (int, int)) -> bool {
    &&& number.finite()
    &&& is_close(
        number.value() * pow(10, amount.1 as nat),
        amount.0 * pow2(unit_exponent()),
    )
    &&& amount.0 % pow(10, amount.1 as nat) == 0 ==> number == nearest(
        amount.0 / pow(10, amount.1 as nat) * pow2(unit_exponent()),
        false,
    )
    &&& 0 <= amount.0 <= pow(10, amount.1 as nat) ==> at_most(zero(), number) && at_most(
        number,
        one(),
    )
}

/// A number that stands for an amount has its sign, and is zero only for zero.
pub proof fn lemma_number_sign(number: Double, amount: (int, int))
    requires
        stands_for(number, amount),
    ensures
        number.value() > 0 <==> amount.0 > 0,
        number.value() == 0 <==> amount.0 == 0,
{
    let p = pow(10, amount.1 as nat);
    let u = pow2(unit_exponent()) as int;
    lemma_pow_positive(10, amount.1 as nat);
    lemma_pow2_pos(unit_exponent());
    let n = number.value();
    let m = amount.0;
    assert(m > 0 ==> m * u > 0) by (nonlinear_arith)
        requires
            u > 0,
    ;
    assert(m < 0 ==> m * u < 0) by (nonlinear_arith)
        requires
            u > 0,
    ;
    assert(m == 0 ==> m * u == 0) by (nonlinear_arith);
    assert(n > 0 ==> n * p > 0) by (nonlinear_arith)
        requires
            p > 0,
    ;
    assert(n < 0 ==> n * p < 0) by (nonlinear_arith)
        requires
            p > 0,
    ;
    assert(n == 0 ==> n * p == 0) by (nonlinear_arith);
}

/// The number that stands for zero is zero, without a sign.
pub proof fn lemma_zero_number(number: Double, amount: (int, int))
    requires
        stands_for(number, amount),
        amount.0 == 0,
    ensures
        number == zero(),
{
    let p = pow(10, amount.1 as nat);
    lemma_pow_positive(10, amount.1 as nat);
    vstd::arithmetic::div_mod::lemma_small_mod(0, p as nat);
    vstd::arithmetic::div_mod::lemma_basic_div(0, p);
    assert(0 * pow2(unit_exponent()) == 0) by (nonlinear_arith);
}

/// `Decimal::to_f64`: every amount has a finite binary64 number that is close to it, an amount
/// without a fraction the nearest one, and an amount from zero to one a number from zero to one: the
/// fraction is a quotient of at most one, and the digits it is then rounded to end at one too. Which
/// one of those close to an amount with a fraction it is stays open: the conversion goes through
/// `f64::powi`, whose last digits std does not fix; the bound leaves twelve binary digits for them.
#[verifier::external_body]
fn decimal_to_double(mantissa: i128, scale: u32) -> (r: Option<u64>)
    requires
        in_range(mantissa as int, scale as int),
    ensures
        r is Some,
        stands_for(Double { bits: r->0 }, (mantissa as int, scale as int)),
{
    match Decimal::from_i128_with_scale(mantissa, scale).to_f64() {
        Some(x) => Some(x.to_bits()),
        None => None,
    }
}

/// A whole number and a scale as mathematical numbers.
pub open spec fn pair_of(d: Option<(i128, u32)>) -> Option<(int, int)> {
    match d {
        Some(d) => Some((d.0 as int, d.1 as int)),
        None => None,
    }
}

/// The parts of an optional amount.
pub open spec fn parts_of(a: Option<Amount>) -> Option<(int, int)> {
    match a {
        Some(a) => Some(a@),
        None => None,
    }
}

impl View for Amount {
    type V = (int, int);

    /// The whole number and the scale.
    closed spec fn view(&self) -> (int, int) {
        (self.mantissa as int, self.scale as int)
    }
}

/// The parts of zero.
pub open spec fn zero_amount() -> (int, int) {
    (0, 0)
}

/// Zero if `a` is below it, `a` otherwise.
pub open spec fn at_least_zero(a: (int, int)) -> (int, int) {
    if decimal_less(a, zero_amount()) {
        zero_amount()
    } else {
        a
    }
}

/// An amount is below zero where its whole number is.
pub proof fn lemma_below_zero(a: (int, int))
    ensures
        decimal_less(a, zero_amount()) <==> a.0 < 0,
{
    let p = pow(10, a.1 as nat);
    lemma_pow0(10);
    assert(0 * p == 0) by (nonlinear_arith);
    assert(a.0 * 1 == a.0) by (nonlinear_arith);
}

/// Amounts of the same value have the same sign.
pub proof fn lemma_same_sign(a: (int, int), b: (int, int))
    requires
        same_value(a, b),
        b.0 >= 0,
    ensures
        a.0 >= 0,
{
    lemma_pow_positive(10, a.1 as nat);
    lemma_pow_positive(10, b.1 as nat);
    let pa = pow(10, a.1 as nat);
    let pb = pow(10, b.1 as nat);
    assert(a.0 >= 0) by (nonlinear_arith)
        requires
            a.0 * pb == b.0 * pa,
            b.0 >= 0,
            pa > 0,
            pb > 0,
    ;
}

/// The smaller of two amounts, the first of two that are equal.
pub open spec fn smaller_amount(a: (int, int), b: (int, int)) -> (int, int) {
    if decimal_less(b, a) {
        b
    } else {
        a
    }
}

impl Amount {
    #[verifier::type_invariant]
    spec fn valid(self) -> bool {
        in_range(self.mantissa as int, self.scale as int)
    }

    /// The amount `mantissa` scaled down by `scale` places, none when it is out of range.
    pub fn new(mantissa: i128, scale: u32) -> (r: Option<Amount>)
        ensures
            r is Some <==> in_range(mantissa as int, scale as int),
            r matches Some(a) ==> a@ == (mantissa as int, scale as int),
    {
        if -MAX_MANTISSA <= mantissa && mantissa <= MAX_MANTISSA && scale <= MAX_SCALE {
            Some(Amount { mantissa, scale })
        } else {
            None
        }
    }

    /// A small whole number scaled down by a small number of places.
    pub(crate) fn small(mantissa: u32, scale: u8) -> (r: Amount)
        requires
            scale <= MAX_SCALE,
        ensures
            r@ == (mantissa as int, scale as int),
    {
        Amount { mantissa: mantissa as i128, scale: scale as u32 }
    }

    /// Zero.
    pub fn zero() -> (r: Amount)
        ensures
            r@ == zero_amount(),
    {
        Amount { mantissa: 0, scale: 0 }
    }

    /// The whole number.
    pub fn mantissa(&self) -> (r: i128)
        ensures
            r == self@.0,
            in_range(r as int, self@.1),
    {
        proof {
            use_type_invariant(self);
        }
        self.mantissa
    }

    /// The number of decimal places.
    pub fn scale(&self) -> (r: u32)
        ensures
            r == self@.1,
            in_range(self@.0, r as int),
    {
        proof {
            use_type_invariant(self);
        }
        self.scale
    }

    /// The amount that a text stands for, or the message of the error.
    pub fn parse(text: &str) -> (r: Result<Amount, String>)
        ensures
            parsed_decimal(text@) == (match r {
                Ok(a) => Ok::<(int, int), Seq<char>>(a@),
                Err(e) => Err(e@),
            }),
    {
        match decimal_parse(text) {
            Ok(d) => Ok(Amount { mantissa: d.0, scale: d.1 }),
            Err(e) => Err(e),
        }
    }

    /// The text of the amount.
    pub fn text(&self) -> (r: String)
        ensures
            r@ == decimal_text(self@.0, self@.1),
    {
        proof {
            use_type_invariant(self);
        }
        decimal_display(self.mantissa, self.scale)
    }

    /// A binary64 number for the amount.
    pub fn to_double(&self) -> (r: Double)
        ensures
            stands_for(r, self@),
    {
        proof {
            use_type_invariant(self);
        }
        match decimal_to_double(self.mantissa, self.scale) {
            Some(bits) => Double { bits },
            None => Double { bits: 0 },
        }
    }

    /// `self < other`.
    pub fn lt(&self, other: &Amount) -> (r: bool)
        ensures
            r == decimal_less(self@, other@),
    {
        proof {
            use_type_invariant(self);
            use_type_invariant(other);
        }
        decimal_lt(self.mantissa, self.scale, other.mantissa, other.scale)
    }

    /// `self + other`, exact where all digits fit, none when it is too large.
    pub fn plus(&self, other: &Amount) -> (r: Option<Amount>)
        ensures
            parts_of(r) == decimal_sum(self@, other@),
    {
        proof {
            use_type_invariant(self);
            use_type_invariant(other);
        }
        match decimal_add(self.mantissa, self.scale, other.mantissa, other.scale) {
            Some(d) => Some(Amount { mantissa: d.0, scale: d.1 }),
            None => None,
        }
    }

    /// `self - other`, exact where all digits fit, none when it is too large.
    pub fn minus(&self, other: &Amount) -> (r: Option<Amount>)
        ensures
            parts_of(r) == decimal_difference(self@, other@),
    {
        proof {
            use_type_invariant(self);
            use_type_invariant(other);
        }
        match decimal_sub(self.mantissa, self.scale, other.mantissa, other.scale) {
            Some(d) => Some(Amount { mantissa: d.0, scale: d.1 }),
            None => None,
        }
    }

    /// `self / other`, none when the divisor is zero or the quotient does not fit.
    pub fn over(&self, other: &Amount) -> (r: Option<Amount>)
        ensures
            parts_of(r) == decimal_quotient(self@, other@),
    {
        proof {
            use_type_invariant(self);
            use_type_invariant(other);
        }
        match decimal_div(self.mantissa, self.scale, other.mantissa, other.scale) {
            Some(d) => Some(Amount { mantissa: d.0, scale: d.1 }),
            None => None,
        }
    }

    /// Zero if the amount is below it, the amount otherwise.
    pub fn or_zero(self) -> (r: Amount)
        ensures
            r@ == at_least_zero(self@),
    {
        let zero: Amount = Amount::zero();
        if self.lt(&zero) {
            zero
        } else {
            self
        }
    }

    /// The smaller of two amounts.
    pub fn min(self, other: Amount) -> (r: Amount)
        ensures
            r@ == smaller_amount(self@, other@),
    {
        if other.lt(&self) {
            other
        } else {
            self
        }
    }
}

} // verus!
