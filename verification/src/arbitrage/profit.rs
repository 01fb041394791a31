//! What holds of profits: a cycle that counts as profitable ends with more than it started with, and
//! the percentage is that of the gain.
use crate::accuracy::{
    lemma_difference_near, lemma_difference_shrinks, lemma_difference_sign, lemma_one, lemma_plain,
    lemma_product_finite, lemma_product_near, lemma_quotient_finite, lemma_quotient_near,
    lemma_quotient_then_product, lemma_vast, plain, unit, vast,
};
use crate::arbitrage::fills::lemma_minus_nothing;
use crate::arbitrage::graph::moderate;
use crate::arbitrage::risk::{
    assessed_end, assessment, lemma_viable, slippage_cost, spread_of, total_slippage, RiskWorld,
    REST_BITS,
};
use crate::arbitrage::simulate::{
    dust, judged, lemma_verified, percent_of, simulation, target_of, SimRequest,
};
use crate::arbitrage::spread::lemma_there_and_back;
use crate::domain::{sound_quote, CycleView, MarketView};
use crate::double::{
    difference, hundred, lemma_units_increase, less, negated, product, quotient, sum, zero, Double,
};
use crate::rounding::FRACTION_RANGE;
use crate::store::TickerStoreView;
use vstd::arithmetic::power2::{lemma2_to64_rest, lemma_pow2_adds, lemma_pow2_pos, pow2};
use vstd::prelude::*;

verus! {

/// A hundred, in units.
proof fn lemma_hundred()
    ensures
        plain(hundred()),
        hundred().value() == 100 * unit(),
{
    let fr = FRACTION_RANGE as nat;
    let m = hundred().magnitude();
    assert(m / fr == 1029 && m % fr == 0x9_0000_0000_0000);
    lemma2_to64_rest();
    lemma_pow2_adds(46, 1028);
    lemma_pow2_pos(1028);
    let s = pow2(1028);
    assert(hundred().value() == 0x19_0000_0000_0000 * s);
    assert(unit() == 0x4000_0000_0000 * s);
}

/// Whether a percentage is that of the difference of two amounts to a base, up to one part in two to
/// the power of 49.
pub open spec fn is_percentage(percent: Double, base: Double, start: Double, end: Double) -> bool {
    let exact = 100 * (unit() * (end.value() - start.value()));
    -exact <= 0x2_0000_0000_0000 * (percent.value() * base.value() - exact) <= exact
}

/// A difference by a base, times a hundred, up to rounding.
proof fn lemma_hundredths(base: Double, start: Double, end: Double)
    requires
        plain(base),
        plain(start),
        plain(end),
        moderate(base.value()),
        start.value() < end.value(),
        difference(end, start).finite(),
        moderate(difference(end, start).value()),
    ensures
        plain(product(quotient(difference(end, start), base), hundred())),
        is_percentage(product(quotient(difference(end, start), base), hundred()), base, start, end),
{
    lemma_one();
    lemma_vast();
    lemma_hundred();
    let gain = difference(end, start);
    lemma_difference_sign(end, start);
    lemma_difference_near(end, start);
    lemma_plain(gain);
    let (u, g, s) = (unit(), gain.value(), base.value());
    let c: int = 1_000_000_000_000_000_000_000_000_000_000;
    let k = pow2(900) as int;
    assert(g * u <= s * vast()) by (nonlinear_arith)
        requires
            g <= c * u,
            u <= c * s,
            vast() == u * k,
            k >= c * c,
            u > 0,
            g > 0,
            s > 0,
            c == 1_000_000_000_000_000_000_000_000_000_000,
    {
        assert(g * u <= (c * u) * u);
        assert((c * u) * u <= (c * u) * (c * s));
        assert((c * u) * (c * s) == (s * u) * (c * c));
        assert((s * u) * k >= (s * u) * (c * c));
        assert(s * vast() == (s * u) * k);
    }
    lemma_quotient_finite(gain, base);
    lemma_quotient_near(gain, base);
    let q = quotient(gain, base);
    lemma_plain(q);
    let v = q.value();
    let h: int = 0x10_0000_0000_0000;
    assert(v <= 4 * (c * c) * u) by (nonlinear_arith)
        requires
            0x20_0000_0000_0000 * (v * s - g * u) <= g * u + h * s,
            h == 0x10_0000_0000_0000,
            g <= c * u,
            u <= c * s,
            s > 0,
            u > h,
            g > 0,
            v >= 0,
            c == 1_000_000_000_000_000_000_000_000_000_000,
    {
        assert(v * s <= 2 * (g * u) + s);
        assert(g * u <= (c * u) * (c * s));
        assert((c * u) * (c * s) == ((c * c) * u) * s);
        assert(s <= ((c * c) * u) * s);
        assert(v * s <= (4 * (c * c) * u) * s);
    }
    assert(v * (100 * u) <= u * vast()) by (nonlinear_arith)
        requires
            0 <= v <= 4 * (c * c) * u,
            vast() == u * k,
            k >= 400 * (c * c),
            u > 0,
            c == 1_000_000_000_000_000_000_000_000_000_000,
    {
        assert(v * (100 * u) <= (4 * (c * c) * u) * (100 * u));
        assert((4 * (c * c) * u) * (100 * u) == (400 * (c * c)) * (u * u));
        assert(u * vast() == (u * u) * k);
        assert((u * u) * k >= (u * u) * (400 * (c * c)));
    }
    lemma_product_finite(q, hundred());
    lemma_product_near(q, hundred());
    let r = product(q, hundred()).value();
    lemma_quotient_then_product(u, g, s, 100 * u, v, r);
    let d = end.value() - start.value();
    let (ug, ud, rs) = (u * g, u * d, r * s);
    assert((100 * u) * g == 100 * ug) by (nonlinear_arith)
        requires
            ug == u * g,
    ;
    assert(-ud <= 0x20_0000_0000_0000 * (ug - ud) <= ud) by (nonlinear_arith)
        requires
            -d <= 0x20_0000_0000_0000 * (g - d) <= d,
            ug == u * g,
            ud == u * d,
            u > 0,
    {
        assert(u * (-d) <= u * (0x20_0000_0000_0000 * (g - d)));
        assert(u * (0x20_0000_0000_0000 * (g - d)) <= u * d);
        assert(u * (0x20_0000_0000_0000 * (g - d)) == 0x20_0000_0000_0000 * (u * g - u * d));
    }
}

/// The percentage of a gain is the gain by the start amount, times a hundred, up to rounding.
pub proof fn lemma_percentage(start: Double, end: Double)
    requires
        plain(start),
        plain(end),
        moderate(start.value()),
        less(dust(), start),
        start.value() < end.value(),
        difference(end, start).finite(),
        moderate(difference(end, start).value()),
    ensures
        plain(percent_of(difference(end, start), start)),
        is_percentage(percent_of(difference(end, start), start), start, start, end),
{
    lemma_hundredths(start, start, end);
}

/// The spread of a sound quote is what the ask is above the bid, in percent of the ask, up to
/// rounding; it is nothing where the two are the same.
pub proof fn lemma_spread_percentage(bid: Double, ask: Double)
    requires
        sound_quote(bid, ask),
        moderate(ask.value()),
    ensures
        bid.value() == ask.value() ==> spread_of(bid, ask).value() == 0,
        bid.value() < ask.value() && moderate(difference(ask, bid).value()) ==> plain(
            spread_of(bid, ask),
        ) && is_percentage(spread_of(bid, ask), ask, bid, ask),
{
    lemma_plain(bid);
    lemma_plain(ask);
    lemma_hundred();
    assert(zero().value() == 0);
    lemma_difference_shrinks(ask, bid);
    lemma_difference_sign(ask, bid);
    if bid.value() == ask.value() {
        let gap = difference(ask, bid);
        lemma_plain(gap);
        lemma_none_of_nothing_by(gap, ask);
        lemma_none_of_nothing(quotient(gap, ask), hundred());
        lemma_plain(spread_of(bid, ask));
    } else if moderate(difference(ask, bid).value()) {
        lemma_hundredths(ask, bid, ask);
    }
}

/// A percentage above zero is that of a gain.
proof fn lemma_percentage_of_gain(start: Double, end: Double)
    requires
        start.finite(),
        percent_of(difference(end, start), start).finite(),
        percent_of(difference(end, start), start).value() > 0,
    ensures
        end.finite(),
        end.value() > start.value(),
{
    let gain = difference(end, start);
    assert(zero().value() == 0);
    assert(less(dust(), start));
    assert(dust().value() > 0) by {
        lemma_units_increase(0, dust().magnitude());
    }
    lemma_plain(start);
    lemma_factor_of_gain(quotient(gain, start));
    lemma_dividend_of_gain(gain, start);
    lemma_gain_is_one(start, end);
}

/// What is above zero a hundred times is above zero.
proof fn lemma_factor_of_gain(q: Double)
    requires
        product(q, hundred()).finite(),
        product(q, hundred()).value() > 0,
    ensures
        plain(q),
        q.value() > 0,
{
    lemma_hundred();
    lemma_plain(q);
    lemma_plain(product(q, hundred()));
    assert(!q.nan() && !q.infinite());
    if q.magnitude() == 0 {
        lemma_none_of_nothing(q, hundred());
    }
    lemma_product_sign(q, hundred());
}

/// What is above zero by an amount is above zero.
proof fn lemma_dividend_of_gain(gain: Double, start: Double)
    requires
        plain(start),
        start.value() > 0,
        plain(quotient(gain, start)),
        quotient(gain, start).value() > 0,
    ensures
        plain(gain),
        gain.value() > 0,
{
    lemma_plain(start);
    lemma_plain(gain);
    lemma_plain(quotient(gain, start));
    assert(!gain.nan() && !gain.infinite());
    if gain.magnitude() == 0 {
        lemma_none_of_nothing_by(gain, start);
    }
    lemma_quotient_sign(gain, start);
}

/// A difference above zero is that to a larger number.
proof fn lemma_gain_is_one(start: Double, end: Double)
    requires
        start.finite(),
        difference(end, start).finite(),
        difference(end, start).value() > 0,
    ensures
        end.finite(),
        end.value() > start.value(),
{
    if !end.finite() {
        assert(negated(start).finite());
        assert(difference(end, start) == sum(end, negated(start)));
    }
    lemma_difference_sign(end, start);
}

/// Nothing times a number is nothing.
proof fn lemma_none_of_nothing(a: Double, b: Double)
    requires
        a.magnitude() == 0,
        b.finite(),
    ensures
        product(a, b).magnitude() == 0,
{
    lemma_pow2_pos(crate::double::unit_exponent());
    assert(crate::rounding::units(0) == 0);
    assert(0 * crate::rounding::units(b.magnitude()) == 0);
    crate::rounding::lemma_rounding_scaled(0, 1, pow2(crate::double::unit_exponent()));
    crate::rounding::lemma_rounding_exact(0);
    assert(0 * pow2(crate::double::unit_exponent()) == 0);
    assert(1 * pow2(crate::double::unit_exponent()) == pow2(crate::double::unit_exponent()));
}

/// Nothing by a number is nothing.
proof fn lemma_none_of_nothing_by(a: Double, b: Double)
    requires
        a.magnitude() == 0,
        plain(b),
        b.value() > 0,
    ensures
        quotient(a, b).magnitude() == 0,
{
    let d = crate::rounding::units(b.magnitude());
    lemma_plain(b);
    assert(crate::rounding::units(0) == 0);
    assert(0 * pow2(crate::double::unit_exponent()) == 0);
    crate::rounding::lemma_rounding_scaled(0, 1, d);
    crate::rounding::lemma_rounding_exact(0);
    assert(0 * d == 0 && 1 * d == d);
}

/// The sign of a product that is not nothing.
proof fn lemma_product_sign(a: Double, b: Double)
    requires
        a.finite(),
        b.finite(),
        !b.negative(),
        product(a, b).value() > 0,
    ensures
        !a.negative(),
{
    let den = pow2(crate::double::unit_exponent());
    let num = crate::rounding::units(a.magnitude()) * crate::rounding::units(b.magnitude());
    lemma_pow2_pos(crate::double::unit_exponent());
    crate::double::lemma_nearest_bound(num, den);
}

/// The sign of a quotient that is not nothing.
proof fn lemma_quotient_sign(a: Double, b: Double)
    requires
        a.finite(),
        plain(b),
        b.value() > 0,
        !quotient(a, b).negative(),
        quotient(a, b).magnitude() > 0,
    ensures
        !a.negative(),
{
    let num = crate::rounding::units(a.magnitude()) * pow2(crate::double::unit_exponent());
    lemma_plain(b);
    crate::double::lemma_nearest_bound(num, crate::rounding::units(b.magnitude()));
}

/// A verified simulation gains: where no loss is allowed, it ends in the currency that it started with
/// and with more than it started with.
pub proof fn lemma_verified_gains(
    c: CycleView,
    q: SimRequest,
    markets: Map<Seq<char>, MarketView>,
    store: TickerStoreView,
)
    requires
        plain(q.amount),
        !q.min_profit.nan(),
        q.min_profit.value() >= 0,
    ensures
        simulation(c, q, markets, store) matches Ok(r) ==> r.verified ==> {
            &&& r.final_currency == q.currency
            &&& r.final_amount.finite()
            &&& r.final_amount.value() > q.amount.value()
            &&& r.profit_amount == difference(r.final_amount, q.amount)
        },
{
    lemma_verified(c, q, markets, store);
    match simulation(c, q, markets, store) {
        Ok(r) => {
            if r.verified {
                let target = target_of(q);
                assert(exists|amount: Double|
                    r == #[trigger] judged(
                        q.currency,
                        q.amount,
                        q.positive,
                        target,
                        amount,
                        q.min_profit,
                    ));
                let amount = choose|amount: Double|
                    r == #[trigger] judged(
                        q.currency,
                        q.amount,
                        q.positive,
                        target,
                        amount,
                        q.min_profit,
                    );
                assert(zero().value() == 0);
                lemma_percentage_of_gain(q.amount, amount);
            }
        },
        Err(_) => {},
    }
}

/// A viable cycle gains: where a profit is asked for, what is held at the end of the assessment is in
/// the currency of the start and more than at the start.
pub proof fn lemma_viable_gains(c: CycleView, start: Double, w: RiskWorld)
    requires
        plain(start),
        !w.limits.min_profit.nan(),
        w.limits.min_profit.value() > 0,
        assessment(c, start, w).is_viable,
    ensures
        assessed_end(c, start, w).currency == c.nodes[0],
        assessed_end(c, start, w).amount.finite(),
        assessed_end(c, start, w).amount.value() > start.value(),
{
    lemma_viable(c, start, w);
    let end = assessed_end(c, start, w);
    let r = assessment(c, start, w);
    assert(zero().value() == 0);
    assert(r.profit.finite() && r.profit.value() > 0);
    assert(r.profit == percent_of(difference(end.amount, start), start));
    lemma_percentage_of_gain(start, end.amount);
}

/// What slippage costs is its percentage of the value, up to rounding: a hundred times the cost is the
/// slippage times the value.
pub proof fn lemma_slippage_cost(slippage: Double, value: Double)
    requires
        plain(slippage),
        plain(value),
        moderate(slippage.value()),
        moderate(value.value()),
    ensures
        plain(slippage_cost(slippage, value)),
        ({
            let exact = value.value() * slippage.value();
            -exact <= 0x4_0000_0000_0000 * (100 * (unit() * slippage_cost(slippage, value).value())
                - exact) <= exact
        }),
        slippage_cost(negated(slippage), value) == zero(),
{
    lemma_one();
    lemma_vast();
    lemma_hundred();
    lemma_plain(slippage);
    lemma_plain(value);
    assert(zero().value() == 0);
    assert(negated(slippage).value() == -slippage.value());
    lemma_there_and_back(slippage, hundred());
    lemma_quotient_near(slippage, hundred());
    let q = quotient(slippage, hundred());
    lemma_plain(q);
    let (u, s, v, x) = (unit(), slippage.value(), value.value(), q.value());
    let c: int = 1_000_000_000_000_000_000_000_000_000_000;
    let h: int = 0x10_0000_0000_0000;
    let k = pow2(900) as int;
    assert(x <= c * u) by (nonlinear_arith)
        requires
            0x20_0000_0000_0000 * (x * (100 * u) - s * u) <= s * u + h * (100 * u),
            s <= c * u,
            u > h,
            x >= 0,
            h == 0x10_0000_0000_0000,
            c == 1_000_000_000_000_000_000_000_000_000_000,
    {
        assert(100 * (x * u) <= 2 * (s * u) + 100 * u);
        assert(s * u <= (c * u) * u);
        assert(100 * (x * u) <= 100 * ((c * u) * u));
        assert(x * u <= (c * u) * u);
    }
    assert(v * x <= u * vast()) by (nonlinear_arith)
        requires
            0 <= x <= c * u,
            0 < v <= c * u,
            vast() == u * k,
            k >= c * c,
            u > 0,
    {
        assert(v * x <= (c * u) * (c * u));
        assert((c * u) * (c * u) == (c * c) * (u * u));
        assert(u * vast() == (u * u) * k);
        assert((u * u) * k >= (u * u) * (c * c));
    }
    lemma_product_finite(value, q);
    lemma_product_near(value, q);
    let r = product(value, q).value();
    assert(v * x == x * v) by (nonlinear_arith);
    lemma_quotient_then_product(u, s, 100 * u, v, x, r);
    assert(r * (100 * u) == 100 * (u * r)) by (nonlinear_arith);
}

/// The slippage of all trades is what they cost, in percent of what the start amount is worth, up to
/// rounding; it is nothing where nothing was lost.
pub proof fn lemma_total_slippage(cost: Double, start_value: Double)
    requires
        plain(cost),
        plain(start_value),
        moderate(start_value.value()),
        less(Double { bits: REST_BITS }, start_value),
    ensures
        cost.value() == 0 ==> total_slippage(cost, start_value).value() == 0,
        moderate(cost.value()) ==> plain(total_slippage(cost, start_value)) && is_percentage(
            total_slippage(cost, start_value),
            start_value,
            zero(),
            cost,
        ),
{
    lemma_hundred();
    lemma_one();
    lemma_vast();
    lemma_plain(cost);
    lemma_plain(start_value);
    assert(zero().value() == 0);
    if cost.value() == 0 {
        lemma_none_of_nothing_by(cost, start_value);
        lemma_none_of_nothing(quotient(cost, start_value), hundred());
        lemma_plain(total_slippage(cost, start_value));
    } else if moderate(cost.value()) {
        lemma_minus_nothing(cost);
        lemma_hundredths(start_value, zero(), cost);
    }
}

} // verus!
