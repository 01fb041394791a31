//! What holds of assessments: which trades they cover, and what it means that a step is deep enough
//! and within the limits of its market.
use crate::accuracy::{
    lemma_kept, lemma_one, lemma_plain, lemma_product_finite, lemma_product_near,
    lemma_quotient_near, lemma_quotient_then_product, lemma_vast, plain, unit, vast,
};
use crate::arbitrage::graph::{moderate, near_product, near_quotient};
use crate::arbitrage::risk::{
    after_fee, all_steps_ok, assessed_from, assessed_step, assessment, failed_step,
    leg, lemma_viable, value_usd, RiskNote, RiskState, RiskWorld, StepView,
};
use crate::arbitrage::spread::{lemma_shrinks, lemma_there_and_back};
use crate::domain::{sound_quote, BookView, CycleView, MarketView, TradeView};
use crate::double::{at_most, difference, less, one, product, quotient, zero, Double};
use crate::store::TickerStoreView;
use crate::text::pair_text;
use vstd::arithmetic::power2::pow2;
use vstd::prelude::*;

verus! {

/// Whether a detail is that of a trade at a place, and is said to be deep enough only where its depth
/// is at least what is asked for.
pub open spec fn is_detail(d: StepView, t: TradeView, place: int, min_depth: Double) -> bool {
    &&& d.step == place + 1
    &&& d.pair == t.pair
    &&& d.kind == t.kind
    &&& d.depth_ok ==> at_most(min_depth, d.depth_usd)
}

proof fn lemma_details(trades: Seq<TradeView>, i: nat, s: RiskState, w: RiskWorld)
    requires
        i <= trades.len() < usize::MAX,
        s.details.len() == i,
        forall|j: int|
            0 <= j < i ==> is_detail(#[trigger] s.details[j], trades[j], j, w.limits.min_depth),
    ensures
        ({
            let e = assessed_from(trades, i, s, w);
            &&& i <= e.details.len() <= trades.len()
            &&& forall|j: int|
                0 <= j < e.details.len() ==> is_detail(
                    #[trigger] e.details[j],
                    trades[j],
                    j,
                    w.limits.min_depth,
                )
            &&& all_steps_ok(e.details) && !less(e.amount, zero()) ==> e.details.len()
                == trades.len()
        }),
    decreases trades.len() - i,
{
    if i < trades.len() {
        let t = trades[i as int];
        if at_most(s.amount, zero()) {
            let e = failed_step(s, t, i, RiskNote::BadAmount(s.amount), true);
            assert(!e.details[i as int].depth_ok);
        } else if s.currency != t.from {
            let e = failed_step(s, t, i, RiskNote::WrongCurrency, true);
            assert(!e.details[i as int].depth_ok);
        } else if !w.markets.contains_key(t.pair) {
            lemma_details(trades, i + 1, failed_step(s, t, i, RiskNote::NoMarket, true), w);
        } else {
            match w.books.book_of(t.pair) {
                None => {
                    lemma_details(trades, i + 1, failed_step(s, t, i, RiskNote::NoBook, false), w);
                },
                Some(book) => {
                    if book.bids.len() == 0 || book.asks.len() == 0 {
                        lemma_details(
                            trades,
                            i + 1,
                            failed_step(s, t, i, RiskNote::EmptyBook, false),
                            w,
                        );
                    } else {
                        let next = assessed_step(s, t, i, w.markets[t.pair], book, w);
                        if !less(next.amount, zero()) {
                            lemma_details(trades, i + 1, next, w);
                        }
                    }
                },
            }
        }
    }
}

/// The details of an assessment are those of the first trades of the cycle, in their order, and a step
/// is said to be deep enough only where its depth is at least what is asked for. A viable cycle has
/// had every one of its trades assessed, and each was deep enough.
pub proof fn lemma_every_trade_assessed(c: CycleView, start: Double, w: RiskWorld)
    requires
        c.trades.len() < usize::MAX,
    ensures
        ({
            let r = assessment(c, start, w);
            &&& r.details.len() <= c.trades.len()
            &&& forall|j: int|
                0 <= j < r.details.len() ==> is_detail(
                    #[trigger] r.details[j],
                    c.trades[j],
                    j,
                    w.limits.min_depth,
                )
            &&& r.is_viable ==> r.details.len() == c.trades.len() && forall|j: int|
                0 <= j < r.details.len() ==> at_most(
                    w.limits.min_depth,
                    (#[trigger] r.details[j]).depth_usd,
                )
        }),
{
    if c.nodes.len() > 0 {
        lemma_details(
            c.trades,
            0,
            RiskState {
                currency: c.nodes[0],
                amount: start,
                cost: zero(),
                reasons: Seq::empty(),
                details: Seq::empty(),
            },
            w,
        );
        lemma_viable(c, start, w);
    }
}

/// Whether an amount keeps to a least amount, where one is set.
pub open spec fn keeps_minimum(amount: Double, least: Double) -> bool {
    least.value() > 0 ==> amount.value() >= least.value()
}

/// A trade that is within the limits of its market keeps to its minima: a purchase spends at least the
/// least cost and gets at least the least quantity, a sale sells at least the least quantity. And one
/// that brings nothing is never within them.
pub proof fn lemma_within_limits(
    t: TradeView,
    book: BookView,
    amount: Double,
    minima: (Double, Double),
    market: MarketView,
    store: TickerStoreView,
)
    requires
        !amount.nan(),
        !minima.0.nan(),
        !minima.1.nan(),
    ensures
        ({
            let l = leg(t, book, amount, minima, market, store);
            &&& l.limits_ok ==> !l.failed
            &&& l.limits_ok && t.kind == "BUY"@ && !l.executed.nan() ==> keeps_minimum(
                amount,
                minima.1,
            ) && keeps_minimum(l.executed, minima.0) && l.executed.value() > 0
            &&& l.limits_ok && t.kind == "SELL"@ ==> keeps_minimum(amount, minima.0)
            &&& l.limits_ok ==> t.kind == "BUY"@ || t.kind == "SELL"@
            &&& t.kind == "BUY"@ && !l.failed && keeps_minimum(amount, minima.1) && keeps_minimum(
                l.executed,
                minima.0,
            ) ==> l.limits_ok
            &&& t.kind == "SELL"@ && !l.failed && keeps_minimum(amount, minima.0) ==> l.limits_ok
        }),
{
    reveal_strlit("BUY");
    reveal_strlit("SELL");
    assert("BUY"@.len() != "SELL"@.len());
    assert(zero().value() == 0);
    assert(crate::arbitrage::simulate::dust().value() > 0) by {
        crate::double::lemma_units_increase(0, crate::arbitrage::simulate::dust().magnitude());
    }
}

/// The fee takes its share: what is left of an amount after a fee from zero to one is no more than the
/// amount, and it is what one less the fee is of it, up to rounding.
pub proof fn lemma_fee_taken(executed: Double, fee: Double)
    requires
        plain(executed),
        fee.finite(),
        0 <= fee.value() <= unit(),
    ensures
        plain(after_fee(executed, fee)),
        at_most(after_fee(executed, fee), executed),
        moderate(executed.value()) && moderate(difference(one(), fee).value()) ==> near_product(
            after_fee(executed, fee).value(),
            executed.value(),
            difference(one(), fee).value(),
        ),
{
    lemma_kept(fee);
    let kept = difference(one(), fee);
    lemma_shrinks(executed, kept);
    let r = product(executed, kept);
    lemma_plain(r);
    assert(zero().value() == 0);
    assert(after_fee(executed, fee) == r);
    if moderate(executed.value()) && moderate(kept.value()) {
        lemma_product_near(executed, kept);
        lemma_one();
        lemma_vast();
        let (u, e, k) = (unit(), executed.value(), kept.value());
        let c: int = 1_000_000_000_000_000_000_000_000_000_000;
        let h: int = 0x10_0000_0000_0000;
        let ek = e * k;
        assert(k * e == ek) by (nonlinear_arith)
            requires
                ek == e * k,
        ;
        assert(h * u <= ek) by (nonlinear_arith)
            requires
                u <= c * e,
                u <= c * k,
                u >= h * c * c,
                ek == e * k,
                c == 1_000_000_000_000_000_000_000_000_000_000,
                h == 0x10_0000_0000_0000,
        {
            assert((c * e) * (c * k) >= u * u);
            assert((c * e) * (c * k) == c * c * (e * k));
            assert(u * u >= (h * c * c) * u);
            assert((h * c * c) * u == c * c * (h * u));
        }
    }
}

/// What a number of parts is against a product of numbers that are far from the ends of the range.
proof fn lemma_parts_small(u: int, x: int, y: int)
    requires
        u >= 0x1_0000_0000_0000_0000_0000_0000_0000_0000
            * 0x1_0000_0000_0000_0000_0000_0000_0000_0000
            * 0x1_0000_0000_0000_0000_0000_0000_0000_0000
            * 0x1_0000_0000_0000_0000_0000_0000_0000_0000,
        u <= 1_000_000_000_000_000_000_000_000_000_000 * x,
        u <= 1_000_000_000_000_000_000_000_000_000_000 * y,
    ensures
        0x10_0000_0000_0000 * u <= x * y,
        x * y == y * x,
{
    let c: int = 1_000_000_000_000_000_000_000_000_000_000;
    let h: int = 0x10_0000_0000_0000;
    assert(h * u <= x * y && x * y == y * x) by (nonlinear_arith)
        requires
            u <= c * x,
            u <= c * y,
            u >= h * c * c,
            c == 1_000_000_000_000_000_000_000_000_000_000,
            h == 0x10_0000_0000_0000,
    {
        assert((c * x) * (c * y) >= u * u);
        assert((c * x) * (c * y) == c * c * (x * y));
        assert(u * u >= (h * c * c) * u);
        assert((h * c * c) * u == c * c * (h * u));
    }
}

/// The value of an amount in USD is the amount at the bid of its price in USDT, or else at the ask of
/// USDT in it, up to rounding; that of USDT is the amount itself, and so is that of USDC without a
/// price. There is none of nothing, or without a price.
pub proof fn lemma_value_in_usd(currency: Seq<char>, amount: Double, store: TickerStoreView)
    requires
        plain(amount),
        moderate(amount.value()),
    ensures
        ({
            let v = value_usd(currency, amount, store);
            let forward = store.quote_of(pair_text(currency, "USDT"@));
            let reverse = store.quote_of(pair_text("USDT"@, currency));
            &&& currency == "USDT"@ ==> v == Some(amount)
            &&& currency != "USDT"@ && forward is Some && sound_quote(
                (forward->0).bid,
                (forward->0).ask,
            ) && moderate((forward->0).bid.value()) ==> v is Some && plain(v->0) && near_product(
                (v->0).value(),
                (forward->0).bid.value(),
                amount.value(),
            )
            &&& currency != "USDT"@ && forward is None && reverse is Some && sound_quote(
                (reverse->0).bid,
                (reverse->0).ask,
            ) && moderate((reverse->0).ask.value()) ==> v is Some && plain(v->0) && near_quotient(
                (v->0).value(),
                (reverse->0).ask.value(),
                amount.value(),
            )
            &&& currency != "USDT"@ && forward is None && reverse is None ==> v == (if currency
                == "USDC"@ {
                Some(amount)
            } else {
                None
            })
        }),
        value_usd(currency, zero(), store) is None,
{
    assert(zero().value() == 0);
    lemma_one();
    lemma_vast();
    lemma_plain(amount);
    let forward = store.quote_of(pair_text(currency, "USDT"@));
    let reverse = store.quote_of(pair_text("USDT"@, currency));
    if forward is Some && sound_quote((forward->0).bid, (forward->0).ask) && moderate(
        (forward->0).bid.value(),
    ) {
        let bid = (forward->0).bid;
        lemma_plain(bid);
        lemma_there_and_back(amount, bid);
        lemma_product_near(amount, bid);
        lemma_parts_small(unit(), amount.value(), bid.value());
    }
    if forward is None && reverse is Some && sound_quote((reverse->0).bid, (reverse->0).ask)
        && moderate((reverse->0).ask.value()) {
        let ask = (reverse->0).ask;
        lemma_plain(ask);
        lemma_there_and_back(one(), ask);
        lemma_quotient_near(one(), ask);
        let q = quotient(one(), ask);
        let x = product(amount, q);
        lemma_plain(q);
        lemma_price_of_one(amount, ask);
        lemma_product_near(amount, q);
        let (u, a, m, v) = (unit(), ask.value(), amount.value(), q.value());
        assert(m * v == v * m) by (nonlinear_arith);
        lemma_quotient_then_product(u, u, a, m, v, x.value());
    }
}

/// An amount times what one is by a price is finite.
proof fn lemma_price_of_one(amount: Double, ask: Double)
    requires
        plain(amount),
        plain(ask),
        moderate(amount.value()),
        moderate(ask.value()),
        plain(quotient(one(), ask)),
    ensures
        plain(product(amount, quotient(one(), ask))),
{
    lemma_one();
    lemma_vast();
    lemma_quotient_near(one(), ask);
    let q = quotient(one(), ask);
    lemma_plain(q);
    let (u, a, m, v) = (unit(), ask.value(), amount.value(), q.value());
    let c: int = 1_000_000_000_000_000_000_000_000_000_000;
    let h: int = 0x10_0000_0000_0000;
    let k = pow2(900) as int;
    assert(v <= 4 * c * u) by (nonlinear_arith)
        requires
            0x20_0000_0000_0000 * (v * a - u * u) <= u * u + h * a,
            h == 0x10_0000_0000_0000,
            u <= c * a,
            a > 0,
            u > h,
            v >= 0,
            c == 1_000_000_000_000_000_000_000_000_000_000,
    {
        assert(v * a <= 2 * (u * u) + a);
        assert(u * u <= u * (c * a));
        assert(u * (c * a) == (c * u) * a);
        assert(a <= (c * u) * a);
        assert(v * a <= (4 * c * u) * a);
    }
    assert(m * v <= u * vast()) by (nonlinear_arith)
        requires
            0 <= v <= 4 * c * u,
            0 < m <= c * u,
            vast() == u * k,
            k >= 4 * (c * c),
            u > 0,
            c == 1_000_000_000_000_000_000_000_000_000_000,
    {
        assert(m * v <= (c * u) * (4 * c * u));
        assert((c * u) * (4 * c * u) == (4 * (c * c)) * (u * u));
        assert(u * vast() == (u * u) * k);
        assert((u * u) * k >= (u * u) * (4 * (c * c)));
    }
    lemma_product_finite(amount, q);
}

} // verus!
