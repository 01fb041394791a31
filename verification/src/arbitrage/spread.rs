//! What holds of simulated trades: a purchase pays the ask, a sale gets the bid, and the spread
//! between them never helps.
use crate::accuracy::{
    counted, lemma_kept, lemma_one, lemma_plain, lemma_product_finite,
    lemma_product_monotone, lemma_product_near, lemma_product_one, lemma_product_then_product,
    lemma_quotient_finite, lemma_quotient_monotone, lemma_quotient_near,
    lemma_quotient_then_product, lemma_vast, plain, unit, vast,
};
use crate::arbitrage::fills::lemma_against_bounds;
use crate::arbitrage::graph::moderate;
use crate::arbitrage::simulate::{simulation, swap, traded, walked, SimRequest, SwapMethod};
use crate::domain::{sound_quote, CycleView, MarketView, TradeView};
use crate::double::{at_most, difference, lemma_units_increase, one, product, quotient, zero, Double};
use crate::store::TickerStoreView;
use crate::text::pair_text;
use vstd::arithmetic::power2::pow2;
use vstd::prelude::*;

verus! {

/// Whether two stores quote the same price for a trade: the ask for a purchase, the bid for a sale.
pub open spec fn same_price(t: TradeView, store: TickerStoreView, other: TickerStoreView) -> bool {
    match (store.quote_of(t.pair), other.quote_of(t.pair)) {
        (Some(q), Some(p)) => {
            &&& t.kind == "BUY"@ ==> q.ask == p.ask
            &&& t.kind == "SELL"@ ==> q.bid == p.bid
        },
        (None, None) => true,
        _ => false,
    }
}

/// A trade depends on the one price that it is made at: the bid says nothing about a purchase, and
/// the ask nothing about a sale.
pub proof fn lemma_trade_has_one_price(
    t: TradeView,
    i: int,
    amount: Double,
    markets: Map<Seq<char>, MarketView>,
    store: TickerStoreView,
    other: TickerStoreView,
    fee: Double,
)
    requires
        same_price(t, store, other),
    ensures
        traded(t, i, amount, markets, store, fee) == traded(t, i, amount, markets, other, fee),
{
}

/// What trades make of an amount depends on the prices that they are made at alone.
pub proof fn lemma_walk_has_one_price_each(
    trades: Seq<TradeView>,
    i: nat,
    currency: Seq<char>,
    amount: Double,
    markets: Map<Seq<char>, MarketView>,
    store: TickerStoreView,
    other: TickerStoreView,
    fee: Double,
)
    requires
        forall|j: int| i <= j < trades.len() ==> same_price(#[trigger] trades[j], store, other),
    ensures
        walked(trades, i, currency, amount, markets, store, fee) == walked(
            trades,
            i,
            currency,
            amount,
            markets,
            other,
            fee,
        ),
    decreases trades.len() - i,
{
    if i < trades.len() {
        let t = trades[i as int];
        lemma_trade_has_one_price(t, i as int, amount, markets, store, other, fee);
        match traded(t, i as int, amount, markets, store, fee) {
            Err(_) => {},
            Ok((next, net)) => {
                lemma_walk_has_one_price_each(
                    trades,
                    i + 1,
                    next,
                    net,
                    markets,
                    store,
                    other,
                    fee,
                );
            },
        }
    }
}

/// The simulation of a cycle that starts and ends in its first currency depends on the asks of the
/// pairs that it buys on and on the bids of those that it sells on, and on no other price.
pub proof fn lemma_simulation_has_one_price_each(
    c: CycleView,
    q: SimRequest,
    markets: Map<Seq<char>, MarketView>,
    store: TickerStoreView,
    other: TickerStoreView,
)
    requires
        c.nodes.len() > 0,
        q.currency == c.nodes[0],
        q.settle is None,
        forall|j: int| 0 <= j < c.trades.len() ==> same_price(#[trigger] c.trades[j], store, other),
    ensures
        simulation(c, q, markets, store) == simulation(c, q, markets, other),
{
    lemma_walk_has_one_price_each(
        c.trades,
        0,
        q.currency,
        q.amount,
        markets,
        store,
        other,
        q.fee,
    );
}

/// A factor of at most one makes no number larger.
pub proof fn lemma_shrinks(a: Double, kept: Double)
    requires
        counted(a),
        plain(kept),
        kept.value() <= unit(),
    ensures
        !a.infinite() ==> at_most(product(a, kept), a) && plain(product(a, kept)),
{
    lemma_one();
    if a.finite() {
        lemma_product_one(a);
        lemma_product_monotone(kept, one(), a);
        lemma_product_monotone(one(), one(), a);
        lemma_product_near(a, kept);
        let r = product(a, kept);
        assert(product(kept, a) == r);
        assert(at_most(r, a));
        if r.infinite() {
            lemma_units_increase(a.magnitude(), r.magnitude());
        }
    }
}

/// Whether a result is no more than an amount, up to one part in two to the power of 50.
pub open spec fn no_gain(result: Double, amount: Double) -> bool {
    0x4_0000_0000_0000 * result.value() <= 0x4_0000_0000_0001 * amount.value()
}

/// Dividing by a price and multiplying by it again, either way round, gives no gain.
pub proof fn lemma_there_and_back(m: Double, a: Double)
    requires
        plain(m),
        plain(a),
        moderate(m.value()),
        moderate(a.value()),
    ensures
        plain(quotient(m, a)),
        plain(product(quotient(m, a), a)),
        no_gain(product(quotient(m, a), a), m),
        plain(product(m, a)),
        plain(quotient(product(m, a), a)),
        no_gain(quotient(product(m, a), a), m),
{
    lemma_one();
    lemma_vast();
    let (u, x, y) = (unit(), m.value(), a.value());
    let c: int = 1_000_000_000_000_000_000_000_000_000_000;
    let h: int = 0x10_0000_0000_0000;
    let k = pow2(900) as int;
    assert(x > 0 && y > 0);
    assert(x * u <= y * vast()) by (nonlinear_arith)
        requires
            x <= c * u,
            u <= c * y,
            vast() == u * k,
            k >= c * c,
            u > 0,
            x > 0,
            y > 0,
            c == 1_000_000_000_000_000_000_000_000_000_000,
    {
        assert(x * u <= (c * u) * u);
        assert((c * u) * u <= (c * u) * (c * y));
        assert((c * u) * (c * y) == (y * u) * (c * c));
        assert((y * u) * k >= (y * u) * (c * c));
        assert(y * vast() == (y * u) * k);
    }
    assert(x * y <= u * vast()) by (nonlinear_arith)
        requires
            x <= c * u,
            y <= c * u,
            vast() == u * k,
            k >= c * c,
            u > 0,
            x > 0,
            y > 0,
            c == 1_000_000_000_000_000_000_000_000_000_000,
    {
        assert(x * y <= (c * u) * (c * u));
        assert((c * u) * (c * u) == (u * u) * (c * c));
        assert((u * u) * k >= (u * u) * (c * c));
        assert(u * vast() == (u * u) * k);
    }
    lemma_quotient_finite(m, a);
    lemma_quotient_near(m, a);
    lemma_product_finite(m, a);
    lemma_product_near(m, a);
    let q = quotient(m, a);
    let p = product(m, a);
    lemma_plain(q);
    lemma_plain(p);
    // What is divided and multiplied is small against the product of the amount and the unit.
    assert(h * y <= x * u && h * u <= x * y) by (nonlinear_arith)
        requires
            y <= c * u,
            u <= c * x,
            u <= c * y,
            u >= h * c * c,
            h == 0x10_0000_0000_0000,
            c == 1_000_000_000_000_000_000_000_000_000_000,
    {
        assert(c * (x * u) == (c * x) * u);
        assert((c * x) * u >= u * u);
        assert(u * u >= (h * c * c) * u);
        assert((h * c * c) * u == c * (h * (c * u)));
        assert(c * (x * u) >= c * (h * (c * u)));
        assert(x * u >= h * (c * u));
        assert((c * x) * (c * y) >= u * u);
        assert((c * x) * (c * y) == c * c * (x * y));
        assert((h * c * c) * u == c * c * (h * u));
        assert(x * y >= h * u);
    }
    let (v, w) = (q.value(), p.value());
    let xu = x * u;
    let xy = x * y;
    let vy = v * y;
    let wu = w * u;
    assert(vy <= 2 * xu && wu <= 2 * xy);
    assert(2 * xu <= u * vast()) by (nonlinear_arith)
        requires
            xu == x * u,
            x <= c * u,
            vast() == u * k,
            k >= 4 * c,
            u > 0,
            c > 0,
    {
        assert(x * u <= (c * u) * u);
        assert(u * vast() == (u * u) * k);
        assert((u * u) * k >= (u * u) * (4 * c));
    }
    assert(2 * xy <= y * vast()) by (nonlinear_arith)
        requires
            xy == x * y,
            x <= c * u,
            vast() == u * k,
            k >= 4 * c,
            u > 0,
            y > 0,
            c > 0,
    {
        assert(x * y <= (c * u) * y);
        assert(y * vast() == (y * u) * k);
        assert((y * u) * k >= (y * u) * (4 * c));
    }
    lemma_product_finite(q, a);
    lemma_product_near(q, a);
    lemma_quotient_finite(p, a);
    lemma_quotient_near(p, a);
    let r = product(q, a).value();
    let t = quotient(p, a).value();
    let ru = r * u;
    let ty = t * y;
    assert(h * u <= xu) by (nonlinear_arith)
        requires
            xu == x * u,
            x >= h,
            u > 0,
    ;
    assert(0x4_0000_0000_0000 * ru <= 0x4_0000_0000_0001 * xu);
    assert(0x4_0000_0000_0000 * r <= 0x4_0000_0000_0001 * x) by (nonlinear_arith)
        requires
            0x4_0000_0000_0000 * ru <= 0x4_0000_0000_0001 * xu,
            ru == r * u,
            xu == x * u,
            u > 0,
    {
        assert(u * (0x4_0000_0000_0000 * r) <= u * (0x4_0000_0000_0001 * x));
    }
    assert(h * y <= xy) by (nonlinear_arith)
        requires
            xy == x * y,
            x >= h,
            y > 0,
    ;
    assert(0x4_0000_0000_0000 * ty <= 0x4_0000_0000_0001 * xy);
    assert(0x4_0000_0000_0000 * t <= 0x4_0000_0000_0001 * x) by (nonlinear_arith)
        requires
            0x4_0000_0000_0000 * ty <= 0x4_0000_0000_0001 * xy,
            ty == t * y,
            xy == x * y,
            y > 0,
    {
        assert(y * (0x4_0000_0000_0000 * t) <= y * (0x4_0000_0000_0001 * x));
    }
}

/// A number that is no more than a finite one is finite.
pub proof fn lemma_finite_below(a: Double, b: Double)
    requires
        counted(a),
        plain(b),
        at_most(a, b),
    ensures
        plain(a),
{
    if a.infinite() {
        lemma_units_increase(b.magnitude(), a.magnitude());
    }
}

/// A purchase at an ask and a sale of what it brought at a bid that is no higher give no gain.
proof fn lemma_bought_then_sold(amount: Double, bid: Double, ask: Double, kept: Double)
    requires
        plain(amount),
        plain(bid),
        plain(ask),
        plain(kept),
        kept.value() <= unit(),
        bid.value() <= ask.value(),
        moderate(amount.value()),
        moderate(ask.value()),
    ensures
        ({
            let x = product(quotient(amount, ask), kept);
            let y = product(product(x, bid), kept);
            plain(x) && plain(y) && no_gain(y, amount)
        }),
{
    lemma_there_and_back(amount, ask);
    let q = quotient(amount, ask);
    let x = product(q, kept);
    lemma_shrinks(q, kept);
    lemma_product_monotone(x, q, bid);
    lemma_product_monotone(bid, ask, q);
    lemma_product_monotone(ask, ask, q);
    let w = product(x, bid);
    lemma_product_near(x, bid);
    assert(at_most(w, product(q, ask)));
    lemma_finite_below(w, product(q, ask));
    lemma_shrinks(w, kept);
}

/// A sale at a bid and a purchase for what it brought at an ask that is no lower give no gain.
proof fn lemma_sold_then_bought(amount: Double, bid: Double, ask: Double, kept: Double)
    requires
        plain(amount),
        plain(bid),
        plain(ask),
        plain(kept),
        kept.value() <= unit(),
        bid.value() <= ask.value(),
        moderate(amount.value()),
        moderate(ask.value()),
    ensures
        ({
            let x = product(product(amount, bid), kept);
            let y = product(quotient(x, ask), kept);
            plain(x) && plain(y) && no_gain(y, amount)
        }),
{
    lemma_one();
    lemma_there_and_back(amount, ask);
    let top = product(amount, ask);
    let w = product(amount, bid);
    lemma_product_monotone(bid, ask, amount);
    lemma_product_monotone(ask, ask, amount);
    lemma_product_near(amount, bid);
    assert(at_most(w, top));
    lemma_finite_below(w, top);
    let x = product(w, kept);
    lemma_shrinks(w, kept);
    lemma_quotient_monotone(x, top, ask);
    lemma_quotient_near(x, ask);
    let z = quotient(x, ask);
    lemma_finite_below(z, quotient(top, ask));
    lemma_shrinks(z, kept);
}

/// The spread never helps: at a fee from zero to one a purchase and a sale on the same pair, one after
/// the other and in either order, leave no more than there was before, up to rounding.
pub proof fn lemma_spread_never_helps(
    first: TradeView,
    second: TradeView,
    i: int,
    j: int,
    amount: Double,
    markets: Map<Seq<char>, MarketView>,
    store: TickerStoreView,
    fee: Double,
)
    requires
        first.pair == second.pair,
        first.kind == "BUY"@ && second.kind == "SELL"@ || first.kind == "SELL"@ && second.kind
            == "BUY"@,
        store.quote_of(first.pair) matches Some(q) && sound_quote(q.bid, q.ask) && moderate(
            q.ask.value(),
        ),
        plain(amount),
        moderate(amount.value()),
        fee.finite(),
        0 <= fee.value() <= unit(),
    ensures
        traded(first, i, amount, markets, store, fee) matches Ok(step) ==> traded(
            second,
            j,
            step.1,
            markets,
            store,
            fee,
        ) matches Ok(last) ==> plain(last.1) && no_gain(last.1, amount),
{
    reveal_strlit("BUY");
    reveal_strlit("SELL");
    assert("BUY"@.len() != "SELL"@.len());
    let q = store.quote_of(first.pair)->0;
    lemma_plain(q.bid);
    lemma_plain(q.ask);
    lemma_kept(fee);
    let kept = difference(one(), fee);
    lemma_bought_then_sold(amount, q.bid, q.ask, kept);
    lemma_sold_then_bought(amount, q.bid, q.ask, kept);
}

/// Whether what a purchase brings, times its price, is what the fee leaves of the amount, up to one
/// part in two to the power of 50.
pub open spec fn pays_ask(result: Double, amount: Double, ask: Double, kept: Double) -> bool {
    let exact = kept.value() * amount.value();
    -exact <= 0x4_0000_0000_0000 * (result.value() * ask.value() - exact) <= exact
}

/// Whether what a sale brings is the amount at its price, less the fee, up to one part in two to the
/// power of 50.
pub open spec fn gets_bid(result: Double, amount: Double, bid: Double, kept: Double) -> bool {
    let exact = kept.value() * (amount.value() * bid.value());
    -exact <= 0x4_0000_0000_0000 * (result.value() * unit() * unit() - exact) <= exact
}

/// What a purchase brings, up to rounding.
proof fn lemma_bought_near(amount: Double, ask: Double, kept: Double)
    requires
        plain(amount),
        plain(ask),
        plain(kept),
        kept.value() <= unit(),
        moderate(amount.value()),
        moderate(ask.value()),
        moderate(kept.value()),
    ensures
        plain(product(quotient(amount, ask), kept)),
        pays_ask(product(quotient(amount, ask), kept), amount, ask, kept),
{
    lemma_vast();
    lemma_one();
    lemma_there_and_back(amount, ask);
    lemma_quotient_near(amount, ask);
    let q = quotient(amount, ask);
    lemma_shrinks(q, kept);
    lemma_product_near(q, kept);
    lemma_quotient_then_product(
        unit(),
        amount.value(),
        ask.value(),
        kept.value(),
        q.value(),
        product(q, kept).value(),
    );
}

/// What a sale brings, up to rounding.
proof fn lemma_sold_near(amount: Double, bid: Double, kept: Double)
    requires
        plain(amount),
        plain(bid),
        plain(kept),
        kept.value() <= unit(),
        moderate(amount.value()),
        moderate(bid.value()),
        moderate(kept.value()),
    ensures
        plain(product(product(amount, bid), kept)),
        gets_bid(product(product(amount, bid), kept), amount, bid, kept),
{
    lemma_vast();
    lemma_one();
    lemma_there_and_back(amount, bid);
    lemma_product_near(amount, bid);
    let y = product(amount, bid);
    lemma_shrinks(y, kept);
    lemma_product_near(y, kept);
    lemma_product_then_product(
        unit(),
        amount.value(),
        bid.value(),
        kept.value(),
        y.value(),
        product(y, kept).value(),
    );
}

/// A purchase pays the ask of its pair and ends in the base currency, a sale gets the bid of its pair
/// and ends in the quote currency, both less the fee and up to rounding.
pub proof fn lemma_trade_pays_its_price(
    t: TradeView,
    i: int,
    amount: Double,
    markets: Map<Seq<char>, MarketView>,
    store: TickerStoreView,
    fee: Double,
)
    requires
        markets.contains_key(t.pair),
        store.quote_of(t.pair) matches Some(q) && sound_quote(q.bid, q.ask) && moderate(
            q.bid.value(),
        ) && moderate(q.ask.value()),
        plain(amount),
        moderate(amount.value()),
        fee.finite(),
        0 <= fee.value() <= unit(),
        moderate(difference(one(), fee).value()),
    ensures
        t.kind == "BUY"@ ==> {
            let r = traded(t, i, amount, markets, store, fee);
            &&& r is Ok
            &&& (r->Ok_0).0 == markets[t.pair].base
            &&& plain((r->Ok_0).1)
            &&& pays_ask(
                (r->Ok_0).1,
                amount,
                (store.quote_of(t.pair)->0).ask,
                difference(one(), fee),
            )
        },
        t.kind == "SELL"@ ==> {
            let r = traded(t, i, amount, markets, store, fee);
            &&& r is Ok
            &&& (r->Ok_0).0 == markets[t.pair].quote
            &&& plain((r->Ok_0).1)
            &&& gets_bid(
                (r->Ok_0).1,
                amount,
                (store.quote_of(t.pair)->0).bid,
                difference(one(), fee),
            )
        },
{
    reveal_strlit("BUY");
    reveal_strlit("SELL");
    assert("BUY"@.len() != "SELL"@.len());
    let q = store.quote_of(t.pair)->0;
    lemma_plain(q.bid);
    lemma_plain(q.ask);
    lemma_kept(fee);
    let kept = difference(one(), fee);
    lemma_bought_near(amount, q.ask, kept);
    lemma_sold_near(amount, q.bid, kept);
}

/// A swap and the swap back by way of the one pair that joins two currencies give no gain, whichever
/// of the two comes first: one of them pays the ask and the other gets the bid.
pub proof fn lemma_swap_and_back(
    base: Seq<char>,
    quote: Seq<char>,
    amount: Double,
    store: TickerStoreView,
    fee: Double,
)
    requires
        store.quote_of(pair_text(base, quote)) matches Some(q) && sound_quote(q.bid, q.ask)
            && moderate(q.ask.value()),
        store.quote_of(pair_text(quote, base)) is None,
        plain(amount),
        moderate(amount.value()),
        fee.finite(),
        0 <= fee.value() <= unit(),
    ensures
        ({
            let there = swap(base, quote, amount, store, fee);
            let back = swap(quote, base, there.estimated_to_amount, store, fee);
            there.method == Some(SwapMethod::Sell) && back.method == Some(SwapMethod::Buy)
                ==> no_gain(back.estimated_to_amount, amount)
        }),
        ({
            let there = swap(quote, base, amount, store, fee);
            let back = swap(base, quote, there.estimated_to_amount, store, fee);
            there.method == Some(SwapMethod::Buy) && back.method == Some(SwapMethod::Sell)
                ==> no_gain(back.estimated_to_amount, amount)
        }),
        swap(base, quote, amount, store, fee).method != Some(SwapMethod::Buy),
        swap(quote, base, amount, store, fee).method != Some(SwapMethod::Sell),
{
    let q = store.quote_of(pair_text(base, quote))->0;
    lemma_plain(q.bid);
    lemma_plain(q.ask);
    lemma_kept(fee);
    assert(zero().value() == 0);
    let kept = difference(one(), fee);
    lemma_bought_then_sold(amount, q.bid, q.ask, kept);
    lemma_sold_then_bought(amount, q.bid, q.ask, kept);
}

/// What is left after trades is nothing or worth counting: after at least one trade the amount is zero
/// or, up to rounding, not below 1e-12.
pub proof fn lemma_no_dust_left(
    trades: Seq<TradeView>,
    i: nat,
    currency: Seq<char>,
    amount: Double,
    markets: Map<Seq<char>, MarketView>,
    store: TickerStoreView,
    fee: Double,
)
    requires
        i < trades.len(),
    ensures
        walked(trades, i, currency, amount, markets, store, fee) matches Ok(end) ==> !end.1.nan()
            ==> end.1 == zero() || 0x100_0000_0000 * (1_000_000_000_000 * end.1.value())
            >= 0xff_ffff_ffff * unit(),
    decreases trades.len() - i,
{
    match traded(trades[i as int], i as int, amount, markets, store, fee) {
        Err(_) => {},
        Ok((next, net)) => {
            if i + 1 < trades.len() {
                lemma_no_dust_left(trades, i + 1, next, net, markets, store, fee);
            } else {
                lemma_against_bounds(net);
            }
        },
    }
}

} // verus!
