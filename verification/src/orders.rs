//! What holds of the orders that carry out a cycle: each is on the side that its trade names, and
//! spends the currency that is at hand.
use crate::arbitrage::spfa::trades_on;
use crate::config::ConfigView;
use crate::decimal::{decimal_less, decimal_quotient, smaller_amount, Amount};
use crate::domain::{CycleView, MarketView, TradeView};
use crate::double::Double;
use crate::engine::{
    advanced, converts, entry_of, order_planned, settled_order, swap_planned, trade_planned, ExecError,
    OrderResponse, PathView, PlanView, Side,
};
use crate::store::TickerStoreView;
use crate::text::pair_text;
use vstd::prelude::*;

verus! {

broadcast use vstd::string::group_string_axioms;

/// Whether an order turns one currency into another on a market: a purchase takes the quote currency
/// and gives the base currency, a sale the other way round.
pub open spec fn turns(side: Side, m: MarketView, from: Seq<char>, to: Seq<char>) -> bool {
    match side {
        Side::Buy => m.quote == from && m.base == to,
        Side::Sell => m.base == from && m.quote == to,
    }
}

/// Whether an order is for an amount at hand: a sale sells it; a purchase spends it, or buys what it
/// buys at the ask, as the settings say.
pub open spec fn for_amount<P: Fn(Double) -> Amount>(
    p: PlanView,
    amount: (int, int),
    store: TickerStoreView,
    cfg: ConfigView,
    price_of: P,
) -> bool {
    match p.side {
        Side::Sell => p.quantity == Some(amount) && p.quote_quantity is None,
        Side::Buy => if cfg.use_quote_order_qty_for_buy {
            p.quote_quantity == Some(amount) && p.quantity is None
        } else {
            &&& p.quote_quantity is None
            &&& p.quantity is Some
            &&& store.quote_of(p.pair) matches Some(q) && exists|price: Amount| #[trigger]
                converts(price_of, q.ask, price) && decimal_quotient(amount, price@) == p.quantity
        },
    }
}

/// The order for a trade that lies on its market has the side that the trade names, is on the pair of
/// the trade, turns the currency at hand into the one that the trade leads to, and is for the amount
/// at hand. There is such an order where the trade starts from the currency at hand and is a sale, or
/// is paid in the quote currency; and none where it starts from another currency.
pub proof fn lemma_trade_order<P: Fn(Double) -> Amount>(
    r: Result<PlanView, ExecError>,
    t: TradeView,
    i: int,
    currency: Seq<char>,
    amount: (int, int),
    markets: Map<Seq<char>, MarketView>,
    store: TickerStoreView,
    cfg: ConfigView,
    price_of: P,
)
    requires
        trade_planned(r, t, i, currency, amount, markets, store, cfg, price_of),
        markets.contains_key(t.pair),
        trades_on(t, markets[t.pair]),
    ensures
        r matches Ok(p) ==> {
            &&& p.pair == t.pair
            &&& p.side.word() == t.kind
            &&& currency == t.from
            &&& turns(p.side, markets[p.pair], currency, t.to)
            &&& for_amount(p, amount, store, cfg, price_of)
        },
        currency == t.from && (t.kind == "SELL"@ || cfg.use_quote_order_qty_for_buy) ==> r is Ok,
        r == Err::<PlanView, ExecError>(ExecError::WrongCurrency(i as usize)) <==> currency != t.from,
{
    reveal_strlit("BUY");
    reveal_strlit("SELL");
    assert("BUY"@.len() != "SELL"@.len());
}

/// The order for a swap turns the currency at hand into the one that is wanted, and is for the amount
/// at hand, where the markets trade what their pairs are named after. There is none where no pair is
/// named after the two currencies.
pub proof fn lemma_swap_order<P: Fn(Double) -> Amount>(
    r: Result<PlanView, ExecError>,
    from: Seq<char>,
    to: Seq<char>,
    amount: (int, int),
    markets: Map<Seq<char>, MarketView>,
    store: TickerStoreView,
    cfg: ConfigView,
    price_of: P,
)
    requires
        swap_planned(r, from, to, amount, markets, store, cfg, price_of),
        well_named(markets, from, to),
        well_named(markets, to, from),
    ensures
        r matches Ok(p) ==> {
            &&& markets.contains_key(p.pair)
            &&& turns(p.side, markets[p.pair], from, to)
            &&& for_amount(p, amount, store, cfg, price_of)
        },
        r == Err::<PlanView, ExecError>(ExecError::NoRoute) <==> !markets.contains_key(
            pair_text(from, to),
        ) && !markets.contains_key(pair_text(to, from)),
{
}

/// Whether the market of the pair that is named after two currencies, where there is one, trades them.
pub open spec fn well_named(
    markets: Map<Seq<char>, MarketView>,
    base: Seq<char>,
    quote: Seq<char>,
) -> bool {
    markets.contains_key(pair_text(base, quote)) ==> markets[pair_text(base, quote)].base == base
        && markets[pair_text(base, quote)].quote == quote
}

/// What an order is reported to have spent is of the currency that it was to spend, and what it
/// brought of the one that it was to bring.
pub proof fn lemma_settled_currencies(
    order: OrderResponse,
    side: Side,
    m: MarketView,
    from: Seq<char>,
    to: Seq<char>,
)
    requires
        turns(side, m, from, to),
    ensures
        settled_order(order, side, m) matches Some(x) ==> {
            &&& x.side == side
            &&& x.spent_currency == from
            &&& x.received_currency == to
        },
{
}

/// Whether the trades of a cycle follow each other from its first node on, each on its market.
pub open spec fn carried_on(c: CycleView, markets: Map<Seq<char>, MarketView>) -> bool {
    &&& c.nodes.len() > 0
    &&& c.trades.len() > 0 ==> c.trades[0].from == c.nodes[0]
    &&& forall|i: int|
        0 < i < c.trades.len() ==> (#[trigger] c.trades[i]).from == c.trades[i - 1].to
    &&& forall|i: int|
        0 <= i < c.trades.len() ==> markets.contains_key((#[trigger] c.trades[i]).pair) && trades_on(
            c.trades[i],
            markets[c.trades[i].pair],
        )
}

/// Whether the currency at hand is the one that the next trade starts from.
pub open spec fn on_way(p: PathView) -> bool {
    let n = p.cycle.trades.len();
    &&& 1 <= p.place <= n ==> p.currency == p.cycle.trades[p.place - 1].from
    &&& p.place == n + 1 && n > 0 ==> p.currency == p.cycle.trades[n - 1].to
}

/// Carrying out a cycle never stands before a trade with the wrong currency: once the swap into the
/// first currency is made or not needed, the order for each trade turns the currency at hand into the
/// one that the next trade starts from, whatever the fills are.
pub proof fn lemma_orders_follow<P: Fn(Double) -> Amount>(
    p: PathView,
    plan: PlanView,
    received: (int, int),
    order: OrderResponse,
    markets: Map<Seq<char>, MarketView>,
    store: TickerStoreView,
    cfg: ConfigView,
    price_of: P,
)
    requires
        carried_on(p.cycle, markets),
        p.place <= p.cycle.trades.len(),
        on_way(p),
        p.place == 0 ==> p.currency != entry_of(p) && well_named(markets, p.currency, entry_of(p))
            && well_named(markets, entry_of(p), p.currency),
        order_planned(Ok(plan), p, markets, store, cfg, price_of),
    ensures
        markets.contains_key(plan.pair),
        for_amount(plan, p.amount, store, cfg, price_of),
        settled_order(order, plan.side, markets[plan.pair]) matches Some(x) ==> {
            let next = PathView {
                amount: received,
                currency: x.received_currency,
                place: p.place + 1,
                ..p
            };
            x.spent_currency == p.currency && on_way(next) && on_way(advanced(next))
        },
{
    let n = p.cycle.trades.len();
    if p.place == 0 {
        let to = entry_of(p);
        lemma_swap_order(
            Ok(plan),
            p.currency,
            to,
            p.amount,
            markets,
            store,
            cfg,
            price_of,
        );
        lemma_settled_currencies(order, plan.side, markets[plan.pair], p.currency, to);
    } else {
        let t = p.cycle.trades[p.place - 1];
        lemma_trade_order(
            Ok(plan),
            t,
            p.place - 1,
            p.currency,
            p.amount,
            markets,
            store,
            cfg,
            price_of,
        );
        lemma_settled_currencies(order, plan.side, markets[plan.pair], p.currency, t.to);
        if p.place < n {
            assert(p.cycle.trades[p.place as int].from == p.cycle.trades[p.place - 1].to);
        }
    }
}

/// What a cycle is begun with is no more than the balance and no more than the settings allow, and is
/// one of the two.
pub proof fn lemma_begins_with(balance: (int, int), most: (int, int))
    ensures
        !decimal_less(balance, smaller_amount(balance, most)),
        !decimal_less(most, smaller_amount(balance, most)),
        smaller_amount(balance, most) == balance || smaller_amount(balance, most) == most,
{
}

} // verus!
