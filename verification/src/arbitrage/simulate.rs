//! The simulation of a cycle at the best prices: what a start amount becomes, and whether that is
//! profit enough.
use crate::config::{Config, ConfigView};
use crate::decimal::{
    decimal_less, lemma_number_sign, lemma_zero_number, stands_for, zero_amount, Amount,
};
use crate::domain::{
    trade_views, CycleInfo, CycleView, Market, MarketView, Markets, Ticker, Trade, TradeView,
};
use crate::double::{
    at_most, difference, hundred, lemma_units_increase, lemma_unsigned, lemma_unsigned_difference,
    less, one, product, quotient, unsigned, zero, Double, HUNDRED_BITS,
};
use crate::store::{TickerStore, TickerStoreView};
use crate::text::{pair_name, pair_text};
use vstd::arithmetic::power::pow;
use vstd::prelude::*;

verus! {

broadcast use vstd::string::group_string_axioms;

/// The bits of 1e-12: amounts below count as nothing.
pub const DUST_BITS: u64 = 0x3d71_9799_812d_ea11;

/// The bits of -1e-9: amounts below are an error.
pub const DEBT_BITS: u64 = 0xbe11_2e0b_e826_d695;

/// The bits of -999, the profit where nothing was simulated.
pub const NO_RESULT_BITS: u64 = 0xc08f_3800_0000_0000;

/// The bits of -998, the profit where it cannot be computed.
pub const NO_PROFIT_BITS: u64 = 0xc08f_3000_0000_0000;

/// The bits of -997, the profit where the cycle ends in another currency.
pub const WRONG_END_BITS: u64 = 0xc08f_2800_0000_0000;

/// 1e-12.
pub open spec fn dust() -> Double {
    Double { bits: DUST_BITS }
}

/// How an amount was swapped.
#[derive(Clone, Copy, Debug, PartialEq, Eq, Structural)]
pub enum SwapMethod {
    Sell,
    Buy,
    Intermediate,
}

/// The estimate of a swap.
#[derive(Clone, Copy, Debug)]
pub struct SwapResult {
    pub estimated_to_amount: Double,
    pub method: Option<SwapMethod>,
}

/// What is left of an amount after a sale at a price and the fee.
pub open spec fn sold(amount: Double, bid: Double, fee: Double) -> Double {
    product(product(amount, bid), difference(one(), fee))
}

/// What an amount buys at a price, without the fee.
pub open spec fn bought(amount: Double, ask: Double, fee: Double) -> Double {
    product(quotient(amount, ask), difference(one(), fee))
}

/// The swap by a sale on the pair of the two currencies.
pub open spec fn sale(
    from: Seq<char>,
    to: Seq<char>,
    amount: Double,
    store: TickerStoreView,
    fee: Double,
) -> SwapResult {
    let none = SwapResult { estimated_to_amount: zero(), method: None };
    match store.quote_of(pair_text(from, to)) {
        Some(t) => if less(zero(), t.bid) {
            SwapResult {
                estimated_to_amount: sold(amount, t.bid, fee),
                method: Some(SwapMethod::Sell),
            }
        } else {
            none
        },
        None => none,
    }
}

/// A swap that has brought nothing yet, by a purchase on the pair of the two currencies.
pub open spec fn or_purchase(
    so_far: SwapResult,
    from: Seq<char>,
    to: Seq<char>,
    amount: Double,
    store: TickerStoreView,
    fee: Double,
) -> SwapResult {
    if at_most(so_far.estimated_to_amount, zero()) {
        match store.quote_of(pair_text(to, from)) {
            Some(t) => if less(zero(), t.ask) {
                SwapResult {
                    estimated_to_amount: bought(amount, t.ask, fee),
                    method: Some(SwapMethod::Buy),
                }
            } else {
                so_far
            },
            None => so_far,
        }
    } else {
        so_far
    }
}

/// A swap that has brought nothing yet, by a sale for USDT and a purchase with them.
pub open spec fn or_intermediate(
    so_far: SwapResult,
    from: Seq<char>,
    to: Seq<char>,
    amount: Double,
    store: TickerStoreView,
    fee: Double,
) -> SwapResult {
    if at_most(so_far.estimated_to_amount, zero()) {
        match (
            store.quote_of(pair_text(from, "USDT"@)),
            store.quote_of(pair_text(to, "USDT"@)),
        ) {
            (Some(f), Some(t)) => {
                let between = sold(amount, f.bid, fee);
                if less(zero(), f.bid) && less(zero(), t.ask) && less(dust(), between) {
                    SwapResult {
                        estimated_to_amount: bought(between, t.ask, fee),
                        method: Some(SwapMethod::Intermediate),
                    }
                } else {
                    so_far
                }
            },
            _ => so_far,
        }
    } else {
        so_far
    }
}

/// The estimate of a swap: a sale, else a purchase, else both by way of USDT; nothing where that
/// gives no finite amount.
pub open spec fn swap(
    from: Seq<char>,
    to: Seq<char>,
    amount: Double,
    store: TickerStoreView,
    fee: Double,
) -> SwapResult {
    let direct = or_purchase(sale(from, to, amount, store, fee), from, to, amount, store, fee);
    let r = or_intermediate(direct, from, to, amount, store, fee);
    if less(r.estimated_to_amount, zero()) || !r.estimated_to_amount.finite() {
        SwapResult { estimated_to_amount: zero(), method: None }
    } else {
        r
    }
}

/// Estimates what an amount of one currency brings of another.
pub fn simulate_swap(
    from_currency: &str,
    to_currency: &str,
    from_amount: Double,
    tickers: &TickerStore,
    fee_rate: Double,
) -> (r: SwapResult)
    requires
        tickers.wf(),
    ensures
        r == swap(from_currency@, to_currency@, from_amount, tickers@, fee_rate),
{
    let nothing: Double = Double::zero_value();
    let kept: Double = Double::one_value().minus(fee_rate);
    let mut out = SwapResult { estimated_to_amount: nothing, method: None };
    let backward: String = pair_name(from_currency, to_currency);
    match tickers.get_by_pair(backward.as_str()) {
        Some(t) => {
            if t.bid.gt(nothing) {
                out = SwapResult {
                    estimated_to_amount: from_amount.times(t.bid).times(kept),
                    method: Some(SwapMethod::Sell),
                };
            }
        },
        None => {},
    }
    if out.estimated_to_amount.le(nothing) {
        let forward: String = pair_name(to_currency, from_currency);
        match tickers.get_by_pair(forward.as_str()) {
            Some(t) => {
                if t.ask.gt(nothing) {
                    out = SwapResult {
                        estimated_to_amount: from_amount.over(t.ask).times(kept),
                        method: Some(SwapMethod::Buy),
                    };
                }
            },
            None => {},
        }
    }
    if out.estimated_to_amount.le(nothing) {
        let first: String = pair_name(from_currency, "USDT");
        let second: String = pair_name(to_currency, "USDT");
        match (tickers.get_by_pair(first.as_str()), tickers.get_by_pair(second.as_str())) {
            (Some(f), Some(t)) => {
                if f.bid.gt(nothing) && t.ask.gt(nothing) {
                    let between: Double = from_amount.times(f.bid).times(kept);
                    if between.gt(Double { bits: DUST_BITS }) {
                        out = SwapResult {
                            estimated_to_amount: between.over(t.ask).times(kept),
                            method: Some(SwapMethod::Intermediate),
                        };
                    }
                }
            },
            _ => {},
        }
    }
    if out.estimated_to_amount.lt(nothing) || !out.estimated_to_amount.is_finite() {
        out = SwapResult { estimated_to_amount: nothing, method: None };
    }
    out
}

/// Why a cycle could not be simulated. The numbers are places in its list of trades.
#[derive(Clone, Copy, Debug, PartialEq, Eq, Structural)]
pub enum SimError {
    MissingMarket(usize),
    MissingTicker(usize),
    /// The price to buy at is not a positive number.
    BadAsk(usize),
    /// The price to sell at is not a positive number.
    BadBid(usize),
    /// The trade is neither a purchase nor a sale.
    UnknownKind(usize),
    NegativeAmount(usize),
}

/// Whether a price is a positive number.
pub open spec fn is_price(x: Double) -> bool {
    x.finite() && less(zero(), x)
}

/// What a trade makes of an amount: the currency and the amount after it.
pub open spec fn traded(
    t: TradeView,
    i: int,
    amount: Double,
    markets: Map<Seq<char>, MarketView>,
    store: TickerStoreView,
    fee: Double,
) -> Result<(Seq<char>, Double), SimError> {
    if !markets.contains_key(t.pair) {
        Err(SimError::MissingMarket(i as usize))
    } else {
        match store.quote_of(t.pair) {
            None => Err(SimError::MissingTicker(i as usize)),
            Some(q) => if t.kind == "BUY"@ {
                if is_price(q.ask) {
                    Ok((markets[t.pair].base, bought(amount, q.ask, fee)))
                } else {
                    Err(SimError::BadAsk(i as usize))
                }
            } else if t.kind == "SELL"@ {
                if is_price(q.bid) {
                    Ok((markets[t.pair].quote, sold(amount, q.bid, fee)))
                } else {
                    Err(SimError::BadBid(i as usize))
                }
            } else {
                Err(SimError::UnknownKind(i as usize))
            },
        }
    }
}

/// What the trades from place `i` on make of an amount. They end early where it comes to nothing.
pub open spec fn walked(
    trades: Seq<TradeView>,
    i: nat,
    currency: Seq<char>,
    amount: Double,
    markets: Map<Seq<char>, MarketView>,
    store: TickerStoreView,
    fee: Double,
) -> Result<(Seq<char>, Double), SimError>
    decreases trades.len() - i,
{
    if i >= trades.len() {
        Ok((currency, amount))
    } else {
        match traded(trades[i as int], i as int, amount, markets, store, fee) {
            Err(e) => Err(e),
            Ok((next, net)) => if less(net, Double { bits: DEBT_BITS }) {
                Err(SimError::NegativeAmount(i as usize))
            } else if less(net, dust()) {
                Ok((next, zero()))
            } else {
                walked(trades, i + 1, next, net, markets, store, fee)
            },
        }
    }
}

/// The outcome of a simulation.
#[derive(Debug)]
pub struct FullSimResult {
    /// Whether the profit is as large as was asked for.
    pub verified: bool,
    pub profit_percent: Double,
    pub profit_amount: Double,
    pub final_amount: Double,
    pub final_currency: String,
    pub reason: String,
}

/// The outcome of a simulation, its texts as sequences.
#[verifier::ext_equal]
pub struct FullSimView {
    pub verified: bool,
    pub profit_percent: Double,
    pub profit_amount: Double,
    pub final_amount: Double,
    pub final_currency: Seq<char>,
    pub reason: Seq<char>,
}

impl View for FullSimResult {
    type V = FullSimView;

    open spec fn view(&self) -> FullSimView {
        FullSimView {
            verified: self.verified,
            profit_percent: self.profit_percent,
            profit_amount: self.profit_amount,
            final_amount: self.final_amount,
            final_currency: self.final_currency@,
            reason: self.reason@,
        }
    }
}

/// The outcome where nothing was simulated.
pub open spec fn not_simulated(currency: Seq<char>, reason: Seq<char>) -> FullSimView {
    FullSimView {
        verified: false,
        profit_percent: Double { bits: NO_RESULT_BITS },
        profit_amount: zero(),
        final_amount: zero(),
        final_currency: currency,
        reason,
    }
}

/// The reason where the start amount cannot be swapped into the currency of the cycle.
pub open spec fn no_swap_text(from: Seq<char>, to: Seq<char>) -> Seq<char> {
    "模拟初始闪兑 ("@ + from + " -> "@ + to + ") 失败或无路径"@
}

/// The reason where start and end are of different currencies.
pub open spec fn no_rate_text(start: Seq<char>, target: Seq<char>) -> Seq<char> {
    "起始("@ + start + "), 目标("@ + target + "), 无法计算利润率"@
}

/// Whether the cycle is entered after its first trade, which would only give the start amount's
/// own currency back.
pub open spec fn skips_first(c: CycleView, start: Seq<char>) -> bool {
    &&& c.trades.len() > 1
    &&& start != c.nodes[0]
    &&& c.trades[0].from == c.nodes[0]
    &&& c.trades[0].to == start
}

/// The profit in percent of a start amount.
pub open spec fn percent_of(profit: Double, start: Double) -> Double {
    if less(dust(), start) {
        product(quotient(profit, start), hundred())
    } else {
        zero()
    }
}

/// The outcome with an amount at the end of the cycle, in the currency that was asked for.
pub open spec fn judged(
    start_currency: Seq<char>,
    start: Double,
    positive: bool,
    target: Seq<char>,
    amount: Double,
    min_profit: Double,
) -> FullSimView {
    if start_currency == target {
        let profit = difference(amount, start);
        let percent = if positive {
            percent_of(profit, start)
        } else {
            zero()
        };
        let counts = percent.finite() && percent.bits != NO_PROFIT_BITS;
        FullSimView {
            verified: counts && less(min_profit, percent),
            profit_percent: percent,
            profit_amount: profit,
            final_amount: amount,
            final_currency: target,
            reason: if !counts {
                "未达标"@
            } else if less(min_profit, percent) {
                "模拟利润率达标"@
            } else {
                "模拟利润率未达标"@
            },
        }
    } else {
        FullSimView {
            verified: false,
            profit_percent: Double { bits: NO_PROFIT_BITS },
            profit_amount: amount,
            final_amount: amount,
            final_currency: target,
            reason: no_rate_text(start_currency, target),
        }
    }
}

/// What is asked of a simulation: where it starts, with how much, what it is to end in, and the
/// fee and profit that count. `positive` says whether the exact start amount is above zero.
pub struct SimRequest {
    pub currency: Seq<char>,
    pub amount: Double,
    pub positive: bool,
    pub settle: Option<Seq<char>>,
    pub fee: Double,
    pub min_profit: Double,
}

/// The currency that the simulation is to end in.
pub open spec fn target_of(q: SimRequest) -> Seq<char> {
    match q.settle {
        Some(c) => c,
        None => q.currency,
    }
}

/// The outcome of a simulation from the end of the cycle on.
pub open spec fn settled_outcome(
    q: SimRequest,
    currency: Seq<char>,
    amount: Double,
    store: TickerStoreView,
) -> FullSimView {
    let target = target_of(q);
    let last = swap(currency, target, amount, store, q.fee).estimated_to_amount;
    if currency == target {
        judged(q.currency, q.amount, q.positive, target, amount, q.min_profit)
    } else if q.settle is Some && less(dust(), last) {
        judged(q.currency, q.amount, q.positive, target, last, q.min_profit)
    } else {
        FullSimView {
            verified: false,
            profit_percent: Double { bits: WRONG_END_BITS },
            profit_amount: zero(),
            final_amount: amount,
            final_currency: currency,
            reason: "最终货币与目标不符"@,
        }
    }
}

/// The outcome of simulating a cycle.
pub open spec fn simulation(
    c: CycleView,
    q: SimRequest,
    markets: Map<Seq<char>, MarketView>,
    store: TickerStoreView,
) -> Result<FullSimView, SimError> {
    if c.nodes.len() == 0 {
        Ok(not_simulated(q.currency, "cycle 缺少 nodes"@))
    } else {
        let skip = skips_first(c, q.currency);
        let enters = !skip && q.currency != c.nodes[0];
        let first = swap(q.currency, c.nodes[0], q.amount, store, q.fee).estimated_to_amount;
        if enters && !less(dust(), first) {
            Ok(not_simulated(q.currency, no_swap_text(q.currency, c.nodes[0])))
        } else {
            let way = if enters {
                walked(c.trades, 0, c.nodes[0], first, markets, store, q.fee)
            } else {
                walked(
                    c.trades,
                    if skip {
                        1
                    } else {
                        0
                    },
                    q.currency,
                    q.amount,
                    markets,
                    store,
                    q.fee,
                )
            };
            match way {
                Err(e) => Err(e),
                Ok((currency, amount)) => Ok(settled_outcome(q, currency, amount, store)),
            }
        }
    }
}

/// An outcome as a view.
pub open spec fn outcome_view(r: Result<FullSimResult, SimError>) -> Result<FullSimView, SimError> {
    match r {
        Ok(x) => Ok(x@),
        Err(e) => Err(e),
    }
}

/// The text of an optional currency.
pub open spec fn settle_text(settle: Option<&str>) -> Option<Seq<char>> {
    match settle {
        Some(s) => Some(s@),
        None => None,
    }
}

/// Follows the trades of a cycle from a place on.
fn walk(
    trades: &Vec<Trade>,
    from: usize,
    currency: String,
    amount: Double,
    markets: &Markets,
    tickers: &TickerStore,
    fee: Double,
) -> (r: Result<(String, Double), SimError>)
    requires
        tickers.wf(),
        markets.wf(),
        from <= trades@.len(),
    ensures
        match r {
            Ok((c, a)) => walked(
                trade_views(trades@),
                from as nat,
                currency@,
                amount,
                markets@,
                tickers@,
                fee,
            ) == Ok::<(Seq<char>, Double), SimError>((c@, a)),
            Err(e) => walked(
                trade_views(trades@),
                from as nat,
                currency@,
                amount,
                markets@,
                tickers@,
                fee,
            ) == Err::<(Seq<char>, Double), SimError>(e),
        },
{
    let ghost views = trade_views(trades@);
    let ghost whole = walked(views, from as nat, currency@, amount, markets@, tickers@, fee);
    let kept: Double = Double::one_value().minus(fee);
    let mut held: String = currency;
    let mut sum: Double = amount;
    let mut i: usize = from;
    while i < trades.len()
        invariant
            i <= trades@.len(),
            tickers.wf(),
            markets.wf(),
            views == trade_views(trades@),
            kept == difference(one(), fee),
            whole == walked(views, from as nat, currency@, amount, markets@, tickers@, fee),
            whole == walked(views, i as nat, held@, sum, markets@, tickers@, fee),
        decreases trades.len() - i,
    {
        let trade: &Trade = &trades[i];
        assert(views[i as int] == trade@);
        let market: &Market = match markets.get(trade.pair.as_str()) {
            Some(m) => m,
            None => {
                return Err(SimError::MissingMarket(i));
            },
        };
        let ticker: Ticker = match tickers.get_by_pair(trade.pair.as_str()) {
            Some(t) => t,
            None => {
                return Err(SimError::MissingTicker(i));
            },
        };
        let nothing: Double = Double::zero_value();
        let net: Double;
        if *trade.kind.as_str() == *"BUY" {
            let price: Double = ticker.ask;
            if !(price.is_finite() && price.gt(nothing)) {
                return Err(SimError::BadAsk(i));
            }
            held = market.base.clone();
            net = sum.over(price).times(kept);
        } else if *trade.kind.as_str() == *"SELL" {
            let price: Double = ticker.bid;
            if !(price.is_finite() && price.gt(nothing)) {
                return Err(SimError::BadBid(i));
            }
            held = market.quote.clone();
            net = sum.times(price).times(kept);
        } else {
            return Err(SimError::UnknownKind(i));
        }
        if net.lt(Double { bits: DEBT_BITS }) {
            return Err(SimError::NegativeAmount(i));
        }
        if net.lt(Double { bits: DUST_BITS }) {
            return Ok((held, nothing));
        }
        sum = net;
        i = i + 1;
    }
    Ok((held, sum))
}

/// Simulates a cycle, with all that is asked of it given as numbers.
pub fn simulate(
    cycle: &CycleInfo,
    start_currency: &str,
    start_amount: Double,
    positive: bool,
    settle: Option<&str>,
    tickers: &TickerStore,
    markets: &Markets,
    fee_rate: Double,
    min_profit: Double,
) -> (r: Result<FullSimResult, SimError>)
    requires
        tickers.wf(),
        markets.wf(),
    ensures
        outcome_view(r) == simulation(
            cycle@,
            (SimRequest {
                currency: start_currency@,
                amount: start_amount,
                positive,
                settle: settle_text(settle),
                fee: fee_rate,
                min_profit,
            }),
            markets@,
            tickers@,
        ),
{
    let ghost q = SimRequest {
        currency: start_currency@,
        amount: start_amount,
        positive,
        settle: settle_text(settle),
        fee: fee_rate,
        min_profit,
    };
    let nothing: Double = Double::zero_value();
    if cycle.nodes.len() == 0 {
        return Ok(
            FullSimResult {
                verified: false,
                profit_percent: Double { bits: NO_RESULT_BITS },
                profit_amount: nothing,
                final_amount: nothing,
                final_currency: start_currency.to_owned(),
                reason: "cycle 缺少 nodes".to_owned(),
            },
        );
    }
    let cycle_start: &String = &cycle.nodes[0];
    assert(cycle@.nodes[0] == cycle_start@);
    let mut currency: String = start_currency.to_owned();
    let mut amount: Double = start_amount;
    let at_start: bool = *start_currency == *cycle_start.as_str();
    let mut first_trade: usize = 0;
    if cycle.trades.len() > 1 && !at_start {
        let first: &Trade = &cycle.trades[0];
        assert(cycle@.trades[0] == first@);
        if *first.from.as_str() == *cycle_start.as_str() && *first.to.as_str() == *start_currency {
            first_trade = 1;
        }
    }
    assert((first_trade == 1) == skips_first(cycle@, start_currency@));
    if first_trade == 0 && !at_start {
        let entry: SwapResult = simulate_swap(
            start_currency,
            cycle_start.as_str(),
            start_amount,
            tickers,
            fee_rate,
        );
        if entry.estimated_to_amount.gt(Double { bits: DUST_BITS }) {
            amount = entry.estimated_to_amount;
            currency = cycle_start.clone();
        } else {
            let mut reason: String = "模拟初始闪兑 (".to_owned();
            reason.append(start_currency);
            reason.append(" -> ");
            reason.append(cycle_start.as_str());
            reason.append(") 失败或无路径");
            return Ok(
                FullSimResult {
                    verified: false,
                    profit_percent: Double { bits: NO_RESULT_BITS },
                    profit_amount: nothing,
                    final_amount: nothing,
                    final_currency: currency,
                    reason,
                },
            );
        }
    }
    let (end, end_amount): (String, Double) = match walk(
        &cycle.trades,
        first_trade,
        currency,
        amount,
        markets,
        tickers,
        fee_rate,
    ) {
        Ok(x) => x,
        Err(e) => {
            return Err(e);
        },
    };
    let target: &str = match settle {
        Some(c) => c,
        None => start_currency,
    };
    let mut final_currency: String = end;
    let mut final_amount: Double = end_amount;
    if settle.is_some() && !(*final_currency.as_str() == *target) {
        let exit: SwapResult = simulate_swap(
            final_currency.as_str(),
            target,
            final_amount,
            tickers,
            fee_rate,
        );
        if exit.estimated_to_amount.gt(Double { bits: DUST_BITS }) {
            final_amount = exit.estimated_to_amount;
            final_currency = target.to_owned();
        }
    }
    if !(*final_currency.as_str() == *target) {
        return Ok(
            FullSimResult {
                verified: false,
                profit_percent: Double { bits: WRONG_END_BITS },
                profit_amount: nothing,
                final_amount,
                final_currency,
                reason: "最终货币与目标不符".to_owned(),
            },
        );
    }
    Ok(judge(start_currency, start_amount, positive, target, final_amount, min_profit))
}

/// Judges the amount at the end of a cycle.
fn judge(
    start_currency: &str,
    start_amount: Double,
    positive: bool,
    target: &str,
    final_amount: Double,
    min_profit: Double,
) -> (r: FullSimResult)
    ensures
        r@ == judged(start_currency@, start_amount, positive, target@, final_amount, min_profit),
{
    if !(*start_currency == *target) {
        let mut reason: String = "起始(".to_owned();
        reason.append(start_currency);
        reason.append("), 目标(");
        reason.append(target);
        reason.append("), 无法计算利润率");
        return FullSimResult {
            verified: false,
            profit_percent: Double { bits: NO_PROFIT_BITS },
            profit_amount: final_amount,
            final_amount,
            final_currency: target.to_owned(),
            reason,
        };
    }
    let profit: Double = final_amount.minus(start_amount);
    let mut percent: Double = Double::zero_value();
    if positive && start_amount.gt(Double { bits: DUST_BITS }) {
        percent = profit.over(start_amount).times(Double { bits: HUNDRED_BITS });
    }
    let counts: bool = percent.is_finite() && percent.bits != NO_PROFIT_BITS;
    let verified: bool = counts && percent.gt(min_profit);
    let reason: String = if !counts {
        "未达标".to_owned()
    } else if verified {
        "模拟利润率达标".to_owned()
    } else {
        "模拟利润率未达标".to_owned()
    };
    FullSimResult {
        verified,
        profit_percent: percent,
        profit_amount: profit,
        final_amount,
        final_currency: target.to_owned(),
        reason,
    }
}

/// Whether a simulation is asked for with a start amount, a currency to end in, and the fee and the
/// profit of the settings.
pub open spec fn asked_by(
    q: SimRequest,
    currency: Seq<char>,
    amount: (int, int),
    settle: Option<Seq<char>>,
    cfg: ConfigView,
) -> bool {
    &&& q.currency == currency
    &&& stands_for(q.amount, amount)
    &&& q.positive == decimal_less(zero_amount(), amount)
    &&& q.settle == settle
    &&& stands_for(q.fee, cfg.taker_fee_rate)
    &&& stands_for(q.min_profit, cfg.min_profit_full_sim_percent)
}

/// Simulates a cycle with a start amount, the fee and the profit of the settings, and with a swap
/// into `settle` at its end. The amounts become the numbers that `Amount::to_double` gives; where
/// an amount has a fraction, the last digits of its number are not stated.
pub fn simulate_settled(
    cycle: &CycleInfo,
    actual_start_currency: &str,
    actual_start_amount: &Amount,
    settle: Option<&str>,
    tickers: &TickerStore,
    markets: &Markets,
    cfg: &Config,
) -> (r: Result<FullSimResult, SimError>)
    requires
        tickers.wf(),
        markets.wf(),
    ensures
        exists|q: SimRequest| #[trigger]
            asked_by(q, actual_start_currency@, actual_start_amount@, settle_text(settle), cfg@)
                && outcome_view(r) == simulation(cycle@, q, markets@, tickers@),
{
    let fee: Double = cfg.taker_fee_rate.to_double();
    let min_profit: Double = cfg.min_profit_full_sim_percent.to_double();
    let start: Double = actual_start_amount.to_double();
    let positive: bool = Amount::zero().lt(actual_start_amount);
    let ghost q = SimRequest {
        currency: actual_start_currency@,
        amount: start,
        positive,
        settle: settle_text(settle),
        fee,
        min_profit,
    };
    assert(asked_by(q, actual_start_currency@, actual_start_amount@, settle_text(settle), cfg@));
    simulate(
        cycle,
        actual_start_currency,
        start,
        positive,
        settle,
        tickers,
        markets,
        fee,
        min_profit,
    )
}

/// USDT, where a simulation is to end in it.
pub open spec fn usdt_if(end_with_usdt: bool) -> Option<Seq<char>> {
    if end_with_usdt {
        Some("USDT"@)
    } else {
        None
    }
}

/// Simulates a cycle with a start amount, the fee and the profit of the settings, to end in USDT
/// or in the currency it starts with.
pub fn simulate_full(
    cycle: &CycleInfo,
    actual_start_currency: &str,
    actual_start_amount: &Amount,
    end_with_usdt: bool,
    tickers: &TickerStore,
    markets: &Markets,
    cfg: &Config,
) -> (r: Result<FullSimResult, SimError>)
    requires
        tickers.wf(),
        markets.wf(),
    ensures
        exists|q: SimRequest| #[trigger]
            asked_by(
                q,
                actual_start_currency@,
                actual_start_amount@,
                usdt_if(end_with_usdt),
                cfg@,
            ) && outcome_view(r) == simulation(cycle@, q, markets@, tickers@),
{
    let settle: Option<&str> = if end_with_usdt {
        Some("USDT")
    } else {
        None
    };
    simulate_settled(
        cycle,
        actual_start_currency,
        actual_start_amount,
        settle,
        tickers,
        markets,
        cfg,
    )
}

/// Whether the way round a cycle begins: it has nodes, and the start amount is in the currency of the
/// first one, in that of the second with the first trade left out, or can be swapped.
pub open spec fn gets_in(c: CycleView, q: SimRequest, store: TickerStoreView) -> bool {
    &&& c.nodes.len() > 0
    &&& {
        ||| q.currency == c.nodes[0]
        ||| skips_first(c, q.currency)
        ||| less(dust(), swap(q.currency, c.nodes[0], q.amount, store, q.fee).estimated_to_amount)
    }
}

/// The outcome with an amount at the end is verified where the start is of the currency that was
/// asked for and the profit is a number above what was asked for.
proof fn lemma_judged(
    start_currency: Seq<char>,
    start: Double,
    positive: bool,
    target: Seq<char>,
    amount: Double,
    min_profit: Double,
)
    ensures
        ({
            let r = judged(start_currency, start, positive, target, amount, min_profit);
            &&& r.final_currency == target
            &&& r.verified <==> {
                &&& start_currency == target
                &&& r.profit_percent.finite()
                &&& r.profit_percent.bits != NO_PROFIT_BITS
                &&& less(min_profit, r.profit_percent)
            }
        }),
{
}

/// A simulation is verified where, and only where, it gets into the cycle, it ends in the currency
/// that was asked for, that is the one it started with, and its profit is a number above what was
/// asked for.
pub proof fn lemma_verified(
    c: CycleView,
    q: SimRequest,
    markets: Map<Seq<char>, MarketView>,
    store: TickerStoreView,
)
    ensures
        simulation(c, q, markets, store) matches Ok(r) ==> (r.verified <==> {
            &&& gets_in(c, q, store)
            &&& r.final_currency == target_of(q)
            &&& q.currency == target_of(q)
            &&& r.profit_percent.finite()
            &&& r.profit_percent.bits != NO_PROFIT_BITS
            &&& less(q.min_profit, r.profit_percent)
        }),
{
    if gets_in(c, q, store) {
        let skip = skips_first(c, q.currency);
        let enters = !skip && q.currency != c.nodes[0];
        let first = swap(q.currency, c.nodes[0], q.amount, store, q.fee).estimated_to_amount;
        let way = if enters {
            walked(c.trades, 0, c.nodes[0], first, markets, store, q.fee)
        } else {
            walked(
                c.trades,
                if skip {
                    1
                } else {
                    0
                },
                q.currency,
                q.amount,
                markets,
                store,
                q.fee,
            )
        };
        match way {
            Err(_) => {},
            Ok((currency, amount)) => {
                assert(simulation(c, q, markets, store) == Ok::<FullSimView, SimError>(
                    settled_outcome(q, currency, amount, store),
                ));
                let target = target_of(q);
                let last = swap(currency, target, amount, store, q.fee).estimated_to_amount;
                lemma_judged(q.currency, q.amount, q.positive, target, amount, q.min_profit);
                lemma_judged(q.currency, q.amount, q.positive, target, last, q.min_profit);
            },
        }
    }
}

/// Whether a trade cannot be simulated: its market or its quote is missing, or it is neither a
/// purchase nor a sale.
pub open spec fn lacks_data(
    t: TradeView,
    markets: Map<Seq<char>, MarketView>,
    store: TickerStoreView,
) -> bool {
    ||| !markets.contains_key(t.pair)
    ||| store.quote_of(t.pair) is None
    ||| t.kind != "BUY"@ && t.kind != "SELL"@
}

/// The amount with which the trade at place `j` is reached, from the one at place `from` on; none
/// where an earlier trade fails or leaves next to nothing.
pub open spec fn amount_at(
    trades: Seq<TradeView>,
    from: nat,
    amount: Double,
    j: nat,
    markets: Map<Seq<char>, MarketView>,
    store: TickerStoreView,
    fee: Double,
) -> Option<Double>
    decreases j,
{
    if j <= from {
        Some(amount)
    } else {
        match amount_at(trades, from, amount, (j - 1) as nat, markets, store, fee) {
            None => None,
            Some(held) => match traded(trades[j - 1], j - 1, held, markets, store, fee) {
                Err(_) => None,
                Ok((_, net)) => if less(net, dust()) {
                    None
                } else {
                    Some(net)
                },
            },
        }
    }
}

/// Whether the trades from a place on come upon one that cannot be simulated.
pub open spec fn meets_gap(
    trades: Seq<TradeView>,
    from: nat,
    amount: Double,
    markets: Map<Seq<char>, MarketView>,
    store: TickerStoreView,
    fee: Double,
) -> bool {
    exists|j: nat|
        from <= j < trades.len() && #[trigger] amount_at(
            trades,
            from,
            amount,
            j,
            markets,
            store,
            fee,
        ) is Some && lacks_data(trades[j as int], markets, store)
}

/// The amounts from a place on are those from the next place on with what the trade there leaves.
proof fn lemma_amount_at(
    trades: Seq<TradeView>,
    from: nat,
    amount: Double,
    j: nat,
    markets: Map<Seq<char>, MarketView>,
    store: TickerStoreView,
    fee: Double,
)
    requires
        from < j,
    ensures
        amount_at(trades, from, amount, j, markets, store, fee) == (match traded(
            trades[from as int],
            from as int,
            amount,
            markets,
            store,
            fee,
        ) {
            Err(_) => None,
            Ok((_, net)) => if less(net, dust()) {
                None
            } else {
                amount_at(trades, from + 1, net, j, markets, store, fee)
            },
        }),
    decreases j,
{
    if j > from + 1 {
        lemma_amount_at(trades, from, amount, (j - 1) as nat, markets, store, fee);
    } else {
        assert(amount_at(trades, from, amount, from, markets, store, fee) == Some(amount));
    }
}

/// A trade with its data leaves an amount that is not negative, where the fee is from zero to one
/// and the amount before it was not negative.
proof fn lemma_traded(
    t: TradeView,
    i: int,
    amount: Double,
    markets: Map<Seq<char>, MarketView>,
    store: TickerStoreView,
    fee: Double,
)
    requires
        at_most(zero(), fee),
        at_most(fee, one()),
        unsigned(amount),
    ensures
        traded(t, i, amount, markets, store, fee) is Err <==> lacks_data(t, markets, store),
        traded(t, i, amount, markets, store, fee) matches Ok((_, net)) ==> unsigned(net),
{
    let kept = difference(one(), fee);
    lemma_one_finite();
    if fee.infinite() {
        lemma_units_increase(one().magnitude(), fee.magnitude());
    }
    lemma_unsigned_difference(one(), fee);
    match store.quote_of(t.pair) {
        Some(q) => {
            lemma_price_unsigned(q.bid);
            lemma_price_unsigned(q.ask);
            lemma_unsigned(amount, q.bid);
            lemma_unsigned(product(amount, q.bid), kept);
            lemma_unsigned(amount, q.ask);
            lemma_unsigned(quotient(amount, q.ask), kept);
        },
        None => {},
    }
}

proof fn lemma_one_finite()
    ensures
        one().finite(),
        !one().negative(),
{
}

proof fn lemma_price_unsigned(x: Double)
    ensures
        less(zero(), x) ==> unsigned(x),
{
}

proof fn lemma_walked_errors(
    trades: Seq<TradeView>,
    i: nat,
    currency: Seq<char>,
    amount: Double,
    markets: Map<Seq<char>, MarketView>,
    store: TickerStoreView,
    fee: Double,
)
    requires
        at_most(zero(), fee),
        at_most(fee, one()),
        unsigned(amount),
    ensures
        walked(trades, i, currency, amount, markets, store, fee) is Err <==> meets_gap(
            trades,
            i,
            amount,
            markets,
            store,
            fee,
        ),
    decreases trades.len() - i,
{
    if i < trades.len() {
        lemma_traded(trades[i as int], i as int, amount, markets, store, fee);
        assert(amount_at(trades, i, amount, i, markets, store, fee) == Some(amount));
        match traded(trades[i as int], i as int, amount, markets, store, fee) {
            Err(_) => {},
            Ok((next, net)) => {
                lemma_walked_errors(trades, i + 1, next, net, markets, store, fee);
                if meets_gap(trades, i, amount, markets, store, fee) {
                    let j = choose|j: nat|
                        i <= j < trades.len() && #[trigger] amount_at(
                            trades,
                            i,
                            amount,
                            j,
                            markets,
                            store,
                            fee,
                        ) is Some && lacks_data(trades[j as int], markets, store);
                    lemma_amount_at(trades, i, amount, j, markets, store, fee);
                    assert(amount_at(trades, i + 1, net, j, markets, store, fee) is Some);
                }
                if !less(net, dust()) && meets_gap(trades, i + 1, net, markets, store, fee) {
                    let j = choose|j: nat|
                        i + 1 <= j < trades.len() && #[trigger] amount_at(
                            trades,
                            i + 1,
                            net,
                            j,
                            markets,
                            store,
                            fee,
                        ) is Some && lacks_data(trades[j as int], markets, store);
                    lemma_amount_at(trades, i, amount, j, markets, store, fee);
                    assert(amount_at(trades, i, amount, j, markets, store, fee) is Some);
                }
            },
        }
    }
}

/// With a fee from zero to one and a start amount that is not negative, in the currency that the
/// cycle starts with, a simulation fails where, and only where, a trade is reached whose market or
/// quote is missing or that is neither a purchase nor a sale. A trade is reached where all before it
/// left more than next to nothing.
pub proof fn lemma_simulation_errors(
    c: CycleView,
    q: SimRequest,
    amount: (int, int),
    cfg: ConfigView,
    markets: Map<Seq<char>, MarketView>,
    store: TickerStoreView,
)
    requires
        asked_by(q, q.currency, amount, q.settle, cfg),
        c.nodes.len() > 0,
        c.nodes[0] == q.currency,
        amount.0 >= 0,
        0 <= cfg.taker_fee_rate.0 <= pow(10, cfg.taker_fee_rate.1 as nat),
    ensures
        simulation(c, q, markets, store) is Err <==> meets_gap(
            c.trades,
            0,
            q.amount,
            markets,
            store,
            q.fee,
        ),
{
    lemma_number_sign(q.amount, amount);
    if amount.0 == 0 {
        lemma_zero_number(q.amount, amount);
    }
    lemma_walked_errors(c.trades, 0, q.currency, q.amount, markets, store, q.fee);
}

/// A swap never brings a negative amount or one that is not finite.
pub proof fn lemma_swap_amount(
    from: Seq<char>,
    to: Seq<char>,
    amount: Double,
    store: TickerStoreView,
    fee: Double,
)
    ensures
        swap(from, to, amount, store, fee).estimated_to_amount.finite(),
        at_most(zero(), swap(from, to, amount, store, fee).estimated_to_amount),
{
}

} // verus!
