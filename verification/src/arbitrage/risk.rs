//! The assessment of a cycle against the order books: what its trades would really bring, and
//! whether slippage, spread, depth and the limits of the markets allow it.
use crate::arbitrage::simulate::{
    dust, is_price, percent_of, DUST_BITS, NO_PROFIT_BITS, NO_RESULT_BITS, WRONG_END_BITS,
};
use crate::config::{Config, ConfigView};
use crate::decimal::{stands_for, Amount};
use crate::domain::{
    trade_views, BookView, CycleInfo, CycleView, Market, MarketView, Markets, OrderBook, Trade,
    TradeView,
};
use crate::double::{
    at_most, difference, hundred, infinity, invalid, less, one, product, quotient, smaller, sum,
    zero, Double, HUNDRED_BITS,
};
use crate::store::{OrderBookStore, TickerStore, TickerStoreView};
use crate::text::{contains_text, pair_name, pair_text, texts};
use vstd::prelude::*;

verus! {

broadcast use vstd::string::group_string_axioms;

/// The bits of 1e-9: a rest below is not worth a trade.
pub const REST_BITS: u64 = 0x3e11_2e0b_e826_d695;

/// The bits of -1, the amount after an error.
pub const ERROR_AMOUNT_BITS: u64 = 0xbff0_0000_0000_0000;

/// What was noticed in an assessment.
#[derive(Clone, Copy, Debug)]
pub enum RiskNote {
    /// Nothing was assessed, as the settings say.
    Disabled,
    /// The cycle has no nodes.
    NoNodes,
    /// The trade before left no amount.
    BadAmount(Double),
    /// The trade starts from another currency than the one held.
    WrongCurrency,
    NoMarket,
    NoBook,
    EmptyBook,
    SpreadUnknown,
    SpreadTooHigh(Double),
    /// What is spent, and the least that may be.
    CostBelowMinimum(Double, Double),
    /// What is bought, and the least that may be.
    BoughtBelowMinimum(Double, Double),
    CannotBuy,
    /// What is sold, and the least that may be.
    SoldBelowMinimum(Double, Double),
    /// What a sale brings, and the least that it may.
    ProceedsBelowMinimum(Double, Double),
    CannotSell,
    UnknownKind,
    /// The depth in USD.
    TooShallow(Double),
    /// The assessment ends with this step.
    Aborted,
    ProfitTooLow(Double),
    SlippageTooHigh(Double),
    SlippageUnknown,
    /// The cycle ends in another currency than it starts from.
    WrongEnd,
}

/// A note and the step it belongs to, counted from one; zero for the cycle as a whole.
#[derive(Clone, Copy, Debug)]
pub struct RiskReason {
    pub step: usize,
    pub note: RiskNote,
}

/// The assessment of one trade.
#[derive(Debug)]
pub struct StepDetail {
    pub step: usize,
    pub pair: String,
    pub kind: String,
    pub slippage_percent: Double,
    pub spread_percent: Double,
    pub depth_ok: bool,
    pub depth_usd: Double,
    pub limits_ok: bool,
    pub message: Vec<RiskNote>,
}

/// What a step detail holds.
#[verifier::ext_equal]
pub struct StepView {
    pub step: usize,
    pub pair: Seq<char>,
    pub kind: Seq<char>,
    pub slippage_percent: Double,
    pub spread_percent: Double,
    pub depth_ok: bool,
    pub depth_usd: Double,
    pub limits_ok: bool,
    pub message: Seq<RiskNote>,
}

impl View for StepDetail {
    type V = StepView;

    open spec fn view(&self) -> StepView {
        StepView {
            step: self.step,
            pair: self.pair@,
            kind: self.kind@,
            slippage_percent: self.slippage_percent,
            spread_percent: self.spread_percent,
            depth_ok: self.depth_ok,
            depth_usd: self.depth_usd,
            limits_ok: self.limits_ok,
            message: self.message@,
        }
    }
}

/// The views of the details.
pub open spec fn step_views(details: Seq<StepDetail>) -> Seq<StepView> {
    details.map_values(|d: StepDetail| d@)
}

/// The assessment of a cycle.
#[derive(Debug)]
pub struct RiskResult {
    pub is_viable: bool,
    pub estimated_profit_percent_after_slippage: Double,
    pub total_estimated_slippage_percent: Double,
    pub reasons: Vec<RiskReason>,
    pub details: Vec<StepDetail>,
}

/// What an assessment holds.
#[verifier::ext_equal]
pub struct RiskView {
    pub is_viable: bool,
    pub profit: Double,
    pub slippage: Double,
    pub reasons: Seq<RiskReason>,
    pub details: Seq<StepView>,
}

impl View for RiskResult {
    type V = RiskView;

    open spec fn view(&self) -> RiskView {
        RiskView {
            is_viable: self.is_viable,
            profit: self.estimated_profit_percent_after_slippage,
            slippage: self.total_estimated_slippage_percent,
            reasons: self.reasons@,
            details: step_views(self.details@),
        }
    }
}

/// What an assessment goes by.
#[derive(Clone, Copy, Debug)]
pub struct RiskLimits {
    pub fee: Double,
    pub min_profit: Double,
    pub max_slippage: Double,
    pub min_depth: Double,
    pub max_spread: Double,
}

/// Whether a currency stands for the dollar.
pub open spec fn is_stable(currency: Seq<char>) -> bool {
    currency == "USDT"@ || currency == "USDC"@
}

/// The value of an amount in USD: by its price in USDT, else by that of USDT in it; that of a
/// stable currency is the amount itself.
pub open spec fn value_usd(currency: Seq<char>, amount: Double, store: TickerStoreView) -> Option<
    Double,
> {
    let forward = store.quote_of(pair_text(currency, "USDT"@));
    let reverse = store.quote_of(pair_text("USDT"@, currency));
    if at_most(amount, zero()) || !amount.finite() {
        None
    } else if currency == "USDT"@ {
        Some(amount)
    } else if forward is Some && less(zero(), (forward->0).bid) {
        Some(product(amount, (forward->0).bid))
    } else if reverse is Some && less(zero(), (reverse->0).ask) {
        Some(product(amount, quotient(one(), (reverse->0).ask)))
    } else if is_stable(currency) {
        Some(amount)
    } else {
        None
    }
}

/// The value, or zero where it is not known.
pub open spec fn or_nothing(value: Option<Double>) -> Double {
    match value {
        Some(x) => x,
        None => zero(),
    }
}

/// The value of an amount in USD.
pub fn estimate_value_usd(currency: &str, amount: Double, tickers: &TickerStore) -> (r: Option<
    Double,
>)
    requires
        tickers.wf(),
    ensures
        r == value_usd(currency@, amount, tickers@),
{
    let nothing: Double = Double::zero_value();
    if amount.le(nothing) || !amount.is_finite() {
        return None;
    }
    if *currency == *"USDT" {
        return Some(amount);
    }
    let forward: String = pair_name(currency, "USDT");
    match tickers.get_by_pair(forward.as_str()) {
        Some(t) => {
            if t.bid.gt(nothing) {
                return Some(amount.times(t.bid));
            }
        },
        None => {},
    }
    let reverse: String = pair_name("USDT", currency);
    match tickers.get_by_pair(reverse.as_str()) {
        Some(t) => {
            if t.ask.gt(nothing) {
                return Some(amount.times(Double::one_value().over(t.ask)));
            }
        },
        None => {},
    }
    if *currency == *"USDC" {
        return Some(amount);
    }
    None
}

/// The value of an amount in USD, or zero.
fn value_or_nothing(currency: &str, amount: Double, tickers: &TickerStore) -> (r: Double)
    requires
        tickers.wf(),
    ensures
        r == or_nothing(value_usd(currency@, amount, tickers@)),
{
    match estimate_value_usd(currency, amount, tickers) {
        Some(x) => x,
        None => Double::zero_value(),
    }
}

/// How far an order went through one side of a book: what it took, what it used up for that, and
/// the depth in USD of the levels it saw.
#[derive(Clone, Copy, Debug)]
pub struct Fill {
    pub taken: Double,
    pub used: Double,
    pub depth: Double,
}

/// A fill at its start.
pub open spec fn no_fill() -> Fill {
    Fill { taken: zero(), used: zero(), depth: zero() }
}

/// Whether a level offers nothing.
pub open spec fn is_void(level: (Double, Double)) -> bool {
    at_most(level.0, zero()) || at_most(level.1, zero())
}

/// The fill of a purchase for an amount, from level `i` of the asks on. What is taken is the base
/// currency, what is used up the quote currency.
pub open spec fn bought_through(
    asks: Seq<(Double, Double)>,
    i: nat,
    f: Fill,
    spend: Double,
    quote: Seq<char>,
    store: TickerStoreView,
) -> Fill
    decreases asks.len() - i,
{
    if i >= asks.len() {
        f
    } else if is_void(asks[i as int]) {
        bought_through(asks, i + 1, f, spend, quote, store)
    } else {
        let (price, amount) = asks[i as int];
        let depth = sum(f.depth, or_nothing(value_usd(quote, product(price, amount), store)));
        let rest = difference(spend, f.used);
        if at_most(rest, Double { bits: REST_BITS }) {
            Fill { depth, ..f }
        } else {
            let base = smaller(quotient(rest, price), amount);
            let next = Fill {
                taken: sum(f.taken, base),
                used: sum(f.used, product(base, price)),
                depth,
            };
            bought_through(asks, i + 1, next, spend, quote, store)
        }
    }
}

/// The depth in USD of a level of the bids.
pub open spec fn bid_depth(
    level: (Double, Double),
    base: Seq<char>,
    store: TickerStoreView,
) -> Double {
    if base == "USDT"@ {
        product(level.1, level.0)
    } else {
        or_nothing(value_usd(base, level.1, store))
    }
}

/// The fill of a sale of an amount, from level `i` of the bids on. What is taken is the quote
/// currency, what is used up the base currency.
pub open spec fn sold_through(
    bids: Seq<(Double, Double)>,
    i: nat,
    f: Fill,
    sell: Double,
    base: Seq<char>,
    store: TickerStoreView,
) -> Fill
    decreases bids.len() - i,
{
    if i >= bids.len() {
        f
    } else if is_void(bids[i as int]) {
        sold_through(bids, i + 1, f, sell, base, store)
    } else {
        let (price, amount) = bids[i as int];
        let depth = sum(f.depth, bid_depth(bids[i as int], base, store));
        let rest = difference(sell, f.used);
        if at_most(rest, dust()) {
            Fill { depth, ..f }
        } else {
            let part = smaller(rest, amount);
            let next = Fill {
                taken: sum(f.taken, product(part, price)),
                used: sum(f.used, part),
                depth,
            };
            sold_through(bids, i + 1, next, sell, base, store)
        }
    }
}

/// Goes through the asks with a purchase.
fn buy_through(
    asks: &Vec<(Double, Double)>,
    spend: Double,
    quote: &str,
    tickers: &TickerStore,
) -> (r: Fill)
    requires
        tickers.wf(),
    ensures
        r == bought_through(asks@, 0, no_fill(), spend, quote@, tickers@),
{
    let nothing: Double = Double::zero_value();
    let mut f = Fill { taken: nothing, used: nothing, depth: nothing };
    let mut i: usize = 0;
    while i < asks.len()
        invariant
            i <= asks.len(),
            tickers.wf(),
            nothing == zero(),
            bought_through(asks@, 0, no_fill(), spend, quote@, tickers@) == bought_through(
                asks@,
                i as nat,
                f,
                spend,
                quote@,
                tickers@,
            ),
        decreases asks.len() - i,
    {
        let (price, amount): (Double, Double) = asks[i];
        i = i + 1;
        if price.le(nothing) || amount.le(nothing) {
            continue;
        }
        let depth: Double = f.depth.plus(value_or_nothing(quote, price.times(amount), tickers));
        let rest: Double = spend.minus(f.used);
        if rest.le(Double { bits: REST_BITS }) {
            return Fill { taken: f.taken, used: f.used, depth };
        }
        let base: Double = rest.over(price).min(amount);
        f = Fill { taken: f.taken.plus(base), used: f.used.plus(base.times(price)), depth };
    }
    f
}

/// Goes through the bids with a sale.
fn sell_through(
    bids: &Vec<(Double, Double)>,
    sell: Double,
    base: &str,
    tickers: &TickerStore,
) -> (r: Fill)
    requires
        tickers.wf(),
    ensures
        r == sold_through(bids@, 0, no_fill(), sell, base@, tickers@),
{
    let nothing: Double = Double::zero_value();
    let mut f = Fill { taken: nothing, used: nothing, depth: nothing };
    let mut i: usize = 0;
    while i < bids.len()
        invariant
            i <= bids.len(),
            tickers.wf(),
            nothing == zero(),
            sold_through(bids@, 0, no_fill(), sell, base@, tickers@) == sold_through(
                bids@,
                i as nat,
                f,
                sell,
                base@,
                tickers@,
            ),
        decreases bids.len() - i,
    {
        let (price, amount): (Double, Double) = bids[i];
        i = i + 1;
        if price.le(nothing) || amount.le(nothing) {
            continue;
        }
        let level_usd: Double = if *base == *"USDT" {
            amount.times(price)
        } else {
            value_or_nothing(base, amount, tickers)
        };
        let depth: Double = f.depth.plus(level_usd);
        let rest: Double = sell.minus(f.used);
        if rest.le(Double { bits: DUST_BITS }) {
            return Fill { taken: f.taken, used: f.used, depth };
        }
        let part: Double = rest.min(amount);
        f = Fill { taken: f.taken.plus(part.times(price)), used: f.used.plus(part), depth };
    }
    f
}

/// The outcome of a trade against the book.
pub struct Leg {
    pub executed: Double,
    pub slippage: Double,
    pub depth: Double,
    pub limits_ok: bool,
    pub failed: bool,
    pub message: Seq<RiskNote>,
}

/// One note where a condition holds.
pub open spec fn note_if(condition: bool, note: RiskNote) -> Seq<RiskNote> {
    if condition {
        seq![note]
    } else {
        Seq::empty()
    }
}

/// Whether an amount is below a minimum that is set.
pub open spec fn below_minimum(amount: Double, minimum: Double) -> bool {
    less(zero(), minimum) && less(amount, minimum)
}

/// A purchase for an amount.
pub open spec fn buy_leg(
    book: BookView,
    spend: Double,
    min_amount: Double,
    min_cost: Double,
    quote: Seq<char>,
    store: TickerStoreView,
) -> Leg {
    let top = book.asks[0].0;
    let costs = note_if(
        below_minimum(spend, min_cost),
        RiskNote::CostBelowMinimum(spend, min_cost),
    );
    let f = bought_through(book.asks, 0, no_fill(), spend, quote, store);
    if less(dust(), f.taken) {
        let bought = note_if(
            below_minimum(f.taken, min_amount),
            RiskNote::BoughtBelowMinimum(f.taken, min_amount),
        );
        Leg {
            executed: f.taken,
            slippage: if is_price(top) {
                product(
                    quotient(difference(quotient(f.used, f.taken), top), top),
                    hundred(),
                )
            } else {
                invalid()
            },
            depth: f.depth,
            limits_ok: !below_minimum(spend, min_cost) && !below_minimum(f.taken, min_amount),
            failed: false,
            message: costs + bought,
        }
    } else {
        Leg {
            executed: f.taken,
            slippage: infinity(),
            depth: f.depth,
            limits_ok: false,
            failed: true,
            message: costs.push(RiskNote::CannotBuy),
        }
    }
}

/// A sale of an amount.
pub open spec fn sell_leg(
    book: BookView,
    sell: Double,
    min_amount: Double,
    min_cost: Double,
    base: Seq<char>,
    store: TickerStoreView,
) -> Leg {
    let top = book.bids[0].0;
    let sells = note_if(
        below_minimum(sell, min_amount),
        RiskNote::SoldBelowMinimum(sell, min_amount),
    );
    let f = sold_through(book.bids, 0, no_fill(), sell, base, store);
    if less(dust(), f.used) {
        let brings = note_if(
            below_minimum(f.taken, min_cost),
            RiskNote::ProceedsBelowMinimum(f.taken, min_cost),
        );
        Leg {
            executed: f.taken,
            slippage: if less(zero(), top) {
                product(
                    quotient(difference(top, quotient(f.taken, f.used)), top),
                    hundred(),
                )
            } else {
                invalid()
            },
            depth: f.depth,
            limits_ok: !below_minimum(sell, min_amount),
            failed: false,
            message: sells + brings,
        }
    } else {
        Leg {
            executed: f.taken,
            slippage: infinity(),
            depth: f.depth,
            limits_ok: false,
            failed: true,
            message: sells.push(RiskNote::CannotSell),
        }
    }
}

/// A trade of an amount against the book.
pub open spec fn leg(
    t: TradeView,
    book: BookView,
    amount: Double,
    minima: (Double, Double),
    market: MarketView,
    store: TickerStoreView,
) -> Leg {
    if t.kind == "BUY"@ {
        buy_leg(book, amount, minima.0, minima.1, market.quote, store)
    } else if t.kind == "SELL"@ {
        sell_leg(book, amount, minima.0, minima.1, market.base, store)
    } else {
        Leg {
            executed: zero(),
            slippage: invalid(),
            depth: zero(),
            limits_ok: false,
            failed: true,
            message: seq![RiskNote::UnknownKind],
        }
    }
}

/// The outcome of a trade as it is computed.
struct LegResult {
    executed: Double,
    slippage: Double,
    depth: Double,
    limits_ok: bool,
    failed: bool,
}

impl LegResult {
    /// The outcome with the notes that were taken.
    spec fn with(self, message: Seq<RiskNote>) -> Leg {
        Leg {
            executed: self.executed,
            slippage: self.slippage,
            depth: self.depth,
            limits_ok: self.limits_ok,
            failed: self.failed,
            message,
        }
    }
}

/// Whether an amount is below a minimum that is set.
fn is_below_minimum(amount: Double, minimum: Double) -> (r: bool)
    ensures
        r == below_minimum(amount, minimum),
{
    minimum.gt(Double::zero_value()) && amount.lt(minimum)
}

/// Buys for an amount; the notes go to the end of `message`.
fn run_buy(
    book: &OrderBook,
    spend: Double,
    minima: (Double, Double),
    quote: &str,
    tickers: &TickerStore,
    message: &mut Vec<RiskNote>,
) -> (r: LegResult)
    requires
        tickers.wf(),
        book.asks@.len() > 0,
    ensures
        ({
            let l = buy_leg(book@, spend, minima.0, minima.1, quote@, tickers@);
            &&& final(message)@ == old(message)@ + l.message
            &&& r.with(l.message) == l
        }),
{
    let (min_amount, min_cost): (Double, Double) = minima;
    let top: Double = book.asks[0].0;
    let cheap: bool = is_below_minimum(spend, min_cost);
    if cheap {
        message.push(RiskNote::CostBelowMinimum(spend, min_cost));
    }
    let f: Fill = buy_through(&book.asks, spend, quote, tickers);
    if f.taken.gt(Double { bits: DUST_BITS }) {
        let mut slippage: Double = Double::nan_value();
        if top.is_finite() && top.gt(Double::zero_value()) {
            slippage = f.used.over(f.taken).minus(top).over(top).times(
                Double { bits: HUNDRED_BITS },
            );
        }
        let small: bool = is_below_minimum(f.taken, min_amount);
        if small {
            message.push(RiskNote::BoughtBelowMinimum(f.taken, min_amount));
        }
        LegResult {
            executed: f.taken,
            slippage,
            depth: f.depth,
            limits_ok: !cheap && !small,
            failed: false,
        }
    } else {
        message.push(RiskNote::CannotBuy);
        LegResult {
            executed: f.taken,
            slippage: Double::infinity_value(),
            depth: f.depth,
            limits_ok: false,
            failed: true,
        }
    }
}

/// Sells an amount; the notes go to the end of `message`.
fn run_sell(
    book: &OrderBook,
    sell: Double,
    minima: (Double, Double),
    base: &str,
    tickers: &TickerStore,
    message: &mut Vec<RiskNote>,
) -> (r: LegResult)
    requires
        tickers.wf(),
        book.bids@.len() > 0,
    ensures
        ({
            let l = sell_leg(book@, sell, minima.0, minima.1, base@, tickers@);
            &&& final(message)@ == old(message)@ + l.message
            &&& r.with(l.message) == l
        }),
{
    let (min_amount, min_cost): (Double, Double) = minima;
    let top: Double = book.bids[0].0;
    let little: bool = is_below_minimum(sell, min_amount);
    if little {
        message.push(RiskNote::SoldBelowMinimum(sell, min_amount));
    }
    let f: Fill = sell_through(&book.bids, sell, base, tickers);
    if f.used.gt(Double { bits: DUST_BITS }) {
        let mut slippage: Double = Double::nan_value();
        if top.gt(Double::zero_value()) {
            slippage = top.minus(f.taken.over(f.used)).over(top).times(
                Double { bits: HUNDRED_BITS },
            );
        }
        if is_below_minimum(f.taken, min_cost) {
            message.push(RiskNote::ProceedsBelowMinimum(f.taken, min_cost));
        }
        LegResult {
            executed: f.taken,
            slippage,
            depth: f.depth,
            limits_ok: !little,
            failed: false,
        }
    } else {
        message.push(RiskNote::CannotSell);
        LegResult {
            executed: f.taken,
            slippage: Double::infinity_value(),
            depth: f.depth,
            limits_ok: false,
            failed: true,
        }
    }
}

/// Trades an amount against the book; the notes go to the end of `message`.
fn run_leg(
    trade: &Trade,
    book: &OrderBook,
    amount: Double,
    minima: (Double, Double),
    market: &Market,
    tickers: &TickerStore,
    message: &mut Vec<RiskNote>,
) -> (r: LegResult)
    requires
        tickers.wf(),
        book.asks@.len() > 0,
        book.bids@.len() > 0,
    ensures
        ({
            let l = leg(trade@, book@, amount, minima, market@, tickers@);
            &&& final(message)@ == old(message)@ + l.message
            &&& r.with(l.message) == l
        }),
{
    if *trade.kind.as_str() == *"BUY" {
        run_buy(book, amount, minima, market.quote.as_str(), tickers, message)
    } else if *trade.kind.as_str() == *"SELL" {
        run_sell(book, amount, minima, market.base.as_str(), tickers, message)
    } else {
        message.push(RiskNote::UnknownKind);
        LegResult {
            executed: Double::zero_value(),
            slippage: Double::nan_value(),
            depth: Double::zero_value(),
            limits_ok: false,
            failed: true,
        }
    }
}

/// The spread between the best prices in percent of the ask; infinity where one is no price.
pub open spec fn spread_of(bid: Double, ask: Double) -> Double {
    if less(zero(), bid) && is_price(ask) {
        product(quotient(difference(ask, bid), ask), hundred())
    } else {
        infinity()
    }
}

/// The spread between the best prices in percent of the ask.
fn spread_percent(bid: Double, ask: Double) -> (r: Double)
    ensures
        r == spread_of(bid, ask),
{
    let nothing: Double = Double::zero_value();
    if bid.gt(nothing) && ask.is_finite() && ask.gt(nothing) {
        ask.minus(bid).over(ask).times(Double { bits: HUNDRED_BITS })
    } else {
        Double::infinity_value()
    }
}

/// The notes on a spread.
pub open spec fn spread_notes(spread: Double, max_spread: Double) -> Seq<RiskNote> {
    if !spread.finite() {
        seq![RiskNote::SpreadUnknown]
    } else {
        note_if(less(max_spread, spread), RiskNote::SpreadTooHigh(spread))
    }
}

/// The notes that count as reasons: all but that a sale brings little.
pub open spec fn reported(notes: Seq<RiskNote>, step: usize) -> Seq<RiskReason>
    decreases notes.len(),
{
    if notes.len() == 0 {
        Seq::empty()
    } else {
        let rest = reported(notes.drop_last(), step);
        match notes.last() {
            RiskNote::ProceedsBelowMinimum(_, _) => rest,
            note => rest.push(RiskReason { step, note }),
        }
    }
}

/// Adds the notes that count as reasons to a list.
fn report(reasons: &mut Vec<RiskReason>, notes: &Vec<RiskNote>, step: usize)
    ensures
        final(reasons)@ == old(reasons)@ + reported(notes@, step),
{
    let ghost start = reasons@;
    let mut i: usize = 0;
    assert(notes@.take(0) == Seq::<RiskNote>::empty());
    while i < notes.len()
        invariant
            i <= notes.len(),
            reasons@ == start + reported(notes@.take(i as int), step),
        decreases notes.len() - i,
    {
        assert(notes@.take(i + 1).drop_last() == notes@.take(i as int));
        match notes[i] {
            RiskNote::ProceedsBelowMinimum(_, _) => {},
            note => {
                reasons.push(RiskReason { step, note });
            },
        }
        i = i + 1;
    }
    assert(notes@.take(notes@.len() as int) == notes@);
}

/// An assessment under way.
#[verifier::ext_equal]
pub struct RiskState {
    pub currency: Seq<char>,
    pub amount: Double,
    /// What slippage costs, in USD.
    pub cost: Double,
    pub reasons: Seq<RiskReason>,
    pub details: Seq<StepView>,
}

/// What the assessment of a cycle goes by, besides the cycle.
pub struct RiskWorld {
    pub markets: Map<Seq<char>, MarketView>,
    pub books: OrderBookStore,
    pub tickers: TickerStoreView,
    /// For each trade the least quantity and the least cost of its market.
    pub minima: Seq<(Double, Double)>,
    pub limits: RiskLimits,
}

/// The state after a step that could not be assessed.
pub open spec fn failed_step(
    s: RiskState,
    t: TradeView,
    i: nat,
    note: RiskNote,
    limits_ok: bool,
) -> RiskState {
    let step = (i + 1) as usize;
    RiskState {
        amount: Double { bits: ERROR_AMOUNT_BITS },
        reasons: s.reasons.push(RiskReason { step, note }),
        details: s.details.push(
            StepView {
                step,
                pair: t.pair,
                kind: t.kind,
                slippage_percent: invalid(),
                spread_percent: invalid(),
                depth_ok: false,
                depth_usd: zero(),
                limits_ok,
                message: seq![note],
            },
        ),
        ..s
    }
}

/// What slippage in percent costs on a value in USD.
pub open spec fn slippage_cost(slippage: Double, value: Double) -> Double {
    if slippage.finite() && less(zero(), value) && less(zero(), slippage) {
        product(value, quotient(slippage, hundred()))
    } else {
        zero()
    }
}

/// The amount after the fee; not below zero.
pub open spec fn after_fee(executed: Double, fee: Double) -> Double {
    let net = product(executed, difference(one(), fee));
    if less(net, zero()) {
        zero()
    } else {
        net
    }
}

/// The state after a step was assessed against its book, before it is seen whether to go on.
pub open spec fn assessed_step(
    s: RiskState,
    t: TradeView,
    i: nat,
    market: MarketView,
    book: BookView,
    w: RiskWorld,
) -> RiskState {
    let step = (i + 1) as usize;
    let spread = spread_of(book.bids[0].0, book.asks[0].0);
    let value = or_nothing(value_usd(s.currency, s.amount, w.tickers));
    let l = leg(t, book, s.amount, w.minima[i as int], market, w.tickers);
    let deep = at_most(w.limits.min_depth, l.depth);
    let message = spread_notes(spread, w.limits.max_spread) + l.message + note_if(
        !deep,
        RiskNote::TooShallow(l.depth),
    );
    let goes_on = !l.failed && at_most(zero(), s.amount);
    RiskState {
        currency: if goes_on {
            t.to
        } else {
            s.currency
        },
        amount: if l.failed {
            Double { bits: ERROR_AMOUNT_BITS }
        } else if goes_on {
            after_fee(l.executed, w.limits.fee)
        } else {
            s.amount
        },
        cost: if goes_on {
            sum(s.cost, slippage_cost(l.slippage, value))
        } else {
            s.cost
        },
        reasons: s.reasons + reported(message, step),
        details: s.details.push(
            StepView {
                step,
                pair: t.pair,
                kind: t.kind,
                slippage_percent: if goes_on {
                    l.slippage
                } else {
                    invalid()
                },
                spread_percent: spread,
                depth_ok: deep,
                depth_usd: l.depth,
                limits_ok: l.limits_ok,
                message,
            },
        ),
    }
}

/// The state with the note that the assessment ends with step `i`.
pub open spec fn aborted(s: RiskState, i: nat) -> RiskState {
    RiskState {
        reasons: s.reasons.push(RiskReason { step: (i + 1) as usize, note: RiskNote::Aborted }),
        ..s
    }
}

/// The state after the trades from place `i` on.
pub open spec fn assessed_from(trades: Seq<TradeView>, i: nat, s: RiskState, w: RiskWorld) -> RiskState
    decreases trades.len() - i,
{
    if i >= trades.len() {
        s
    } else {
        let t = trades[i as int];
        if at_most(s.amount, zero()) {
            failed_step(s, t, i, RiskNote::BadAmount(s.amount), true)
        } else if s.currency != t.from {
            failed_step(s, t, i, RiskNote::WrongCurrency, true)
        } else if !w.markets.contains_key(t.pair) {
            assessed_from(trades, i + 1, failed_step(s, t, i, RiskNote::NoMarket, true), w)
        } else {
            match w.books.book_of(t.pair) {
                None => assessed_from(
                    trades,
                    i + 1,
                    failed_step(s, t, i, RiskNote::NoBook, false),
                    w,
                ),
                Some(book) => if book.bids.len() == 0 || book.asks.len() == 0 {
                    assessed_from(
                        trades,
                        i + 1,
                        failed_step(s, t, i, RiskNote::EmptyBook, false),
                        w,
                    )
                } else {
                    let next = assessed_step(s, t, i, w.markets[t.pair], book, w);
                    if less(next.amount, zero()) {
                        aborted(next, i)
                    } else {
                        assessed_from(trades, i + 1, next, w)
                    }
                },
            }
        }
    }
}

/// Whether all steps are deep enough and within the limits of their markets.
pub open spec fn all_steps_ok(details: Seq<StepView>) -> bool {
    forall|i: int| 0 <= i < details.len() ==> (#[trigger] details[i]).depth_ok && details[i].limits_ok
}

/// The slippage of all trades in percent of what the start amount is worth.
pub open spec fn total_slippage(cost: Double, start_value: Double) -> Double {
    if less(Double { bits: REST_BITS }, start_value) {
        product(quotient(cost, start_value), hundred())
    } else if cost.zero() {
        zero()
    } else {
        infinity()
    }
}

/// Whether a cycle has come back with an amount.
pub open spec fn comes_back(s: RiskState, path_start: Seq<char>) -> bool {
    at_most(zero(), s.amount) && s.currency == path_start
}

/// The profit in percent, or the number that says why there is none.
pub open spec fn closing_profit(s: RiskState, path_start: Seq<char>, start: Double) -> Double {
    if comes_back(s, path_start) {
        percent_of(difference(s.amount, start), start)
    } else if less(s.amount, zero()) {
        Double { bits: NO_PROFIT_BITS }
    } else if s.currency != path_start {
        Double { bits: WRONG_END_BITS }
    } else {
        Double { bits: NO_RESULT_BITS }
    }
}

/// The slippage in percent, or the number that says that there is none.
pub open spec fn closing_slippage(s: RiskState, path_start: Seq<char>, start_value: Double) -> Double {
    if comes_back(s, path_start) {
        total_slippage(s.cost, start_value)
    } else {
        Double { bits: NO_RESULT_BITS }
    }
}

/// Whether slippage is known to be above its limit.
pub open spec fn slips(slippage: Double, max_slippage: Double) -> bool {
    slippage.finite() && less(max_slippage, slippage)
}

/// The notes on a cycle as a whole.
pub open spec fn closing_notes(
    s: RiskState,
    path_start: Seq<char>,
    profit: Double,
    slippage: Double,
    limits: RiskLimits,
) -> Seq<RiskNote> {
    if comes_back(s, path_start) {
        note_if(less(profit, limits.min_profit), RiskNote::ProfitTooLow(profit)) + (if slips(
            slippage,
            limits.max_slippage,
        ) {
            seq![RiskNote::SlippageTooHigh(slippage)]
        } else {
            note_if(slippage.infinite(), RiskNote::SlippageUnknown)
        })
    } else {
        note_if(!less(s.amount, zero()) && s.currency != path_start, RiskNote::WrongEnd)
    }
}

/// The verdict on a cycle from the state at its end.
pub open spec fn verdict(
    s: RiskState,
    path_start: Seq<char>,
    start: Double,
    start_value: Double,
    limits: RiskLimits,
) -> RiskView {
    let profit = closing_profit(s, path_start, start);
    let slippage = closing_slippage(s, path_start, start_value);
    RiskView {
        is_viable: !less(s.amount, zero()) && profit.finite() && !less(profit, limits.min_profit)
            && !slips(slippage, limits.max_slippage) && !(at_most(zero(), s.amount) && s.currency
            != path_start) && all_steps_ok(s.details),
        profit,
        slippage,
        reasons: s.reasons + reported(
            closing_notes(s, path_start, profit, slippage, limits),
            0,
        ),
        details: s.details,
    }
}

/// The assessment where there is nothing to assess.
pub open spec fn bare_verdict(viable: bool, profit: Double, slippage: Double, note: RiskNote) -> RiskView {
    RiskView {
        is_viable: viable,
        profit,
        slippage,
        reasons: seq![RiskReason { step: 0, note }],
        details: Seq::empty(),
    }
}

/// The value of the start amount in USD.
pub open spec fn start_value_of(currency: Seq<char>, start: Double, store: TickerStoreView) -> Double {
    match value_usd(currency, start, store) {
        Some(x) => x,
        None => if currency == "USDT"@ {
            start
        } else {
            zero()
        },
    }
}

/// The assessment of a cycle with a start amount.
pub open spec fn assessment(c: CycleView, start: Double, w: RiskWorld) -> RiskView {
    if c.nodes.len() == 0 {
        bare_verdict(
            false,
            Double { bits: NO_RESULT_BITS },
            Double { bits: NO_RESULT_BITS },
            RiskNote::NoNodes,
        )
    } else {
        let begun = RiskState {
            currency: c.nodes[0],
            amount: start,
            cost: zero(),
            reasons: Seq::empty(),
            details: Seq::empty(),
        };
        verdict(
            assessed_from(c.trades, 0, begun, w),
            c.nodes[0],
            start,
            start_value_of(c.nodes[0], start, w.tickers),
            w.limits,
        )
    }
}

/// The assessment as it is made.
struct Assessor {
    currency: String,
    amount: Double,
    cost: Double,
    reasons: Vec<RiskReason>,
    details: Vec<StepDetail>,
}

impl View for Assessor {
    type V = RiskState;

    closed spec fn view(&self) -> RiskState {
        RiskState {
            currency: self.currency@,
            amount: self.amount,
            cost: self.cost,
            reasons: self.reasons@,
            details: step_views(self.details@),
        }
    }
}

impl Assessor {
    /// Adds a detail.
    fn add_detail(&mut self, detail: StepDetail)
        ensures
            final(self)@ == (RiskState {
                details: old(self)@.details.push(detail@),
                ..old(self)@
            }),
    {
        self.details.push(detail);
        assert(self@.details =~= old(self)@.details.push(detail@));
    }

    /// Takes in that a step cannot be assessed.
    fn fail(&mut self, trade: &Trade, i: usize, note: RiskNote, limits_ok: bool)
        requires
            i < usize::MAX,
        ensures
            final(self)@ == failed_step(old(self)@, trade@, i as nat, note, limits_ok),
    {
        let step: usize = i + 1;
        let mut message: Vec<RiskNote> = Vec::new();
        message.push(note);
        self.reasons.push(RiskReason { step, note });
        self.amount = Double { bits: ERROR_AMOUNT_BITS };
        assert(message@ =~= seq![note]);
        let detail = StepDetail {
            step,
            pair: trade.pair.clone(),
            kind: trade.kind.clone(),
            slippage_percent: Double::nan_value(),
            spread_percent: Double::nan_value(),
            depth_ok: false,
            depth_usd: Double::zero_value(),
            limits_ok,
            message,
        };
        self.add_detail(detail);
    }

    /// Assesses a step against its book.
    fn step(
        &mut self,
        trade: &Trade,
        i: usize,
        market: &Market,
        book: &OrderBook,
        tickers: &TickerStore,
        minima: (Double, Double),
        limits: RiskLimits,
        Ghost(w): Ghost<RiskWorld>,
    )
        requires
            i < usize::MAX,
            tickers.wf(),
            book.asks@.len() > 0,
            book.bids@.len() > 0,
            w.tickers == tickers@,
            w.limits == limits,
            w.minima[i as int] == minima,
        ensures
            final(self)@ == assessed_step(old(self)@, trade@, i as nat, market@, book@, w),
    {
        let nothing: Double = Double::zero_value();
        let step: usize = i + 1;
        let spread: Double = spread_percent(book.bids[0].0, book.asks[0].0);
        let mut message: Vec<RiskNote> = Vec::new();
        if !spread.is_finite() {
            message.push(RiskNote::SpreadUnknown);
        } else if spread.gt(limits.max_spread) {
            message.push(RiskNote::SpreadTooHigh(spread));
        }
        assert(message@ =~= spread_notes(spread, limits.max_spread));
        let value: Double = value_or_nothing(self.currency.as_str(), self.amount, tickers);
        let l: LegResult = run_leg(
            trade,
            book,
            self.amount,
            minima,
            market,
            tickers,
            &mut message,
        );
        let deep: bool = l.depth.ge(limits.min_depth);
        if !deep {
            message.push(RiskNote::TooShallow(l.depth));
        }
        proof {
            let lg = leg(trade@, book@, self@.amount, minima, market@, tickers@);
            assert(message@ =~= spread_notes(spread, limits.max_spread) + lg.message + note_if(
                !deep,
                RiskNote::TooShallow(l.depth),
            ));
        }
        report(&mut self.reasons, &message, step);
        let mut slippage: Double = Double::nan_value();
        if l.failed {
            self.amount = Double { bits: ERROR_AMOUNT_BITS };
        } else if self.amount.ge(nothing) {
            slippage = l.slippage;
            let mut cost: Double = nothing;
            if slippage.is_finite() && value.gt(nothing) && slippage.gt(nothing) {
                cost = value.times(slippage.over(Double { bits: HUNDRED_BITS }));
            }
            self.cost = self.cost.plus(cost);
            self.currency = trade.to.clone();
            let net: Double = l.executed.times(Double::one_value().minus(limits.fee));
            self.amount = if net.lt(nothing) {
                nothing
            } else {
                net
            };
        }
        let detail = StepDetail {
            step,
            pair: trade.pair.clone(),
            kind: trade.kind.clone(),
            slippage_percent: slippage,
            spread_percent: spread,
            depth_ok: deep,
            depth_usd: l.depth,
            limits_ok: l.limits_ok,
            message,
        };
        self.add_detail(detail);
    }

    /// Goes through the trades of a cycle.
    fn run(
        &mut self,
        trades: &Vec<Trade>,
        books: &OrderBookStore,
        markets: &Markets,
        tickers: &TickerStore,
        minima: &Vec<(Double, Double)>,
        limits: RiskLimits,
        Ghost(w): Ghost<RiskWorld>,
    )
        requires
            books.wf(),
            markets.wf(),
            tickers.wf(),
            minima@.len() == trades@.len(),
            w.markets == markets@,
            w.books == *books,
            w.tickers == tickers@,
            w.minima == minima@,
            w.limits == limits,
        ensures
            final(self)@ == assessed_from(trade_views(trades@), 0, old(self)@, w),
    {
        let ghost views = trade_views(trades@);
        let ghost whole = assessed_from(views, 0, self@, w);
        let mut i: usize = 0;
        while i < trades.len()
            invariant
                i <= trades.len(),
                books.wf(),
                markets.wf(),
                tickers.wf(),
                minima@.len() == trades@.len(),
                w.markets == markets@,
                w.books == *books,
                w.tickers == tickers@,
                w.minima == minima@,
                w.limits == limits,
                views == trade_views(trades@),
                whole == assessed_from(views, 0, old(self)@, w),
                whole == assessed_from(views, i as nat, self@, w),
            decreases trades.len() - i,
        {
            let trade: &Trade = &trades[i];
            assert(views[i as int] == trade@);
            let ghost before = self@;
            if self.amount.le(Double::zero_value()) {
                let amount: Double = self.amount;
                self.fail(trade, i, RiskNote::BadAmount(amount), true);
                return;
            }
            if !(*self.currency.as_str() == *trade.from.as_str()) {
                self.fail(trade, i, RiskNote::WrongCurrency, true);
                return;
            }
            match markets.get(trade.pair.as_str()) {
                None => {
                    self.fail(trade, i, RiskNote::NoMarket, true);
                },
                Some(market) => match books.get_by_pair(trade.pair.as_str()) {
                    None => {
                        self.fail(trade, i, RiskNote::NoBook, false);
                    },
                    Some(book) => {
                        if book.bids.len() == 0 || book.asks.len() == 0 {
                            self.fail(trade, i, RiskNote::EmptyBook, false);
                        } else {
                            self.step(
                                trade,
                                i,
                                market,
                                book,
                                tickers,
                                minima[i],
                                limits,
                                Ghost(w),
                            );
                            if self.amount.lt(Double::zero_value()) {
                                self.reasons.push(
                                    RiskReason { step: i + 1, note: RiskNote::Aborted },
                                );
                                return;
                            }
                        }
                    },
                },
            }
            i = i + 1;
        }
    }

    /// The profit and the slippage in percent.
    fn totals(&self, path_start: &str, start: Double, start_value: Double) -> (r: (Double, Double))
        ensures
            r.0 == closing_profit(self@, path_start@, start),
            r.1 == closing_slippage(self@, path_start@, start_value),
    {
        let nothing: Double = Double::zero_value();
        let same: bool = *self.currency.as_str() == *path_start;
        if self.amount.ge(nothing) && same {
            let profit: Double = if start.gt(Double { bits: DUST_BITS }) {
                self.amount.minus(start).over(start).times(Double { bits: HUNDRED_BITS })
            } else {
                nothing
            };
            let slippage: Double = if start_value.gt(Double { bits: REST_BITS }) {
                self.cost.over(start_value).times(Double { bits: HUNDRED_BITS })
            } else if self.cost.is_zero() {
                nothing
            } else {
                Double::infinity_value()
            };
            (profit, slippage)
        } else {
            let profit: Double = if self.amount.lt(nothing) {
                Double { bits: NO_PROFIT_BITS }
            } else if !same {
                Double { bits: WRONG_END_BITS }
            } else {
                Double { bits: NO_RESULT_BITS }
            };
            (profit, Double { bits: NO_RESULT_BITS })
        }
    }

    /// The notes on the cycle as a whole.
    fn closing(&self, path_start: &str, profit: Double, slippage: Double, limits: RiskLimits) -> (r:
        Vec<RiskNote>)
        ensures
            r@ == closing_notes(self@, path_start@, profit, slippage, limits),
    {
        let nothing: Double = Double::zero_value();
        let same: bool = *self.currency.as_str() == *path_start;
        let mut notes: Vec<RiskNote> = Vec::new();
        if self.amount.ge(nothing) && same {
            if profit.lt(limits.min_profit) {
                notes.push(RiskNote::ProfitTooLow(profit));
            }
            if slippage.is_finite() && slippage.gt(limits.max_slippage) {
                notes.push(RiskNote::SlippageTooHigh(slippage));
            } else if slippage.is_infinite() {
                notes.push(RiskNote::SlippageUnknown);
            }
        } else if !self.amount.lt(nothing) && !same {
            notes.push(RiskNote::WrongEnd);
        }
        notes
    }

    /// Gives the verdict.
    fn conclude(
        self,
        path_start: &str,
        start: Double,
        start_value: Double,
        limits: RiskLimits,
    ) -> (r: RiskResult)
        ensures
            r@ == verdict(self@, path_start@, start, start_value, limits),
    {
        let nothing: Double = Double::zero_value();
        let same: bool = *self.currency.as_str() == *path_start;
        let (profit, slippage): (Double, Double) = self.totals(path_start, start, start_value);
        let notes: Vec<RiskNote> = self.closing(path_start, profit, slippage, limits);
        let mut viable: bool = steps_ok(&self.details);
        if self.amount.lt(nothing) {
            viable = false;
        }
        if !profit.is_finite() || profit.lt(limits.min_profit) {
            viable = false;
        }
        if slippage.is_finite() && slippage.gt(limits.max_slippage) {
            viable = false;
        }
        if self.amount.ge(nothing) && !same {
            viable = false;
        }
        let Assessor { currency: _, amount: _, cost: _, reasons: earlier, details } = self;
        let mut reasons: Vec<RiskReason> = earlier;
        report(&mut reasons, &notes, 0);
        RiskResult {
            is_viable: viable,
            estimated_profit_percent_after_slippage: profit,
            total_estimated_slippage_percent: slippage,
            reasons,
            details,
        }
    }
}

/// Whether all steps are deep enough and within the limits of their markets.
fn steps_ok(details: &Vec<StepDetail>) -> (r: bool)
    ensures
        r == all_steps_ok(step_views(details@)),
{
    let mut i: usize = 0;
    while i < details.len()
        invariant
            i <= details.len(),
            forall|j: int|
                0 <= j < i ==> (#[trigger] step_views(details@)[j]).depth_ok && step_views(
                    details@,
                )[j].limits_ok,
        decreases details.len() - i,
    {
        let d: &StepDetail = &details[i];
        assert(step_views(details@)[i as int] == d@);
        if !d.depth_ok || !d.limits_ok {
            return false;
        }
        i = i + 1;
    }
    true
}

/// Assesses a cycle, with all that it goes by given as numbers. `minima` holds for each trade the
/// least quantity and the least cost of its market.
pub fn assess(
    cycle: &CycleInfo,
    start: Double,
    minima: &Vec<(Double, Double)>,
    books: &OrderBookStore,
    markets: &Markets,
    tickers: &TickerStore,
    limits: RiskLimits,
) -> (r: RiskResult)
    requires
        books.wf(),
        markets.wf(),
        tickers.wf(),
        minima@.len() == cycle.trades@.len(),
    ensures
        r@ == assessment(
            cycle@,
            start,
            (RiskWorld {
                markets: markets@,
                books: *books,
                tickers: tickers@,
                minima: minima@,
                limits,
            }),
        ),
{
    if cycle.nodes.len() == 0 {
        return bare_result(
            false,
            Double { bits: NO_RESULT_BITS },
            Double { bits: NO_RESULT_BITS },
            RiskNote::NoNodes,
        );
    }
    let path_start: &String = &cycle.nodes[0];
    assert(cycle@.nodes[0] == path_start@);
    let start_value: Double = match estimate_value_usd(path_start.as_str(), start, tickers) {
        Some(x) => x,
        None => if *path_start.as_str() == *"USDT" {
            start
        } else {
            Double::zero_value()
        },
    };
    let ghost w = RiskWorld {
        markets: markets@,
        books: *books,
        tickers: tickers@,
        minima: minima@,
        limits,
    };
    let mut a = Assessor {
        currency: path_start.clone(),
        amount: start,
        cost: Double::zero_value(),
        reasons: Vec::new(),
        details: Vec::new(),
    };
    assert(a@.details =~= Seq::<StepView>::empty());
    a.run(&cycle.trades, books, markets, tickers, minima, limits, Ghost(w));
    a.conclude(path_start.as_str(), start, start_value, limits)
}

/// The result where there is nothing to assess.
fn bare_result(viable: bool, profit: Double, slippage: Double, note: RiskNote) -> (r: RiskResult)
    ensures
        r@ == bare_verdict(viable, profit, slippage, note),
{
    let mut reasons: Vec<RiskReason> = Vec::new();
    reasons.push(RiskReason { step: 0, note });
    let r = RiskResult {
        is_viable: viable,
        estimated_profit_percent_after_slippage: profit,
        total_estimated_slippage_percent: slippage,
        reasons,
        details: Vec::new(),
    };
    assert(r@ =~= bare_verdict(viable, profit, slippage, note));
    r
}

/// Whether the limits are those of the settings, as numbers.
pub open spec fn limits_of(limits: RiskLimits, cfg: ConfigView) -> bool {
    &&& stands_for(limits.fee, cfg.taker_fee_rate)
    &&& stands_for(limits.min_profit, cfg.min_profit_after_slippage_percent)
    &&& stands_for(limits.max_slippage, cfg.max_allowed_slippage_percent_total)
    &&& stands_for(limits.min_depth, cfg.min_depth_required_usd)
    &&& stands_for(limits.max_spread, cfg.max_bid_ask_spread_percent_per_step)
}

/// Whether the minima are those of the markets of the trades, as numbers.
pub open spec fn minima_of(
    minima: Seq<(Double, Double)>,
    trades: Seq<TradeView>,
    markets: Map<Seq<char>, MarketView>,
) -> bool {
    &&& minima.len() == trades.len()
    &&& forall|i: int|
        0 <= i < trades.len() && markets.contains_key((#[trigger] trades[i]).pair) ==> stands_for(
            minima[i].0,
            markets[trades[i].pair].min_qty,
        ) && stands_for(minima[i].1, markets[trades[i].pair].min_notional)
}

/// Assesses a cycle with a start amount by the settings, unless these switch it off. Each amount
/// becomes a number that stands for it; the last digits of the number are left open where the amount
/// has a fraction.
pub fn assess_risk(
    cycle: &CycleInfo,
    start_amount: &Amount,
    books: &OrderBookStore,
    markets: &Markets,
    tickers: &TickerStore,
    cfg: &Config,
) -> (r: RiskResult)
    requires
        books.wf(),
        markets.wf(),
        tickers.wf(),
    ensures
        !cfg@.risk_assessment_enabled ==> r@ == bare_verdict(
            true,
            Double { bits: ERROR_AMOUNT_BITS },
            zero(),
            RiskNote::Disabled,
        ),
        cfg@.risk_assessment_enabled ==> exists|
            start: Double,
            minima: Seq<(Double, Double)>,
            limits: RiskLimits,
        | #[trigger]
            stands_for(start, start_amount@) && #[trigger] limits_of(limits, cfg@)
                && #[trigger] minima_of(minima, cycle@.trades, markets@) && r@ == assessment(
                cycle@,
                start,
                (RiskWorld {
                    markets: markets@,
                    books: *books,
                    tickers: tickers@,
                    minima,
                    limits,
                }),
            ),
{
    if !cfg.risk_assessment_enabled {
        return bare_result(
            true,
            Double { bits: ERROR_AMOUNT_BITS },
            Double::zero_value(),
            RiskNote::Disabled,
        );
    }
    let limits = RiskLimits {
        fee: cfg.taker_fee_rate.to_double(),
        min_profit: cfg.min_profit_after_slippage_percent.to_double(),
        max_slippage: cfg.max_allowed_slippage_percent_total.to_double(),
        min_depth: cfg.min_depth_required_usd.to_double(),
        max_spread: cfg.max_bid_ask_spread_percent_per_step.to_double(),
    };
    let start: Double = start_amount.to_double();
    let ghost views = trade_views(cycle.trades@);
    let mut minima: Vec<(Double, Double)> = Vec::new();
    let mut i: usize = 0;
    while i < cycle.trades.len()
        invariant
            i <= cycle.trades.len(),
            markets.wf(),
            minima.len() == i,
            views == trade_views(cycle.trades@),
            forall|j: int|
                0 <= j < i && markets@.contains_key((#[trigger] views[j]).pair) ==> stands_for(
                    minima@[j].0,
                    markets@[views[j].pair].min_qty,
                ) && stands_for(minima@[j].1, markets@[views[j].pair].min_notional),
        decreases cycle.trades.len() - i,
    {
        let trade: &Trade = &cycle.trades[i];
        assert(views[i as int] == trade@);
        match markets.get(trade.pair.as_str()) {
            Some(m) => {
                minima.push((m.min_qty.to_double(), m.min_notional.to_double()));
            },
            None => {
                minima.push((Double::zero_value(), Double::zero_value()));
            },
        }
        i = i + 1;
    }
    assert(limits_of(limits, cfg@) && minima_of(minima@, cycle@.trades, markets@));
    assess(cycle, start, &minima, books, markets, tickers, limits)
}

/// What is held once all trades of a cycle have been assessed.
pub open spec fn assessed_end(c: CycleView, start: Double, w: RiskWorld) -> RiskState {
    assessed_from(
        c.trades,
        0,
        RiskState {
            currency: c.nodes[0],
            amount: start,
            cost: zero(),
            reasons: Seq::empty(),
            details: Seq::empty(),
        },
        w,
    )
}

/// A cycle is viable where, and only where, it has nodes, its end is not below zero and, where it is
/// a number, in the currency of the start, all its steps are deep enough and within the limits of
/// their markets, its profit is a number not below what was asked for, and its slippage, where it is
/// known, is not above what is allowed.
pub proof fn lemma_viable(c: CycleView, start: Double, w: RiskWorld)
    ensures
        assessment(c, start, w).is_viable <==> {
            let r = assessment(c, start, w);
            let end = assessed_end(c, start, w);
            &&& c.nodes.len() > 0
            &&& !less(end.amount, zero())
            &&& end.amount.nan() || end.currency == c.nodes[0]
            &&& all_steps_ok(r.details)
            &&& r.profit.finite() && !less(r.profit, w.limits.min_profit)
            &&& r.slippage.finite() ==> !less(w.limits.max_slippage, r.slippage)
        },
{
}

/// The level of a book in its price and quantity, where both are positive numbers.
pub open spec fn level_of(level: (Option<Double>, Option<Double>)) -> Option<(Double, Double)> {
    match level {
        (Some(price), Some(amount)) => if is_price(price) && is_price(amount) {
            Some((price, amount))
        } else {
            None
        },
        _ => None,
    }
}

/// The levels of one side of a book.
pub open spec fn levels_of(levels: Seq<(Option<Double>, Option<Double>)>) -> Seq<(Double, Double)>
    decreases levels.len(),
{
    if levels.len() == 0 {
        Seq::empty()
    } else {
        let rest = levels_of(levels.drop_last());
        match level_of(levels.last()) {
            Some(level) => rest.push(level),
            None => rest,
        }
    }
}

/// The level of a book in its price and quantity, each none where its text is no number.
pub fn parse_level(price: Option<Double>, amount: Option<Double>) -> (r: Option<(Double, Double)>)
    ensures
        r == level_of((price, amount)),
{
    let nothing: Double = Double::zero_value();
    match (price, amount) {
        (Some(p), Some(a)) => if p.is_finite() && a.is_finite() && p.gt(nothing) && a.gt(nothing) {
            Some((p, a))
        } else {
            None
        },
        _ => None,
    }
}

/// The levels of one side of a book: those of positive price and quantity, in their order.
pub fn parse_levels(levels: &Vec<(Option<Double>, Option<Double>)>) -> (r: Vec<(Double, Double)>)
    ensures
        r@ == levels_of(levels@),
{
    let mut r: Vec<(Double, Double)> = Vec::new();
    let mut i: usize = 0;
    assert(levels@.take(0) == Seq::<(Option<Double>, Option<Double>)>::empty());
    while i < levels.len()
        invariant
            i <= levels.len(),
            r@ == levels_of(levels@.take(i as int)),
        decreases levels.len() - i,
    {
        assert(levels@.take(i + 1).drop_last() == levels@.take(i as int));
        let (price, amount): (Option<Double>, Option<Double>) = levels[i];
        match parse_level(price, amount) {
            Some(level) => {
                r.push(level);
            },
            None => {},
        }
        i = i + 1;
    }
    assert(levels@.take(levels@.len() as int) == levels@);
    r
}

/// The pairs of the trades that have a market, each once.
pub open spec fn pairs_needed(
    trades: Seq<TradeView>,
    markets: Map<Seq<char>, MarketView>,
) -> Seq<Seq<char>>
    decreases trades.len(),
{
    if trades.len() == 0 {
        Seq::empty()
    } else {
        let rest = pairs_needed(trades.drop_last(), markets);
        let pair = trades.last().pair;
        if markets.contains_key(pair) && !rest.contains(pair) {
            rest.push(pair)
        } else {
            rest
        }
    }
}

/// The pairs whose order books an assessment of the cycle needs.
pub fn order_books_needed(cycle: &CycleInfo, markets: &Markets) -> (r: Vec<String>)
    requires
        markets.wf(),
    ensures
        texts(r@) == pairs_needed(cycle@.trades, markets@),
{
    let ghost views = cycle@.trades;
    let mut r: Vec<String> = Vec::new();
    let mut i: usize = 0;
    assert(views.take(0) == Seq::<TradeView>::empty());
    assert(texts(r@) == Seq::<Seq<char>>::empty());
    while i < cycle.trades.len()
        invariant
            i <= cycle.trades.len(),
            markets.wf(),
            views == trade_views(cycle.trades@),
            texts(r@) == pairs_needed(views.take(i as int), markets@),
        decreases cycle.trades.len() - i,
    {
        let ghost head = views.take(i + 1);
        let pair: &String = &cycle.trades[i].pair;
        assert(head.drop_last() == views.take(i as int) && head.last() == cycle.trades@[i as int]@);
        if markets.get(pair.as_str()).is_some() && !contains_text(&r, pair.as_str()) {
            let ghost before = texts(r@);
            r.push(pair.clone());
            assert(texts(r@) == before.push(pair@));
        }
        i = i + 1;
    }
    assert(views.take(views.len() as int) == views);
    r
}

/// The pairs whose books are needed are those of the trades that have a market, each once.
pub proof fn lemma_pairs_needed(trades: Seq<TradeView>, markets: Map<Seq<char>, MarketView>)
    ensures
        pairs_needed(trades, markets).no_duplicates(),
        forall|i: int|
            0 <= i < trades.len() && markets.contains_key((#[trigger] trades[i]).pair)
                ==> pairs_needed(trades, markets).contains(trades[i].pair),
    decreases trades.len(),
{
    if trades.len() > 0 {
        let init = trades.drop_last();
        let rest = pairs_needed(init, markets);
        let all = pairs_needed(trades, markets);
        lemma_pairs_needed(init, markets);
        assert forall|i: int|
            0 <= i < trades.len() && markets.contains_key(
                (#[trigger] trades[i]).pair,
            ) implies all.contains(trades[i].pair) by {
            if i < init.len() {
                assert(init[i] == trades[i]);
                let j = choose|j: int| 0 <= j < rest.len() && rest[j] == trades[i].pair;
                assert(all[j] == rest[j]);
            } else if !rest.contains(trades[i].pair) {
                assert(all[rest.len() as int] == trades[i].pair);
            }
        }
    }
}

} // verus!
