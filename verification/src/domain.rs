//! Markets, quotes, order books, and the cycles of trades that are looked for.
use crate::decimal::Amount;
use crate::double::{at_most, Double};
use crate::text::texts;
use vstd::hash_map::StringHashMap;
use vstd::prelude::*;

verus! {

broadcast use vstd::string::group_string_axioms;

/// A spot market.
#[derive(Clone, Debug)]
pub struct Market {
    /// The pair, such as "BTC/USDT".
    pub symbol: String,
    /// The symbol of the exchange, such as "BTCUSDT".
    pub binance_symbol: String,
    pub base: String,
    pub quote: String,
    pub min_qty: Amount,
    pub min_notional: Amount,
    pub active: bool,
    pub spot: bool,
}

/// What a market holds.
pub struct MarketView {
    pub symbol: Seq<char>,
    pub binance_symbol: Seq<char>,
    pub base: Seq<char>,
    pub quote: Seq<char>,
    pub min_qty: (int, int),
    pub min_notional: (int, int),
    pub active: bool,
    pub spot: bool,
}

impl View for Market {
    type V = MarketView;

    open spec fn view(&self) -> MarketView {
        MarketView {
            symbol: self.symbol@,
            binance_symbol: self.binance_symbol@,
            base: self.base@,
            quote: self.quote@,
            min_qty: self.min_qty@,
            min_notional: self.min_notional@,
            active: self.active,
            spot: self.spot,
        }
    }
}

/// Markets by pair.
pub struct Markets {
    by_pair: StringHashMap<Market>,
    pairs: Vec<String>,
}

impl View for Markets {
    type V = Map<Seq<char>, MarketView>;

    closed spec fn view(&self) -> Map<Seq<char>, MarketView> {
        self.by_pair@.map_values(|m: Market| m@)
    }
}

impl Markets {
    /// The pairs in the order in which they came first.
    pub closed spec fn listed(&self) -> Seq<Seq<char>> {
        texts(self.pairs@)
    }

    /// The list names each pair of the table once, and no other.
    pub closed spec fn wf(&self) -> bool {
        &&& self.listed().no_duplicates()
        &&& forall|p: Seq<char>| self.listed().contains(p) <==> #[trigger] self@.contains_key(p)
    }

    /// No markets.
    pub fn new() -> (r: Markets)
        ensures
            r.wf(),
            r@ == Map::<Seq<char>, MarketView>::empty(),
            r.listed() == Seq::<Seq<char>>::empty(),
    {
        let r = Markets { by_pair: StringHashMap::new(), pairs: Vec::new() };
        assert(r@ == Map::<Seq<char>, MarketView>::empty());
        assert(r.listed() == Seq::<Seq<char>>::empty());
        r
    }

    /// Enters a market under a pair, in place of the one that was there.
    pub fn insert(&mut self, pair: String, market: Market)
        requires
            old(self).wf(),
        ensures
            final(self).wf(),
            final(self)@ == old(self)@.insert(pair@, market@),
            final(self).listed() == (if old(self)@.contains_key(pair@) {
                old(self).listed()
            } else {
                old(self).listed().push(pair@)
            }),
    {
        let known: bool = self.by_pair.contains_key(pair.as_str());
        if !known {
            self.pairs.push(pair.clone());
        }
        self.by_pair.insert(pair, market);
        assert(self@ == old(self)@.insert(pair@, market@));
        proof {
            if known {
                assert(self.listed() == old(self).listed());
                assert(old(self)@.contains_key(pair@));
                assert forall|p: Seq<char>|
                    self.listed().contains(p) <==> #[trigger] self@.contains_key(p) by {
                    assert(old(self)@.contains_key(p) <==> self@.contains_key(p));
                }
            } else {
                assert(self.listed() == old(self).listed().push(pair@));
                assert(!old(self)@.contains_key(pair@));
                assert forall|p: Seq<char>|
                    self.listed().contains(p) <==> #[trigger] self@.contains_key(p) by {
                    let was = old(self).listed();
                    if self.listed().contains(p) {
                        let i = choose|i: int| 0 <= i < self.listed().len() && self.listed()[i] == p;
                        if i < was.len() {
                            assert(was[i] == p);
                            assert(was.contains(p));
                        }
                    }
                    if old(self)@.contains_key(p) {
                        let i = choose|i: int| 0 <= i < was.len() && was[i] == p;
                        assert(self.listed()[i] == p);
                    }
                    assert(self.listed()[was.len() as int] == pair@);
                }
                assert(self.listed().no_duplicates()) by {
                    let was = old(self).listed();
                    assert(!was.contains(pair@));
                    assert forall|i: int, j: int|
                        0 <= i < self.listed().len() && 0 <= j < self.listed().len() && i
                            != j implies self.listed()[i] != self.listed()[j] by {
                        if i < was.len() {
                            assert(was.contains(was[i]));
                        }
                        if j < was.len() {
                            assert(was.contains(was[j]));
                        }
                    }
                }
            }
        }
    }

    /// The market of a pair.
    pub fn get(&self, pair: &str) -> (r: Option<&Market>)
        ensures
            match r {
                Some(m) => self@.contains_key(pair@) && m@ == self@[pair@],
                None => !self@.contains_key(pair@),
            },
    {
        self.by_pair.get(pair)
    }

    /// The number of markets.
    pub fn len(&self) -> (r: usize)
        ensures
            r == self.listed().len(),
    {
        self.pairs.len()
    }

    /// The pair that came at place `index` among the first mentions.
    pub fn pair(&self, index: usize) -> (r: &str)
        requires
            index < self.listed().len(),
        ensures
            r@ == self.listed()[index as int],
    {
        self.pairs[index].as_str()
    }
}

/// Best bid and ask of a pair.
#[derive(Clone, Copy, Debug)]
pub struct Ticker {
    pub bid: Double,
    pub ask: Double,
}

/// Whether a bid and an ask are the two sides of a market: positive, and not crossed.
pub open spec fn sound_quote(bid: Double, ask: Double) -> bool {
    &&& bid.finite()
    &&& ask.finite()
    &&& bid.value() > 0
    &&& ask.value() > 0
    &&& at_most(bid, ask)
}

/// Levels of both sides, best first: price and quantity.
#[derive(Clone, Debug)]
pub struct OrderBook {
    pub bids: Vec<(Double, Double)>,
    pub asks: Vec<(Double, Double)>,
}

/// What an order book holds.
pub struct BookView {
    pub bids: Seq<(Double, Double)>,
    pub asks: Seq<(Double, Double)>,
}

impl View for OrderBook {
    type V = BookView;

    open spec fn view(&self) -> BookView {
        BookView { bids: self.bids@, asks: self.asks@ }
    }
}

/// One trade of a cycle.
#[derive(Clone, Debug)]
pub struct Trade {
    pub from: String,
    pub to: String,
    pub pair: String,
    /// "BUY" or "SELL".
    pub kind: String,
}

/// What a trade holds.
pub struct TradeView {
    pub from: Seq<char>,
    pub to: Seq<char>,
    pub pair: Seq<char>,
    pub kind: Seq<char>,
}

impl View for Trade {
    type V = TradeView;

    open spec fn view(&self) -> TradeView {
        TradeView { from: self.from@, to: self.to@, pair: self.pair@, kind: self.kind@ }
    }
}

/// A cycle of currencies, such as "USDT", "BTC", "ETH", "USDT", and the trades along it.
#[derive(Clone, Debug)]
pub struct CycleInfo {
    pub nodes: Vec<String>,
    pub trades: Vec<Trade>,
    pub depth: usize,
}

/// What a cycle holds.
#[verifier::ext_equal]
pub struct CycleView {
    pub nodes: Seq<Seq<char>>,
    pub trades: Seq<TradeView>,
    pub depth: nat,
}

/// The views of a sequence of trades.
pub open spec fn trade_views(trades: Seq<Trade>) -> Seq<TradeView> {
    trades.map_values(|t: Trade| t@)
}

/// The views of a sequence of cycles.
pub open spec fn cycle_views(cycles: Seq<CycleInfo>) -> Seq<CycleView> {
    cycles.map_values(|c: CycleInfo| c@)
}

impl View for CycleInfo {
    type V = CycleView;

    open spec fn view(&self) -> CycleView {
        CycleView {
            nodes: texts(self.nodes@),
            trades: trade_views(self.trades@),
            depth: self.depth as nat,
        }
    }
}

} // verus!
