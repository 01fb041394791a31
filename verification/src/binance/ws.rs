//! Market data: which markets there are, which of them to follow, the streams, and what their
//! messages change.
use crate::arbitrage::graph::{
    all_listed, as_quote, lemma_active_placeable, pair_weighs, placeable, Graph,
};
use crate::arbitrage::risk::{levels_of, parse_levels};
use crate::balances::{amount_or_zero, parse_or_zero};
use crate::codec::{
    book_texts_view, json_book_texts, json_three_texts, level_texts, read_book_texts,
    read_three_texts, text_view, three_texts_view, BookTexts, BookTextsView, SideTexts,
    ThreeTexts, ThreeTextsView,
};
use crate::decimal::{decimal_less, zero_amount, Amount};
use crate::domain::{BookView, Market, MarketView, Markets, OrderBook};
use crate::double::{zero, Double};
use crate::store::{last_place, OrderBookStore, TickerStore};
use crate::text::{
    format_u64, join, joined, lower_case, number_text, pair_name, pair_text, texts,
};
use vstd::arithmetic::power2::{lemma2_to64, lemma_pow2_pos, lemma_pow2_unfold, pow2};
use vstd::hash_map::StringHashMap;
use vstd::prelude::*;

verus! {

broadcast use vstd::string::group_string_axioms;

/// A limit of a symbol, amounts as they were sent.
pub enum SymbolFilter {
    LotSize { min_qty: String },
    MinNotional { min_notional: String },
    Other,
}

/// A symbol of the exchange.
pub struct SymbolInfo {
    pub symbol: String,
    pub status: String,
    pub base_asset: String,
    pub quote_asset: String,
    pub is_spot_trading_allowed: bool,
    pub filters: Vec<SymbolFilter>,
}

/// The least quantity among limits: that of the last one that has it, zero where none has.
pub open spec fn min_qty_of(filters: Seq<SymbolFilter>) -> (int, int)
    decreases filters.len(),
{
    if filters.len() == 0 {
        zero_amount()
    } else {
        match filters.last() {
            SymbolFilter::LotSize { min_qty } => amount_or_zero(min_qty@),
            _ => min_qty_of(filters.drop_last()),
        }
    }
}

/// The least value among limits: that of the last one that has it, zero where none has.
pub open spec fn min_notional_of(filters: Seq<SymbolFilter>) -> (int, int)
    decreases filters.len(),
{
    if filters.len() == 0 {
        zero_amount()
    } else {
        match filters.last() {
            SymbolFilter::MinNotional { min_notional } => amount_or_zero(min_notional@),
            _ => min_notional_of(filters.drop_last()),
        }
    }
}

/// Whether a symbol is traded on the spot market now.
pub open spec fn is_open(s: SymbolInfo) -> bool {
    s.status@ == "TRADING"@ && s.is_spot_trading_allowed
}

/// The market of a symbol.
pub open spec fn market_of(s: SymbolInfo) -> MarketView {
    MarketView {
        symbol: pair_text(s.base_asset@, s.quote_asset@),
        binance_symbol: s.symbol@,
        base: s.base_asset@,
        quote: s.quote_asset@,
        min_qty: min_qty_of(s.filters@),
        min_notional: min_notional_of(s.filters@),
        active: true,
        spot: true,
    }
}

/// The markets of the symbols that are open, by the names of their pairs; the last one where a pair
/// comes more than once.
pub open spec fn spot_markets(symbols: Seq<SymbolInfo>) -> Map<Seq<char>, MarketView>
    decreases symbols.len(),
{
    if symbols.len() == 0 {
        Map::empty()
    } else {
        let rest = spot_markets(symbols.drop_last());
        let s = symbols.last();
        if is_open(s) {
            rest.insert(pair_text(s.base_asset@, s.quote_asset@), market_of(s))
        } else {
            rest
        }
    }
}

/// The two limits of a symbol.
fn read_limits(filters: &Vec<SymbolFilter>) -> (r: (Amount, Amount))
    ensures
        r.0@ == min_qty_of(filters@),
        r.1@ == min_notional_of(filters@),
{
    let mut min_qty: Amount = Amount::zero();
    let mut min_notional: Amount = Amount::zero();
    let mut i: usize = 0;
    assert(filters@.take(0) == Seq::<SymbolFilter>::empty());
    while i < filters.len()
        invariant
            i <= filters.len(),
            min_qty@ == min_qty_of(filters@.take(i as int)),
            min_notional@ == min_notional_of(filters@.take(i as int)),
        decreases filters.len() - i,
    {
        let ghost head = filters@.take(i + 1);
        assert(head.drop_last() == filters@.take(i as int) && head.last() == filters@[i as int]);
        match &filters[i] {
            SymbolFilter::LotSize { min_qty: q } => {
                min_qty = parse_or_zero(q.as_str());
            },
            SymbolFilter::MinNotional { min_notional: n } => {
                min_notional = parse_or_zero(n.as_str());
            },
            SymbolFilter::Other => {},
        }
        i = i + 1;
    }
    assert(filters@.take(filters@.len() as int) == filters@);
    (min_qty, min_notional)
}

/// The markets of the symbols that are traded on the spot market now.
pub fn load_spot_markets(symbols: &Vec<SymbolInfo>) -> (r: Markets)
    ensures
        r.wf(),
        r@ == spot_markets(symbols@),
{
    let mut out: Markets = Markets::new();
    let mut i: usize = 0;
    assert(symbols@.take(0) == Seq::<SymbolInfo>::empty());
    while i < symbols.len()
        invariant
            i <= symbols.len(),
            out.wf(),
            out@ == spot_markets(symbols@.take(i as int)),
        decreases symbols.len() - i,
    {
        let ghost head = symbols@.take(i + 1);
        assert(head.drop_last() == symbols@.take(i as int) && head.last() == symbols@[i as int]);
        let s: &SymbolInfo = &symbols[i];
        if *s.status.as_str() == *"TRADING" && s.is_spot_trading_allowed {
            let (min_qty, min_notional): (Amount, Amount) = read_limits(&s.filters);
            let pair: String = pair_name(s.base_asset.as_str(), s.quote_asset.as_str());
            let market = Market {
                symbol: pair.clone(),
                binance_symbol: s.symbol.clone(),
                base: s.base_asset.clone(),
                quote: s.quote_asset.clone(),
                min_qty,
                min_notional,
                active: true,
                spot: true,
            };
            assert(market@ == market_of(*s));
            out.insert(pair, market);
        }
        i = i + 1;
    }
    assert(symbols@.take(symbols@.len() as int) == symbols@);
    out
}

/// A loaded market is active, on the spot market, and has the name of its pair.
pub proof fn lemma_spot_markets(symbols: Seq<SymbolInfo>)
    ensures
        forall|k: Seq<char>| #[trigger]
            spot_markets(symbols).contains_key(k) ==> {
                let m = spot_markets(symbols)[k];
                m.active && m.spot && m.symbol == k && k == pair_text(m.base, m.quote)
            },
    decreases symbols.len(),
{
    if symbols.len() > 0 {
        let rest = spot_markets(symbols.drop_last());
        let all = spot_markets(symbols);
        let s = symbols.last();
        lemma_spot_markets(symbols.drop_last());
        assert forall|k: Seq<char>| #[trigger] all.contains_key(k) implies {
            let m = all[k];
            m.active && m.spot && m.symbol == k && k == pair_text(m.base, m.quote)
        } by {
            if !(is_open(s) && k == pair_text(s.base_asset@, s.quote_asset@)) {
                assert(rest.contains_key(k));
            }
        }
    }
}

/// A graph can be built of any loaded markets.
pub proof fn lemma_loaded_placeable(symbols: Seq<SymbolInfo>, pairs: Seq<Seq<char>>)
    requires
        all_listed(spot_markets(symbols), pairs),
    ensures
        placeable(spot_markets(symbols), pairs),
{
    let markets = spot_markets(symbols);
    lemma_spot_markets(symbols);
    assert forall|i: int| 0 <= i < pairs.len() implies (#[trigger] markets[pairs[i]]).active
        && markets[pairs[i]].spot by {
        assert(markets.contains_key(pairs[i]));
    }
    lemma_active_placeable(markets, pairs);
}

/// The parts of a list of the given size, in their order; the last one may be shorter.
pub open spec fn chunked(list: Seq<Seq<char>>, size: nat) -> Seq<Seq<Seq<char>>>
    decreases list.len(),
{
    if list.len() == 0 || size == 0 {
        Seq::empty()
    } else if list.len() <= size {
        seq![list]
    } else {
        seq![list.take(size as int)] + chunked(list.skip(size as int), size)
    }
}

/// Lists of strings as texts.
pub open spec fn text_lists(lists: Seq<Vec<String>>) -> Seq<Seq<Seq<char>>> {
    lists.map_values(|l: Vec<String>| texts(l@))
}

/// The strings of a list between two places.
fn part_of(list: &Vec<String>, from: usize, to: usize) -> (r: Vec<String>)
    requires
        from <= to <= list@.len(),
    ensures
        texts(r@) == texts(list@).subrange(from as int, to as int),
{
    let mut r: Vec<String> = Vec::new();
    let mut i: usize = from;
    while i < to
        invariant
            from <= i <= to <= list@.len(),
            r.len() == i - from,
            forall|j: int| 0 <= j < r@.len() ==> (#[trigger] r@[j])@ == list@[from + j]@,
        decreases to - i,
    {
        r.push(list[i].clone());
        i = i + 1;
    }
    assert(texts(r@) =~= texts(list@).subrange(from as int, to as int));
    r
}

/// The parts of a list of the given size.
pub fn chunks(list: &Vec<String>, size: usize) -> (r: Vec<Vec<String>>)
    requires
        size > 0,
    ensures
        text_lists(r@) == chunked(texts(list@), size as nat),
{
    let ghost all = texts(list@);
    let mut r: Vec<Vec<String>> = Vec::new();
    let n: usize = list.len();
    let mut from: usize = 0;
    proof {
        assert(all.skip(0) =~= all);
        assert(text_lists(r@) + chunked(all, size as nat) =~= chunked(all, size as nat));
    }
    while n - from > size
        invariant
            size > 0,
            n == list@.len(),
            all == texts(list@),
            from <= n,
            text_lists(r@) + chunked(all.skip(from as int), size as nat) == chunked(
                all,
                size as nat,
            ),
        decreases n - from,
    {
        let ghost before = text_lists(r@);
        let ghost rest = all.skip(from as int);
        let part: Vec<String> = part_of(list, from, from + size);
        r.push(part);
        proof {
            let first = texts(part@);
            assert(first =~= rest.take(size as int));
            assert(text_lists(r@) =~= before.push(first));
            assert(all.skip(from + size) =~= rest.skip(size as int));
            assert(before.push(first) + chunked(rest.skip(size as int), size as nat) =~= before + (
            seq![first] + chunked(rest.skip(size as int), size as nat)));
        }
        from = from + size;
    }
    if from < n {
        let ghost before = text_lists(r@);
        let ghost rest = all.skip(from as int);
        let part: Vec<String> = part_of(list, from, n);
        r.push(part);
        proof {
            let first = texts(part@);
            assert(first =~= rest);
            assert(text_lists(r@) =~= before.push(first));
            assert(before.push(first) =~= before + seq![first]);
        }
    } else {
        assert(text_lists(r@) + chunked(all.skip(from as int), size as nat) =~= text_lists(r@));
    }
    r
}

/// All parts of a list one after the other are the list, none is empty or larger than the size.
pub proof fn lemma_chunked(list: Seq<Seq<char>>, size: nat)
    requires
        size > 0,
    ensures
        chunked(list, size).flatten() == list,
        forall|k: int|
            0 <= k < chunked(list, size).len() ==> 0 < (#[trigger] chunked(list, size)[k]).len()
                <= size,
    decreases list.len(),
{
    let c = chunked(list, size);
    if list.len() == 0 {
        assert(c.flatten() =~= list);
    } else if list.len() <= size {
        c.lemma_flatten_one_element();
    } else {
        let rest = list.skip(size as int);
        lemma_chunked(rest, size);
        assert(c.drop_first() =~= chunked(rest, size));
        assert(c.first() == list.take(size as int));
        assert(c.flatten() =~= list.take(size as int) + rest);
        assert(list.take(size as int) + rest =~= list);
        assert forall|k: int| 0 <= k < c.len() implies 0 < (#[trigger] c[k]).len() <= size by {
            if k > 0 {
                assert(c[k] == chunked(rest, size)[k - 1]);
            }
        }
    }
}

/// The pairs of the markets in batches of the given size.
pub fn volume_batches(markets: &Markets, batch_size: usize) -> (r: Vec<Vec<String>>)
    requires
        markets.wf(),
        batch_size > 0,
    ensures
        text_lists(r@) == chunked(markets.listed(), batch_size as nat),
{
    let mut all: Vec<String> = Vec::new();
    let mut i: usize = 0;
    let n: usize = markets.len();
    while i < n
        invariant
            i <= n == markets.listed().len(),
            markets.wf(),
            texts(all@) =~= markets.listed().take(i as int),
        decreases n - i,
    {
        let ghost before = texts(all@);
        all.push(markets.pair(i).to_owned());
        assert(texts(all@) =~= before.push(markets.listed()[i as int]));
        i = i + 1;
    }
    assert(markets.listed().take(n as int) =~= markets.listed());
    chunks(&all, batch_size)
}

/// The exchange's symbols of the pairs that have a market.
pub open spec fn symbols_of(
    pairs: Seq<Seq<char>>,
    markets: Map<Seq<char>, MarketView>,
) -> Seq<Seq<char>>
    decreases pairs.len(),
{
    if pairs.len() == 0 {
        Seq::empty()
    } else {
        let rest = symbols_of(pairs.drop_last(), markets);
        if markets.contains_key(pairs.last()) {
            rest.push(markets[pairs.last()].binance_symbol)
        } else {
            rest
        }
    }
}

/// The exchange's symbols of the pairs that have a market.
pub fn batch_symbols(pairs: &Vec<String>, markets: &Markets) -> (r: Vec<String>)
    requires
        markets.wf(),
    ensures
        texts(r@) == symbols_of(texts(pairs@), markets@),
{
    let ghost all = texts(pairs@);
    let mut r: Vec<String> = Vec::new();
    let mut i: usize = 0;
    assert(all.take(0) == Seq::<Seq<char>>::empty());
    assert(texts(r@) == Seq::<Seq<char>>::empty());
    while i < pairs.len()
        invariant
            i <= pairs.len(),
            markets.wf(),
            all == texts(pairs@),
            texts(r@) == symbols_of(all.take(i as int), markets@),
        decreases pairs.len() - i,
    {
        let ghost head = all.take(i + 1);
        assert(head.drop_last() == all.take(i as int) && head.last() == pairs@[i as int]@);
        match markets.get(pairs[i].as_str()) {
            Some(m) => {
                let ghost before = texts(r@);
                r.push(m.binance_symbol.clone());
                assert(texts(r@) == before.push(m.binance_symbol@));
            },
            None => {},
        }
        i = i + 1;
    }
    assert(all.take(all.len() as int) == all);
    r
}

/// The place of the last pair whose market has the given symbol.
pub open spec fn place_of_symbol(
    pairs: Seq<Seq<char>>,
    markets: Map<Seq<char>, MarketView>,
    symbol: Seq<char>,
) -> Option<int>
    decreases pairs.len(),
{
    if pairs.len() == 0 {
        None
    } else if markets.contains_key(pairs.last()) && markets[pairs.last()].binance_symbol == symbol {
        Some(pairs.len() - 1)
    } else {
        place_of_symbol(pairs.drop_last(), markets, symbol)
    }
}

/// The places of the pairs by the exchange's symbols of their markets.
pub struct SymbolIndex {
    map: StringHashMap<usize>,
}

impl View for SymbolIndex {
    type V = Map<Seq<char>, usize>;

    closed spec fn view(&self) -> Map<Seq<char>, usize> {
        self.map@
    }
}

impl SymbolIndex {
    /// An index of nothing.
    pub fn new() -> (r: SymbolIndex)
        ensures
            r@ == Map::<Seq<char>, usize>::empty(),
    {
        SymbolIndex { map: StringHashMap::new() }
    }

    /// Gives a name its place.
    pub fn insert(&mut self, name: String, place: usize)
        ensures
            final(self)@ == old(self)@.insert(name@, place),
    {
        self.map.insert(name, place);
    }

    /// The place of a name.
    pub fn get(&self, name: &str) -> (r: Option<usize>)
        ensures
            r == (if self@.contains_key(name@) {
                Some(self@[name@])
            } else {
                None
            }),
    {
        match self.map.get(name) {
            Some(i) => Some(*i),
            None => None,
        }
    }
}

/// Whether an index leads from each symbol to the last pair whose market has it.
pub open spec fn indexes_symbols(
    index: Map<Seq<char>, usize>,
    pairs: Seq<Seq<char>>,
    markets: Map<Seq<char>, MarketView>,
) -> bool {
    forall|symbol: Seq<char>|
        match place_of_symbol(pairs, markets, symbol) {
            Some(i) => #[trigger] index.contains_key(symbol) && index[symbol] == i,
            None => !index.contains_key(symbol),
        }
}

/// The places of the pairs by the symbols of their markets.
pub fn index_symbols(pairs: &Vec<String>, markets: &Markets) -> (r: SymbolIndex)
    requires
        markets.wf(),
    ensures
        indexes_symbols(r@, texts(pairs@), markets@),
{
    let ghost all = texts(pairs@);
    let mut r: SymbolIndex = SymbolIndex::new();
    let mut i: usize = 0;
    assert(all.take(0) == Seq::<Seq<char>>::empty());
    while i < pairs.len()
        invariant
            i <= pairs.len(),
            markets.wf(),
            all == texts(pairs@),
            indexes_symbols(r@, all.take(i as int), markets@),
        decreases pairs.len() - i,
    {
        let ghost head = all.take(i + 1);
        let ghost before = r@;
        assert(head.drop_last() == all.take(i as int) && head.last() == pairs@[i as int]@);
        match markets.get(pairs[i].as_str()) {
            Some(m) => {
                r.insert(m.binance_symbol.clone(), i);
            },
            None => {},
        }
        assert(indexes_symbols(r@, head, markets@)) by {
            assert forall|symbol: Seq<char>|
                match place_of_symbol(head, markets@, symbol) {
                    Some(k) => #[trigger] r@.contains_key(symbol) && r@[symbol] == k,
                    None => !r@.contains_key(symbol),
                } by {
                let earlier = place_of_symbol(all.take(i as int), markets@, symbol);
                assert(before.contains_key(symbol) == (earlier is Some));
            }
        }
        i = i + 1;
    }
    assert(all.take(all.len() as int) == all);
    r
}

/// The pairs whose volume is at least the given one, in the order of the figures: symbols and the
/// texts of their volumes.
pub open spec fn selected(
    figures: Seq<(String, String)>,
    pairs: Seq<Seq<char>>,
    markets: Map<Seq<char>, MarketView>,
    min_volume: (int, int),
) -> Seq<Seq<char>>
    decreases figures.len(),
{
    if figures.len() == 0 {
        Seq::empty()
    } else {
        let rest = selected(figures.drop_last(), pairs, markets, min_volume);
        let (symbol, volume) = figures.last();
        if decimal_less(amount_or_zero(volume@), min_volume) {
            rest
        } else {
            match place_of_symbol(pairs, markets, symbol@) {
                Some(i) => rest.push(pairs[i]),
                None => rest,
            }
        }
    }
}

proof fn lemma_place_of_symbol(
    pairs: Seq<Seq<char>>,
    markets: Map<Seq<char>, MarketView>,
    symbol: Seq<char>,
)
    ensures
        place_of_symbol(pairs, markets, symbol) matches Some(i) ==> 0 <= i < pairs.len(),
    decreases pairs.len(),
{
    if pairs.len() > 0 {
        lemma_place_of_symbol(pairs.drop_last(), markets, symbol);
    }
}

/// The pairs that were selected, where there are any; without one there is nothing to watch.
pub fn any_selected(selected: Vec<String>) -> (r: Option<Vec<String>>)
    ensures
        r == (if selected@.len() == 0 {
            None
        } else {
            Some(selected)
        }),
{
    if selected.len() == 0 {
        None
    } else {
        Some(selected)
    }
}

/// The pairs of a batch whose volume is at least the given one, from the figures of their symbols.
pub fn filter_symbols_by_quote_volume(
    figures: &Vec<(String, String)>,
    pairs: &Vec<String>,
    markets: &Markets,
    min_volume: &Amount,
) -> (r: Vec<String>)
    requires
        markets.wf(),
    ensures
        texts(r@) == selected(figures@, texts(pairs@), markets@, min_volume@),
{
    let ghost all = texts(pairs@);
    let index: SymbolIndex = index_symbols(pairs, markets);
    let mut r: Vec<String> = Vec::new();
    let mut i: usize = 0;
    assert(figures@.take(0) == Seq::<(String, String)>::empty());
    assert(texts(r@) == Seq::<Seq<char>>::empty());
    while i < figures.len()
        invariant
            i <= figures.len(),
            all == texts(pairs@),
            indexes_symbols(index@, all, markets@),
            texts(r@) == selected(figures@.take(i as int), all, markets@, min_volume@),
        decreases figures.len() - i,
    {
        let ghost head = figures@.take(i + 1);
        assert(head.drop_last() == figures@.take(i as int) && head.last() == figures@[i as int]);
        let volume: Amount = parse_or_zero(figures[i].1.as_str());
        if !volume.lt(min_volume) {
            let symbol: &String = &figures[i].0;
            let ghost place = place_of_symbol(all, markets@, symbol@);
            proof {
                lemma_place_of_symbol(all, markets@, symbol@);
            }
            assert(index@.contains_key(symbol@) == (place is Some));
            match index.get(symbol.as_str()) {
                Some(p) => {
                    let ghost before = texts(r@);
                    assert(place == Some(p as int));
                    r.push(pairs[p].clone());
                    assert(texts(r@) == before.push(all[p as int]));
                },
                None => {},
            }
        }
        i = i + 1;
    }
    assert(figures@.take(figures@.len() as int) == figures@);
    r
}

/// The stream of the best prices of a symbol.
pub open spec fn ticker_stream(symbol: Seq<char>) -> Seq<char> {
    lower_case(symbol) + "@bookTicker"@
}

/// The streams of the best prices of the pairs that have a market.
pub open spec fn ticker_streams(
    pairs: Seq<Seq<char>>,
    markets: Map<Seq<char>, MarketView>,
) -> Seq<Seq<char>> {
    symbols_of(pairs, markets).map_values(|s: Seq<char>| ticker_stream(s))
}

/// The streams of the best prices of each part of a list of pairs.
pub open spec fn ticker_stream_lists(
    pairs: Seq<Seq<char>>,
    markets: Map<Seq<char>, MarketView>,
    chunk_size: nat,
) -> Seq<Seq<Seq<char>>> {
    chunked(pairs, chunk_size).map_values(|part: Seq<Seq<char>>| ticker_streams(part, markets))
}

/// The streams of a list of pairs.
fn streams_for(pairs: &Vec<String>, markets: &Markets) -> (r: Vec<String>)
    requires
        markets.wf(),
    ensures
        texts(r@) == ticker_streams(texts(pairs@), markets@),
{
    let symbols: Vec<String> = batch_symbols(pairs, markets);
    let ghost names = texts(symbols@);
    let mut r: Vec<String> = Vec::new();
    let mut i: usize = 0;
    while i < symbols.len()
        invariant
            i <= symbols.len(),
            names == texts(symbols@),
            r.len() == i,
            forall|j: int| 0 <= j < i ==> (#[trigger] r@[j])@ == ticker_stream(names[j]),
        decreases symbols.len() - i,
    {
        let mut stream: String = symbols[i].as_str().to_lowercase();
        stream.append("@bookTicker");
        r.push(stream);
        i = i + 1;
    }
    assert(texts(r@) =~= ticker_streams(texts(pairs@), markets@));
    r
}

/// The streams of the best prices of pairs, in parts of at most the given size of pairs, one part
/// for each connection.
pub fn book_ticker_streams(pairs: &Vec<String>, markets: &Markets, chunk_size: usize) -> (r: Vec<
    Vec<String>,
>)
    requires
        markets.wf(),
        chunk_size > 0,
    ensures
        text_lists(r@) == ticker_stream_lists(texts(pairs@), markets@, chunk_size as nat),
{
    let parts: Vec<Vec<String>> = chunks(pairs, chunk_size);
    let ghost lists = text_lists(parts@);
    let mut r: Vec<Vec<String>> = Vec::new();
    let mut i: usize = 0;
    while i < parts.len()
        invariant
            i <= parts.len(),
            markets.wf(),
            lists == text_lists(parts@),
            r.len() == i,
            forall|j: int| 0 <= j < i ==> texts((#[trigger] r@[j])@) == ticker_streams(
                lists[j],
                markets@,
            ),
        decreases parts.len() - i,
    {
        let streams: Vec<String> = streams_for(&parts[i], markets);
        assert(lists[i as int] == texts(parts@[i as int]@));
        r.push(streams);
        i = i + 1;
    }
    assert(text_lists(r@) =~= ticker_stream_lists(texts(pairs@), markets@, chunk_size as nat));
    r
}

/// The number of levels that is followed: the least of five, ten and twenty that suffices, or
/// twenty.
pub open spec fn followed_levels(levels: nat) -> nat {
    if levels <= 5 {
        5
    } else if levels <= 10 {
        10
    } else {
        20
    }
}

/// The number of levels that is followed.
pub fn depth_levels(levels: usize) -> (r: usize)
    ensures
        r == followed_levels(levels as nat),
{
    if levels <= 5 {
        5
    } else if levels <= 10 {
        10
    } else {
        20
    }
}

/// The stream of the order book of a symbol.
pub open spec fn depth_stream(symbol: Seq<char>, levels: nat) -> Seq<char> {
    lower_case(symbol) + "@depth"@ + number_text(followed_levels(levels)) + "@100ms"@
}

/// The streams of the order books of the pairs that have a market and a place in the store.
pub open spec fn depth_streams(
    pairs: Seq<Seq<char>>,
    markets: Map<Seq<char>, MarketView>,
    stored: Seq<Seq<char>>,
    levels: nat,
) -> Seq<Seq<char>>
    decreases pairs.len(),
{
    if pairs.len() == 0 {
        Seq::empty()
    } else {
        let rest = depth_streams(pairs.drop_last(), markets, stored, levels);
        let pair = pairs.last();
        if markets.contains_key(pair) && last_place(stored, pair) is Some {
            rest.push(depth_stream(markets[pair].binance_symbol, levels))
        } else {
            rest
        }
    }
}

/// The places in the store by the streams of the pairs' order books.
pub open spec fn depth_index(
    pairs: Seq<Seq<char>>,
    markets: Map<Seq<char>, MarketView>,
    stored: Seq<Seq<char>>,
    levels: nat,
) -> Map<Seq<char>, usize>
    decreases pairs.len(),
{
    if pairs.len() == 0 {
        Map::empty()
    } else {
        let rest = depth_index(pairs.drop_last(), markets, stored, levels);
        let pair = pairs.last();
        match last_place(stored, pair) {
            Some(i) => if markets.contains_key(pair) {
                rest.insert(depth_stream(markets[pair].binance_symbol, levels), i as usize)
            } else {
                rest
            },
            None => rest,
        }
    }
}

/// The stream of a symbol's order book.
fn depth_stream_name(symbol: &str, levels: usize) -> (r: String)
    ensures
        r@ == depth_stream(symbol@, levels as nat),
{
    let mut r: String = symbol.to_lowercase();
    r.append("@depth");
    let number: String = format_u64(depth_levels(levels) as u64);
    r.append(number.as_str());
    r.append("@100ms");
    r
}

/// The streams of the order books of a list of pairs.
fn depth_streams_for(
    pairs: &Vec<String>,
    markets: &Markets,
    books: &OrderBookStore,
    levels: usize,
) -> (r: Vec<String>)
    requires
        markets.wf(),
        books.wf(),
    ensures
        texts(r@) == depth_streams(texts(pairs@), markets@, books.pairs(), levels as nat),
{
    let ghost all = texts(pairs@);
    let mut r: Vec<String> = Vec::new();
    let mut i: usize = 0;
    assert(all.take(0) == Seq::<Seq<char>>::empty());
    assert(texts(r@) == Seq::<Seq<char>>::empty());
    while i < pairs.len()
        invariant
            i <= pairs.len(),
            markets.wf(),
            books.wf(),
            all == texts(pairs@),
            texts(r@) == depth_streams(all.take(i as int), markets@, books.pairs(), levels as nat),
        decreases pairs.len() - i,
    {
        let ghost head = all.take(i + 1);
        assert(head.drop_last() == all.take(i as int) && head.last() == pairs@[i as int]@);
        match markets.get(pairs[i].as_str()) {
            Some(m) => {
                if books.pair_id(pairs[i].as_str()).is_some() {
                    let ghost before = texts(r@);
                    let stream: String = depth_stream_name(m.binance_symbol.as_str(), levels);
                    r.push(stream);
                    assert(texts(r@) == before.push(stream@));
                }
            },
            None => {},
        }
        i = i + 1;
    }
    assert(all.take(all.len() as int) == all);
    r
}

/// The streams of the order books of each part of a list of pairs.
pub open spec fn depth_stream_lists(
    pairs: Seq<Seq<char>>,
    markets: Map<Seq<char>, MarketView>,
    stored: Seq<Seq<char>>,
    chunk_size: nat,
    levels: nat,
) -> Seq<Seq<Seq<char>>> {
    chunked(pairs, chunk_size).map_values(
        |part: Seq<Seq<char>>| depth_streams(part, markets, stored, levels),
    )
}

/// The streams of the order books of pairs, in parts of at most the given size of pairs.
pub fn partial_depth_streams(
    pairs: &Vec<String>,
    markets: &Markets,
    books: &OrderBookStore,
    chunk_size: usize,
    levels: usize,
) -> (r: Vec<Vec<String>>)
    requires
        markets.wf(),
        books.wf(),
        chunk_size > 0,
    ensures
        text_lists(r@) == depth_stream_lists(
            texts(pairs@),
            markets@,
            books.pairs(),
            chunk_size as nat,
            levels as nat,
        ),
{
    let parts: Vec<Vec<String>> = chunks(pairs, chunk_size);
    let ghost lists = text_lists(parts@);
    let mut r: Vec<Vec<String>> = Vec::new();
    let mut i: usize = 0;
    while i < parts.len()
        invariant
            i <= parts.len(),
            markets.wf(),
            books.wf(),
            lists == text_lists(parts@),
            r.len() == i,
            forall|j: int| 0 <= j < i ==> texts((#[trigger] r@[j])@) == depth_streams(
                lists[j],
                markets@,
                books.pairs(),
                levels as nat,
            ),
        decreases parts.len() - i,
    {
        let streams: Vec<String> = depth_streams_for(&parts[i], markets, books, levels);
        assert(lists[i as int] == texts(parts@[i as int]@));
        r.push(streams);
        i = i + 1;
    }
    assert(text_lists(r@) =~= depth_stream_lists(
        texts(pairs@),
        markets@,
        books.pairs(),
        chunk_size as nat,
        levels as nat,
    ));
    r
}

/// The places in the store by the streams of the pairs' order books.
pub fn index_depth_streams(
    pairs: &Vec<String>,
    markets: &Markets,
    books: &OrderBookStore,
    levels: usize,
) -> (r: SymbolIndex)
    requires
        markets.wf(),
        books.wf(),
    ensures
        r@ == depth_index(texts(pairs@), markets@, books.pairs(), levels as nat),
{
    let ghost all = texts(pairs@);
    let mut r: SymbolIndex = SymbolIndex::new();
    let mut i: usize = 0;
    assert(all.take(0) == Seq::<Seq<char>>::empty());
    while i < pairs.len()
        invariant
            i <= pairs.len(),
            markets.wf(),
            books.wf(),
            all == texts(pairs@),
            r@ == depth_index(all.take(i as int), markets@, books.pairs(), levels as nat),
        decreases pairs.len() - i,
    {
        let ghost head = all.take(i + 1);
        assert(head.drop_last() == all.take(i as int) && head.last() == pairs@[i as int]@);
        match (markets.get(pairs[i].as_str()), books.pair_id(pairs[i].as_str())) {
            (Some(m), Some(id)) => {
                let stream: String = depth_stream_name(m.binance_symbol.as_str(), levels);
                r.insert(stream, id);
            },
            _ => {},
        }
        i = i + 1;
    }
    assert(all.take(all.len() as int) == all);
    r
}

/// The address of a connection to streams.
pub fn stream_url(streams: &Vec<String>) -> (r: String)
    ensures
        r@ == "wss://stream.binance.com:9443/stream?streams="@ + joined(texts(streams@), "/"@),
{
    let mut r: String = "wss://stream.binance.com:9443/stream?streams=".to_owned();
    let list: String = join(streams, "/");
    r.append(list.as_str());
    r
}

/// How long to wait before the next attempt to connect: twice as long each time, up to a limit, and
/// from the start again after a connection.
#[derive(Clone, Copy, Debug)]
pub struct Backoff {
    pub least_ms: u64,
    pub most_ms: u64,
    pub current_ms: u64,
}

/// The time doubled, up to a limit.
pub open spec fn doubled(current_ms: u64, most_ms: u64) -> u64 {
    if 2 * current_ms < most_ms {
        (2 * current_ms) as u64
    } else {
        most_ms
    }
}

impl Backoff {
    /// The waits between a least and a most.
    pub fn new(least_ms: u64, most_ms: u64) -> (r: Backoff)
        ensures
            r == (Backoff { least_ms, most_ms, current_ms: least_ms }),
    {
        Backoff { least_ms, most_ms, current_ms: least_ms }
    }

    /// Takes in that there was a connection.
    pub fn connected(&mut self)
        ensures
            *final(self) == (Backoff { current_ms: old(self).least_ms, ..*old(self) }),
    {
        self.current_ms = self.least_ms;
    }

    /// The wait before the next attempt.
    pub fn wait(&mut self) -> (r: u64)
        ensures
            r == old(self).current_ms,
            *final(self) == (Backoff {
                current_ms: doubled(old(self).current_ms, old(self).most_ms),
                ..*old(self)
            }),
    {
        let r: u64 = self.current_ms;
        self.current_ms = if r < self.most_ms && r < self.most_ms - r {
            2 * r
        } else {
            self.most_ms
        };
        r
    }
}

/// The wait after `n` others without a connection.
pub open spec fn nth_wait(least_ms: u64, most_ms: u64, n: nat) -> u64
    decreases n,
{
    if n == 0 {
        least_ms
    } else {
        doubled(nth_wait(least_ms, most_ms, (n - 1) as nat), most_ms)
    }
}

/// Waits grow by powers of two, and stay between the least and the most.
pub proof fn lemma_waits(least_ms: u64, most_ms: u64, n: nat)
    requires
        least_ms <= most_ms,
    ensures
        nth_wait(least_ms, most_ms, n) == (if least_ms * pow2(n) < most_ms {
            least_ms * pow2(n)
        } else {
            most_ms as int
        }),
        least_ms <= nth_wait(least_ms, most_ms, n) <= most_ms,
    decreases n,
{
    if n == 0 {
        lemma2_to64();
    } else {
        let before = (n - 1) as nat;
        lemma_waits(least_ms, most_ms, before);
        lemma_pow2_unfold(n);
        let p = pow2(before) as int;
        assert(least_ms * (2 * p) == 2 * (least_ms * p)) by (nonlinear_arith);
        lemma_pow2_pos(before);
        assert(least_ms * p >= 0) by (nonlinear_arith)
            requires
                p > 0,
        ;
    }
}

/// Why a message was not taken in.
#[derive(Clone, Copy, Debug, PartialEq, Eq, Structural)]
pub enum MessageError {
    NotJson,
    NoData,
    NoSymbol,
    NoStream,
    NoBids,
    NoAsks,
}

/// A message with the best prices of a symbol, as texts.
#[derive(Debug)]
pub struct BookTicker {
    pub symbol: String,
    pub bid: String,
    pub ask: String,
}

/// A message with the best prices of a symbol, as values.
pub struct BookTickerView {
    pub symbol: Seq<char>,
    pub bid: Seq<char>,
    pub ask: Seq<char>,
}

impl View for BookTicker {
    type V = BookTickerView;

    open spec fn view(&self) -> BookTickerView {
        BookTickerView { symbol: self.symbol@, bid: self.bid@, ask: self.ask@ }
    }
}

/// A text, or the digit zero where there is none.
pub open spec fn or_zero_digit(text: Option<Seq<char>>) -> Seq<char> {
    match text {
        Some(t) => t,
        None => "0"@,
    }
}

/// A text, or the digit zero where there is none.
fn text_or_zero_digit(text: Option<String>) -> (r: String)
    ensures
        r@ == or_zero_digit(text_view(text)),
{
    match text {
        Some(t) => t,
        None => "0".to_owned(),
    }
}

/// The message in what was read of it: the symbol must be there, prices may be missing.
pub open spec fn book_ticker_in(fields: Option<Option<ThreeTextsView>>) -> Result<
    BookTickerView,
    MessageError,
> {
    match fields {
        None => Err(MessageError::NotJson),
        Some(None) => Err(MessageError::NoData),
        Some(Some(t)) => match t.first {
            None => Err(MessageError::NoSymbol),
            Some(symbol) => Ok(
                BookTickerView {
                    symbol,
                    bid: or_zero_digit(t.second),
                    ask: or_zero_digit(t.third),
                },
            ),
        },
    }
}

/// A message that was read, as values.
pub open spec fn ticker_result(r: Result<BookTicker, MessageError>) -> Result<
    BookTickerView,
    MessageError,
> {
    match r {
        Ok(t) => Ok(t@),
        Err(e) => Err(e),
    }
}

/// The message in what was read of it.
pub fn book_ticker_from(fields: Option<Option<ThreeTexts>>) -> (r: Result<BookTicker, MessageError>)
    ensures
        ticker_result(r) == book_ticker_in(three_texts_view(fields)),
{
    match fields {
        None => Err(MessageError::NotJson),
        Some(None) => Err(MessageError::NoData),
        Some(Some(t)) => match t.first {
            None => Err(MessageError::NoSymbol),
            Some(symbol) => Ok(
                BookTicker {
                    symbol,
                    bid: text_or_zero_digit(t.second),
                    ask: text_or_zero_digit(t.third),
                },
            ),
        },
    }
}

/// Reads a message with the best prices of a symbol.
pub fn read_book_ticker(bytes: Vec<u8>) -> (r: Result<BookTicker, MessageError>)
    ensures
        ticker_result(r) == book_ticker_in(json_three_texts(bytes@, "data"@, "s"@, "b"@, "a"@)),
{
    book_ticker_from(read_three_texts(bytes, "data", "s", "b", "a"))
}

/// A number, or zero where there is none.
pub open spec fn or_zero_number(x: Option<Double>) -> Double {
    match x {
        Some(x) => x,
        None => zero(),
    }
}

/// Takes in the best prices of a symbol, each none where its text is no number: the quote and the
/// weights of its pair. Gives the place of the pair, none where the symbol has none.
pub fn apply_book_ticker<L: Fn(Double) -> Double>(
    symbol: &str,
    bid: Option<Double>,
    ask: Option<Double>,
    index: &SymbolIndex,
    store: &mut TickerStore,
    graph: &mut Graph,
    now_ms: u64,
    ln: &L,
) -> (r: Option<usize>)
    requires
        old(store).wf(),
        old(graph).wf(),
        forall|x: Double| call_requires(*ln, (x,)),
    ensures
        final(store).wf(),
        final(graph).wf(),
        final(graph).same_shape(old(graph)),
        final(graph).fee_multiplier == old(graph).fee_multiplier,
        final(graph).rebuild_all == old(graph).rebuild_all,
        match r {
            Some(pair_id) => {
                &&& index@.contains_key(symbol@) && index@[symbol@] == pair_id
                &&& final(store)@ == old(store)@.updated(
                    pair_id as int,
                    or_zero_number(bid),
                    or_zero_number(ask),
                    now_ms,
                )
                &&& pair_id < old(graph).pair_edges@.len() ==> pair_weighs(
                    *ln,
                    old(graph).fee_multiplier,
                    as_quote(or_zero_number(bid), or_zero_number(ask)),
                    final(graph).edges@[2 * pair_id].weight,
                    final(graph).edges@[2 * pair_id + 1].weight,
                )
                &&& forall|i: int|
                    0 <= i < final(graph).edges@.len() && i != 2 * pair_id && i != 2 * pair_id + 1
                        ==> #[trigger] final(graph).edges@[i] == old(graph).edges@[i]
            },
            None => {
                &&& !index@.contains_key(symbol@)
                &&& *final(store) == *old(store)
                &&& *final(graph) == *old(graph)
            },
        },
{
    let bid: Double = match bid {
        Some(x) => x,
        None => Double::zero_value(),
    };
    let ask: Double = match ask {
        Some(x) => x,
        None => Double::zero_value(),
    };
    match index.get(symbol) {
        Some(pair_id) => {
            store.update_by_id(pair_id, bid, ask, now_ms);
            graph.update_pair_weights(pair_id, bid, ask, ln);
            Some(pair_id)
        },
        None => None,
    }
}

/// Marks that the loop is to be woken, and says whether it was not marked before.
pub fn arm(armed: &mut bool) -> (r: bool)
    ensures
        r == !*old(armed),
        *final(armed),
{
    let r: bool = !*armed;
    *armed = true;
    r
}

/// A message with an order book: the place of its pair, and the texts of its levels.
#[derive(Debug)]
pub struct DepthUpdate {
    pub pair_id: usize,
    pub bids: Vec<(String, String)>,
    pub asks: Vec<(String, String)>,
}

/// A message with an order book, as values.
pub struct DepthView {
    pub pair_id: usize,
    pub bids: Seq<(Seq<char>, Seq<char>)>,
    pub asks: Seq<(Seq<char>, Seq<char>)>,
}

/// Prices and quantities as texts.
pub open spec fn level_pairs(levels: Seq<(String, String)>) -> Seq<(Seq<char>, Seq<char>)> {
    levels.map_values(|l: (String, String)| (l.0@, l.1@))
}

impl View for DepthUpdate {
    type V = DepthView;

    open spec fn view(&self) -> DepthView {
        DepthView {
            pair_id: self.pair_id,
            bids: level_pairs(self.bids@),
            asks: level_pairs(self.asks@),
        }
    }
}

/// The levels of a side that have a price and a quantity.
pub open spec fn full_levels(levels: Seq<Option<Seq<Option<Seq<char>>>>>) -> Seq<
    (Seq<char>, Seq<char>),
>
    decreases levels.len(),
{
    if levels.len() == 0 {
        Seq::empty()
    } else {
        let rest = full_levels(levels.drop_last());
        match levels.last() {
            Some(parts) => if parts.len() >= 2 {
                rest.push((or_zero_digit(parts[0]), or_zero_digit(parts[1])))
            } else {
                rest
            },
            None => rest,
        }
    }
}

/// The levels of a side: none at all where it is no list, or one of its levels is none.
pub open spec fn side_levels(side: Option<Seq<Option<Seq<Option<Seq<char>>>>>>) -> Seq<
    (Seq<char>, Seq<char>),
> {
    match side {
        Some(levels) => if forall|i: int| 0 <= i < levels.len() ==> #[trigger] levels[i] is Some {
            full_levels(levels)
        } else {
            Seq::empty()
        },
        None => Seq::empty(),
    }
}

/// The text of a part of a level.
fn part_text(part: &Option<String>) -> (r: String)
    ensures
        r@ == or_zero_digit(text_view(*part)),
{
    match part {
        Some(t) => t.clone(),
        None => "0".to_owned(),
    }
}

/// The levels of a side.
pub fn parse_depth_side(side: &SideTexts) -> (r: Vec<(String, String)>)
    ensures
        level_pairs(r@) == side_levels(side@),
{
    let mut r: Vec<(String, String)> = Vec::new();
    assert(level_pairs(r@) == Seq::<(Seq<char>, Seq<char>)>::empty());
    let levels: &Vec<Option<Vec<Option<String>>>> = match &side.levels {
        Some(l) => l,
        None => {
            return r;
        },
    };
    let ghost views = side@->0;
    assert(views == levels@.map_values(|l: Option<Vec<Option<String>>>| level_texts(l)));
    let mut i: usize = 0;
    assert(views.take(0) == Seq::<Option<Seq<Option<Seq<char>>>>>::empty());
    while i < levels.len()
        invariant
            i <= levels.len(),
            side@ == Some(views),
            views == levels@.map_values(|l: Option<Vec<Option<String>>>| level_texts(l)),
            forall|j: int| 0 <= j < i ==> #[trigger] views[j] is Some,
            level_pairs(r@) == full_levels(views.take(i as int)),
        decreases levels.len() - i,
    {
        let ghost head = views.take(i + 1);
        assert(head.drop_last() == views.take(i as int));
        assert(head.last() == level_texts(levels@[i as int]));
        match &levels[i] {
            Some(parts) => {
                let ghost texts = parts@.map_values(|p: Option<String>| text_view(p));
                assert(head.last() == Some(texts));
                if parts.len() >= 2 {
                    let ghost before = level_pairs(r@);
                    let price: String = part_text(&parts[0]);
                    let quantity: String = part_text(&parts[1]);
                    assert(texts[0] == text_view(parts@[0]) && texts[1] == text_view(parts@[1]));
                    let ghost level = (price@, quantity@);
                    r.push((price, quantity));
                    assert(level_pairs(r@) == before.push(level));
                }
                assert(views[i as int] is Some);
            },
            None => {
                assert(views[i as int] is None);
                let none: Vec<(String, String)> = Vec::new();
                assert(level_pairs(none@) == Seq::<(Seq<char>, Seq<char>)>::empty());
                return none;
            },
        }
        i = i + 1;
    }
    assert(views.take(views.len() as int) == views);
    r
}

/// The message in what was read of it: none where its stream is not followed.
pub open spec fn depth_in(fields: Option<BookTextsView>, index: Map<Seq<char>, usize>) -> Result<
    Option<DepthView>,
    MessageError,
> {
    match fields {
        None => Err(MessageError::NotJson),
        Some(t) => match t.stream {
            None => Err(MessageError::NoStream),
            Some(stream) => if !index.contains_key(stream) {
                Ok(None)
            } else {
                match t.sides {
                    None => Err(MessageError::NoData),
                    Some((None, _)) => Err(MessageError::NoBids),
                    Some((Some(_), None)) => Err(MessageError::NoAsks),
                    Some((Some(bids), Some(asks))) => Ok(
                        Some(
                            DepthView {
                                pair_id: index[stream],
                                bids: side_levels(bids),
                                asks: side_levels(asks),
                            },
                        ),
                    ),
                }
            },
        },
    }
}

/// A message that was read, as values.
pub open spec fn depth_result(r: Result<Option<DepthUpdate>, MessageError>) -> Result<
    Option<DepthView>,
    MessageError,
> {
    match r {
        Ok(Some(d)) => Ok(Some(d@)),
        Ok(None) => Ok(None),
        Err(e) => Err(e),
    }
}

/// The message in what was read of it.
pub fn depth_from(fields: Option<BookTexts>, index: &SymbolIndex) -> (r: Result<
    Option<DepthUpdate>,
    MessageError,
>)
    ensures
        depth_result(r) == depth_in(book_texts_view(fields), index@),
{
    let t: BookTexts = match fields {
        Some(t) => t,
        None => {
            return Err(MessageError::NotJson);
        },
    };
    let stream: &String = match &t.stream {
        Some(s) => s,
        None => {
            return Err(MessageError::NoStream);
        },
    };
    let pair_id: usize = match index.get(stream.as_str()) {
        Some(i) => i,
        None => {
            return Ok(None);
        },
    };
    match &t.sides {
        None => Err(MessageError::NoData),
        Some((None, _)) => Err(MessageError::NoBids),
        Some((Some(_), None)) => Err(MessageError::NoAsks),
        Some((Some(bids), Some(asks))) => Ok(
            Some(
                DepthUpdate {
                    pair_id,
                    bids: parse_depth_side(bids),
                    asks: parse_depth_side(asks),
                },
            ),
        ),
    }
}

/// Reads a message with an order book.
pub fn read_depth(bytes: Vec<u8>, index: &SymbolIndex) -> (r: Result<
    Option<DepthUpdate>,
    MessageError,
>)
    ensures
        depth_result(r) == depth_in(
            json_book_texts(bytes@, "stream"@, "data"@, "bids"@, "asks"@),
            index@,
        ),
{
    depth_from(read_book_texts(bytes, "stream", "data", "bids", "asks"), index)
}

/// Takes in an order book from its levels, each part none where its text is no number. A book with
/// a side without levels of positive price and quantity is left out.
pub fn apply_depth(
    pair_id: usize,
    bids: &Vec<(Option<Double>, Option<Double>)>,
    asks: &Vec<(Option<Double>, Option<Double>)>,
    books: &mut OrderBookStore,
    now_ms: u64,
) -> (r: bool)
    requires
        old(books).wf(),
    ensures
        final(books).wf(),
        final(books).pairs() == old(books).pairs(),
        r == (levels_of(bids@).len() > 0 && levels_of(asks@).len() > 0),
        final(books).books() == (if r && pair_id < old(books).pairs().len() {
            old(books).books().update(
                pair_id as int,
                Some(BookView { bids: levels_of(bids@), asks: levels_of(asks@) }),
            )
        } else {
            old(books).books()
        }),
        final(books).updated_ms() == (if r && pair_id < old(books).pairs().len() {
            now_ms
        } else {
            old(books).updated_ms()
        }),
{
    let bids: Vec<(Double, Double)> = parse_levels(bids);
    let asks: Vec<(Double, Double)> = parse_levels(asks);
    if bids.len() == 0 || asks.len() == 0 {
        return false;
    }
    books.update_by_id(pair_id, OrderBook { bids, asks }, now_ms);
    true
}

/// A pair is found by the symbol of its market: one is found where, and only where, a pair has a market
/// with that symbol.
pub proof fn lemma_symbol_found(
    pairs: Seq<Seq<char>>,
    markets: Map<Seq<char>, MarketView>,
    symbol: Seq<char>,
)
    ensures
        match place_of_symbol(pairs, markets, symbol) {
            Some(i) => 0 <= i < pairs.len() && markets.contains_key(pairs[i])
                && markets[pairs[i]].binance_symbol == symbol,
            None => forall|i: int|
                0 <= i < pairs.len() && markets.contains_key(#[trigger] pairs[i])
                    ==> markets[pairs[i]].binance_symbol != symbol,
        },
    decreases pairs.len(),
{
    if pairs.len() > 0 {
        let rest = pairs.drop_last();
        lemma_symbol_found(rest, markets, symbol);
        assert forall|i: int|
            0 <= i < pairs.len() && markets.contains_key(#[trigger] pairs[i]) && place_of_symbol(
                pairs,
                markets,
                symbol,
            ) is None implies markets[pairs[i]].binance_symbol != symbol by {
            if i < rest.len() {
                assert(rest[i] == pairs[i]);
            }
        }
    }
}

/// Whether a figure is that of a pair whose volume is at least the given one.
pub open spec fn is_large(
    figure: (String, String),
    pair: Seq<char>,
    pairs: Seq<Seq<char>>,
    markets: Map<Seq<char>, MarketView>,
    min_volume: (int, int),
) -> bool {
    &&& !decimal_less(amount_or_zero(figure.1@), min_volume)
    &&& place_of_symbol(pairs, markets, figure.0@) matches Some(i) && pairs[i] == pair
}

/// The selected pairs are those with a large enough volume: each of them has a figure that says so,
/// and each pair that has one is selected.
pub proof fn lemma_selected_by_volume(
    figures: Seq<(String, String)>,
    pairs: Seq<Seq<char>>,
    markets: Map<Seq<char>, MarketView>,
    min_volume: (int, int),
    pair: Seq<char>,
)
    ensures
        selected(figures, pairs, markets, min_volume).contains(pair) <==> exists|k: int|
            0 <= k < figures.len() && is_large(
                #[trigger] figures[k],
                pair,
                pairs,
                markets,
                min_volume,
            ),
        selected(figures, pairs, markets, min_volume).contains(pair) ==> pairs.contains(pair),
    decreases figures.len(),
{
    let all = selected(figures, pairs, markets, min_volume);
    if figures.len() > 0 {
        let init = figures.drop_last();
        let rest = selected(init, pairs, markets, min_volume);
        lemma_selected_by_volume(init, pairs, markets, min_volume, pair);
        lemma_place_of_symbol(pairs, markets, figures.last().0@);
        assert(figures[figures.len() - 1] == figures.last());
        if rest.contains(pair) {
            let j = choose|j: int| 0 <= j < rest.len() && rest[j] == pair;
            assert(all[j] == pair);
            let k = choose|k: int|
                0 <= k < init.len() && is_large(#[trigger] init[k], pair, pairs, markets, min_volume);
            assert(is_large(figures[k], pair, pairs, markets, min_volume));
        }
        if is_large(figures.last(), pair, pairs, markets, min_volume) {
            assert(all[rest.len() as int] == pair);
            let i = place_of_symbol(pairs, markets, figures.last().0@)->0;
            assert(pairs[i] == pair);
        }
        if all.contains(pair) && !rest.contains(pair) {
            let j = choose|j: int| 0 <= j < all.len() && all[j] == pair;
            if j < rest.len() {
                assert(rest[j] == pair);
            }
            assert(is_large(figures[figures.len() - 1], pair, pairs, markets, min_volume));
        }
        if exists|k: int|
            0 <= k < figures.len() && is_large(
                #[trigger] figures[k],
                pair,
                pairs,
                markets,
                min_volume,
            ) {
            let k = choose|k: int|
                0 <= k < figures.len() && is_large(
                    #[trigger] figures[k],
                    pair,
                    pairs,
                    markets,
                    min_volume,
                );
            if k < init.len() {
                assert(init[k] == figures[k]);
            }
        }
    }
}

} // verus!
