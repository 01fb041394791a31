//! Traces of the market stream: what is recorded of it, and how it is read back.
use crate::arbitrage::graph::{all_listed, lemma_active_placeable, placeable};
use crate::binance::ws::{chunked, chunks, text_lists, ticker_stream, SymbolIndex};
use crate::codec::{bytes_view, hex_bytes, hex_decode, hex_encode, hex_text, lemma_hex_read_back};
use crate::decimal::{zero_amount, Amount};
use crate::domain::{Market, MarketView, Markets};
use crate::store::last_place;
use crate::text::{before, is_before, lemma_before_total, lemma_before_transitive, texts};
use vstd::prelude::*;
use vstd::utf8::{encode_utf8, valid_utf8};

verus! {

broadcast use vstd::string::group_string_axioms;

/// The version of traces that is read.
pub const TRACE_VERSION: u32 = 1;

/// How the bytes of a message are written down.
#[derive(Clone, Copy, Debug, PartialEq, Eq, Structural)]
pub enum TraceEncoding {
    /// As the text that they are.
    Utf8,
    /// As hexadecimal digits.
    Hex,
}

/// A pair in the head of a trace.
#[derive(Debug)]
pub struct TracePair {
    pub pair: String,
    pub binance_symbol: String,
    pub base: String,
    pub quote: String,
}

/// What a pair in the head of a trace holds.
pub struct TracePairView {
    pub pair: Seq<char>,
    pub binance_symbol: Seq<char>,
    pub base: Seq<char>,
    pub quote: Seq<char>,
}

impl View for TracePair {
    type V = TracePairView;

    open spec fn view(&self) -> TracePairView {
        TracePairView {
            pair: self.pair@,
            binance_symbol: self.binance_symbol@,
            base: self.base@,
            quote: self.quote@,
        }
    }
}

/// The head of a trace.
#[derive(Debug)]
pub struct TraceMeta {
    pub version: u32,
    pub kind: String,
    pub recorded_at_epoch_ms: u64,
    pub taker_fee_rate: Amount,
    pub ws_chunk_size: usize,
    pub pairs: Vec<TracePair>,
}

/// A message in a trace: when it came, in microseconds, over which connection, and its bytes.
#[derive(Debug)]
pub struct TraceFrame {
    pub t_us: u64,
    pub chunk: u32,
    pub encoding: TraceEncoding,
    pub payload: String,
}

/// The kind of traces that is read and written.
pub open spec fn trace_kind_text() -> Seq<char> {
    "binance_book_ticker_v1"@
}

/// The kind of traces that is read and written.
pub fn trace_kind() -> (r: &'static str)
    ensures
        r@ == trace_kind_text(),
{
    "binance_book_ticker_v1"
}

/// Why a trace is not read.
#[derive(Clone, Copy, Debug, PartialEq, Eq, Structural)]
pub enum TraceError {
    Version,
    Kind,
    NoPairs,
}

/// Whether a trace can be read, by its head.
pub fn validate_trace_meta(meta: &TraceMeta) -> (r: Result<(), TraceError>)
    ensures
        r == (if meta.version != TRACE_VERSION {
            Err::<(), TraceError>(TraceError::Version)
        } else if meta.kind@ != trace_kind_text() {
            Err(TraceError::Kind)
        } else if meta.pairs@.len() == 0 {
            Err(TraceError::NoPairs)
        } else {
            Ok(())
        }),
{
    if meta.version != TRACE_VERSION {
        return Err(TraceError::Version);
    }
    if !(*meta.kind.as_str() == *trace_kind()) {
        return Err(TraceError::Kind);
    }
    if meta.pairs.len() == 0 {
        return Err(TraceError::NoPairs);
    }
    Ok(())
}

/// The pairs in the head of a trace, as values.
pub open spec fn pair_views(pairs: Seq<TracePair>) -> Seq<TracePairView> {
    pairs.map_values(|p: TracePair| p@)
}

/// The names of the pairs in the head of a trace.
pub open spec fn pair_texts(pairs: Seq<TracePair>) -> Seq<Seq<char>> {
    pairs.map_values(|p: TracePair| p.pair@)
}

/// The exchange's symbols of the pairs in the head of a trace.
pub open spec fn symbol_texts(pairs: Seq<TracePair>) -> Seq<Seq<char>> {
    pairs.map_values(|p: TracePair| p.binance_symbol@)
}

/// The names of the pairs in the head of a trace.
pub fn meta_pairs(meta: &TraceMeta) -> (r: Vec<String>)
    ensures
        r@.len() == meta.pairs@.len(),
        texts(r@) == pair_texts(meta.pairs@),
{
    let mut r: Vec<String> = Vec::new();
    let mut i: usize = 0;
    while i < meta.pairs.len()
        invariant
            i <= meta.pairs.len(),
            r.len() == i,
            forall|j: int| 0 <= j < i ==> (#[trigger] r@[j])@ == meta.pairs@[j].pair@,
        decreases meta.pairs.len() - i,
    {
        r.push(meta.pairs[i].pair.clone());
        i = i + 1;
    }
    assert(texts(r@) =~= pair_texts(meta.pairs@));
    r
}

/// The market of a pair in the head of a trace: without limits, active, on the spot market.
pub open spec fn traced_market(p: TracePairView) -> MarketView {
    MarketView {
        symbol: p.pair,
        binance_symbol: p.binance_symbol,
        base: p.base,
        quote: p.quote,
        min_qty: zero_amount(),
        min_notional: zero_amount(),
        active: true,
        spot: true,
    }
}

/// The markets of the pairs in the head of a trace, the last one where a pair comes more than once.
pub open spec fn traced_markets(pairs: Seq<TracePairView>) -> Map<Seq<char>, MarketView>
    decreases pairs.len(),
{
    if pairs.len() == 0 {
        Map::empty()
    } else {
        traced_markets(pairs.drop_last()).insert(pairs.last().pair, traced_market(pairs.last()))
    }
}

/// The markets of the pairs in the head of a trace.
pub fn build_markets_from_meta(meta: &TraceMeta) -> (r: Markets)
    ensures
        r.wf(),
        r@ == traced_markets(pair_views(meta.pairs@)),
{
    let ghost all = pair_views(meta.pairs@);
    let mut out: Markets = Markets::new();
    let mut i: usize = 0;
    assert(all.take(0) == Seq::<TracePairView>::empty());
    while i < meta.pairs.len()
        invariant
            i <= meta.pairs.len(),
            all == pair_views(meta.pairs@),
            out.wf(),
            out@ == traced_markets(all.take(i as int)),
        decreases meta.pairs.len() - i,
    {
        let ghost head = all.take(i + 1);
        assert(head.drop_last() == all.take(i as int) && head.last() == meta.pairs@[i as int]@);
        let p: &TracePair = &meta.pairs[i];
        let market = Market {
            symbol: p.pair.clone(),
            binance_symbol: p.binance_symbol.clone(),
            base: p.base.clone(),
            quote: p.quote.clone(),
            min_qty: Amount::zero(),
            min_notional: Amount::zero(),
            active: true,
            spot: true,
        };
        assert(market@ == traced_market(p@));
        out.insert(p.pair.clone(), market);
        i = i + 1;
    }
    assert(all.take(all.len() as int) == all);
    out
}

/// A graph can be built of the markets of a trace, for its own pairs.
pub proof fn lemma_traced_placeable(pairs: Seq<TracePairView>)
    ensures
        all_listed(traced_markets(pairs), pairs.map_values(|p: TracePairView| p.pair)),
        placeable(traced_markets(pairs), pairs.map_values(|p: TracePairView| p.pair)),
{
    let markets = traced_markets(pairs);
    let names = pairs.map_values(|p: TracePairView| p.pair);
    lemma_traced_markets(pairs);
    assert forall|i: int| 0 <= i < names.len() implies markets.contains_key(#[trigger] names[i]) by {
        assert(markets.contains_key(pairs[i].pair));
    }
    assert forall|i: int| 0 <= i < names.len() implies (#[trigger] markets[names[i]]).active
        && markets[names[i]].spot by {
        assert(markets.contains_key(pairs[i].pair));
    }
    lemma_active_placeable(markets, names);
}

proof fn lemma_traced_markets(pairs: Seq<TracePairView>)
    ensures
        forall|i: int|
            0 <= i < pairs.len() ==> #[trigger] traced_markets(pairs).contains_key(pairs[i].pair),
        forall|k: Seq<char>| #[trigger]
            traced_markets(pairs).contains_key(k) ==> traced_markets(pairs)[k].active
                && traced_markets(pairs)[k].spot,
    decreases pairs.len(),
{
    if pairs.len() > 0 {
        let rest = pairs.drop_last();
        lemma_traced_markets(rest);
        assert forall|i: int| 0 <= i < pairs.len() implies #[trigger] traced_markets(
            pairs,
        ).contains_key(pairs[i].pair) by {
            if i < rest.len() {
                assert(rest[i] == pairs[i]);
                assert(traced_markets(rest).contains_key(rest[i].pair));
            }
        }
        assert forall|k: Seq<char>| #[trigger]
            traced_markets(pairs).contains_key(k) implies traced_markets(pairs)[k].active
            && traced_markets(pairs)[k].spot by {
            if k != pairs.last().pair {
                assert(traced_markets(rest).contains_key(k));
            }
        }
    }
}

/// Whether an index leads from each name to its last place in a list.
pub open spec fn indexes_names(index: Map<Seq<char>, usize>, names: Seq<Seq<char>>) -> bool {
    forall|name: Seq<char>|
        match last_place(names, name) {
            Some(i) => #[trigger] index.contains_key(name) && index[name] == i,
            None => !index.contains_key(name),
        }
}

/// The places of the pairs in the head of a trace by the exchange's symbols.
pub fn build_binance_to_id_map(meta: &TraceMeta) -> (r: SymbolIndex)
    ensures
        indexes_names(r@, symbol_texts(meta.pairs@)),
{
    let ghost all = symbol_texts(meta.pairs@);
    let mut r: SymbolIndex = SymbolIndex::new();
    let mut i: usize = 0;
    assert(all.take(0) == Seq::<Seq<char>>::empty());
    while i < meta.pairs.len()
        invariant
            i <= meta.pairs.len(),
            all == symbol_texts(meta.pairs@),
            indexes_names(r@, all.take(i as int)),
        decreases meta.pairs.len() - i,
    {
        let ghost head = all.take(i + 1);
        let ghost earlier = r@;
        assert(head.drop_last() == all.take(i as int) && head.last()
            == meta.pairs@[i as int].binance_symbol@);
        r.insert(meta.pairs[i].binance_symbol.clone(), i);
        assert(indexes_names(r@, head)) by {
            assert forall|name: Seq<char>|
                match last_place(head, name) {
                    Some(k) => #[trigger] r@.contains_key(name) && r@[name] == k,
                    None => !r@.contains_key(name),
                } by {
                let k = last_place(all.take(i as int), name);
                assert(earlier.contains_key(name) == (k is Some));
            }
        }
        i = i + 1;
    }
    assert(all.take(all.len() as int) == all);
    r
}

/// Why nothing is recorded: there is no market for the pair at this place.
#[derive(Clone, Copy, Debug, PartialEq, Eq, Structural)]
pub enum RecordError {
    MissingMarket(usize),
}

/// The pair as it stands in the head of a trace.
pub open spec fn pair_meta(pair: Seq<char>, m: MarketView) -> TracePairView {
    TracePairView { pair, binance_symbol: m.binance_symbol, base: m.base, quote: m.quote }
}

/// Whether a place is that of the first pair without a market.
pub open spec fn first_missing(
    i: int,
    pairs: Seq<Seq<char>>,
    markets: Map<Seq<char>, MarketView>,
) -> bool {
    &&& 0 <= i < pairs.len()
    &&& !markets.contains_key(pairs[i])
    &&& forall|j: int| 0 <= j < i ==> markets.contains_key(#[trigger] pairs[j])
}

/// The pairs as they stand in the head of a trace.
pub fn build_pairs_meta(markets: &Markets, pairs: &Vec<String>) -> (r: Result<
    Vec<TracePair>,
    RecordError,
>)
    requires
        markets.wf(),
    ensures
        match r {
            Ok(list) => {
                &&& list@.len() == pairs@.len()
                &&& forall|i: int|
                    0 <= i < pairs@.len() ==> markets@.contains_key((#[trigger] pairs@[i])@)
                        && list@[i]@ == pair_meta(pairs@[i]@, markets@[pairs@[i]@])
            },
            Err(RecordError::MissingMarket(i)) => first_missing(
                i as int,
                texts(pairs@),
                markets@,
            ),
        },
{
    let mut r: Vec<TracePair> = Vec::new();
    let mut i: usize = 0;
    while i < pairs.len()
        invariant
            i <= pairs.len(),
            markets.wf(),
            r.len() == i,
            forall|j: int|
                0 <= j < i ==> markets@.contains_key((#[trigger] pairs@[j])@) && r@[j]@
                    == pair_meta(pairs@[j]@, markets@[pairs@[j]@]),
        decreases pairs.len() - i,
    {
        match markets.get(pairs[i].as_str()) {
            Some(m) => {
                r.push(
                    TracePair {
                        pair: pairs[i].clone(),
                        binance_symbol: m.binance_symbol.clone(),
                        base: m.base.clone(),
                        quote: m.quote.clone(),
                    },
                );
            },
            None => {
                return Err(RecordError::MissingMarket(i));
            },
        }
        i = i + 1;
    }
    Ok(r)
}

/// The streams of the best prices of pairs that all have a market.
pub open spec fn all_ticker_streams(
    pairs: Seq<Seq<char>>,
    markets: Map<Seq<char>, MarketView>,
) -> Seq<Seq<char>> {
    pairs.map_values(|p: Seq<char>| ticker_stream(markets[p].binance_symbol))
}

/// A size, but at least one.
pub open spec fn at_least_one(size: nat) -> nat {
    if size == 0 {
        1
    } else {
        size
    }
}

/// The streams of the best prices of pairs, in parts of the given size, at least one.
pub fn build_book_ticker_stream_chunks(
    markets: &Markets,
    pairs: &Vec<String>,
    chunk_size: usize,
) -> (r: Result<Vec<Vec<String>>, RecordError>)
    requires
        markets.wf(),
    ensures
        match r {
            Ok(lists) => {
                &&& forall|i: int| 0 <= i < pairs@.len() ==> markets@.contains_key((#[trigger] pairs@[i])@)
                &&& text_lists(lists@) == chunked(
                    all_ticker_streams(texts(pairs@), markets@),
                    at_least_one(chunk_size as nat),
                )
            },
            Err(RecordError::MissingMarket(i)) => first_missing(
                i as int,
                texts(pairs@),
                markets@,
            ),
        },
{
    let mut streams: Vec<String> = Vec::new();
    let mut i: usize = 0;
    while i < pairs.len()
        invariant
            i <= pairs.len(),
            markets.wf(),
            streams.len() == i,
            forall|j: int|
                0 <= j < i ==> markets@.contains_key((#[trigger] pairs@[j])@) && streams@[j]@
                    == ticker_stream(markets@[pairs@[j]@].binance_symbol),
        decreases pairs.len() - i,
    {
        match markets.get(pairs[i].as_str()) {
            Some(m) => {
                let mut stream: String = m.binance_symbol.as_str().to_lowercase();
                stream.append("@bookTicker");
                streams.push(stream);
            },
            None => {
                return Err(RecordError::MissingMarket(i));
            },
        }
        i = i + 1;
    }
    assert(texts(streams@) =~= all_ticker_streams(texts(pairs@), markets@)) by {
        assert forall|j: int| 0 <= j < streams@.len() implies texts(streams@)[j]
            == all_ticker_streams(texts(pairs@), markets@)[j] by {
            assert(markets@.contains_key(pairs@[j]@));
        }
    }
    let size: usize = if chunk_size == 0 {
        1
    } else {
        chunk_size
    };
    Ok(chunks(&streams, size))
}

/// How many connections a trace was recorded over: one for each part of its pairs.
pub fn chunk_count(meta: &TraceMeta) -> (r: usize)
    ensures
        r == (meta.pairs@.len() + at_least_one(meta.ws_chunk_size as nat) - 1) / (at_least_one(
            meta.ws_chunk_size as nat,
        ) as int),
{
    let size: usize = if meta.ws_chunk_size == 0 {
        1
    } else {
        meta.ws_chunk_size
    };
    let n: usize = meta.pairs.len();
    proof {
        vstd::arithmetic::div_mod::lemma_fundamental_div_mod(n as int, size as int);
    }
    let whole: usize = n / size;
    let rest: usize = n % size;
    if rest == 0 {
        proof {
            assert(n + size - 1 == whole * size + (size - 1)) by (nonlinear_arith)
                requires
                    n == size * whole + rest,
                    rest == 0,
            ;
            vstd::arithmetic::div_mod::lemma_fundamental_div_mod_converse(
                n + size - 1,
                size as int,
                whole as int,
                size - 1,
            );
        }
        whole
    } else {
        proof {
            assert(n + size - 1 == (whole + 1) * size + (rest - 1)) by (nonlinear_arith)
                requires
                    n == size * whole + rest,
            ;
            vstd::arithmetic::div_mod::lemma_fundamental_div_mod_converse(
                n + size - 1,
                size as int,
                whole + 1,
                rest - 1,
            );
            assert(whole < n) by (nonlinear_arith)
                requires
                    n == size * whole + rest,
                    rest > 0,
                    size >= 1,
                    whole >= 0,
            ;
        }
        whole + 1
    }
}

/// `String::from_utf8`: the text that bytes are the encoding of, or the bytes where they are none.
#[verifier::external_body]
fn text_from_bytes(bytes: Vec<u8>) -> (r: Result<String, Vec<u8>>)
    ensures
        match r {
            Ok(t) => encode_utf8(t@) == bytes@,
            Err(b) => b@ == bytes@ && !valid_utf8(bytes@),
        },
{
    String::from_utf8(bytes).map_err(|e| e.into_bytes())
}

/// What is written down of the bytes of a message.
pub open spec fn writes_down(encoding: TraceEncoding, payload: Seq<char>, bytes: Seq<u8>) -> bool {
    match encoding {
        TraceEncoding::Utf8 => encode_utf8(payload) == bytes,
        TraceEncoding::Hex => !valid_utf8(bytes) && payload == hex_text(bytes),
    }
}

/// Writes down the bytes of a message: as a text where they are one, else as digits.
pub fn write_payload(bytes: Vec<u8>) -> (r: (TraceEncoding, String))
    ensures
        writes_down(r.0, r.1@, bytes@),
{
    match text_from_bytes(bytes) {
        Ok(text) => (TraceEncoding::Utf8, text),
        Err(b) => (TraceEncoding::Hex, hex_encode(&b)),
    }
}

/// The bytes that were written down; none where digits are none.
pub open spec fn payload_bytes(encoding: TraceEncoding, payload: Seq<char>) -> Option<Seq<u8>> {
    match encoding {
        TraceEncoding::Utf8 => Some(encode_utf8(payload)),
        TraceEncoding::Hex => hex_bytes(payload),
    }
}

/// The bytes that were written down.
pub fn read_payload(encoding: TraceEncoding, payload: &str) -> (r: Option<Vec<u8>>)
    ensures
        bytes_view(r) == payload_bytes(encoding, payload@),
{
    match encoding {
        TraceEncoding::Utf8 => Some(payload.as_bytes_vec()),
        TraceEncoding::Hex => hex_decode(payload),
    }
}

/// The bytes of a message that was recorded are read back as they came.
pub proof fn lemma_payload_read_back(encoding: TraceEncoding, payload: Seq<char>, bytes: Seq<u8>)
    requires
        writes_down(encoding, payload, bytes),
    ensures
        payload_bytes(encoding, payload) == Some(bytes),
{
    lemma_hex_read_back(bytes);
}

/// The number of bytes that were written down.
pub fn payload_size(encoding: TraceEncoding, payload: &str) -> (r: u64)
    ensures
        r == (match encoding {
            TraceEncoding::Utf8 => encode_utf8(payload@).len(),
            TraceEncoding::Hex => encode_utf8(payload@).len() / 2,
        }),
{
    let bytes: Vec<u8> = payload.as_bytes_vec();
    match encoding {
        TraceEncoding::Utf8 => bytes.len() as u64,
        TraceEncoding::Hex => (bytes.len() / 2) as u64,
    }
}

/// What was written to a trace, or replayed from it.
#[derive(Clone, Copy, Debug, PartialEq, Eq, Structural)]
pub struct FrameTotals {
    pub frames: u64,
    pub bytes: u64,
    /// The latest time of a frame, in microseconds.
    pub last_t_us: u64,
}

/// Totals of nothing.
pub open spec fn no_frames() -> FrameTotals {
    FrameTotals { frames: 0, bytes: 0, last_t_us: 0 }
}

/// Totals after one more frame of so many bytes.
pub open spec fn one_more(totals: FrameTotals, t_us: u64, size: u64) -> FrameTotals {
    FrameTotals {
        frames: (totals.frames + 1) as u64,
        bytes: (totals.bytes + size) as u64,
        last_t_us: if totals.last_t_us < t_us {
            t_us
        } else {
            totals.last_t_us
        },
    }
}

/// Whether one more frame of so many bytes can be counted.
pub open spec fn countable(totals: FrameTotals, size: u64) -> bool {
    totals.frames < u64::MAX && totals.bytes + size <= u64::MAX
}

impl FrameTotals {
    /// Totals of nothing.
    pub fn new() -> (r: FrameTotals)
        ensures
            r == no_frames(),
    {
        FrameTotals { frames: 0, bytes: 0, last_t_us: 0 }
    }

    /// Whether one more frame of so many bytes can be counted.
    pub fn has_room(&self, size: u64) -> (r: bool)
        ensures
            r == countable(*self, size),
    {
        self.frames < u64::MAX && self.bytes <= u64::MAX - size
    }

    /// Takes in a frame of so many bytes.
    pub fn count(&mut self, t_us: u64, size: u64)
        requires
            countable(*old(self), size),
        ensures
            *final(self) == one_more(*old(self), t_us, size),
    {
        self.frames = self.frames + 1;
        self.bytes = self.bytes + size;
        if self.last_t_us < t_us {
            self.last_t_us = t_us;
        }
    }

    /// Whether as many frames were taken in as are allowed.
    pub fn is_full(&self, limit: Option<u64>) -> (r: bool)
        ensures
            r == (limit matches Some(n) && self.frames >= n),
    {
        match limit {
            Some(n) => self.frames >= n,
            None => false,
        }
    }
}

/// How long to wait before a frame, in microseconds, where the pace of the recording is kept.
pub open spec fn pace_wait(pace: bool, t_us: u64, elapsed_us: u64) -> u64 {
    if pace && t_us > elapsed_us {
        (t_us - elapsed_us) as u64
    } else {
        0
    }
}

/// How long to wait before a frame, in microseconds, where the pace of the recording is kept.
pub fn pace_wait_us(pace: bool, t_us: u64, elapsed_us: u64) -> (r: u64)
    ensures
        r == pace_wait(pace, t_us, elapsed_us),
{
    if pace && t_us > elapsed_us {
        t_us - elapsed_us
    } else {
        0
    }
}

/// Whether no name comes after the next one.
pub open spec fn ascending(names: Seq<Seq<char>>) -> bool {
    forall|i: int, j: int|
        0 <= i < j < names.len() ==> !before(#[trigger] names[j], #[trigger] names[i])
}

/// Puts a name into its place in a list that ascends.
fn insert_sorted(list: &mut Vec<String>, name: &String)
    requires
        ascending(texts(old(list)@)),
    ensures
        ascending(texts(final(list)@)),
        texts(final(list)@).to_multiset() == texts(old(list)@).to_multiset().insert(name@),
{
    let ghost names = texts(list@);
    let mut i: usize = list.len();
    while i > 0 && is_before(name.as_str(), list[i - 1].as_str())
        invariant
            i <= list.len(),
            names == texts(list@),
            forall|j: int| i <= j < names.len() ==> before(name@, #[trigger] names[j]),
        decreases i,
    {
        assert(names[i - 1] == list@[i - 1]@);
        i = i - 1;
    }
    proof {
        if i > 0 {
            assert(names[i - 1] == list@[i - 1]@);
        }
    }
    list.insert(i, name.clone());
    proof {
        let all = texts(list@);
        assert(all =~= names.insert(i as int, name@));
        broadcast use vstd::seq_lib::group_to_multiset_ensures;
        assert forall|j: int| 0 <= j < i implies !before(name@, #[trigger] names[j]) by {
            if before(name@, names[j]) && j < i - 1 {
                lemma_not_before_total(names[i - 1], names[j]);
                if before(names[j], names[i - 1]) {
                    lemma_before_transitive(name@, names[j], names[i - 1]);
                }
            }
        }
        assert forall|j: int, k: int| 0 <= j < k < all.len() implies !before(
            #[trigger] all[k],
            #[trigger] all[j],
        ) by {
            if j < i && k > i {
                assert(all[j] == names[j] && all[k] == names[k - 1]);
            } else if j < i && k < i {
                assert(all[j] == names[j] && all[k] == names[k]);
            } else if j > i {
                assert(all[j] == names[j - 1] && all[k] == names[k - 1]);
            } else if k == i {
                assert(all[j] == names[j]);
            } else {
                assert(all[k] == names[k - 1]);
                if before(all[k], name@) {
                    lemma_before_transitive(name@, all[k], name@);
                    crate::text::lemma_before_irreflexive(name@);
                }
            }
        }
    }
}

/// Of two texts of which the first does not come before the second, the second does or they are
/// the same.
proof fn lemma_not_before_total(a: Seq<char>, b: Seq<char>)
    ensures
        !before(a, b) ==> before(b, a) || a == b,
{
    lemma_before_total(a, b);
}

/// The pairs to follow: those selected in the order of their names, and no more of them than
/// allowed.
pub fn order_pairs(selected: &Vec<String>, max_pairs: Option<usize>) -> (r: Vec<String>)
    ensures
        exists|sorted: Seq<Seq<char>>|
            #[trigger] ascending(sorted) && sorted.to_multiset() == texts(selected@).to_multiset()
                && texts(r@) == (match max_pairs {
                Some(n) => if n < sorted.len() {
                    sorted.take(n as int)
                } else {
                    sorted
                },
                None => sorted,
            }),
{
    let ghost all = texts(selected@);
    let mut r: Vec<String> = Vec::new();
    let mut i: usize = 0;
    proof {
        broadcast use vstd::seq_lib::group_to_multiset_ensures;
        assert(all.take(0) == texts(r@));
    }
    while i < selected.len()
        invariant
            i <= selected.len(),
            all == texts(selected@),
            ascending(texts(r@)),
            texts(r@).to_multiset() == all.take(i as int).to_multiset(),
        decreases selected.len() - i,
    {
        insert_sorted(&mut r, &selected[i]);
        proof {
            broadcast use vstd::seq_lib::group_to_multiset_ensures;
            assert(all.take(i + 1) =~= all.take(i as int).push(selected@[i as int]@));
        }
        i = i + 1;
    }
    let ghost sorted = texts(r@);
    assert(all.take(all.len() as int) == all);
    match max_pairs {
        Some(n) => {
            if n < r.len() {
                r.truncate(n);
                assert(texts(r@) =~= sorted.take(n as int));
            }
        },
        None => {},
    }
    assert(ascending(sorted));
    r
}

} // verus!
