//! The latest quotes and order books of the pairs that are followed.
use crate::domain::{sound_quote, BookView, OrderBook, Ticker};
use crate::double::Double;
use crate::perf::counted;
use crate::text::texts;
use vstd::hash_map::StringHashMap;
use vstd::prelude::*;

verus! {

broadcast use vstd::string::group_string_axioms;

/// The place of the last mention of a name.
pub open spec fn last_place(names: Seq<Seq<char>>, name: Seq<char>) -> Option<int>
    decreases names.len(),
{
    if names.len() == 0 {
        None
    } else if names.last() == name {
        Some(names.len() - 1)
    } else {
        last_place(names.drop_last(), name)
    }
}

/// The last mention is a mention, and none comes after it.
pub proof fn lemma_last_place(names: Seq<Seq<char>>, name: Seq<char>)
    ensures
        match last_place(names, name) {
            Some(i) => 0 <= i < names.len() && names[i] == name && forall|j: int|
                i < j < names.len() ==> names[j] != name,
            None => !names.contains(name),
        },
    decreases names.len(),
{
    if names.len() > 0 && names.last() != name {
        lemma_last_place(names.drop_last(), name);
        if last_place(names.drop_last(), name) is None {
            if names.contains(name) {
                let i = choose|i: int| 0 <= i < names.len() && names[i] == name;
                assert(names.drop_last()[i] == name);
            }
        } else {
            let i = last_place(names.drop_last(), name)->0;
            assert forall|j: int| i < j < names.len() implies names[j] != name by {
                if j < names.len() - 1 {
                    assert(names.drop_last()[j] == names[j]);
                }
            }
        }
    }
}

/// The map from each name to the place of its last mention.
fn index_names(names: &Vec<String>) -> (r: StringHashMap<usize>)
    ensures
        index_of_names(r@, texts(names@)),
{
    let mut r: StringHashMap<usize> = StringHashMap::new();
    let mut i: usize = 0;
    let ghost all = texts(names@);
    while i < names.len()
        invariant
            i <= names.len(),
            all == texts(names@),
            index_of_names(r@, all.take(i as int)),
        decreases names.len() - i,
    {
        r.insert(names[i].clone(), i);
        proof {
            let next = all.take(i + 1);
            assert(next.drop_last() == all.take(i as int) && next.last() == names@[i as int]@);
        }
        i = i + 1;
    }
    assert(all.take(all.len() as int) == all);
    r
}

/// Whether a map leads from each name to the place of its last mention.
spec fn index_of_names(map: Map<Seq<char>, usize>, names: Seq<Seq<char>>) -> bool {
    forall|name: Seq<char>|
        match last_place(names, name) {
            Some(i) => #[trigger] map.contains_key(name) && map[name] == i,
            None => !map.contains_key(name),
        }
}

/// Whether a bid and an ask are the two sides of a market.
pub fn is_valid_ticker(bid: Double, ask: Double) -> (r: bool)
    ensures
        r == sound_quote(bid, ask),
{
    let zero = Double { bits: 0 };
    bid.is_finite() && ask.is_finite() && bid.gt(zero) && ask.gt(zero) && ask.ge(bid)
}

/// The latest quotes, by the place of their pair in the list of pairs.
pub struct TickerStore {
    id_to_pair: Vec<String>,
    pair_to_id: StringHashMap<usize>,
    bid: Vec<Double>,
    ask: Vec<Double>,
    valid: Vec<bool>,
    valid_count: u64,
    last_update_ms: u64,
    update_seq: u64,
}

/// What a store of quotes holds.
#[verifier::ext_equal]
pub struct TickerStoreView {
    pub pairs: Seq<Seq<char>>,
    pub quotes: Seq<Ticker>,
    pub last_update_ms: u64,
    pub update_seq: u64,
}

/// The number of sound quotes.
pub open spec fn sound_count(quotes: Seq<Ticker>) -> nat
    decreases quotes.len(),
{
    if quotes.len() == 0 {
        0
    } else {
        sound_count(quotes.drop_last()) + if sound_quote(quotes.last().bid, quotes.last().ask) {
            1nat
        } else {
            0
        }
    }
}

/// Putting a quote in the place of another moves the number of sound ones by their difference.
proof fn lemma_sound_count_update(quotes: Seq<Ticker>, i: int, t: Ticker)
    requires
        0 <= i < quotes.len(),
    ensures
        sound_count(quotes.update(i, t)) == sound_count(quotes) + (if sound_quote(t.bid, t.ask) {
            1int
        } else {
            0
        }) - (if sound_quote(quotes[i].bid, quotes[i].ask) {
            1int
        } else {
            0
        }),
        sound_count(quotes) <= quotes.len(),
        sound_quote(quotes[i].bid, quotes[i].ask) ==> sound_count(quotes) > 0,
        !sound_quote(quotes[i].bid, quotes[i].ask) ==> sound_count(quotes) < quotes.len(),
    decreases quotes.len(),
{
    if i == quotes.len() - 1 {
        assert(quotes.update(i, t).drop_last() == quotes.drop_last());
        lemma_sound_count_bound(quotes.drop_last());
    } else {
        assert(quotes.update(i, t).drop_last() == quotes.drop_last().update(i, t));
        lemma_sound_count_update(quotes.drop_last(), i, t);
    }
}

proof fn lemma_sound_count_bound(quotes: Seq<Ticker>)
    ensures
        sound_count(quotes) <= quotes.len(),
    decreases quotes.len(),
{
    if quotes.len() > 0 {
        lemma_sound_count_bound(quotes.drop_last());
    }
}

impl TickerStoreView {
    /// The quote at a place, if there is a sound one.
    pub open spec fn quote_at(self, pair_id: int) -> Option<Ticker> {
        if 0 <= pair_id < self.quotes.len() && sound_quote(
            self.quotes[pair_id].bid,
            self.quotes[pair_id].ask,
        ) {
            Some(self.quotes[pair_id])
        } else {
            None
        }
    }

    /// The quote of a pair, if there is a sound one.
    pub open spec fn quote_of(self, pair: Seq<char>) -> Option<Ticker> {
        match last_place(self.pairs, pair) {
            Some(i) => self.quote_at(i),
            None => None,
        }
    }

    /// The store after a quote has come in.
    pub open spec fn updated(self, pair_id: int, bid: Double, ask: Double, now_ms: u64) -> Self {
        if 0 <= pair_id < self.pairs.len() {
            TickerStoreView {
                pairs: self.pairs,
                quotes: self.quotes.update(pair_id, Ticker { bid, ask }),
                last_update_ms: now_ms,
                update_seq: counted(self.update_seq, 1),
            }
        } else {
            self
        }
    }
}

impl View for TickerStore {
    type V = TickerStoreView;

    closed spec fn view(&self) -> TickerStoreView {
        TickerStoreView {
            pairs: texts(self.id_to_pair@),
            quotes: Seq::new(self.bid@.len(), |i: int| Ticker { bid: self.bid@[i], ask: self.ask@[i] }),
            last_update_ms: self.last_update_ms,
            update_seq: self.update_seq,
        }
    }
}

impl TickerStore {
    /// The parts of the store fit together: one quote for each pair, the flags and the count of
    /// the sound ones, the index of the pairs.
    pub closed spec fn wf(&self) -> bool {
        &&& self.bid@.len() == self.id_to_pair@.len()
        &&& self.ask@.len() == self.id_to_pair@.len()
        &&& self.valid@.len() == self.id_to_pair@.len()
        &&& index_of_names(self.pair_to_id@, texts(self.id_to_pair@))
        &&& forall|i: int|
            0 <= i < self.valid@.len() ==> #[trigger] self.valid@[i] == sound_quote(
                self.bid@[i],
                self.ask@[i],
            )
        &&& self.valid_count == sound_count(self@.quotes)
    }

    /// A store without quotes for the given pairs.
    pub fn new(pairs: Vec<String>) -> (r: TickerStore)
        ensures
            r.wf(),
            r@.pairs == texts(pairs@),
            r@.quotes == Seq::new(
                pairs@.len(),
                |i: int| Ticker { bid: (Double { bits: 0 }), ask: (Double { bits: 0 }) },
            ),
            r@.last_update_ms == 0,
            r@.update_seq == 0,
    {
        let pair_count: usize = pairs.len();
        let pair_to_id: StringHashMap<usize> = index_names(&pairs);
        let mut bid: Vec<Double> = Vec::new();
        let mut ask: Vec<Double> = Vec::new();
        let mut valid: Vec<bool> = Vec::new();
        let mut i: usize = 0;
        while i < pair_count
            invariant
                i <= pair_count,
                bid.len() == i,
                ask.len() == i,
                valid.len() == i,
                forall|j: int| 0 <= j < i ==> bid@[j].bits == 0,
                forall|j: int| 0 <= j < i ==> ask@[j].bits == 0,
                forall|j: int| 0 <= j < i ==> valid@[j] == false,
            decreases pair_count - i,
        {
            bid.push(Double { bits: 0 });
            ask.push(Double { bits: 0 });
            valid.push(false);
            i = i + 1;
        }
        let r = TickerStore {
            id_to_pair: pairs,
            pair_to_id,
            bid,
            ask,
            valid,
            valid_count: 0,
            last_update_ms: 0,
            update_seq: 0,
        };
        proof {
            lemma_no_sound_quotes(r@.quotes);
            assert(r@.quotes == Seq::new(
                pairs@.len(),
                |i: int| Ticker { bid: (Double { bits: 0 }), ask: (Double { bits: 0 }) },
            ));
        }
        r
    }

    /// The number of pairs.
    pub fn pair_count(&self) -> (r: usize)
        ensures
            r == self@.pairs.len(),
    {
        self.id_to_pair.len()
    }

    /// The number of pairs with a sound quote.
    pub fn valid_count(&self) -> (r: usize)
        requires
            self.wf(),
        ensures
            r == sound_count(self@.quotes),
    {
        proof {
            lemma_sound_count_bound(self@.quotes);
            assert(self@.quotes.len() == self.bid.len());
        }
        self.valid_count as usize
    }

    /// The time of the last update, zero before the first.
    pub fn last_update_ms(&self) -> (r: u64)
        ensures
            r == self@.last_update_ms,
    {
        self.last_update_ms
    }

    /// The number of updates so far, which goes round at the end of its range.
    pub fn update_seq(&self) -> (r: u64)
        ensures
            r == self@.update_seq,
    {
        self.update_seq
    }

    /// The pair at a place.
    pub fn pair_name(&self, pair_id: usize) -> (r: Option<&str>)
        ensures
            match r {
                Some(name) => pair_id < self@.pairs.len() && name@ == self@.pairs[pair_id as int],
                None => pair_id >= self@.pairs.len(),
            },
    {
        if pair_id < self.id_to_pair.len() {
            Some(self.id_to_pair[pair_id].as_str())
        } else {
            None
        }
    }

    /// The place of a pair, the last one where it is named more than once.
    pub fn pair_id(&self, pair: &str) -> (r: Option<usize>)
        requires
            self.wf(),
        ensures
            match r {
                Some(i) => last_place(self@.pairs, pair@) == Some(i as int),
                None => last_place(self@.pairs, pair@) is None,
            },
    {
        match self.pair_to_id.get(pair) {
            Some(i) => Some(*i),
            None => None,
        }
    }

    /// Takes in a quote; does nothing at a place without a pair.
    pub fn update_by_id(&mut self, pair_id: usize, bid: Double, ask: Double, now_ms: u64)
        requires
            old(self).wf(),
        ensures
            final(self).wf(),
            final(self)@ == old(self)@.updated(pair_id as int, bid, ask, now_ms),
    {
        if pair_id >= self.id_to_pair.len() {
            return;
        }
        let ghost before = self@.quotes;
        self.bid.set(pair_id, bid);
        self.ask.set(pair_id, ask);
        self.last_update_ms = now_ms;
        self.update_seq = self.update_seq.wrapping_add(1);

        let new_valid: bool = is_valid_ticker(bid, ask);
        let old_valid: bool = self.valid[pair_id];
        self.valid.set(pair_id, new_valid);
        proof {
            lemma_sound_count_update(before, pair_id as int, Ticker { bid, ask });
            assert(self@.quotes == before.update(pair_id as int, Ticker { bid, ask }));
        }
        if old_valid != new_valid {
            if new_valid {
                self.valid_count = self.valid_count + 1;
            } else {
                self.valid_count = self.valid_count - 1;
            }
        }
    }

    /// The quote at a place, if there is a sound one.
    pub fn get_by_id(&self, pair_id: usize) -> (r: Option<Ticker>)
        requires
            self.wf(),
        ensures
            r == self@.quote_at(pair_id as int),
    {
        if pair_id >= self.id_to_pair.len() {
            return None;
        }
        let bid: Double = self.bid[pair_id];
        let ask: Double = self.ask[pair_id];
        if is_valid_ticker(bid, ask) {
            Some(Ticker { bid, ask })
        } else {
            None
        }
    }

    /// The quote of a pair, if there is a sound one.
    pub fn get_by_pair(&self, pair: &str) -> (r: Option<Ticker>)
        requires
            self.wf(),
        ensures
            r == self@.quote_of(pair@),
    {
        match self.pair_id(pair) {
            Some(id) => self.get_by_id(id),
            None => None,
        }
    }
}

/// Zero prices are no quotes.
proof fn lemma_no_sound_quotes(quotes: Seq<Ticker>)
    requires
        forall|i: int| 0 <= i < quotes.len() ==> (#[trigger] quotes[i]).bid.bits == 0,
    ensures
        sound_count(quotes) == 0,
    decreases quotes.len(),
{
    if quotes.len() > 0 {
        assert(quotes.last() == quotes[quotes.len() - 1]);
        lemma_no_sound_quotes(quotes.drop_last());
    }
}

/// A store holds one quote for each of its pairs.
pub proof fn lemma_quote_for_each_pair(store: &TickerStore)
    requires
        store.wf(),
    ensures
        store@.quotes.len() == store@.pairs.len(),
{
}

/// A store has one place for the book of each of its pairs.
pub proof fn lemma_book_for_each_pair(store: &OrderBookStore)
    requires
        store.wf(),
    ensures
        store.books().len() == store.pairs().len(),
{
}

/// What was written is read back: after an update at a place the quote there is the new one if it
/// is sound and none otherwise, and every other place is as before.
pub proof fn lemma_read_after_update(
    store: TickerStoreView,
    pair_id: int,
    bid: Double,
    ask: Double,
    now_ms: u64,
    other: int,
)
    requires
        0 <= pair_id < store.pairs.len(),
        store.quotes.len() == store.pairs.len(),
        other != pair_id,
    ensures
        store.updated(pair_id, bid, ask, now_ms).quote_at(pair_id) == (if sound_quote(bid, ask) {
            Some(Ticker { bid, ask })
        } else {
            None
        }),
        store.updated(pair_id, bid, ask, now_ms).quote_at(other) == store.quote_at(other),
        store.updated(pair_id, bid, ask, now_ms).pairs == store.pairs,
{
}

/// The latest order books, by the place of their pair in the list of pairs.
pub struct OrderBookStore {
    id_to_pair: Vec<String>,
    pair_to_id: StringHashMap<usize>,
    books: Vec<Option<OrderBook>>,
    last_update_ms: u64,
}

/// The view of an order book that may be missing.
pub open spec fn book_view(book: Option<OrderBook>) -> Option<BookView> {
    match book {
        Some(b) => Some(b@),
        None => None,
    }
}

impl OrderBookStore {
    /// The pairs.
    pub closed spec fn pairs(&self) -> Seq<Seq<char>> {
        texts(self.id_to_pair@)
    }

    /// The books, none where none has come.
    pub closed spec fn books(&self) -> Seq<Option<BookView>> {
        self.books@.map_values(|b: Option<OrderBook>| book_view(b))
    }

    /// The book of a pair, none where none has come.
    pub open spec fn book_of(&self, pair: Seq<char>) -> Option<BookView> {
        match last_place(self.pairs(), pair) {
            Some(i) => self.books()[i],
            None => None,
        }
    }

    /// The time of the last update.
    pub closed spec fn updated_ms(&self) -> u64 {
        self.last_update_ms
    }

    /// One place for each pair, and the index of the pairs.
    pub closed spec fn wf(&self) -> bool {
        &&& self.books@.len() == self.id_to_pair@.len()
        &&& index_of_names(self.pair_to_id@, texts(self.id_to_pair@))
    }

    /// A store without books for the given pairs.
    pub fn new(pairs: Vec<String>) -> (r: OrderBookStore)
        ensures
            r.wf(),
            r.pairs() == texts(pairs@),
            r.books() == Seq::new(pairs@.len(), |i: int| None::<BookView>),
            r.updated_ms() == 0,
    {
        let pair_to_id: StringHashMap<usize> = index_names(&pairs);
        let mut books: Vec<Option<OrderBook>> = Vec::new();
        let mut i: usize = 0;
        while i < pairs.len()
            invariant
                i <= pairs.len(),
                books.len() == i,
                forall|j: int| 0 <= j < i ==> books@[j] is None,
            decreases pairs.len() - i,
        {
            books.push(None);
            i = i + 1;
        }
        let r = OrderBookStore { id_to_pair: pairs, pair_to_id, books, last_update_ms: 0 };
        assert(r.books() == Seq::new(pairs@.len(), |i: int| None::<BookView>));
        r
    }

    /// The place of a pair, the last one where it is named more than once.
    pub fn pair_id(&self, pair: &str) -> (r: Option<usize>)
        requires
            self.wf(),
        ensures
            match r {
                Some(i) => last_place(self.pairs(), pair@) == Some(i as int),
                None => last_place(self.pairs(), pair@) is None,
            },
    {
        match self.pair_to_id.get(pair) {
            Some(i) => Some(*i),
            None => None,
        }
    }

    /// Takes in a book; does nothing at a place without a pair.
    pub fn update_by_id(&mut self, pair_id: usize, book: OrderBook, now_ms: u64)
        requires
            old(self).wf(),
        ensures
            final(self).wf(),
            final(self).pairs() == old(self).pairs(),
            final(self).books() == (if pair_id < old(self).pairs().len() {
                old(self).books().update(pair_id as int, Some(book@))
            } else {
                old(self).books()
            }),
            final(self).updated_ms() == (if pair_id < old(self).pairs().len() {
                now_ms
            } else {
                old(self).updated_ms()
            }),
    {
        if pair_id >= self.books.len() {
            return;
        }
        self.books.set(pair_id, Some(book));
        self.last_update_ms = now_ms;
        assert(self.books() == old(self).books().update(pair_id as int, Some(book@)));
    }

    /// The book of a pair, if one has come.
    pub fn get_by_pair(&self, pair: &str) -> (r: Option<&OrderBook>)
        requires
            self.wf(),
        ensures
            match r {
                Some(b) => self.book_of(pair@) == Some(b@),
                None => self.book_of(pair@) is None,
            },
    {
        match self.pair_id(pair) {
            Some(id) => {
                proof {
                    lemma_last_place(self.pairs(), pair@);
                }
                match &self.books[id] {
                    Some(b) => Some(b),
                    None => None,
                }
            },
            None => None,
        }
    }
}

/// A quote is read where, and only where, its prices are finite, the bid is above zero and the ask not
/// below the bid; and it is the one that is stored.
pub proof fn lemma_only_sound_quotes(store: TickerStoreView, pair_id: int)
    ensures
        store.quote_at(pair_id) is Some <==> {
            &&& 0 <= pair_id < store.quotes.len()
            &&& store.quotes[pair_id].bid.finite() && store.quotes[pair_id].ask.finite()
            &&& 0 < store.quotes[pair_id].bid.value() <= store.quotes[pair_id].ask.value()
        },
        store.quote_at(pair_id) matches Some(t) ==> t == store.quotes[pair_id],
{
}

/// An update is seen: it moves the number of updates on, unless that is at its end, and a place beyond
/// the pairs changes nothing.
pub proof fn lemma_update_seen(
    store: TickerStoreView,
    pair_id: int,
    bid: Double,
    ask: Double,
    now_ms: u64,
)
    ensures
        0 <= pair_id < store.pairs.len() && store.update_seq < u64::MAX ==> store.updated(
            pair_id,
            bid,
            ask,
            now_ms,
        ).update_seq == store.update_seq + 1,
        0 <= pair_id < store.pairs.len() ==> store.updated(pair_id, bid, ask, now_ms).last_update_ms
            == now_ms,
        !(0 <= pair_id < store.pairs.len()) ==> store.updated(pair_id, bid, ask, now_ms) == store,
{
}

} // verus!
