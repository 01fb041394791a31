use oxidarb::double::Double;
use oxidarb::domain::OrderBook;
use oxidarb::perf::{update_max, PerfCounters};
use oxidarb::store::{is_valid_ticker, OrderBookStore, TickerStore};

fn d(x: f64) -> Double {
    Double::from_bits(x.to_bits())
}

fn names(list: &[&str]) -> Vec<String> {
    list.iter().map(|s| s.to_string()).collect()
}

#[test]
fn a_new_store_holds_no_quotes() {
    let s = TickerStore::new(names(&["BTC/USDT", "ETH/USDT"]));
    assert_eq!(s.pair_count(), 2);
    assert_eq!(s.valid_count(), 0);
    assert_eq!(s.last_update_ms(), 0);
    assert_eq!(s.update_seq(), 0);
    assert_eq!(s.pair_name(1), Some("ETH/USDT"));
    assert_eq!(s.pair_name(2), None);
    assert_eq!(s.pair_id("BTC/USDT"), Some(0));
    assert_eq!(s.pair_id("XRP/USDT"), None);
    assert!(s.get_by_id(0).is_none());
    assert!(s.get_by_pair("BTC/USDT").is_none());
}

#[test]
fn a_quote_that_was_stored_is_read_back() {
    let mut s = TickerStore::new(names(&["BTC/USDT", "ETH/USDT"]));
    s.update_by_id(1, d(10.0), d(11.0), 77);
    let t = s.get_by_pair("ETH/USDT").unwrap();
    assert_eq!((t.bid.to_bits(), t.ask.to_bits()), (10.0f64.to_bits(), 11.0f64.to_bits()));
    assert!(s.get_by_id(0).is_none());
    assert_eq!(s.valid_count(), 1);
    assert_eq!(s.last_update_ms(), 77);
    assert_eq!(s.update_seq(), 1);
}

#[test]
fn unsound_quotes_are_not_given_out() {
    let mut s = TickerStore::new(names(&["BTC/USDT"]));
    s.update_by_id(0, d(10.0), d(11.0), 1);
    assert_eq!(s.valid_count(), 1);
    for (bid, ask) in [(0.0, 1.0), (2.0, 1.0), (f64::NAN, 1.0), (1.0, f64::INFINITY), (-1.0, 1.0)] {
        s.update_by_id(0, d(bid), d(ask), 2);
        assert!(s.get_by_id(0).is_none());
        assert_eq!(s.valid_count(), 0);
        assert!(!is_valid_ticker(d(bid), d(ask)));
    }
    assert_eq!(s.update_seq(), 6);
    s.update_by_id(0, d(1.0), d(1.0), 3);
    assert_eq!(s.valid_count(), 1);
    assert!(is_valid_ticker(d(1.0), d(1.0)));
}

#[test]
fn a_place_without_a_pair_is_passed_over() {
    let mut s = TickerStore::new(names(&["BTC/USDT"]));
    s.update_by_id(5, d(1.0), d(2.0), 9);
    assert_eq!(s.update_seq(), 0);
    assert_eq!(s.last_update_ms(), 0);
}

#[test]
fn of_pairs_named_twice_the_last_place_counts() {
    let s = TickerStore::new(names(&["A/B", "C/D", "A/B"]));
    assert_eq!(s.pair_id("A/B"), Some(2));
}

#[test]
fn books_are_stored_and_read_back() {
    let mut b = OrderBookStore::new(names(&["BTC/USDT", "ETH/USDT"]));
    assert!(b.get_by_pair("BTC/USDT").is_none());
    let book = OrderBook { bids: vec![(d(1.0), d(2.0))], asks: vec![(d(3.0), d(4.0))] };
    b.update_by_id(0, book, 5);
    let got = b.get_by_pair("BTC/USDT").unwrap();
    assert_eq!(got.bids[0].1.to_bits(), 2.0f64.to_bits());
    assert_eq!(got.asks[0].0.to_bits(), 3.0f64.to_bits());
    assert!(b.get_by_pair("ETH/USDT").is_none());
    assert_eq!(b.pair_id("ETH/USDT"), Some(1));
    assert_eq!(b.pair_id("X"), None);
}

#[test]
fn messages_are_counted() {
    let mut p = PerfCounters::default();
    assert_eq!(p.ws_avg_parse_ns(), 0);
    p.record_ws_message(100, 10, 4);
    p.record_ws_message(50, 21, 2);
    assert_eq!((p.ws_msg_count, p.ws_msg_bytes), (2, 150));
    assert_eq!((p.ws_parse_ns_max, p.ws_apply_ns_max), (21, 4));
    assert_eq!((p.ws_avg_parse_ns(), p.ws_avg_apply_ns()), (15, 3));
    p.reset_ws();
    assert_eq!((p.ws_msg_count, p.ws_msg_bytes, p.ws_parse_ns_max), (0, 0, 0));
    let mut m: u64 = 5;
    update_max(&mut m, 3);
    assert_eq!(m, 5);
    update_max(&mut m, 8);
    assert_eq!(m, 8);
}
