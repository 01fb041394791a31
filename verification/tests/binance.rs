use oxidarb::arbitrage::graph::build_graph;
use oxidarb::binance::rest::{
    account_path, depth_path, exchange_info_path, order_query, signed_query, tickers_24h_path,
};
use oxidarb::binance::sign::sign_query;
use oxidarb::binance::trade_ws::{
    order_message, read_parts, read_reply, to_query_string, OrderIds, OrderOutcome, ReplyParts,
};
use oxidarb::binance::ws::{
    any_selected, apply_book_ticker, apply_depth, arm, batch_symbols, book_ticker_from,
    book_ticker_streams,
    chunks, depth_from, depth_levels, filter_symbols_by_quote_volume, index_depth_streams,
    index_symbols, load_spot_markets, parse_depth_side, partial_depth_streams, read_book_ticker,
    read_depth, stream_url, volume_batches, Backoff, MessageError, SymbolFilter, SymbolIndex,
    SymbolInfo,
};
use oxidarb::codec::{BookTexts, SideTexts, ThreeTexts};
use oxidarb::decimal::Amount;
use oxidarb::domain::Markets;
use oxidarb::double::Double;
use oxidarb::store::{OrderBookStore, TickerStore};

fn d(x: f64) -> Double {
    Double::from_bits(x.to_bits())
}

fn names(list: &[&str]) -> Vec<String> {
    list.iter().map(|s| s.to_string()).collect()
}

fn symbol(base: &str, quote: &str, status: &str, spot: bool) -> SymbolInfo {
    SymbolInfo {
        symbol: format!("{}{}", base, quote),
        status: status.into(),
        base_asset: base.into(),
        quote_asset: quote.into(),
        is_spot_trading_allowed: spot,
        filters: vec![
            SymbolFilter::LotSize { min_qty: "0.001".into() },
            SymbolFilter::Other,
            SymbolFilter::MinNotional { min_notional: "10.0".into() },
        ],
    }
}

fn loaded() -> Markets {
    load_spot_markets(&vec![
        symbol("BTC", "USDT", "TRADING", true),
        symbol("ETH", "USDT", "TRADING", true),
        symbol("XRP", "USDT", "BREAK", true),
        symbol("BNB", "USDT", "TRADING", false),
        symbol("ETH", "BTC", "TRADING", true),
    ])
}

#[test]
fn a_query_is_signed() {
    assert_eq!(
        sign_query(
            "NhqPtmdSJYdKjVHjA7PZj4Mge3R5YNiP1e3UZjInClVN65XAbvqqM6A7H5fATj0j",
            "symbol=LTCBTC&side=BUY&type=LIMIT&timeInForce=GTC&quantity=1&price=0.1&recvWindow=5000&timestamp=1499827319559",
        ),
        "c8db56825ae71d6d79447849e617115f4a920fa2acdcab2b053c4b2838bd6b71"
    );
    let long: String = "k".repeat(200);
    assert_eq!(sign_query(&long, "").len(), 64);
}

#[test]
fn requests_are_written() {
    assert_eq!(exchange_info_path(), "/api/v3/exchangeInfo");
    assert_eq!(depth_path("BTCUSDT", 10), "/api/v3/depth?symbol=BTCUSDT&limit=10");
    assert_eq!(
        tickers_24h_path(&names(&["BTCUSDT", "ETHBTC"])),
        "/api/v3/ticker/24hr?symbols=%5B%22BTCUSDT%22%2C%22ETHBTC%22%5D"
    );
    let q = signed_query("s", "a=1", 12);
    assert_eq!(q, format!("a=1&timestamp=12&signature={}", sign_query("s", "a=1&timestamp=12")));
    assert_eq!(
        account_path("s", 12),
        format!("/api/v3/account?{}", signed_query("s", "recvWindow=5000", 12))
    );
    let amount = Amount::parse("1.50").unwrap();
    assert_eq!(
        order_query("s", "BTCUSDT", "BUY", None, Some(amount), 7),
        signed_query(
            "s",
            "symbol=BTCUSDT&side=BUY&type=MARKET&recvWindow=5000&quoteOrderQty=1.50",
            7
        )
    );
    assert_eq!(
        order_query("s", "BTCUSDT", "SELL", Some(amount), None, 7),
        signed_query("s", "symbol=BTCUSDT&side=SELL&type=MARKET&recvWindow=5000&quantity=1.50", 7)
    );
}

#[test]
fn parameters_are_encoded() {
    let p = |k: &str, v: &str| (k.to_string(), v.to_string());
    assert_eq!(to_query_string(&vec![p("a", "1"), p("b", "x y/é~-._")]), "a=1&b=x%20y%2F%C3%A9~-._");
    assert_eq!(to_query_string(&Vec::new()), "");
}

#[test]
fn an_order_is_a_message_with_its_signature() {
    let amount = Amount::parse("2").unwrap();
    let m = order_message(7, "key", "secret", "BTCUSDT", "SELL", Some(amount), None, 99);
    let query = "apiKey=key&newOrderRespType=FULL&quantity=2&recvWindow=5000&side=SELL&symbol=BTCUSDT&timestamp=99&type=MARKET";
    let signature = sign_query("secret", query);
    assert_eq!(
        m,
        format!(
            "{{\"id\":7,\"method\":\"order.place\",\"params\":{{\"apiKey\":\"key\",\"newOrderRespType\":\"FULL\",\"quantity\":\"2\",\"recvWindow\":\"5000\",\"side\":\"SELL\",\"signature\":\"{}\",\"symbol\":\"BTCUSDT\",\"timestamp\":\"99\",\"type\":\"MARKET\"}}}}",
            signature
        )
    );
    let mut ids = OrderIds::new();
    assert_eq!((ids.take(), ids.take()), (1, 2));
}

#[test]
fn texts_are_escaped_in_messages() {
    let m = order_message(1, "k\"\\\n\u{1}é", "s", "A", "BUY", None, None, 1);
    assert!(m.starts_with("{\"id\":1,\"method\":\"order.place\",\"params\":{\"apiKey\":\"k\\\"\\\\\\n\\u0001é\","));
    assert_eq!(
        tickers_24h_path(&names(&["A\"", "\t"])),
        "/api/v3/ticker/24hr?symbols=%5B%22A%5C%22%22%2C%22%5Ct%22%5D"
    );
    assert_eq!(tickers_24h_path(&Vec::new()), "/api/v3/ticker/24hr?symbols=%5B%5D");
}

#[test]
fn replies_are_read() {
    let (id, o) = read_reply("{\"id\":3,\"status\":200,\"result\":{\"executedQty\":\"1\"}}").unwrap();
    assert_eq!(id, 3);
    match o {
        OrderOutcome::Accepted(t) => assert_eq!(t, "{\"executedQty\":\"1\"}"),
        _ => panic!(),
    }
    let (id, o) = read_reply("{\"id\":\"12\",\"status\":200}").unwrap();
    assert_eq!(id, 12);
    assert!(matches!(o, OrderOutcome::NoResult));
    let text = "{\"id\":4,\"status\":400,\"error\":{\"code\":-1013,\"msg\":\"too small\"}}";
    match read_reply(text).unwrap().1 {
        OrderOutcome::Refused(t) => assert_eq!(t, "下单失败 status=400 code=-1013 msg=too small"),
        _ => panic!(),
    }
    match read_reply("{\"id\":4}").unwrap().1 {
        OrderOutcome::Refused(t) => assert_eq!(t, "下单失败 status=0 msg=未知错误"),
        _ => panic!(),
    }
    assert!(read_reply("not json").is_none());
    assert!(read_reply("{\"id\":\"x\"}").is_none());
    assert!(read_reply("{\"id\":null}").is_none());
    let parts = ReplyParts {
        id_number: None,
        id_text: Some("5".into()),
        status: Some(65736),
        result: Some("1".into()),
        code: None,
        msg: None,
    };
    let (id, o) = read_parts(parts).unwrap();
    assert_eq!(id, 5);
    assert!(matches!(o, OrderOutcome::Accepted(_)));
}

#[test]
fn open_symbols_become_markets() {
    let m = loaded();
    assert_eq!(m.len(), 3);
    let b = m.get("BTC/USDT").unwrap();
    assert_eq!((b.base.as_str(), b.quote.as_str(), b.binance_symbol.as_str()), ("BTC", "USDT", "BTCUSDT"));
    assert_eq!((b.min_qty.text(), b.min_notional.text()), ("0.001".to_string(), "10.0".to_string()));
    assert!(b.active && b.spot);
    assert!(m.get("XRP/USDT").is_none() && m.get("BNB/USDT").is_none());
    let pairs = names(&["BTC/USDT", "ETH/USDT", "ETH/BTC"]);
    assert_eq!(build_graph(&m, &pairs, d(0.0)).unwrap().nodes.len(), 3);
}

#[test]
fn lists_are_cut_into_parts() {
    let c = chunks(&names(&["a", "b", "c", "d", "e"]), 2);
    assert_eq!(c, vec![names(&["a", "b"]), names(&["c", "d"]), names(&["e"])]);
    assert!(chunks(&Vec::new(), 3).is_empty());
    assert_eq!(chunks(&names(&["a", "b"]), 2).len(), 1);
    assert_eq!(volume_batches(&loaded(), 2).len(), 2);
}

#[test]
fn pairs_are_selected_by_volume() {
    let m = loaded();
    let batch = names(&["BTC/USDT", "ETH/USDT", "ETH/BTC", "DOGE/USDT"]);
    assert_eq!(batch_symbols(&batch, &m), names(&["BTCUSDT", "ETHUSDT", "ETHBTC"]));
    let figure = |s: &str, v: &str| (s.to_string(), v.to_string());
    let figures = vec![
        figure("ETHUSDT", "100000"),
        figure("BTCUSDT", "99999.99"),
        figure("ETHBTC", "nothing"),
        figure("DOGEUSDT", "500000"),
        figure("BTCUSDT", "100000.01"),
    ];
    let min = Amount::parse("100000").unwrap();
    assert_eq!(
        filter_symbols_by_quote_volume(&figures, &batch, &m, &min),
        names(&["ETH/USDT", "BTC/USDT"])
    );
}

#[test]
fn streams_are_named() {
    let m = loaded();
    let pairs = names(&["BTC/USDT", "DOGE/USDT", "ETH/BTC"]);
    assert_eq!(
        book_ticker_streams(&pairs, &m, 2),
        vec![names(&["btcusdt@bookTicker"]), names(&["ethbtc@bookTicker"])]
    );
    assert_eq!(
        stream_url(&names(&["a@x", "b@x"])),
        "wss://stream.binance.com:9443/stream?streams=a@x/b@x"
    );
    let books = OrderBookStore::new(names(&["ETH/BTC", "BTC/USDT"]));
    assert_eq!(
        partial_depth_streams(&pairs, &m, &books, 3, 7),
        vec![names(&["btcusdt@depth10@100ms", "ethbtc@depth10@100ms"])]
    );
    let index = index_depth_streams(&pairs, &m, &books, 7);
    assert_eq!(index.get("btcusdt@depth10@100ms"), Some(1));
    assert_eq!(index.get("ethbtc@depth10@100ms"), Some(0));
    assert_eq!(index.get("dogeusdt@depth10@100ms"), None);
    assert_eq!((depth_levels(0), depth_levels(5), depth_levels(6)), (5, 5, 10));
    assert_eq!((depth_levels(10), depth_levels(11), depth_levels(500)), (10, 20, 20));
    let symbols = index_symbols(&pairs, &m);
    assert_eq!(symbols.get("ETHBTC"), Some(2));
    assert_eq!(symbols.get("DOGEUSDT"), None);
}

#[test]
fn waits_double_up_to_a_limit() {
    let mut b = Backoff::new(1000, 30_000);
    let waits: Vec<u64> = (0..7).map(|_| b.wait()).collect();
    assert_eq!(waits, vec![1000, 2000, 4000, 8000, 16_000, 30_000, 30_000]);
    b.connected();
    assert_eq!(b.wait(), 1000);
}

#[test]
fn best_prices_are_read() {
    let read = |s: &str| read_book_ticker(s.as_bytes().to_vec());
    let t = read("{\"stream\":\"x\",\"data\":{\"s\":\"BTCUSDT\",\"b\":\"1.5\",\"a\":\"1.6\"}}").unwrap();
    assert_eq!((t.symbol.as_str(), t.bid.as_str(), t.ask.as_str()), ("BTCUSDT", "1.5", "1.6"));
    let t = read("{\"data\":{\"s\":\"BTCUSDT\",\"b\":2}}").unwrap();
    assert_eq!((t.bid.as_str(), t.ask.as_str()), ("0", "0"));
    assert!(matches!(read("{\"data\":"), Err(MessageError::NotJson)));
    assert!(matches!(read("{\"data\":3}"), Err(MessageError::NoData)));
    assert!(matches!(read("{\"data\":{\"b\":\"1\"}}"), Err(MessageError::NoSymbol)));
    assert!(matches!(book_ticker_from(None), Err(MessageError::NotJson)));
    assert!(matches!(book_ticker_from(Some(None)), Err(MessageError::NoData)));
    let t = book_ticker_from(Some(Some(ThreeTexts {
        first: Some("A".into()),
        second: None,
        third: Some("3".into()),
    })))
    .unwrap();
    assert_eq!((t.bid.as_str(), t.ask.as_str()), ("0", "3"));
}

#[test]
fn best_prices_change_the_quote_and_the_weights() {
    let m = loaded();
    let pairs = names(&["BTC/USDT", "ETH/USDT"]);
    let mut store = TickerStore::new(pairs.clone());
    let mut g = build_graph(&m, &pairs, d(0.0)).unwrap();
    let index = index_symbols(&pairs, &m);
    let ln = |x: Double| d(f64::from_bits(x.to_bits()).ln());
    let r = apply_book_ticker("ETHUSDT", Some(d(2.0)), Some(d(4.0)), &index, &mut store, &mut g, 8, &ln);
    assert_eq!(r, Some(1));
    assert_eq!(store.get_by_id(1).unwrap().ask.to_bits(), 4.0f64.to_bits());
    assert_eq!(g.edge_weight(2).to_bits(), (-(0.25f64.ln())).to_bits());
    assert_eq!(g.edge_weight(3).to_bits(), (-(2.0f64.ln())).to_bits());
    let r = apply_book_ticker("XRPUSDT", Some(d(2.0)), Some(d(4.0)), &index, &mut store, &mut g, 9, &ln);
    assert_eq!((r, store.update_seq()), (None, 1));
    let r = apply_book_ticker("ETHUSDT", None, Some(d(4.0)), &index, &mut store, &mut g, 9, &ln);
    assert_eq!((r, store.valid_count()), (Some(1), 0));
    assert!(g.edge_weight(2).is_nan());
    let mut armed = false;
    assert!(arm(&mut armed) && armed);
    assert!(!arm(&mut armed) && armed);
}

#[test]
fn order_books_are_read() {
    let mut index = SymbolIndex::new();
    index.insert("btcusdt@depth5@100ms".into(), 3);
    let read = |s: &str| read_depth(s.as_bytes().to_vec(), &index);
    let u = read("{\"stream\":\"btcusdt@depth5@100ms\",\"data\":{\"bids\":[[\"1\",\"2\"],[\"3\"],[4,\"5\"]],\"asks\":[[\"6\",\"7\",\"8\"]]}}")
        .unwrap()
        .unwrap();
    let p = |a: &str, b: &str| (a.to_string(), b.to_string());
    assert_eq!(u.pair_id, 3);
    assert_eq!(u.bids, vec![p("1", "2"), p("0", "5")]);
    assert_eq!(u.asks, vec![p("6", "7")]);
    let u = read("{\"stream\":\"btcusdt@depth5@100ms\",\"data\":{\"bids\":[[\"1\",\"2\"],7],\"asks\":3}}")
        .unwrap()
        .unwrap();
    assert!(u.bids.is_empty() && u.asks.is_empty());
    assert!(read("{\"stream\":\"other\"}").unwrap().is_none());
    assert!(matches!(read("]"), Err(MessageError::NotJson)));
    assert!(matches!(read("{\"stream\":5}"), Err(MessageError::NoStream)));
    assert!(matches!(read("{\"stream\":\"btcusdt@depth5@100ms\"}"), Err(MessageError::NoData)));
    assert!(matches!(
        read("{\"stream\":\"btcusdt@depth5@100ms\",\"data\":{\"asks\":[]}}"),
        Err(MessageError::NoBids)
    ));
    assert!(matches!(
        read("{\"stream\":\"btcusdt@depth5@100ms\",\"data\":{\"bids\":[]}}"),
        Err(MessageError::NoAsks)
    ));
    let none = BookTexts { stream: Some("x".into()), sides: None };
    assert!(depth_from(Some(none), &index).unwrap().is_none());
    assert!(parse_depth_side(&SideTexts { levels: None }).is_empty());
}

#[test]
fn order_books_are_stored_where_both_sides_have_levels() {
    let mut b = OrderBookStore::new(names(&["BTC/USDT"]));
    let side = vec![(Some(d(1.0)), Some(d(2.0))), (None, Some(d(1.0)))];
    let bad = vec![(Some(d(0.0)), Some(d(2.0)))];
    assert!(!apply_depth(0, &side, &bad, &mut b, 5));
    assert!(b.get_by_pair("BTC/USDT").is_none());
    assert!(apply_depth(0, &side, &side, &mut b, 5));
    assert_eq!(b.get_by_pair("BTC/USDT").unwrap().bids.len(), 1);
}

#[test]
fn an_empty_selection_is_refused() {
    assert_eq!(any_selected(Vec::new()), None);
    assert_eq!(any_selected(vec!["A/B".to_string()]), Some(vec!["A/B".to_string()]));
}
