use oxidarb::arbitrage::graph::{
    build_graph, build_static_graph, compute_buy_weight, compute_sell_weight,
    fee_multiplier_from_fee, EdgeKind, Graph, GraphError,
};
use oxidarb::arbitrage::risk::{
    assess, assess_risk, estimate_value_usd, order_books_needed, parse_level, parse_levels,
    RiskLimits, RiskNote,
};
use oxidarb::arbitrage::simulate::{
    simulate, simulate_full, simulate_settled, simulate_swap, SimError, SwapMethod,
};
use oxidarb::arbitrage::spfa::{find_negative_cycles_spfa, reconstruct_cycle};
use oxidarb::config::Config;
use oxidarb::decimal::Amount;
use oxidarb::domain::{CycleInfo, Market, Markets, OrderBook, Trade};
use oxidarb::double::Double;
use oxidarb::store::{OrderBookStore, TickerStore};

fn d(x: f64) -> Double {
    Double::from_bits(x.to_bits())
}

fn f(x: Double) -> f64 {
    f64::from_bits(x.to_bits())
}

fn ln(x: Double) -> Double {
    d(f(x).ln())
}

fn market(base: &str, quote: &str) -> Market {
    Market {
        symbol: format!("{}/{}", base, quote),
        binance_symbol: format!("{}{}", base, quote),
        base: base.to_string(),
        quote: quote.to_string(),
        min_qty: Amount::zero(),
        min_notional: Amount::zero(),
        active: true,
        spot: true,
    }
}

fn world(list: &[(&str, &str, f64, f64)]) -> (Markets, Vec<String>, TickerStore) {
    let mut markets = Markets::new();
    let mut pairs: Vec<String> = Vec::new();
    for (base, quote, _, _) in list {
        let m = market(base, quote);
        pairs.push(m.symbol.clone());
        markets.insert(m.symbol.clone(), m);
    }
    let mut store = TickerStore::new(pairs.clone());
    for (i, (_, _, bid, ask)) in list.iter().enumerate() {
        store.update_by_id(i, d(*bid), d(*ask), 1);
    }
    (markets, pairs, store)
}

fn triangle() -> (Markets, Vec<String>, TickerStore) {
    world(&[
        ("BTC", "USDT", 100.0, 100.0),
        ("ETH", "BTC", 0.05, 0.05),
        ("ETH", "USDT", 6.0, 6.0),
    ])
}

fn weighted(markets: &Markets, pairs: &Vec<String>, store: &TickerStore, fee: f64) -> Graph {
    let mut g = build_graph(markets, pairs, d(fee)).unwrap();
    g.maybe_rebuild_all_weights(store, &ln);
    g
}

fn trade(from: &str, to: &str, pair: &str, kind: &str) -> Trade {
    Trade { from: from.into(), to: to.into(), pair: pair.into(), kind: kind.into() }
}

fn triangle_cycle() -> CycleInfo {
    CycleInfo {
        nodes: vec!["USDT".into(), "BTC".into(), "ETH".into(), "USDT".into()],
        trades: vec![
            trade("USDT", "BTC", "BTC/USDT", "BUY"),
            trade("BTC", "ETH", "ETH/BTC", "BUY"),
            trade("ETH", "USDT", "ETH/USDT", "SELL"),
        ],
        depth: 3,
    }
}

#[test]
fn a_graph_has_two_edges_for_each_pair() {
    let (markets, pairs, store) = triangle();
    let g = weighted(&markets, &pairs, &store, 0.001);
    assert_eq!(g.nodes, vec!["BTC".to_string(), "ETH".to_string(), "USDT".to_string()]);
    assert_eq!(g.edges.len(), 6);
    assert_eq!(g.pair_edges, vec![(0, 1), (2, 3), (4, 5)]);
    let buy = &g.edges[0];
    assert_eq!((buy.from, buy.to, buy.pair_id), (2, 0, 0));
    assert!(buy.kind == EdgeKind::Buy && g.edges[1].kind == EdgeKind::Sell);
    assert_eq!(f(g.edge_weight(0)), -(((1.0f64 / 100.0) * (1.0 - 0.001)).ln()));
    assert_eq!(f(g.edge_weight(1)), -((100.0f64 * (1.0 - 0.001)).ln()));
    assert!(!g.rebuild_all);
}

#[test]
fn a_graph_needs_the_markets_of_its_pairs() {
    let (markets, _, _) = triangle();
    let pairs = vec!["BTC/USDT".to_string(), "XRP/USDT".to_string()];
    assert!(matches!(build_graph(&markets, &pairs, d(0.0)), Err(GraphError::MissingMarket(1))));
    let empty = build_graph(&markets, &Vec::new(), d(0.0)).unwrap();
    assert!(empty.nodes.is_empty() && empty.edges.is_empty() && !empty.rebuild_all);
}

#[test]
fn the_fee_of_a_graph_is_that_of_the_settings() {
    let (markets, pairs, _) = triangle();
    let g = build_static_graph(&markets, &pairs, &Amount::parse("0.00075").unwrap()).unwrap();
    assert_eq!(f(g.fee_multiplier), 1.0 - 0.00075);
    assert!(g.rebuild_all);
    let mut g = g;
    g.set_fee_rate(&Amount::parse("2").unwrap());
    assert_eq!(f(g.fee_multiplier), -1.0);
    assert_eq!(f(fee_multiplier_from_fee(d(0.25))), 0.75);
}

#[test]
fn weights_without_a_price_are_no_numbers() {
    assert!(compute_buy_weight(d(0.0), d(1.0), &ln).is_nan());
    assert!(compute_buy_weight(d(f64::INFINITY), d(1.0), &ln).is_nan());
    assert!(compute_sell_weight(d(-1.0), d(1.0), &ln).is_nan());
    assert!(compute_sell_weight(d(1e-16), d(1.0), &ln).is_nan());
    assert_eq!(f(compute_sell_weight(d(2.0), d(0.5), &ln)), 0.0);
    assert_eq!(f(compute_buy_weight(d(4.0), d(0.5), &ln)), -((0.25f64 * 0.5).ln()));
}

#[test]
fn an_update_touches_the_weights_of_its_pair_only() {
    let (markets, pairs, store) = triangle();
    let mut g = weighted(&markets, &pairs, &store, 0.0);
    let before: Vec<u64> = g.edges.iter().map(|e| e.weight.to_bits()).collect();
    g.update_pair_weights(1, d(0.04), d(0.06), &ln);
    assert_eq!(f(g.edge_weight(2)), -((1.0f64 / 0.06).ln()));
    assert_eq!(f(g.edge_weight(3)), -(0.04f64.ln()));
    for i in [0usize, 1, 4, 5] {
        assert_eq!(g.edge_weight(i).to_bits(), before[i]);
    }
    g.update_pair_weights(1, d(0.06), d(0.04), &ln);
    assert!(g.edge_weight(2).is_nan() && g.edge_weight(3).is_nan());
    g.update_pair_weights(9, d(1.0), d(1.0), &ln);
    assert_eq!(g.edge_weight(0).to_bits(), before[0]);
}

#[test]
fn a_cycle_that_gains_is_found() {
    let (markets, pairs, store) = triangle();
    let g = weighted(&markets, &pairs, &store, 0.001);
    let cycles = find_negative_cycles_spfa(&g, &pairs, 6).unwrap();
    assert_eq!(cycles.len(), 1);
    let c = &cycles[0];
    assert_eq!(c.depth, 3);
    assert_eq!(c.trades.len(), 3);
    assert_eq!(c.nodes.len(), 4);
    assert_eq!(c.nodes[0], c.nodes[3]);
    let mut gain = 1.0;
    for (i, t) in c.trades.iter().enumerate() {
        assert_eq!(t.from, c.nodes[i]);
        assert_eq!(t.to, c.nodes[i + 1]);
        let q = store.get_by_pair(&t.pair).unwrap();
        gain *= if t.kind == "BUY" { 0.999 / f(q.ask) } else { 0.999 * f(q.bid) };
    }
    assert!(gain > 1.0);
}

#[test]
fn the_weights_of_a_found_cycle_lose() {
    let (markets, pairs, store) = triangle();
    let g = weighted(&markets, &pairs, &store, 0.001);
    let cycles = find_negative_cycles_spfa(&g, &pairs, 6).unwrap();
    let mut sum = d(0.0);
    for t in &cycles[0].trades {
        let e = g
            .edges
            .iter()
            .find(|e| g.nodes[e.from] == t.from && g.nodes[e.to] == t.to)
            .unwrap();
        sum = sum.plus(e.weight);
    }
    assert!(sum.lt(d(0.0)));
}

#[test]
fn the_trades_of_a_found_cycle_are_on_their_markets() {
    let (markets, pairs, store) = world(&[
        ("BTC", "USDT", 100.0, 100.0),
        ("ETH", "BTC", 0.05, 0.05),
        ("ETH", "USDT", 6.0, 6.0),
        ("XRP", "USDT", 1.0, 1.0),
        ("XRP", "ETH", 0.2, 0.2),
    ]);
    let g = weighted(&markets, &pairs, &store, 0.00075);
    let cycles = find_negative_cycles_spfa(&g, &pairs, 6).unwrap();
    assert!(!cycles.is_empty());
    for c in &cycles {
        for t in &c.trades {
            let m = markets.get(&t.pair).unwrap();
            assert!(pairs.contains(&t.pair));
            if t.kind == "BUY" {
                assert_eq!((&t.from, &t.to), (&m.quote, &m.base));
            } else {
                assert_eq!((t.kind.as_str(), &t.from, &t.to), ("SELL", &m.base, &m.quote));
            }
        }
    }
    for (i, a) in g.edges.iter().enumerate() {
        for b in &g.edges[i + 1..] {
            assert!(a.from != b.from || a.to != b.to);
        }
    }
}

#[test]
fn no_cycle_is_found_where_none_gains() {
    let (markets, pairs, store) = world(&[
        ("BTC", "USDT", 100.0, 100.0),
        ("ETH", "BTC", 0.05, 0.05),
        ("ETH", "USDT", 5.0, 5.0),
    ]);
    let g = weighted(&markets, &pairs, &store, 0.001);
    assert!(find_negative_cycles_spfa(&g, &pairs, 6).unwrap().is_empty());
}

#[test]
fn cycles_longer_than_asked_for_are_left_out() {
    let (markets, pairs, store) = triangle();
    let g = weighted(&markets, &pairs, &store, 0.001);
    assert!(find_negative_cycles_spfa(&g, &pairs, 2).unwrap().is_empty());
    assert!(find_negative_cycles_spfa(&g, &pairs, 0).unwrap().is_empty());
    assert_eq!(find_negative_cycles_spfa(&g, &pairs, 3).unwrap().len(), 1);
}

#[test]
fn a_pair_without_a_name_gives_no_cycle() {
    let (markets, pairs, store) = triangle();
    let g = weighted(&markets, &pairs, &store, 0.001);
    let fewer = vec![pairs[0].clone()];
    assert!(find_negative_cycles_spfa(&g, &fewer, 6).unwrap().is_empty());
    assert!(reconstruct_cycle(&g, &fewer, &vec![2, 0, 1, 2], 3).is_none());
    let c = reconstruct_cycle(&g, &pairs, &vec![2, 0, 1, 2], 3).unwrap();
    assert_eq!(c.nodes, triangle_cycle().nodes);
    assert_eq!(c.trades[1].pair, "ETH/BTC");
    assert_eq!(c.trades[2].kind, "SELL");
}

#[test]
fn a_swap_sells_buys_or_goes_by_usdt() {
    let (_, _, store) = world(&[
        ("BTC", "USDT", 100.0, 102.0),
        ("ETH", "USDT", 5.0, 6.0),
        ("ETH", "BTC", 0.05, 0.06),
    ]);
    let fee = 0.001;
    let s = simulate_swap("BTC", "USDT", d(2.0), &store, d(fee));
    assert!(s.method == Some(SwapMethod::Sell));
    assert_eq!(f(s.estimated_to_amount), (2.0 * 100.0) * (1.0 - fee));
    let s = simulate_swap("USDT", "BTC", d(51.0), &store, d(fee));
    assert!(s.method == Some(SwapMethod::Buy));
    assert_eq!(f(s.estimated_to_amount), (51.0 / 102.0) * (1.0 - fee));
    let (_, _, store) = world(&[("BTC", "USDT", 100.0, 102.0), ("ETH", "USDT", 5.0, 6.0)]);
    let s = simulate_swap("BTC", "ETH", d(2.0), &store, d(fee));
    assert!(s.method == Some(SwapMethod::Intermediate));
    assert_eq!(
        f(s.estimated_to_amount),
        (((2.0 * 100.0) * (1.0 - fee)) / 6.0) * (1.0 - fee)
    );
    let s = simulate_swap("BTC", "XRP", d(2.0), &store, d(fee));
    assert!(s.method.is_none());
    assert_eq!(f(s.estimated_to_amount), 0.0);
    let s = simulate_swap("BTC", "USDT", d(-2.0), &store, d(fee));
    assert!(s.method.is_none());
    assert_eq!(f(s.estimated_to_amount), 0.0);
}

#[test]
fn a_simulation_follows_the_trades() {
    let (markets, _, store) = triangle();
    let fee = 0.001;
    let r = simulate(
        &triangle_cycle(),
        "USDT",
        d(100.0),
        true,
        Some("USDT"),
        &store,
        &markets,
        d(fee),
        d(0.05),
    )
    .unwrap();
    let k = 1.0 - fee;
    let end = ((((100.0 / 100.0) * k) / 0.05) * k * 6.0) * k;
    assert_eq!(f(r.final_amount), end);
    assert_eq!(f(r.profit_amount), end - 100.0);
    assert_eq!(f(r.profit_percent), ((end - 100.0) / 100.0) * 100.0);
    assert!(r.verified);
    assert_eq!(r.final_currency, "USDT");
    assert_eq!(r.reason, "模拟利润率达标");
}

#[test]
fn a_profit_that_is_too_low_is_not_verified() {
    let (markets, _, store) = triangle();
    let r = simulate(
        &triangle_cycle(),
        "USDT",
        d(100.0),
        true,
        None,
        &store,
        &markets,
        d(0.001),
        d(50.0),
    )
    .unwrap();
    assert!(!r.verified);
    assert_eq!(r.reason, "模拟利润率未达标");
}

#[test]
fn a_simulation_swaps_into_the_cycle_and_back() {
    let (markets, _, store) = triangle();
    let mut c = triangle_cycle();
    c.nodes = vec!["BTC".into(), "ETH".into(), "USDT".into(), "BTC".into()];
    c.trades = vec![
        trade("BTC", "ETH", "ETH/BTC", "BUY"),
        trade("ETH", "USDT", "ETH/USDT", "SELL"),
        trade("USDT", "BTC", "BTC/USDT", "BUY"),
    ];
    let fee = 0.001;
    let k = 1.0 - fee;
    let r = simulate(
        &c,
        "USDT",
        d(100.0),
        true,
        Some("USDT"),
        &store,
        &markets,
        d(fee),
        d(0.05),
    )
    .unwrap();
    let entered = (100.0 / 100.0) * k;
    let around = (((entered / 0.05) * k * 6.0) * k / 100.0) * k;
    assert_eq!(f(r.final_amount), (around * 100.0) * k);
    assert_eq!(r.final_currency, "USDT");
    // A cycle whose first trade leads to the currency at hand is entered after it.
    let mut c = triangle_cycle();
    c.nodes = vec!["ETH".into(), "USDT".into(), "BTC".into(), "ETH".into()];
    c.trades = vec![
        trade("ETH", "USDT", "ETH/USDT", "SELL"),
        trade("USDT", "BTC", "BTC/USDT", "BUY"),
        trade("BTC", "ETH", "ETH/BTC", "BUY"),
    ];
    let r = simulate(&c, "USDT", d(100.0), true, None, &store, &markets, d(fee), d(0.05)).unwrap();
    assert_eq!(r.final_currency, "ETH");
    assert_eq!(f(r.profit_percent), -997.0);
    assert_eq!(r.reason, "最终货币与目标不符");
}

#[test]
fn a_simulation_says_why_it_gives_no_profit() {
    let (markets, _, store) = triangle();
    let mut empty = triangle_cycle();
    empty.nodes = Vec::new();
    let r = simulate(&empty, "USDT", d(1.0), true, None, &store, &markets, d(0.0), d(0.0)).unwrap();
    assert_eq!(r.reason, "cycle 缺少 nodes");
    assert_eq!(f(r.profit_percent), -999.0);
    let r = simulate(
        &triangle_cycle(),
        "XRP",
        d(1.0),
        true,
        None,
        &store,
        &markets,
        d(0.0),
        d(0.0),
    )
    .unwrap();
    assert_eq!(r.reason, "模拟初始闪兑 (XRP -> USDT) 失败或无路径");
    assert_eq!(r.final_currency, "XRP");
    let r = simulate(
        &triangle_cycle(),
        "BTC",
        d(1.0),
        true,
        Some("USDT"),
        &store,
        &markets,
        d(0.0),
        d(0.0),
    )
    .unwrap();
    assert_eq!(r.reason, "起始(BTC), 目标(USDT), 无法计算利润率");
    assert_eq!(f(r.profit_percent), -998.0);
    assert!(!r.verified);
    let r = simulate(
        &triangle_cycle(),
        "USDT",
        d(0.0),
        false,
        None,
        &store,
        &markets,
        d(0.0),
        d(0.0),
    )
    .unwrap();
    // Nothing at all comes no further than the first trade.
    assert_eq!(f(r.profit_percent), -997.0);
    assert_eq!(f(r.final_amount), 0.0);
    assert_eq!(r.final_currency, "BTC");
    assert_eq!(r.reason, "最终货币与目标不符");
}

#[test]
fn a_simulation_fails_without_its_data() {
    let (markets, _, store) = triangle();
    let run = |c: &CycleInfo, fee: f64| {
        simulate(c, "USDT", d(100.0), true, None, &store, &markets, d(fee), d(0.0)).unwrap_err()
    };
    let mut c = triangle_cycle();
    c.trades[1].pair = "XRP/BTC".into();
    assert!(run(&c, 0.0) == SimError::MissingMarket(1));
    let mut c = triangle_cycle();
    c.trades[2].kind = "SWAP".into();
    assert!(run(&c, 0.0) == SimError::UnknownKind(2));
    assert!(run(&triangle_cycle(), 2.0) == SimError::NegativeAmount(0));
    let (markets, pairs, _) = triangle();
    let bare = TickerStore::new(pairs);
    let e = simulate(
        &triangle_cycle(),
        "USDT",
        d(1.0),
        true,
        None,
        &bare,
        &markets,
        d(0.0),
        d(0.0),
    )
    .unwrap_err();
    assert!(e == SimError::MissingTicker(0));
}

#[test]
fn the_settings_give_the_numbers_of_a_simulation() {
    let (markets, _, store) = triangle();
    let cfg = Config::default();
    let amount = Amount::parse("100.0").unwrap();
    let r = simulate_full(&triangle_cycle(), "USDT", &amount, true, &store, &markets, &cfg).unwrap();
    let k = 1.0 - 0.00075;
    let end = ((((100.0 / 100.0) * k) / 0.05) * k * 6.0) * k;
    assert_eq!(f(r.final_amount), end);
    assert!(r.verified);
    let s = simulate_settled(
        &triangle_cycle(),
        "USDT",
        &amount,
        Some("BTC"),
        &store,
        &markets,
        &cfg,
    )
    .unwrap();
    assert_eq!(s.final_currency, "BTC");
    assert_eq!(f(s.profit_percent), -998.0);
}

fn limits() -> RiskLimits {
    RiskLimits {
        fee: d(0.001),
        min_profit: d(0.05),
        max_slippage: d(0.15),
        min_depth: d(100.0),
        max_spread: d(0.5),
    }
}

fn books(list: &[(&str, &[(f64, f64)], &[(f64, f64)])]) -> OrderBookStore {
    let mut b = OrderBookStore::new(list.iter().map(|x| x.0.to_string()).collect());
    let side = |levels: &[(f64, f64)]| -> Vec<(Double, Double)> {
        levels.iter().map(|l| (d(l.0), d(l.1))).collect()
    };
    for (i, (_, bids, asks)) in list.iter().enumerate() {
        b.update_by_id(i, OrderBook { bids: side(bids), asks: side(asks) }, 1);
    }
    b
}

fn deep_books() -> OrderBookStore {
    books(&[
        ("BTC/USDT", &[(100.0, 50.0)], &[(100.0, 50.0)]),
        ("ETH/BTC", &[(0.05, 5000.0)], &[(0.05, 5000.0)]),
        ("ETH/USDT", &[(6.0, 500.0)], &[(6.0, 500.0)]),
    ])
}

fn zeros(n: usize) -> Vec<(Double, Double)> {
    vec![(d(0.0), d(0.0)); n]
}

#[test]
fn a_deep_cycle_that_gains_is_viable() {
    let (markets, _, store) = triangle();
    let r = assess(
        &triangle_cycle(),
        d(100.0),
        &zeros(3),
        &deep_books(),
        &markets,
        &store,
        limits(),
    );
    assert!(r.is_viable);
    assert!(r.reasons.is_empty());
    assert_eq!(r.details.len(), 3);
    let k = 1.0 - 0.001;
    let one = (100.0f64 / 100.0).min(50.0) * k;
    let two = (one / 0.05).min(5000.0) * k;
    let three = (two.min(500.0) * 6.0) * k;
    assert_eq!(
        f(r.estimated_profit_percent_after_slippage),
        ((three - 100.0) / 100.0) * 100.0
    );
    assert_eq!(f(r.total_estimated_slippage_percent), 0.0);
    assert_eq!(f(r.details[0].depth_usd), 100.0 * 50.0);
    assert_eq!(f(r.details[0].spread_percent), 0.0);
    assert_eq!(f(r.details[0].slippage_percent), 0.0);
    assert!(r.details[2].depth_ok && r.details[2].limits_ok && r.details[2].message.is_empty());
}

#[test]
fn slippage_is_what_the_deeper_levels_cost() {
    let (markets, _, store) = world(&[("BTC", "USDT", 100.0, 100.0)]);
    let b = books(&[("BTC/USDT", &[(99.0, 10.0)], &[(100.0, 0.5), (110.0, 10.0)])]);
    let c = CycleInfo {
        nodes: vec!["USDT".into(), "BTC".into()],
        trades: vec![trade("USDT", "BTC", "BTC/USDT", "BUY")],
        depth: 1,
    };
    let r = assess(&c, d(100.0), &zeros(1), &b, &markets, &store, limits());
    let first = 0.5;
    let second = (50.0f64 / 110.0).min(10.0);
    let bought = first + second;
    let cost = first * 100.0 + second * 110.0;
    let slip = ((cost / bought - 100.0) / 100.0) * 100.0;
    assert_eq!(f(r.details[0].slippage_percent), slip);
    assert_eq!(f(r.details[0].spread_percent), ((100.0 - 99.0) / 100.0) * 100.0);
    assert!(matches!(r.reasons[0].note, RiskNote::SpreadTooHigh(_)));
    assert_eq!(r.reasons[0].step, 1);
    assert!(matches!(r.reasons[1].note, RiskNote::WrongEnd));
    assert_eq!(f(r.estimated_profit_percent_after_slippage), -997.0);
    assert_eq!(f(r.total_estimated_slippage_percent), -999.0);
    assert!(!r.is_viable);
}

#[test]
fn a_step_without_a_book_ends_the_assessment() {
    let (markets, _, store) = triangle();
    let b = books(&[("BTC/USDT", &[(100.0, 50.0)], &[(100.0, 50.0)])]);
    let r = assess(&triangle_cycle(), d(100.0), &zeros(3), &b, &markets, &store, limits());
    assert!(!r.is_viable);
    assert_eq!(f(r.estimated_profit_percent_after_slippage), -998.0);
    assert_eq!(r.details.len(), 3);
    assert!(matches!(r.reasons[0].note, RiskNote::NoBook));
    assert!(matches!(r.reasons[1].note, RiskNote::BadAmount(_)));
    assert_eq!(r.reasons[1].step, 3);
    assert!(!r.details[1].limits_ok && r.details[2].limits_ok);
    let b = books(&[("BTC/USDT", &[], &[(100.0, 50.0)])]);
    let r = assess(&triangle_cycle(), d(100.0), &zeros(3), &b, &markets, &store, limits());
    assert!(matches!(r.reasons[0].note, RiskNote::EmptyBook));
    let r = assess(
        &triangle_cycle(),
        d(100.0),
        &zeros(3),
        &deep_books(),
        &Markets::new(),
        &store,
        limits(),
    );
    assert!(matches!(r.reasons[0].note, RiskNote::NoMarket));
}

#[test]
fn minima_and_depth_are_reported() {
    let (markets, _, store) = triangle();
    let minima = vec![(d(2.0), d(200.0)), (d(0.0), d(0.0)), (d(30.0), d(500.0))];
    let shallow = RiskLimits { min_depth: d(1e9), ..limits() };
    let r = assess(
        &triangle_cycle(),
        d(100.0),
        &minima,
        &deep_books(),
        &markets,
        &store,
        shallow,
    );
    assert!(!r.is_viable);
    let m = &r.details[0].message;
    assert!(matches!(m[0], RiskNote::CostBelowMinimum(_, _)));
    assert!(matches!(m[1], RiskNote::BoughtBelowMinimum(_, _)));
    assert!(matches!(m[2], RiskNote::TooShallow(_)));
    assert!(!r.details[0].limits_ok && !r.details[0].depth_ok);
    let m = &r.details[2].message;
    assert!(matches!(m[0], RiskNote::SoldBelowMinimum(_, _)));
    assert!(matches!(m[1], RiskNote::ProceedsBelowMinimum(_, _)));
    // That a sale brings little is told of the step, and is no reason.
    assert!(r
        .reasons
        .iter()
        .all(|x| !matches!(x.note, RiskNote::ProceedsBelowMinimum(_, _))));
}

#[test]
fn errors_of_a_trade_are_told() {
    let (markets, _, store) = triangle();
    let mut c = triangle_cycle();
    c.trades[0].from = "EUR".into();
    let r = assess(&c, d(100.0), &zeros(3), &deep_books(), &markets, &store, limits());
    assert!(matches!(r.reasons[0].note, RiskNote::WrongCurrency));
    assert_eq!(r.details.len(), 1);
    let mut c = triangle_cycle();
    c.trades[0].kind = "SWAP".into();
    let r = assess(&c, d(100.0), &zeros(3), &deep_books(), &markets, &store, limits());
    assert!(matches!(r.reasons[0].note, RiskNote::UnknownKind));
    assert!(matches!(r.reasons.last().unwrap().note, RiskNote::Aborted));
    let r = assess(
        &triangle_cycle(),
        d(1e-14),
        &zeros(3),
        &deep_books(),
        &markets,
        &store,
        limits(),
    );
    assert!(matches!(r.reasons[0].note, RiskNote::CannotBuy));
    let mut c = triangle_cycle();
    c.nodes = vec!["ETH".into(), "USDT".into()];
    c.trades = vec![trade("ETH", "USDT", "ETH/USDT", "SELL")];
    let r = assess(&c, d(1e-14), &zeros(1), &deep_books(), &markets, &store, limits());
    assert!(matches!(r.reasons[0].note, RiskNote::CannotSell));
    c.nodes = Vec::new();
    let r = assess(&c, d(1.0), &zeros(1), &deep_books(), &markets, &store, limits());
    assert!(matches!(r.reasons[0].note, RiskNote::NoNodes));
    assert_eq!(f(r.total_estimated_slippage_percent), -999.0);
}

#[test]
fn profit_and_slippage_are_held_to_their_limits() {
    let (markets, _, store) = triangle();
    let strict = RiskLimits { min_profit: d(50.0), ..limits() };
    let r = assess(
        &triangle_cycle(),
        d(100.0),
        &zeros(3),
        &deep_books(),
        &markets,
        &store,
        strict,
    );
    assert!(!r.is_viable && matches!(r.reasons[0].note, RiskNote::ProfitTooLow(_)));
    let b = books(&[
        ("BTC/USDT", &[(100.0, 50.0)], &[(100.0, 0.5), (100.4, 50.0)]),
        ("ETH/BTC", &[(0.05, 5000.0)], &[(0.05, 5000.0)]),
        ("ETH/USDT", &[(6.0, 500.0)], &[(6.0, 500.0)]),
    ]);
    let r = assess(&triangle_cycle(), d(100.0), &zeros(3), &b, &markets, &store, limits());
    assert!(!r.is_viable && matches!(r.reasons[0].note, RiskNote::SlippageTooHigh(_)));
    assert!(f(r.total_estimated_slippage_percent) > 0.15);
    assert!(f(r.total_estimated_slippage_percent) < 0.25);
}

#[test]
fn an_assessment_goes_by_the_settings() {
    let (markets, _, store) = triangle();
    let mut cfg = Config::default();
    let amount = Amount::parse("100").unwrap();
    let r = assess_risk(&triangle_cycle(), &amount, &deep_books(), &markets, &store, &cfg);
    assert!(r.is_viable);
    cfg.risk_assessment_enabled = false;
    let r = assess_risk(&triangle_cycle(), &amount, &deep_books(), &markets, &store, &cfg);
    assert!(r.is_viable && matches!(r.reasons[0].note, RiskNote::Disabled));
    assert_eq!(f(r.estimated_profit_percent_after_slippage), -1.0);
    assert_eq!(f(r.total_estimated_slippage_percent), 0.0);
}

#[test]
fn values_are_estimated_in_dollars() {
    let (_, _, store) = world(&[("BTC", "USDT", 100.0, 101.0), ("USDT", "TRY", 30.0, 32.0)]);
    let v = |c: &str, x: f64| estimate_value_usd(c, d(x), &store).map(f);
    assert_eq!(v("USDT", 5.0), Some(5.0));
    assert_eq!(v("BTC", 2.0), Some(200.0));
    assert_eq!(v("TRY", 64.0), Some(64.0 * (1.0 / 32.0)));
    assert_eq!(v("USDC", 7.0), Some(7.0));
    assert_eq!(v("XRP", 7.0), None);
    assert_eq!(v("USDT", 0.0), None);
    assert_eq!(v("USDT", f64::INFINITY), None);
}

#[test]
fn levels_need_a_price_and_a_quantity() {
    assert!(parse_level(Some(d(1.0)), Some(d(2.0))).is_some());
    assert!(parse_level(None, Some(d(2.0))).is_none());
    assert!(parse_level(Some(d(0.0)), Some(d(2.0))).is_none());
    assert!(parse_level(Some(d(1.0)), Some(d(-2.0))).is_none());
    assert!(parse_level(Some(d(f64::NAN)), Some(d(2.0))).is_none());
    let all = parse_levels(&vec![
        (Some(d(1.0)), Some(d(2.0))),
        (None, None),
        (Some(d(3.0)), Some(d(4.0))),
    ]);
    assert_eq!(all.len(), 2);
    assert_eq!(f(all[1].0), 3.0);
}

#[test]
fn each_book_is_fetched_once() {
    let (markets, _, _) = triangle();
    let mut c = triangle_cycle();
    c.trades.push(trade("USDT", "BTC", "BTC/USDT", "BUY"));
    c.trades.push(trade("USDT", "XRP", "XRP/USDT", "BUY"));
    assert_eq!(
        order_books_needed(&c, &markets),
        vec!["BTC/USDT".to_string(), "ETH/BTC".to_string(), "ETH/USDT".to_string()]
    );
}

#[test]
fn a_cycle_needs_nodes_that_are_there() {
    let (markets, pairs, store) = triangle();
    let g = weighted(&markets, &pairs, &store, 0.0);
    assert!(reconstruct_cycle(&g, &pairs, &vec![2, 0, 3, 2], 3).is_none());
    assert!(reconstruct_cycle(&g, &pairs, &vec![usize::MAX, 0], 1).is_none());
    assert!(reconstruct_cycle(&g, &pairs, &vec![3], 0).is_none());
    let c = reconstruct_cycle(&g, &pairs, &vec![2], 0).unwrap();
    assert_eq!((c.nodes, c.trades.len(), c.depth), (vec!["USDT".to_string()], 0, 0));
}

#[test]
fn a_smaller_depth_only_leaves_cycles_out() {
    let (markets, pairs, store) = world(&[
        ("B", "A", 1.0, 1.0),
        ("C", "B", 1.0, 1.0),
        ("C", "A", 2.0, 2.0),
        ("X", "W", 1.0, 1.0),
        ("Y", "X", 1.0, 1.0),
        ("Z", "Y", 1.0, 1.0),
        ("Z", "W", 2.0, 2.0),
    ]);
    let g = weighted(&markets, &pairs, &store, 0.0);
    let all = find_negative_cycles_spfa(&g, &pairs, 6).unwrap();
    let mut depths: Vec<usize> = all.iter().map(|c| c.depth).collect();
    depths.sort();
    assert_eq!(depths, vec![3, 4]);
    for depth in 0..6usize {
        let some = find_negative_cycles_spfa(&g, &pairs, depth).unwrap();
        let kept: Vec<&CycleInfo> = all.iter().filter(|c| c.depth <= depth).collect();
        assert_eq!(some.len(), kept.len());
        for (a, b) in some.iter().zip(kept) {
            assert_eq!(a.nodes, b.nodes);
        }
    }
}

#[test]
fn reported_cycles_share_no_currency() {
    let (markets, pairs, store) = world(&[
        ("B", "A", 1.0, 1.0),
        ("C", "B", 1.0, 1.0),
        ("C", "A", 2.0, 2.0),
        ("X", "W", 1.0, 1.0),
        ("Y", "X", 1.0, 1.0),
        ("Y", "W", 3.0, 3.0),
        ("X", "A", 1.0, 1.0),
    ]);
    let g = weighted(&markets, &pairs, &store, 0.0);
    let cycles = find_negative_cycles_spfa(&g, &pairs, 6).unwrap();
    assert!(!cycles.is_empty());
    let mut seen: Vec<&String> = Vec::new();
    for c in &cycles {
        for node in &c.nodes[..c.depth] {
            assert!(!seen.contains(&node));
            seen.push(node);
        }
    }
}

#[test]
fn the_weights_of_a_found_cycle_add_up_below_zero() {
    let (markets, pairs, store) = triangle();
    let g = weighted(&markets, &pairs, &store, 0.001);
    let cycles = find_negative_cycles_spfa(&g, &pairs, 6).unwrap();
    assert_eq!(cycles.len(), 1);
    let place = |name: &String| g.nodes.iter().position(|n| n == name).unwrap();
    let mut total = 0.0;
    for t in &cycles[0].trades {
        let (u, v) = (place(&t.from), place(&t.to));
        let e = g.edges.iter().find(|e| e.from == u && e.to == v).unwrap();
        assert!(e.weight.is_finite());
        total += f(e.weight);
    }
    assert!(total < -0.1);
}

#[test]
fn a_simulation_fails_only_without_its_data() {
    let (markets, _, store) = triangle();
    for fee in ["0", "0.00075", "0.99999", "0.9999999999999999999", "1.0", "1"] {
        let mut cfg = Config::default();
        cfg.set_fee_rate(Amount::parse(fee).unwrap());
        let start = Amount::parse("100").unwrap();
        let r = simulate_full(&triangle_cycle(), "USDT", &start, true, &store, &markets, &cfg);
        assert!(r.is_ok());
        let mut c = triangle_cycle();
        c.trades[0].kind = "HOLD".to_string();
        let r = simulate_full(&c, "USDT", &start, true, &store, &markets, &cfg);
        assert!(matches!(r, Err(SimError::UnknownKind(0))));
        // After a fee of one nothing is left, and the next trade is not reached.
        let mut c = triangle_cycle();
        c.trades[1].pair = "ETH/XRP".to_string();
        let r = simulate_full(&c, "USDT", &start, true, &store, &markets, &cfg);
        let left = Amount::parse(fee).unwrap().to_double();
        assert_eq!(r.is_err(), f(left) < 1.0);
    }
}
