use oxidarb::balances::{free_balances, BalanceStore};
use oxidarb::clock::{epoch_ms, now_ms};
use oxidarb::config::Config;
use oxidarb::decimal::Amount;
use oxidarb::domain::{CycleInfo, Market, Markets, Trade};
use oxidarb::double::Double;
use oxidarb::engine::{
    next_attempt, next_loop_step, plan_swap, settle_opportunity, settle_order,
    sum_commission_in_asset, warmup_over, warmup_required, weigh_opportunity, DeskAction, DeskEvent,
    ExecError, LoopStep, Opportunity, OrderFill, OrderResponse, PathExecution, PerfStats, Side,
    TradeDesk,
};
use oxidarb::store::TickerStore;

fn d(x: f64) -> Double {
    Double::from_bits(x.to_bits())
}

fn a(s: &str) -> Amount {
    Amount::parse(s).unwrap()
}

fn market(base: &str, quote: &str) -> Market {
    Market {
        symbol: format!("{}/{}", base, quote),
        binance_symbol: format!("{}{}", base, quote),
        base: base.to_string(),
        quote: quote.to_string(),
        min_qty: Amount::zero(),
        min_notional: Amount::zero(),
        active: true,
        spot: true,
    }
}

fn markets() -> Markets {
    let mut m = Markets::new();
    for (b, q) in [("BTC", "USDT"), ("ETH", "BTC"), ("ETH", "USDT")] {
        m.insert(format!("{}/{}", b, q), market(b, q));
    }
    m
}

fn tickers() -> TickerStore {
    let mut t = TickerStore::new(vec!["BTC/USDT".into(), "ETH/BTC".into(), "ETH/USDT".into()]);
    t.update_by_id(0, d(99.0), d(100.0), 1);
    t.update_by_id(1, d(0.04), d(0.05), 1);
    t.update_by_id(2, d(6.0), d(6.25), 1);
    t
}

fn price_of(x: Double) -> Amount {
    a(&format!("{}", f64::from_bits(x.to_bits())))
}

fn trade(from: &str, to: &str, pair: &str, kind: &str) -> Trade {
    Trade { from: from.into(), to: to.into(), pair: pair.into(), kind: kind.into() }
}

fn cycle() -> CycleInfo {
    CycleInfo {
        nodes: vec!["USDT".into(), "BTC".into(), "ETH".into(), "USDT".into()],
        trades: vec![
            trade("USDT", "BTC", "BTC/USDT", "BUY"),
            trade("BTC", "ETH", "ETH/BTC", "BUY"),
            trade("ETH", "USDT", "ETH/USDT", "SELL"),
        ],
        depth: 3,
    }
}

#[test]
fn balances_are_replaced_and_read() {
    let mut b = BalanceStore::new();
    assert_eq!(b.get("USDT").text(), "0");
    b.set_all(vec![("USDT".into(), a("5.5")), ("BTC".into(), a("1")), ("USDT".into(), a("7"))]);
    assert_eq!(b.get("USDT").text(), "7");
    assert_eq!(b.get("BTC").text(), "1");
    let s = b.snapshot_sorted();
    assert_eq!(s.len(), 2);
    assert_eq!((s[0].0.as_str(), s[1].0.as_str()), ("BTC", "USDT"));
    assert_eq!(s[1].1.text(), "7");
    b.set_all(vec![("ETH".into(), a("2"))]);
    assert_eq!(b.get("USDT").text(), "0");
    assert_eq!(b.snapshot_sorted().len(), 1);
}

#[test]
fn only_free_balances_count() {
    let list = vec![
        ("BTC".to_string(), "0.5".to_string()),
        ("ETH".to_string(), "0.00".to_string()),
        ("XRP".to_string(), "much".to_string()),
        ("BNB".to_string(), "-1".to_string()),
        ("USDT".to_string(), "12.30".to_string()),
    ];
    let free = free_balances(&list);
    assert_eq!(free.len(), 2);
    assert_eq!((free[0].0.as_str(), free[0].1.text().as_str()), ("BTC", "0.5"));
    assert_eq!((free[1].0.as_str(), free[1].1.text().as_str()), ("USDT", "12.30"));
}

#[test]
fn counts_of_the_loop_are_taken_in() {
    let mut p = PerfStats::started(9);
    p.record_cycle(d(0.5), d(0.25), d(0.125));
    p.record_cycle(d(0.75), d(0.25), d(0.125));
    let s = p.snapshot();
    assert_eq!((p.start_epoch_ms, s.cycle_count_total), (9, 2));
    assert_eq!(s.last_cycle_duration_sec.to_bits(), 0.75f64.to_bits());
    assert_eq!(s.bf_call_duration_sec.to_bits(), 0.25f64.to_bits());
    assert_eq!(s.verification_duration_sec.to_bits(), 0.125f64.to_bits());
    assert_eq!(PerfStats::default().cycle_count_total, 0);
}

#[test]
fn a_share_of_the_pairs_must_have_a_quote() {
    let mut cfg = Config::default();
    assert_eq!(warmup_required(451, &cfg), 360);
    assert_eq!(warmup_required(0, &cfg), 0);
    cfg.ticker_warmup_min_valid = 400;
    assert_eq!(warmup_required(451, &cfg), 400);
    assert!(warmup_over(400, 400, 0, 20));
    assert!(!warmup_over(399, 400, 19, 20));
    assert!(warmup_over(399, 400, 20, 20));
    assert!(!warmup_over(399, 400, 1000, 0));
}

#[test]
fn the_loop_searches_new_quotes_only() {
    let up = vec![false, true];
    let down = vec![false, false];
    assert!(next_loop_step(false, &up, 5, 1) == LoopStep::Paused);
    assert!(next_loop_step(true, &down, 5, 1) == LoopStep::Disconnected);
    assert!(next_loop_step(true, &Vec::new(), 5, 1) == LoopStep::Disconnected);
    assert!(next_loop_step(true, &up, 0, 1) == LoopStep::Idle);
    assert!(next_loop_step(true, &up, 5, 5) == LoopStep::Idle);
    assert!(next_loop_step(true, &up, 5, 4) == LoopStep::Search(5));
}

#[test]
fn trades_are_made_only_where_they_are_allowed() {
    let mut cfg = Config::default();
    assert!(weigh_opportunity(true, &cfg) == Opportunity::Announce);
    cfg.auto_trade_enabled = true;
    assert!(weigh_opportunity(true, &cfg) == Opportunity::Trade);
    assert!(weigh_opportunity(false, &cfg) == Opportunity::Ignore);
    cfg.maker_only = true;
    assert!(weigh_opportunity(true, &cfg) == Opportunity::Announce);
}

#[test]
fn a_path_is_carried_out_trade_by_trade() {
    let (m, t, cfg) = (markets(), tickers(), Config::default());
    let mut p = PathExecution::begin(cycle(), "USDT", a("250"), &cfg).unwrap();
    assert_eq!((p.amount().text().as_str(), p.currency()), ("100.0", "USDT"));
    let o = p.next_order(&m, &t, &cfg, &price_of).unwrap().unwrap();
    assert_eq!((o.pair.as_str(), o.side.text()), ("BTC/USDT", "BUY"));
    assert!(o.quantity.is_none());
    assert_eq!(o.quote_quantity.unwrap().text(), "100.0");
    p.filled(a("0.999"), "BTC".into());
    let o = p.next_order(&m, &t, &cfg, &price_of).unwrap().unwrap();
    assert_eq!((o.pair.as_str(), o.side.text()), ("ETH/BTC", "BUY"));
    p.filled(a("19"), "ETH".into());
    let o = p.next_order(&m, &t, &cfg, &price_of).unwrap().unwrap();
    assert_eq!((o.pair.as_str(), o.side.text()), ("ETH/USDT", "SELL"));
    assert_eq!(o.quantity.unwrap().text(), "19");
    p.filled(a("113.5"), "USDT".into());
    assert!(p.next_order(&m, &t, &cfg, &price_of).unwrap().is_none());
    assert_eq!((p.amount().text().as_str(), p.currency()), ("113.5", "USDT"));
}

#[test]
fn a_path_is_entered_and_left_by_swaps() {
    let (m, t, cfg) = (markets(), tickers(), Config::default());
    let mut c = cycle();
    c.nodes = vec!["BTC".into(), "ETH".into(), "BTC".into()];
    c.trades = vec![trade("BTC", "ETH", "ETH/BTC", "BUY")];
    let mut p = PathExecution::begin(c, "USDT", a("50"), &cfg).unwrap();
    assert_eq!(p.amount().text(), "50");
    let o = p.next_order(&m, &t, &cfg, &price_of).unwrap().unwrap();
    assert_eq!((o.pair.as_str(), o.side.text()), ("BTC/USDT", "BUY"));
    p.filled(a("0.5"), "BTC".into());
    let o = p.next_order(&m, &t, &cfg, &price_of).unwrap().unwrap();
    assert_eq!(o.pair, "ETH/BTC");
    p.filled(a("9"), "ETH".into());
    let o = p.next_order(&m, &t, &cfg, &price_of).unwrap().unwrap();
    assert_eq!((o.pair.as_str(), o.side.text()), ("ETH/USDT", "SELL"));
    p.filled(a("54"), "USDT".into());
    assert!(p.next_order(&m, &t, &cfg, &price_of).unwrap().is_none());
}

#[test]
fn a_path_knows_its_swaps_from_its_trades() {
    let (m, t, cfg) = (markets(), tickers(), Config::default());
    let mut c = cycle();
    c.nodes = vec!["BTC".into(), "ETH".into(), "BTC".into()];
    c.trades = vec![trade("BTC", "ETH", "ETH/BTC", "BUY")];
    let mut p = PathExecution::begin(c, "USDT", a("50"), &cfg).unwrap();
    assert!(p.next_order(&m, &t, &cfg, &price_of).is_ok());
    assert_eq!((p.in_cycle(), p.swap_target()), (false, "BTC"));
    p.filled(a("0.5"), "BTC".into());
    assert!(p.next_order(&m, &t, &cfg, &price_of).is_ok());
    assert!(p.in_cycle());
    p.filled(a("9"), "ETH".into());
    assert!(p.next_order(&m, &t, &cfg, &price_of).is_ok());
    assert_eq!((p.in_cycle(), p.swap_target()), (false, "USDT"));
    let mut p = PathExecution::begin(cycle(), "USDT", a("50"), &cfg).unwrap();
    assert!(!p.in_cycle());
    assert!(p.next_order(&m, &t, &cfg, &price_of).is_ok());
    assert!(p.in_cycle());
}

#[test]
fn a_path_that_cannot_go_on_says_why() {
    let (m, t, cfg) = (markets(), tickers(), Config::default());
    let low = PathExecution::begin(cycle(), "USDT", a("5.99"), &cfg);
    assert!(matches!(low, Err(ExecError::BalanceTooLow)));
    let mut limits_only = Config::default();
    limits_only.maker_only = true;
    let refused = PathExecution::begin(cycle(), "USDT", a("50"), &limits_only);
    assert!(matches!(refused, Err(ExecError::MakerOnly)));
    let mut p = PathExecution::begin(cycle(), "USDT", a("6.0"), &cfg).unwrap();
    assert!(p.next_order(&m, &t, &cfg, &price_of).is_ok());
    p.filled(a("1"), "EUR".into());
    let e = p.next_order(&m, &t, &cfg, &price_of).unwrap_err();
    assert!(e == ExecError::WrongCurrency(1));
    let mut p = PathExecution::begin(cycle(), "USDT", a("50"), &cfg).unwrap();
    let e = p.next_order(&Markets::new(), &t, &cfg, &price_of).unwrap_err();
    assert!(e == ExecError::MissingMarket(0));
    let mut p = PathExecution::begin(cycle(), "EUR", a("50"), &cfg).unwrap();
    let e = p.next_order(&m, &t, &cfg, &price_of).unwrap_err();
    assert!(e == ExecError::NoRoute);
}

#[test]
fn a_purchase_may_be_for_a_quantity() {
    let (m, t) = (markets(), tickers());
    let mut cfg = Config::default();
    cfg.use_quote_order_qty_for_buy = false;
    let o = plan_swap("USDT", "BTC", a("50"), &m, &t, &cfg, &price_of).unwrap();
    assert_eq!(o.quantity.unwrap().text(), "0.50");
    assert!(o.quote_quantity.is_none());
    let o = plan_swap("BTC", "USDT", a("2"), &m, &t, &cfg, &price_of).unwrap();
    assert_eq!((o.side.text(), o.quantity.unwrap().text()), ("SELL", "2".to_string()));
    let bare = TickerStore::new(vec!["BTC/USDT".into()]);
    let e = plan_swap("USDT", "BTC", a("50"), &m, &bare, &cfg, &price_of).unwrap_err();
    assert!(e == ExecError::NoPrice);
    let zero = |_: Double| Amount::zero();
    let e = plan_swap("USDT", "BTC", a("50"), &m, &t, &cfg, &zero).unwrap_err();
    assert!(e == ExecError::NoQuantity);
}

fn reply(executed: &str, quote: &str, fills: Option<Vec<(&str, &str)>>) -> OrderResponse {
    OrderResponse {
        executed_qty: executed.into(),
        cummulative_quote_qty: quote.into(),
        fills: fills.map(|f| {
            f.into_iter()
                .map(|(c, asset)| OrderFill { commission: c.into(), commission_asset: asset.into() })
                .collect()
        }),
    }
}

#[test]
fn orders_are_settled_less_the_commission() {
    let m = market("BTC", "USDT");
    let r = reply(
        "1.0",
        "100.5",
        Some(vec![("0.001", "BTC"), ("0.01", "BNB"), ("0.002", "BTC"), ("x", "BTC")]),
    );
    assert_eq!(sum_commission_in_asset(&r, "BTC").unwrap().text(), "0.003");
    assert_eq!(sum_commission_in_asset(&r, "EUR").unwrap().text(), "0");
    let x = settle_order(&r, Side::Buy, &m).unwrap();
    assert_eq!((x.spent_amount.text(), x.spent_currency.as_str()), ("100.5".into(), "USDT"));
    assert_eq!((x.received_amount.text(), x.received_currency.as_str()), ("0.997".into(), "BTC"));
    let r = reply("1.0", "100.5", Some(vec![("0.5", "USDT")]));
    let x = settle_order(&r, Side::Sell, &m).unwrap();
    assert_eq!((x.spent_amount.text(), x.spent_currency.as_str()), ("1.0".into(), "BTC"));
    assert_eq!((x.received_amount.text(), x.received_currency.as_str()), ("100.0".into(), "USDT"));
    let r = reply("none", "1", None);
    let x = settle_order(&r, Side::Buy, &m).unwrap();
    assert_eq!(x.received_amount.text(), "0");
    let r = reply("0.1", "1", Some(vec![("0.5", "BTC")]));
    assert_eq!(settle_order(&r, Side::Buy, &m).unwrap().received_amount.text(), "0");
    let big = "79228162514264337593543950335";
    let r = reply("0", "0", Some(vec![(big, "BTC"), (big, "BTC")]));
    assert!(settle_order(&r, Side::Buy, &m).is_none());
}

#[test]
fn attempts_end_with_the_retries() {
    assert_eq!(next_attempt(0, 2), Some(1));
    assert_eq!(next_attempt(1, 2), Some(2));
    assert_eq!(next_attempt(2, 2), None);
    assert_eq!(next_attempt(u32::MAX, u32::MAX), None);
}

#[test]
fn the_clock_shows_milliseconds() {
    assert_eq!(epoch_ms(None), 0);
    assert_eq!(epoch_ms(Some(1_700_000_000_123)), 1_700_000_000_123);
    assert_eq!(epoch_ms(Some((1u128 << 64) + 5)), 5);
    assert!(now_ms() > 1_600_000_000_000);
}

#[test]
fn a_cycle_is_traded_where_all_allows_it() {
    assert!(settle_opportunity(Opportunity::Trade, true, true));
    assert!(!settle_opportunity(Opportunity::Trade, false, true));
    assert!(!settle_opportunity(Opportunity::Trade, true, false));
    assert!(!settle_opportunity(Opportunity::Announce, true, true));
    assert!(!settle_opportunity(Opportunity::Ignore, true, true));
}

#[test]
fn one_trade_ends_a_round() {
    let mut desk = TradeDesk::new();
    let search = LoopStep::Search(7);
    let found = |cycles: usize| DeskEvent::Found { step: search, cycles };
    assert_eq!(desk.step(found(3)), DeskAction::Simulate(0));
    assert_eq!(desk.step(DeskEvent::Weighed(Opportunity::Ignore)), DeskAction::Simulate(1));
    assert_eq!(desk.step(DeskEvent::Weighed(Opportunity::Trade)), DeskAction::Assess(1));
    assert_eq!(desk.step(DeskEvent::Assessed { viable: true }), DeskAction::Execute(1));
    assert_eq!(desk.step(DeskEvent::Weighed(Opportunity::Trade)), DeskAction::RoundOver);
    assert_eq!(desk.step(DeskEvent::Assessed { viable: true }), DeskAction::RoundOver);
}

#[test]
fn one_cycle_is_traded_at_a_time() {
    let mut desk = TradeDesk::new();
    let found = DeskEvent::Found { step: LoopStep::Search(7), cycles: 1 };
    let trade = DeskEvent::Weighed(Opportunity::Trade);
    assert_eq!(desk.step(found), DeskAction::Simulate(0));
    assert_eq!(desk.step(trade), DeskAction::Assess(0));
    assert_eq!(desk.step(DeskEvent::Assessed { viable: true }), DeskAction::Execute(0));
    assert_eq!(desk.step(found), DeskAction::Simulate(0));
    assert_eq!(desk.step(trade), DeskAction::RoundOver);
    assert_eq!(desk.step(DeskEvent::Ended), DeskAction::Stay);
    assert_eq!(desk.step(found), DeskAction::Simulate(0));
    assert_eq!(desk.step(trade), DeskAction::Assess(0));
    assert_eq!(desk.step(DeskEvent::Assessed { viable: true }), DeskAction::Execute(0));
}

#[test]
fn a_cycle_that_is_too_risky_gives_way_to_the_next() {
    let mut desk = TradeDesk::new();
    let found = DeskEvent::Found { step: LoopStep::Search(1), cycles: 2 };
    assert_eq!(desk.step(found), DeskAction::Simulate(0));
    assert_eq!(desk.step(DeskEvent::Weighed(Opportunity::Trade)), DeskAction::Assess(0));
    assert_eq!(desk.step(DeskEvent::Assessed { viable: false }), DeskAction::Simulate(1));
    assert_eq!(desk.step(DeskEvent::Weighed(Opportunity::Announce)), DeskAction::RoundOver);
}

#[test]
fn a_round_begins_with_a_search_only() {
    let mut desk = TradeDesk::new();
    for step in [LoopStep::Paused, LoopStep::Disconnected, LoopStep::Idle] {
        assert_eq!(desk.step(DeskEvent::Found { step, cycles: 2 }), DeskAction::RoundOver);
        assert_eq!(desk.step(DeskEvent::Weighed(Opportunity::Trade)), DeskAction::RoundOver);
    }
    let none = DeskEvent::Found { step: LoopStep::Search(1), cycles: 0 };
    assert_eq!(desk.step(none), DeskAction::RoundOver);
    assert_eq!(desk.step(DeskEvent::Assessed { viable: true }), DeskAction::RoundOver);
}
