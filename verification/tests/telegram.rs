use oxidarb::arbitrage::graph::build_graph;
use oxidarb::config::Config;
use oxidarb::decimal::Amount;
use oxidarb::domain::{Market, Markets};
use oxidarb::double::Double;
use oxidarb::telegram::{
    balance_text, connected_count, cycle_rate, duration_figure, is_authorized, on_button,
    on_message, on_set,
    on_trade, parse_command, quote_age, run_set, run_trade, set_auto_trade, set_running,
    ButtonAction, Command, DurationFigure, MessageAction, SetReply, TradeReply,
};

fn graph() -> oxidarb::arbitrage::graph::Graph {
    let mut m = Markets::new();
    m.insert(
        "BTC/USDT".into(),
        Market {
            symbol: "BTC/USDT".into(),
            binance_symbol: "BTCUSDT".into(),
            base: "BTC".into(),
            quote: "USDT".into(),
            min_qty: Amount::zero(),
            min_notional: Amount::zero(),
            active: true,
            spot: true,
        },
    );
    build_graph(&m, &vec!["BTC/USDT".to_string()], Double::zero_value()).unwrap()
}

#[test]
fn commands_are_told_by_how_they_begin() {
    assert!(parse_command("/start") == Command::Start);
    assert!(parse_command("/starting") == Command::Start);
    assert!(parse_command("/status now") == Command::Status);
    assert!(parse_command("/help") == Command::Help);
    assert!(parse_command("/pause") == Command::Pause);
    assert!(parse_command("/resume") == Command::Resume);
    assert!(parse_command("/balance") == Command::Balance);
    assert!(parse_command("/trade on") == Command::Trade);
    assert!(parse_command("/set depth 5") == Command::Change);
    assert!(parse_command("start") == Command::Unknown);
    assert!(parse_command("") == Command::Unknown);
}

#[test]
fn only_the_authorized_user_is_heard() {
    assert!(is_authorized(0, None) && is_authorized(0, Some(7)));
    assert!(is_authorized(7, Some(7)) && !is_authorized(7, Some(8)) && !is_authorized(7, None));
    assert!(on_message(7, Some(8), Some("/start")) == MessageAction::Refuse);
    assert!(on_message(7, Some(8), None) == MessageAction::Ignore);
    assert!(on_message(7, Some(7), Some("/start")) == MessageAction::Run(Command::Start));
    assert!(on_button(7, 8, Some("confirm_trade_on")) == ButtonAction::Ignore);
    assert!(on_button(7, 7, Some("confirm_trade_on")) == ButtonAction::EnableTrading);
    assert!(on_button(7, 7, Some("other")) == ButtonAction::Acknowledge);
    assert!(on_button(0, 7, None) == ButtonAction::Acknowledge);
}

#[test]
fn trades_are_switched_off_at_once_and_on_by_the_button() {
    let mut cfg = Config::default();
    assert!(on_trade(&mut cfg, "/trade") == TradeReply::Status(false));
    assert!(on_trade(&mut cfg, "/trade  ON") == TradeReply::AskToConfirm);
    assert!(!cfg.auto_trade_enabled);
    set_auto_trade(&mut cfg, true);
    assert!(on_trade(&mut cfg, "/trade") == TradeReply::Status(true));
    assert!(on_trade(&mut cfg, "/trade maybe") == TradeReply::Usage);
    assert!(cfg.auto_trade_enabled);
    assert!(on_trade(&mut cfg, "/trade Off") == TradeReply::Disabled);
    assert!(!cfg.auto_trade_enabled);
    let words = vec!["/trade".to_string(), "off".to_string()];
    assert!(run_trade(&mut cfg, &words) == TradeReply::Disabled);
    set_running(&mut cfg, false);
    assert!(!cfg.running);
    set_running(&mut cfg, true);
    assert!(cfg.running);
}

#[test]
fn values_are_set() {
    let mut cfg = Config::default();
    let mut g = graph();
    g.rebuild_all = false;
    match on_set(&mut cfg, &mut g, "/set FEE_RATE 0.25") {
        SetReply::Updated(p, v) => assert_eq!((p.as_str(), v.as_str()), ("fee_rate", "0.25")),
        _ => panic!(),
    }
    assert_eq!(cfg.taker_fee_rate.text(), "0.25");
    assert_eq!(g.fee_multiplier.to_bits(), 0.75f64.to_bits());
    assert!(g.rebuild_all);
    assert!(matches!(
        on_set(&mut cfg, &mut g, "/set min_profit 0.1"),
        SetReply::Updated(_, _)
    ));
    assert_eq!(cfg.min_profit_full_sim_percent.text(), "0.1");
    assert!(matches!(on_set(&mut cfg, &mut g, "/set depth 4"), SetReply::Updated(_, _)));
    assert_eq!(cfg.max_arbitrage_depth, 4);
    assert!(!cfg.auto_trade_enabled && cfg.running);
}

#[test]
fn values_that_make_no_sense_are_refused() {
    let mut cfg = Config::default();
    let mut g = graph();
    assert!(matches!(on_set(&mut cfg, &mut g, "/set depth"), SetReply::Usage));
    assert!(matches!(on_set(&mut cfg, &mut g, "/set a b c"), SetReply::Usage));
    assert!(matches!(on_set(&mut cfg, &mut g, "/set depth -1"), SetReply::BadNumber));
    match on_set(&mut cfg, &mut g, "/set fee_rate much") {
        SetReply::BadAmount(e) => assert!(!e.is_empty()),
        _ => panic!(),
    }
    match on_set(&mut cfg, &mut g, "/set Speed 9") {
        SetReply::UnknownParameter(p) => assert_eq!(p, "speed"),
        _ => panic!(),
    }
    let words = vec!["/set".to_string(), "min_profit".to_string(), "x".to_string()];
    assert!(matches!(run_set(&mut cfg, &mut g, &words), SetReply::BadAmount(_)));
    assert_eq!(cfg.taker_fee_rate.text(), "0.00075");
    assert_eq!(cfg.max_arbitrage_depth, 6);
}

#[test]
fn balances_are_listed() {
    assert!(balance_text(&Vec::new()).is_none());
    let list = vec![
        ("BTC".to_string(), Amount::parse("0.50").unwrap()),
        ("USDT".to_string(), Amount::parse("7").unwrap()),
    ];
    assert_eq!(
        balance_text(&list).unwrap(),
        "<b>当前可用余额 (非零):</b>\n<pre>BTC: 0.50\nUSDT: 7\n</pre>"
    );
}

#[test]
fn figures_of_the_status() {
    let f = |x: Double| f64::from_bits(x.to_bits());
    assert_eq!(f(quote_age(5000, 0)), f64::INFINITY);
    assert_eq!(f(quote_age(5000, 3500)), 1.5);
    assert_eq!(f(quote_age(5000, 6000)), 0.0);
    assert_eq!(f(cycle_rate(10, 5000, 1000)), 2.5);
    assert_eq!(f(cycle_rate(10, 2000, 1000)), 0.0);
    assert_eq!(connected_count(&vec![true, false, true]), 2);
}

#[test]
fn durations_are_told_in_a_fitting_unit() {
    let told = |x: f64| duration_figure(Double::from_bits(x.to_bits()));
    let is = |d: Double, x: f64| d.to_bits() == x.to_bits();
    assert!(matches!(told(0.0), DurationFigure::Nothing));
    assert!(matches!(told(-1.0), DurationFigure::Nothing));
    assert!(matches!(told(f64::NAN), DurationFigure::Nothing));
    assert!(matches!(told(f64::INFINITY), DurationFigure::Nothing));
    assert!(matches!(told(f64::MAX), DurationFigure::Nothing));
    assert!(matches!(told(4e-10), DurationFigure::Nothing));
    assert!(matches!(told(6e-10), DurationFigure::Nanoseconds(1)));
    assert!(matches!(told(9.994e-7), DurationFigure::Nanoseconds(999)));
    assert!(matches!(told(9.996e-7), DurationFigure::Microseconds(x) if is(x, 1.0)));
    assert!(matches!(told(1.5e-6), DurationFigure::Microseconds(x) if is(x, 1.5)));
    assert!(matches!(told(0.0025), DurationFigure::Milliseconds(x) if is(x, 2.5)));
    assert!(matches!(told(0.9999999999), DurationFigure::Seconds(x) if is(x, 0.9999999999)));
    assert!(matches!(told(3.25), DurationFigure::Seconds(x) if is(x, 3.25)));
    assert!(matches!(told(1e30), DurationFigure::Seconds(x) if is(x, 1e30)));
}
