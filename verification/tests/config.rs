use oxidarb::config::{Config, Credentials, CredentialsError, Settings};
use oxidarb::decimal::Amount;
use oxidarb::double::Double;

fn some(s: &str) -> Option<String> {
    Some(s.to_string())
}

fn nothing() -> Settings {
    Settings {
        base_assets: None,
        maker_only: None,
        max_arbitrage_depth: None,
        websocket_chunk_size: None,
        ticker_warmup_ratio: None,
        ticker_warmup_timeout_sec: None,
        ticker_warmup_min_valid: None,
    }
}

#[test]
fn the_settings_without_anything_set() {
    let c = Config::default();
    assert!(c.running && !c.auto_trade_enabled && !c.maker_only);
    assert_eq!(c.base_assets, vec!["USDT".to_string()]);
    assert_eq!(c.simulation_start_amount.text(), "100.0");
    assert_eq!(c.taker_fee_rate.text(), "0.00075");
    assert_eq!(c.min_trade_amount_usd_equivalent.text(), "6.0");
    assert!(c.use_quote_order_qty_for_buy);
    assert_eq!(c.max_trade_retries, 2);
    assert_eq!(c.trade_retry_delay_sec.to_bits(), 1.5f64.to_bits());
    assert_eq!(c.min_profit_full_sim_percent.text(), "0.05");
    assert_eq!(c.max_arbitrage_depth, 6);
    assert_eq!(c.min_24h_quote_volume.text(), "100000");
    assert!(c.risk_assessment_enabled);
    assert_eq!(c.min_profit_after_slippage_percent.text(), "0.05");
    assert_eq!(c.max_allowed_slippage_percent_total.text(), "0.15");
    assert_eq!(c.max_bid_ask_spread_percent_per_step.text(), "0.50");
    assert_eq!(c.min_depth_required_usd.text(), "100.0");
    assert_eq!(c.order_book_depth, 10);
    assert_eq!(c.ticker_warmup_ratio.to_bits(), 0.8f64.to_bits());
    assert_eq!((c.ticker_warmup_timeout_seconds, c.ticker_warmup_min_valid), (20, 0));
    assert_eq!((c.websocket_chunk_size, c.balance_update_interval_seconds), (180, 60));
    assert_eq!((c.ticker_batch_size, c.orderbook_fetch_max_workers), (200, 4));
    assert!(c.use_threaded_orderbook_fetch);
}

#[test]
fn variables_change_the_settings() {
    let mut s = nothing();
    s.base_assets = some(" usdt,, USDC ,btc,usdt");
    s.maker_only = some(" Yes ");
    s.max_arbitrage_depth = some(" 4 ");
    s.websocket_chunk_size = some("80");
    s.ticker_warmup_ratio = Some(Double::from_bits(0.5f64.to_bits()));
    s.ticker_warmup_timeout_sec = some("0");
    s.ticker_warmup_min_valid = some("+7");
    let c = Config::from_env_or_default(&s);
    assert_eq!(c.base_assets, vec!["BTC".to_string(), "USDC".to_string(), "USDT".to_string()]);
    assert!(c.maker_only);
    assert_eq!((c.max_arbitrage_depth, c.websocket_chunk_size), (4, 80));
    assert_eq!(c.ticker_warmup_ratio.to_bits(), 0.5f64.to_bits());
    assert_eq!((c.ticker_warmup_timeout_seconds, c.ticker_warmup_min_valid), (0, 7));
    assert_eq!(c.primary_base_asset(), "BTC");
}

#[test]
fn values_that_make_no_sense_are_passed_over() {
    let mut s = nothing();
    s.base_assets = some(" , ,");
    s.maker_only = some("maybe");
    s.max_arbitrage_depth = some("0");
    s.websocket_chunk_size = some("-3");
    s.ticker_warmup_ratio = Some(Double::from_bits(1.5f64.to_bits()));
    s.ticker_warmup_timeout_sec = some("20s");
    s.ticker_warmup_min_valid = some("99999999999999999999");
    let c = Config::from_env_or_default(&s);
    assert_eq!(c.base_assets, vec!["USDT".to_string()]);
    assert!(!c.maker_only);
    assert_eq!((c.max_arbitrage_depth, c.websocket_chunk_size), (6, 180));
    assert_eq!(c.ticker_warmup_ratio.to_bits(), 0.8f64.to_bits());
    assert_eq!((c.ticker_warmup_timeout_seconds, c.ticker_warmup_min_valid), (20, 0));
    for x in [0.0f64, -0.1, f64::NAN, f64::INFINITY] {
        let mut s = nothing();
        s.ticker_warmup_ratio = Some(Double::from_bits(x.to_bits()));
        let c = Config::from_env_or_default(&s);
        assert_eq!(c.ticker_warmup_ratio.to_bits(), 0.8f64.to_bits());
    }
    let mut s = nothing();
    s.ticker_warmup_ratio = Some(Double::from_bits(1.0f64.to_bits()));
    let c = Config::from_env_or_default(&s);
    assert_eq!(c.ticker_warmup_ratio.to_bits(), 1.0f64.to_bits());
}

#[test]
fn single_settings_are_set() {
    let mut c = Config::default();
    c.set_fee_rate(Amount::parse("0.001").unwrap());
    c.set_min_profit(Amount::parse("0.2").unwrap());
    c.set_max_depth(3);
    assert_eq!(c.taker_fee_rate.text(), "0.001");
    assert_eq!(c.min_profit_full_sim_percent.text(), "0.2");
    assert_eq!(c.max_arbitrage_depth, 3);
    c.base_assets = Vec::new();
    assert_eq!(c.primary_base_asset(), "USDT");
}

#[test]
fn credentials_need_their_three_keys() {
    let c = Credentials::from_env(some("k"), some("s"), some("t"), some("-42")).unwrap();
    assert_eq!((c.api_key.as_str(), c.api_secret.as_str()), ("k", "s"));
    assert_eq!((c.telegram_bot_token.as_str(), c.authorized_user_id), ("t", -42));
    let c = Credentials::from_env(some("k"), some("s"), some("t"), some("4x")).unwrap();
    assert_eq!(c.authorized_user_id, 0);
    let c = Credentials::from_env(some("k"), some("s"), some("t"), None).unwrap();
    assert_eq!(c.authorized_user_id, 0);
    for (a, b, c) in [("", "s", "t"), ("k", "", "t"), ("k", "s", "")] {
        let r = Credentials::from_env(some(a), some(b), some(c), None);
        assert!(matches!(r, Err(CredentialsError::Missing)));
    }
    assert!(Credentials::from_env(None, some("s"), some("t"), None).is_err());
}

#[test]
fn amounts_are_those_of_decimal() {
    let p = |s: &str| Amount::parse(s).unwrap();
    assert_eq!((p("1.250").mantissa(), p("1.250").scale()), (1250, 3));
    assert_eq!(p("1.25").plus(&p("0.75")).unwrap().text(), "2.00");
    assert_eq!(p("1.25").minus(&p("2")).unwrap().text(), "-0.75");
    assert_eq!(p("1").over(&p("8")).unwrap().text(), "0.125");
    assert!(p("1").over(&Amount::zero()).is_none());
    assert_eq!(p("6.00").over(&p("1.5")).unwrap().text(), "4.0");
    assert_eq!(p("-6.00").over(&p("3")).unwrap().text(), "-2.00");
    assert_eq!(p("0.00").over(&p("3")).unwrap().text(), "0");
    assert!(p("1.0").lt(&p("1.01")) && !p("1.00").lt(&p("1")));
    assert_eq!(p("-3").or_zero().text(), "0");
    assert_eq!(p("3.50").or_zero().text(), "3.50");
    assert_eq!(p("0.00").or_zero().text(), "0.00");
    assert_eq!(p("-12.034").text(), "-12.034");
    assert_eq!(p("0.00001").text(), "0.00001");
    assert_eq!(p("0.00000001").plus(&p("100")).unwrap().text(), "100.00000001");
    assert_eq!(p("3").min(p("2.5")).text(), "2.5");
    assert_eq!(p("0.00075").to_double().to_bits(), 0.00075f64.to_bits());
    assert_eq!(p("100.0").to_double().to_bits(), 100.0f64.to_bits());
    assert_eq!(p("-7").to_double().to_bits(), (-7.0f64).to_bits());
    for x in ["0.1", "0.05", "0.00075", "6.25", "123456.789", "0.0000000000000000000000000001"] {
        let near = f64::from_bits(p(x).to_double().to_bits());
        let exact: f64 = x.parse().unwrap();
        assert!((near - exact).abs() <= exact / 1_099_511_627_776.0);
    }
    for x in ["7.9228162514264337593543950335", "-0.5", "79228162514264337593543950335", "0", "10.00"] {
        assert_eq!(p(x).text(), x);
        let again = p(&p(x).text());
        assert_eq!((again.mantissa(), again.scale()), (p(x).mantissa(), p(x).scale()));
    }
    let max = Amount::new(79_228_162_514_264_337_593_543_950_335, 0).unwrap();
    assert!(max.plus(&p("1")).is_none());
    assert!(Amount::new(79_228_162_514_264_337_593_543_950_336, 0).is_none());
    assert!(Amount::new(1, 29).is_none());
    assert!(Amount::parse("abc").is_err());
}

#[test]
fn shares_stay_between_zero_and_one() {
    for x in [
        "0", "0.0", "0.00000000000000000000000001", "0.1", "0.5", "0.99999", "0.999999999999999",
        "0.9999999999999999", "0.99999999999999999", "0.9999999999999999999999999999", "1", "1.000",
    ] {
        let y = f64::from_bits(Amount::parse(x).unwrap().to_double().to_bits());
        assert!((0.0..=1.0).contains(&y));
        let near: f64 = x.parse().unwrap();
        assert!((y - near).abs() <= near * 1e-12);
    }
}
