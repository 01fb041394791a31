use oxidarb::arbitrage::graph::build_graph;
use oxidarb::arbitrage::spfa::find_negative_cycles_spfa;
use oxidarb::binance::ws::{load_spot_markets, SymbolInfo};
use oxidarb::config::Config;
use oxidarb::decimal::Amount;
use oxidarb::domain::{Market, Markets};
use oxidarb::double::Double;
use oxidarb::perf_test::bench::{
    bench_passes, read_numbers, run_compute_bench, search_pass, simulate_cycles, time_between,
    ComputeStats, SimOutcome,
};
use oxidarb::perf_test::command::{
    is_perf_test_mode, parse_perf_command, perf_test_subargs, read_perf_settings, trace_path,
    PerfAction, PerfValues,
};
use oxidarb::perf_test::replay::{
    IntakeAction, IntakeEvent, IntakeReplay, LoopAction, LoopEvent, LoopReplay,
};
use oxidarb::perf_test::report::{
    aggregate_bench_runs, aggregate_loop_runs, aggregate_replay_runs, countable_duration, megabytes,
    megabytes_per_second, pairs_connected, per_second, seconds_of_us, speedup, spread, BenchFigures,
    LoopFigures, ReplayFigures,
};
use oxidarb::perf_test::trace::{
    build_binance_to_id_map, build_book_ticker_stream_chunks, build_markets_from_meta,
    build_pairs_meta, chunk_count, meta_pairs, order_pairs, pace_wait_us, payload_size,
    read_payload, trace_kind, validate_trace_meta, write_payload, FrameTotals, RecordError,
    TraceEncoding, TraceError, TraceMeta, TracePair,
};
use oxidarb::store::TickerStore;
use oxidarb::text::{format_i64, format_u64};
use std::cell::Cell;

fn d(x: f64) -> Double {
    Double::from_bits(x.to_bits())
}

fn f(x: Double) -> f64 {
    f64::from_bits(x.to_bits())
}

fn names(list: &[&str]) -> Vec<String> {
    list.iter().map(|s| s.to_string()).collect()
}

#[test]
fn arguments_are_read() {
    assert!(is_perf_test_mode(&names(&["bin", "perf-test"])));
    assert!(is_perf_test_mode(&names(&["bin", "x", "--perf-test"])));
    assert!(!is_perf_test_mode(&names(&["bin", "perftest"])));
    assert_eq!(
        perf_test_subargs(&names(&["bin", "perf-test", "replay", "perf-test"])),
        names(&["replay", "perf-test"])
    );
    assert!(perf_test_subargs(&names(&["bin", "perf-test"])).is_empty());
    assert!(perf_test_subargs(&names(&["bin"])).is_empty());
    let run = |list: &[&str]| {
        let mut all = vec!["bin", "perf-test"];
        all.extend_from_slice(list);
        parse_perf_command(&names(&all))
    };
    assert!(matches!(run(&[]).action, PerfAction::Default));
    assert!(matches!(run(&["live"]).action, PerfAction::Live));
    assert!(matches!(run(&["record"]).action, PerfAction::Record(None)));
    match run(&["replay", "t"]).action {
        PerfAction::Replay(Some(p)) => assert_eq!(p, "t"),
        _ => panic!(),
    }
    assert!(matches!(run(&["loop"]).action, PerfAction::Loop(None)));
    assert!(matches!(run(&["-h"]).action, PerfAction::Help));
    let c = run(&["micro", "loop"]);
    assert!(c.micro);
    match c.action {
        PerfAction::Path(p) => assert_eq!(p, "loop"),
        _ => panic!(),
    }
    assert!(!run(&["live"]).micro && run(&["micro"]).micro);
    assert_eq!(trace_path(Some("a".into()), Some("b".into())), "a");
    assert_eq!(trace_path(None, Some("b".into())), "b");
    assert_eq!(trace_path(None, None), "perf_traces/book_ticker.jsonl");
}

#[test]
fn settings_are_held_to_their_ranges() {
    let none = PerfValues {
        duration_sec: None,
        max_pairs: None,
        repeat: None,
        bench_cycles: None,
        sim_cycle_limit: None,
        loop_duration_sec: None,
        loop_warmup_frames: None,
        replay_pace: None,
        replay_limit: None,
    };
    let s = read_perf_settings(&none);
    assert_eq!((s.duration_sec, s.max_pairs, s.repeat), (100, None, 1));
    assert_eq!((s.bench_cycles, s.sim_cycle_limit, s.loop_duration_sec), (50, 50, 30));
    assert_eq!((s.loop_warmup_frames, s.replay_pace, s.replay_limit), (100_000, false, None));
    let some = |s: &str| Some(s.to_string());
    let s = read_perf_settings(&PerfValues {
        duration_sec: some(" 5 "),
        max_pairs: some("200"),
        repeat: some("5000"),
        bench_cycles: some("0"),
        sim_cycle_limit: some("x"),
        loop_duration_sec: some("0"),
        loop_warmup_frames: some("0"),
        replay_pace: some("ON"),
        replay_limit: some("0"),
    });
    assert_eq!((s.duration_sec, s.max_pairs, s.repeat), (5, Some(200), 1000));
    assert_eq!((s.bench_cycles, s.sim_cycle_limit, s.loop_duration_sec), (1, 50, 1));
    assert_eq!((s.loop_warmup_frames, s.replay_pace, s.replay_limit), (0, true, None));
}

fn pair(base: &str, quote: &str) -> TracePair {
    TracePair {
        pair: format!("{}/{}", base, quote),
        binance_symbol: format!("{}{}", base, quote),
        base: base.into(),
        quote: quote.into(),
    }
}

fn meta() -> TraceMeta {
    TraceMeta {
        version: 1,
        kind: trace_kind().to_string(),
        recorded_at_epoch_ms: 5,
        taker_fee_rate: Amount::parse("0.001").unwrap(),
        ws_chunk_size: 2,
        pairs: vec![pair("BTC", "USDT"), pair("ETH", "BTC"), pair("ETH", "USDT")],
    }
}

#[test]
fn traces_are_read_by_their_head() {
    assert!(validate_trace_meta(&meta()).is_ok());
    let m = TraceMeta { version: 2, ..meta() };
    assert!(validate_trace_meta(&m) == Err(TraceError::Version));
    let m = TraceMeta { kind: "other".into(), ..meta() };
    assert!(validate_trace_meta(&m) == Err(TraceError::Kind));
    let m = TraceMeta { pairs: Vec::new(), ..meta() };
    assert!(validate_trace_meta(&m) == Err(TraceError::NoPairs));
    let m = meta();
    assert_eq!(meta_pairs(&m), names(&["BTC/USDT", "ETH/BTC", "ETH/USDT"]));
    assert_eq!(chunk_count(&m), 2);
    assert_eq!(chunk_count(&TraceMeta { ws_chunk_size: 0, ..meta() }), 3);
    assert_eq!(chunk_count(&TraceMeta { ws_chunk_size: 3, ..meta() }), 1);
    let markets = build_markets_from_meta(&m);
    let b = markets.get("ETH/BTC").unwrap();
    assert_eq!((b.binance_symbol.as_str(), b.min_qty.text().as_str()), ("ETHBTC", "0"));
    assert!(build_graph(&markets, &meta_pairs(&m), d(0.0)).is_ok());
    let index = build_binance_to_id_map(&m);
    assert_eq!((index.get("ETHUSDT"), index.get("XRPUSDT")), (Some(2), None));
    let back = build_pairs_meta(&markets, &meta_pairs(&m)).unwrap();
    assert_eq!(back[1].binance_symbol, "ETHBTC");
    assert!(matches!(
        build_pairs_meta(&markets, &names(&["BTC/USDT", "X/Y"])),
        Err(RecordError::MissingMarket(1))
    ));
    assert_eq!(
        build_book_ticker_stream_chunks(&markets, &meta_pairs(&m), 0).unwrap(),
        vec![
            names(&["btcusdt@bookTicker"]),
            names(&["ethbtc@bookTicker"]),
            names(&["ethusdt@bookTicker"])
        ]
    );
    assert!(build_book_ticker_stream_chunks(&markets, &names(&["X/Y"]), 1).is_err());
}

#[test]
fn what_was_recorded_is_read_back() {
    for bytes in [
        b"{\"a\":1}".to_vec(),
        "货币".as_bytes().to_vec(),
        vec![0xff, 0x00, 0x7f, 0xc3],
        Vec::new(),
    ] {
        let (encoding, payload) = write_payload(bytes.clone());
        assert_eq!(payload_size(encoding, &payload), bytes.len() as u64);
        assert_eq!(read_payload(encoding, &payload), Some(bytes));
    }
    let (encoding, payload) = write_payload(vec![0xff, 0x00, 0xab]);
    assert!(encoding == TraceEncoding::Hex);
    assert_eq!(payload, "ff00ab");
    assert_eq!(read_payload(TraceEncoding::Hex, "FF0"), None);
    assert_eq!(read_payload(TraceEncoding::Hex, "zz"), None);
    assert_eq!(read_payload(TraceEncoding::Hex, "FF0a"), Some(vec![0xff, 0x0a]));
}

#[test]
fn frames_are_counted() {
    let mut t = FrameTotals::new();
    assert!(!t.is_full(Some(1)));
    t.count(500, 10);
    t.count(300, 5);
    assert_eq!((t.frames, t.bytes, t.last_t_us), (2, 15, 500));
    assert!(t.is_full(Some(2)) && !t.is_full(Some(3)) && !t.is_full(None));
    assert_eq!(pace_wait_us(true, 500, 200), 300);
    assert_eq!(pace_wait_us(true, 200, 500), 0);
    assert_eq!(pace_wait_us(false, 500, 200), 0);
}

#[test]
fn pairs_are_put_in_order() {
    let list = names(&["ETH/USDT", "BTC/USDT", "ADA/USDT", "BTC/USDT"]);
    assert_eq!(
        order_pairs(&list, None),
        names(&["ADA/USDT", "BTC/USDT", "BTC/USDT", "ETH/USDT"])
    );
    assert_eq!(order_pairs(&list, Some(2)), names(&["ADA/USDT", "BTC/USDT"]));
    assert_eq!(order_pairs(&list, Some(9)).len(), 4);
}

fn triangle() -> (Markets, Vec<String>, TickerStore) {
    let mut markets = Markets::new();
    let mut pairs: Vec<String> = Vec::new();
    for (b, q) in [("BTC", "USDT"), ("ETH", "BTC"), ("ETH", "USDT")] {
        let name = format!("{}/{}", b, q);
        markets.insert(
            name.clone(),
            Market {
                symbol: name.clone(),
                binance_symbol: format!("{}{}", b, q),
                base: b.into(),
                quote: q.into(),
                min_qty: Amount::zero(),
                min_notional: Amount::zero(),
                active: true,
                spot: true,
            },
        );
        pairs.push(name);
    }
    let mut store = TickerStore::new(pairs.clone());
    store.update_by_id(0, d(100.0), d(100.0), 1);
    store.update_by_id(1, d(0.05), d(0.05), 1);
    store.update_by_id(2, d(6.0), d(6.0), 1);
    (markets, pairs, store)
}

#[test]
fn searches_and_simulations_are_counted() {
    let (markets, pairs, store) = triangle();
    let mut g = build_graph(&markets, &pairs, d(0.00075)).unwrap();
    let mut cfg = Config::default();
    cfg.base_assets = names(&["USDT", "XRP"]);
    let time = Cell::new(0u64);
    let clock = || {
        time.set(time.get() + 10);
        time.get()
    };
    let ln = |x: Double| d(f(x).ln());
    let s = run_compute_bench(&mut g, &store, &pairs, &markets, &cfg, 3, 50, &clock, &ln).unwrap();
    assert_eq!((s.spfa_calls, s.cycles_found_total, s.cycles_found_max), (3, 3, 1));
    assert_eq!((s.sim_calls, s.sim_verified, s.sim_errors), (6, 3, 0));
    assert_eq!((s.spfa_ns_sum, s.spfa_max_ns, s.spfa_avg_ns()), (30, 10, 10));
    assert_eq!((s.sim_ns_sum, s.sim_avg_ns()), (60, 10));
    assert_eq!(f(s.cycles_found_avg()), 1.0);
    let s = run_compute_bench(&mut g, &store, &pairs, &markets, &cfg, 0, 0, &clock, &ln).unwrap();
    assert_eq!((s.spfa_calls, s.sim_calls), (1, 0));
    let mut stats = ComputeStats::new();
    let n = read_numbers(&cfg);
    let found = search_pass(&g, &pairs, &store, &markets, &cfg, n, 1, &clock, &mut stats).unwrap();
    assert_eq!((found, stats.sim_calls, stats.sim_verified), (1, 2, 1));
    stats.record_simulation(u64::MAX, SimOutcome::Failed);
    assert_eq!((stats.sim_errors, stats.sim_ns_sum, stats.sim_max_ns), (1, u64::MAX, u64::MAX));
    stats.record_search(7, 4);
    assert_eq!((stats.cycles_found_total, stats.cycles_found_max), (5, 4));
    assert_eq!(ComputeStats::new().spfa_avg_ns(), 0);
    assert_eq!(f(ComputeStats::new().cycles_found_avg()), 0.0);
}

#[test]
fn figures_are_rates() {
    assert_eq!(f(countable_duration(d(0.0))), 1e-9);
    assert_eq!(f(countable_duration(d(2.0))), 2.0);
    assert_eq!(f(per_second(10, d(4.0))), 2.5);
    assert_eq!(f(megabytes(3 * 1024 * 1024)), 3.0);
    assert_eq!(f(megabytes_per_second(3 * 1024 * 1024, d(2.0))), 1.5);
    assert_eq!(f(seconds_of_us(1_500_000)), 1.5);
    assert_eq!(f(speedup(d(10.0), d(4.0))), 2.5);
    assert_eq!(pairs_connected(&vec![180, 180, 20], &vec![true, false, true]), 200);
}

#[test]
fn runs_are_compared() {
    let s = spread(&vec![d(1.0), d(4.0), d(2.5)]);
    assert_eq!((f(s.avg), f(s.min), f(s.max)), (2.5, 1.0, 4.0));
    let s = spread(&Vec::new());
    assert_eq!((f(s.avg), f(s.min), f(s.max)), (0.0, 0.0, 0.0));
    let run = |x: f64, n: u64| ReplayFigures {
        frames: 100 * n,
        trace_duration_sec: d(10.0 * x),
        duration_sec: d(x),
        replay_speedup_x: d(2.0 * x),
        ws_msg_per_sec: d(3.0 * x),
        ws_mb_per_sec: d(4.0 * x),
        ws_avg_parse_ns: n,
        ws_max_parse_ns: 2 * n,
        ws_avg_apply_ns: 3 * n,
        ws_max_apply_ns: 4 * n,
    };
    let a = aggregate_replay_runs(&vec![run(1.0, 10), run(2.0, 30)]);
    assert_eq!((a.frames, f(a.trace_duration_sec)), (1_000, 10.0));
    assert_eq!((f(a.duration_sec.avg), f(a.replay_speedup_x.max)), (1.5, 4.0));
    assert_eq!((f(a.ws_msg_per_sec.min), f(a.ws_mb_per_sec.avg)), (3.0, 6.0));
    assert_eq!((f(a.ws_avg_parse_ns.avg), f(a.ws_max_parse_ns.max)), (20.0, 60.0));
    assert_eq!((f(a.ws_avg_apply_ns.min), f(a.ws_max_apply_ns.avg)), (30.0, 80.0));
    let a = aggregate_replay_runs(&Vec::new());
    assert_eq!((a.frames, f(a.trace_duration_sec), f(a.duration_sec.max)), (0, 0.0, 0.0));
    let run = |x: f64, n: u64| BenchFigures {
        ingest_duration_sec: d(x),
        ws_msg_per_sec: d(2.0 * x),
        ws_mb_per_sec: d(3.0 * x),
        compute_duration_sec: d(4.0 * x),
        spfa_avg_ns: n,
        sim_avg_ns: 2 * n,
        cycles_found_avg: d(5.0 * x),
    };
    let a = aggregate_bench_runs(&vec![run(1.0, 10), run(2.0, 30)]);
    assert_eq!((f(a.ingest_duration_sec.avg), f(a.ws_msg_per_sec.max)), (1.5, 4.0));
    assert_eq!((f(a.ws_mb_per_sec.min), f(a.compute_duration_sec.avg)), (3.0, 6.0));
    assert_eq!((f(a.spfa_avg_ns.avg), f(a.sim_avg_ns.max)), (20.0, 60.0));
    assert_eq!(f(a.cycles_found_avg.min), 5.0);
    let run = |x: f64, n: u64| LoopFigures {
        loops_per_sec: d(x),
        ws_msg_per_sec: d(2.0 * x),
        ws_mb_per_sec: d(3.0 * x),
        spfa_avg_ns: n,
        sim_avg_ns: 2 * n,
        cycles_found_avg: d(5.0 * x),
    };
    let a = aggregate_loop_runs(&vec![run(1.0, 10), run(2.0, 30)]);
    assert_eq!((f(a.loops_per_sec.avg), f(a.ws_msg_per_sec.max)), (1.5, 4.0));
    assert_eq!((f(a.ws_mb_per_sec.min), f(a.spfa_avg_ns.avg)), (3.0, 20.0));
    assert_eq!((f(a.sim_avg_ns.max), f(a.cycles_found_avg.max)), (60.0, 10.0));
}

#[test]
fn numbers_are_written() {
    for n in [0u64, 7, 10, 99, 100, 1_234_567_890, u64::MAX] {
        assert_eq!(format_u64(n), n.to_string());
    }
    for n in [0i64, -1, 42, i64::MAX, i64::MIN] {
        assert_eq!(format_i64(n), n.to_string());
    }
    let none: Vec<SymbolInfo> = Vec::new();
    assert_eq!(load_spot_markets(&none).len(), 0);
}

#[test]
fn a_replay_warms_up_before_it_counts() {
    let mut r = LoopReplay::new(2, None);
    let frame = LoopEvent::Frame { t_us: 5, size: 10 };
    assert!(!r.is_warm());
    assert_eq!(r.step(LoopEvent::OtherLine), LoopAction::Read);
    assert_eq!(r.step(frame), LoopAction::Warm);
    assert_eq!(r.step(LoopEvent::TimeUp), LoopAction::Read);
    assert_eq!(r.step(frame), LoopAction::Warm);
    assert!(r.is_warm());
    assert_eq!((r.warmed(), r.totals(), r.wraps()), (2, FrameTotals::new(), 0));
    assert_eq!(r.step(frame), LoopAction::Round);
    assert_eq!(r.step(LoopEvent::Frame { t_us: 9, size: 7 }), LoopAction::Round);
    assert_eq!(r.totals(), FrameTotals { frames: 2, bytes: 17, last_t_us: 9 });
    assert_eq!(r.warmed(), 2);
}

#[test]
fn the_end_of_a_trace_leads_back() {
    let mut r = LoopReplay::new(1, None);
    let frame = LoopEvent::Frame { t_us: 5, size: 10 };
    assert_eq!(r.step(frame), LoopAction::Warm);
    assert_eq!(r.step(frame), LoopAction::Round);
    assert_eq!(r.step(LoopEvent::End), LoopAction::Rewind);
    assert_eq!(r.wraps(), 1);
    assert_eq!(r.step(LoopEvent::OtherLine), LoopAction::Read);
    assert_eq!(r.step(frame), LoopAction::Round);
    assert_eq!(r.step(LoopEvent::End), LoopAction::Rewind);
    assert_eq!((r.wraps(), r.totals().frames, r.warmed()), (2, 2, 1));
    assert_eq!(r.step(LoopEvent::NothingAfterWarmup), LoopAction::Read);
    assert_eq!(r.step(LoopEvent::TimeUp), LoopAction::Finish);
    assert_eq!(r.step(frame), LoopAction::Finish);
    assert_eq!((r.wraps(), r.totals().frames), (2, 2));
}

#[test]
fn a_timed_replay_ends_at_its_limit() {
    let mut r = LoopReplay::new(0, Some(2));
    let frame = LoopEvent::Frame { t_us: 1, size: 1 };
    assert!(r.is_warm() && !r.is_full());
    assert_eq!(r.step(frame), LoopAction::Round);
    assert_eq!(r.step(frame), LoopAction::Round);
    assert!(r.is_full());
    assert_eq!(r.step(LoopEvent::End), LoopAction::Finish);
    assert_eq!((r.wraps(), r.totals().frames), (0, 2));
}

#[test]
fn a_trace_that_is_too_short_fails() {
    let mut r = LoopReplay::new(2, None);
    assert_eq!(r.step(LoopEvent::Frame { t_us: 1, size: 1 }), LoopAction::Warm);
    assert_eq!(r.step(LoopEvent::End), LoopAction::TooFewFrames);
    assert_eq!(r.step(LoopEvent::Frame { t_us: 1, size: 1 }), LoopAction::TooFewFrames);
    assert_eq!((r.warmed(), r.totals().frames), (1, 0));
    let mut r = LoopReplay::new(1, None);
    assert_eq!(r.step(LoopEvent::Frame { t_us: 1, size: 1 }), LoopAction::Warm);
    assert_eq!(r.step(LoopEvent::NothingAfterWarmup), LoopAction::NothingToTime);
    assert_eq!(r.step(LoopEvent::TimeUp), LoopAction::NothingToTime);
    let mut r = LoopReplay::new(0, None);
    assert_eq!(r.step(LoopEvent::NothingAfterWarmup), LoopAction::NothingToTime);
}

#[test]
fn totals_have_room_up_to_their_bounds() {
    let mut t = FrameTotals::new();
    assert!(t.has_room(u64::MAX));
    t.count(1, 1);
    assert!(t.has_room(u64::MAX - 1) && !t.has_room(u64::MAX));
    let mut r = LoopReplay::new(0, None);
    assert_eq!(r.step(LoopEvent::Frame { t_us: 1, size: u64::MAX }), LoopAction::Round);
    assert!(!r.has_room(LoopEvent::Frame { t_us: 1, size: 1 }));
    assert!(r.has_room(LoopEvent::Frame { t_us: 1, size: 0 }) && r.has_room(LoopEvent::End));
    let mut i = IntakeReplay::new(false, None);
    let _ = i.step(IntakeEvent::Frame { t_us: 1, size: u64::MAX, elapsed_us: 0 });
    assert!(!i.has_room(IntakeEvent::Frame { t_us: 1, size: 1, elapsed_us: 0 }));
    assert!(i.has_room(IntakeEvent::End));
}

#[test]
fn every_frame_is_taken_in_up_to_the_limit() {
    let frame = |t_us: u64| IntakeEvent::Frame { t_us, size: 3, elapsed_us: 4 };
    let mut r = IntakeReplay::new(true, None);
    assert_eq!(r.step(frame(10)), IntakeAction::Take { wait_us: 6 });
    assert_eq!(r.step(IntakeEvent::OtherLine), IntakeAction::Read);
    assert_eq!(r.step(frame(2)), IntakeAction::Take { wait_us: 0 });
    assert_eq!(r.step(IntakeEvent::End), IntakeAction::Finish);
    assert_eq!(r.step(frame(10)), IntakeAction::Finish);
    assert_eq!(r.totals(), FrameTotals { frames: 2, bytes: 6, last_t_us: 10 });
    let mut r = IntakeReplay::new(false, Some(1));
    assert!(!r.is_full());
    assert_eq!(r.step(frame(10)), IntakeAction::Take { wait_us: 0 });
    assert!(r.is_full());
    assert_eq!(r.step(frame(11)), IntakeAction::Finish);
    assert_eq!(r.totals(), FrameTotals { frames: 1, bytes: 3, last_t_us: 10 });
}

#[test]
fn times_are_those_between_readings() {
    assert_eq!(time_between(3, 10), 7);
    assert_eq!(time_between(10, 10), 0);
    assert_eq!(time_between(10, 3), 0);
    assert_eq!((bench_passes(0), bench_passes(1), bench_passes(50)), (1, 1, 50));
    let (markets, pairs, store) = triangle_world();
    let mut g = build_graph(&markets, &pairs, d(0.0)).unwrap();
    g.maybe_rebuild_all_weights(&store, &|x: Double| d(f(x).ln()));
    let mut cfg = Config::default();
    cfg.base_assets = names(&["USDT", "BTC"]);
    // The readings are the squares: 1, 4, 9, 16 and so on.
    let count = Cell::new(0u64);
    let clock = || {
        count.set(count.get() + 1);
        count.get() * count.get()
    };
    let n = read_numbers(&cfg);
    let mut stats = ComputeStats::new();
    search_pass(&g, &pairs, &store, &markets, &cfg, n, 5, &clock, &mut stats).unwrap();
    assert_eq!((stats.spfa_ns_sum, stats.spfa_max_ns), (4 - 1, 3));
    assert_eq!(stats.sim_calls, 2);
    assert_eq!((stats.sim_ns_sum, stats.sim_max_ns), ((16 - 9) + (36 - 25), 11));
    let cycles = find_negative_cycles_spfa(&g, &pairs, 6).unwrap();
    let back = Cell::new(100u64);
    let clock = || {
        back.set(back.get() - 1);
        back.get()
    };
    let mut stats = ComputeStats::new();
    simulate_cycles(&cycles, 1, &cfg.base_assets, n, &store, &markets, &clock, &mut stats);
    assert_eq!((stats.sim_calls, stats.sim_ns_sum, stats.sim_max_ns), (2, 0, 0));
}

#[test]
fn searches_keep_up_with_rounds() {
    let (markets, pairs, store) = triangle_world();
    let mut g = build_graph(&markets, &pairs, d(0.0)).unwrap();
    g.maybe_rebuild_all_weights(&store, &|x: Double| d(f(x).ln()));
    let cfg = Config::default();
    let n = read_numbers(&cfg);
    let mut stats = ComputeStats::new();
    let mut r = LoopReplay::new(1, Some(3));
    let frame = LoopEvent::Frame { t_us: 1, size: 2 };
    for event in [frame, frame, LoopEvent::OtherLine, frame, LoopEvent::End, frame, frame] {
        if r.step(event) == LoopAction::Round {
            let clock = || 0u64;
            search_pass(&g, &pairs, &store, &markets, &cfg, n, 1, &clock, &mut stats).unwrap();
        }
    }
    assert_eq!((stats.spfa_calls, r.totals().frames), (3, 3));
}

#[test]
fn pace_and_clock_change_no_total() {
    let run = |pace: bool, elapsed: u64, limit: Option<u64>| {
        let mut r = IntakeReplay::new(pace, limit);
        for (t_us, size) in [(5u64, 10u64), (9, 20), (7, 30)] {
            let _ = r.step(IntakeEvent::Frame { t_us, size, elapsed_us: elapsed });
        }
        r.totals()
    };
    let all = FrameTotals { frames: 3, bytes: 60, last_t_us: 9 };
    let two = FrameTotals { frames: 2, bytes: 30, last_t_us: 9 };
    let one = FrameTotals { frames: 1, bytes: 10, last_t_us: 5 };
    for (pace, elapsed) in [(false, 0), (true, 0), (true, 1_000), (false, 6)] {
        assert_eq!(run(pace, elapsed, None), all);
        assert_eq!(run(pace, elapsed, Some(3)), all);
        assert_eq!(run(pace, elapsed, Some(2)), two);
        assert_eq!(run(pace, elapsed, Some(1)), one);
    }
}

fn triangle_world() -> (Markets, Vec<String>, TickerStore) {
    let mut markets = Markets::new();
    let mut pairs: Vec<String> = Vec::new();
    let quotes = [("BTC", "USDT", 100.0), ("ETH", "BTC", 0.05), ("ETH", "USDT", 6.0)];
    for (base, quote, _) in quotes {
        let symbol = format!("{}/{}", base, quote);
        pairs.push(symbol.clone());
        markets.insert(
            symbol.clone(),
            Market {
                symbol,
                binance_symbol: format!("{}{}", base, quote),
                base: base.to_string(),
                quote: quote.to_string(),
                min_qty: Amount::zero(),
                min_notional: Amount::zero(),
                active: true,
                spot: true,
            },
        );
    }
    let mut store = TickerStore::new(pairs.clone());
    for (i, (_, _, price)) in quotes.iter().enumerate() {
        store.update_by_id(i, d(*price), d(*price), 1);
    }
    (markets, pairs, store)
}
