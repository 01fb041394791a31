//! The benchmark of searches and simulations: what it does, and what it counts.
use crate::arbitrage::graph::{pair_weighs, Graph};
use crate::arbitrage::simulate::{simulate, simulation, SimRequest};
use crate::arbitrage::spfa::{
    find_negative_cycles_spfa, findings, iteration_limit, overruns, SpfaError,
};
use crate::config::{Config, ConfigView};
use crate::decimal::{decimal_less, stands_for, zero_amount, Amount};
use crate::domain::{cycle_views, CycleInfo, CycleView, MarketView, Markets};
use crate::double::{of_nat, quotient, zero, Double};
use crate::perf::{mean, peak};
use crate::store::{TickerStore, TickerStoreView};
use crate::text::texts;
use vstd::prelude::*;

verus! {

broadcast use vstd::string::group_string_axioms;

/// What was searched and simulated, and how long it took, in nanoseconds.
#[derive(Clone, Copy, Debug)]
pub struct ComputeStats {
    pub spfa_calls: u64,
    pub spfa_ns_sum: u64,
    pub spfa_max_ns: u64,
    pub cycles_found_total: u64,
    pub cycles_found_max: u64,
    pub sim_calls: u64,
    pub sim_verified: u64,
    pub sim_errors: u64,
    pub sim_ns_sum: u64,
    pub sim_max_ns: u64,
}

/// Counts of nothing.
pub open spec fn no_work() -> ComputeStats {
    ComputeStats {
        spfa_calls: 0,
        spfa_ns_sum: 0,
        spfa_max_ns: 0,
        cycles_found_total: 0,
        cycles_found_max: 0,
        sim_calls: 0,
        sim_verified: 0,
        sim_errors: 0,
        sim_ns_sum: 0,
        sim_max_ns: 0,
    }
}

/// A sum that stays at the end of its range.
pub open spec fn capped_sum(a: u64, b: u64) -> u64 {
    if a + b <= u64::MAX {
        (a + b) as u64
    } else {
        u64::MAX
    }
}

/// A sum that stays at the end of its range.
fn add_capped(a: u64, b: u64) -> (r: u64)
    ensures
        r == capped_sum(a, b),
{
    if a <= 0xffff_ffff_ffff_ffff - b {
        a + b
    } else {
        0xffff_ffff_ffff_ffff
    }
}

/// The larger of two counts.
fn larger_of(a: u64, b: u64) -> (r: u64)
    ensures
        r == peak(a, b),
{
    if a < b {
        b
    } else {
        a
    }
}

/// The time between two readings of a clock, none where it went back.
pub open spec fn between_readings(from: u64, to: u64) -> u64 {
    if to >= from {
        (to - from) as u64
    } else {
        0
    }
}

/// The time between two readings of a clock, none where it went back.
pub fn time_between(from: u64, to: u64) -> (r: u64)
    ensures
        r == between_readings(from, to),
{
    if to >= from {
        to - from
    } else {
        0
    }
}

/// Whether all of these pairs are readings of a clock.
pub open spec fn read_from<C: Fn() -> u64>(clock: C, readings: Seq<(u64, u64)>) -> bool {
    forall|i: int|
        0 <= i < readings.len() ==> call_ensures(clock, (), (#[trigger] readings[i]).0)
            && call_ensures(clock, (), readings[i].1)
}

/// A sum of times after those between some pairs of readings.
pub open spec fn time_added(so_far: u64, readings: Seq<(u64, u64)>) -> u64
    decreases readings.len(),
{
    if readings.len() == 0 {
        so_far
    } else {
        capped_sum(
            time_added(so_far, readings.drop_last()),
            between_readings(readings.last().0, readings.last().1),
        )
    }
}

/// The longest time after those between some pairs of readings.
pub open spec fn time_topped(so_far: u64, readings: Seq<(u64, u64)>) -> u64
    decreases readings.len(),
{
    if readings.len() == 0 {
        so_far
    } else {
        peak(
            time_topped(so_far, readings.drop_last()),
            between_readings(readings.last().0, readings.last().1),
        )
    }
}

/// Times that are taken in one after the other are taken in as one row.
proof fn lemma_times_join(so_far: u64, first: Seq<(u64, u64)>, second: Seq<(u64, u64)>)
    ensures
        time_added(so_far, first + second) == time_added(time_added(so_far, first), second),
        time_topped(so_far, first + second) == time_topped(time_topped(so_far, first), second),
    decreases second.len(),
{
    if second.len() == 0 {
        assert(first + second =~= first);
    } else {
        assert((first + second).drop_last() =~= first + second.drop_last());
        lemma_times_join(so_far, first, second.drop_last());
    }
}

proof fn lemma_readings_join<C: Fn() -> u64>(
    clock: C,
    first: Seq<(u64, u64)>,
    second: Seq<(u64, u64)>,
)
    requires
        read_from(clock, first),
        read_from(clock, second),
    ensures
        read_from(clock, first + second),
{
    let all = first + second;
    assert forall|i: int| 0 <= i < all.len() implies call_ensures(
        clock,
        (),
        (#[trigger] all[i]).0,
    ) && call_ensures(clock, (), all[i].1) by {
        if i < first.len() {
            assert(all[i] == first[i]);
        } else {
            assert(all[i] == second[i - first.len()]);
        }
    }
}

/// What came of a simulation.
#[derive(Clone, Copy, Debug, PartialEq, Eq, Structural)]
pub enum SimOutcome {
    Verified,
    NotVerified,
    Failed,
}

/// The counts after one more search.
pub open spec fn after_search(s: ComputeStats, ns: u64, cycles: u64) -> ComputeStats {
    ComputeStats {
        spfa_calls: (s.spfa_calls + 1) as u64,
        spfa_ns_sum: capped_sum(s.spfa_ns_sum, ns),
        spfa_max_ns: peak(s.spfa_max_ns, ns),
        cycles_found_total: capped_sum(s.cycles_found_total, cycles),
        cycles_found_max: peak(s.cycles_found_max, cycles),
        ..s
    }
}

/// The counts after one more simulation.
pub open spec fn after_simulation(s: ComputeStats, ns: u64, outcome: SimOutcome) -> ComputeStats {
    ComputeStats {
        sim_calls: (s.sim_calls + 1) as u64,
        sim_verified: (s.sim_verified + if outcome == SimOutcome::Verified {
            1int
        } else {
            0
        }) as u64,
        sim_errors: (s.sim_errors + if outcome == SimOutcome::Failed {
            1int
        } else {
            0
        }) as u64,
        sim_ns_sum: capped_sum(s.sim_ns_sum, ns),
        sim_max_ns: peak(s.sim_max_ns, ns),
        ..s
    }
}

impl ComputeStats {
    /// Counts of nothing.
    pub fn new() -> (r: ComputeStats)
        ensures
            r == no_work(),
    {
        ComputeStats {
            spfa_calls: 0,
            spfa_ns_sum: 0,
            spfa_max_ns: 0,
            cycles_found_total: 0,
            cycles_found_max: 0,
            sim_calls: 0,
            sim_verified: 0,
            sim_errors: 0,
            sim_ns_sum: 0,
            sim_max_ns: 0,
        }
    }

    /// No more simulations ended well or failed than there were.
    pub open spec fn wf(&self) -> bool {
        self.sim_verified + self.sim_errors <= self.sim_calls
    }

    /// Takes in a search.
    pub fn record_search(&mut self, ns: u64, cycles: u64)
        requires
            old(self).spfa_calls < u64::MAX,
        ensures
            *final(self) == after_search(*old(self), ns, cycles),
    {
        self.spfa_calls = self.spfa_calls + 1;
        self.spfa_ns_sum = add_capped(self.spfa_ns_sum, ns);
        self.spfa_max_ns = larger_of(self.spfa_max_ns, ns);
        self.cycles_found_total = add_capped(self.cycles_found_total, cycles);
        self.cycles_found_max = larger_of(self.cycles_found_max, cycles);
    }

    /// Takes in a simulation.
    pub fn record_simulation(&mut self, ns: u64, outcome: SimOutcome)
        requires
            old(self).wf(),
            old(self).sim_calls < u64::MAX,
        ensures
            final(self).wf(),
            *final(self) == after_simulation(*old(self), ns, outcome),
    {
        self.sim_calls = self.sim_calls + 1;
        self.sim_ns_sum = add_capped(self.sim_ns_sum, ns);
        self.sim_max_ns = larger_of(self.sim_max_ns, ns);
        match outcome {
            SimOutcome::Verified => {
                self.sim_verified = self.sim_verified + 1;
            },
            SimOutcome::NotVerified => {},
            SimOutcome::Failed => {
                self.sim_errors = self.sim_errors + 1;
            },
        }
    }

    /// The mean time of a search.
    pub fn spfa_avg_ns(&self) -> (r: u64)
        ensures
            r == mean(self.spfa_ns_sum, self.spfa_calls),
    {
        if self.spfa_calls == 0 {
            0
        } else {
            self.spfa_ns_sum / self.spfa_calls
        }
    }

    /// The mean time of a simulation.
    pub fn sim_avg_ns(&self) -> (r: u64)
        ensures
            r == mean(self.sim_ns_sum, self.sim_calls),
    {
        if self.sim_calls == 0 {
            0
        } else {
            self.sim_ns_sum / self.sim_calls
        }
    }

    /// The mean number of cycles that a search finds.
    pub fn cycles_found_avg(&self) -> (r: Double)
        ensures
            r == (if self.spfa_calls == 0 {
                zero()
            } else {
                quotient(of_nat(self.cycles_found_total as nat), of_nat(self.spfa_calls as nat))
            }),
    {
        if self.spfa_calls == 0 {
            Double::zero_value()
        } else {
            Double::from_u64(self.cycles_found_total).over(Double::from_u64(self.spfa_calls))
        }
    }
}

/// The numbers that simulations go by.
#[derive(Clone, Copy, Debug)]
pub struct SimNumbers {
    pub start: Double,
    pub positive: bool,
    pub fee: Double,
    pub min_profit: Double,
}

/// Whether the numbers are those of the settings.
pub open spec fn numbers_of(n: SimNumbers, cfg: ConfigView) -> bool {
    &&& stands_for(n.start, cfg.simulation_start_amount)
    &&& n.positive == decimal_less(zero_amount(), cfg.simulation_start_amount)
    &&& stands_for(n.fee, cfg.taker_fee_rate)
    &&& stands_for(n.min_profit, cfg.min_profit_full_sim_percent)
}

/// The numbers of the settings. Where an amount has a fraction, the last digits of its number are
/// not stated.
pub fn read_numbers(cfg: &Config) -> (r: SimNumbers)
    ensures
        numbers_of(r, cfg@),
{
    SimNumbers {
        start: cfg.simulation_start_amount.to_double(),
        positive: Amount::zero().lt(&cfg.simulation_start_amount),
        fee: cfg.taker_fee_rate.to_double(),
        min_profit: cfg.min_profit_full_sim_percent.to_double(),
    }
}

/// The simulation that starts with a currency and ends in it.
pub open spec fn request_for(base: Seq<char>, n: SimNumbers) -> SimRequest {
    SimRequest {
        currency: base,
        amount: n.start,
        positive: n.positive,
        settle: Some(base),
        fee: n.fee,
        min_profit: n.min_profit,
    }
}

/// What came of simulating a cycle with a currency.
pub open spec fn outcome_with(
    c: CycleView,
    base: Seq<char>,
    n: SimNumbers,
    markets: Map<Seq<char>, MarketView>,
    store: TickerStoreView,
) -> SimOutcome {
    match simulation(c, request_for(base, n), markets, store) {
        Ok(r) => if r.verified {
            SimOutcome::Verified
        } else {
            SimOutcome::NotVerified
        },
        Err(_) => SimOutcome::Failed,
    }
}

/// How many simulations of a cycle, one with each currency, have an outcome.
pub open spec fn count_with(
    c: CycleView,
    bases: Seq<Seq<char>>,
    outcome: SimOutcome,
    n: SimNumbers,
    markets: Map<Seq<char>, MarketView>,
    store: TickerStoreView,
) -> nat
    decreases bases.len(),
{
    if bases.len() == 0 {
        0
    } else {
        count_with(c, bases.drop_last(), outcome, n, markets, store) + if outcome_with(
            c,
            bases.last(),
            n,
            markets,
            store,
        ) == outcome {
            1nat
        } else {
            0
        }
    }
}

/// How many simulations of cycles, one of each with each currency, have an outcome.
pub open spec fn count_all(
    cycles: Seq<CycleView>,
    bases: Seq<Seq<char>>,
    outcome: SimOutcome,
    n: SimNumbers,
    markets: Map<Seq<char>, MarketView>,
    store: TickerStoreView,
) -> nat
    decreases cycles.len(),
{
    if cycles.len() == 0 {
        0
    } else {
        count_all(cycles.drop_last(), bases, outcome, n, markets, store) + count_with(
            cycles.last(),
            bases,
            outcome,
            n,
            markets,
            store,
        )
    }
}

/// The cycles that are simulated: as many as are allowed.
pub open spec fn simulated(cycles: Seq<CycleView>, limit: nat) -> Seq<CycleView> {
    if cycles.len() <= limit {
        cycles
    } else {
        cycles.take(limit as int)
    }
}

/// The counts and times of simulations grow by those of some more, one for each pair of readings.
pub open spec fn grew(
    before: ComputeStats,
    after: ComputeStats,
    readings: Seq<(u64, u64)>,
    verified: nat,
    errors: nat,
) -> bool {
    &&& after.wf()
    &&& after.sim_calls == before.sim_calls + readings.len()
    &&& after.sim_ns_sum == time_added(before.sim_ns_sum, readings)
    &&& after.sim_max_ns == time_topped(before.sim_max_ns, readings)
    &&& after.sim_verified == before.sim_verified + verified
    &&& after.sim_errors == before.sim_errors + errors
    &&& after.spfa_calls == before.spfa_calls
    &&& after.spfa_ns_sum == before.spfa_ns_sum
    &&& after.spfa_max_ns == before.spfa_max_ns
    &&& after.cycles_found_total == before.cycles_found_total
    &&& after.cycles_found_max == before.cycles_found_max
}

/// Simulates a cycle with each currency, and counts what comes of it.
fn simulate_bases<C: Fn() -> u64>(
    cycle: &CycleInfo,
    bases: &Vec<String>,
    n: SimNumbers,
    tickers: &TickerStore,
    markets: &Markets,
    clock: &C,
    stats: &mut ComputeStats,
)
    requires
        tickers.wf(),
        markets.wf(),
        old(stats).wf(),
        old(stats).sim_calls + bases@.len() <= u64::MAX,
        call_requires(*clock, ()),
    ensures
        exists|readings: Seq<(u64, u64)>|
            readings.len() == bases@.len() && #[trigger] read_from(*clock, readings) && grew(
                *old(stats),
                *final(stats),
                readings,
                count_with(cycle@, texts(bases@), SimOutcome::Verified, n, markets@, tickers@),
                count_with(cycle@, texts(bases@), SimOutcome::Failed, n, markets@, tickers@),
            ),
{
    let ghost names = texts(bases@);
    let ghost begun = *stats;
    let ghost mut readings: Seq<(u64, u64)> = Seq::empty();
    let mut i: usize = 0;
    assert(names.take(0) == Seq::<Seq<char>>::empty());
    while i < bases.len()
        invariant
            i <= bases.len(),
            names == texts(bases@),
            tickers.wf(),
            markets.wf(),
            begun.sim_calls + bases@.len() <= u64::MAX,
            call_requires(*clock, ()),
            readings.len() == i,
            read_from(*clock, readings),
            grew(
                begun,
                *stats,
                readings,
                count_with(
                    cycle@,
                    names.take(i as int),
                    SimOutcome::Verified,
                    n,
                    markets@,
                    tickers@,
                ),
                count_with(
                    cycle@,
                    names.take(i as int),
                    SimOutcome::Failed,
                    n,
                    markets@,
                    tickers@,
                ),
            ),
        decreases bases.len() - i,
    {
        let base: &str = bases[i].as_str();
        let ghost head = names.take(i + 1);
        assert(head.drop_last() == names.take(i as int) && head.last() == base@);
        let from: u64 = clock();
        let r = simulate(
            cycle,
            base,
            n.start,
            n.positive,
            Some(base),
            tickers,
            markets,
            n.fee,
            n.min_profit,
        );
        let to: u64 = clock();
        let ns: u64 = time_between(from, to);
        let outcome: SimOutcome = match r {
            Ok(x) => if x.verified {
                SimOutcome::Verified
            } else {
                SimOutcome::NotVerified
            },
            Err(_) => SimOutcome::Failed,
        };
        assert(outcome == outcome_with(cycle@, base@, n, markets@, tickers@));
        stats.record_simulation(ns, outcome);
        proof {
            let more = readings.push((from, to));
            assert(more.drop_last() =~= readings);
            assert forall|j: int| 0 <= j < more.len() implies call_ensures(
                *clock,
                (),
                (#[trigger] more[j]).0,
            ) && call_ensures(*clock, (), more[j].1) by {
                if j < readings.len() {
                    assert(more[j] == readings[j]);
                }
            }
            readings = more;
        }
        i = i + 1;
    }
    assert(names.take(names.len() as int) == names);
}

/// Simulates cycles, no more of them than allowed, each with each currency.
pub fn simulate_cycles<C: Fn() -> u64>(
    cycles: &Vec<CycleInfo>,
    limit: usize,
    bases: &Vec<String>,
    n: SimNumbers,
    tickers: &TickerStore,
    markets: &Markets,
    clock: &C,
    stats: &mut ComputeStats,
)
    requires
        tickers.wf(),
        markets.wf(),
        old(stats).wf(),
        old(stats).sim_calls + limit * bases@.len() <= u64::MAX,
        call_requires(*clock, ()),
    ensures
        ({
            let some = simulated(cycle_views(cycles@), limit as nat);
            let names = texts(bases@);
            exists|readings: Seq<(u64, u64)>|
                readings.len() == some.len() * names.len() && #[trigger] read_from(
                    *clock,
                    readings,
                ) && grew(
                    *old(stats),
                    *final(stats),
                    readings,
                    count_all(some, names, SimOutcome::Verified, n, markets@, tickers@),
                    count_all(some, names, SimOutcome::Failed, n, markets@, tickers@),
                )
        }),
{
    let ghost views = cycle_views(cycles@);
    let ghost names = texts(bases@);
    let ghost begun = *stats;
    let ghost mut readings: Seq<(u64, u64)> = Seq::empty();
    let count: usize = if cycles.len() <= limit {
        cycles.len()
    } else {
        limit
    };
    let mut i: usize = 0;
    proof {
        assert(views.take(0) == Seq::<CycleView>::empty());
        assert(0 * names.len() == 0) by (nonlinear_arith);
    }
    while i < count
        invariant
            i <= count <= cycles@.len(),
            count <= limit,
            views == cycle_views(cycles@),
            names == texts(bases@),
            tickers.wf(),
            markets.wf(),
            begun.sim_calls + limit * bases@.len() <= u64::MAX,
            call_requires(*clock, ()),
            readings.len() == i as nat * names.len(),
            read_from(*clock, readings),
            grew(
                begun,
                *stats,
                readings,
                count_all(
                    views.take(i as int),
                    names,
                    SimOutcome::Verified,
                    n,
                    markets@,
                    tickers@,
                ),
                count_all(views.take(i as int), names, SimOutcome::Failed, n, markets@, tickers@),
            ),
        decreases count - i,
    {
        let ghost head = views.take(i + 1);
        proof {
            assert(head.drop_last() == views.take(i as int) && head.last() == cycles@[i as int]@);
            assert(i * names.len() + names.len() == (i + 1) * names.len()) by (nonlinear_arith);
            assert((i + 1) * names.len() <= limit * names.len()) by (nonlinear_arith)
                requires
                    i + 1 <= limit,
            ;
        }
        let ghost before = *stats;
        simulate_bases(&cycles[i], bases, n, tickers, markets, clock, stats);
        proof {
            let c = cycles@[i as int]@;
            let more = choose|more: Seq<(u64, u64)>|
                more.len() == bases@.len() && #[trigger] read_from(*clock, more) && grew(
                    before,
                    *stats,
                    more,
                    count_with(c, names, SimOutcome::Verified, n, markets@, tickers@),
                    count_with(c, names, SimOutcome::Failed, n, markets@, tickers@),
                );
            lemma_times_join(begun.sim_ns_sum, readings, more);
            lemma_times_join(begun.sim_max_ns, readings, more);
            lemma_readings_join(*clock, readings, more);
            readings = readings + more;
        }
        i = i + 1;
    }
    proof {
        let some = simulated(views, limit as nat);
        assert(some =~= views.take(count as int));
    }
}

/// The counts after passes that each find the same cycles and simulate the same ones, whatever
/// times they take.
pub open spec fn counts_after(
    s: ComputeStats,
    passes: nat,
    found: nat,
    calls: nat,
    verified: nat,
    errors: nat,
) -> bool {
    &&& s.wf()
    &&& s.spfa_calls == passes
    &&& s.cycles_found_max == (if passes == 0 {
        0
    } else {
        found
    })
    &&& s.cycles_found_total == (if passes * found <= u64::MAX {
        passes * found
    } else {
        u64::MAX as nat
    })
    &&& s.sim_calls == passes * calls
    &&& s.sim_verified == passes * verified
    &&& s.sim_errors == passes * errors
}

/// The counts and times have grown by those of one search and of simulations: one pair of readings
/// is of the search, and one of each simulation.
pub open spec fn timed_pass<C: Fn() -> u64>(
    clock: C,
    before: ComputeStats,
    after: ComputeStats,
    found: usize,
    search: Seq<(u64, u64)>,
    simulations: Seq<(u64, u64)>,
    verified: nat,
    errors: nat,
) -> bool {
    &&& search.len() == 1
    &&& read_from(clock, search)
    &&& read_from(clock, simulations)
    &&& grew(
        after_search(before, between_readings(search[0].0, search[0].1), found as u64),
        after,
        simulations,
        verified,
        errors,
    )
}

/// The counts and times have grown by those of one search and of so many simulations.
pub open spec fn passed<C: Fn() -> u64>(
    clock: C,
    before: ComputeStats,
    after: ComputeStats,
    found: usize,
    calls: nat,
    verified: nat,
    errors: nat,
) -> bool {
    exists|search: Seq<(u64, u64)>, simulations: Seq<(u64, u64)>|
        simulations.len() == calls && #[trigger] timed_pass(
            clock,
            before,
            after,
            found,
            search,
            simulations,
            verified,
            errors,
        )
}

/// The times are those between pairs of readings of a clock, one for each search and one for each
/// simulation: their sum and the longest of them.
pub open spec fn times_after<C: Fn() -> u64>(
    clock: C,
    s: ComputeStats,
    searches: Seq<(u64, u64)>,
    simulations: Seq<(u64, u64)>,
) -> bool {
    &&& read_from(clock, searches)
    &&& read_from(clock, simulations)
    &&& searches.len() == s.spfa_calls
    &&& simulations.len() == s.sim_calls
    &&& s.spfa_ns_sum == time_added(0, searches)
    &&& s.spfa_max_ns == time_topped(0, searches)
    &&& s.sim_ns_sum == time_added(0, simulations)
    &&& s.sim_max_ns == time_topped(0, simulations)
}

/// Whether the times are those between pairs of readings of a clock.
pub open spec fn timed_by<C: Fn() -> u64>(clock: C, s: ComputeStats) -> bool {
    exists|searches: Seq<(u64, u64)>, simulations: Seq<(u64, u64)>| #[trigger]
        times_after(clock, s, searches, simulations)
}

/// Searches a graph once, and simulates what it finds.
pub fn search_pass<C: Fn() -> u64>(
    graph: &Graph,
    pairs: &Vec<String>,
    tickers: &TickerStore,
    markets: &Markets,
    cfg: &Config,
    n: SimNumbers,
    limit: usize,
    clock: &C,
    stats: &mut ComputeStats,
) -> (r: Result<usize, SpfaError>)
    requires
        graph.wf(),
        tickers.wf(),
        markets.wf(),
        iteration_limit(*graph) < u64::MAX,
        old(stats).wf(),
        old(stats).spfa_calls < u64::MAX,
        old(stats).sim_calls + limit * cfg.base_assets@.len() <= u64::MAX,
        call_requires(*clock, ()),
    ensures
        match r {
            Ok(found) => {
                let cycles = findings(
                    *graph,
                    texts(pairs@),
                    cfg@.max_arbitrage_depth as nat,
                ).cycles;
                let some = simulated(cycles, limit as nat);
                let bases = cfg@.base_assets;
                &&& !overruns(*graph, cfg@.max_arbitrage_depth as nat)
                &&& found == cycles.len()
                &&& passed(
                    *clock,
                    *old(stats),
                    *final(stats),
                    found,
                    some.len() * bases.len(),
                    count_all(some, bases, SimOutcome::Verified, n, markets@, tickers@),
                    count_all(some, bases, SimOutcome::Failed, n, markets@, tickers@),
                )
            },
            Err(SpfaError::IterationLimit) => overruns(
                *graph,
                cfg@.max_arbitrage_depth as nat,
            ) && *final(stats) == *old(stats),
        },
{
    let from: u64 = clock();
    let cycles: Vec<CycleInfo> = match find_negative_cycles_spfa(
        graph,
        pairs,
        cfg.max_arbitrage_depth,
    ) {
        Ok(c) => c,
        Err(e) => {
            return Err(e);
        },
    };
    let to: u64 = clock();
    let ns: u64 = time_between(from, to);
    let found: usize = cycles.len();
    assert(cycle_views(cycles@).len() == cycles@.len());
    stats.record_search(ns, found as u64);
    let ghost searched = *stats;
    simulate_cycles(&cycles, limit, &cfg.base_assets, n, tickers, markets, clock, stats);
    proof {
        let some = simulated(cycle_views(cycles@), limit as nat);
        let bases = cfg@.base_assets;
        let verified = count_all(some, bases, SimOutcome::Verified, n, markets@, tickers@);
        let errors = count_all(some, bases, SimOutcome::Failed, n, markets@, tickers@);
        let search = seq![(from, to)];
        let simulations = choose|readings: Seq<(u64, u64)>|
            readings.len() == some.len() * bases.len() && #[trigger] read_from(*clock, readings)
                && grew(searched, *stats, readings, verified, errors);
        assert(searched == after_search(*old(stats), ns, found as u64));
        assert(timed_pass(
            *clock,
            *old(stats),
            *stats,
            found,
            search,
            simulations,
            verified,
            errors,
        ));
    }
    Ok(found)
}

/// One more pass adds one more time the same.
proof fn lemma_one_more_pass<C: Fn() -> u64>(
    clock: C,
    before: ComputeStats,
    after: ComputeStats,
    passes: nat,
    found: usize,
    calls: nat,
    verified: nat,
    errors: nat,
)
    requires
        counts_after(before, passes, found as nat, calls, verified, errors),
        passes < u64::MAX,
        passed(clock, before, after, found, calls, verified, errors),
        timed_by(clock, before),
    ensures
        counts_after(after, passes + 1, found as nat, calls, verified, errors),
        timed_by(clock, after),
{
    let (search, more) = choose|search: Seq<(u64, u64)>, more: Seq<(u64, u64)>|
        more.len() == calls && #[trigger] timed_pass(
            clock,
            before,
            after,
            found,
            search,
            more,
            verified,
            errors,
        );
    let (searches, simulations) = choose|searches: Seq<(u64, u64)>, simulations: Seq<(u64, u64)>|
        #[trigger] times_after(clock, before, searches, simulations);
    lemma_times_join(0, simulations, more);
    lemma_readings_join(clock, simulations, more);
    lemma_readings_join(clock, searches, search);
    assert((searches + search).drop_last() =~= searches);
    assert((searches + search).last() == search[0]);
    assert((passes + 1) * found == passes * found + found) by (nonlinear_arith);
    assert((passes + 1) * calls == passes * calls + calls) by (nonlinear_arith);
    assert((passes + 1) * verified == passes * verified + verified) by (nonlinear_arith);
    assert((passes + 1) * errors == passes * errors + errors) by (nonlinear_arith);
    assert(passes * found >= 0) by (nonlinear_arith)
        requires
            passes >= 0,
            found >= 0,
    ;
    assert(times_after(clock, after, searches + search, simulations + more));
}

/// How many passes a benchmark makes: as many as were asked for, and at least one.
pub open spec fn passes_of(bench_cycles: u64) -> u64 {
    if bench_cycles == 0 {
        1
    } else {
        bench_cycles
    }
}

/// How many passes a benchmark makes: as many as were asked for, and at least one.
pub fn bench_passes(bench_cycles: u64) -> (r: u64)
    ensures
        r == passes_of(bench_cycles),
{
    if bench_cycles == 0 {
        1
    } else {
        bench_cycles
    }
}

/// Searches a graph again and again, at least once, and simulates what it finds each time. The
/// weights are computed before the first search, if they are to be; every search finds the same.
pub fn run_compute_bench<C: Fn() -> u64, L: Fn(Double) -> Double>(
    graph: &mut Graph,
    tickers: &TickerStore,
    pairs: &Vec<String>,
    markets: &Markets,
    cfg: &Config,
    bench_cycles: u64,
    sim_cycle_limit: usize,
    clock: &C,
    ln: &L,
) -> (r: Result<ComputeStats, SpfaError>)
    requires
        old(graph).wf(),
        tickers.wf(),
        markets.wf(),
        iteration_limit(*old(graph)) < u64::MAX,
        passes_of(bench_cycles) * (sim_cycle_limit * cfg.base_assets@.len()) <= u64::MAX,
        call_requires(*clock, ()),
        forall|x: Double| call_requires(*ln, (x,)),
    ensures
        final(graph).wf(),
        final(graph).same_shape(old(graph)),
        final(graph).fee_multiplier == old(graph).fee_multiplier,
        !final(graph).rebuild_all,
        !old(graph).rebuild_all ==> final(graph).edges == old(graph).edges,
        old(graph).rebuild_all ==> forall|k: int|
            0 <= k < final(graph).pair_edges@.len() ==> pair_weighs(
                *ln,
                old(graph).fee_multiplier,
                #[trigger] tickers@.quote_at(k),
                final(graph).edges@[2 * k].weight,
                final(graph).edges@[2 * k + 1].weight,
            ),
        match r {
            Ok(stats) => {
                let cycles = findings(
                    *final(graph),
                    texts(pairs@),
                    cfg@.max_arbitrage_depth as nat,
                ).cycles;
                let some = simulated(cycles, sim_cycle_limit as nat);
                let bases = cfg@.base_assets;
                &&& !overruns(*final(graph), cfg@.max_arbitrage_depth as nat)
                &&& timed_by(*clock, stats)
                &&& exists|n: SimNumbers| #[trigger]
                    numbers_of(n, cfg@) && counts_after(
                        stats,
                        passes_of(bench_cycles) as nat,
                        cycles.len(),
                        some.len() * bases.len(),
                        count_all(some, bases, SimOutcome::Verified, n, markets@, tickers@),
                        count_all(some, bases, SimOutcome::Failed, n, markets@, tickers@),
                    )
            },
            Err(SpfaError::IterationLimit) => overruns(
                *final(graph),
                cfg@.max_arbitrage_depth as nat,
            ),
        },
{
    let total: u64 = bench_passes(bench_cycles);
    let n: SimNumbers = read_numbers(cfg);
    graph.maybe_rebuild_all_weights(tickers, ln);
    assert(numbers_of(n, cfg@));
    repeat_passes(graph, pairs, tickers, markets, cfg, n, sim_cycle_limit, total, clock)
}

/// There is room for one more pass.
proof fn lemma_room(i: nat, total: nat, calls: nat, most: nat)
    requires
        i < total,
        calls <= most,
    ensures
        i * calls + most <= total * most,
{
    assert(i * calls + most <= total * most) by (nonlinear_arith)
        requires
            i + 1 <= total,
            calls <= most,
    ;
}

/// Searches a graph a number of times, and simulates what it finds each time.
fn repeat_passes<C: Fn() -> u64>(
    graph: &Graph,
    pairs: &Vec<String>,
    tickers: &TickerStore,
    markets: &Markets,
    cfg: &Config,
    n: SimNumbers,
    limit: usize,
    total: u64,
    clock: &C,
) -> (r: Result<ComputeStats, SpfaError>)
    requires
        graph.wf(),
        tickers.wf(),
        markets.wf(),
        iteration_limit(*graph) < u64::MAX,
        total > 0,
        total * (limit * cfg.base_assets@.len()) <= u64::MAX,
        call_requires(*clock, ()),
    ensures
        match r {
            Ok(stats) => {
                let cycles = findings(
                    *graph,
                    texts(pairs@),
                    cfg@.max_arbitrage_depth as nat,
                ).cycles;
                let some = simulated(cycles, limit as nat);
                let bases = cfg@.base_assets;
                &&& !overruns(*graph, cfg@.max_arbitrage_depth as nat)
                &&& timed_by(*clock, stats)
                &&& counts_after(
                    stats,
                    total as nat,
                    cycles.len(),
                    some.len() * bases.len(),
                    count_all(some, bases, SimOutcome::Verified, n, markets@, tickers@),
                    count_all(some, bases, SimOutcome::Failed, n, markets@, tickers@),
                )
            },
            Err(SpfaError::IterationLimit) => overruns(*graph, cfg@.max_arbitrage_depth as nat),
        },
{
    let ghost cycles = findings(*graph, texts(pairs@), cfg@.max_arbitrage_depth as nat).cycles;
    let ghost some = simulated(cycles, limit as nat);
    let ghost bases = cfg@.base_assets;
    let ghost calls = some.len() * bases.len();
    let ghost verified = count_all(some, bases, SimOutcome::Verified, n, markets@, tickers@);
    let ghost errors = count_all(some, bases, SimOutcome::Failed, n, markets@, tickers@);
    let ghost most = limit as nat * cfg.base_assets@.len();
    let ghost over = overruns(*graph, cfg@.max_arbitrage_depth as nat);
    let mut stats: ComputeStats = ComputeStats::new();
    let mut i: u64 = 0;
    proof {
        assert(bases.len() == cfg.base_assets@.len());
        assert(0 * cycles.len() == 0 && 0 * calls == 0 && 0 * verified == 0 && 0 * errors == 0)
            by (nonlinear_arith);
        assert(calls <= most) by (nonlinear_arith)
            requires
                calls == some.len() * bases.len(),
                most == limit * bases.len(),
                some.len() <= limit,
        ;
        assert(times_after(*clock, stats, Seq::empty(), Seq::empty()));
    }
    while i < total
        invariant
            i <= total,
            graph.wf(),
            tickers.wf(),
            markets.wf(),
            iteration_limit(*graph) < u64::MAX,
            total * most <= u64::MAX,
            most == limit * cfg.base_assets@.len(),
            call_requires(*clock, ()),
            cycles == findings(*graph, texts(pairs@), cfg@.max_arbitrage_depth as nat).cycles,
            some == simulated(cycles, limit as nat),
            bases == cfg@.base_assets,
            calls == some.len() * bases.len(),
            calls <= most,
            verified == count_all(some, bases, SimOutcome::Verified, n, markets@, tickers@),
            errors == count_all(some, bases, SimOutcome::Failed, n, markets@, tickers@),
            over == overruns(*graph, cfg@.max_arbitrage_depth as nat),
            counts_after(stats, i as nat, cycles.len(), calls, verified, errors),
            timed_by(*clock, stats),
            i > 0 ==> !over,
        decreases total - i,
    {
        proof {
            lemma_room(i as nat, total as nat, calls, most);
        }
        let ghost before = stats;
        match search_pass(graph, pairs, tickers, markets, cfg, n, limit, clock, &mut stats) {
            Ok(found) => {
                proof {
                    lemma_one_more_pass(
                        *clock,
                        before,
                        stats,
                        i as nat,
                        found,
                        calls,
                        verified,
                        errors,
                    );
                }
            },
            Err(e) => {
                return Err(e);
            },
        }
        i = i + 1;
    }
    Ok(stats)
}

} // verus!
