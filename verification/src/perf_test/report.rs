//! The figures of benchmark reports: rates, and the mean, the least and the greatest over runs.
use crate::double::{
    at_most, infinity, larger, of_nat, one, quotient, smaller, sum, zero, Double,
};
use vstd::prelude::*;

verus! {

/// The bits of 1e-9: no duration counts as less.
pub const LEAST_DURATION_BITS: u64 = 0x3e11_2e0b_e826_d695;

/// The bits of 1048576, the bytes of a megabyte.
pub const MEGABYTE_BITS: u64 = 0x4130_0000_0000_0000;

/// The bits of 1000000, the microseconds of a second.
pub const MILLION_BITS: u64 = 0x412e_8480_0000_0000;

/// A duration in seconds that can be divided by.
pub fn countable_duration(seconds: Double) -> (r: Double)
    ensures
        r == larger(seconds, Double { bits: LEAST_DURATION_BITS }),
{
    seconds.max(Double { bits: LEAST_DURATION_BITS })
}

/// How many of something there were in a second.
pub fn per_second(count: u64, seconds: Double) -> (r: Double)
    ensures
        r == quotient(of_nat(count as nat), seconds),
{
    Double::from_u64(count).over(seconds)
}

/// So many bytes in megabytes.
pub open spec fn megabytes_of(bytes: u64) -> Double {
    quotient(of_nat(bytes as nat), Double { bits: MEGABYTE_BITS })
}

/// So many bytes in megabytes.
pub fn megabytes(bytes: u64) -> (r: Double)
    ensures
        r == megabytes_of(bytes),
{
    Double::from_u64(bytes).over(Double { bits: MEGABYTE_BITS })
}

/// How many megabytes there were in a second.
pub fn megabytes_per_second(bytes: u64, seconds: Double) -> (r: Double)
    ensures
        r == quotient(megabytes_of(bytes), seconds),
{
    megabytes(bytes).over(seconds)
}

/// Microseconds in seconds.
pub fn seconds_of_us(us: u64) -> (r: Double)
    ensures
        r == quotient(of_nat(us as nat), Double { bits: MILLION_BITS }),
{
    Double::from_u64(us).over(Double { bits: MILLION_BITS })
}

/// How many times faster than recorded a trace was replayed.
pub fn speedup(trace_seconds: Double, seconds: Double) -> (r: Double)
    ensures
        r == quotient(trace_seconds, seconds),
{
    trace_seconds.over(seconds)
}

/// The sum of the counts of those parts whose flag is set.
pub open spec fn flagged_sum(counts: Seq<usize>, flags: Seq<bool>) -> nat
    decreases counts.len(),
{
    if counts.len() == 0 {
        0
    } else {
        flagged_sum(counts.drop_last(), flags) + if counts.len() <= flags.len()
            && flags[counts.len() - 1] {
            counts.last() as nat
        } else {
            0
        }
    }
}

proof fn lemma_flagged_sum(counts: Seq<usize>, flags: Seq<bool>, i: int)
    requires
        0 <= i <= counts.len(),
    ensures
        flagged_sum(counts.take(i), flags) <= flagged_sum(counts, flags),
    decreases counts.len(),
{
    if i == counts.len() {
        assert(counts.take(i) =~= counts);
    } else {
        lemma_flagged_sum(counts.drop_last(), flags, i);
        assert(counts.drop_last().take(i) =~= counts.take(i));
    }
}

/// How many pairs are followed over the connections that are up.
pub fn pairs_connected(counts: &Vec<usize>, connected: &Vec<bool>) -> (r: usize)
    requires
        flagged_sum(counts@, connected@) <= usize::MAX,
    ensures
        r == flagged_sum(counts@, connected@),
{
    let mut r: usize = 0;
    let mut i: usize = 0;
    assert(counts@.take(0) == Seq::<usize>::empty());
    while i < counts.len()
        invariant
            i <= counts.len(),
            flagged_sum(counts@, connected@) <= usize::MAX,
            r == flagged_sum(counts@.take(i as int), connected@),
        decreases counts.len() - i,
    {
        proof {
            assert(counts@.take(i + 1).drop_last() == counts@.take(i as int));
            lemma_flagged_sum(counts@, connected@, i + 1);
        }
        if i < connected.len() && connected[i] {
            r = r + counts[i];
        }
        i = i + 1;
    }
    assert(counts@.take(counts@.len() as int) == counts@);
    r
}

/// The sum of numbers, added in their order.
pub open spec fn total_of(values: Seq<Double>) -> Double
    decreases values.len(),
{
    if values.len() == 0 {
        zero()
    } else {
        sum(total_of(values.drop_last()), values.last())
    }
}

/// The least of numbers, infinity of none.
pub open spec fn least_of(values: Seq<Double>) -> Double
    decreases values.len(),
{
    if values.len() == 0 {
        infinity()
    } else {
        smaller(least_of(values.drop_last()), values.last())
    }
}

/// The greatest of numbers, and at least zero.
pub open spec fn greatest_of(values: Seq<Double>) -> Double
    decreases values.len(),
{
    if values.len() == 0 {
        zero()
    } else {
        larger(greatest_of(values.drop_last()), values.last())
    }
}

/// The mean, the least and the greatest of a figure.
#[derive(Clone, Copy, Debug)]
pub struct Spread {
    pub avg: Double,
    pub min: Double,
    pub max: Double,
}

/// The mean, the least and the greatest of numbers; zero of none.
pub open spec fn spread_of(values: Seq<Double>) -> Spread {
    if values.len() == 0 {
        Spread { avg: zero(), min: zero(), max: zero() }
    } else {
        Spread {
            avg: quotient(total_of(values), larger(of_nat(values.len()), one())),
            min: least_of(values),
            max: greatest_of(values),
        }
    }
}

/// The mean, the least and the greatest of numbers.
pub fn spread(values: &Vec<Double>) -> (r: Spread)
    ensures
        r == spread_of(values@),
{
    if values.len() == 0 {
        let nothing: Double = Double::zero_value();
        return Spread { avg: nothing, min: nothing, max: nothing };
    }
    let mut total: Double = Double::zero_value();
    let mut min: Double = Double::infinity_value();
    let mut max: Double = Double::zero_value();
    let mut i: usize = 0;
    assert(values@.take(0) == Seq::<Double>::empty());
    while i < values.len()
        invariant
            i <= values.len(),
            total == total_of(values@.take(i as int)),
            min == least_of(values@.take(i as int)),
            max == greatest_of(values@.take(i as int)),
        decreases values.len() - i,
    {
        let ghost head = values@.take(i + 1);
        assert(head.drop_last() == values@.take(i as int) && head.last() == values@[i as int]);
        min = min.min(values[i]);
        max = max.max(values[i]);
        total = total.plus(values[i]);
        i = i + 1;
    }
    assert(values@.take(values@.len() as int) == values@);
    let n: Double = Double::from_u64(values.len() as u64).max(Double::one_value());
    Spread { avg: total.over(n), min, max }
}

/// Of numbers, the least one is not above any of them and the greatest one not below.
pub proof fn lemma_spread_bounds(values: Seq<Double>, i: int)
    requires
        0 <= i < values.len(),
        forall|j: int| 0 <= j < values.len() ==> !(#[trigger] values[j]).nan(),
    ensures
        at_most(least_of(values), values[i]),
        at_most(values[i], greatest_of(values)),
        !least_of(values).nan(),
        !greatest_of(values).nan(),
    decreases values.len(),
{
    let rest = values.drop_last();
    assert(!values[values.len() - 1].nan());
    assert forall|j: int| 0 <= j < rest.len() implies !(#[trigger] rest[j]).nan() by {
        assert(rest[j] == values[j]);
    }
    if i < rest.len() {
        assert(rest[i] == values[i]);
        lemma_spread_bounds(rest, i);
    } else if rest.len() > 0 {
        lemma_spread_bounds(rest, 0);
    }
}

/// The figures of a replay that are compared over runs.
#[derive(Clone, Copy, Debug)]
pub struct ReplayFigures {
    pub frames: u64,
    pub trace_duration_sec: Double,
    pub duration_sec: Double,
    pub replay_speedup_x: Double,
    pub ws_msg_per_sec: Double,
    pub ws_mb_per_sec: Double,
    pub ws_avg_parse_ns: u64,
    pub ws_max_parse_ns: u64,
    pub ws_avg_apply_ns: u64,
    pub ws_max_apply_ns: u64,
}

/// The figures of replays over runs. The frames and the duration of the trace are those of the
/// first run.
#[derive(Clone, Copy, Debug)]
pub struct ReplaySpread {
    pub frames: u64,
    pub trace_duration_sec: Double,
    pub duration_sec: Spread,
    pub replay_speedup_x: Spread,
    pub ws_msg_per_sec: Spread,
    pub ws_mb_per_sec: Spread,
    pub ws_avg_parse_ns: Spread,
    pub ws_max_parse_ns: Spread,
    pub ws_avg_apply_ns: Spread,
    pub ws_max_apply_ns: Spread,
}

/// The figures of replays over runs.
pub fn aggregate_replay_runs(runs: &Vec<ReplayFigures>) -> (r: ReplaySpread)
    ensures
        runs@.len() == 0 ==> r.frames == 0 && r.trace_duration_sec == zero(),
        runs@.len() > 0 ==> r.frames == runs@[0].frames && r.trace_duration_sec
            == runs@[0].trace_duration_sec,
        r.duration_sec == spread_of(runs@.map_values(|x: ReplayFigures| x.duration_sec)),
        r.replay_speedup_x == spread_of(runs@.map_values(|x: ReplayFigures| x.replay_speedup_x)),
        r.ws_msg_per_sec == spread_of(runs@.map_values(|x: ReplayFigures| x.ws_msg_per_sec)),
        r.ws_mb_per_sec == spread_of(runs@.map_values(|x: ReplayFigures| x.ws_mb_per_sec)),
        r.ws_avg_parse_ns == spread_of(
            runs@.map_values(|x: ReplayFigures| of_nat(x.ws_avg_parse_ns as nat)),
        ),
        r.ws_max_parse_ns == spread_of(
            runs@.map_values(|x: ReplayFigures| of_nat(x.ws_max_parse_ns as nat)),
        ),
        r.ws_avg_apply_ns == spread_of(
            runs@.map_values(|x: ReplayFigures| of_nat(x.ws_avg_apply_ns as nat)),
        ),
        r.ws_max_apply_ns == spread_of(
            runs@.map_values(|x: ReplayFigures| of_nat(x.ws_max_apply_ns as nat)),
        ),
{
    let mut durations: Vec<Double> = Vec::new();
    let mut speedups: Vec<Double> = Vec::new();
    let mut messages: Vec<Double> = Vec::new();
    let mut sizes: Vec<Double> = Vec::new();
    let mut avg_parses: Vec<Double> = Vec::new();
    let mut max_parses: Vec<Double> = Vec::new();
    let mut avg_applies: Vec<Double> = Vec::new();
    let mut max_applies: Vec<Double> = Vec::new();
    let mut i: usize = 0;
    while i < runs.len()
        invariant
            i <= runs.len(),
            durations@ == runs@.take(i as int).map_values(|x: ReplayFigures| x.duration_sec),
            speedups@ == runs@.take(i as int).map_values(|x: ReplayFigures| x.replay_speedup_x),
            messages@ == runs@.take(i as int).map_values(|x: ReplayFigures| x.ws_msg_per_sec),
            sizes@ == runs@.take(i as int).map_values(|x: ReplayFigures| x.ws_mb_per_sec),
            avg_parses@ == runs@.take(i as int).map_values(
                |x: ReplayFigures| of_nat(x.ws_avg_parse_ns as nat),
            ),
            max_parses@ == runs@.take(i as int).map_values(
                |x: ReplayFigures| of_nat(x.ws_max_parse_ns as nat),
            ),
            avg_applies@ == runs@.take(i as int).map_values(
                |x: ReplayFigures| of_nat(x.ws_avg_apply_ns as nat),
            ),
            max_applies@ == runs@.take(i as int).map_values(
                |x: ReplayFigures| of_nat(x.ws_max_apply_ns as nat),
            ),
        decreases runs.len() - i,
    {
        let run: ReplayFigures = runs[i];
        durations.push(run.duration_sec);
        speedups.push(run.replay_speedup_x);
        messages.push(run.ws_msg_per_sec);
        sizes.push(run.ws_mb_per_sec);
        avg_parses.push(Double::from_u64(run.ws_avg_parse_ns));
        max_parses.push(Double::from_u64(run.ws_max_parse_ns));
        avg_applies.push(Double::from_u64(run.ws_avg_apply_ns));
        max_applies.push(Double::from_u64(run.ws_max_apply_ns));
        i = i + 1;
    }
    assert(runs@.take(runs@.len() as int) == runs@);
    let (frames, trace_duration_sec): (u64, Double) = if runs.len() > 0 {
        (runs[0].frames, runs[0].trace_duration_sec)
    } else {
        (0, Double::zero_value())
    };
    ReplaySpread {
        frames,
        trace_duration_sec,
        duration_sec: spread(&durations),
        replay_speedup_x: spread(&speedups),
        ws_msg_per_sec: spread(&messages),
        ws_mb_per_sec: spread(&sizes),
        ws_avg_parse_ns: spread(&avg_parses),
        ws_max_parse_ns: spread(&max_parses),
        ws_avg_apply_ns: spread(&avg_applies),
        ws_max_apply_ns: spread(&max_applies),
    }
}

/// The figures of a benchmark on a replay that are compared over runs.
#[derive(Clone, Copy, Debug)]
pub struct BenchFigures {
    pub ingest_duration_sec: Double,
    pub ws_msg_per_sec: Double,
    pub ws_mb_per_sec: Double,
    pub compute_duration_sec: Double,
    pub spfa_avg_ns: u64,
    pub sim_avg_ns: u64,
    pub cycles_found_avg: Double,
}

/// The figures of benchmarks on replays over runs.
#[derive(Clone, Copy, Debug)]
pub struct BenchSpread {
    pub ingest_duration_sec: Spread,
    pub ws_msg_per_sec: Spread,
    pub ws_mb_per_sec: Spread,
    pub compute_duration_sec: Spread,
    pub spfa_avg_ns: Spread,
    pub sim_avg_ns: Spread,
    pub cycles_found_avg: Spread,
}

/// The figures of benchmarks on replays over runs.
pub fn aggregate_bench_runs(runs: &Vec<BenchFigures>) -> (r: BenchSpread)
    ensures
        r.ingest_duration_sec == spread_of(
            runs@.map_values(|x: BenchFigures| x.ingest_duration_sec),
        ),
        r.ws_msg_per_sec == spread_of(runs@.map_values(|x: BenchFigures| x.ws_msg_per_sec)),
        r.ws_mb_per_sec == spread_of(runs@.map_values(|x: BenchFigures| x.ws_mb_per_sec)),
        r.compute_duration_sec == spread_of(
            runs@.map_values(|x: BenchFigures| x.compute_duration_sec),
        ),
        r.spfa_avg_ns == spread_of(runs@.map_values(|x: BenchFigures| of_nat(x.spfa_avg_ns as nat))),
        r.sim_avg_ns == spread_of(runs@.map_values(|x: BenchFigures| of_nat(x.sim_avg_ns as nat))),
        r.cycles_found_avg == spread_of(runs@.map_values(|x: BenchFigures| x.cycles_found_avg)),
{
    let mut ingests: Vec<Double> = Vec::new();
    let mut messages: Vec<Double> = Vec::new();
    let mut sizes: Vec<Double> = Vec::new();
    let mut computes: Vec<Double> = Vec::new();
    let mut searches: Vec<Double> = Vec::new();
    let mut simulations: Vec<Double> = Vec::new();
    let mut cycles: Vec<Double> = Vec::new();
    let mut i: usize = 0;
    while i < runs.len()
        invariant
            i <= runs.len(),
            ingests@ == runs@.take(i as int).map_values(|x: BenchFigures| x.ingest_duration_sec),
            messages@ == runs@.take(i as int).map_values(|x: BenchFigures| x.ws_msg_per_sec),
            sizes@ == runs@.take(i as int).map_values(|x: BenchFigures| x.ws_mb_per_sec),
            computes@ == runs@.take(i as int).map_values(|x: BenchFigures| x.compute_duration_sec),
            searches@ == runs@.take(i as int).map_values(
                |x: BenchFigures| of_nat(x.spfa_avg_ns as nat),
            ),
            simulations@ == runs@.take(i as int).map_values(
                |x: BenchFigures| of_nat(x.sim_avg_ns as nat),
            ),
            cycles@ == runs@.take(i as int).map_values(|x: BenchFigures| x.cycles_found_avg),
        decreases runs.len() - i,
    {
        let run: BenchFigures = runs[i];
        ingests.push(run.ingest_duration_sec);
        messages.push(run.ws_msg_per_sec);
        sizes.push(run.ws_mb_per_sec);
        computes.push(run.compute_duration_sec);
        searches.push(Double::from_u64(run.spfa_avg_ns));
        simulations.push(Double::from_u64(run.sim_avg_ns));
        cycles.push(run.cycles_found_avg);
        i = i + 1;
    }
    assert(runs@.take(runs@.len() as int) == runs@);
    BenchSpread {
        ingest_duration_sec: spread(&ingests),
        ws_msg_per_sec: spread(&messages),
        ws_mb_per_sec: spread(&sizes),
        compute_duration_sec: spread(&computes),
        spfa_avg_ns: spread(&searches),
        sim_avg_ns: spread(&simulations),
        cycles_found_avg: spread(&cycles),
    }
}

/// The figures of a timed loop that are compared over runs.
#[derive(Clone, Copy, Debug)]
pub struct LoopFigures {
    pub loops_per_sec: Double,
    pub ws_msg_per_sec: Double,
    pub ws_mb_per_sec: Double,
    pub spfa_avg_ns: u64,
    pub sim_avg_ns: u64,
    pub cycles_found_avg: Double,
}

/// The figures of timed loops over runs.
#[derive(Clone, Copy, Debug)]
pub struct LoopSpread {
    pub loops_per_sec: Spread,
    pub ws_msg_per_sec: Spread,
    pub ws_mb_per_sec: Spread,
    pub spfa_avg_ns: Spread,
    pub sim_avg_ns: Spread,
    pub cycles_found_avg: Spread,
}

/// The figures of timed loops over runs.
pub fn aggregate_loop_runs(runs: &Vec<LoopFigures>) -> (r: LoopSpread)
    ensures
        r.loops_per_sec == spread_of(runs@.map_values(|x: LoopFigures| x.loops_per_sec)),
        r.ws_msg_per_sec == spread_of(runs@.map_values(|x: LoopFigures| x.ws_msg_per_sec)),
        r.ws_mb_per_sec == spread_of(runs@.map_values(|x: LoopFigures| x.ws_mb_per_sec)),
        r.spfa_avg_ns == spread_of(runs@.map_values(|x: LoopFigures| of_nat(x.spfa_avg_ns as nat))),
        r.sim_avg_ns == spread_of(runs@.map_values(|x: LoopFigures| of_nat(x.sim_avg_ns as nat))),
        r.cycles_found_avg == spread_of(runs@.map_values(|x: LoopFigures| x.cycles_found_avg)),
{
    let mut loops: Vec<Double> = Vec::new();
    let mut messages: Vec<Double> = Vec::new();
    let mut sizes: Vec<Double> = Vec::new();
    let mut searches: Vec<Double> = Vec::new();
    let mut simulations: Vec<Double> = Vec::new();
    let mut cycles: Vec<Double> = Vec::new();
    let mut i: usize = 0;
    while i < runs.len()
        invariant
            i <= runs.len(),
            loops@ == runs@.take(i as int).map_values(|x: LoopFigures| x.loops_per_sec),
            messages@ == runs@.take(i as int).map_values(|x: LoopFigures| x.ws_msg_per_sec),
            sizes@ == runs@.take(i as int).map_values(|x: LoopFigures| x.ws_mb_per_sec),
            searches@ == runs@.take(i as int).map_values(
                |x: LoopFigures| of_nat(x.spfa_avg_ns as nat),
            ),
            simulations@ == runs@.take(i as int).map_values(
                |x: LoopFigures| of_nat(x.sim_avg_ns as nat),
            ),
            cycles@ == runs@.take(i as int).map_values(|x: LoopFigures| x.cycles_found_avg),
        decreases runs.len() - i,
    {
        let run: LoopFigures = runs[i];
        loops.push(run.loops_per_sec);
        messages.push(run.ws_msg_per_sec);
        sizes.push(run.ws_mb_per_sec);
        searches.push(Double::from_u64(run.spfa_avg_ns));
        simulations.push(Double::from_u64(run.sim_avg_ns));
        cycles.push(run.cycles_found_avg);
        i = i + 1;
    }
    assert(runs@.take(runs@.len() as int) == runs@);
    LoopSpread {
        loops_per_sec: spread(&loops),
        ws_msg_per_sec: spread(&messages),
        ws_mb_per_sec: spread(&sizes),
        spfa_avg_ns: spread(&searches),
        sim_avg_ns: spread(&simulations),
        cycles_found_avg: spread(&cycles),
    }
}

/// The least and the greatest of numbers are among them: the least one where there are any that are
/// not infinite, the greatest one where any is above zero.
pub proof fn lemma_spread_attained(values: Seq<Double>)
    requires
        forall|j: int| 0 <= j < values.len() ==> !(#[trigger] values[j]).nan(),
    ensures
        least_of(values) == infinity() || values.contains(least_of(values)),
        greatest_of(values) == zero() || values.contains(greatest_of(values)),
    decreases values.len(),
{
    if values.len() > 0 {
        let rest = values.drop_last();
        assert forall|j: int| 0 <= j < rest.len() implies !(#[trigger] rest[j]).nan() by {
            assert(rest[j] == values[j]);
        }
        lemma_spread_attained(rest);
        assert(values[values.len() - 1] == values.last());
        if rest.contains(least_of(rest)) {
            let i = choose|i: int| 0 <= i < rest.len() && rest[i] == least_of(rest);
            assert(values[i] == least_of(rest));
        }
        if rest.contains(greatest_of(rest)) {
            let i = choose|i: int| 0 <= i < rest.len() && rest[i] == greatest_of(rest);
            assert(values[i] == greatest_of(rest));
        }
    }
}

} // verus!
