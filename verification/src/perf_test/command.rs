//! What a benchmark run is asked to do, by the arguments of the program and by variables.
use crate::config::{affirms, is_affirmative};
use crate::text::{parse_u64, parsed_u64, texts, trimmed};
use vstd::prelude::*;

verus! {

broadcast use vstd::string::group_string_axioms;

/// Whether an argument asks for benchmarks.
pub open spec fn is_mode(arg: Seq<char>) -> bool {
    arg == "perf-test"@ || arg == "--perf-test"@
}

/// The arguments after the first one that asks for benchmarks; none where none does.
pub open spec fn args_after_mode(args: Seq<Seq<char>>) -> Option<Seq<Seq<char>>>
    decreases args.len(),
{
    if args.len() == 0 {
        None
    } else if is_mode(args[0]) {
        Some(args.skip(1))
    } else {
        args_after_mode(args.skip(1))
    }
}

/// The place after the first argument that asks for benchmarks.
fn after_mode(args: &Vec<String>) -> (r: Option<usize>)
    ensures
        match r {
            Some(i) => 0 < i <= args@.len() && args_after_mode(texts(args@)) == Some(
                texts(args@).skip(i as int),
            ),
            None => args_after_mode(texts(args@)) is None,
        },
{
    let ghost all = texts(args@);
    let mut i: usize = 0;
    assert(all.skip(0) =~= all);
    while i < args.len()
        invariant
            i <= args.len(),
            all == texts(args@),
            args_after_mode(all) == args_after_mode(all.skip(i as int)),
        decreases args.len() - i,
    {
        let a: &str = args[i].as_str();
        let ghost rest = all.skip(i as int);
        assert(rest[0] == a@ && rest.skip(1) =~= all.skip(i + 1));
        if *a == *"perf-test" || *a == *"--perf-test" {
            return Some(i + 1);
        }
        i = i + 1;
    }
    None
}

/// Whether the arguments ask for benchmarks.
pub fn is_perf_test_mode(args: &Vec<String>) -> (r: bool)
    ensures
        r == args_after_mode(texts(args@)) is Some,
{
    after_mode(args).is_some()
}

/// The arguments from a place on.
fn args_from(args: &Vec<String>, from: usize) -> (r: Vec<String>)
    requires
        from <= args@.len(),
    ensures
        texts(r@) == texts(args@).skip(from as int),
{
    let mut r: Vec<String> = Vec::new();
    let mut i: usize = from;
    while i < args.len()
        invariant
            from <= i <= args@.len(),
            r.len() == i - from,
            forall|j: int| 0 <= j < r@.len() ==> (#[trigger] r@[j])@ == args@[from + j]@,
        decreases args.len() - i,
    {
        r.push(args[i].clone());
        i = i + 1;
    }
    assert(texts(r@) =~= texts(args@).skip(from as int));
    r
}

/// The arguments after the first one that asks for benchmarks.
pub open spec fn subargs_of(args: Seq<Seq<char>>) -> Seq<Seq<char>> {
    match args_after_mode(args) {
        Some(rest) => rest,
        None => Seq::empty(),
    }
}

/// The arguments after the first one that asks for benchmarks.
pub fn perf_test_subargs(args: &Vec<String>) -> (r: Vec<String>)
    ensures
        texts(r@) == subargs_of(texts(args@)),
{
    match after_mode(args) {
        Some(i) => args_from(args, i),
        None => {
            let r: Vec<String> = Vec::new();
            assert(texts(r@) =~= Seq::<Seq<char>>::empty());
            r
        },
    }
}

/// What is to be run, and the path of the trace where it is given.
#[derive(Debug)]
pub enum PerfAction {
    /// A replay, if there is a trace where one is expected.
    Default,
    Live,
    Record(Option<String>),
    Replay(Option<String>),
    Loop(Option<String>),
    Help,
    /// A replay, if there is a trace at this path.
    Path(String),
}

/// What is to be run, as values.
pub enum ActionView {
    Default,
    Live,
    Record(Option<Seq<char>>),
    Replay(Option<Seq<char>>),
    Loop(Option<Seq<char>>),
    Help,
    Path(Seq<char>),
}

/// A text that may be missing.
pub open spec fn optional_text(text: Option<String>) -> Option<Seq<char>> {
    match text {
        Some(t) => Some(t@),
        None => None,
    }
}

impl View for PerfAction {
    type V = ActionView;

    open spec fn view(&self) -> ActionView {
        match *self {
            PerfAction::Default => ActionView::Default,
            PerfAction::Live => ActionView::Live,
            PerfAction::Record(p) => ActionView::Record(optional_text(p)),
            PerfAction::Replay(p) => ActionView::Replay(optional_text(p)),
            PerfAction::Loop(p) => ActionView::Loop(optional_text(p)),
            PerfAction::Help => ActionView::Help,
            PerfAction::Path(p) => ActionView::Path(p@),
        }
    }
}

/// The second of some arguments.
pub open spec fn second_of(args: Seq<Seq<char>>) -> Option<Seq<char>> {
    if args.len() > 1 {
        Some(args[1])
    } else {
        None
    }
}

/// What arguments ask for. The loop is no part of the small benchmarks.
pub open spec fn action_of(args: Seq<Seq<char>>, micro: bool) -> ActionView {
    if args.len() == 0 {
        ActionView::Default
    } else if args[0] == "live"@ {
        ActionView::Live
    } else if args[0] == "record"@ {
        ActionView::Record(second_of(args))
    } else if args[0] == "replay"@ {
        ActionView::Replay(second_of(args))
    } else if args[0] == "loop"@ && !micro {
        ActionView::Loop(second_of(args))
    } else if args[0] == "help"@ || args[0] == "-h"@ || args[0] == "--help"@ {
        ActionView::Help
    } else {
        ActionView::Path(args[0])
    }
}

/// The second of some arguments.
fn second_arg(args: &Vec<String>) -> (r: Option<String>)
    ensures
        optional_text(r) == second_of(texts(args@)),
{
    if args.len() > 1 {
        Some(args[1].clone())
    } else {
        None
    }
}

/// What arguments ask for.
fn parse_action(args: &Vec<String>, micro: bool) -> (r: PerfAction)
    ensures
        r@ == action_of(texts(args@), micro),
{
    assert(texts(args@).len() == args@.len());
    if args.len() == 0 {
        return PerfAction::Default;
    }
    let a: &str = args[0].as_str();
    assert(texts(args@)[0] == a@);
    if *a == *"live" {
        PerfAction::Live
    } else if *a == *"record" {
        PerfAction::Record(second_arg(args))
    } else if *a == *"replay" {
        PerfAction::Replay(second_arg(args))
    } else if *a == *"loop" && !micro {
        PerfAction::Loop(second_arg(args))
    } else if *a == *"help" || *a == *"-h" || *a == *"--help" {
        PerfAction::Help
    } else {
        PerfAction::Path(args[0].clone())
    }
}

/// What a run is asked to do: whether only the intake of messages is measured, and what.
#[derive(Debug)]
pub struct PerfCommand {
    pub micro: bool,
    pub action: PerfAction,
}

/// Whether the small benchmarks are asked for.
pub open spec fn asks_micro(subargs: Seq<Seq<char>>) -> bool {
    subargs.len() > 0 && subargs[0] == "micro"@
}

/// What the arguments of the program ask for.
pub fn parse_perf_command(args: &Vec<String>) -> (r: PerfCommand)
    ensures
        ({
            let sub = subargs_of(texts(args@));
            &&& r.micro == asks_micro(sub)
            &&& r.action@ == action_of(
                if asks_micro(sub) {
                    sub.skip(1)
                } else {
                    sub
                },
                r.micro,
            )
        }),
{
    let sub: Vec<String> = perf_test_subargs(args);
    assert(texts(sub@).len() == sub@.len());
    if sub.len() > 0 && *sub[0].as_str() == *"micro" {
        assert(texts(sub@)[0] == sub@[0]@);
        let rest: Vec<String> = args_from(&sub, 1);
        PerfCommand { micro: true, action: parse_action(&rest, true) }
    } else {
        assert(sub@.len() > 0 ==> texts(sub@)[0] == sub@[0]@);
        PerfCommand { micro: false, action: parse_action(&sub, false) }
    }
}

/// The path of the trace: the given one, else that of a variable, else the usual one.
pub fn trace_path(given: Option<String>, variable: Option<String>) -> (r: String)
    ensures
        r@ == (match optional_text(given) {
            Some(p) => p,
            None => match optional_text(variable) {
                Some(p) => p,
                None => "perf_traces/book_ticker.jsonl"@,
            },
        }),
{
    match given {
        Some(p) => p,
        None => match variable {
            Some(p) => p,
            None => "perf_traces/book_ticker.jsonl".to_owned(),
        },
    }
}

/// The values of the variables of benchmarks, where they are set.
pub struct PerfValues {
    pub duration_sec: Option<String>,
    pub max_pairs: Option<String>,
    pub repeat: Option<String>,
    pub bench_cycles: Option<String>,
    pub sim_cycle_limit: Option<String>,
    pub loop_duration_sec: Option<String>,
    pub loop_warmup_frames: Option<String>,
    pub replay_pace: Option<String>,
    pub replay_limit: Option<String>,
}

/// What benchmarks go by.
#[derive(Clone, Copy, Debug)]
pub struct PerfSettings {
    pub duration_sec: u64,
    pub max_pairs: Option<usize>,
    pub repeat: usize,
    pub bench_cycles: u64,
    pub sim_cycle_limit: usize,
    pub loop_duration_sec: u64,
    pub loop_warmup_frames: u64,
    pub replay_pace: bool,
    /// The most frames to replay; none for all.
    pub replay_limit: Option<u64>,
}

/// The number that a variable holds.
pub open spec fn number_in(value: Option<String>) -> Option<u64> {
    match value {
        Some(v) => parsed_u64(trimmed(v@)),
        None => None,
    }
}

/// The number that a variable holds, or another.
pub open spec fn number_or(value: Option<String>, otherwise: u64) -> u64 {
    match number_in(value) {
        Some(n) => n,
        None => otherwise,
    }
}

/// A number held between two others.
pub open spec fn held_between(n: u64, least: u64, most: u64) -> u64 {
    if n < least {
        least
    } else if n > most {
        most
    } else {
        n
    }
}

/// A number held to the range of `usize`.
pub open spec fn held_to_usize(n: u64) -> usize {
    if n <= usize::MAX {
        n as usize
    } else {
        usize::MAX
    }
}

/// What benchmarks go by, from the values of variables.
pub open spec fn perf_settings(v: PerfValues) -> PerfSettings {
    PerfSettings {
        duration_sec: number_or(v.duration_sec, 100),
        max_pairs: match number_in(v.max_pairs) {
            Some(n) => Some(held_to_usize(n)),
            None => None,
        },
        repeat: held_between(number_or(v.repeat, 1), 1, 1000) as usize,
        bench_cycles: held_between(number_or(v.bench_cycles, 50), 1, u64::MAX),
        sim_cycle_limit: held_to_usize(number_or(v.sim_cycle_limit, 50)),
        loop_duration_sec: held_between(number_or(v.loop_duration_sec, 30), 1, u64::MAX),
        loop_warmup_frames: number_or(v.loop_warmup_frames, 100_000),
        replay_pace: match v.replay_pace {
            Some(p) => affirms(p@),
            None => false,
        },
        replay_limit: match number_in(v.replay_limit) {
            Some(n) => if n == 0 {
                None
            } else {
                Some(n)
            },
            None => None,
        },
    }
}

/// The number that a variable holds.
fn read_number(value: &Option<String>) -> (r: Option<u64>)
    ensures
        r == number_in(*value),
{
    match value {
        Some(v) => parse_u64(v.as_str().trim()),
        None => None,
    }
}

/// The number that a variable holds, or another.
fn read_number_or(value: &Option<String>, otherwise: u64) -> (r: u64)
    ensures
        r == number_or(*value, otherwise),
{
    match read_number(value) {
        Some(n) => n,
        None => otherwise,
    }
}

/// A number held between two others.
fn hold(n: u64, least: u64, most: u64) -> (r: u64)
    ensures
        r == held_between(n, least, most),
{
    if n < least {
        least
    } else if n > most {
        most
    } else {
        n
    }
}

/// A number held to the range of `usize`.
fn to_usize(n: u64) -> (r: usize)
    ensures
        r == held_to_usize(n),
{
    if n <= usize::MAX as u64 {
        n as usize
    } else {
        usize::MAX
    }
}

/// What benchmarks go by, from the values of variables.
pub fn read_perf_settings(values: &PerfValues) -> (r: PerfSettings)
    ensures
        r == perf_settings(*values),
{
    PerfSettings {
        duration_sec: read_number_or(&values.duration_sec, 100),
        max_pairs: match read_number(&values.max_pairs) {
            Some(n) => Some(to_usize(n)),
            None => None,
        },
        repeat: hold(read_number_or(&values.repeat, 1), 1, 1000) as usize,
        bench_cycles: hold(read_number_or(&values.bench_cycles, 50), 1, 0xffff_ffff_ffff_ffff),
        sim_cycle_limit: to_usize(read_number_or(&values.sim_cycle_limit, 50)),
        loop_duration_sec: hold(
            read_number_or(&values.loop_duration_sec, 30),
            1,
            0xffff_ffff_ffff_ffff,
        ),
        loop_warmup_frames: read_number_or(&values.loop_warmup_frames, 100_000),
        replay_pace: match &values.replay_pace {
            Some(p) => is_affirmative(p.as_str()),
            None => false,
        },
        replay_limit: match read_number(&values.replay_limit) {
            Some(n) => if n == 0 {
                None
            } else {
                Some(n)
            },
            None => None,
        },
    }
}

} // verus!
