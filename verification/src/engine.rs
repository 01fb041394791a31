//! The decisions of the running program: when to search, what to do with a cycle, and which orders
//! carry it out.
use crate::accuracy::{
    lemma_of_nat_finite, lemma_one, lemma_plain, lemma_product_monotone, lemma_product_near,
    lemma_product_one, lemma_vast, plain, unit,
};
use crate::balances::{amount_or_zero, parse_or_zero};
use crate::config::{Config, ConfigView};
use crate::decimal::{
    at_least_zero, decimal_difference, decimal_less, decimal_quotient, decimal_sum, exact_difference,
    exact_sum, fit_together, lemma_below_zero, lemma_difference_value, lemma_same_sign,
    lemma_sum_value, parsed_decimal,
    parts_of, same_value, smaller_amount, zero_amount, Amount,
};
use crate::domain::{CycleInfo, CycleView, Market, MarketView, Markets, Ticker, Trade, TradeView};
use crate::double::{
    at_most, lemma_nearest_bound, less, of_nat, one, product, whole_part, zero, Double,
};
use crate::rounding::{lemma_rounding_error_of, units};
use crate::store::{TickerStore, TickerStoreView};
use crate::text::{pair_name, pair_text};
use vstd::prelude::*;

verus! {

broadcast use vstd::string::group_string_axioms;

/// What the search loop has done, and how long it took, in seconds.
#[derive(Clone, Copy, Debug)]
pub struct PerfStatsSnapshot {
    pub cycle_count_total: u64,
    pub last_cycle_duration_sec: Double,
    pub snap_copy_duration_sec: Double,
    pub graph_build_duration_sec: Double,
    pub bf_call_duration_sec: Double,
    pub verification_duration_sec: Double,
}

/// What the search loop has done since it was started.
#[derive(Clone, Copy, Debug)]
pub struct PerfStats {
    pub start_epoch_ms: u64,
    pub cycle_count_total: u64,
    pub last_cycle_duration_sec: Double,
    pub snap_copy_duration_sec: Double,
    pub graph_build_duration_sec: Double,
    pub bf_call_duration_sec: Double,
    pub verification_duration_sec: Double,
}

/// The counts at a start.
pub open spec fn fresh_stats(start_epoch_ms: u64) -> PerfStats {
    PerfStats {
        start_epoch_ms,
        cycle_count_total: 0,
        last_cycle_duration_sec: zero(),
        snap_copy_duration_sec: zero(),
        graph_build_duration_sec: zero(),
        bf_call_duration_sec: zero(),
        verification_duration_sec: zero(),
    }
}

impl Default for PerfStats {
    fn default() -> (r: PerfStats)
        ensures
            r == fresh_stats(0),
    {
        PerfStats::started(0)
    }
}

impl PerfStats {
    /// The counts at a start.
    pub fn started(start_epoch_ms: u64) -> (r: PerfStats)
        ensures
            r == fresh_stats(start_epoch_ms),
    {
        let nothing: Double = Double::zero_value();
        PerfStats {
            start_epoch_ms,
            cycle_count_total: 0,
            last_cycle_duration_sec: nothing,
            snap_copy_duration_sec: nothing,
            graph_build_duration_sec: nothing,
            bf_call_duration_sec: nothing,
            verification_duration_sec: nothing,
        }
    }

    /// The counts without the time of the start.
    pub fn snapshot(&self) -> (r: PerfStatsSnapshot)
        ensures
            r == (PerfStatsSnapshot {
                cycle_count_total: self.cycle_count_total,
                last_cycle_duration_sec: self.last_cycle_duration_sec,
                snap_copy_duration_sec: self.snap_copy_duration_sec,
                graph_build_duration_sec: self.graph_build_duration_sec,
                bf_call_duration_sec: self.bf_call_duration_sec,
                verification_duration_sec: self.verification_duration_sec,
            }),
    {
        PerfStatsSnapshot {
            cycle_count_total: self.cycle_count_total,
            last_cycle_duration_sec: self.last_cycle_duration_sec,
            snap_copy_duration_sec: self.snap_copy_duration_sec,
            graph_build_duration_sec: self.graph_build_duration_sec,
            bf_call_duration_sec: self.bf_call_duration_sec,
            verification_duration_sec: self.verification_duration_sec,
        }
    }

    /// Takes in a pass of the loop: how long it took, and its search and its simulations.
    pub fn record_cycle(&mut self, total_sec: Double, bf_sec: Double, verify_sec: Double)
        requires
            old(self).cycle_count_total < u64::MAX,
        ensures
            *final(self) == (PerfStats {
                start_epoch_ms: old(self).start_epoch_ms,
                cycle_count_total: (old(self).cycle_count_total + 1) as u64,
                last_cycle_duration_sec: total_sec,
                snap_copy_duration_sec: zero(),
                graph_build_duration_sec: zero(),
                bf_call_duration_sec: bf_sec,
                verification_duration_sec: verify_sec,
            }),
    {
        self.cycle_count_total = self.cycle_count_total + 1;
        self.last_cycle_duration_sec = total_sec;
        self.snap_copy_duration_sec = Double::zero_value();
        self.graph_build_duration_sec = Double::zero_value();
        self.bf_call_duration_sec = bf_sec;
        self.verification_duration_sec = verify_sec;
    }
}

/// How many pairs must have a quote before the loop starts: a share of them, rounded down, and not
/// less than a minimum.
pub open spec fn warmup_target(pairs: nat, ratio: Double, min_valid: nat) -> nat {
    let share = whole_part(product(of_nat(pairs), ratio));
    let held = if share <= usize::MAX {
        share
    } else {
        usize::MAX as nat
    };
    if held < min_valid {
        min_valid
    } else {
        held
    }
}

/// How many pairs must have a quote before the loop starts.
pub fn warmup_required(pairs: usize, cfg: &Config) -> (r: usize)
    ensures
        r == warmup_target(
            pairs as nat,
            cfg@.ticker_warmup_ratio,
            cfg@.ticker_warmup_min_valid as nat,
        ),
{
    let share: u64 = Double::from_u64(pairs as u64).times(cfg.ticker_warmup_ratio).whole();
    let held: usize = if share <= usize::MAX as u64 {
        share as usize
    } else {
        usize::MAX
    };
    if held < cfg.ticker_warmup_min_valid {
        cfg.ticker_warmup_min_valid
    } else {
        held
    }
}

/// Whether the wait for quotes is over: there are enough, or the time allowed has passed. No time
/// at all stands for no end.
pub fn warmup_over(valid: usize, required: usize, waited_seconds: u64, timeout_seconds: u64) -> (r:
    bool)
    ensures
        r == (valid >= required || (timeout_seconds > 0 && waited_seconds >= timeout_seconds)),
{
    valid >= required || (timeout_seconds > 0 && waited_seconds >= timeout_seconds)
}

/// What the loop does next.
#[derive(Clone, Copy, Debug, PartialEq, Eq, Structural)]
pub enum LoopStep {
    /// It is switched off: look again after a second.
    Paused,
    /// No stream is connected: look again after a fifth of a second.
    Disconnected,
    /// No quote has changed: wait for one.
    Idle,
    /// Search with the quotes of this number.
    Search(u64),
}

/// What the loop does next.
pub open spec fn loop_step(running: bool, connected: Seq<bool>, seq: u64, last_seq: u64) -> LoopStep {
    if !running {
        LoopStep::Paused
    } else if !connected.contains(true) {
        LoopStep::Disconnected
    } else if seq == 0 || seq == last_seq {
        LoopStep::Idle
    } else {
        LoopStep::Search(seq)
    }
}

/// Whether one of the streams is connected.
fn any_connected(connected: &Vec<bool>) -> (r: bool)
    ensures
        r == connected@.contains(true),
{
    let mut i: usize = 0;
    while i < connected.len()
        invariant
            i <= connected.len(),
            forall|j: int| 0 <= j < i ==> !connected@[j],
        decreases connected.len() - i,
    {
        if connected[i] {
            assert(connected@[i as int] == true);
            return true;
        }
        i = i + 1;
    }
    false
}

/// What the loop does next, from whether it is switched on, which streams are connected, the
/// number of the latest quotes and that of the quotes searched last.
pub fn next_loop_step(running: bool, connected: &Vec<bool>, seq: u64, last_seq: u64) -> (r: LoopStep)
    ensures
        r == loop_step(running, connected@, seq, last_seq),
{
    if !running {
        LoopStep::Paused
    } else if !any_connected(connected) {
        LoopStep::Disconnected
    } else if seq == 0 || seq == last_seq {
        LoopStep::Idle
    } else {
        LoopStep::Search(seq)
    }
}

/// What is done with a simulated cycle.
#[derive(Clone, Copy, Debug, PartialEq, Eq, Structural)]
pub enum Opportunity {
    /// Its profit is too low.
    Ignore,
    /// It is told, and no more.
    Announce,
    /// It is told, and traded if nothing else is being traded and its risk allows it.
    Trade,
}

/// What is done with a simulated cycle. Trades are market orders, so that none is made where only
/// limit orders are allowed.
pub open spec fn weighed(verified: bool, cfg: ConfigView) -> Opportunity {
    if !verified {
        Opportunity::Ignore
    } else if cfg.auto_trade_enabled && !cfg.maker_only {
        Opportunity::Trade
    } else {
        Opportunity::Announce
    }
}

/// What is done with a simulated cycle.
pub fn weigh_opportunity(verified: bool, cfg: &Config) -> (r: Opportunity)
    ensures
        r == weighed(verified, cfg@),
{
    if !verified {
        Opportunity::Ignore
    } else if cfg.auto_trade_enabled && !cfg.maker_only {
        Opportunity::Trade
    } else {
        Opportunity::Announce
    }
}

/// Whether a cycle is traded: it is to be, nothing else is being traded, and its risk allows it.
pub fn settle_opportunity(decision: Opportunity, slot_free: bool, viable: bool) -> (r: bool)
    ensures
        r == (decision == Opportunity::Trade && slot_free && viable),
{
    decision == Opportunity::Trade && slot_free && viable
}

/// What the desk that decides on trades comes upon.
#[derive(Clone, Copy, Debug, PartialEq, Eq, Structural)]
pub enum DeskEvent {
    /// The loop has taken a step, and found so many cycles.
    Found { step: LoopStep, cycles: usize },
    /// The cycle in hand was simulated and weighed.
    Weighed(Opportunity),
    /// The risk of the cycle in hand was assessed.
    Assessed { viable: bool },
    /// The trades that were under way have come to their end.
    Ended,
}

/// What the desk wants next.
#[derive(Clone, Copy, Debug, PartialEq, Eq, Structural)]
pub enum DeskAction {
    /// Simulate and weigh the cycle at this place.
    Simulate(usize),
    /// Assess the risk of the cycle at this place.
    Assess(usize),
    /// Trade the cycle at this place.
    Execute(usize),
    /// No further cycle of this round is considered.
    RoundOver,
    /// Go on as before.
    Stay,
}

/// How far the desk is with a round.
#[derive(Clone, Copy, Debug, PartialEq, Eq, Structural)]
pub enum DeskPhase {
    /// No cycle is in hand.
    Resting,
    /// The cycle at this place is to be simulated and weighed.
    Simulating(usize),
    /// The risk of the cycle at this place is to be assessed.
    Assessing(usize),
}

/// The state of the desk.
pub struct DeskView {
    /// The number of cycles of this round.
    pub cycles: usize,
    pub phase: DeskPhase,
    /// Whether trades are under way.
    pub trading: bool,
}

/// The desk at its start.
pub open spec fn desk_started() -> DeskView {
    DeskView { cycles: 0, phase: DeskPhase::Resting, trading: false }
}

/// The desk with the cycle at a place in hand, or at rest where there is none.
pub open spec fn desk_turned(s: DeskView, place: int) -> (DeskAction, DeskView) {
    if place < s.cycles {
        (
            DeskAction::Simulate(place as usize),
            DeskView { phase: DeskPhase::Simulating(place as usize), ..s },
        )
    } else {
        (DeskAction::RoundOver, DeskView { phase: DeskPhase::Resting, ..s })
    }
}

/// What the desk wants after an event, and its state then. A round begins where the loop searches;
/// its cycles are taken one after the other, and the first that is traded ends it.
pub open spec fn desk_stepped(s: DeskView, event: DeskEvent) -> (DeskAction, DeskView) {
    match (event, s.phase) {
        (DeskEvent::Ended, _) => (DeskAction::Stay, DeskView { trading: false, ..s }),
        (DeskEvent::Found { step: LoopStep::Search(_), cycles }, _) => desk_turned(
            DeskView { cycles, ..s },
            0,
        ),
        (DeskEvent::Weighed(decision), DeskPhase::Simulating(i)) => if decision
            == Opportunity::Trade && !s.trading {
            (DeskAction::Assess(i), DeskView { phase: DeskPhase::Assessing(i), ..s })
        } else {
            desk_turned(s, i + 1)
        },
        (DeskEvent::Assessed { viable }, DeskPhase::Assessing(i)) => if viable && !s.trading {
            (
                DeskAction::Execute(i),
                DeskView { phase: DeskPhase::Resting, trading: true, ..s },
            )
        } else {
            desk_turned(s, i + 1)
        },
        _ => (DeskAction::RoundOver, DeskView { phase: DeskPhase::Resting, ..s }),
    }
}

/// What holds of the desk at any time: the cycle in hand is one of the round, and none is assessed
/// while trades are under way.
pub open spec fn desk_fits(s: DeskView) -> bool {
    match s.phase {
        DeskPhase::Resting => true,
        DeskPhase::Simulating(i) => i < s.cycles,
        DeskPhase::Assessing(i) => i < s.cycles && !s.trading,
    }
}

/// The desk that decides which cycle is traded.
pub struct TradeDesk {
    cycles: usize,
    phase: DeskPhase,
    trading: bool,
}

impl View for TradeDesk {
    type V = DeskView;

    closed spec fn view(&self) -> DeskView {
        DeskView { cycles: self.cycles, phase: self.phase, trading: self.trading }
    }
}

impl TradeDesk {
    /// What holds of the desk at any time.
    pub open spec fn wf(&self) -> bool {
        desk_fits(self@)
    }

    /// The desk at its start.
    pub fn new() -> (r: TradeDesk)
        ensures
            r.wf(),
            r@ == desk_started(),
    {
        TradeDesk { cycles: 0, phase: DeskPhase::Resting, trading: false }
    }

    /// Takes in an event and says what to do.
    pub fn step(&mut self, event: DeskEvent) -> (r: DeskAction)
        requires
            old(self).wf(),
        ensures
            final(self).wf(),
            (r, final(self)@) == desk_stepped(old(self)@, event),
    {
        match (event, self.phase) {
            (DeskEvent::Ended, _) => {
                self.trading = false;
                DeskAction::Stay
            },
            (DeskEvent::Found { step: LoopStep::Search(_), cycles }, _) => {
                self.cycles = cycles;
                self.turn_to(0)
            },
            (DeskEvent::Weighed(decision), DeskPhase::Simulating(i)) => {
                if decision == Opportunity::Trade && !self.trading {
                    self.phase = DeskPhase::Assessing(i);
                    DeskAction::Assess(i)
                } else {
                    self.turn_to(i + 1)
                }
            },
            (DeskEvent::Assessed { viable }, DeskPhase::Assessing(i)) => {
                if settle_opportunity(Opportunity::Trade, !self.trading, viable) {
                    self.phase = DeskPhase::Resting;
                    self.trading = true;
                    DeskAction::Execute(i)
                } else {
                    self.turn_to(i + 1)
                }
            },
            _ => {
                self.phase = DeskPhase::Resting;
                DeskAction::RoundOver
            },
        }
    }

    fn turn_to(&mut self, place: usize) -> (r: DeskAction)
        ensures
            (r, final(self)@) == desk_turned(old(self)@, place as int),
    {
        if place < self.cycles {
            self.phase = DeskPhase::Simulating(place);
            DeskAction::Simulate(place)
        } else {
            self.phase = DeskPhase::Resting;
            DeskAction::RoundOver
        }
    }
}

/// What the desk wanted after each of a row of events, and its state then.
pub open spec fn desk_run(events: Seq<DeskEvent>) -> (Seq<DeskAction>, DeskView)
    decreases events.len(),
{
    if events.len() == 0 {
        (Seq::empty(), desk_started())
    } else {
        let (actions, before) = desk_run(events.drop_last());
        let (action, after) = desk_stepped(before, events.last());
        (actions.push(action), after)
    }
}

/// Whether an event begins a round.
pub open spec fn begins_round(event: DeskEvent) -> bool {
    event matches DeskEvent::Found { step: LoopStep::Search(_), .. }
}

/// The first wants are those after the first events, and each is the one after its event.
proof fn lemma_desk_prefix(events: Seq<DeskEvent>, k: int)
    requires
        0 <= k <= events.len(),
    ensures
        desk_run(events).0.len() == events.len(),
        desk_run(events.take(k)).0 == desk_run(events).0.take(k),
        k < events.len() ==> {
            let r = desk_stepped(desk_run(events.take(k)).1, events[k]);
            desk_run(events).0[k] == r.0 && desk_run(events.take(k + 1)).1 == r.1
        },
    decreases events.len(),
{
    if events.len() == 0 {
        assert(events.take(k) =~= events);
    } else {
        let earlier = events.drop_last();
        let all = desk_run(events).0;
        lemma_desk_prefix(earlier, if k < events.len() {
            k
        } else {
            k - 1
        });
        if k == events.len() {
            assert(events.take(k) =~= events);
            assert(all.take(k) =~= all);
        } else {
            assert(earlier.take(k) =~= events.take(k));
            assert(all.take(k) =~= desk_run(earlier).0.take(k));
            if k == events.len() - 1 {
                assert(events.take(k) =~= earlier);
                assert(events.take(k + 1) =~= events);
            } else {
                assert(earlier.take(k + 1) =~= events.take(k + 1));
            }
        }
    }
}

proof fn lemma_desk_fits(events: Seq<DeskEvent>)
    ensures
        desk_fits(desk_run(events).1),
    decreases events.len(),
{
    if events.len() > 0 {
        lemma_desk_fits(events.drop_last());
    }
}

/// Trades that are under way stay so until they come to their end, and a desk at rest stays so
/// until a round begins.
proof fn lemma_desk_stays(events: Seq<DeskEvent>, i: int, j: int)
    requires
        0 <= i <= j <= events.len(),
    ensures
        desk_run(events.take(i)).1.trading && (forall|k: int|
            i <= k < j ==> #[trigger] events[k] != DeskEvent::Ended) ==> desk_run(
            events.take(j),
        ).1.trading,
        desk_run(events.take(i)).1.phase == DeskPhase::Resting && (forall|k: int|
            i <= k < j ==> !begins_round(#[trigger] events[k])) ==> desk_run(events.take(j)).1.phase
            == DeskPhase::Resting,
    decreases j - i,
{
    if i < j {
        lemma_desk_stays(events, i, j - 1);
        lemma_desk_prefix(events, j - 1);
    }
}

/// Once a cycle is traded no further cycle is considered until the next round begins.
pub proof fn lemma_trade_ends_round(events: Seq<DeskEvent>, i: int, j: int)
    requires
        0 <= i < j < events.len(),
        desk_run(events).0[i] is Execute,
        forall|k: int| i < k <= j ==> !begins_round(#[trigger] events[k]),
    ensures
        desk_run(events).0[j] == DeskAction::RoundOver || desk_run(events).0[j] == DeskAction::Stay,
{
    lemma_desk_prefix(events, i);
    lemma_desk_prefix(events, j);
    lemma_desk_stays(events, i + 1, j);
    assert(!begins_round(events[j]));
}

/// At most one cycle is traded in a round, and one at a time: between two trades the first has come
/// to its end, and a round has begun.
pub proof fn lemma_trades_apart(events: Seq<DeskEvent>, i: int, j: int)
    requires
        0 <= i < j < events.len(),
        desk_run(events).0[i] is Execute,
        desk_run(events).0[j] is Execute,
    ensures
        exists|k: int| i < k < j && #[trigger] events[k] == DeskEvent::Ended,
        exists|k: int| i < k < j && begins_round(#[trigger] events[k]),
{
    lemma_desk_prefix(events, i);
    lemma_desk_prefix(events, j);
    lemma_desk_stays(events, i + 1, j);
    assert(desk_run(events.take(i + 1)).1.trading);
}

/// The round of a cycle in hand was begun by a search, and a cycle that is assessed was to be traded.
proof fn lemma_cycle_in_hand(events: Seq<DeskEvent>)
    ensures
        desk_run(events).1.phase != DeskPhase::Resting ==> exists|m: int|
            0 <= m < events.len() && begins_round(#[trigger] events[m]),
        desk_run(events).1.phase matches DeskPhase::Assessing(c) ==> exists|k: int|
            0 <= k < events.len() && #[trigger] events[k] == DeskEvent::Weighed(Opportunity::Trade)
                && desk_run(events).0[k] == DeskAction::Assess(c) && (forall|l: int|
                k < l < events.len() ==> #[trigger] events[l] == DeskEvent::Ended) && (exists|m: int|
                0 <= m < k && begins_round(#[trigger] events[m])),
    decreases events.len(),
{
    if events.len() > 0 {
        let earlier = events.drop_last();
        let last = events.len() - 1;
        lemma_cycle_in_hand(earlier);
        lemma_desk_prefix(earlier, 0);
        if desk_run(earlier).1.phase != DeskPhase::Resting {
            let m = choose|m: int| 0 <= m < earlier.len() && begins_round(#[trigger] earlier[m]);
            assert(begins_round(events[m]));
        }
        assert(events[last] == events.last());
        match desk_run(events).1.phase {
            DeskPhase::Assessing(c) => {
                if events.last() == DeskEvent::Ended {
                    let k = choose|k: int|
                        0 <= k < earlier.len() && #[trigger] earlier[k] == DeskEvent::Weighed(
                            Opportunity::Trade,
                        ) && desk_run(earlier).0[k] == DeskAction::Assess(c) && (forall|l: int|
                            k < l < earlier.len() ==> #[trigger] earlier[l] == DeskEvent::Ended) && (
                        exists|m: int| 0 <= m < k && begins_round(#[trigger] earlier[m]));
                    let m = choose|m: int| 0 <= m < k && begins_round(#[trigger] earlier[m]);
                    assert(begins_round(events[m]));
                    assert(events[k] == earlier[k]);
                    assert forall|l: int| k < l < events.len() implies #[trigger] events[l]
                        == DeskEvent::Ended by {
                        if l < last {
                            assert(earlier[l] == DeskEvent::Ended);
                        }
                    }
                } else {
                    assert(events[last] == DeskEvent::Weighed(Opportunity::Trade));
                }
            },
            _ => {},
        }
    }
}

/// A cycle is traded only where its risk was found bearable right before, where it was weighed and
/// to be traded before that, in a round that a search began, and where nothing else is being
/// traded.
pub proof fn lemma_trades_only_what_may_be(events: Seq<DeskEvent>, j: int, c: usize)
    requires
        0 <= j < events.len(),
        desk_run(events).0[j] == DeskAction::Execute(c),
    ensures
        events[j] == (DeskEvent::Assessed { viable: true }),
        !desk_run(events.take(j)).1.trading,
        exists|k: int|
            0 <= k < j && #[trigger] events[k] == DeskEvent::Weighed(Opportunity::Trade) && desk_run(
                events,
            ).0[k] == DeskAction::Assess(c) && (forall|l: int|
                k < l < j ==> #[trigger] events[l] == DeskEvent::Ended) && (exists|m: int|
                0 <= m < k && begins_round(#[trigger] events[m])),
{
    let earlier = events.take(j);
    lemma_desk_prefix(events, j);
    lemma_desk_fits(earlier);
    lemma_cycle_in_hand(earlier);
    let k = choose|k: int|
        0 <= k < earlier.len() && #[trigger] earlier[k] == DeskEvent::Weighed(Opportunity::Trade)
            && desk_run(earlier).0[k] == DeskAction::Assess(c) && (forall|l: int|
            k < l < earlier.len() ==> #[trigger] earlier[l] == DeskEvent::Ended) && (exists|m: int|
            0 <= m < k && begins_round(#[trigger] earlier[m]));
    let m = choose|m: int| 0 <= m < k && begins_round(#[trigger] earlier[m]);
    assert(begins_round(events[m]));
    assert(events[k] == earlier[k]);
    assert(desk_run(events).0.take(j)[k] == desk_run(events).0[k]);
    assert forall|l: int| k < l < j implies #[trigger] events[l] == DeskEvent::Ended by {
        assert(earlier[l] == DeskEvent::Ended);
    }
}

/// What a trade takes: the loop searches only while it is switched on, and a cycle is to be traded
/// only where its profit was verified, trading is switched on and market orders are allowed.
pub proof fn lemma_trade_needs(
    running: bool,
    connected: Seq<bool>,
    seq: u64,
    last_seq: u64,
    verified: bool,
    cfg: ConfigView,
)
    ensures
        loop_step(running, connected, seq, last_seq) is Search <==> running && connected.contains(
            true,
        ) && seq != 0 && seq != last_seq,
        weighed(verified, cfg) == Opportunity::Trade <==> verified && cfg.auto_trade_enabled
            && !cfg.maker_only,
{
}

/// The side of an order.
#[derive(Clone, Copy, Debug, PartialEq, Eq, Structural)]
pub enum Side {
    Buy,
    Sell,
}

impl Side {
    /// The word for the side.
    pub open spec fn word(self) -> Seq<char> {
        match self {
            Side::Buy => "BUY"@,
            Side::Sell => "SELL"@,
        }
    }

    /// The word for the side.
    pub fn text(self) -> (r: &'static str)
        ensures
            r@ == self.word(),
    {
        match self {
            Side::Buy => "BUY",
            Side::Sell => "SELL",
        }
    }
}

/// A market order to be placed: a quantity of the base currency, or one of the quote currency.
#[derive(Debug)]
pub struct OrderPlan {
    pub pair: String,
    pub side: Side,
    pub quantity: Option<Amount>,
    pub quote_quantity: Option<Amount>,
}

/// What an order plan holds.
pub struct PlanView {
    pub pair: Seq<char>,
    pub side: Side,
    pub quantity: Option<(int, int)>,
    pub quote_quantity: Option<(int, int)>,
}

impl View for OrderPlan {
    type V = PlanView;

    open spec fn view(&self) -> PlanView {
        PlanView {
            pair: self.pair@,
            side: self.side,
            quantity: parts_of(self.quantity),
            quote_quantity: parts_of(self.quote_quantity),
        }
    }
}

/// Why a cycle is not carried out to its end. The numbers are places in its list of trades.
#[derive(Clone, Copy, Debug, PartialEq, Eq, Structural)]
pub enum ExecError {
    /// Only limit orders are allowed, and orders are market orders.
    MakerOnly,
    /// The balance is below the least that is traded.
    BalanceTooLow,
    /// The trade starts from another currency than the one held.
    WrongCurrency(usize),
    MissingMarket(usize),
    /// There is no price to compute the quantity by.
    NoPrice,
    /// The quantity cannot be computed from the price.
    NoQuantity,
    /// No pair joins the two currencies.
    NoRoute,
}

/// A plan as a view.
pub open spec fn plan_view(r: Result<OrderPlan, ExecError>) -> Result<PlanView, ExecError> {
    match r {
        Ok(p) => Ok(p@),
        Err(e) => Err(e),
    }
}

/// Whether a price conversion may give an amount for a price.
pub open spec fn converts<P: Fn(Double) -> Amount>(price_of: P, price: Double, amount: Amount) -> bool {
    call_ensures(price_of, (price,), amount)
}

/// The purchase for an amount: for that much of the quote currency where the settings say so, else
/// of the quantity that it buys at the asked price.
pub open spec fn buy_planned<P: Fn(Double) -> Amount>(
    r: Result<PlanView, ExecError>,
    pair: Seq<char>,
    amount: (int, int),
    store: TickerStoreView,
    cfg: ConfigView,
    price_of: P,
) -> bool {
    if cfg.use_quote_order_qty_for_buy {
        r == Ok::<PlanView, ExecError>(
            PlanView { pair, side: Side::Buy, quantity: None, quote_quantity: Some(amount) },
        )
    } else {
        match store.quote_of(pair) {
            Some(t) => if less(zero(), t.ask) {
                exists|p: Amount| #[trigger]
                    converts(price_of, t.ask, p) && r == (match decimal_quotient(amount, p@) {
                        Some(q) => Ok::<PlanView, ExecError>(
                            PlanView {
                                pair,
                                side: Side::Buy,
                                quantity: Some(q),
                                quote_quantity: None,
                            },
                        ),
                        None => Err(ExecError::NoQuantity),
                    })
            } else {
                r == Err::<PlanView, ExecError>(ExecError::NoPrice)
            },
            None => r == Err::<PlanView, ExecError>(ExecError::NoPrice),
        }
    }
}

/// The sale of an amount.
pub open spec fn sell_plan(pair: Seq<char>, amount: (int, int)) -> PlanView {
    PlanView { pair, side: Side::Sell, quantity: Some(amount), quote_quantity: None }
}

/// Plans a purchase for an amount.
fn plan_buy<P: Fn(Double) -> Amount>(
    pair: &str,
    amount: Amount,
    tickers: &TickerStore,
    cfg: &Config,
    price_of: &P,
) -> (r: Result<OrderPlan, ExecError>)
    requires
        tickers.wf(),
        forall|x: Double| call_requires(*price_of, (x,)),
    ensures
        buy_planned(plan_view(r), pair@, amount@, tickers@, cfg@, *price_of),
{
    if cfg.use_quote_order_qty_for_buy {
        return Ok(
            OrderPlan {
                pair: pair.to_owned(),
                side: Side::Buy,
                quantity: None,
                quote_quantity: Some(amount),
            },
        );
    }
    let quote: Option<Ticker> = tickers.get_by_pair(pair);
    match quote {
        Some(t) => {
            if !t.ask.gt(Double::zero_value()) {
                return Err(ExecError::NoPrice);
            }
            let price: Amount = price_of(t.ask);
            assert(converts(*price_of, t.ask, price));
            match amount.over(&price) {
                Some(q) => Ok(
                    OrderPlan {
                        pair: pair.to_owned(),
                        side: Side::Buy,
                        quantity: Some(q),
                        quote_quantity: None,
                    },
                ),
                None => Err(ExecError::NoQuantity),
            }
        },
        None => Err(ExecError::NoPrice),
    }
}

/// Plans a sale of an amount.
fn plan_sell(pair: &str, amount: Amount) -> (r: OrderPlan)
    ensures
        r@ == sell_plan(pair@, amount@),
{
    OrderPlan {
        pair: pair.to_owned(),
        side: Side::Sell,
        quantity: Some(amount),
        quote_quantity: None,
    }
}

/// The order that turns an amount of one currency into another: a purchase on the pair of the
/// two where there is one, else a sale on the pair the other way round.
pub open spec fn swap_planned<P: Fn(Double) -> Amount>(
    r: Result<PlanView, ExecError>,
    from: Seq<char>,
    to: Seq<char>,
    amount: (int, int),
    markets: Map<Seq<char>, MarketView>,
    store: TickerStoreView,
    cfg: ConfigView,
    price_of: P,
) -> bool {
    if markets.contains_key(pair_text(to, from)) {
        buy_planned(r, pair_text(to, from), amount, store, cfg, price_of)
    } else if markets.contains_key(pair_text(from, to)) {
        r == Ok::<PlanView, ExecError>(sell_plan(pair_text(from, to), amount))
    } else {
        r == Err::<PlanView, ExecError>(ExecError::NoRoute)
    }
}

/// Plans the order that turns an amount of one currency into another.
pub fn plan_swap<P: Fn(Double) -> Amount>(
    from_currency: &str,
    to_currency: &str,
    from_amount: Amount,
    markets: &Markets,
    tickers: &TickerStore,
    cfg: &Config,
    price_of: &P,
) -> (r: Result<OrderPlan, ExecError>)
    requires
        tickers.wf(),
        markets.wf(),
        forall|x: Double| call_requires(*price_of, (x,)),
    ensures
        swap_planned(
            plan_view(r),
            from_currency@,
            to_currency@,
            from_amount@,
            markets@,
            tickers@,
            cfg@,
            *price_of,
        ),
{
    let buying: String = pair_name(to_currency, from_currency);
    if markets.get(buying.as_str()).is_some() {
        return plan_buy(buying.as_str(), from_amount, tickers, cfg, price_of);
    }
    let selling: String = pair_name(from_currency, to_currency);
    if markets.get(selling.as_str()).is_some() {
        return Ok(plan_sell(selling.as_str(), from_amount));
    }
    Err(ExecError::NoRoute)
}

/// The order for the trade at place `i` of a cycle, with an amount of a currency at hand.
pub open spec fn trade_planned<P: Fn(Double) -> Amount>(
    r: Result<PlanView, ExecError>,
    t: TradeView,
    i: int,
    currency: Seq<char>,
    amount: (int, int),
    markets: Map<Seq<char>, MarketView>,
    store: TickerStoreView,
    cfg: ConfigView,
    price_of: P,
) -> bool {
    if currency != t.from {
        r == Err::<PlanView, ExecError>(ExecError::WrongCurrency(i as usize))
    } else if !markets.contains_key(t.pair) {
        r == Err::<PlanView, ExecError>(ExecError::MissingMarket(i as usize))
    } else if t.kind == "BUY"@ {
        buy_planned(r, t.pair, amount, store, cfg, price_of)
    } else {
        r == Ok::<PlanView, ExecError>(sell_plan(t.pair, amount))
    }
}

/// A cycle that is being carried out with real orders: an amount of a currency at hand, and how
/// far it has come.
pub struct PathExecution {
    cycle: CycleInfo,
    fund: String,
    amount: Amount,
    currency: String,
    place: usize,
}

/// What a cycle that is being carried out holds. Place zero is before the swap into the first
/// currency of the cycle, place `i` before its trade `i`, counted from one, and the place after
/// the last trade is before the swap back.
#[verifier::ext_equal]
pub struct PathView {
    pub cycle: CycleView,
    /// The currency that the cycle is paid from and ends in.
    pub fund: Seq<char>,
    pub amount: (int, int),
    pub currency: Seq<char>,
    pub place: nat,
}

impl View for PathExecution {
    type V = PathView;

    closed spec fn view(&self) -> PathView {
        PathView {
            cycle: self.cycle@,
            fund: self.fund@,
            amount: self.amount@,
            currency: self.currency@,
            place: self.place as nat,
        }
    }
}

/// The currency that the trades of a cycle start from.
pub open spec fn entry_of(p: PathView) -> Seq<char> {
    if p.cycle.nodes.len() > 0 {
        p.cycle.nodes[0]
    } else {
        p.fund
    }
}

/// The state past the swap into the first currency where none is needed, and past the swap back
/// where none is needed.
pub open spec fn advanced(p: PathView) -> PathView {
    let n = p.cycle.trades.len();
    let entered = if p.place == 0 && p.currency == entry_of(p) {
        1nat
    } else {
        p.place
    };
    PathView {
        place: if entered == n + 1 && p.currency == p.fund {
            n + 2
        } else {
            entered
        },
        ..p
    }
}

/// Whether a cycle that is being carried out has come to its end.
pub open spec fn at_end(p: PathView) -> bool {
    p.place > p.cycle.trades.len() + 1
}

/// The next order of a cycle that is being carried out and has not come to its end.
pub open spec fn order_planned<P: Fn(Double) -> Amount>(
    r: Result<PlanView, ExecError>,
    p: PathView,
    markets: Map<Seq<char>, MarketView>,
    store: TickerStoreView,
    cfg: ConfigView,
    price_of: P,
) -> bool {
    let n = p.cycle.trades.len();
    if p.place == 0 {
        swap_planned(r, p.currency, entry_of(p), p.amount, markets, store, cfg, price_of)
    } else if p.place <= n {
        trade_planned(
            r,
            p.cycle.trades[p.place - 1],
            p.place - 1,
            p.currency,
            p.amount,
            markets,
            store,
            cfg,
            price_of,
        )
    } else {
        swap_planned(r, p.currency, p.fund, p.amount, markets, store, cfg, price_of)
    }
}

impl PathExecution {
    /// All places fit.
    pub closed spec fn wf(&self) -> bool {
        self.place <= self.cycle.trades@.len() + 2 <= usize::MAX
    }

    /// Starts to carry out a cycle with what is there of the currency it is paid from, but with no
    /// more than the settings say. All orders are market orders, so that nothing is carried out where
    /// only limit orders are allowed.
    pub fn begin(cycle: CycleInfo, fund_currency: &str, start_balance: Amount, cfg: &Config) -> (r:
        Result<PathExecution, ExecError>)
        requires
            cycle.trades@.len() + 2 <= usize::MAX,
        ensures
            match r {
                Ok(p) => {
                    &&& p.wf()
                    &&& !cfg@.maker_only
                    &&& !decimal_less(start_balance@, cfg@.min_trade_amount_usd_equivalent)
                    &&& p@ == (PathView {
                        cycle: cycle@,
                        fund: fund_currency@,
                        amount: smaller_amount(start_balance@, cfg@.simulation_start_amount),
                        currency: fund_currency@,
                        place: 0,
                    })
                },
                Err(e) => if cfg@.maker_only {
                    e == ExecError::MakerOnly
                } else {
                    e == ExecError::BalanceTooLow && decimal_less(
                        start_balance@,
                        cfg@.min_trade_amount_usd_equivalent,
                    )
                },
            },
    {
        if cfg.maker_only {
            return Err(ExecError::MakerOnly);
        }
        if start_balance.lt(&cfg.min_trade_amount_usd_equivalent) {
            return Err(ExecError::BalanceTooLow);
        }
        Ok(
            PathExecution {
                cycle,
                fund: fund_currency.to_owned(),
                amount: start_balance.min(cfg.simulation_start_amount),
                currency: fund_currency.to_owned(),
                place: 0,
            },
        )
    }

    /// The amount at hand.
    pub fn amount(&self) -> (r: Amount)
        ensures
            r@ == self@.amount,
    {
        self.amount
    }

    /// The currency at hand.
    pub fn currency(&self) -> (r: &str)
        ensures
            r@ == self@.currency,
    {
        self.currency.as_str()
    }

    /// Whether the order that is due is a trade of the cycle, and no swap before or after it.
    pub fn in_cycle(&self) -> (r: bool)
        ensures
            r == (1 <= self@.place <= self@.cycle.trades.len()),
    {
        assert(self@.cycle.trades.len() == self.cycle.trades@.len());
        1 <= self.place && self.place <= self.cycle.trades.len()
    }

    /// The currency that the swap into the cycle or the one back leads to.
    pub fn swap_target(&self) -> (r: &str)
        ensures
            r@ == (if self@.place == 0 {
                entry_of(self@)
            } else {
                self@.fund
            }),
    {
        if self.place == 0 && self.cycle.nodes.len() > 0 {
            assert(self@.cycle.nodes[0] == self.cycle.nodes@[0]@);
            self.cycle.nodes[0].as_str()
        } else {
            assert(self@.cycle.nodes.len() == self.cycle.nodes@.len());
            self.fund.as_str()
        }
    }

    /// The next order, or none at the end.
    pub fn next_order<P: Fn(Double) -> Amount>(
        &mut self,
        markets: &Markets,
        tickers: &TickerStore,
        cfg: &Config,
        price_of: &P,
    ) -> (r: Result<Option<OrderPlan>, ExecError>)
        requires
            old(self).wf(),
            tickers.wf(),
            markets.wf(),
            forall|x: Double| call_requires(*price_of, (x,)),
        ensures
            final(self).wf(),
            final(self)@ == advanced(old(self)@),
            match r {
                Ok(None) => at_end(final(self)@),
                Ok(Some(plan)) => !at_end(final(self)@) && order_planned(
                    Ok(plan@),
                    final(self)@,
                    markets@,
                    tickers@,
                    cfg@,
                    *price_of,
                ),
                Err(e) => !at_end(final(self)@) && order_planned(
                    Err(e),
                    final(self)@,
                    markets@,
                    tickers@,
                    cfg@,
                    *price_of,
                ),
            },
    {
        let n: usize = self.cycle.trades.len();
        let entry: String = if self.cycle.nodes.len() > 0 {
            self.cycle.nodes[0].clone()
        } else {
            self.fund.clone()
        };
        assert(entry@ == entry_of(self@));
        if self.place == 0 && *self.currency.as_str() == *entry.as_str() {
            self.place = 1;
        }
        if self.place == n + 1 && *self.currency.as_str() == *self.fund.as_str() {
            self.place = n + 2;
        }
        if self.place > n + 1 {
            return Ok(None);
        }
        let plan: Result<OrderPlan, ExecError> = if self.place == 0 {
            plan_swap(
                self.currency.as_str(),
                entry.as_str(),
                self.amount,
                markets,
                tickers,
                cfg,
                price_of,
            )
        } else if self.place <= n {
            let i: usize = self.place - 1;
            let trade: &Trade = &self.cycle.trades[i];
            assert(self@.cycle.trades[i as int] == trade@);
            if !(*self.currency.as_str() == *trade.from.as_str()) {
                Err(ExecError::WrongCurrency(i))
            } else if markets.get(trade.pair.as_str()).is_none() {
                Err(ExecError::MissingMarket(i))
            } else if *trade.kind.as_str() == *"BUY" {
                plan_buy(trade.pair.as_str(), self.amount, tickers, cfg, price_of)
            } else {
                Ok(plan_sell(trade.pair.as_str(), self.amount))
            }
        } else {
            plan_swap(
                self.currency.as_str(),
                self.fund.as_str(),
                self.amount,
                markets,
                tickers,
                cfg,
                price_of,
            )
        };
        match plan {
            Ok(p) => Ok(Some(p)),
            Err(e) => Err(e),
        }
    }

    /// Takes in that the order was carried out: what is at hand now.
    pub fn filled(&mut self, received_amount: Amount, received_currency: String)
        requires
            old(self).wf(),
            !at_end(old(self)@),
        ensures
            final(self).wf(),
            final(self)@ == (PathView {
                amount: received_amount@,
                currency: received_currency@,
                place: old(self)@.place + 1,
                ..old(self)@
            }),
    {
        assert(self@.cycle.trades.len() == self.cycle.trades@.len());
        self.amount = received_amount;
        self.currency = received_currency;
        self.place = self.place + 1;
    }
}

/// A cycle that comes to its end without a swap back ends with the currency that it was paid from.
pub proof fn lemma_end_without_swap(p: PathView)
    requires
        !at_end(p),
        at_end(advanced(p)),
    ensures
        p.currency == p.fund,
{
}

/// A part of an order that was carried out.
pub struct OrderFill {
    pub commission: String,
    pub commission_asset: String,
}

/// The reply to an order, amounts as they were sent.
pub struct OrderResponse {
    pub executed_qty: String,
    pub cummulative_quote_qty: String,
    pub fills: Option<Vec<OrderFill>>,
}

/// The commission in a currency over the parts of an order. Commissions that are no amounts do not
/// count; none where the sum does not fit.
pub open spec fn commission_in(fills: Seq<OrderFill>, asset: Seq<char>) -> Option<(int, int)>
    decreases fills.len(),
{
    if fills.len() == 0 {
        Some(zero_amount())
    } else {
        match commission_in(fills.drop_last(), asset) {
            None => None,
            Some(sum) => if fills.last().commission_asset@ == asset {
                match parsed_decimal(fills.last().commission@) {
                    Ok(c) => decimal_sum(sum, c),
                    Err(_) => Some(sum),
                }
            } else {
                Some(sum)
            },
        }
    }
}

/// The commission in a currency of an order, none where it does not fit.
pub open spec fn commission_of(order: OrderResponse, asset: Seq<char>) -> Option<(int, int)> {
    match order.fills {
        Some(fills) => commission_in(fills@, asset),
        None => Some(zero_amount()),
    }
}

proof fn lemma_commission_in(fills: Seq<OrderFill>, i: int, asset: Seq<char>)
    requires
        0 <= i <= fills.len(),
        commission_in(fills.take(i), asset) is None,
    ensures
        commission_in(fills, asset) is None,
    decreases fills.len(),
{
    if i == fills.len() {
        assert(fills.take(i) == fills);
    } else {
        assert(fills.drop_last().take(i) == fills.take(i));
        lemma_commission_in(fills.drop_last(), i, asset);
    }
}

/// The commission in a currency of an order, none where it does not fit.
pub fn sum_commission_in_asset(order: &OrderResponse, asset: &str) -> (r: Option<Amount>)
    ensures
        parts_of(r) == commission_of(*order, asset@),
{
    let fills: &Vec<OrderFill> = match &order.fills {
        Some(f) => f,
        None => {
            return Some(Amount::zero());
        },
    };
    let mut sum: Amount = Amount::zero();
    let mut i: usize = 0;
    assert(fills@.take(0) == Seq::<OrderFill>::empty());
    while i < fills.len()
        invariant
            i <= fills.len(),
            commission_of(*order, asset@) == commission_in(fills@, asset@),
            commission_in(fills@.take(i as int), asset@) == Some(sum@),
        decreases fills.len() - i,
    {
        let ghost head = fills@.take(i + 1);
        assert(head.drop_last() == fills@.take(i as int) && head.last() == fills@[i as int]);
        if *fills[i].commission_asset.as_str() == *asset {
            match Amount::parse(fills[i].commission.as_str()) {
                Ok(c) => match sum.plus(&c) {
                    Some(next) => {
                        sum = next;
                    },
                    None => {
                        proof {
                            lemma_commission_in(fills@, i + 1, asset@);
                        }
                        return None;
                    },
                },
                Err(_) => {},
            }
        }
        i = i + 1;
    }
    assert(fills@.take(fills@.len() as int) == fills@);
    Some(sum)
}

/// What an order did.
#[derive(Debug)]
pub struct OrderExecResult {
    pub side: Side,
    pub spent_amount: Amount,
    pub spent_currency: String,
    pub received_amount: Amount,
    pub received_currency: String,
}

/// What an order did, as values.
pub struct ExecView {
    pub side: Side,
    pub spent_amount: (int, int),
    pub spent_currency: Seq<char>,
    pub received_amount: (int, int),
    pub received_currency: Seq<char>,
}

impl View for OrderExecResult {
    type V = ExecView;

    open spec fn view(&self) -> ExecView {
        ExecView {
            side: self.side,
            spent_amount: self.spent_amount@,
            spent_currency: self.spent_currency@,
            received_amount: self.received_amount@,
            received_currency: self.received_currency@,
        }
    }
}

/// The currency that an order brings in.
pub open spec fn received_in(side: Side, m: MarketView) -> Seq<char> {
    match side {
        Side::Buy => m.base,
        Side::Sell => m.quote,
    }
}

/// What an order brought in before the commission.
pub open spec fn gross_amount(order: OrderResponse, side: Side) -> (int, int) {
    match side {
        Side::Buy => amount_or_zero(order.executed_qty@),
        Side::Sell => amount_or_zero(order.cummulative_quote_qty@),
    }
}

/// Whether the commission of an order is no more than what it brought in, and no digit of the two
/// or of their difference is lost.
pub open spec fn commission_fits(order: OrderResponse, side: Side, m: MarketView) -> bool {
    let gross = gross_amount(order, side);
    match commission_of(order, received_in(side, m)) {
        Some(fee) => fit_together(gross, fee, exact_difference(gross, fee).0) && exact_difference(
            gross,
            fee,
        ).0 >= 0,
        None => false,
    }
}

/// What an order did, from the reply to it: what was received is less the commission in the
/// currency that was received, and not below zero. None where an amount does not fit.
pub open spec fn settled_order(order: OrderResponse, side: Side, m: MarketView) -> Option<ExecView> {
    match commission_of(order, received_in(side, m)) {
        Some(fee) => match decimal_difference(gross_amount(order, side), fee) {
            Some(net) => Some(
                ExecView {
                    side,
                    spent_amount: match side {
                        Side::Buy => amount_or_zero(order.cummulative_quote_qty@),
                        Side::Sell => amount_or_zero(order.executed_qty@),
                    },
                    spent_currency: match side {
                        Side::Buy => m.quote,
                        Side::Sell => m.base,
                    },
                    received_amount: at_least_zero(net),
                    received_currency: received_in(side, m),
                },
            ),
            None => None,
        },
        None => None,
    }
}

/// What an order did, from the reply to it.
pub fn settle_order(order: &OrderResponse, side: Side, market: &Market) -> (r: Option<
    OrderExecResult,
>)
    ensures
        match r {
            Some(x) => settled_order(*order, side, market@) == Some(x@),
            None => settled_order(*order, side, market@) is None,
        },
{
    let executed: Amount = parse_or_zero(order.executed_qty.as_str());
    let quote: Amount = parse_or_zero(order.cummulative_quote_qty.as_str());
    let (gross, spent): (Amount, Amount) = match side {
        Side::Buy => (executed, quote),
        Side::Sell => (quote, executed),
    };
    let (received, paid): (&String, &String) = match side {
        Side::Buy => (&market.base, &market.quote),
        Side::Sell => (&market.quote, &market.base),
    };
    let fee: Amount = match sum_commission_in_asset(order, received.as_str()) {
        Some(f) => f,
        None => {
            return None;
        },
    };
    match gross.minus(&fee) {
        Some(net) => Some(
            OrderExecResult {
                side,
                spent_amount: spent,
                spent_currency: paid.clone(),
                received_amount: net.or_zero(),
                received_currency: received.clone(),
            },
        ),
        None => None,
    }
}

/// What is received of an order is never below zero, whatever the commission is.
pub proof fn lemma_received_not_negative(order: OrderResponse, side: Side, m: MarketView)
    ensures
        settled_order(order, side, m) matches Some(x) ==> !decimal_less(
            x.received_amount,
            zero_amount(),
        ),
{
    if let Some(x) = settled_order(order, side, m) {
        lemma_below_zero(x.received_amount);
    }
}

/// What is received of an order is exactly what it brought in less the commission, where no digit is
/// lost and the commission is not larger.
pub proof fn lemma_received_exactly(order: OrderResponse, side: Side, m: MarketView)
    requires
        commission_fits(order, side, m),
    ensures
        settled_order(order, side, m) is Some,
        same_value(
            (settled_order(order, side, m)->0).received_amount,
            exact_difference(
                gross_amount(order, side),
                commission_of(order, received_in(side, m))->0,
            ),
        ),
{
    let gross = gross_amount(order, side);
    let fee = commission_of(order, received_in(side, m))->0;
    lemma_difference_value(gross, fee);
    let net = decimal_difference(gross, fee)->0;
    lemma_below_zero(net);
    lemma_same_sign(net, exact_difference(gross, fee));
}

/// The number of the next attempt after one that failed, counted from zero; none once all retries
/// are used up.
pub fn next_attempt(attempt: u32, max_retries: u32) -> (r: Option<u32>)
    ensures
        r == (if attempt < max_retries {
            Some((attempt + 1) as u32)
        } else {
            None
        }),
{
    if attempt < max_retries {
        Some(attempt + 1)
    } else {
        None
    }
}

/// Only the commission in the currency that was received counts: a part of an order whose commission
/// is in another currency changes nothing of what is received.
pub proof fn lemma_other_commission(fills: Seq<OrderFill>, other: OrderFill, asset: Seq<char>)
    requires
        other.commission_asset@ != asset,
    ensures
        commission_in(fills.push(other), asset) == commission_in(fills, asset),
{
    assert(fills.push(other).drop_last() =~= fills);
}

/// A commission in the currency that was received is added: where no digit is lost, one more part
/// makes the commission larger by just its own.
pub proof fn lemma_own_commission(fills: Seq<OrderFill>, own: OrderFill, asset: Seq<char>)
    requires
        own.commission_asset@ == asset,
        commission_in(fills, asset) is Some,
        parsed_decimal(own.commission@) is Ok,
        fit_together(
            commission_in(fills, asset)->0,
            parsed_decimal(own.commission@)->Ok_0,
            exact_sum(commission_in(fills, asset)->0, parsed_decimal(own.commission@)->Ok_0).0,
        ),
    ensures
        commission_in(fills.push(own), asset) matches Some(all) && same_value(
            all,
            exact_sum(commission_in(fills, asset)->0, parsed_decimal(own.commission@)->Ok_0),
        ),
{
    assert(fills.push(own).drop_last() =~= fills);
    lemma_sum_value(commission_in(fills, asset)->0, parsed_decimal(own.commission@)->Ok_0);
}

/// The start waits for no more quotes than there are pairs, nor for fewer than the least number that is
/// asked for: with a share from nothing to all of the pairs the target is between the two.
pub proof fn lemma_warmup_target(pairs: nat, ratio: Double, min_valid: nat)
    requires
        plain(ratio),
        ratio.value() <= unit(),
        pairs < 0x8_0000_0000_0000,
        pairs <= usize::MAX,
    ensures
        warmup_target(pairs, ratio, min_valid) >= min_valid,
        warmup_target(pairs, ratio, min_valid) <= pairs || warmup_target(pairs, ratio, min_valid)
            == min_valid,
{
    lemma_one();
    lemma_vast();
    let u = unit() as nat;
    let n = of_nat(pairs);
    let num = pairs * u;
    lemma_of_nat_finite(pairs);
    lemma_nearest_bound(num, 1);
    lemma_rounding_error_of(num, 1);
    lemma_product_one(n);
    lemma_product_monotone(ratio, one(), n);
    lemma_product_monotone(one(), one(), n);
    lemma_product_near(n, ratio);
    let share = product(n, ratio);
    assert(share == product(ratio, n));
    assert(at_most(share, n));
    lemma_plain(share);
    let x = units(share.magnitude());
    assert(x <= units(n.magnitude()));
    assert(units(n.magnitude()) < num + u) by {
        assert(num <= 0x8_0000_0000_0000 * u) by (nonlinear_arith)
            requires
                num == pairs * u,
                pairs < 0x8_0000_0000_0000,
        ;
    }
    assert(x / u <= pairs) by (nonlinear_arith)
        requires
            x < num + u,
            num == pairs * u,
            u > 0,
    ;
}

} // verus!
