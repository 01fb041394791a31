//! What to do with each line of a trace that is replayed: once through, or over and over for a set
//! time after a warm-up.
use crate::perf::{after_message, no_messages, PerfCounters};
use crate::perf_test::bench::{no_work, passed, ComputeStats};
use crate::perf_test::trace::{
    countable, no_frames, one_more, pace_wait, pace_wait_us, FrameTotals,
};
use vstd::prelude::*;

verus! {

/// Whether frames were counted, and as many as are allowed.
pub open spec fn limit_met(totals: FrameTotals, limit: Option<u64>) -> bool {
    &&& totals.frames > 0
    &&& limit matches Some(n) && totals.frames >= n
}

/// What a replay that goes through a trace once comes upon.
#[derive(Clone, Copy, Debug, PartialEq, Eq, Structural)]
pub enum IntakeEvent {
    /// A frame of so many bytes, taken so many microseconds into the recording, when the replay has
    /// run for so many microseconds.
    Frame { t_us: u64, size: u64, elapsed_us: u64 },
    /// A line that is no frame.
    OtherLine,
    /// The end of the trace, or nothing more is to be read.
    End,
}

/// What a replay that goes through a trace once does next.
#[derive(Clone, Copy, Debug, PartialEq, Eq, Structural)]
pub enum IntakeAction {
    /// Read on.
    Read,
    /// Wait for so many microseconds, then take the frame in.
    Take { wait_us: u64 },
    /// The replay is done.
    Finish,
}

/// How far a replay that goes through a trace once is.
pub struct IntakeView {
    pub pace: bool,
    pub limit: Option<u64>,
    pub totals: FrameTotals,
    pub done: bool,
}

/// The answer to an event, and how far the replay then is: each frame is taken in, at the pace of
/// the recording where that is kept, until the trace ends or the limit is met.
pub open spec fn intake_stepped(s: IntakeView, event: IntakeEvent) -> (IntakeAction, IntakeView) {
    if s.done || limit_met(s.totals, s.limit) {
        (IntakeAction::Finish, IntakeView { done: true, ..s })
    } else {
        match event {
            IntakeEvent::Frame { t_us, size, elapsed_us } => (
                IntakeAction::Take { wait_us: pace_wait(s.pace, t_us, elapsed_us) },
                IntakeView { totals: one_more(s.totals, t_us, size), ..s },
            ),
            IntakeEvent::OtherLine => (IntakeAction::Read, s),
            IntakeEvent::End => (IntakeAction::Finish, IntakeView { done: true, ..s }),
        }
    }
}

/// Whether the totals have room for what an event adds to them.
pub open spec fn intake_room(s: IntakeView, event: IntakeEvent) -> bool {
    !s.done && !limit_met(s.totals, s.limit) ==> (event matches IntakeEvent::Frame { size, .. }
        ==> countable(s.totals, size))
}

/// A replay that goes through a trace once.
pub struct IntakeReplay {
    pace: bool,
    limit: Option<u64>,
    totals: FrameTotals,
    done: bool,
}

impl View for IntakeReplay {
    type V = IntakeView;

    closed spec fn view(&self) -> IntakeView {
        IntakeView { pace: self.pace, limit: self.limit, totals: self.totals, done: self.done }
    }
}

/// A replay that goes through a trace once, at its start.
pub open spec fn intake_started(pace: bool, limit: Option<u64>) -> IntakeView {
    IntakeView { pace, limit, totals: no_frames(), done: false }
}

impl IntakeReplay {
    /// A replay at its start.
    pub fn new(pace: bool, limit: Option<u64>) -> (r: IntakeReplay)
        ensures
            r@ == intake_started(pace, limit),
    {
        IntakeReplay { pace, limit, totals: FrameTotals::new(), done: false }
    }

    /// Whether as many frames were taken in as are allowed.
    pub fn is_full(&self) -> (r: bool)
        ensures
            r == limit_met(self@.totals, self@.limit),
    {
        self.totals.frames > 0 && self.totals.is_full(self.limit)
    }

    /// Whether the totals have room for what an event adds to them.
    pub fn has_room(&self, event: IntakeEvent) -> (r: bool)
        ensures
            r == intake_room(self@, event),
    {
        if self.done || self.is_full() {
            return true;
        }
        match event {
            IntakeEvent::Frame { size, .. } => self.totals.has_room(size),
            _ => true,
        }
    }

    /// Takes in an event and says what to do.
    pub fn step(&mut self, event: IntakeEvent) -> (r: IntakeAction)
        requires
            intake_room(old(self)@, event),
        ensures
            (r, final(self)@) == intake_stepped(old(self)@, event),
    {
        if self.done || self.is_full() {
            self.done = true;
            return IntakeAction::Finish;
        }
        match event {
            IntakeEvent::Frame { t_us, size, elapsed_us } => {
                self.totals.count(t_us, size);
                IntakeAction::Take { wait_us: pace_wait_us(self.pace, t_us, elapsed_us) }
            },
            IntakeEvent::OtherLine => IntakeAction::Read,
            IntakeEvent::End => {
                self.done = true;
                IntakeAction::Finish
            },
        }
    }

    /// What was taken in so far.
    pub fn totals(&self) -> (r: FrameTotals)
        ensures
            r == self@.totals,
    {
        self.totals
    }
}

/// The answers to a row of events, and how far the replay then is.
pub open spec fn intake_run(s: IntakeView, events: Seq<IntakeEvent>) -> (
    Seq<IntakeAction>,
    IntakeView,
)
    decreases events.len(),
{
    if events.len() == 0 {
        (Seq::empty(), s)
    } else {
        let (actions, before) = intake_run(s, events.drop_last());
        let (action, after) = intake_stepped(before, events.last());
        (actions.push(action), after)
    }
}

/// How many of a row of events are frames.
pub open spec fn frames_among(events: Seq<IntakeEvent>) -> nat
    decreases events.len(),
{
    if events.len() == 0 {
        0
    } else {
        frames_among(events.drop_last()) + if events.last() is Frame {
            1nat
        } else {
            0
        }
    }
}

/// The bytes of the frames among a row of events.
pub open spec fn bytes_among(events: Seq<IntakeEvent>) -> nat
    decreases events.len(),
{
    if events.len() == 0 {
        0
    } else {
        bytes_among(events.drop_last()) + match events.last() {
            IntakeEvent::Frame { size, .. } => size as nat,
            _ => 0,
        }
    }
}

/// The latest time of the frames among a row of events, zero of none.
pub open spec fn latest_among(events: Seq<IntakeEvent>) -> u64
    decreases events.len(),
{
    if events.len() == 0 {
        0
    } else {
        let rest = latest_among(events.drop_last());
        match events.last() {
            IntakeEvent::Frame { t_us, .. } => if rest < t_us {
                t_us
            } else {
                rest
            },
            _ => rest,
        }
    }
}

/// The events up to the frame that meets the limit, or all of them where none does.
pub open spec fn up_to_limit(events: Seq<IntakeEvent>, limit: Option<u64>) -> Seq<IntakeEvent>
    decreases events.len(),
{
    match limit {
        Some(n) if events.len() > 0 && frames_among(events.drop_last()) >= n => up_to_limit(
            events.drop_last(),
            limit,
        ),
        _ => events,
    }
}

/// Before the trace ends every frame is taken in, up to the limit and none beyond it. The totals are
/// those of exactly these frames: their number, the sum of their bytes and their latest time. Their
/// number is that of all frames, or the limit where that is less. The replay is done before the end
/// only where the limit is met.
pub proof fn lemma_every_frame_taken(pace: bool, limit: Option<u64>, events: Seq<IntakeEvent>)
    requires
        limit != Some(0u64),
        bytes_among(up_to_limit(events, limit)) <= u64::MAX,
        frames_among(up_to_limit(events, limit)) <= u64::MAX,
        forall|i: int| 0 <= i < events.len() ==> #[trigger] events[i] != IntakeEvent::End,
    ensures
        ({
            let after = intake_run(intake_started(pace, limit), events).1;
            let taken = up_to_limit(events, limit);
            &&& after.totals.frames == frames_among(taken)
            &&& after.totals.bytes == bytes_among(taken)
            &&& after.totals.last_t_us == latest_among(taken)
            &&& frames_among(taken) == (match limit {
                Some(n) if frames_among(events) > n => n as nat,
                _ => frames_among(events),
            })
            &&& after.done ==> limit_met(after.totals, limit)
        }),
    decreases events.len(),
{
    if events.len() > 0 {
        let earlier = events.drop_last();
        assert forall|i: int| 0 <= i < earlier.len() implies #[trigger] earlier[i]
            != IntakeEvent::End by {
            assert(events[i] != IntakeEvent::End);
        }
        assert(events[events.len() - 1] != IntakeEvent::End);
        lemma_up_to_limit(earlier, limit);
        lemma_every_frame_taken(pace, limit, earlier);
        lemma_intake_keeps(intake_started(pace, limit), earlier);
    }
}

/// Where the limit is not met before the last event, all events count.
proof fn lemma_up_to_limit(events: Seq<IntakeEvent>, limit: Option<u64>)
    requires
        limit != Some(0u64),
    ensures
        (limit matches Some(n) ==> frames_among(events) < n) ==> up_to_limit(events, limit)
            == events,
        up_to_limit(events, limit).len() <= events.len(),
    decreases events.len(),
{
    if events.len() > 0 {
        lemma_up_to_limit(events.drop_last(), limit);
    }
}

/// Whether two rows of events are those of the same lines, whenever they were read.
pub open spec fn same_lines(first: Seq<IntakeEvent>, second: Seq<IntakeEvent>) -> bool {
    &&& first.len() == second.len()
    &&& forall|i: int| 0 <= i < first.len() ==> same_line(#[trigger] first[i], second[i])
}

/// Whether two events are those of the same line.
pub open spec fn same_line(first: IntakeEvent, second: IntakeEvent) -> bool {
    match (first, second) {
        (
            IntakeEvent::Frame { t_us, size, .. },
            IntakeEvent::Frame { t_us: other_t_us, size: other_size, .. },
        ) => t_us == other_t_us && size == other_size,
        _ => first == second,
    }
}

/// What is taken in does not depend on the pace or on the clock: with the same lines and the same
/// limit the same frames are taken in, and the totals are the same.
pub proof fn lemma_totals_without_time(
    pace: bool,
    other_pace: bool,
    limit: Option<u64>,
    events: Seq<IntakeEvent>,
    other: Seq<IntakeEvent>,
)
    requires
        same_lines(events, other),
    ensures
        ({
            let (actions, after) = intake_run(intake_started(pace, limit), events);
            let (other_actions, other_after) = intake_run(
                intake_started(other_pace, limit),
                other,
            );
            &&& after.totals == other_after.totals
            &&& after.done == other_after.done
            &&& actions.len() == events.len() && other_actions.len() == events.len()
            &&& forall|i: int|
                0 <= i < events.len() ==> ((#[trigger] actions[i]) is Take
                    <==> other_actions[i] is Take)
        }),
    decreases events.len(),
{
    if events.len() > 0 {
        let (s, t) = (intake_started(pace, limit), intake_started(other_pace, limit));
        let (e, o) = (events.drop_last(), other.drop_last());
        assert forall|i: int| 0 <= i < e.len() implies same_line(#[trigger] e[i], o[i]) by {
            assert(same_line(events[i], other[i]));
        }
        lemma_totals_without_time(pace, other_pace, limit, e, o);
        lemma_intake_keeps(s, e);
        lemma_intake_keeps(t, o);
        assert(same_line(events[events.len() - 1], other[events.len() - 1]));
        let (actions, other_actions) = (intake_run(s, events).0, intake_run(t, other).0);
        assert forall|i: int| 0 <= i < events.len() implies ((#[trigger] actions[i]) is Take
            <==> other_actions[i] is Take) by {
            if i < e.len() {
                assert(actions[i] == intake_run(s, e).0[i]);
                assert(other_actions[i] == intake_run(t, o).0[i]);
            }
        }
    }
}

/// The message counters of a replay: each frame that was taken in and whose message was of a known
/// pair is counted, with the times that reading and applying it took.
pub open spec fn intake_counters(
    events: Seq<IntakeEvent>,
    actions: Seq<IntakeAction>,
    known: Seq<bool>,
    times: Seq<(u64, u64)>,
) -> PerfCounters
    decreases events.len(),
{
    if events.len() == 0 {
        no_messages()
    } else {
        let before = intake_counters(
            events.drop_last(),
            actions.drop_last(),
            known.drop_last(),
            times.drop_last(),
        );
        match (events.last(), actions.last()) {
            (IntakeEvent::Frame { size, .. }, IntakeAction::Take { .. }) => if known.last() {
                after_message(before, size as usize, times.last().0, times.last().1)
            } else {
                before
            },
            _ => before,
        }
    }
}

/// Two replays of the same lines count the same messages and bytes, whatever their pace and
/// whatever times they take.
pub proof fn lemma_messages_without_time(
    pace: bool,
    other_pace: bool,
    limit: Option<u64>,
    events: Seq<IntakeEvent>,
    other: Seq<IntakeEvent>,
    known: Seq<bool>,
    times: Seq<(u64, u64)>,
    other_times: Seq<(u64, u64)>,
)
    requires
        same_lines(events, other),
        known.len() == events.len(),
        times.len() == events.len(),
        other_times.len() == events.len(),
    ensures
        ({
            let actions = intake_run(intake_started(pace, limit), events).0;
            let other_actions = intake_run(intake_started(other_pace, limit), other).0;
            let c = intake_counters(events, actions, known, times);
            let d = intake_counters(other, other_actions, known, other_times);
            c.ws_msg_count == d.ws_msg_count && c.ws_msg_bytes == d.ws_msg_bytes
        }),
    decreases events.len(),
{
    if events.len() > 0 {
        let (s, t) = (intake_started(pace, limit), intake_started(other_pace, limit));
        let (e, o) = (events.drop_last(), other.drop_last());
        assert forall|i: int| 0 <= i < e.len() implies same_line(#[trigger] e[i], o[i]) by {
            assert(same_line(events[i], other[i]));
        }
        lemma_messages_without_time(
            pace,
            other_pace,
            limit,
            e,
            o,
            known.drop_last(),
            times.drop_last(),
            other_times.drop_last(),
        );
        lemma_totals_without_time(pace, other_pace, limit, events, other);
        let n = events.len() - 1;
        let (actions, other_actions) = (intake_run(s, events).0, intake_run(t, other).0);
        assert(actions.drop_last() =~= intake_run(s, e).0);
        assert(other_actions.drop_last() =~= intake_run(t, o).0);
        assert(same_line(events[n], other[n]));
        assert(actions[n] is Take <==> other_actions[n] is Take);
    }
}

proof fn lemma_intake_keeps(s: IntakeView, events: Seq<IntakeEvent>)
    ensures
        intake_run(s, events).1.pace == s.pace,
        intake_run(s, events).1.limit == s.limit,
    decreases events.len(),
{
    if events.len() > 0 {
        lemma_intake_keeps(s, events.drop_last());
    }
}

/// A frame is taken in when the recording had it, where the pace is kept, and at once otherwise.
pub proof fn lemma_taken_at_pace(s: IntakeView, t_us: u64, size: u64, elapsed_us: u64)
    requires
        !s.done,
        !limit_met(s.totals, s.limit),
    ensures
        intake_stepped(s, IntakeEvent::Frame { t_us, size, elapsed_us }).0 matches IntakeAction::Take {
            wait_us,
        } && (if s.pace && elapsed_us < t_us {
            elapsed_us + wait_us == t_us
        } else {
            wait_us == 0
        }),
{
}

/// What a timed replay comes upon.
#[derive(Clone, Copy, Debug, PartialEq, Eq, Structural)]
pub enum LoopEvent {
    /// A frame of so many bytes, taken so many microseconds into the recording.
    Frame { t_us: u64, size: u64 },
    /// A line that is no frame.
    OtherLine,
    /// The end of the trace.
    End,
    /// The warm-up is over, and the trace with it.
    NothingAfterWarmup,
    /// The time is up, or nothing more is to be read.
    TimeUp,
}

/// What a timed replay does next.
#[derive(Clone, Copy, Debug, PartialEq, Eq, Structural)]
pub enum LoopAction {
    /// Read on.
    Read,
    /// Take the frame in, as part of the warm-up.
    Warm,
    /// Take the frame in and search.
    Round,
    /// Go back to where the warm-up ended.
    Rewind,
    /// The replay is done.
    Finish,
    /// The trace is too short for the warm-up.
    TooFewFrames,
    /// The warm-up has used up the trace.
    NothingToTime,
}

/// How far a timed replay is.
pub struct LoopView {
    pub warmup_frames: u64,
    pub limit: Option<u64>,
    /// The frames of the warm-up so far.
    pub warmed: u64,
    /// What was timed so far.
    pub totals: FrameTotals,
    /// How often the trace was gone through to its end.
    pub wraps: u64,
    /// The last answer, once there is one.
    pub ended: Option<LoopAction>,
}

/// A timed replay at its start.
pub open spec fn loop_started(warmup_frames: u64, limit: Option<u64>) -> LoopView {
    LoopView { warmup_frames, limit, warmed: 0, totals: no_frames(), wraps: 0, ended: None }
}

/// Whether the warm-up is over.
pub open spec fn is_warm(s: LoopView) -> bool {
    s.warmed >= s.warmup_frames
}

/// Whether nothing was timed yet.
pub open spec fn untimed(s: LoopView) -> bool {
    s.totals == no_frames() && s.wraps == 0
}

/// A timed replay with its last answer.
pub open spec fn loop_ended(s: LoopView, action: LoopAction) -> (LoopAction, LoopView) {
    (action, LoopView { ended: Some(action), ..s })
}

/// The answer to an event, and how far the replay then is: up to the end of the warm-up frames warm
/// it up, and it fails where the trace ends; after that each frame is a round, the end of the trace
/// leads back, and the replay is done when the time is up or the limit is met.
pub open spec fn loop_stepped(s: LoopView, event: LoopEvent) -> (LoopAction, LoopView) {
    match s.ended {
        Some(action) => (action, s),
        None => if !is_warm(s) {
            match event {
                LoopEvent::Frame { .. } => (
                    LoopAction::Warm,
                    LoopView { warmed: (s.warmed + 1) as u64, ..s },
                ),
                LoopEvent::End => loop_ended(s, LoopAction::TooFewFrames),
                _ => (LoopAction::Read, s),
            }
        } else if limit_met(s.totals, s.limit) {
            loop_ended(s, LoopAction::Finish)
        } else {
            match event {
                LoopEvent::Frame { t_us, size } => (
                    LoopAction::Round,
                    LoopView { totals: one_more(s.totals, t_us, size), ..s },
                ),
                LoopEvent::OtherLine => (LoopAction::Read, s),
                LoopEvent::End => (
                    LoopAction::Rewind,
                    LoopView { wraps: (s.wraps + 1) as u64, ..s },
                ),
                LoopEvent::NothingAfterWarmup => if untimed(s) {
                    loop_ended(s, LoopAction::NothingToTime)
                } else {
                    (LoopAction::Read, s)
                },
                LoopEvent::TimeUp => loop_ended(s, LoopAction::Finish),
            }
        },
    }
}

/// Whether the counts have room for what an event adds to them.
pub open spec fn loop_room(s: LoopView, event: LoopEvent) -> bool {
    s.ended is None && is_warm(s) && !limit_met(s.totals, s.limit) ==> match event {
        LoopEvent::Frame { size, .. } => countable(s.totals, size),
        LoopEvent::End => s.wraps < u64::MAX,
        _ => true,
    }
}

/// What holds of a timed replay at any time: the warm-up has not gone too far, nothing is timed
/// before it is over, a failed replay has timed nothing, and no more is timed than the limit allows.
pub open spec fn loop_fits(s: LoopView) -> bool {
    &&& s.warmed <= s.warmup_frames
    &&& !is_warm(s) ==> untimed(s)
    &&& match s.ended {
        None => true,
        Some(LoopAction::Finish) => is_warm(s),
        Some(LoopAction::TooFewFrames) => !is_warm(s),
        Some(LoopAction::NothingToTime) => is_warm(s) && untimed(s),
        Some(_) => false,
    }
    &&& s.limit matches Some(n) ==> s.totals.frames <= n || s.totals.frames <= 1
}

/// A replay that takes rounds over a trace until the time is up, after a warm-up.
pub struct LoopReplay {
    warmup_frames: u64,
    limit: Option<u64>,
    warmed: u64,
    totals: FrameTotals,
    wraps: u64,
    ended: Option<LoopAction>,
}

impl View for LoopReplay {
    type V = LoopView;

    closed spec fn view(&self) -> LoopView {
        LoopView {
            warmup_frames: self.warmup_frames,
            limit: self.limit,
            warmed: self.warmed,
            totals: self.totals,
            wraps: self.wraps,
            ended: self.ended,
        }
    }
}

impl LoopReplay {
    /// What holds of a timed replay at any time.
    pub open spec fn wf(&self) -> bool {
        loop_fits(self@)
    }

    /// A replay at its start.
    pub fn new(warmup_frames: u64, limit: Option<u64>) -> (r: LoopReplay)
        ensures
            r.wf(),
            r@ == loop_started(warmup_frames, limit),
    {
        LoopReplay {
            warmup_frames,
            limit,
            warmed: 0,
            totals: FrameTotals::new(),
            wraps: 0,
            ended: None,
        }
    }

    /// Whether the warm-up is over.
    pub fn is_warm(&self) -> (r: bool)
        ensures
            r == is_warm(self@),
    {
        self.warmed >= self.warmup_frames
    }

    /// Whether as many frames were timed as are allowed.
    pub fn is_full(&self) -> (r: bool)
        ensures
            r == limit_met(self@.totals, self@.limit),
    {
        self.totals.frames > 0 && self.totals.is_full(self.limit)
    }

    /// Whether the counts have room for what an event adds to them.
    pub fn has_room(&self, event: LoopEvent) -> (r: bool)
        ensures
            r == loop_room(self@, event),
    {
        if self.ended.is_some() || !self.is_warm() || self.is_full() {
            return true;
        }
        match event {
            LoopEvent::Frame { size, .. } => self.totals.has_room(size),
            LoopEvent::End => self.wraps < u64::MAX,
            _ => true,
        }
    }

    /// Takes in an event and says what to do.
    pub fn step(&mut self, event: LoopEvent) -> (r: LoopAction)
        requires
            old(self).wf(),
            loop_room(old(self)@, event),
        ensures
            final(self).wf(),
            (r, final(self)@) == loop_stepped(old(self)@, event),
    {
        if let Some(action) = self.ended {
            return action;
        }
        if !self.is_warm() {
            return match event {
                LoopEvent::Frame { .. } => {
                    self.warmed = self.warmed + 1;
                    LoopAction::Warm
                },
                LoopEvent::End => self.end(LoopAction::TooFewFrames),
                _ => LoopAction::Read,
            };
        }
        if self.is_full() {
            return self.end(LoopAction::Finish);
        }
        match event {
            LoopEvent::Frame { t_us, size } => {
                self.totals.count(t_us, size);
                LoopAction::Round
            },
            LoopEvent::OtherLine => LoopAction::Read,
            LoopEvent::End => {
                self.wraps = self.wraps + 1;
                LoopAction::Rewind
            },
            LoopEvent::NothingAfterWarmup => {
                if self.totals == FrameTotals::new() && self.wraps == 0 {
                    self.end(LoopAction::NothingToTime)
                } else {
                    LoopAction::Read
                }
            },
            LoopEvent::TimeUp => self.end(LoopAction::Finish),
        }
    }

    fn end(&mut self, action: LoopAction) -> (r: LoopAction)
        ensures
            (r, final(self)@) == loop_ended(old(self)@, action),
    {
        self.ended = Some(action);
        action
    }

    /// The frames of the warm-up so far.
    pub fn warmed(&self) -> (r: u64)
        ensures
            r == self@.warmed,
    {
        self.warmed
    }

    /// What was timed so far.
    pub fn totals(&self) -> (r: FrameTotals)
        ensures
            r == self@.totals,
    {
        self.totals
    }

    /// How often the trace was gone through to its end.
    pub fn wraps(&self) -> (r: u64)
        ensures
            r == self@.wraps,
    {
        self.wraps
    }
}

/// The answers to a row of events, and how far the replay then is.
pub open spec fn loop_run(s: LoopView, events: Seq<LoopEvent>) -> (Seq<LoopAction>, LoopView)
    decreases events.len(),
{
    if events.len() == 0 {
        (Seq::empty(), s)
    } else {
        let (actions, before) = loop_run(s, events.drop_last());
        let (action, after) = loop_stepped(before, events.last());
        (actions.push(action), after)
    }
}

/// Whether the counts had room for each of a row of events.
pub open spec fn loop_run_room(s: LoopView, events: Seq<LoopEvent>) -> bool
    decreases events.len(),
{
    events.len() > 0 ==> {
        &&& loop_run_room(s, events.drop_last())
        &&& loop_room(loop_run(s, events.drop_last()).1, events.last())
    }
}

/// How often an answer was given.
pub open spec fn times(actions: Seq<LoopAction>, action: LoopAction) -> nat
    decreases actions.len(),
{
    if actions.len() == 0 {
        0
    } else {
        times(actions.drop_last(), action) + if actions.last() == action {
            1nat
        } else {
            0
        }
    }
}

/// The bytes of the frames that were answered by a round.
pub open spec fn round_bytes(events: Seq<LoopEvent>, actions: Seq<LoopAction>) -> nat
    decreases events.len(),
{
    if events.len() == 0 {
        0
    } else {
        round_bytes(events.drop_last(), actions.drop_last()) + match (
            events.last(),
            actions.last(),
        ) {
            (LoopEvent::Frame { size, .. }, LoopAction::Round) => size as nat,
            _ => 0,
        }
    }
}

/// A frame of the warm-up is in no total, and a frame of the warm-up is one that comes before the
/// warm-up is over.
pub proof fn lemma_warmup_uncounted(s: LoopView, event: LoopEvent)
    requires
        loop_fits(s),
    ensures
        loop_stepped(s, event).0 == LoopAction::Warm ==> {
            let after = loop_stepped(s, event).1;
            &&& event is Frame
            &&& !is_warm(s)
            &&& after.totals == s.totals
            &&& after.wraps == s.wraps
            &&& after.warmed == s.warmed + 1
        },
{
}

/// Each round counts its frame, each rewind the end of the trace that led to it, and nothing else
/// is counted.
pub proof fn lemma_step_counts(s: LoopView, event: LoopEvent)
    requires
        loop_fits(s),
        loop_room(s, event),
    ensures
        ({
            let (action, after) = loop_stepped(s, event);
            &&& loop_fits(after)
            &&& after.totals.frames == s.totals.frames + if action == LoopAction::Round {
                1int
            } else {
                0
            }
            &&& after.wraps == s.wraps + if action == LoopAction::Rewind {
                1int
            } else {
                0
            }
            &&& action == LoopAction::Round ==> event is Frame && is_warm(s) && after.totals
                == one_more(s.totals, event->t_us, event->size)
            &&& action == LoopAction::Rewind ==> event == LoopEvent::End && is_warm(s)
            &&& action != LoopAction::Round ==> after.totals == s.totals
        }),
{
}

/// Over a whole replay the frames that were counted are the rounds, their bytes are the bytes of the
/// rounds' frames, the frames of the warm-up are the answers that warm up, and the trace was gone
/// through as often as was gone back.
pub proof fn lemma_totals_are_rounds(warmup_frames: u64, limit: Option<u64>, events: Seq<LoopEvent>)
    requires
        loop_run_room(loop_started(warmup_frames, limit), events),
    ensures
        ({
            let (actions, after) = loop_run(loop_started(warmup_frames, limit), events);
            &&& loop_fits(after)
            &&& actions.len() == events.len()
            &&& after.totals.frames == times(actions, LoopAction::Round)
            &&& after.totals.bytes == round_bytes(events, actions)
            &&& after.warmed == times(actions, LoopAction::Warm)
            &&& times(actions, LoopAction::Warm) <= warmup_frames
            &&& after.wraps == times(actions, LoopAction::Rewind)
            &&& after.warmup_frames == warmup_frames
            &&& after.limit == limit
        }),
    decreases events.len(),
{
    let s = loop_started(warmup_frames, limit);
    if events.len() > 0 {
        lemma_totals_are_rounds(warmup_frames, limit, events.drop_last());
        let (before_actions, before) = loop_run(s, events.drop_last());
        let (action, after) = loop_stepped(before, events.last());
        assert(before_actions.push(action).drop_last() =~= before_actions);
        lemma_step_counts(before, events.last());
    }
}

/// Whether what was searched keeps up with a timed replay: there is one search, with its
/// simulations, where the answer was a round, and none otherwise.
pub open spec fn keeps_up<C: Fn() -> u64>(
    clock: C,
    action: LoopAction,
    before: ComputeStats,
    after: ComputeStats,
) -> bool {
    if action == LoopAction::Round {
        exists|found: usize, calls: nat, verified: nat, errors: nat| #[trigger]
            passed(clock, before, after, found, calls, verified, errors)
    } else {
        after == before
    }
}

/// There are as many searches as rounds, and as frames that were counted.
pub proof fn lemma_searches_are_rounds<C: Fn() -> u64>(
    clock: C,
    warmup_frames: u64,
    limit: Option<u64>,
    events: Seq<LoopEvent>,
    stats: Seq<ComputeStats>,
)
    requires
        loop_run_room(loop_started(warmup_frames, limit), events),
        stats.len() == events.len() + 1,
        stats[0] == no_work(),
        forall|i: int|
            0 <= i < events.len() ==> keeps_up(
                clock,
                loop_run(loop_started(warmup_frames, limit), events).0[i],
                #[trigger] stats[i],
                stats[i + 1],
            ),
    ensures
        ({
            let (actions, after) = loop_run(loop_started(warmup_frames, limit), events);
            &&& stats.last().spfa_calls == times(actions, LoopAction::Round)
            &&& stats.last().spfa_calls == after.totals.frames
        }),
    decreases events.len(),
{
    let s = loop_started(warmup_frames, limit);
    lemma_totals_are_rounds(warmup_frames, limit, events);
    if events.len() > 0 {
        let n = events.len() - 1;
        let earlier = events.drop_last();
        let (all, after) = loop_run(s, events);
        let (actions, before) = loop_run(s, earlier);
        lemma_totals_are_rounds(warmup_frames, limit, earlier);
        assert(all.drop_last() =~= actions);
        assert forall|i: int| 0 <= i < earlier.len() implies keeps_up(
            clock,
            actions[i],
            #[trigger] stats.drop_last()[i],
            stats.drop_last()[i + 1],
        ) by {
            assert(keeps_up(clock, all[i], stats[i], stats[i + 1]));
            assert(all[i] == actions[i]);
        }
        lemma_searches_are_rounds(clock, warmup_frames, limit, earlier, stats.drop_last());
        assert(keeps_up(clock, all[n], stats[n], stats[n + 1]));
        lemma_step_counts(before, events.last());
    }
}

/// Once a frame was timed, the end of the trace led back, or the replay came to its end, no frame
/// is part of the warm-up any more.
pub proof fn lemma_warmup_comes_first(s: LoopView, events: Seq<LoopEvent>, i: int, j: int)
    requires
        loop_fits(s),
        loop_run_room(s, events),
        0 <= i < j < events.len(),
        loop_run(s, events).0[i] != LoopAction::Warm,
        loop_run(s, events).0[i] != LoopAction::Read,
    ensures
        loop_run(s, events).0[j] != LoopAction::Warm,
{
    lemma_answer_at(s, events, i);
    lemma_answer_at(s, events, j);
    lemma_run_prefix(s, events, i);
    lemma_run_fits(s, events.take(i));
    lemma_run_prefix(s, events, j);
    lemma_run_fits(s, events.take(j));
    lemma_stays_timed(s, events, i + 1, j);
}

/// Each answer is the one to its event, where the events before it have led.
proof fn lemma_answer_at(s: LoopView, events: Seq<LoopEvent>, i: int)
    requires
        0 <= i < events.len(),
    ensures
        ({
            let r = loop_stepped(loop_run(s, events.take(i)).1, events[i]);
            loop_run(s, events).0[i] == r.0 && loop_run(s, events.take(i + 1)).1 == r.1
        }),
{
    let first = events.take(i + 1);
    lemma_run_prefix(s, events, i + 1);
    lemma_run_prefix(s, first, i);
    assert(first.drop_last() =~= events.take(i));
    assert(first.last() == events[i]);
    assert(loop_run(s, events).0.take(i + 1)[i] == loop_run(s, events).0[i]);
    lemma_run_prefix(s, events.take(i), i);
    assert(loop_run(s, first).0.last() == loop_stepped(loop_run(s, events.take(i)).1, events[i]).0);
}

/// The answers to the first events are the first answers.
proof fn lemma_run_prefix(s: LoopView, events: Seq<LoopEvent>, k: int)
    requires
        0 <= k <= events.len(),
    ensures
        loop_run(s, events).0.len() == events.len(),
        loop_run(s, events.take(k)).0 == loop_run(s, events).0.take(k),
        loop_run_room(s, events) ==> loop_run_room(s, events.take(k)),
    decreases events.len(),
{
    if events.len() > 0 {
        lemma_run_prefix(s, events.drop_last(), 0);
        let all = loop_run(s, events).0;
        if k == events.len() {
            assert(events.take(k) =~= events);
            assert(all.take(k) =~= all);
        } else {
            lemma_run_prefix(s, events.drop_last(), k);
            assert(events.drop_last().take(k) =~= events.take(k));
            assert(all.take(k) =~= loop_run(s, events.drop_last()).0.take(k));
        }
    } else {
        assert(events.take(k) =~= events);
    }
}

proof fn lemma_run_fits(s: LoopView, events: Seq<LoopEvent>)
    requires
        loop_fits(s),
        loop_run_room(s, events),
    ensures
        loop_fits(loop_run(s, events).1),
    decreases events.len(),
{
    if events.len() > 0 {
        lemma_run_fits(s, events.drop_last());
    }
}

/// What is warm, or at its end, stays so.
proof fn lemma_stays_timed(s: LoopView, events: Seq<LoopEvent>, i: int, j: int)
    requires
        loop_fits(s),
        loop_run_room(s, events),
        0 <= i <= j <= events.len(),
        is_warm(loop_run(s, events.take(i)).1) || loop_run(s, events.take(i)).1.ended is Some,
    ensures
        is_warm(loop_run(s, events.take(j)).1) || loop_run(s, events.take(j)).1.ended is Some,
    decreases j - i,
{
    if i < j {
        lemma_stays_timed(s, events, i, j - 1);
        assert(events.take(j).drop_last() =~= events.take(j - 1));
    }
}

/// A replay finishes where the warm-up is over and the time is up or the limit is met, and only
/// there.
pub proof fn lemma_finishes(s: LoopView, event: LoopEvent)
    requires
        loop_fits(s),
        s.ended is None,
    ensures
        loop_stepped(s, event).0 == LoopAction::Finish <==> is_warm(s) && (event
            == LoopEvent::TimeUp || limit_met(s.totals, s.limit)),
{
}

/// A replay fails where the trace ends within the warm-up and where nothing is left after it, and
/// only there; it has then timed nothing.
pub proof fn lemma_fails(s: LoopView, event: LoopEvent)
    requires
        loop_fits(s),
        s.ended is None,
    ensures
        ({
            let (action, after) = loop_stepped(s, event);
            &&& action == LoopAction::TooFewFrames <==> !is_warm(s) && event == LoopEvent::End
            &&& action == LoopAction::NothingToTime <==> is_warm(s) && untimed(s) && event
                == LoopEvent::NothingAfterWarmup
            &&& action == LoopAction::TooFewFrames || action == LoopAction::NothingToTime ==> untimed(
                after,
            ) && after.ended == Some(action)
        }),
{
}

/// The last answer stays: whatever comes after it, the answer is the same and nothing changes.
pub proof fn lemma_last_answer_stays(s: LoopView, event: LoopEvent, next: LoopEvent)
    requires
        loop_fits(s),
        loop_room(s, event),
    ensures
        ({
            let (action, after) = loop_stepped(s, event);
            action == LoopAction::Finish || action == LoopAction::TooFewFrames || action
                == LoopAction::NothingToTime ==> loop_stepped(after, next) == (action, after)
        }),
{
}

/// With a limit no more frames are timed than it allows.
pub proof fn lemma_within_frame_limit(warmup_frames: u64, limit: u64, events: Seq<LoopEvent>)
    requires
        limit > 0,
        loop_run_room(loop_started(warmup_frames, Some(limit)), events),
    ensures
        times(loop_run(loop_started(warmup_frames, Some(limit)), events).0, LoopAction::Round)
            <= limit,
{
    lemma_totals_are_rounds(warmup_frames, Some(limit), events);
}

} // verus!
