//! The bot: who may use it, what a message asks for, and what that changes.
use crate::arbitrage::graph::Graph;
use crate::config::{Config, ConfigView};
use crate::decimal::{decimal_text, parsed_decimal, stands_for, Amount};
use crate::double::{
    difference, infinity, less, nearest_whole, of_nat, one, product, quotient, zero, Double,
};
use crate::text::{
    has_prefix, lower_case, parse_usize, parsed_usize, split_words, starts_with, texts, words_of,
};
use vstd::prelude::*;

verus! {

broadcast use vstd::string::group_string_axioms;

/// The bits of 1000.
pub const THOUSAND_BITS: u64 = 0x408f_4000_0000_0000;

/// Whether a user may use the bot: the one it is meant for, or anyone where it is meant for nobody
/// in particular.
pub open spec fn may_use(authorized_user_id: i64, user: Option<u64>) -> bool {
    authorized_user_id == 0 || (user matches Some(id) && id as i64 == authorized_user_id)
}

/// Whether a user may use the bot.
pub fn is_authorized(authorized_user_id: i64, user: Option<u64>) -> (r: bool)
    ensures
        r == may_use(authorized_user_id, user),
{
    if authorized_user_id == 0 {
        return true;
    }
    match user {
        Some(id) => id as i64 == authorized_user_id,
        None => false,
    }
}

/// What a message asks for.
#[derive(Clone, Copy, Debug, PartialEq, Eq, Structural)]
pub enum Command {
    Start,
    Help,
    Status,
    Pause,
    Resume,
    Balance,
    Trade,
    Change,
    /// Nothing that the bot knows.
    Unknown,
}

/// What a message asks for, by how it begins.
pub open spec fn command_of(text: Seq<char>) -> Command {
    if has_prefix(text, "/start"@) {
        Command::Start
    } else if has_prefix(text, "/help"@) {
        Command::Help
    } else if has_prefix(text, "/status"@) {
        Command::Status
    } else if has_prefix(text, "/pause"@) {
        Command::Pause
    } else if has_prefix(text, "/resume"@) {
        Command::Resume
    } else if has_prefix(text, "/balance"@) {
        Command::Balance
    } else if has_prefix(text, "/trade"@) {
        Command::Trade
    } else if has_prefix(text, "/set"@) {
        Command::Change
    } else {
        Command::Unknown
    }
}

/// What a message asks for.
pub fn parse_command(text: &str) -> (r: Command)
    ensures
        r == command_of(text@),
{
    if starts_with(text, "/start") {
        Command::Start
    } else if starts_with(text, "/help") {
        Command::Help
    } else if starts_with(text, "/status") {
        Command::Status
    } else if starts_with(text, "/pause") {
        Command::Pause
    } else if starts_with(text, "/resume") {
        Command::Resume
    } else if starts_with(text, "/balance") {
        Command::Balance
    } else if starts_with(text, "/trade") {
        Command::Trade
    } else if starts_with(text, "/set") {
        Command::Change
    } else {
        Command::Unknown
    }
}

/// What is done with a message.
#[derive(Clone, Copy, Debug, PartialEq, Eq, Structural)]
pub enum MessageAction {
    /// It holds no text.
    Ignore,
    /// The user may not use the bot, and is told so.
    Refuse,
    Run(Command),
}

/// What is done with a message from a user.
pub fn on_message(authorized_user_id: i64, user: Option<u64>, text: Option<&str>) -> (r:
    MessageAction)
    ensures
        r == (match text {
            None => MessageAction::Ignore,
            Some(t) => if may_use(authorized_user_id, user) {
                MessageAction::Run(command_of(t@))
            } else {
                MessageAction::Refuse
            },
        }),
{
    match text {
        None => MessageAction::Ignore,
        Some(t) => if is_authorized(authorized_user_id, user) {
            MessageAction::Run(parse_command(t))
        } else {
            MessageAction::Refuse
        },
    }
}

/// What is done when a button is pressed.
#[derive(Clone, Copy, Debug, PartialEq, Eq, Structural)]
pub enum ButtonAction {
    /// The user may not use the bot, and gets no answer.
    Ignore,
    /// The press is answered, and no more.
    Acknowledge,
    /// Real trades are switched on.
    EnableTrading,
}

/// What is done when a user presses a button.
pub fn on_button(authorized_user_id: i64, user: u64, data: Option<&str>) -> (r: ButtonAction)
    ensures
        r == (if !may_use(authorized_user_id, Some(user)) {
            ButtonAction::Ignore
        } else if data matches Some(d) && d@ == "confirm_trade_on"@ {
            ButtonAction::EnableTrading
        } else {
            ButtonAction::Acknowledge
        }),
{
    if !is_authorized(authorized_user_id, Some(user)) {
        return ButtonAction::Ignore;
    }
    match data {
        Some(d) => if *d == *"confirm_trade_on" {
            ButtonAction::EnableTrading
        } else {
            ButtonAction::Acknowledge
        },
        None => ButtonAction::Acknowledge,
    }
}

/// Switches the search on or off.
pub fn set_running(cfg: &mut Config, running: bool)
    ensures
        final(cfg)@ == (ConfigView { running, ..old(cfg)@ }),
{
    cfg.running = running;
}

/// Switches real trades on or off.
pub fn set_auto_trade(cfg: &mut Config, enabled: bool)
    ensures
        final(cfg)@ == (ConfigView { auto_trade_enabled: enabled, ..old(cfg)@ }),
{
    cfg.auto_trade_enabled = enabled;
}

/// The answer to a message on real trades.
#[derive(Clone, Copy, Debug, PartialEq, Eq, Structural)]
pub enum TradeReply {
    /// Whether they are switched on.
    Status(bool),
    /// They are switched on only once a button is pressed.
    AskToConfirm,
    /// They are switched off.
    Disabled,
    /// How such a message is written.
    Usage,
}

/// The answer to a message on real trades.
pub open spec fn trade_reply(text: Seq<char>, enabled: bool) -> TradeReply {
    let words = words_of(text);
    if words.len() <= 1 {
        TradeReply::Status(enabled)
    } else if lower_case(words[1]) == "on"@ {
        TradeReply::AskToConfirm
    } else if lower_case(words[1]) == "off"@ {
        TradeReply::Disabled
    } else {
        TradeReply::Usage
    }
}

/// Carries out a message on real trades: off at once, on only after it is confirmed.
pub fn on_trade(cfg: &mut Config, text: &str) -> (r: TradeReply)
    ensures
        r == trade_reply(text@, old(cfg)@.auto_trade_enabled),
        final(cfg)@ == (ConfigView {
            auto_trade_enabled: old(cfg)@.auto_trade_enabled && r != TradeReply::Disabled,
            ..old(cfg)@
        }),
{
    let words: Vec<String> = split_words(text);
    assert(texts(words@).len() == words@.len());
    run_trade(cfg, &words)
}

/// Carries out a message on real trades, given as words.
pub fn run_trade(cfg: &mut Config, words: &Vec<String>) -> (r: TradeReply)
    ensures
        r == (if words@.len() <= 1 {
            TradeReply::Status(old(cfg)@.auto_trade_enabled)
        } else if lower_case(words@[1]@) == "on"@ {
            TradeReply::AskToConfirm
        } else if lower_case(words@[1]@) == "off"@ {
            TradeReply::Disabled
        } else {
            TradeReply::Usage
        }),
        final(cfg)@ == (ConfigView {
            auto_trade_enabled: old(cfg)@.auto_trade_enabled && r != TradeReply::Disabled,
            ..old(cfg)@
        }),
{
    if words.len() <= 1 {
        return TradeReply::Status(cfg.auto_trade_enabled);
    }
    let word: String = words[1].as_str().to_lowercase();
    if *word.as_str() == *"on" {
        TradeReply::AskToConfirm
    } else if *word.as_str() == *"off" {
        set_auto_trade(cfg, false);
        TradeReply::Disabled
    } else {
        TradeReply::Usage
    }
}

/// The answer to a message that sets a value.
#[derive(Debug)]
pub enum SetReply {
    /// How such a message is written.
    Usage,
    /// The value is no amount, for this reason.
    BadAmount(String),
    /// The value is no whole number.
    BadNumber,
    /// There is no setting of this name.
    UnknownParameter(String),
    /// The setting of the first name was given the second one as its value.
    Updated(String, String),
}

/// The answer to a message that sets a value, as values.
pub enum SetView {
    Usage,
    BadAmount(Seq<char>),
    BadNumber,
    UnknownParameter(Seq<char>),
    Updated(Seq<char>, Seq<char>),
}

impl View for SetReply {
    type V = SetView;

    open spec fn view(&self) -> SetView {
        match *self {
            SetReply::Usage => SetView::Usage,
            SetReply::BadAmount(e) => SetView::BadAmount(e@),
            SetReply::BadNumber => SetView::BadNumber,
            SetReply::UnknownParameter(p) => SetView::UnknownParameter(p@),
            SetReply::Updated(p, v) => SetView::Updated(p@, v@),
        }
    }
}

/// The answer to a message that sets a value, and the settings after it.
pub open spec fn set_by(words: Seq<Seq<char>>, cfg: ConfigView) -> (SetView, ConfigView) {
    let name = lower_case(words[1]);
    let value = words[2];
    if words.len() != 3 {
        (SetView::Usage, cfg)
    } else if name == "fee_rate"@ {
        match parsed_decimal(value) {
            Ok(a) => (SetView::Updated(name, value), ConfigView { taker_fee_rate: a, ..cfg }),
            Err(e) => (SetView::BadAmount(e), cfg),
        }
    } else if name == "min_profit"@ {
        match parsed_decimal(value) {
            Ok(a) => (
                SetView::Updated(name, value),
                ConfigView { min_profit_full_sim_percent: a, ..cfg },
            ),
            Err(e) => (SetView::BadAmount(e), cfg),
        }
    } else if name == "depth"@ {
        match parsed_usize(value) {
            Some(n) => (SetView::Updated(name, value), ConfigView { max_arbitrage_depth: n, ..cfg }),
            None => (SetView::BadNumber, cfg),
        }
    } else {
        (SetView::UnknownParameter(name), cfg)
    }
}

/// Whether the words set the fee, so that the graph takes it too.
pub open spec fn sets_fee(words: Seq<Seq<char>>) -> bool {
    words.len() == 3 && lower_case(words[1]) == "fee_rate"@ && parsed_decimal(words[2]) is Ok
}

/// Whether a graph has taken a new fee: the rest of it stays, and its weights are to be computed
/// anew.
pub open spec fn took_fee(after: Graph, before: Graph, fee: (int, int)) -> bool {
    &&& after.wf()
    &&& after.same_shape(&before)
    &&& after.edges == before.edges
    &&& after.rebuild_all
    &&& exists|x: Double|
        #[trigger] stands_for(x, fee) && after.fee_multiplier == difference(one(), x)
}

/// Carries out a message that sets a value.
pub fn on_set(cfg: &mut Config, graph: &mut Graph, text: &str) -> (r: SetReply)
    requires
        old(graph).wf(),
    ensures
        (r@, final(cfg)@) == set_by(words_of(text@), old(cfg)@),
        sets_fee(words_of(text@)) ==> took_fee(*final(graph), *old(graph), final(cfg)@.taker_fee_rate),
        !sets_fee(words_of(text@)) ==> *final(graph) == *old(graph),
{
    let words: Vec<String> = split_words(text);
    run_set(cfg, graph, &words)
}

/// Carries out a message that sets a value, given as words.
pub fn run_set(cfg: &mut Config, graph: &mut Graph, words: &Vec<String>) -> (r: SetReply)
    requires
        old(graph).wf(),
    ensures
        (r@, final(cfg)@) == set_by(texts(words@), old(cfg)@),
        sets_fee(texts(words@)) ==> took_fee(*final(graph), *old(graph), final(cfg)@.taker_fee_rate),
        !sets_fee(texts(words@)) ==> *final(graph) == *old(graph),
{
    assert(texts(words@).len() == words@.len());
    if words.len() != 3 {
        return SetReply::Usage;
    }
    assert(texts(words@)[1] == words@[1]@ && texts(words@)[2] == words@[2]@);
    let name: String = words[1].as_str().to_lowercase();
    let value: &String = &words[2];
    if *name.as_str() == *"fee_rate" {
        match Amount::parse(value.as_str()) {
            Ok(v) => {
                cfg.set_fee_rate(v);
                graph.set_fee_rate(&v);
            },
            Err(e) => {
                return SetReply::BadAmount(e);
            },
        }
    } else if *name.as_str() == *"min_profit" {
        match Amount::parse(value.as_str()) {
            Ok(v) => {
                cfg.set_min_profit(v);
            },
            Err(e) => {
                return SetReply::BadAmount(e);
            },
        }
    } else if *name.as_str() == *"depth" {
        match parse_usize(value.as_str()) {
            Some(n) => {
                cfg.set_max_depth(n);
            },
            None => {
                return SetReply::BadNumber;
            },
        }
    } else {
        return SetReply::UnknownParameter(name);
    }
    SetReply::Updated(name, value.clone())
}

/// The lines for a list of balances.
pub open spec fn balance_lines(list: Seq<(String, Amount)>) -> Seq<char>
    decreases list.len(),
{
    if list.len() == 0 {
        Seq::empty()
    } else {
        balance_lines(list.drop_last()) + list.last().0@ + ": "@ + decimal_text(
            list.last().1@.0,
            list.last().1@.1,
        ) + "\n"@
    }
}

/// The answer on balances: one line for each, in their order; none where there are no balances.
pub fn balance_text(balances: &Vec<(String, Amount)>) -> (r: Option<String>)
    ensures
        match r {
            Some(t) => balances@.len() > 0 && t@ == "<b>当前可用余额 (非零):</b>\n<pre>"@
                + balance_lines(balances@) + "</pre>"@,
            None => balances@.len() == 0,
        },
{
    if balances.len() == 0 {
        return None;
    }
    let mut text: String = "<b>当前可用余额 (非零):</b>\n<pre>".to_owned();
    let ghost head = text@;
    let mut i: usize = 0;
    proof {
        assert(balances@.take(0) == Seq::<(String, Amount)>::empty());
        assert(head + Seq::<char>::empty() == head);
    }
    while i < balances.len()
        invariant
            i <= balances.len(),
            text@ == head + balance_lines(balances@.take(i as int)),
        decreases balances.len() - i,
    {
        let ghost part = balances@.take(i + 1);
        let ghost before = text@;
        assert(part.drop_last() == balances@.take(i as int) && part.last() == balances@[i as int]);
        let amount: String = balances[i].1.text();
        text.append(balances[i].0.as_str());
        text.append(": ");
        text.append(amount.as_str());
        text.append("\n");
        assert(text@ == head + balance_lines(part));
        i = i + 1;
    }
    assert(balances@.take(balances@.len() as int) == balances@);
    text.append("</pre>");
    Some(text)
}

/// The seconds between two times in milliseconds, zero where the second is later.
pub open spec fn seconds_between(now_ms: u64, then_ms: u64) -> Double {
    quotient(
        of_nat(
            if now_ms >= then_ms {
                (now_ms - then_ms) as nat
            } else {
                0
            },
        ),
        Double { bits: THOUSAND_BITS },
    )
}

/// The seconds between two times in milliseconds.
fn seconds_since(now_ms: u64, then_ms: u64) -> (r: Double)
    ensures
        r == seconds_between(now_ms, then_ms),
{
    let ms: u64 = if now_ms >= then_ms {
        now_ms - then_ms
    } else {
        0
    };
    Double::from_u64(ms).over(Double { bits: THOUSAND_BITS })
}

/// How old the latest quote is in seconds; infinity where there is none.
pub fn quote_age(now_ms: u64, last_update_ms: u64) -> (r: Double)
    ensures
        r == (if last_update_ms == 0 {
            infinity()
        } else {
            seconds_between(now_ms, last_update_ms)
        }),
{
    if last_update_ms == 0 {
        Double::infinity_value()
    } else {
        seconds_since(now_ms, last_update_ms)
    }
}

/// How often a second the loop has run; zero within the first second.
pub fn cycle_rate(cycle_count: u64, now_ms: u64, start_ms: u64) -> (r: Double)
    ensures
        r == ({
            let elapsed = seconds_between(now_ms, start_ms);
            if less(one(), elapsed) {
                quotient(of_nat(cycle_count as nat), elapsed)
            } else {
                zero()
            }
        }),
{
    let elapsed: Double = seconds_since(now_ms, start_ms);
    if elapsed.gt(Double::one_value()) {
        Double::from_u64(cycle_count).over(elapsed)
    } else {
        Double::zero_value()
    }
}

/// A duration in the unit in which it is told.
#[derive(Clone, Copy, Debug)]
pub enum DurationFigure {
    /// Less than half a nanosecond, or no duration.
    Nothing,
    Nanoseconds(u64),
    Microseconds(Double),
    Milliseconds(Double),
    Seconds(Double),
}

/// A duration in seconds in the largest unit of which it is at least one, by the nearest number of
/// nanoseconds.
pub open spec fn duration_told(sec: Double) -> DurationFigure {
    let scaled = product(sec, of_nat(1_000_000_000));
    let ns = nearest_whole(scaled);
    if !sec.finite() || !less(zero(), sec) || !scaled.finite() || ns == 0 {
        DurationFigure::Nothing
    } else if ns >= 1_000_000_000 {
        DurationFigure::Seconds(sec)
    } else if ns >= 1_000_000 {
        DurationFigure::Milliseconds(quotient(of_nat(ns), of_nat(1_000_000)))
    } else if ns >= 1_000 {
        DurationFigure::Microseconds(quotient(of_nat(ns), of_nat(1_000)))
    } else {
        DurationFigure::Nanoseconds(ns as u64)
    }
}

/// A duration in seconds in the unit in which it is told.
pub fn duration_figure(sec: Double) -> (r: DurationFigure)
    ensures
        r == duration_told(sec),
{
    if !sec.is_finite() || !sec.gt(Double::zero_value()) {
        return DurationFigure::Nothing;
    }
    let scaled: Double = sec.times(Double::from_u64(1_000_000_000));
    let ns: u64 = scaled.rounded();
    if !scaled.is_finite() || ns == 0 {
        DurationFigure::Nothing
    } else if ns >= 1_000_000_000 {
        DurationFigure::Seconds(sec)
    } else if ns >= 1_000_000 {
        DurationFigure::Milliseconds(Double::from_u64(ns).over(Double::from_u64(1_000_000)))
    } else if ns >= 1_000 {
        DurationFigure::Microseconds(Double::from_u64(ns).over(Double::from_u64(1_000)))
    } else {
        DurationFigure::Nanoseconds(ns)
    }
}

/// How many of the given flags are set.
pub open spec fn count_set(flags: Seq<bool>) -> nat
    decreases flags.len(),
{
    if flags.len() == 0 {
        0
    } else {
        count_set(flags.drop_last()) + if flags.last() {
            1nat
        } else {
            0
        }
    }
}

/// How many streams are connected.
pub fn connected_count(connected: &Vec<bool>) -> (r: usize)
    ensures
        r == count_set(connected@),
{
    let mut r: usize = 0;
    let mut i: usize = 0;
    assert(connected@.take(0) == Seq::<bool>::empty());
    while i < connected.len()
        invariant
            r <= i <= connected.len(),
            r == count_set(connected@.take(i as int)),
        decreases connected.len() - i,
    {
        assert(connected@.take(i + 1).drop_last() == connected@.take(i as int));
        if connected[i] {
            r = r + 1;
        }
        i = i + 1;
    }
    assert(connected@.take(connected@.len() as int) == connected@);
    r
}

/// A message that sets a value changes the fee, the profit or the depth, and nothing else: it can
/// neither start the search nor switch real trades on.
pub proof fn lemma_set_keeps_the_rest(words: Seq<Seq<char>>, cfg: ConfigView)
    ensures
        set_by(words, cfg).1 == (ConfigView {
            taker_fee_rate: set_by(words, cfg).1.taker_fee_rate,
            min_profit_full_sim_percent: set_by(words, cfg).1.min_profit_full_sim_percent,
            max_arbitrage_depth: set_by(words, cfg).1.max_arbitrage_depth,
            ..cfg
        }),
{
}

/// A bot that is meant for one user is used by that user alone: nobody without an id may use it, and
/// of two ids that may, both are that user's.
pub proof fn lemma_one_user(authorized_user_id: i64, id: u64)
    requires
        authorized_user_id != 0,
        id <= i64::MAX,
    ensures
        !may_use(authorized_user_id, None),
        may_use(authorized_user_id, Some(id)) <==> id == authorized_user_id,
{
}

} // verus!
