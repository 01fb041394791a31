//! What the program is set to do, and what it may know to do it.
use crate::decimal::Amount;
use crate::double::{at_most, less, one, zero, Double};
use crate::names::{in_order, insert_name, lemma_with_name, with_name};
use crate::text::{
    lower_case, parse_i64, parse_u64, parse_usize, parsed_i64, parsed_u64, parsed_usize,
    split_at_char, split_by, texts, trimmed, upper_case,
};
use vstd::prelude::*;

verus! {

broadcast use vstd::string::group_string_axioms;

/// The bits of 0.8.
pub const WARMUP_RATIO_BITS: u64 = 0x3fe9_9999_9999_999a;

/// The bits of 1.5.
pub const RETRY_DELAY_BITS: u64 = 0x3ff8_0000_0000_0000;

/// The keys of the exchange account and of the bot.
#[derive(Clone, Debug)]
pub struct Credentials {
    pub api_key: String,
    pub api_secret: String,
    pub telegram_bot_token: String,
    /// The user whom the bot listens to; zero for anyone.
    pub authorized_user_id: i64,
}

/// Why there are no credentials.
#[derive(Clone, Copy, Debug, PartialEq, Eq, Structural)]
pub enum CredentialsError {
    /// One of the two keys or the bot's token is not set.
    Missing,
}

/// The text of a variable, empty where it is not set.
pub open spec fn text_or_empty(value: Option<String>) -> Seq<char> {
    match value {
        Some(s) => s@,
        None => Seq::empty(),
    }
}

/// The user id that a variable holds; zero where it is not set or no number.
pub open spec fn user_id_of(value: Option<String>) -> i64 {
    match value {
        Some(s) => match parsed_i64(s@) {
            Some(id) => id,
            None => 0,
        },
        None => 0,
    }
}

/// The string of a variable, empty where it is not set.
fn string_or_empty(value: Option<String>) -> (r: String)
    ensures
        r@ == text_or_empty(value),
{
    match value {
        Some(s) => s,
        None => {
            proof {
                reveal_strlit("");
                assert(""@ == Seq::<char>::empty());
            }
            "".to_owned()
        },
    }
}

impl Credentials {
    /// The credentials in the values of `API_KEY`, `API_SECRET`, `TELEGRAM_BOT_TOKEN` and
    /// `AUTHORIZED_USER_ID`. The first three must be there.
    pub fn from_env(
        api_key: Option<String>,
        api_secret: Option<String>,
        telegram_bot_token: Option<String>,
        authorized_user_id: Option<String>,
    ) -> (r: Result<Credentials, CredentialsError>)
        ensures
            match r {
                Ok(c) => {
                    &&& c.api_key@ == text_or_empty(api_key) && c.api_key@.len() > 0
                    &&& c.api_secret@ == text_or_empty(api_secret) && c.api_secret@.len() > 0
                    &&& c.telegram_bot_token@ == text_or_empty(telegram_bot_token)
                        && c.telegram_bot_token@.len() > 0
                    &&& c.authorized_user_id == user_id_of(authorized_user_id)
                },
                Err(CredentialsError::Missing) => text_or_empty(api_key).len() == 0
                    || text_or_empty(api_secret).len() == 0 || text_or_empty(
                    telegram_bot_token,
                ).len() == 0,
            },
    {
        let id: i64 = match authorized_user_id {
            Some(s) => match parse_i64(s.as_str()) {
                Some(id) => id,
                None => 0,
            },
            None => 0,
        };
        let key: String = string_or_empty(api_key);
        let secret: String = string_or_empty(api_secret);
        let token: String = string_or_empty(telegram_bot_token);
        if key.as_str().unicode_len() == 0 || secret.as_str().unicode_len() == 0
            || token.as_str().unicode_len() == 0 {
            return Err(CredentialsError::Missing);
        }
        Ok(
            Credentials {
                api_key: key,
                api_secret: secret,
                telegram_bot_token: token,
                authorized_user_id: id,
            },
        )
    }
}

/// The settings.
#[derive(Clone, Debug)]
pub struct Config {
    pub running: bool,
    pub auto_trade_enabled: bool,
    /// The currencies that trades start from and end in.
    pub base_assets: Vec<String>,
    pub maker_only: bool,
    pub simulation_start_amount: Amount,
    pub taker_fee_rate: Amount,
    pub min_trade_amount_usd_equivalent: Amount,
    pub use_quote_order_qty_for_buy: bool,
    pub max_trade_retries: u32,
    pub trade_retry_delay_sec: Double,
    pub min_profit_full_sim_percent: Amount,
    pub max_arbitrage_depth: usize,
    pub min_24h_quote_volume: Amount,
    pub risk_assessment_enabled: bool,
    pub min_profit_after_slippage_percent: Amount,
    pub max_allowed_slippage_percent_total: Amount,
    pub max_bid_ask_spread_percent_per_step: Amount,
    pub min_depth_required_usd: Amount,
    pub order_book_depth: usize,
    pub ticker_warmup_ratio: Double,
    pub ticker_warmup_timeout_seconds: u64,
    pub ticker_warmup_min_valid: usize,
    pub websocket_chunk_size: usize,
    pub balance_update_interval_seconds: u64,
    pub ticker_batch_size: usize,
    pub orderbook_fetch_max_workers: usize,
    pub use_threaded_orderbook_fetch: bool,
}

/// The settings as values: amounts as mantissa and scale.
#[verifier::ext_equal]
pub struct ConfigView {
    pub running: bool,
    pub auto_trade_enabled: bool,
    pub base_assets: Seq<Seq<char>>,
    pub maker_only: bool,
    pub simulation_start_amount: (int, int),
    pub taker_fee_rate: (int, int),
    pub min_trade_amount_usd_equivalent: (int, int),
    pub use_quote_order_qty_for_buy: bool,
    pub max_trade_retries: u32,
    pub trade_retry_delay_sec: Double,
    pub min_profit_full_sim_percent: (int, int),
    pub max_arbitrage_depth: usize,
    pub min_24h_quote_volume: (int, int),
    pub risk_assessment_enabled: bool,
    pub min_profit_after_slippage_percent: (int, int),
    pub max_allowed_slippage_percent_total: (int, int),
    pub max_bid_ask_spread_percent_per_step: (int, int),
    pub min_depth_required_usd: (int, int),
    pub order_book_depth: usize,
    pub ticker_warmup_ratio: Double,
    pub ticker_warmup_timeout_seconds: u64,
    pub ticker_warmup_min_valid: usize,
    pub websocket_chunk_size: usize,
    pub balance_update_interval_seconds: u64,
    pub ticker_batch_size: usize,
    pub orderbook_fetch_max_workers: usize,
    pub use_threaded_orderbook_fetch: bool,
}

impl View for Config {
    type V = ConfigView;

    open spec fn view(&self) -> ConfigView {
        ConfigView {
            running: self.running,
            auto_trade_enabled: self.auto_trade_enabled,
            base_assets: texts(self.base_assets@),
            maker_only: self.maker_only,
            simulation_start_amount: self.simulation_start_amount@,
            taker_fee_rate: self.taker_fee_rate@,
            min_trade_amount_usd_equivalent: self.min_trade_amount_usd_equivalent@,
            use_quote_order_qty_for_buy: self.use_quote_order_qty_for_buy,
            max_trade_retries: self.max_trade_retries,
            trade_retry_delay_sec: self.trade_retry_delay_sec,
            min_profit_full_sim_percent: self.min_profit_full_sim_percent@,
            max_arbitrage_depth: self.max_arbitrage_depth,
            min_24h_quote_volume: self.min_24h_quote_volume@,
            risk_assessment_enabled: self.risk_assessment_enabled,
            min_profit_after_slippage_percent: self.min_profit_after_slippage_percent@,
            max_allowed_slippage_percent_total: self.max_allowed_slippage_percent_total@,
            max_bid_ask_spread_percent_per_step: self.max_bid_ask_spread_percent_per_step@,
            min_depth_required_usd: self.min_depth_required_usd@,
            order_book_depth: self.order_book_depth,
            ticker_warmup_ratio: self.ticker_warmup_ratio,
            ticker_warmup_timeout_seconds: self.ticker_warmup_timeout_seconds,
            ticker_warmup_min_valid: self.ticker_warmup_min_valid,
            websocket_chunk_size: self.websocket_chunk_size,
            balance_update_interval_seconds: self.balance_update_interval_seconds,
            ticker_batch_size: self.ticker_batch_size,
            orderbook_fetch_max_workers: self.orderbook_fetch_max_workers,
            use_threaded_orderbook_fetch: self.use_threaded_orderbook_fetch,
        }
    }
}

/// The settings without anything set.
pub open spec fn default_config() -> ConfigView {
    ConfigView {
        running: true,
        auto_trade_enabled: false,
        base_assets: seq!["USDT"@],
        maker_only: false,
        simulation_start_amount: (1000, 1),
        taker_fee_rate: (75, 5),
        min_trade_amount_usd_equivalent: (60, 1),
        use_quote_order_qty_for_buy: true,
        max_trade_retries: 2,
        trade_retry_delay_sec: Double { bits: RETRY_DELAY_BITS },
        min_profit_full_sim_percent: (5, 2),
        max_arbitrage_depth: 6,
        min_24h_quote_volume: (100000, 0),
        risk_assessment_enabled: true,
        min_profit_after_slippage_percent: (5, 2),
        max_allowed_slippage_percent_total: (15, 2),
        max_bid_ask_spread_percent_per_step: (50, 2),
        min_depth_required_usd: (1000, 1),
        order_book_depth: 10,
        ticker_warmup_ratio: Double { bits: WARMUP_RATIO_BITS },
        ticker_warmup_timeout_seconds: 20,
        ticker_warmup_min_valid: 0,
        websocket_chunk_size: 180,
        balance_update_interval_seconds: 60,
        ticker_batch_size: 200,
        orderbook_fetch_max_workers: 4,
        use_threaded_orderbook_fetch: true,
    }
}

impl Default for Config {
    fn default() -> (r: Config)
        ensures
            r@ == default_config(),
    {
        let mut base_assets: Vec<String> = Vec::new();
        base_assets.push("USDT".to_owned());
        assert(texts(base_assets@) == seq!["USDT"@]);
        Config {
            running: true,
            auto_trade_enabled: false,
            base_assets,
            maker_only: false,
            simulation_start_amount: Amount::small(1000, 1),
            taker_fee_rate: Amount::small(75, 5),
            min_trade_amount_usd_equivalent: Amount::small(60, 1),
            use_quote_order_qty_for_buy: true,
            max_trade_retries: 2,
            trade_retry_delay_sec: Double { bits: RETRY_DELAY_BITS },
            min_profit_full_sim_percent: Amount::small(5, 2),
            max_arbitrage_depth: 6,
            min_24h_quote_volume: Amount::small(100000, 0),
            risk_assessment_enabled: true,
            min_profit_after_slippage_percent: Amount::small(5, 2),
            max_allowed_slippage_percent_total: Amount::small(15, 2),
            max_bid_ask_spread_percent_per_step: Amount::small(50, 2),
            min_depth_required_usd: Amount::small(1000, 1),
            order_book_depth: 10,
            ticker_warmup_ratio: Double { bits: WARMUP_RATIO_BITS },
            ticker_warmup_timeout_seconds: 20,
            ticker_warmup_min_valid: 0,
            websocket_chunk_size: 180,
            balance_update_interval_seconds: 60,
            ticker_batch_size: 200,
            orderbook_fetch_max_workers: 4,
            use_threaded_orderbook_fetch: true,
        }
    }
}

/// The values of the variables that change the settings, where they are set.
pub struct Settings {
    pub base_assets: Option<String>,
    pub maker_only: Option<String>,
    pub max_arbitrage_depth: Option<String>,
    pub websocket_chunk_size: Option<String>,
    /// The number that `TICKER_WARMUP_RATIO` holds, without the white space around it.
    pub ticker_warmup_ratio: Option<Double>,
    pub ticker_warmup_timeout_sec: Option<String>,
    pub ticker_warmup_min_valid: Option<String>,
}

/// The currencies among the parts of a list: trimmed, in upper case, in order and each once.
pub open spec fn asset_list(parts: Seq<Seq<char>>) -> Seq<Seq<char>>
    decreases parts.len(),
{
    if parts.len() == 0 {
        Seq::empty()
    } else {
        let rest = asset_list(parts.drop_last());
        let name = trimmed(parts.last());
        if name.len() == 0 {
            rest
        } else {
            with_name(rest, upper_case(name))
        }
    }
}

/// The currencies in a list with commas, or the given ones where there are none.
pub open spec fn assets_from(value: Option<String>, otherwise: Seq<Seq<char>>) -> Seq<Seq<char>> {
    match value {
        Some(s) => if asset_list(split_by(s@, ',')).len() > 0 {
            asset_list(split_by(s@, ','))
        } else {
            otherwise
        },
        None => otherwise,
    }
}

/// Whether a word means yes.
pub open spec fn affirms(text: Seq<char>) -> bool {
    let word = lower_case(trimmed(text));
    word == "1"@ || word == "true"@ || word == "yes"@ || word == "on"@
}

/// The number that a variable holds.
pub open spec fn usize_from(value: Option<String>) -> Option<usize> {
    match value {
        Some(s) => parsed_usize(trimmed(s@)),
        None => None,
    }
}

/// The number that a variable holds, where it is not zero.
pub open spec fn positive_from(value: Option<String>, otherwise: usize) -> usize {
    match usize_from(value) {
        Some(n) => if n > 0 {
            n
        } else {
            otherwise
        },
        None => otherwise,
    }
}

/// Whether a number is a share: above zero and at most one.
pub open spec fn is_share(x: Double) -> bool {
    x.finite() && less(zero(), x) && at_most(x, one())
}

/// The settings with the values that variables give them.
pub open spec fn configured(s: Settings) -> ConfigView {
    let d = default_config();
    ConfigView {
        base_assets: assets_from(s.base_assets, d.base_assets),
        maker_only: match s.maker_only {
            Some(v) => affirms(v@),
            None => d.maker_only,
        },
        max_arbitrage_depth: positive_from(s.max_arbitrage_depth, d.max_arbitrage_depth),
        websocket_chunk_size: positive_from(s.websocket_chunk_size, d.websocket_chunk_size),
        ticker_warmup_ratio: match s.ticker_warmup_ratio {
            Some(x) => if is_share(x) {
                x
            } else {
                d.ticker_warmup_ratio
            },
            None => d.ticker_warmup_ratio,
        },
        ticker_warmup_timeout_seconds: match s.ticker_warmup_timeout_sec {
            Some(v) => match parsed_u64(trimmed(v@)) {
                Some(n) => n,
                None => d.ticker_warmup_timeout_seconds,
            },
            None => d.ticker_warmup_timeout_seconds,
        },
        ticker_warmup_min_valid: match usize_from(s.ticker_warmup_min_valid) {
            Some(n) => n,
            None => d.ticker_warmup_min_valid,
        },
        ..d
    }
}

/// The currencies in a list with commas.
fn parse_assets(text: &str) -> (r: Vec<String>)
    ensures
        texts(r@) == asset_list(split_by(text@, ',')),
{
    let parts: Vec<String> = split_at_char(text, ',');
    let ghost all = texts(parts@);
    let mut r: Vec<String> = Vec::new();
    let mut i: usize = 0;
    assert(all.take(0) == Seq::<Seq<char>>::empty());
    assert(texts(r@) == Seq::<Seq<char>>::empty());
    while i < parts.len()
        invariant
            i <= parts.len(),
            all == texts(parts@),
            texts(r@) == asset_list(all.take(i as int)),
            in_order(texts(r@)),
        decreases parts.len() - i,
    {
        let ghost head = all.take(i + 1);
        assert(head.drop_last() == all.take(i as int) && head.last() == parts@[i as int]@);
        let name: &str = parts[i].as_str().trim();
        if name.unicode_len() > 0 {
            let upper: String = name.to_uppercase();
            insert_name(&mut r, &upper);
        }
        i = i + 1;
    }
    assert(all.take(all.len() as int) == all);
    r
}

/// Whether a word means yes.
pub(crate) fn is_affirmative(text: &str) -> (r: bool)
    ensures
        r == affirms(text@),
{
    let word: String = text.trim().to_lowercase();
    let w: &str = word.as_str();
    *w == *"1" || *w == *"true" || *w == *"yes" || *w == *"on"
}

/// The number that a variable holds.
fn read_usize(value: &Option<String>) -> (r: Option<usize>)
    ensures
        r == usize_from(*value),
{
    match value {
        Some(s) => parse_usize(s.as_str().trim()),
        None => None,
    }
}

/// The number that a variable holds, where it is not zero.
fn read_positive(value: &Option<String>, otherwise: usize) -> (r: usize)
    ensures
        r == positive_from(*value, otherwise),
{
    match read_usize(value) {
        Some(n) => if n > 0 {
            n
        } else {
            otherwise
        },
        None => otherwise,
    }
}

impl Config {
    /// The settings with the values that variables give them.
    pub fn from_env_or_default(settings: &Settings) -> (r: Config)
        ensures
            r@ == configured(*settings),
    {
        let mut cfg: Config = Config::default();
        match &settings.base_assets {
            Some(v) => {
                let list: Vec<String> = parse_assets(v.as_str());
                assert(texts(list@).len() == list@.len());
                if list.len() > 0 {
                    cfg.base_assets = list;
                }
            },
            None => {},
        }
        match &settings.maker_only {
            Some(v) => {
                cfg.maker_only = is_affirmative(v.as_str());
            },
            None => {},
        }
        cfg.max_arbitrage_depth = read_positive(
            &settings.max_arbitrage_depth,
            cfg.max_arbitrage_depth,
        );
        cfg.websocket_chunk_size = read_positive(
            &settings.websocket_chunk_size,
            cfg.websocket_chunk_size,
        );
        match settings.ticker_warmup_ratio {
            Some(x) => {
                if x.is_finite() && x.gt(Double::zero_value()) && x.le(Double::one_value()) {
                    cfg.ticker_warmup_ratio = x;
                }
            },
            None => {},
        }
        match &settings.ticker_warmup_timeout_sec {
            Some(v) => match parse_u64(v.as_str().trim()) {
                Some(n) => {
                    cfg.ticker_warmup_timeout_seconds = n;
                },
                None => {},
            },
            None => {},
        }
        match read_usize(&settings.ticker_warmup_min_valid) {
            Some(n) => {
                cfg.ticker_warmup_min_valid = n;
            },
            None => {},
        }
        cfg
    }

    /// Sets the fee of a trade.
    pub fn set_fee_rate(&mut self, fee: Amount)
        ensures
            final(self)@ == (ConfigView { taker_fee_rate: fee@, ..old(self)@ }),
    {
        self.taker_fee_rate = fee;
    }

    /// Sets the profit that a simulation must show.
    pub fn set_min_profit(&mut self, min_profit_percent: Amount)
        ensures
            final(self)@ == (ConfigView {
                min_profit_full_sim_percent: min_profit_percent@,
                ..old(self)@
            }),
    {
        self.min_profit_full_sim_percent = min_profit_percent;
    }

    /// Sets the largest number of trades in a cycle.
    pub fn set_max_depth(&mut self, depth: usize)
        ensures
            final(self)@ == (ConfigView { max_arbitrage_depth: depth, ..old(self)@ }),
    {
        self.max_arbitrage_depth = depth;
    }

    /// The first of the currencies that trades start from.
    pub fn primary_base_asset(&self) -> (r: &str)
        ensures
            r@ == (if self@.base_assets.len() > 0 {
                self@.base_assets[0]
            } else {
                "USDT"@
            }),
    {
        if self.base_assets.len() > 0 {
            self.base_assets[0].as_str()
        } else {
            "USDT"
        }
    }
}

/// A list of currencies that was read is in order, and holds no currency twice.
pub proof fn lemma_assets_in_order(parts: Seq<Seq<char>>)
    ensures
        in_order(asset_list(parts)),
    decreases parts.len(),
{
    if parts.len() > 0 {
        lemma_assets_in_order(parts.drop_last());
        lemma_with_name(asset_list(parts.drop_last()), upper_case(trimmed(parts.last())));
    }
}

/// The settings always allow a search and a stream: from whatever values they come, cycles may
/// have a trade, streams a symbol, and there is a currency to start from.
pub proof fn lemma_configured_usable(s: Settings)
    ensures
        configured(s).max_arbitrage_depth > 0,
        configured(s).websocket_chunk_size > 0,
        configured(s).base_assets.len() > 0,
{
}

} // verus!
