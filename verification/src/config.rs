use vstd::prelude::*;
use crate::text::{digit_char, int_text, nat_digits, trim_seq, trim_str};

verus! {

/// Runtime settings.
#[derive(Debug, Clone)]
pub struct Config {
    /// Secret: never log it.
    pub bot_token: String,
    pub db_path: String,
    pub tick_seconds: u64,
    /// N: every token is polled once per N ticks.
    pub poll_period_ticks: u64,
    pub token_ttl_hours: i64,
    pub max_fetch_failures: i64,
    pub api_base: String,
    pub http_proxy: Option<String>,
}

/// The raw settings as found in the environment (`None` when unset).
pub struct ConfigVars {
    pub bot_token: Option<String>,
    pub db_path: Option<String>,
    pub tick_seconds: Option<String>,
    pub poll_period_ticks: Option<String>,
    pub token_ttl_hours: Option<String>,
    pub max_fetch_failures: Option<String>,
    pub api_base: Option<String>,
    pub http_proxy: Option<String>,
}

/// Why the settings were rejected.
#[derive(Debug, PartialEq)]
pub enum ConfigError {
    MissingBotToken,
    EmptyBotToken,
    InvalidValue { key: String, value: String },
    TickSecondsZero,
    PollPeriodZero,
    TtlTooSmall,
    MaxFailuresTooSmall,
}

/// The text of a settings error.
pub open spec fn config_error_text(e: ConfigErrorKind) -> Seq<char> {
    match e {
        ConfigErrorKind::MissingBotToken => "BOT_TOKEN is required"@,
        ConfigErrorKind::EmptyBotToken => "BOT_TOKEN is empty"@,
        ConfigErrorKind::Invalid(k, v) => "invalid value for "@ + k + ": "@ + v,
        ConfigErrorKind::TickSecondsZero => "TICK_SECONDS must be > 0"@,
        ConfigErrorKind::PollPeriodZero => "POLL_PERIOD_TICKS must be >= 1"@,
        ConfigErrorKind::TtlTooSmall => "TOKEN_TTL_HOURS must be >= 1"@,
        ConfigErrorKind::MaxFailuresTooSmall => "MAX_FETCH_FAILURES must be >= 1"@,
    }
}

impl ConfigError {
    /// The error text.
    pub fn message(&self) -> (s: String)
        ensures
            s@ == config_error_text(self@),
    {
        match self {
            ConfigError::MissingBotToken => String::from_str("BOT_TOKEN is required"),
            ConfigError::EmptyBotToken => String::from_str("BOT_TOKEN is empty"),
            ConfigError::InvalidValue { key, value } => {
                let mut s = String::from_str("invalid value for ");
                s.append(key.as_str());
                s.append(": ");
                s.append(value.as_str());
                s
            },
            ConfigError::TickSecondsZero => String::from_str("TICK_SECONDS must be > 0"),
            ConfigError::PollPeriodZero => String::from_str("POLL_PERIOD_TICKS must be >= 1"),
            ConfigError::TtlTooSmall => String::from_str("TOKEN_TTL_HOURS must be >= 1"),
            ConfigError::MaxFailuresTooSmall => String::from_str("MAX_FETCH_FAILURES must be >= 1"),
        }
    }
}

pub open spec fn is_digit(c: char) -> bool {
    '0' <= c <= '9'
}

/// Value of a string of decimal digits.
pub open spec fn digits_value(d: Seq<char>) -> int
    decreases d.len(),
{
    if d.len() == 0 {
        0
    } else {
        digits_value(d.drop_last()) * 10 + (d.last() as int - '0' as int)
    }
}

pub open spec fn all_digits(d: Seq<char>) -> bool {
    forall|i: int| 0 <= i < d.len() ==> is_digit(#[trigger] d[i])
}

/// `str::parse::<u64>`: an optional `+`, then one or more decimal digits
/// whose value fits.
pub open spec fn parse_u64_spec(s: Seq<char>) -> Option<u64> {
    let d = if s.len() > 0 && s[0] == '+' {
        s.drop_first()
    } else {
        s
    };
    if d.len() > 0 && all_digits(d) && digits_value(d) <= u64::MAX {
        Some(digits_value(d) as u64)
    } else {
        None
    }
}

/// `str::parse::<i64>`: an optional `+` or `-`, then one or more decimal
/// digits whose signed value fits.
pub open spec fn parse_i64_spec(s: Seq<char>) -> Option<i64> {
    let neg = s.len() > 0 && s[0] == '-';
    let d = if s.len() > 0 && (s[0] == '+' || s[0] == '-') {
        s.drop_first()
    } else {
        s
    };
    let v = if neg {
        -digits_value(d)
    } else {
        digits_value(d)
    };
    if d.len() > 0 && all_digits(d) && i64::MIN <= v <= i64::MAX {
        Some(v as i64)
    } else {
        None
    }
}

proof fn lemma_digits_value_nonneg(d: Seq<char>)
    requires
        all_digits(d),
    ensures
        digits_value(d) >= 0,
    decreases d.len(),
{
    if d.len() > 0 {
        assert(is_digit(d[d.len() - 1]));
        assert forall|i: int| 0 <= i < d.drop_last().len() implies is_digit(#[trigger] d.drop_last()[i]) by {
            assert(d.drop_last()[i] == d[i]);
        }
        lemma_digits_value_nonneg(d.drop_last());
    }
}

/// Scan the digits of `s` from `start`: `None` when some character is not a
/// digit or there is none; otherwise the value, or `bound + 1` when the value
/// exceeds `bound`.
fn scan_digits(s: &str, start: usize, bound: u128) -> (r: Option<u128>)
    requires
        start <= s@.len(),
        bound < u128::MAX / 16,
    ensures
        match r {
            None => !(s@.len() > start && all_digits(s@.skip(start as int))),
            Some(v) => s@.len() > start && all_digits(s@.skip(start as int)) && (if digits_value(
                s@.skip(start as int),
            ) <= bound {
                v == digits_value(s@.skip(start as int))
            } else {
                v == bound + 1
            }),
        },
{
    let n = s.unicode_len();
    if n == start {
        return None;
    }
    let ghost d = s@.skip(start as int);
    let mut acc: u128 = 0;
    let mut i: usize = start;
    assert(d.take(0) =~= Seq::<char>::empty());
    while i < n
        invariant
            n == s@.len(),
            start < n,
            d == s@.skip(start as int),
            start <= i <= n,
            all_digits(d.take(i - start)),
            bound < u128::MAX / 16,
            acc <= bound + 1,
            digits_value(d.take(i - start)) <= bound ==> acc == digits_value(d.take(i - start)),
            digits_value(d.take(i - start)) > bound ==> acc == bound + 1,
        decreases n - i,
    {
        let c = s.get_char(i);
        assert(d[i - start] == c);
        if !('0' <= c && c <= '9') {
            assert(!is_digit(d[i - start]));
            return None;
        }
        let ghost p = d.take(i - start);
        let ghost q = d.take(i - start + 1);
        assert(q.drop_last() =~= p);
        assert(q.last() == c);
        assert forall|k: int| 0 <= k < q.len() implies is_digit(#[trigger] q[k]) by {
            if k < p.len() {
                assert(q[k] == p[k]);
            }
        }
        proof {
            lemma_digits_value_nonneg(p);
        }
        let dv = (c as u32 - '0' as u32) as u128;
        if acc > bound {
            acc = bound + 1;
        } else {
            let next = acc * 10 + dv;
            if next > bound {
                acc = bound + 1;
            } else {
                acc = next;
            }
        }
        i = i + 1;
    }
    assert(d.take(n - start) =~= d);
    Some(acc)
}

/// `str::parse::<u64>`.
pub fn parse_u64(s: &str) -> (r: Option<u64>)
    ensures
        r == parse_u64_spec(s@),
{
    let n = s.unicode_len();
    let start: usize = if n > 0 && s.get_char(0) == '+' { 1 } else { 0 };
    if start == 1 {
        assert(s@.skip(1) =~= s@.drop_first());
    } else {
        assert(s@.skip(0) =~= s@);
    }
    match scan_digits(s, start, u64::MAX as u128) {
        None => None,
        Some(v) => {
            if v > u64::MAX as u128 {
                None
            } else {
                Some(v as u64)
            }
        },
    }
}

/// `str::parse::<i64>`.
pub fn parse_i64(s: &str) -> (r: Option<i64>)
    ensures
        r == parse_i64_spec(s@),
{
    let n = s.unicode_len();
    let neg = n > 0 && s.get_char(0) == '-';
    let start: usize = if n > 0 && (s.get_char(0) == '+' || s.get_char(0) == '-') { 1 } else { 0 };
    if start == 1 {
        assert(s@.skip(1) =~= s@.drop_first());
    } else {
        assert(s@.skip(0) =~= s@);
    }
    let bound: u128 = 0x8000_0000_0000_0000;
    match scan_digits(s, start, bound) {
        None => None,
        Some(v) => {
            proof {
                lemma_digits_value_nonneg(s@.skip(start as int));
            }
            if neg {
                if v > bound {
                    None
                } else {
                    Some((0 - (v as i128)) as i64)
                }
            } else {
                if v > i64::MAX as u128 {
                    None
                } else {
                    Some(v as i64)
                }
            }
        },
    }
}

/// The mathematical value of `ConfigVars`.
pub struct VarsView {
    pub bot_token: Option<Seq<char>>,
    pub db_path: Option<Seq<char>>,
    pub tick_seconds: Option<Seq<char>>,
    pub poll_period_ticks: Option<Seq<char>>,
    pub token_ttl_hours: Option<Seq<char>>,
    pub max_fetch_failures: Option<Seq<char>>,
    pub api_base: Option<Seq<char>>,
    pub http_proxy: Option<Seq<char>>,
}

pub open spec fn opt_str_view(o: Option<String>) -> Option<Seq<char>> {
    match o {
        Some(s) => Some(s@),
        None => None,
    }
}

impl View for ConfigVars {
    type V = VarsView;

    open spec fn view(&self) -> VarsView {
        VarsView {
            bot_token: opt_str_view(self.bot_token),
            db_path: opt_str_view(self.db_path),
            tick_seconds: opt_str_view(self.tick_seconds),
            poll_period_ticks: opt_str_view(self.poll_period_ticks),
            token_ttl_hours: opt_str_view(self.token_ttl_hours),
            max_fetch_failures: opt_str_view(self.max_fetch_failures),
            api_base: opt_str_view(self.api_base),
            http_proxy: opt_str_view(self.http_proxy),
        }
    }
}

/// An unsigned setting: its default when unset, else its parsed value.
pub open spec fn u64_setting(v: Option<Seq<char>>, default: u64) -> Option<u64> {
    match v {
        None => Some(default),
        Some(s) => parse_u64_spec(s),
    }
}

/// A signed setting: its default when unset, else its parsed value.
pub open spec fn i64_setting(v: Option<Seq<char>>, default: i64) -> Option<i64> {
    match v {
        None => Some(default),
        Some(s) => parse_i64_spec(s),
    }
}

/// Which check the settings fail first, in the order they are made:
/// token present, token not blank, the four numbers parse (in order), then
/// their bounds (in order).
pub open spec fn config_error_spec(v: VarsView) -> Option<ConfigErrorKind> {
    if v.bot_token is None {
        Some(ConfigErrorKind::MissingBotToken)
    } else if trim_seq(v.bot_token->0).len() == 0 {
        Some(ConfigErrorKind::EmptyBotToken)
    } else if u64_setting(v.tick_seconds, 10) is None {
        Some(ConfigErrorKind::Invalid("TICK_SECONDS"@, v.tick_seconds->0))
    } else if u64_setting(v.poll_period_ticks, 12) is None {
        Some(ConfigErrorKind::Invalid("POLL_PERIOD_TICKS"@, v.poll_period_ticks->0))
    } else if i64_setting(v.token_ttl_hours, 24) is None {
        Some(ConfigErrorKind::Invalid("TOKEN_TTL_HOURS"@, v.token_ttl_hours->0))
    } else if i64_setting(v.max_fetch_failures, 5) is None {
        Some(ConfigErrorKind::Invalid("MAX_FETCH_FAILURES"@, v.max_fetch_failures->0))
    } else if u64_setting(v.tick_seconds, 10)->0 == 0 {
        Some(ConfigErrorKind::TickSecondsZero)
    } else if u64_setting(v.poll_period_ticks, 12)->0 == 0 {
        Some(ConfigErrorKind::PollPeriodZero)
    } else if i64_setting(v.token_ttl_hours, 24)->0 < 1 {
        Some(ConfigErrorKind::TtlTooSmall)
    } else if i64_setting(v.max_fetch_failures, 5)->0 < 1 {
        Some(ConfigErrorKind::MaxFailuresTooSmall)
    } else {
        None
    }
}

/// The mathematical value of a `ConfigError`.
pub enum ConfigErrorKind {
    MissingBotToken,
    EmptyBotToken,
    Invalid(Seq<char>, Seq<char>),
    TickSecondsZero,
    PollPeriodZero,
    TtlTooSmall,
    MaxFailuresTooSmall,
}

impl View for ConfigError {
    type V = ConfigErrorKind;

    open spec fn view(&self) -> ConfigErrorKind {
        match self {
            ConfigError::MissingBotToken => ConfigErrorKind::MissingBotToken,
            ConfigError::EmptyBotToken => ConfigErrorKind::EmptyBotToken,
            ConfigError::InvalidValue { key, value } => ConfigErrorKind::Invalid(key@, value@),
            ConfigError::TickSecondsZero => ConfigErrorKind::TickSecondsZero,
            ConfigError::PollPeriodZero => ConfigErrorKind::PollPeriodZero,
            ConfigError::TtlTooSmall => ConfigErrorKind::TtlTooSmall,
            ConfigError::MaxFailuresTooSmall => ConfigErrorKind::MaxFailuresTooSmall,
        }
    }
}

/// The settings that valid variables give: defaults for unset values, the
/// default database path and API address when unset, no proxy when unset or empty.
pub open spec fn config_fields_ok(v: VarsView, c: Config) -> bool {
    &&& Some(c.bot_token@) == v.bot_token
    &&& c.db_path@ == match v.db_path {
        Some(p) => p,
        None => "./tnt-delivery-bot.sqlite"@,
    }
    &&& Some(c.tick_seconds) == u64_setting(v.tick_seconds, 10)
    &&& Some(c.poll_period_ticks) == u64_setting(v.poll_period_ticks, 12)
    &&& Some(c.token_ttl_hours) == i64_setting(v.token_ttl_hours, 24)
    &&& Some(c.max_fetch_failures) == i64_setting(v.max_fetch_failures, 5)
    &&& c.api_base@ == match v.api_base {
        Some(p) => p,
        None => "https://tmsapi.tntsupermarket.us/track/customer"@,
    }
    &&& opt_str_view(c.http_proxy) == match v.http_proxy {
        Some(p) => if p.len() == 0 {
            None
        } else {
            Some(p)
        },
        None => None,
    }
}

fn u64_var(v: &Option<String>, default: u64) -> (r: Option<u64>)
    ensures
        r == u64_setting(opt_str_view(*v), default),
{
    match v {
        None => Some(default),
        Some(s) => parse_u64(s.as_str()),
    }
}

fn i64_var(v: &Option<String>, default: i64) -> (r: Option<i64>)
    ensures
        r == i64_setting(opt_str_view(*v), default),
{
    match v {
        None => Some(default),
        Some(s) => parse_i64(s.as_str()),
    }
}

fn invalid(key: &str, v: &Option<String>) -> (e: ConfigError)
    requires
        v is Some,
    ensures
        e@ == ConfigErrorKind::Invalid(key@, v->0@),
{
    let value = match v {
        Some(s) => s.clone(),
        None => String::new(),
    };
    ConfigError::InvalidValue { key: String::from_str(key), value }
}

impl Config {
    /// Settings from raw variables: `BOT_TOKEN` is required and must not be
    /// blank; `TICK_SECONDS` (default 10) and `POLL_PERIOD_TICKS` (default
    /// 12) must be positive; `TOKEN_TTL_HOURS` (default 24) and
    /// `MAX_FETCH_FAILURES` (default 5) must be at least 1.
    pub fn from_vars(vars: ConfigVars) -> (r: Result<Config, ConfigError>)
        ensures
            match r {
                Ok(c) => config_error_spec(vars@) is None && config_fields_ok(vars@, c),
                Err(e) => config_error_spec(vars@) == Some(e@),
            },
    {
        let ghost v = vars@;
        let bot_token = match vars.bot_token {
            None => return Err(ConfigError::MissingBotToken),
            Some(t) => t,
        };
        if trim_str(bot_token.as_str()).unicode_len() == 0 {
            return Err(ConfigError::EmptyBotToken);
        }
        let tick = match u64_var(&vars.tick_seconds, 10) {
            None => return Err(invalid("TICK_SECONDS", &vars.tick_seconds)),
            Some(x) => x,
        };
        let poll = match u64_var(&vars.poll_period_ticks, 12) {
            None => return Err(invalid("POLL_PERIOD_TICKS", &vars.poll_period_ticks)),
            Some(x) => x,
        };
        let ttl = match i64_var(&vars.token_ttl_hours, 24) {
            None => return Err(invalid("TOKEN_TTL_HOURS", &vars.token_ttl_hours)),
            Some(x) => x,
        };
        let max_fail = match i64_var(&vars.max_fetch_failures, 5) {
            None => return Err(invalid("MAX_FETCH_FAILURES", &vars.max_fetch_failures)),
            Some(x) => x,
        };
        let db_path = match vars.db_path {
            Some(p) => p,
            None => String::from_str("./tnt-delivery-bot.sqlite"),
        };
        let api_base = match vars.api_base {
            Some(p) => p,
            None => String::from_str("https://tmsapi.tntsupermarket.us/track/customer"),
        };
        let http_proxy = match vars.http_proxy {
            Some(p) => if p.as_str().unicode_len() == 0 {
                None
            } else {
                Some(p)
            },
            None => None,
        };
        if tick == 0 {
            return Err(ConfigError::TickSecondsZero);
        }
        if poll == 0 {
            return Err(ConfigError::PollPeriodZero);
        }
        if ttl < 1 {
            return Err(ConfigError::TtlTooSmall);
        }
        if max_fail < 1 {
            return Err(ConfigError::MaxFailuresTooSmall);
        }
        Ok(
            Config {
                bot_token,
                db_path,
                tick_seconds: tick,
                poll_period_ticks: poll,
                token_ttl_hours: ttl,
                max_fetch_failures: max_fail,
                api_base,
                http_proxy,
            },
        )
    }
}

proof fn lemma_nat_digits_value(m: nat)
    ensures
        nat_digits(m).len() > 0,
        all_digits(nat_digits(m)),
        digits_value(nat_digits(m)) == m,
    decreases m,
{
    if m < 10 {
        let d = nat_digits(m);
        assert(d.drop_last() =~= Seq::<char>::empty());
        assert(digit_char(m as int) as int == '0' as int + m);
        assert(d.last() == digit_char(m as int));
        assert(digits_value(d.drop_last()) == 0);
        assert(is_digit(d[0]));
    } else {
        let q = m / 10;
        let r = m % 10;
        lemma_nat_digits_value(q);
        let d = nat_digits(m);
        assert(d.drop_last() =~= nat_digits(q));
        assert(digit_char(r as int) as int == '0' as int + r);
        assert(d.last() == digit_char(r as int));
        assert(m == q * 10 + r) by (nonlinear_arith)
            requires
                q == m / 10,
                r == m % 10,
        ;
        assert forall|i: int| 0 <= i < d.len() implies is_digit(#[trigger] d[i]) by {
            if i < d.len() - 1 {
                assert(d[i] == nat_digits(q)[i]);
            }
        }
    }
}

/// The decimal text of a number, as the library writes it into its
/// messages, reads back as that number.
pub proof fn lemma_int_text_reads_back(n: i64)
    ensures
        parse_i64_spec(int_text(n as int)) == Some(n),
{
    let s = int_text(n as int);
    if n < 0 {
        let m = (-(n as int)) as nat;
        lemma_nat_digits_value(m);
        assert(s.drop_first() =~= nat_digits(m));
    } else {
        lemma_nat_digits_value(n as nat);
        let d = nat_digits(n as nat);
        assert(is_digit(d[0]));
    }
}

} // verus!
