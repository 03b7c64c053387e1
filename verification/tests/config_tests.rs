use tnt_delivery_bot::config::{parse_i64, parse_u64, Config, ConfigError, ConfigVars};

fn vars(bot: Option<&str>) -> ConfigVars {
    ConfigVars {
        bot_token: bot.map(|s| s.to_string()),
        db_path: None,
        tick_seconds: None,
        poll_period_ticks: None,
        token_ttl_hours: None,
        max_fetch_failures: None,
        api_base: None,
        http_proxy: None,
    }
}

#[test]
fn defaults_and_validation() {
    let c = Config::from_vars(vars(Some("x"))).unwrap();
    assert_eq!(c.tick_seconds, 10);
    assert_eq!(c.poll_period_ticks, 12);
    assert_eq!(c.token_ttl_hours, 24);
    assert_eq!(c.max_fetch_failures, 5);
    assert_eq!(c.db_path, "./tnt-delivery-bot.sqlite");
    assert_eq!(c.api_base, "https://tmsapi.tntsupermarket.us/track/customer");
    assert_eq!(c.http_proxy, None);

    let mut v = vars(Some("x"));
    v.poll_period_ticks = Some("0".into());
    assert_eq!(Config::from_vars(v).unwrap_err(), ConfigError::PollPeriodZero);

    assert_eq!(Config::from_vars(vars(None)).unwrap_err(), ConfigError::MissingBotToken);
}

#[test]
fn blank_token_rejected() {
    assert_eq!(Config::from_vars(vars(Some(" \t"))).unwrap_err(), ConfigError::EmptyBotToken);
}

#[test]
fn invalid_numbers_name_the_variable() {
    let mut v = vars(Some("x"));
    v.tick_seconds = Some("ten".into());
    let e = Config::from_vars(v).unwrap_err();
    assert_eq!(e.message(), "invalid value for TICK_SECONDS: ten");
    let mut v = vars(Some("x"));
    v.token_ttl_hours = Some("0".into());
    assert_eq!(Config::from_vars(v).unwrap_err().message(), "TOKEN_TTL_HOURS must be >= 1");
    let mut v = vars(Some("x"));
    v.max_fetch_failures = Some("-3".into());
    assert_eq!(Config::from_vars(v).unwrap_err(), ConfigError::MaxFailuresTooSmall);
    let mut v = vars(Some("x"));
    v.tick_seconds = Some("0".into());
    assert_eq!(Config::from_vars(v).unwrap_err().message(), "TICK_SECONDS must be > 0");
}

#[test]
fn proxy_and_overrides() {
    let mut v = vars(Some("x"));
    v.http_proxy = Some("".into());
    v.db_path = Some("/tmp/db".into());
    v.tick_seconds = Some("+7".into());
    let c = Config::from_vars(v).unwrap();
    assert_eq!(c.http_proxy, None);
    assert_eq!(c.db_path, "/tmp/db");
    assert_eq!(c.tick_seconds, 7);
    let mut v = vars(Some("x"));
    v.http_proxy = Some("http://p:1".into());
    assert_eq!(Config::from_vars(v).unwrap().http_proxy.as_deref(), Some("http://p:1"));
}

#[test]
fn integer_parsing_matches_std() {
    for s in ["0", "+1", "-1", "18446744073709551615", "18446744073709551616", "", "+", "-", " 1", "1 ", "12a", "007", "-0", "9223372036854775807", "9223372036854775808", "-9223372036854775808", "-9223372036854775809", "+-1", "٣"] {
        assert_eq!(parse_u64(s), s.parse::<u64>().ok(), "u64 {s:?}");
        assert_eq!(parse_i64(s), s.parse::<i64>().ok(), "i64 {s:?}");
    }
}
