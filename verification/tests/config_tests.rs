use nba_standings::commands::needs_custom_season_notice;
use nba_standings::config::{Config, ConfigError, DEFAULT_CRON_SCHEDULE};

fn s(v: &str) -> Option<String> {
    Some(v.to_string())
}

#[test]
fn full_configuration_is_read() {
    let c = Config::from_values(s("tok"), s("key"), s("12345"), s("0 0 9 * * *"), s("2024")).unwrap();
    assert_eq!(c.discord_token, "tok");
    assert_eq!(c.balldontlie_api_key, "key");
    assert_eq!(c.channel_id, 12345);
    assert_eq!(c.cron_schedule, "0 0 9 * * *");
    assert_eq!(c.nba_season, Some(2024));
}

#[test]
fn defaults_apply_to_optional_values() {
    let c = Config::from_values(s("tok"), s("key"), s("+7"), None, None).unwrap();
    assert_eq!(c.channel_id, 7);
    assert_eq!(c.cron_schedule, DEFAULT_CRON_SCHEDULE);
    assert_eq!(c.cron_schedule, "0 0 15 * * *");
    assert_eq!(c.nba_season, None);
}

#[test]
fn unparsable_season_counts_as_unset() {
    let c = Config::from_values(s("tok"), s("key"), s("1"), None, s("twenty")).unwrap();
    assert_eq!(c.nba_season, None);
    let c = Config::from_values(s("tok"), s("key"), s("1"), None, s("4294967296")).unwrap();
    assert_eq!(c.nba_season, None);
}

#[test]
fn missing_values_are_errors_in_order() {
    assert_eq!(
        Config::from_values(None, None, None, None, None).unwrap_err(),
        ConfigError::MissingDiscordToken
    );
    assert_eq!(
        Config::from_values(s("t"), None, None, None, None).unwrap_err(),
        ConfigError::MissingApiKey
    );
    assert_eq!(
        Config::from_values(s("t"), s("k"), None, None, None).unwrap_err(),
        ConfigError::MissingChannelId
    );
}

#[test]
fn invalid_channel_id_is_an_error() {
    for bad in ["", "abc", "-5", " 5", "5 ", "+", "18446744073709551616"] {
        assert_eq!(
            Config::from_values(s("t"), s("k"), s(bad), None, None).unwrap_err(),
            ConfigError::InvalidChannelId,
            "{bad:?}"
        );
    }
    let c = Config::from_values(s("t"), s("k"), s("18446744073709551615"), None, None).unwrap();
    assert_eq!(c.channel_id, u64::MAX);
}

#[test]
fn error_messages_name_the_variable() {
    assert_eq!(ConfigError::MissingDiscordToken.message(), "DISCORD_TOKEN env var is required");
    assert_eq!(ConfigError::MissingApiKey.message(), "BALLDONTLIE_API_KEY env var is required");
    assert_eq!(ConfigError::MissingChannelId.message(), "CHANNEL_ID env var is required");
    assert_eq!(ConfigError::InvalidChannelId.message(), "CHANNEL_ID must be a valid u64");
}

#[test]
fn custom_season_notice_only_for_other_seasons() {
    assert!(!needs_custom_season_notice(None, Some(2024)));
    assert!(!needs_custom_season_notice(Some(2024), Some(2024)));
    assert!(needs_custom_season_notice(Some(2023), Some(2024)));
    assert!(needs_custom_season_notice(Some(2023), None));
}

#[test]
fn channel_ids_read_as_std_reads_them() {
    for (text, expected) in [
        ("0", Some(0u64)),
        ("+42", Some(42)),
        ("007", Some(7)),
        ("18446744073709551615", Some(u64::MAX)),
        ("18446744073709551616", None),
        ("", None),
        ("+", None),
        ("-1", None),
        ("12a", None),
        (" 12", None),
        ("++1", None),
    ] {
        let got = Config::from_values(s("tok"), s("key"), s(text), None, None).map(|c| c.channel_id).ok();
        assert_eq!(got, expected, "channel id {text:?}");
        assert_eq!(got, text.parse::<u64>().ok(), "channel id {text:?}");
    }
}

#[test]
fn seasons_read_as_std_reads_them() {
    for text in ["4294967295", "4294967296", "2025", "+2025", "2025 ", "", "99999999999999999999"] {
        let c = Config::from_values(s("tok"), s("key"), s("1"), None, s(text)).unwrap();
        assert_eq!(c.nba_season, text.parse::<u32>().ok(), "season {text:?}");
    }
}
