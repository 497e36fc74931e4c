//! Bot configuration, read from the values of its environment variables.
use vstd::prelude::*;

verus! {

/// The cron schedule used when none is configured: every day at 15:00.
pub const DEFAULT_CRON_SCHEDULE: &'static str = "0 0 15 * * *";

/// Bot configuration.
#[derive(Debug)]
pub struct Config {
    /// Discord bot token.
    pub discord_token: String,
    /// API key of the games API.
    pub balldontlie_api_key: String,
    /// Id of the Discord channel for the daily standings posts.
    pub channel_id: u64,
    /// Cron schedule expression for daily posting.
    pub cron_schedule: String,
    /// Optional: override the season year.
    pub nba_season: Option<u32>,
}

impl Clone for Config {
    fn clone(&self) -> (c: Self)
        ensures
            c == *self,
    {
        Config {
            discord_token: self.discord_token.clone(),
            balldontlie_api_key: self.balldontlie_api_key.clone(),
            channel_id: self.channel_id,
            cron_schedule: self.cron_schedule.clone(),
            nba_season: self.nba_season,
        }
    }
}

/// Why the configuration could not be read.
#[derive(Debug, Clone, Copy, PartialEq, Eq)]
pub enum ConfigError {
    MissingDiscordToken,
    MissingApiKey,
    MissingChannelId,
    InvalidChannelId,
}

impl ConfigError {
    /// The message of the error.
    pub fn message(&self) -> (m: &'static str)
        ensures
            m@ == match self {
                ConfigError::MissingDiscordToken => "DISCORD_TOKEN env var is required"@,
                ConfigError::MissingApiKey => "BALLDONTLIE_API_KEY env var is required"@,
                ConfigError::MissingChannelId => "CHANNEL_ID env var is required"@,
                ConfigError::InvalidChannelId => "CHANNEL_ID must be a valid u64"@,
            },
    {
        match self {
            ConfigError::MissingDiscordToken => "DISCORD_TOKEN env var is required",
            ConfigError::MissingApiKey => "BALLDONTLIE_API_KEY env var is required",
            ConfigError::MissingChannelId => "CHANNEL_ID env var is required",
            ConfigError::InvalidChannelId => "CHANNEL_ID must be a valid u64",
        }
    }
}

/// Whether `c` is an ASCII decimal digit.
pub open spec fn is_digit(c: char) -> bool {
    48 <= c as int <= 57
}

/// The value of a run of decimal digits.
pub open spec fn digits_value(s: Seq<char>) -> nat
    decreases s.len(),
{
    if s.len() == 0 {
        0
    } else {
        digits_value(s.drop_last()) * 10 + (s.last() as int - 48) as nat
    }
}

/// A non-empty run of decimal digits.
pub open spec fn all_digits(s: Seq<char>) -> bool {
    s.len() >= 1 && forall|i: int| 0 <= i < s.len() ==> is_digit(#[trigger] s[i])
}

/// The number an unsigned integer's text names, as `str::parse` reads it: an
/// optional `+` followed by one or more digits, nothing else.
pub open spec fn unsigned_text_value(s: Seq<char>) -> Option<nat> {
    if s.len() >= 1 && s[0] == '+' {
        if all_digits(s.drop_first()) {
            Some(digits_value(s.drop_first()))
        } else {
            None
        }
    } else if all_digits(s) {
        Some(digits_value(s))
    } else {
        None
    }
}

proof fn lemma_digits_step(s: Seq<char>, start: int, i: int)
    requires
        0 <= start <= i < s.len(),
    ensures
        digits_value(s.subrange(start, i + 1)) == digits_value(s.subrange(start, i)) * 10 + (s[i] as int
            - 48) as nat,
{
    assert(s.subrange(start, i + 1).drop_last() =~= s.subrange(start, i));
}

/// Read an unsigned integer's text as `str::parse` does, when its value is
/// at most `max`: an optional `+` followed by one or more digits.
fn parse_unsigned(s: &str, max: u64) -> (r: Option<u64>)
    requires
        max >= 9,
    ensures
        r == (match unsigned_text_value(s@) {
            Some(v) => if v <= max {
                Some(v as u64)
            } else {
                None
            },
            None => None,
        }),
{
    let len = s.unicode_len();
    let start: usize = if len >= 1 && s.get_char(0) == '+' {
        1
    } else {
        0
    };
    if start >= len {
        return None;
    }
    let mut value: u64 = 0;
    let mut over = false;
    let mut i: usize = start;
    proof {
        assert(s@.subrange(start as int, start as int) =~= Seq::<char>::empty());
    }
    while i < len
        invariant
            len == s@.len(),
            start <= i <= len,
            start == (if s@.len() >= 1 && s@[0] == '+' {
                1int
            } else {
                0int
            }),
            max >= 9,
            forall|k: int| start <= k < i ==> is_digit(#[trigger] s@[k]),
            !over ==> value == digits_value(s@.subrange(start as int, i as int)) && value <= max,
            over ==> digits_value(s@.subrange(start as int, i as int)) > max,
        decreases len - i,
    {
        let c = s.get_char(i);
        if !('0' <= c && c <= '9') {
            proof {
                if start == 1 {
                    assert(s@.drop_first()[i - 1] == c);
                }
            }
            return None;
        }
        let d: u64 = (c as u32 - 48) as u64;
        proof {
            lemma_digits_step(s@, start as int, i as int);
        }
        if !over {
            if value > (max - d) / 10 {
                over = true;
                assert(value * 10 + d > max) by (nonlinear_arith)
                    requires
                        value > (max - d) / 10,
                        d <= 9,
                        max >= 9,
                ;
            } else {
                assert(value * 10 + d <= max) by (nonlinear_arith)
                    requires
                        value <= (max - d) / 10,
                        d <= 9,
                        max >= 9,
                ;
                value = value * 10 + d;
            }
        } else {
            assert(digits_value(s@.subrange(start as int, i as int)) * 10 + d >= digits_value(
                s@.subrange(start as int, i as int),
            ));
        }
        i = i + 1;
    }
    proof {
        if start == 1 {
            assert(s@.subrange(1, len as int) =~= s@.drop_first());
        } else {
            assert(s@.subrange(0, len as int) =~= s@);
        }
    }
    if over {
        None
    } else {
        Some(value)
    }
}

/// Read a `u64` as `str::parse::<u64>` does.
fn parse_u64(s: &str) -> (r: Option<u64>)
    ensures
        r == u64_value(s@),
{
    parse_unsigned(s, u64::MAX)
}

/// Read a `u32` as `str::parse::<u32>` does.
fn parse_u32(s: &str) -> (r: Option<u32>)
    ensures
        r == u32_value(s@),
{
    match parse_unsigned(s, 4294967295u64) {
        Some(v) => Some(v as u32),
        None => None,
    }
}

/// The value of a `u64` text, if it names one.
pub open spec fn u64_value(s: Seq<char>) -> Option<u64> {
    match unsigned_text_value(s) {
        Some(v) => if v <= u64::MAX {
            Some(v as u64)
        } else {
            None
        },
        None => None,
    }
}

/// The value of a `u32` text, if it names one.
pub open spec fn u32_value(s: Seq<char>) -> Option<u32> {
    match unsigned_text_value(s) {
        Some(v) => if v <= u32::MAX {
            Some(v as u32)
        } else {
            None
        },
        None => None,
    }
}

/// The view of an optional text.
pub open spec fn opt_view(t: Option<String>) -> Option<Seq<char>> {
    match t {
        Some(s) => Some(s@),
        None => None,
    }
}

impl Config {
    /// Build the configuration from the values of `DISCORD_TOKEN`,
    /// `BALLDONTLIE_API_KEY`, `CHANNEL_ID`, `CRON_SCHEDULE` and `NBA_SEASON`
    /// (`None` where a variable is unset). The first three are required and
    /// the channel id must be a `u64`; the schedule defaults to every day at
    /// 15:00; a season that is not a `u32` counts as unset.
    pub fn from_values(
        discord_token: Option<String>,
        balldontlie_api_key: Option<String>,
        channel_id: Option<String>,
        cron_schedule: Option<String>,
        nba_season: Option<String>,
    ) -> (r: Result<Config, ConfigError>)
        ensures
            discord_token is None ==> r == Err::<Config, ConfigError>(ConfigError::MissingDiscordToken),
            discord_token is Some && balldontlie_api_key is None ==> r == Err::<Config, ConfigError>(
                ConfigError::MissingApiKey,
            ),
            discord_token is Some && balldontlie_api_key is Some && channel_id is None ==> r == Err::<
                Config,
                ConfigError,
            >(ConfigError::MissingChannelId),
            discord_token is Some && balldontlie_api_key is Some && channel_id is Some && u64_value(
                channel_id->0@,
            ) is None ==> r == Err::<Config, ConfigError>(ConfigError::InvalidChannelId),
            r matches Ok(c) ==> {
                &&& opt_view(discord_token) == Some(c.discord_token@)
                &&& opt_view(balldontlie_api_key) == Some(c.balldontlie_api_key@)
                &&& channel_id is Some && u64_value(channel_id->0@) == Some(c.channel_id)
                &&& c.cron_schedule@ == match cron_schedule {
                    Some(s) => s@,
                    None => DEFAULT_CRON_SCHEDULE@,
                }
                &&& c.nba_season == match nba_season {
                    Some(s) => u32_value(s@),
                    None => None,
                }
            },
            discord_token is Some && balldontlie_api_key is Some && channel_id is Some && u64_value(
                channel_id->0@,
            ) is Some ==> r is Ok,
    {
        let discord_token = match discord_token {
            Some(t) => t,
            None => {
                return Err(ConfigError::MissingDiscordToken);
            },
        };
        let balldontlie_api_key = match balldontlie_api_key {
            Some(k) => k,
            None => {
                return Err(ConfigError::MissingApiKey);
            },
        };
        let channel_raw = match channel_id {
            Some(c) => c,
            None => {
                return Err(ConfigError::MissingChannelId);
            },
        };
        let channel_id = match parse_u64(channel_raw.as_str()) {
            Some(id) => id,
            None => {
                return Err(ConfigError::InvalidChannelId);
            },
        };
        let cron_schedule = match cron_schedule {
            Some(s) => s,
            None => String::from_str(DEFAULT_CRON_SCHEDULE),
        };
        let nba_season = match nba_season {
            Some(s) => parse_u32(s.as_str()),
            None => None,
        };
        Ok(Config { discord_token, balldontlie_api_key, channel_id, cron_schedule, nba_season })
    }
}

} // verus!
