//! The rules by which the client talks to the games API: its limits, the date
//! ranges a season is fetched in, the query of each page, what to do with each
//! response status, the shared rate limiter and the pagination of parallel
//! fetches. The requests themselves are sent by the application.
use vstd::prelude::*;

use crate::text::{dec, decimal_text};

use crate::dates::{
    civil_day_number, days_from_ce, lemma_day_range_values, iso_date_text, iso_date_text_of, iso_text,
    is_leap_year, lemma_day_in_range, lemma_october_to_april, lemma_window_day_has_date, max_day, min_day,
    utc_today_day_number, valid_ymd, MAX_YEAR, MIN_YEAR,
};

verus! {

/// The API's base address.
pub const BASE_URL: &'static str = "https://api.balldontlie.io/v1";

/// Rate limit: the free tier allows 5 requests per minute.
pub const RATE_LIMIT_MAX_REQUESTS: u32 = 5;

/// The length of one rate-limit window, in seconds (a little over a minute).
pub const RATE_LIMIT_WINDOW_SECS: u64 = 61;

/// How many date-range requests are fired together within one rate-limit
/// window: one slot stays free for the teams request.
pub const RATE_LIMIT_BATCH_SIZE: usize = 4;

/// Maximum results per page (the API's maximum).
pub const PER_PAGE: u32 = 100;

/// Maximum number of retries when the API answers 429 Too Many Requests.
pub const MAX_RETRIES: u32 = 5;

/// The HTTP status of a rate-limited request.
pub const STATUS_TOO_MANY_REQUESTS: u16 = 429;

// ── Season date ranges ─────────────────────────────────────────────────

/// The year a season number names, read as chrono reads it (`season as i32`).
pub open spec fn season_year(season: u32) -> int {
    (season as i32) as int
}

/// Day number of October 1 of the season's first year.
pub open spec fn season_start_day(y: int) -> int {
    days_from_ce(y, 10, 1)
}

/// Day number of April 30 of the season's second year.
pub open spec fn season_end_day(y: int) -> int {
    days_from_ce(y + 1, 4, 30)
}

/// The days in each of the first ranges: the window's length over the batch size.
pub open spec fn chunk_days(y: int) -> int {
    (season_end_day(y) - season_start_day(y)) / (RATE_LIMIT_BATCH_SIZE as int)
}

/// The first day of range `i`.
pub open spec fn range_start_day(y: int, i: int) -> int {
    season_start_day(y) + i * chunk_days(y)
}

/// The last day of range `i`: the last range ends on April 30.
pub open spec fn range_end_day(y: int, i: int) -> int {
    if i == RATE_LIMIT_BATCH_SIZE - 1 {
        season_end_day(y)
    } else {
        range_start_day(y, i) + chunk_days(y) - 1
    }
}

/// The seasons for which both ends of the window are dates chrono holds.
pub open spec fn season_in_range(season: u32) -> bool {
    season < u32::MAX && MIN_YEAR <= season_year(season) < MAX_YEAR
}

/// Whether both ends of a season's window are dates chrono holds.
pub fn season_window_fits(season: u32) -> (b: bool)
    ensures
        b == season_in_range(season),
{
    let y = season as i32;
    season < u32::MAX && MIN_YEAR <= y && y < MAX_YEAR
}

/// The ranges of a season split into `RATE_LIMIT_BATCH_SIZE` contiguous
/// pieces covering October 1 to April 30, and a few laws of them: they
/// partition the window without gap or overlap, and the window is 211 days
/// long, or 212 when it holds a February 29.
pub proof fn season_ranges_partition_window(season: u32)
    requires
        season_in_range(season),
    ensures
        range_start_day(season_year(season), 0) == days_from_ce(season_year(season), 10, 1),
        range_end_day(season_year(season), RATE_LIMIT_BATCH_SIZE - 1) == days_from_ce(
            season_year(season) + 1,
            4,
            30,
        ),
        forall|i: int|
            0 <= i < RATE_LIMIT_BATCH_SIZE ==> range_start_day(season_year(season), i)
                <= #[trigger] range_end_day(season_year(season), i),
        forall|i: int|
            0 <= i < RATE_LIMIT_BATCH_SIZE - 1 ==> #[trigger] range_start_day(
                season_year(season),
                i + 1,
            ) == range_end_day(season_year(season), i) + 1,
        season_end_day(season_year(season)) - season_start_day(season_year(season)) == 211 + if is_leap_year(
            season_year(season) + 1,
        ) {
            1int
        } else {
            0int
        },
{
    let y = season_year(season);
    lemma_october_to_april(y);
    assert(chunk_days(y) == 52 || chunk_days(y) == 53);
    assert forall|i: int| 0 <= i < RATE_LIMIT_BATCH_SIZE - 1 implies #[trigger] range_start_day(
        y,
        i + 1,
    ) == range_end_day(y, i) + 1 by {
        assert((i + 1) * chunk_days(y) == i * chunk_days(y) + chunk_days(y)) by (nonlinear_arith);
    }
    assert forall|i: int| 0 <= i < RATE_LIMIT_BATCH_SIZE implies range_start_day(y, i)
        <= #[trigger] range_end_day(y, i) by {
        if i == 3 {
            assert(3 * chunk_days(y) + chunk_days(y) <= season_end_day(y) - season_start_day(y));
        }
    }
}

proof fn lemma_range_days_in_range(season: u32, i: int)
    requires
        season_in_range(season),
        0 <= i < RATE_LIMIT_BATCH_SIZE,
    ensures
        min_day() <= range_start_day(season_year(season), i) <= max_day(),
        min_day() <= range_end_day(season_year(season), i) <= max_day(),
        range_end_day(season_year(season), i) <= season_end_day(season_year(season)),
{
    let y = season_year(season);
    season_ranges_partition_window(season);
    lemma_day_in_range(y, 10, 1);
    lemma_day_in_range(y + 1, 4, 30);
    assert(i * chunk_days(y) <= 3 * chunk_days(y)) by (nonlinear_arith)
        requires
            0 <= i <= 3,
            chunk_days(y) >= 0,
    ;
    assert(0 <= i * chunk_days(y)) by (nonlinear_arith)
        requires
            0 <= i,
            chunk_days(y) >= 0,
    ;
}

/// For a season of the years 0 to 9998 (so that the next year has four
/// digits too), the first and the last day of each range is a date of the season's year
/// or the next: `season_date_ranges` writes it as `YYYY-MM-DD`, and that text
/// reads back as the same day.
pub proof fn season_range_days_are_dates(season: u32, i: int)
    requires
        season <= 9998,
        0 <= i < RATE_LIMIT_BATCH_SIZE,
    ensures
        exists|y: int, m: int, d: int|
            0 <= y <= 9999 && valid_ymd(y, m, d) && #[trigger] days_from_ce(y, m, d) == range_start_day(
                season_year(season),
                i,
            ),
        exists|y: int, m: int, d: int|
            0 <= y <= 9999 && valid_ymd(y, m, d) && #[trigger] days_from_ce(y, m, d) == range_end_day(
                season_year(season),
                i,
            ),
{
    let sy = season_year(season);
    assert(sy == season as int);
    season_ranges_partition_window(season);
    lemma_range_days_in_range(season, i);
    assert(i * chunk_days(sy) >= 0) by (nonlinear_arith)
        requires
            0 <= i,
            chunk_days(sy) >= 0,
    ;
    lemma_window_day_has_date(sy, range_start_day(sy, i));
    lemma_window_day_has_date(sy, range_end_day(sy, i));
}

/// Split a season into date ranges for parallel fetching.
///
/// The regular season runs from mid-October to mid-April. The window ends on
/// April 30 to capture any schedule extensions while avoiding months of empty
/// postseason and offseason results. It is split into `RATE_LIMIT_BATCH_SIZE`
/// ranges so that the first page of each can be fetched together within one
/// rate-limit window. Dates are written as `YYYY-MM-DD`.
pub fn season_date_ranges(season: u32) -> (r: Vec<(String, String)>)
    requires
        season_in_range(season),
    ensures
        r@.len() == RATE_LIMIT_BATCH_SIZE,
        forall|i: int|
            0 <= i < RATE_LIMIT_BATCH_SIZE ==> (#[trigger] r@[i]).0@ == iso_date_text_of(
                range_start_day(season_year(season), i) as i32,
            ) && r@[i].1@ == iso_date_text_of(range_end_day(season_year(season), i) as i32),
        forall|i: int, y: int, m: int, d: int|
            #![trigger r@[i], days_from_ce(y, m, d)]
            0 <= i < RATE_LIMIT_BATCH_SIZE && 0 <= y <= 9999 && valid_ymd(y, m, d) ==> (days_from_ce(y, m, d)
                == range_start_day(season_year(season), i) ==> r@[i].0@ == iso_text(y, m, d)) && (
            days_from_ce(y, m, d) == range_end_day(season_year(season), i) ==> r@[i].1@ == iso_text(
                y,
                m,
                d,
            )),
{
    let y: i32 = season as i32;
    let ghost sy = season_year(season);
    proof {
        lemma_day_in_range(sy, 10, 1);
        lemma_day_in_range(sy + 1, 4, 30);
        season_ranges_partition_window(season);
    }
    let start = match civil_day_number(y, 10, 1) {
        Some(d) => d,
        None => {
            proof {
                assert(valid_ymd(sy, 10, 1));
            }
            0
        },
    };
    let end = match civil_day_number(y + 1, 4, 30) {
        Some(d) => d,
        None => {
            proof {
                assert(valid_ymd(sy + 1, 4, 30));
            }
            0
        },
    };
    proof {
        lemma_day_range_values();
        assert(y as int == sy);
        assert(start == season_start_day(sy));
        assert(end == season_end_day(sy));
    }
    let total_days: i32 = end - start;
    let chunk: i32 = total_days / (RATE_LIMIT_BATCH_SIZE as i32);
    assert(chunk == chunk_days(sy));
    let mut ranges: Vec<(String, String)> = Vec::new();
    let mut chunk_start: i32 = start;
    let mut i: usize = 0;
    while i < RATE_LIMIT_BATCH_SIZE
        invariant
            season_in_range(season),
            sy == season_year(season),
            start == season_start_day(sy),
            end == season_end_day(sy),
            chunk == chunk_days(sy),
            i <= RATE_LIMIT_BATCH_SIZE,
            ranges@.len() == i,
            i < RATE_LIMIT_BATCH_SIZE ==> chunk_start == range_start_day(sy, i as int),
            forall|k: int|
                0 <= k < i ==> (#[trigger] ranges@[k]).0@ == iso_date_text_of(
                    range_start_day(sy, k) as i32,
                ) && ranges@[k].1@ == iso_date_text_of(range_end_day(sy, k) as i32),
            forall|k: int, yy: int, m: int, d: int|
                #![trigger ranges@[k], days_from_ce(yy, m, d)]
                0 <= k < i && 0 <= yy <= 9999 && valid_ymd(yy, m, d) ==> (days_from_ce(yy, m, d)
                    == range_start_day(sy, k) ==> ranges@[k].0@ == iso_text(yy, m, d)) && (days_from_ce(
                    yy,
                    m,
                    d,
                ) == range_end_day(sy, k) ==> ranges@[k].1@ == iso_text(yy, m, d)),
        decreases RATE_LIMIT_BATCH_SIZE - i,
    {
        proof {
            lemma_range_days_in_range(season, i as int);
            season_ranges_partition_window(season);
            lemma_day_range_values();
        }
        let chunk_end: i32 = if i == RATE_LIMIT_BATCH_SIZE - 1 {
            end
        } else {
            chunk_start + (chunk - 1)
        };
        assert(chunk_end == range_end_day(sy, i as int));
        let first = iso_date_text(chunk_start);
        let last = iso_date_text(chunk_end);
        ranges.push((first, last));
        if i < RATE_LIMIT_BATCH_SIZE - 1 {
            chunk_start = chunk_end + 1;
            assert(chunk_start == range_start_day(sy, i + 1));
        }
        i = i + 1;
    }
    ranges
}

/// The ranges of an incremental fetch: from the given date to `today`, or,
/// with no date, the whole season.
pub fn games_since_ranges_at(season: u32, start_date: Option<&str>, today: i32) -> (r: Vec<
    (String, String),
>)
    requires
        start_date is None ==> season_in_range(season),
        min_day() <= today <= max_day(),
    ensures
        match start_date {
            Some(date) => r@.len() == 1 && r@[0].0@ == date@ && r@[0].1@ == iso_date_text_of(today),
            None => r@.len() == RATE_LIMIT_BATCH_SIZE && forall|i: int|
                0 <= i < RATE_LIMIT_BATCH_SIZE ==> (#[trigger] r@[i]).0@ == iso_date_text_of(
                    range_start_day(season_year(season), i) as i32,
                ) && r@[i].1@ == iso_date_text_of(range_end_day(season_year(season), i) as i32),
        },
{
    match start_date {
        Some(date) => {
            let mut r: Vec<(String, String)> = Vec::new();
            r.push((String::from_str(date), iso_date_text(today)));
            r
        },
        None => season_date_ranges(season),
    }
}

/// The ranges of an incremental fetch ending today (by the clock): from the
/// given date, or, with no date, the whole season.
pub fn games_since_ranges(season: u32, start_date: Option<&str>) -> (r: Vec<(String, String)>)
    requires
        start_date is None ==> season_in_range(season),
    ensures
        match start_date {
            Some(date) => r@.len() == 1 && r@[0].0@ == date@ && exists|today: i32|
                min_day() <= today <= max_day() && r@[0].1@ == #[trigger] iso_date_text_of(today),
            None => r@.len() == RATE_LIMIT_BATCH_SIZE && forall|i: int|
                0 <= i < RATE_LIMIT_BATCH_SIZE ==> (#[trigger] r@[i]).0@ == iso_date_text_of(
                    range_start_day(season_year(season), i) as i32,
                ) && r@[i].1@ == iso_date_text_of(range_end_day(season_year(season), i) as i32),
        },
{
    let today = utc_today_day_number();
    games_since_ranges_at(season, start_date, today)
}

// ── Retries ────────────────────────────────────────────────────────────

/// Two to the power `n`.
pub open spec fn pow2(n: nat) -> nat
    decreases n,
{
    if n == 0 {
        1
    } else {
        2 * pow2((n - 1) as nat)
    }
}

/// The wait before retry number `attempt`, in seconds: one rate-limit window,
/// doubled for each retry after the first (61s, 122s, 244s, ...).
pub open spec fn backoff_spec(attempt: nat) -> nat {
    (RATE_LIMIT_WINDOW_SECS as nat) * pow2((attempt - 1) as nat)
}

/// The wait before retry number `attempt`, in seconds.
pub fn backoff_secs(attempt: u32) -> (secs: u64)
    requires
        1 <= attempt <= MAX_RETRIES,
    ensures
        secs == backoff_spec(attempt as nat),
{
    let mut factor: u64 = 1;
    let mut k: u32 = 1;
    while k < attempt
        invariant
            1 <= k <= attempt <= MAX_RETRIES,
            factor == pow2((k - 1) as nat),
            factor <= 16,
        decreases attempt - k,
    {
        proof {
            reveal_with_fuel(pow2, 5);
        }
        factor = factor * 2;
        k = k + 1;
    }
    RATE_LIMIT_WINDOW_SECS * factor
}

/// Each retry waits twice as long as the one before, and the longest wait
/// fits in a `u64`.
pub proof fn backoff_doubles(attempt: nat)
    requires
        1 <= attempt < MAX_RETRIES,
    ensures
        backoff_spec(attempt + 1) == 2 * backoff_spec(attempt),
        backoff_spec(MAX_RETRIES as nat) <= u64::MAX,
{
    reveal_with_fuel(pow2, 5);
    assert(backoff_spec(attempt + 1) == RATE_LIMIT_WINDOW_SECS * (2 * pow2((attempt - 1) as nat)));
    assert(RATE_LIMIT_WINDOW_SECS * (2 * pow2((attempt - 1) as nat)) == 2 * (RATE_LIMIT_WINDOW_SECS
        * pow2((attempt - 1) as nat))) by (nonlinear_arith);
}

/// What to do with the status of a response.
#[derive(Debug, Clone, Copy, PartialEq, Eq)]
pub enum ResponseStep {
    /// Rate limited: wait `backoff_secs`, then try again as attempt `attempt`.
    Retry { attempt: u32, backoff_secs: u64 },
    /// Rate limited once more than the retries allow: give up after `attempt` tries.
    RateLimited { attempt: u32 },
    /// Any other status outside 200-299: give up.
    Failed,
    /// A status in 200-299: read the body.
    Succeeded,
}

/// Whether a status is a success (200-299).
pub open spec fn is_success(status: u16) -> bool {
    200 <= status <= 299
}

/// What the status of a response calls for, after `attempt` retries so far.
pub open spec fn response_step_spec(status: u16, attempt: u32) -> ResponseStep {
    if status == STATUS_TOO_MANY_REQUESTS {
        if attempt + 1 > MAX_RETRIES {
            ResponseStep::RateLimited { attempt: (attempt + 1) as u32 }
        } else {
            ResponseStep::Retry {
                attempt: (attempt + 1) as u32,
                backoff_secs: backoff_spec((attempt + 1) as nat) as u64,
            }
        }
    } else if !is_success(status) {
        ResponseStep::Failed
    } else {
        ResponseStep::Succeeded
    }
}

/// Classify a response: 429 is retried with exponential backoff until the
/// retries run out, another status outside 200-299 is an error, and a
/// success is read.
pub fn classify_response(status: u16, attempt: u32) -> (step: ResponseStep)
    requires
        attempt <= MAX_RETRIES,
    ensures
        step == response_step_spec(status, attempt),
{
    if status == STATUS_TOO_MANY_REQUESTS {
        let next = attempt + 1;
        if next > MAX_RETRIES {
            ResponseStep::RateLimited { attempt: next }
        } else {
            ResponseStep::Retry { attempt: next, backoff_secs: backoff_secs(next) }
        }
    } else if !(200 <= status && status <= 299) {
        ResponseStep::Failed
    } else {
        ResponseStep::Succeeded
    }
}

/// A request is retried at most `MAX_RETRIES` times: each retry raises the
/// attempt by one and none goes past the limit.
pub proof fn retries_are_bounded(status: u16, attempt: u32)
    requires
        attempt <= MAX_RETRIES,
    ensures
        response_step_spec(status, attempt) matches ResponseStep::Retry { attempt: next, .. } ==> next
            == attempt + 1 && next <= MAX_RETRIES,
        response_step_spec(status, attempt) matches ResponseStep::RateLimited { attempt: last } ==> last
            == MAX_RETRIES + 1,
{
}

/// The steps of one call whose requests are answered with `statuses` in
/// turn, after `attempt` retries so far: one step per request, the last being
/// the first step that is not a retry (or the last answer given).
pub open spec fn retry_steps(statuses: Seq<u16>, attempt: u32) -> Seq<ResponseStep>
    decreases statuses.len(),
{
    if statuses.len() == 0 {
        Seq::empty()
    } else {
        let step = response_step_spec(statuses[0], attempt);
        match step {
            ResponseStep::Retry { attempt: next, .. } => seq![step] + retry_steps(statuses.drop_first(), next),
            _ => seq![step],
        }
    }
}

/// The first `a` retries of a call: retry `j + 1` waits `backoff_spec(j + 1)`.
pub open spec fn retry_prefix(a: int) -> Seq<ResponseStep> {
    Seq::new(
        a as nat,
        |j: int| ResponseStep::Retry { attempt: (j + 1) as u32, backoff_secs: backoff_spec((j + 1) as nat) as u64 },
    )
}

proof fn lemma_retry_prefix(statuses: Seq<u16>, a: int)
    requires
        0 <= a <= MAX_RETRIES,
        a <= statuses.len(),
        forall|j: int| 0 <= j < a ==> statuses[j] == STATUS_TOO_MANY_REQUESTS,
    ensures
        retry_steps(statuses, 0) == retry_prefix(a) + retry_steps(statuses.subrange(a, statuses.len() as int), a as u32),
    decreases a,
{
    if a == 0 {
        assert(statuses.subrange(0, statuses.len() as int) =~= statuses);
        assert(retry_prefix(0) + retry_steps(statuses, 0) =~= retry_steps(statuses, 0));
    } else {
        lemma_retry_prefix(statuses, a - 1);
        let before = statuses.subrange(a - 1, statuses.len() as int);
        let after = statuses.subrange(a, statuses.len() as int);
        assert(before[0] == statuses[a - 1]);
        assert(before.drop_first() =~= after);
        assert(retry_steps(before, (a - 1) as u32) == seq![
            ResponseStep::Retry { attempt: a as u32, backoff_secs: backoff_spec(a as nat) as u64 },
        ] + retry_steps(after, a as u32));
        assert(retry_prefix(a - 1) + (seq![
            ResponseStep::Retry { attempt: a as u32, backoff_secs: backoff_spec(a as nat) as u64 },
        ] + retry_steps(after, a as u32)) =~= retry_prefix(a) + retry_steps(after, a as u32));
    }
}

/// The whole retry sequence of one call, whose first `k` answers are 429
/// and the next (if any) is not. Retry `a` waits `61 * 2^(a - 1)` seconds
/// (61, 122, 244, 488, 976). With at most `MAX_RETRIES` such answers the
/// call ends on the next answer after `k + 1` requests; with more, it gives
/// up rate limited after exactly `MAX_RETRIES + 1` requests. No call makes
/// more than `MAX_RETRIES + 1` requests.
pub proof fn retry_sequence(statuses: Seq<u16>, k: int)
    requires
        0 <= k <= statuses.len(),
        forall|j: int| 0 <= j < k ==> statuses[j] == STATUS_TOO_MANY_REQUESTS,
        k < statuses.len() ==> statuses[k] != STATUS_TOO_MANY_REQUESTS,
    ensures
        retry_steps(statuses, 0).len() <= MAX_RETRIES + 1,
        forall|j: int|
            0 <= j < k && j < MAX_RETRIES ==> #[trigger] retry_steps(statuses, 0)[j] == (ResponseStep::Retry {
                attempt: (j + 1) as u32,
                backoff_secs: backoff_spec((j + 1) as nat) as u64,
            }),
        forall|a: nat| 1 <= a <= MAX_RETRIES ==> #[trigger] backoff_spec(a) == 61 * pow2((a - 1) as nat),
        k <= MAX_RETRIES && k < statuses.len() ==> retry_steps(statuses, 0).len() == k + 1 && retry_steps(
            statuses,
            0,
        )[k] == (if is_success(statuses[k]) {
            ResponseStep::Succeeded
        } else {
            ResponseStep::Failed
        }),
        k <= MAX_RETRIES && k == statuses.len() ==> retry_steps(statuses, 0).len() == k,
        k > MAX_RETRIES ==> retry_steps(statuses, 0).len() == MAX_RETRIES + 1 && retry_steps(statuses, 0)[MAX_RETRIES as int]
            == (ResponseStep::RateLimited { attempt: (MAX_RETRIES + 1) as u32 }),
{
    let a: int = if k <= MAX_RETRIES {
        k
    } else {
        MAX_RETRIES as int
    };
    lemma_retry_prefix(statuses, a);
    let rest = statuses.subrange(a, statuses.len() as int);
    if a < statuses.len() {
        assert(rest[0] == statuses[a]);
        assert(retry_steps(rest, a as u32) == seq![response_step_spec(statuses[a], a as u32)]);
    } else {
        assert(rest.len() == 0);
    }
    assert forall|j: int|
        0 <= j < k && j < MAX_RETRIES implies #[trigger] retry_steps(statuses, 0)[j] == ResponseStep::Retry {
            attempt: (j + 1) as u32,
            backoff_secs: backoff_spec((j + 1) as nat) as u64,
        } by {
        assert(retry_steps(statuses, 0)[j] == retry_prefix(a)[j]);
    }
}

// ── Requests ───────────────────────────────────────────────────────────

/// The address of the teams endpoint.
pub fn teams_url(base_url: &str) -> (url: String)
    ensures
        url@ == base_url@ + "/teams"@,
{
    let mut url = String::from_str(base_url);
    url.append("/teams");
    url
}

/// The address of the games endpoint.
pub fn games_url(base_url: &str) -> (url: String)
    ensures
        url@ == base_url@ + "/games"@,
{
    let mut url = String::from_str(base_url);
    url.append("/games");
    url
}

/// The query of one page of regular-season games of `season` between two dates.
pub open spec fn games_query_spec(
    season: u32,
    start_date: Seq<char>,
    end_date: Seq<char>,
    cursor: Option<u64>,
) -> Seq<(Seq<char>, Seq<char>)> {
    let base = seq![
        ("seasons[]"@, dec(season as nat)),
        ("postseason"@, "false"@),
        ("per_page"@, dec(PER_PAGE as nat)),
        ("start_date"@, start_date),
        ("end_date"@, end_date),
    ];
    match cursor {
        Some(c) => base.push(("cursor"@, dec(c as nat))),
        None => base,
    }
}

/// The query parameters of one page of games, the cursor last when there is one.
pub fn games_query(season: u32, start_date: &str, end_date: &str, cursor: Option<u64>) -> (q: Vec<
    (String, String),
>)
    ensures
        q@.map_values(|p: (String, String)| (p.0@, p.1@)) == games_query_spec(
            season,
            start_date@,
            end_date@,
            cursor,
        ),
{
    let mut q: Vec<(String, String)> = Vec::new();
    q.push((String::from_str("seasons[]"), decimal_text(season as u64)));
    q.push((String::from_str("postseason"), String::from_str("false")));
    q.push((String::from_str("per_page"), decimal_text(PER_PAGE as u64)));
    q.push((String::from_str("start_date"), String::from_str(start_date)));
    q.push((String::from_str("end_date"), String::from_str(end_date)));
    match cursor {
        Some(c) => {
            q.push((String::from_str("cursor"), decimal_text(c)));
        },
        None => {},
    }
    proof {
        assert(q@.map_values(|p: (String, String)| (p.0@, p.1@)) =~= games_query_spec(
            season,
            start_date@,
            end_date@,
            cursor,
        ));
    }
    q
}

// ── The rate limiter ───────────────────────────────────────────────────

/// The length of a rate-limit window in nanoseconds.
pub const RATE_LIMIT_WINDOW_NANOS: u128 = 61_000_000_000;

/// The shared rate limiter: how many requests were sent in the current
/// window, and when (on the caller's monotonic clock, in nanoseconds) that
/// window started.
#[derive(Debug, Clone, Copy, PartialEq, Eq)]
pub struct RateLimiterState {
    pub requests_in_window: u32,
    pub window_start: u128,
}

/// What an acquire asks of its caller.
#[derive(Debug, Clone, Copy, PartialEq, Eq)]
pub enum AcquireAction {
    /// A slot was taken: send the request.
    Proceed,
    /// The window's budget is used: sleep `nanos`, then acquire again.
    Wait { nanos: u128 },
}

/// The time since the window started, `now` being a reading of the same clock
/// (a reading before the start counts as no time).
pub open spec fn elapsed_since_start(s: RateLimiterState, now: u128) -> int {
    if now >= s.window_start {
        now - s.window_start
    } else {
        0
    }
}

/// Whether an acquire at `now` starts a new window: the current one is over.
pub open spec fn starts_window(s: RateLimiterState, now: u128) -> bool {
    elapsed_since_start(s, now) >= RATE_LIMIT_WINDOW_NANOS
}

/// One acquire at `now`: an expired window is replaced by one starting now,
/// whose first slot is taken; otherwise a free slot of the current window is
/// taken; otherwise the caller waits out the rest of the window.
pub open spec fn acquire_step(s: RateLimiterState, now: u128) -> (RateLimiterState, AcquireAction) {
    if starts_window(s, now) {
        (RateLimiterState { requests_in_window: 1, window_start: now }, AcquireAction::Proceed)
    } else if s.requests_in_window < RATE_LIMIT_MAX_REQUESTS {
        (
            RateLimiterState {
                requests_in_window: (s.requests_in_window + 1) as u32,
                window_start: s.window_start,
            },
            AcquireAction::Proceed,
        )
    } else {
        (s, AcquireAction::Wait { nanos: (RATE_LIMIT_WINDOW_NANOS - elapsed_since_start(s, now)) as u128 })
    }
}

impl RateLimiterState {
    /// At most `RATE_LIMIT_MAX_REQUESTS` requests in a window.
    pub open spec fn within_limit(self) -> bool {
        self.requests_in_window <= RATE_LIMIT_MAX_REQUESTS
    }

    /// A fresh window starting at `now`, with no request sent.
    pub fn new(now: u128) -> (s: Self)
        ensures
            s.requests_in_window == 0,
            s.window_start == now,
            s.within_limit(),
    {
        RateLimiterState { requests_in_window: 0, window_start: now }
    }

    /// Take a request slot at `now` (a reading of the clock of the window
    /// start), or learn how long to wait before acquiring again. A caller
    /// that waited acquires again with a fresh reading, so it restarts the
    /// window only when the window really is over.
    pub fn acquire(&mut self, now: u128) -> (action: AcquireAction)
        ensures
            (*final(self), action) == acquire_step(*old(self), now),
            old(self).within_limit() ==> final(self).within_limit(),
    {
        let elapsed: u128 = if now >= self.window_start {
            now - self.window_start
        } else {
            0
        };
        if elapsed >= RATE_LIMIT_WINDOW_NANOS {
            self.requests_in_window = 1;
            self.window_start = now;
            AcquireAction::Proceed
        } else if self.requests_in_window < RATE_LIMIT_MAX_REQUESTS {
            self.requests_in_window = self.requests_in_window + 1;
            AcquireAction::Proceed
        } else {
            AcquireAction::Wait { nanos: RATE_LIMIT_WINDOW_NANOS - elapsed }
        }
    }
}

/// The limiter after acquires at the given clock readings, one after another.
pub open spec fn state_after(s0: RateLimiterState, times: Seq<u128>) -> RateLimiterState
    decreases times.len(),
{
    if times.len() == 0 {
        s0
    } else {
        acquire_step(state_after(s0, times.drop_last()), times.last()).0
    }
}

/// The limiter before acquire number `k`.
pub open spec fn state_before(s0: RateLimiterState, times: Seq<u128>, k: int) -> RateLimiterState {
    state_after(s0, times.take(k))
}

/// What acquire number `k` answers.
pub open spec fn action_at(s0: RateLimiterState, times: Seq<u128>, k: int) -> AcquireAction {
    acquire_step(state_before(s0, times, k), times[k]).1
}

/// How many of the acquires numbered `i` to `j - 1` let their request through.
pub open spec fn proceeds_between(s0: RateLimiterState, times: Seq<u128>, i: int, j: int) -> nat
    decreases j - i,
{
    if j <= i {
        0
    } else {
        proceeds_between(s0, times, i, j - 1) + if action_at(s0, times, j - 1) is Proceed {
            1nat
        } else {
            0nat
        }
    }
}

proof fn lemma_state_step(s0: RateLimiterState, times: Seq<u128>, k: int)
    requires
        0 <= k < times.len(),
    ensures
        state_before(s0, times, k + 1) == acquire_step(state_before(s0, times, k), times[k]).0,
{
    assert(times.take(k + 1).drop_last() =~= times.take(k));
    assert(times.take(k + 1).last() == times[k]);
}

proof fn lemma_within_limit_kept(s0: RateLimiterState, times: Seq<u128>, k: int)
    requires
        s0.within_limit(),
        0 <= k <= times.len(),
    ensures
        state_before(s0, times, k).within_limit(),
    decreases k,
{
    if k == 0 {
        assert(times.take(0) =~= Seq::<u128>::empty());
    } else {
        lemma_within_limit_kept(s0, times, k - 1);
        lemma_state_step(s0, times, k - 1);
    }
}

proof fn lemma_window_count(s0: RateLimiterState, times: Seq<u128>, i: int, j: int)
    requires
        s0.within_limit(),
        0 <= i < j <= times.len(),
        starts_window(state_before(s0, times, i), times[i]),
        forall|k: int| i < k < j ==> !#[trigger] starts_window(state_before(s0, times, k), times[k]),
    ensures
        state_before(s0, times, j).requests_in_window == proceeds_between(s0, times, i, j),
        state_before(s0, times, j).window_start == times[i],
        forall|k: int|
            i <= k < j && #[trigger] action_at(s0, times, k) is Proceed ==> times[k] < times[i]
                + RATE_LIMIT_WINDOW_NANOS,
    decreases j - i,
{
    lemma_state_step(s0, times, j - 1);
    if j == i + 1 {
        assert(proceeds_between(s0, times, i, i) == 0);
    } else {
        lemma_window_count(s0, times, i, j - 1);
        lemma_within_limit_kept(s0, times, j - 1);
        assert(!starts_window(state_before(s0, times, j - 1), times[j - 1]));
    }
}

proof fn lemma_first_window_count(s0: RateLimiterState, times: Seq<u128>, j: int)
    requires
        s0.requests_in_window == 0,
        0 <= j <= times.len(),
        forall|k: int| 0 <= k < j ==> !#[trigger] starts_window(state_before(s0, times, k), times[k]),
    ensures
        state_before(s0, times, j).requests_in_window == proceeds_between(s0, times, 0, j),
        state_before(s0, times, j).window_start == s0.window_start,
        forall|k: int|
            0 <= k < j && #[trigger] action_at(s0, times, k) is Proceed ==> times[k] < s0.window_start
                + RATE_LIMIT_WINDOW_NANOS,
    decreases j,
{
    if j == 0 {
        assert(times.take(0) =~= Seq::<u128>::empty());
    } else {
        lemma_first_window_count(s0, times, j - 1);
        lemma_state_step(s0, times, j - 1);
        assert(!starts_window(state_before(s0, times, j - 1), times[j - 1]));
    }
}

/// At most `RATE_LIMIT_MAX_REQUESTS` requests per window, over any run of
/// acquires. A window starts with an acquire that finds the previous one over
/// (at least `RATE_LIMIT_WINDOW` after its start), or with the fresh limiter.
/// Between one window start and the next, at most `RATE_LIMIT_MAX_REQUESTS`
/// acquires let their request through, and all of them do so less than
/// `RATE_LIMIT_WINDOW` after that window started.
pub proof fn at_most_max_requests_per_window(
    s0: RateLimiterState,
    times: Seq<u128>,
    i: int,
    j: int,
)
    requires
        s0.within_limit(),
        0 <= i <= j <= times.len(),
        (i < times.len() && starts_window(state_before(s0, times, i), times[i])) || (i == 0
            && s0.requests_in_window == 0),
        forall|k: int| i < k < j ==> !#[trigger] starts_window(state_before(s0, times, k), times[k]),
    ensures
        proceeds_between(s0, times, i, j) <= RATE_LIMIT_MAX_REQUESTS,
        forall|k: int|
            i <= k < j && #[trigger] action_at(s0, times, k) is Proceed ==> times[k]
                < state_before(s0, times, j).window_start + RATE_LIMIT_WINDOW_NANOS,
{
    if j == i {
        assert(proceeds_between(s0, times, i, j) == 0);
    } else if i < times.len() && starts_window(state_before(s0, times, i), times[i]) {
        lemma_window_count(s0, times, i, j);
        lemma_within_limit_kept(s0, times, j);
    } else {
        lemma_first_window_count(s0, times, j);
        lemma_within_limit_kept(s0, times, j);
    }
}

/// A new window starts only once the previous one has lasted `RATE_LIMIT_WINDOW`.
pub proof fn windows_last_their_length(s: RateLimiterState, now: u128)
    ensures
        starts_window(s, now) ==> now >= s.window_start + RATE_LIMIT_WINDOW_NANOS,
        acquire_step(s, now).0.window_start != s.window_start ==> starts_window(s, now),
{
}

// ── Pagination of parallel fetches ─────────────────────────────────────

/// The pagination state of one date range.
#[derive(Debug)]
pub struct RangeState {
    pub start_date: String,
    pub end_date: String,
    pub cursor: Option<u64>,
    pub done: bool,
}

/// A page still to fetch: the range's position, its dates and the cursor.
#[derive(Debug)]
pub struct PendingPage {
    pub index: usize,
    pub start_date: String,
    pub end_date: String,
    pub cursor: Option<u64>,
}

/// The pagination of a fetch over several date ranges, each paginated on its own.
#[derive(Debug)]
pub struct PagePlan {
    pub states: Vec<RangeState>,
}

/// The pages still to fetch, in range order.
pub open spec fn pending_spec(states: Seq<RangeState>) -> Seq<(int, Seq<char>, Seq<char>, Option<u64>)>
    decreases states.len(),
{
    if states.len() == 0 {
        Seq::empty()
    } else {
        let prev = pending_spec(states.drop_last());
        let s = states.last();
        if s.done {
            prev
        } else {
            prev.push(((states.len() - 1) as int, s.start_date@, s.end_date@, s.cursor))
        }
    }
}

/// The view of a pending page.
pub open spec fn pending_view(p: PendingPage) -> (int, Seq<char>, Seq<char>, Option<u64>) {
    (p.index as int, p.start_date@, p.end_date@, p.cursor)
}

/// The batches, in order, are the pending pages cut into runs of
/// `RATE_LIMIT_BATCH_SIZE`, the last run possibly shorter.
pub open spec fn is_batching(batches: Seq<Seq<PendingPage>>, pages: Seq<PendingPage>) -> bool {
    &&& batches.len() == (pages.len() + RATE_LIMIT_BATCH_SIZE - 1) / (RATE_LIMIT_BATCH_SIZE as int)
    &&& forall|b: int, k: int|
        0 <= b < batches.len() && 0 <= k < batches[b].len() ==> b * RATE_LIMIT_BATCH_SIZE + k
            < pages.len() && #[trigger] batches[b][k] == pages[b * RATE_LIMIT_BATCH_SIZE + k]
    &&& forall|b: int|
        0 <= b < batches.len() ==> #[trigger] batches[b].len() == if (b + 1) * RATE_LIMIT_BATCH_SIZE
            <= pages.len() {
            RATE_LIMIT_BATCH_SIZE as int
        } else {
            pages.len() - b * RATE_LIMIT_BATCH_SIZE
        }
}

/// A range's state after the answer to one of its pages: the next cursor
/// to ask with, or, with none, done.
pub open spec fn after_page(s: RangeState, next_cursor: Option<u64>) -> RangeState {
    match next_cursor {
        Some(c) => RangeState { start_date: s.start_date, end_date: s.end_date, cursor: Some(c), done: s.done },
        None => RangeState { start_date: s.start_date, end_date: s.end_date, cursor: s.cursor, done: true },
    }
}

/// The cursor a range asks its page `r` with, when its pages answer the
/// next cursors `cursors` in turn: none for the first page.
pub open spec fn request_cursor(cursors: Seq<u64>, r: int) -> Option<u64> {
    if r == 0 {
        None
    } else {
        Some(cursors[r - 1])
    }
}

/// The next cursor page `r` answers: the next in turn, none for the last page.
pub open spec fn answer_cursor(cursors: Seq<u64>, r: int) -> Option<u64> {
    if r < cursors.len() {
        Some(cursors[r])
    } else {
        None
    }
}

/// A range whose first `r` pages were answered: it asks for page `r` next,
/// or, past its last page, it is done.
pub open spec fn walked(s: RangeState, cursors: Seq<u64>, r: int) -> bool {
    if r <= cursors.len() {
        !s.done && s.cursor == request_cursor(cursors, r)
    } else {
        s.done
    }
}

impl PagePlan {
    /// One range per pair of dates, none fetched yet.
    pub fn new(ranges: &Vec<(String, String)>) -> (plan: Self)
        ensures
            plan.states@.len() == ranges@.len(),
            forall|i: int|
                0 <= i < ranges@.len() ==> (#[trigger] plan.states@[i]).start_date@ == ranges@[i].0@
                    && plan.states@[i].end_date@ == ranges@[i].1@ && plan.states@[i].cursor is None
                    && !plan.states@[i].done,
    {
        let mut states: Vec<RangeState> = Vec::new();
        let mut i: usize = 0;
        while i < ranges.len()
            invariant
                i <= ranges@.len(),
                states@.len() == i,
                forall|k: int|
                    0 <= k < i ==> (#[trigger] states@[k]).start_date@ == ranges@[k].0@
                        && states@[k].end_date@ == ranges@[k].1@ && states@[k].cursor is None
                        && !states@[k].done,
            decreases ranges@.len() - i,
        {
            states.push(
                RangeState {
                    start_date: ranges[i].0.clone(),
                    end_date: ranges[i].1.clone(),
                    cursor: None,
                    done: false,
                },
            );
            i = i + 1;
        }
        PagePlan { states }
    }

    /// The pages still to fetch: one for each range not done, in range order.
    pub fn pending(&self) -> (pages: Vec<PendingPage>)
        ensures
            pages@.map_values(|p: PendingPage| pending_view(p)) == pending_spec(self.states@),
            forall|p: int|
                0 <= p < pages@.len() ==> {
                    let page = #[trigger] pages@[p];
                    &&& page.index < self.states@.len()
                    &&& !self.states@[page.index as int].done
                    &&& page.start_date@ == self.states@[page.index as int].start_date@
                    &&& page.end_date@ == self.states@[page.index as int].end_date@
                    &&& page.cursor == self.states@[page.index as int].cursor
                },
            forall|p: int, q: int|
                0 <= p < q < pages@.len() ==> (#[trigger] pages@[p]).index < (#[trigger] pages@[q]).index,
            forall|i: int|
                0 <= i < self.states@.len() && !(#[trigger] self.states@[i]).done ==> exists|p: int|
                    0 <= p < pages@.len() && (#[trigger] pages@[p]).index == i,
    {
        let mut pages: Vec<PendingPage> = Vec::new();
        let mut i: usize = 0;
        proof {
            assert(self.states@.take(0) =~= Seq::<RangeState>::empty());
        }
        while i < self.states.len()
            invariant
                i <= self.states@.len(),
                pages@.map_values(|p: PendingPage| pending_view(p)) == pending_spec(
                    self.states@.take(i as int),
                ),
            decreases self.states@.len() - i,
        {
            proof {
                assert(self.states@.take(i + 1).drop_last() =~= self.states@.take(i as int));
            }
            let s = &self.states[i];
            if !s.done {
                pages.push(
                    PendingPage {
                        index: i,
                        start_date: s.start_date.clone(),
                        end_date: s.end_date.clone(),
                        cursor: s.cursor,
                    },
                );
                proof {
                    assert(pages@.map_values(|p: PendingPage| pending_view(p)) =~= pending_spec(
                        self.states@.take(i + 1),
                    ));
                }
            }
            i = i + 1;
        }
        proof {
            assert(self.states@.take(self.states@.len() as int) =~= self.states@);
            let views = pages@.map_values(|p: PendingPage| pending_view(p));
            pending_pages_carry_their_ranges(self.states@);
            assert forall|p: int| 0 <= p < pages@.len() implies {
                let page = #[trigger] pages@[p];
                &&& page.index < self.states@.len()
                &&& !self.states@[page.index as int].done
                &&& page.start_date@ == self.states@[page.index as int].start_date@
                &&& page.end_date@ == self.states@[page.index as int].end_date@
                &&& page.cursor == self.states@[page.index as int].cursor
            } by {
                assert(views[p] == pending_view(pages@[p]));
            }
            assert forall|p: int, q: int| 0 <= p < q < pages@.len() implies (#[trigger] pages@[p]).index < (
            #[trigger] pages@[q]).index by {
                assert(views[p] == pending_view(pages@[p]));
                assert(views[q] == pending_view(pages@[q]));
            }
            assert forall|i: int| 0 <= i < self.states@.len() && !(#[trigger] self.states@[i]).done implies exists|p: int|
                0 <= p < pages@.len() && (#[trigger] pages@[p]).index == i by {
                let p = choose|p: int| 0 <= p < views.len() && (#[trigger] views[p]).0 == i;
                assert(views[p] == pending_view(pages@[p]));
            }
        }
        pages
    }

    /// Whether some range has pages left.
    pub fn any_pending(&self) -> (b: bool)
        ensures
            b == exists|i: int| 0 <= i < self.states@.len() && !(#[trigger] self.states@[i]).done,
    {
        let mut i: usize = 0;
        while i < self.states.len()
            invariant
                i <= self.states@.len(),
                forall|k: int| 0 <= k < i ==> (#[trigger] self.states@[k]).done,
            decreases self.states@.len() - i,
        {
            if !self.states[i].done {
                return true;
            }
            i = i + 1;
        }
        false
    }

    /// Record the answer for a page of range `index`: its next cursor, or,
    /// with none, that the range is done.
    pub fn record_page(&mut self, index: usize, next_cursor: Option<u64>)
        requires
            index < old(self).states@.len(),
        ensures
            final(self).states@.len() == old(self).states@.len(),
            forall|k: int|
                0 <= k < old(self).states@.len() && k != index ==> #[trigger] final(self).states@[k]
                    == old(self).states@[k],
            final(self).states@[index as int].start_date == old(self).states@[index as int].start_date,
            final(self).states@[index as int].end_date == old(self).states@[index as int].end_date,
            match next_cursor {
                Some(c) => final(self).states@[index as int].cursor == Some(c) && final(self).states@[index as int].done == old(self).states@[index as int].done,
                None => final(self).states@[index as int].cursor == old(self).states@[index as int].cursor && final(self).states@[index as int].done,
            },
            final(self).states@[index as int] == after_page(old(self).states@[index as int], next_cursor),
    {
        let old_state = &self.states[index];
        let updated = match next_cursor {
            Some(c) => RangeState {
                start_date: old_state.start_date.clone(),
                end_date: old_state.end_date.clone(),
                cursor: Some(c),
                done: old_state.done,
            },
            None => RangeState {
                start_date: old_state.start_date.clone(),
                end_date: old_state.end_date.clone(),
                cursor: old_state.cursor,
                done: true,
            },
        };
        self.states.set(index, updated);
    }

    /// Cut the pending pages into batches of `RATE_LIMIT_BATCH_SIZE`, fired
    /// together within one rate-limit window.
    pub fn batches(pages: Vec<PendingPage>) -> (batches: Vec<Vec<PendingPage>>)
        ensures
            is_batching(batches@.map_values(|b: Vec<PendingPage>| b@), pages@),
    {
        let ghost all = pages@;
        let mut batches: Vec<Vec<PendingPage>> = Vec::new();
        let mut current: Vec<PendingPage> = Vec::new();
        let mut rest = pages;
        let mut taken: usize = 0;
        let n = rest.len();
        // move the pages out front to back
        let mut rev: Vec<PendingPage> = Vec::new();
        while rest.len() > 0
            invariant
                rest@.len() + rev@.len() == all.len(),
                n == all.len(),
                forall|k: int| 0 <= k < rest@.len() ==> #[trigger] rest@[k] == all[k],
                forall|k: int| 0 <= k < rev@.len() ==> #[trigger] rev@[k] == all[all.len() - 1 - k],
            decreases rest@.len(),
        {
            let p = rest.pop().unwrap();
            rev.push(p);
        }
        while rev.len() > 0
            invariant
                n == all.len(),
                taken + rev@.len() == all.len(),
                forall|k: int| 0 <= k < rev@.len() ==> #[trigger] rev@[k] == all[all.len() - 1 - k],
                taken == batches@.len() * RATE_LIMIT_BATCH_SIZE + current@.len(),
                current@.len() < RATE_LIMIT_BATCH_SIZE,
                forall|k: int|
                    0 <= k < current@.len() ==> #[trigger] current@[k] == all[batches@.len()
                        * RATE_LIMIT_BATCH_SIZE + k],
                forall|b: int|
                    0 <= b < batches@.len() ==> (#[trigger] batches@[b])@.len()
                        == RATE_LIMIT_BATCH_SIZE,
                forall|b: int, k: int|
                    0 <= b < batches@.len() && 0 <= k < RATE_LIMIT_BATCH_SIZE ==> #[trigger] batches@[b]@[k]
                        == all[b * RATE_LIMIT_BATCH_SIZE + k],
            decreases rev@.len(),
        {
            let p = rev.pop().unwrap();
            current.push(p);
            taken = taken + 1;
            if current.len() == RATE_LIMIT_BATCH_SIZE {
                let full = current;
                current = Vec::new();
                batches.push(full);
            }
        }
        if current.len() > 0 {
            batches.push(current);
        }
        proof {
            let bs = batches@.map_values(|b: Vec<PendingPage>| b@);
            assert(bs.len() == (all.len() + RATE_LIMIT_BATCH_SIZE - 1) / (RATE_LIMIT_BATCH_SIZE as int));
            assert forall|b: int, k: int|
                0 <= b < bs.len() && 0 <= k < bs[b].len() implies b * RATE_LIMIT_BATCH_SIZE + k
                    < all.len() && #[trigger] bs[b][k] == all[b * RATE_LIMIT_BATCH_SIZE + k] by {
                assert(bs[b] == batches@[b]@);
            }
            assert forall|b: int| 0 <= b < bs.len() implies #[trigger] bs[b].len() == if (b + 1)
                * RATE_LIMIT_BATCH_SIZE <= all.len() {
                RATE_LIMIT_BATCH_SIZE as int
            } else {
                all.len() - b * RATE_LIMIT_BATCH_SIZE
            } by {
                assert(bs[b] == batches@[b]@);
            }
        }
        batches
    }
}

/// A batch never holds more requests than `RATE_LIMIT_BATCH_SIZE`, which
/// leaves at least one slot of a rate-limit window for the teams request.
pub proof fn batch_leaves_room_for_teams_request(batches: Seq<Seq<PendingPage>>, pages: Seq<PendingPage>)
    requires
        is_batching(batches, pages),
    ensures
        forall|b: int| 0 <= b < batches.len() ==> (#[trigger] batches[b]).len() < RATE_LIMIT_MAX_REQUESTS,
{
    assert forall|b: int| 0 <= b < batches.len() implies (#[trigger] batches[b]).len() < RATE_LIMIT_MAX_REQUESTS by {
        assert((b + 1) * RATE_LIMIT_BATCH_SIZE == b * RATE_LIMIT_BATCH_SIZE + RATE_LIMIT_BATCH_SIZE) by (nonlinear_arith);
    }
}

/// The pending pages are exactly the ranges not yet done: a done range has
/// no pending page and every other range has one.
pub proof fn pagination_progress(states: Seq<RangeState>, i: int)
    requires
        0 <= i < states.len(),
    ensures
        states[i].done ==> forall|p: int|
            0 <= p < pending_spec(states).len() ==> (#[trigger] pending_spec(states)[p]).0 != i,
        !states[i].done ==> exists|p: int|
            0 <= p < pending_spec(states).len() && (#[trigger] pending_spec(states)[p]).0 == i,
    decreases states.len(),
{
    let init = states.drop_last();
    if i < states.len() - 1 {
        assert(states[i] == init[i]);
        pagination_progress(init, i);
        lemma_pending_indices(init);
        if !states[i].done {
            let p = choose|p: int| 0 <= p < pending_spec(init).len() && (#[trigger] pending_spec(init)[p]).0 == i;
            assert(pending_spec(states)[p] == pending_spec(init)[p]);
        }
    } else {
        lemma_pending_indices(init);
        if !states[i].done {
            let p = pending_spec(init).len() as int;
            assert(pending_spec(states)[p].0 == i);
        }
    }
}

/// Each range walks the chain of cursors its pages answer: a fresh range
/// asks for its first page with no cursor; once page `r` is answered it asks
/// with the cursor that page answered; after the last page (no next cursor)
/// it is done, and a done range asks for nothing more.
pub proof fn pagination_walks_cursor_chain(s: RangeState, cursors: Seq<u64>, r: int)
    requires
        0 <= r,
        walked(s, cursors, r),
    ensures
        (!s.done && s.cursor is None) <==> walked(s, cursors, 0),
        r <= cursors.len() ==> !s.done && s.cursor == request_cursor(cursors, r),
        r <= cursors.len() ==> walked(after_page(s, answer_cursor(cursors, r)), cursors, r + 1),
        r > cursors.len() ==> s.done,
{
}

/// How many answers range `i` has had among the steps of `order`.
pub open spec fn answers_so_far(order: Seq<int>, i: int) -> nat
    decreases order.len(),
{
    if order.len() == 0 {
        0
    } else {
        answers_so_far(order.drop_last(), i) + if order.last() == i {
            1nat
        } else {
            0nat
        }
    }
}

/// The ranges after a run of `record_page` steps: step `n` records, for range
/// `order[n]`, the answer of its next page, the ranges' pages answering the
/// next cursors `chains[i]` in turn.
pub open spec fn run_states(states0: Seq<RangeState>, chains: Seq<Seq<u64>>, order: Seq<int>) -> Seq<
    RangeState,
>
    decreases order.len(),
{
    if order.len() == 0 {
        states0
    } else {
        let prev = run_states(states0, chains, order.drop_last());
        let i = order.last();
        prev.update(i, after_page(prev[i], answer_cursor(chains[i], answers_so_far(order.drop_last(), i) as int)))
    }
}

/// Every step of the run answers a page that was pending: its range was not done.
pub open spec fn run_is_valid(states0: Seq<RangeState>, chains: Seq<Seq<u64>>, order: Seq<int>) -> bool {
    forall|n: int|
        0 <= n < order.len() ==> 0 <= #[trigger] order[n] < states0.len() && !run_states(
            states0,
            chains,
            order.take(n),
        )[order[n]].done
}

/// Driving a fresh plan with the answers of the ranges' pages asks for every
/// page of every range exactly once, in each range's cursor order, and ends
/// when all are asked: the page a step answers is the range's next page
/// (asked with no cursor first, then with each cursor its pages answered), no
/// range is asked more than its pages, and nothing is pending exactly when
/// every range had all its pages answered. The ranges keep their dates.
pub proof fn pagination_asks_every_page_once(states0: Seq<RangeState>, chains: Seq<Seq<u64>>, order: Seq<int>)
    requires
        states0.len() == chains.len(),
        forall|i: int| 0 <= i < states0.len() ==> !(#[trigger] states0[i]).done && states0[i].cursor is None,
        run_is_valid(states0, chains, order),
    ensures
        run_states(states0, chains, order).len() == states0.len(),
        forall|i: int|
            0 <= i < states0.len() ==> walked(
                #[trigger] run_states(states0, chains, order)[i],
                chains[i],
                answers_so_far(order, i) as int,
            ) && answers_so_far(order, i) <= chains[i].len() + 1 && run_states(states0, chains, order)[i].start_date
                == states0[i].start_date && run_states(states0, chains, order)[i].end_date == states0[i].end_date,
        forall|n: int|
            0 <= n < order.len() ==> (#[trigger] run_states(states0, chains, order.take(n)))[order[n]].cursor
                == request_cursor(chains[order[n]], answers_so_far(order.take(n), order[n]) as int),
        (forall|i: int| 0 <= i < states0.len() ==> (#[trigger] run_states(states0, chains, order)[i]).done) <==> (
        forall|i: int| 0 <= i < states0.len() ==> #[trigger] answers_so_far(order, i) == chains[i].len() + 1),
    decreases order.len(),
{
    let fin = run_states(states0, chains, order);
    if order.len() == 0 {
        assert forall|i: int| 0 <= i < states0.len() implies walked(
            #[trigger] run_states(states0, chains, order)[i],
            chains[i],
            answers_so_far(order, i) as int,
        ) by {
            pagination_walks_cursor_chain(states0[i], chains[i], 0);
        }
    } else {
        let init = order.drop_last();
        assert forall|n: int| 0 <= n < init.len() implies 0 <= #[trigger] init[n] < states0.len() && !run_states(
            states0,
            chains,
            init.take(n),
        )[init[n]].done by {
            assert(init.take(n) =~= order.take(n));
            assert(init[n] == order[n]);
        }
        pagination_asks_every_page_once(states0, chains, init);
        let prev = run_states(states0, chains, init);
        let i = order.last();
        let last = (order.len() - 1) as int;
        assert(order.take(last) =~= init);
        assert(order[last] == i);
        assert(0 <= i < states0.len() && !prev[i].done);
        let r = answers_so_far(init, i) as int;
        assert(walked(prev[i], chains[i], r));
        pagination_walks_cursor_chain(prev[i], chains[i], r);
        assert(r <= chains[i].len());
        assert forall|j: int| 0 <= j < states0.len() implies walked(
            #[trigger] run_states(states0, chains, order)[j],
            chains[j],
            answers_so_far(order, j) as int,
        ) && answers_so_far(order, j) <= chains[j].len() + 1 && run_states(states0, chains, order)[j].start_date
            == states0[j].start_date && run_states(states0, chains, order)[j].end_date == states0[j].end_date by {
            if j != i {
                assert(fin[j] == prev[j]);
                assert(answers_so_far(order, j) == answers_so_far(init, j));
            }
        }
        assert forall|n: int| 0 <= n < order.len() implies (#[trigger] run_states(states0, chains, order.take(n)))[order[n]].cursor
            == request_cursor(chains[order[n]], answers_so_far(order.take(n), order[n]) as int) by {
            if n < last {
                assert(init.take(n) =~= order.take(n));
                assert(init[n] == order[n]);
            } else {
                assert(order.take(n) =~= init);
            }
        }
    }
    assert((forall|i: int| 0 <= i < states0.len() ==> (#[trigger] fin[i]).done) <==> (forall|i: int|
        0 <= i < states0.len() ==> #[trigger] answers_so_far(order, i) == chains[i].len() + 1)) by {
        if forall|i: int| 0 <= i < states0.len() ==> (#[trigger] fin[i]).done {
            assert forall|i: int| 0 <= i < states0.len() implies #[trigger] answers_so_far(order, i) == chains[i].len()
                + 1 by {
                assert(fin[i].done);
                assert(walked(fin[i], chains[i], answers_so_far(order, i) as int));
            }
        }
        if forall|i: int| 0 <= i < states0.len() ==> #[trigger] answers_so_far(order, i) == chains[i].len() + 1 {
            assert forall|i: int| 0 <= i < states0.len() implies (#[trigger] fin[i]).done by {
                assert(answers_so_far(order, i) == chains[i].len() + 1);
                assert(walked(fin[i], chains[i], answers_so_far(order, i) as int));
            }
        }
    }
}

/// Each pending page is the next page of a range not yet done, and carries
/// that range's own dates and cursor; the pages come in range order, one per
/// range, and every range not yet done has one.
pub proof fn pending_pages_carry_their_ranges(states: Seq<RangeState>)
    ensures
        forall|p: int|
            0 <= p < pending_spec(states).len() ==> {
                let e = #[trigger] pending_spec(states)[p];
                &&& 0 <= e.0 < states.len()
                &&& !states[e.0].done
                &&& e.1 == states[e.0].start_date@
                &&& e.2 == states[e.0].end_date@
                &&& e.3 == states[e.0].cursor
            },
        forall|p: int, q: int|
            0 <= p < q < pending_spec(states).len() ==> (#[trigger] pending_spec(states)[p]).0 < (
            #[trigger] pending_spec(states)[q]).0,
        forall|i: int|
            0 <= i < states.len() && !(#[trigger] states[i]).done ==> exists|p: int|
                0 <= p < pending_spec(states).len() && (#[trigger] pending_spec(states)[p]).0 == i,
    decreases states.len(),
{
    if states.len() > 0 {
        let init = states.drop_last();
        pending_pages_carry_their_ranges(init);
        let ps = pending_spec(states);
        let pi = pending_spec(init);
        assert forall|p: int| 0 <= p < ps.len() implies {
            let e = #[trigger] ps[p];
            &&& 0 <= e.0 < states.len()
            &&& !states[e.0].done
            &&& e.1 == states[e.0].start_date@
            &&& e.2 == states[e.0].end_date@
            &&& e.3 == states[e.0].cursor
        } by {
            if p < pi.len() {
                assert(ps[p] == pi[p]);
                assert(states[pi[p].0] == init[pi[p].0]);
            }
        }
        assert forall|p: int, q: int| 0 <= p < q < ps.len() implies (#[trigger] ps[p]).0 < (#[trigger] ps[q]).0 by {
            if q < pi.len() {
                assert(ps[p] == pi[p] && ps[q] == pi[q]);
            } else {
                assert(ps[p] == pi[p]);
            }
        }
        assert forall|i: int| 0 <= i < states.len() && !(#[trigger] states[i]).done implies exists|p: int|
            0 <= p < ps.len() && (#[trigger] ps[p]).0 == i by {
            if i < states.len() - 1 {
                assert(init[i] == states[i]);
                let p = choose|p: int| 0 <= p < pi.len() && (#[trigger] pi[p]).0 == i;
                assert(ps[p] == pi[p]);
            } else {
                assert(ps[pi.len() as int].0 == i);
            }
        }
    }
}

proof fn lemma_pending_indices(states: Seq<RangeState>)
    ensures
        forall|p: int|
            0 <= p < pending_spec(states).len() ==> 0 <= (#[trigger] pending_spec(states)[p]).0 < states.len()
                && !states[pending_spec(states)[p].0].done,
    decreases states.len(),
{
    if states.len() > 0 {
        let init = states.drop_last();
        lemma_pending_indices(init);
        assert forall|p: int| 0 <= p < pending_spec(states).len() implies 0 <= (
        #[trigger] pending_spec(states)[p]).0 < states.len() && !states[pending_spec(states)[p].0].done by {
            if p < pending_spec(init).len() {
                assert(pending_spec(states)[p] == pending_spec(init)[p]);
                assert(states[pending_spec(init)[p].0] == init[pending_spec(init)[p].0]);
            }
        }
    }
}

} // verus!
