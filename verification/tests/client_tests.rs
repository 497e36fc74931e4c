use std::time::Duration;

use chrono::NaiveDate;
use nba_standings::models::{ApiResponse, Meta};
use nba_standings::client::{
    backoff_secs, classify_response, games_query, games_since_ranges_at, games_url,
    season_date_ranges, teams_url, AcquireAction, PagePlan, RateLimiterState, ResponseStep,
    MAX_RETRIES, PER_PAGE, RATE_LIMIT_BATCH_SIZE, RATE_LIMIT_MAX_REQUESTS,
    RATE_LIMIT_WINDOW_NANOS, RATE_LIMIT_WINDOW_SECS,
};

// ── season_date_ranges ──────────────────────────────────────────

#[test]
fn season_date_ranges_returns_correct_count() {
    let ranges = season_date_ranges(2025);
    assert_eq!(ranges.len(), RATE_LIMIT_BATCH_SIZE);
}

#[test]
fn season_date_ranges_starts_october_first() {
    let ranges = season_date_ranges(2025);
    assert_eq!(ranges[0].0, "2025-10-01");
}

#[test]
fn season_date_ranges_ends_april_thirtieth() {
    let ranges = season_date_ranges(2025);
    let last = &ranges[ranges.len() - 1];
    assert_eq!(last.1, "2026-04-30");
}

#[test]
fn season_date_ranges_are_contiguous() {
    let ranges = season_date_ranges(2025);
    for i in 0..ranges.len() - 1 {
        let end = NaiveDate::parse_from_str(&ranges[i].1, "%Y-%m-%d").unwrap();
        let next_start = NaiveDate::parse_from_str(&ranges[i + 1].0, "%Y-%m-%d").unwrap();
        assert_eq!(
            next_start - end,
            chrono::Duration::days(1),
            "Gap between range {} end ({}) and range {} start ({})",
            i,
            ranges[i].1,
            i + 1,
            ranges[i + 1].0,
        );
    }
}

#[test]
fn season_date_ranges_no_overlaps() {
    let ranges = season_date_ranges(2025);
    for (start, end) in &ranges {
        let s = NaiveDate::parse_from_str(start, "%Y-%m-%d").unwrap();
        let e = NaiveDate::parse_from_str(end, "%Y-%m-%d").unwrap();
        assert!(s <= e, "Range start {start} is after end {end}");
    }
}

#[test]
fn season_date_ranges_different_seasons() {
    for season in [2020, 2023, 2025, 2030] {
        let ranges = season_date_ranges(season);
        assert_eq!(ranges.len(), RATE_LIMIT_BATCH_SIZE);
        assert_eq!(ranges[0].0, format!("{season}-10-01"));
        assert_eq!(ranges.last().unwrap().1, format!("{}-04-30", season + 1));
    }
}

#[test]
fn season_date_ranges_covers_full_regular_season_window() {
    let ranges = season_date_ranges(2025);
    let first_start = NaiveDate::parse_from_str(&ranges[0].0, "%Y-%m-%d").unwrap();
    let last_end = NaiveDate::parse_from_str(&ranges.last().unwrap().1, "%Y-%m-%d").unwrap();
    let total_days = (last_end - first_start).num_days();
    // Oct 1 to Apr 30 = 211 days
    assert_eq!(total_days, 211);
}

#[test]
fn season_date_ranges_exact_split_2025() {
    let ranges = season_date_ranges(2025);
    let expected = [
        ("2025-10-01", "2025-11-21"),
        ("2025-11-22", "2026-01-12"),
        ("2026-01-13", "2026-03-05"),
        ("2026-03-06", "2026-04-30"),
    ];
    for (r, e) in ranges.iter().zip(expected.iter()) {
        assert_eq!(r.0, e.0);
        assert_eq!(r.1, e.1);
    }
}

#[test]
fn season_date_ranges_leap_year_window_is_212_days() {
    // 2027-28 holds February 29, 2028.
    let ranges = season_date_ranges(2027);
    let first_start = NaiveDate::parse_from_str(&ranges[0].0, "%Y-%m-%d").unwrap();
    let last_end = NaiveDate::parse_from_str(&ranges[3].1, "%Y-%m-%d").unwrap();
    assert_eq!((last_end - first_start).num_days(), 212);
    assert_eq!(ranges[0].1, "2027-11-22");
    assert_eq!(ranges[1].0, "2027-11-23");
}

#[test]
fn games_since_uses_single_range_to_today() {
    // day 739525 is 2025-10-01
    let ranges = games_since_ranges_at(2025, Some("2025-11-03"), 739525 + 40);
    assert_eq!(ranges.len(), 1);
    assert_eq!(ranges[0].0, "2025-11-03");
    assert_eq!(ranges[0].1, "2025-11-10");
}

#[test]
fn games_since_without_date_is_whole_season() {
    let ranges = games_since_ranges_at(2024, None, 739525);
    assert_eq!(ranges, season_date_ranges(2024));
}

// ── RateLimiter ─────────────────────────────────────────────────

const SECOND: u128 = 1_000_000_000;

#[test]
fn rate_limiter_allows_up_to_max_requests_immediately() {
    let mut limiter = RateLimiterState::new(0);
    for k in 0..RATE_LIMIT_MAX_REQUESTS {
        let action = limiter.acquire(k as u128);
        assert_eq!(action, AcquireAction::Proceed);
    }
    assert_eq!(limiter.requests_in_window, RATE_LIMIT_MAX_REQUESTS);
    assert_eq!(limiter.window_start, 0);
}

#[test]
fn rate_limiter_blocks_after_max_requests() {
    let mut limiter = RateLimiterState::new(0);
    for _ in 0..RATE_LIMIT_MAX_REQUESTS {
        limiter.acquire(0);
    }
    // The next acquire waits until the window resets
    let action = limiter.acquire(0);
    assert_eq!(action, AcquireAction::Wait { nanos: RATE_LIMIT_WINDOW_NANOS });
    assert_eq!(limiter.requests_in_window, RATE_LIMIT_MAX_REQUESTS);
    // after the wait it acquires again and starts a new window
    assert_eq!(limiter.acquire(RATE_LIMIT_WINDOW_NANOS), AcquireAction::Proceed);
    assert_eq!(limiter.requests_in_window, 1);
    assert_eq!(limiter.window_start, RATE_LIMIT_WINDOW_NANOS);
}

#[test]
fn rate_limiter_resets_after_window_elapses() {
    let mut limiter = RateLimiterState::new(0);
    for _ in 0..RATE_LIMIT_MAX_REQUESTS {
        limiter.acquire(0);
    }
    // Past the window: acquire again immediately, in a new window
    let later = RATE_LIMIT_WINDOW_NANOS + SECOND;
    assert_eq!(limiter.acquire(later), AcquireAction::Proceed);
    assert_eq!(limiter.requests_in_window, 1);
    assert_eq!(limiter.window_start, later);
}

#[test]
fn rate_limiter_concurrent_acquires_serialize() {
    let mut limiter = RateLimiterState::new(0);
    let total = RATE_LIMIT_MAX_REQUESTS + 2;
    let mut proceeded_at: Vec<u128> = Vec::new();
    let mut waiting: Vec<u128> = Vec::new();
    for k in 0..total {
        match limiter.acquire(k as u128) {
            AcquireAction::Proceed => proceeded_at.push(k as u128),
            AcquireAction::Wait { nanos } => waiting.push(k as u128 + nanos),
        }
    }
    // the waiters acquire again when they wake
    for wake in waiting {
        assert_eq!(limiter.acquire(wake), AcquireAction::Proceed);
        proceeded_at.push(wake);
    }
    proceeded_at.sort();
    let first = proceeded_at[0];
    let last = proceeded_at[proceeded_at.len() - 1];
    assert_eq!(proceeded_at.len(), total as usize);
    assert!(
        last - first >= RATE_LIMIT_WINDOW_NANOS,
        "Expected at least one window wait for {} acquires, but spread was {}",
        total,
        last - first
    );
}

#[test]
fn woken_waiters_share_the_new_window() {
    let mut limiter = RateLimiterState::new(0);
    for _ in 0..RATE_LIMIT_MAX_REQUESTS {
        assert_eq!(limiter.acquire(0), AcquireAction::Proceed);
    }
    // two callers find the window full
    let w1 = limiter.acquire(SECOND);
    let w2 = limiter.acquire(SECOND);
    assert_eq!(w1, AcquireAction::Wait { nanos: RATE_LIMIT_WINDOW_NANOS - SECOND });
    assert_eq!(w2, w1);
    // both wake at the end of the window and acquire again
    let wake = RATE_LIMIT_WINDOW_NANOS;
    assert_eq!(limiter.acquire(wake), AcquireAction::Proceed);
    assert_eq!(limiter.acquire(wake), AcquireAction::Proceed);
    assert_eq!(limiter.requests_in_window, 2);
    // four more callers: only three fit in the new window
    let mut through = 0;
    for _ in 0..4 {
        if limiter.acquire(wake + SECOND) == AcquireAction::Proceed {
            through += 1;
        }
    }
    assert_eq!(through, 3);
    assert_eq!(limiter.requests_in_window, RATE_LIMIT_MAX_REQUESTS);
}

#[test]
fn rate_limiter_waits_only_the_rest_of_the_window() {
    let mut limiter = RateLimiterState { requests_in_window: RATE_LIMIT_MAX_REQUESTS, window_start: 0 };
    let action = limiter.acquire(60 * SECOND);
    assert_eq!(action, AcquireAction::Wait { nanos: SECOND });
}

// ── Constants ───────────────────────────────────────────────────

#[test]
fn rate_limit_batch_size_leaves_room_for_teams_request() {
    assert!(
        RATE_LIMIT_BATCH_SIZE < RATE_LIMIT_MAX_REQUESTS as usize,
        "RATE_LIMIT_BATCH_SIZE ({}) must be < RATE_LIMIT_MAX_REQUESTS ({})",
        RATE_LIMIT_BATCH_SIZE,
        RATE_LIMIT_MAX_REQUESTS,
    );
}

#[test]
fn rate_limit_window_exceeds_one_minute() {
    assert!(
        Duration::from_secs(RATE_LIMIT_WINDOW_SECS) > Duration::from_secs(60),
        "RATE_LIMIT_WINDOW must exceed 60 seconds"
    );
    assert_eq!(Duration::from_secs(RATE_LIMIT_WINDOW_SECS).as_nanos(), RATE_LIMIT_WINDOW_NANOS);
}

#[test]
fn per_page_is_api_maximum() {
    assert_eq!(PER_PAGE, 100, "PER_PAGE should be the API's maximum of 100");
}

#[test]
fn max_retries_is_reasonable() {
    assert!(
        MAX_RETRIES >= 3 && MAX_RETRIES <= 10,
        "MAX_RETRIES ({}) should be between 3 and 10",
        MAX_RETRIES
    );
}

// ── Exponential backoff calculation ─────────────────────────────

#[test]
fn backoff_is_exponential_not_linear() {
    let backoff_1 = backoff_secs(1);
    let backoff_2 = backoff_secs(2);
    let backoff_3 = backoff_secs(3);

    assert_eq!(backoff_1, 61, "First backoff should be 61s");
    assert_eq!(backoff_2, 122, "Second backoff should be 122s");
    assert_eq!(backoff_3, 244, "Third backoff should be 244s");
    assert_eq!(backoff_2, backoff_1 * 2);
    assert_eq!(backoff_3, backoff_2 * 2);
}

#[test]
fn backoff_max_attempt_does_not_overflow() {
    let window_secs = RATE_LIMIT_WINDOW_SECS;
    let max_backoff = window_secs.checked_mul(2u64.pow(MAX_RETRIES - 1));
    assert!(
        max_backoff.is_some(),
        "Backoff calculation overflows at MAX_RETRIES={}",
        MAX_RETRIES
    );
    assert_eq!(backoff_secs(MAX_RETRIES), max_backoff.unwrap());
}

// ── Responses ───────────────────────────────────────────────────

#[test]
fn too_many_requests_is_retried_with_backoff() {
    assert_eq!(classify_response(429, 0), ResponseStep::Retry { attempt: 1, backoff_secs: 61 });
    assert_eq!(classify_response(429, 2), ResponseStep::Retry { attempt: 3, backoff_secs: 244 });
}

#[test]
fn too_many_requests_gives_up_after_max_retries() {
    assert_eq!(classify_response(429, MAX_RETRIES), ResponseStep::RateLimited { attempt: MAX_RETRIES + 1 });
}

#[test]
fn other_errors_fail_and_successes_are_read() {
    assert_eq!(classify_response(500, 0), ResponseStep::Failed);
    assert_eq!(classify_response(404, 3), ResponseStep::Failed);
    assert_eq!(classify_response(199, 0), ResponseStep::Failed);
    assert_eq!(classify_response(300, 0), ResponseStep::Failed);
    assert_eq!(classify_response(200, 0), ResponseStep::Succeeded);
    assert_eq!(classify_response(204, 4), ResponseStep::Succeeded);
}

// ── Requests ────────────────────────────────────────────────────

#[test]
fn urls_append_endpoint() {
    assert_eq!(teams_url("https://example.test/v1"), "https://example.test/v1/teams");
    assert_eq!(games_url("https://example.test/v1"), "https://example.test/v1/games");
}

#[test]
fn games_query_lists_parameters_in_order() {
    let q = games_query(2025, "2025-10-01", "2025-11-21", None);
    let expected: Vec<(String, String)> = vec![
        ("seasons[]".to_string(), "2025".to_string()),
        ("postseason".to_string(), "false".to_string()),
        ("per_page".to_string(), "100".to_string()),
        ("start_date".to_string(), "2025-10-01".to_string()),
        ("end_date".to_string(), "2025-11-21".to_string()),
    ];
    assert_eq!(q, expected);
}

#[test]
fn games_query_adds_cursor_last() {
    let q = games_query(2024, "a", "b", Some(987654321));
    assert_eq!(q.len(), 6);
    assert_eq!(q[0].1, "2024");
    assert_eq!(q[5], ("cursor".to_string(), "987654321".to_string()));
}

// ── Pagination ──────────────────────────────────────────────────

fn ranges(n: usize) -> Vec<(String, String)> {
    (0..n).map(|i| (format!("s{i}"), format!("e{i}"))).collect()
}

#[test]
fn new_plan_has_every_range_pending_without_cursor() {
    let plan = PagePlan::new(&ranges(3));
    let pending = plan.pending();
    assert_eq!(pending.len(), 3);
    for (i, p) in pending.iter().enumerate() {
        assert_eq!(p.index, i);
        assert_eq!(p.start_date, format!("s{i}"));
        assert_eq!(p.end_date, format!("e{i}"));
        assert_eq!(p.cursor, None);
    }
}

#[test]
fn pages_advance_cursor_or_finish_range() {
    let mut plan = PagePlan::new(&ranges(3));
    plan.record_page(0, Some(42));
    plan.record_page(1, None);
    let pending = plan.pending();
    assert_eq!(pending.len(), 2);
    assert_eq!(pending[0].index, 0);
    assert_eq!(pending[0].cursor, Some(42));
    assert_eq!(pending[1].index, 2);
    assert!(plan.any_pending());
    plan.record_page(0, None);
    plan.record_page(2, None);
    assert!(!plan.any_pending());
    assert!(plan.pending().is_empty());
}

#[test]
fn batches_cut_pending_pages_into_fours() {
    let plan = PagePlan::new(&ranges(9));
    let batches = PagePlan::batches(plan.pending());
    let sizes: Vec<usize> = batches.iter().map(|b| b.len()).collect();
    assert_eq!(sizes, vec![4, 4, 1]);
    assert_eq!(batches[1][0].index, 4);
    assert_eq!(batches[2][0].index, 8);
    assert!(PagePlan::batches(Vec::new()).is_empty());
}

#[test]
fn next_cursor_comes_from_meta() {
    let with: ApiResponse<u8> =
        ApiResponse { data: vec![], meta: Some(Meta { next_cursor: Some(77), per_page: Some(100) }) };
    assert_eq!(with.next_cursor(), Some(77));
    let last: ApiResponse<u8> =
        ApiResponse { data: vec![], meta: Some(Meta { next_cursor: None, per_page: Some(100) }) };
    assert_eq!(last.next_cursor(), None);
    let none: ApiResponse<u8> = ApiResponse { data: vec![1], meta: None };
    assert_eq!(none.next_cursor(), None);
}

#[test]
fn each_range_walks_its_cursor_chain() {
    // range 0 answers cursors 7 then 9 then none; range 1 has a single page
    let mut plan = PagePlan::new(&ranges(2));
    let mut asked: Vec<(usize, Option<u64>)> = Vec::new();
    let answers = |index: usize, cursor: Option<u64>| -> Option<u64> {
        match (index, cursor) {
            (0, None) => Some(7),
            (0, Some(7)) => Some(9),
            _ => None,
        }
    };
    while plan.any_pending() {
        for page in plan.pending() {
            asked.push((page.index, page.cursor));
            plan.record_page(page.index, answers(page.index, page.cursor));
        }
    }
    assert_eq!(asked, vec![(0, None), (1, None), (0, Some(7)), (0, Some(9))]);
}

/// Drive one call's retries over the given answers: the steps taken and the
/// waits slept, as the fetch loop does.
fn run_retries(statuses: &[u16]) -> (Vec<ResponseStep>, Vec<u64>) {
    let mut steps = Vec::new();
    let mut waits = Vec::new();
    let mut attempt = 0;
    for &status in statuses {
        let step = classify_response(status, attempt);
        steps.push(step);
        match step {
            ResponseStep::Retry { attempt: next, backoff_secs } => {
                waits.push(backoff_secs);
                attempt = next;
            }
            _ => break,
        }
    }
    (steps, waits)
}

#[test]
fn six_rate_limited_answers_give_up_after_six_requests() {
    let (steps, waits) = run_retries(&[429; 8]);
    assert_eq!(steps.len(), 6);
    assert_eq!(steps[5], ResponseStep::RateLimited { attempt: 6 });
    assert_eq!(waits, vec![61, 122, 244, 488, 976]);
}

#[test]
fn success_after_rate_limits_ends_the_retries() {
    let (steps, waits) = run_retries(&[429, 429, 200, 429]);
    assert_eq!(steps.len(), 3);
    assert_eq!(steps[2], ResponseStep::Succeeded);
    assert_eq!(waits, vec![61, 122]);
    let (steps, _) = run_retries(&[429, 503]);
    assert_eq!(steps, vec![ResponseStep::Retry { attempt: 1, backoff_secs: 61 }, ResponseStep::Failed]);
}
