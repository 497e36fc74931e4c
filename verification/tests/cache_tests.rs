use std::collections::HashMap;

use nba_standings::cache::{game_list, later_day, CacheInner, CACHE_TTL_NANOS};
use nba_standings::models::{Game, Team};

fn team(id: u64, abbr: &str, conference: &str) -> Team {
    Team {
        id,
        conference: conference.to_string(),
        division: "Test".to_string(),
        city: "Test City".to_string(),
        name: abbr.to_string(),
        full_name: format!("Test City {abbr}"),
        abbreviation: abbr.to_string(),
    }
}

fn game(id: u64, home: &Team, visitor: &Team, scores: (u32, u32), status: &str, date: &str) -> Game {
    Game {
        id,
        date: date.to_string(),
        season: 2025,
        status: status.to_string(),
        period: Some(4),
        postseason: false,
        postponed: None,
        home_team_score: Some(scores.0),
        visitor_team_score: Some(scores.1),
        home_team: home.clone(),
        visitor_team: visitor.clone(),
    }
}

fn teams() -> Vec<Team> {
    vec![team(1, "BOS", "East"), team(2, "NYK", "East"), team(3, "LAL", "West")]
}

#[test]
fn new_cache_is_empty_and_needs_everything() {
    let cache = CacheInner::new(Some(2025));
    assert_eq!(cache.season, 2025);
    assert!(cache.standings.is_none());
    let plan = cache.plan_refresh(2025);
    assert!(plan.fetch_teams);
    assert!(!plan.season_changed);
    assert_eq!(plan.games_since, None);
}

#[test]
fn refresh_tallies_and_records_latest_date() {
    let t = teams();
    let mut cache = CacheInner::new(Some(2025));
    let plan = cache.plan_refresh(2025);
    let games = vec![
        game(10, &t[0], &t[1], (100, 90), "Final", "2025-10-22"),
        game(11, &t[2], &t[0], (100, 110), "Final", "2025-10-24"),
        game(12, &t[1], &t[2], (0, 0), "Scheduled", "2025-10-23"),
    ];
    let standings = cache.apply_refresh(&plan, t.clone(), games).unwrap();
    assert_eq!(standings.eastern[0].team.abbreviation, "BOS");
    assert_eq!(standings.eastern[0].wins, 2);
    assert_eq!(cache.latest_game_date.as_deref(), Some("2025-10-24"));
    assert_eq!(cache.games.len(), 3);
    let plan = cache.plan_refresh(2025);
    assert!(!plan.fetch_teams);
    assert_eq!(plan.games_since.as_deref(), Some("2025-10-24"));
}

#[test]
fn refresh_upserts_games_by_id() {
    let t = teams();
    let mut cache = CacheInner::new(Some(2025));
    let plan = cache.plan_refresh(2025);
    cache.apply_refresh(&plan, t.clone(), vec![game(10, &t[0], &t[1], (50, 60), "3rd Qtr", "2025-10-22")]);
    let plan = cache.plan_refresh(2025);
    let standings = cache
        .apply_refresh(&plan, t.clone(), vec![game(10, &t[0], &t[1], (100, 120), "Final", "2025-10-22")])
        .unwrap();
    assert_eq!(cache.games.len(), 1);
    assert_eq!(cache.games[&10].status, "Final");
    let nyk = standings.eastern.iter().find(|r| r.team.abbreviation == "NYK").unwrap();
    assert_eq!(nyk.wins, 1);
    // the same games again change nothing
    let plan = cache.plan_refresh(2025);
    let again = cache
        .apply_refresh(&plan, t.clone(), vec![game(10, &t[0], &t[1], (100, 120), "Final", "2025-10-22")])
        .unwrap();
    assert_eq!(cache.games.len(), 1);
    assert_eq!(again.eastern[0].wins, 1);
}

#[test]
fn latest_date_never_moves_backward() {
    let t = teams();
    let mut cache = CacheInner::new(Some(2025));
    let plan = cache.plan_refresh(2025);
    cache.apply_refresh(&plan, t.clone(), vec![game(10, &t[0], &t[1], (1, 0), "Final", "2025-11-05")]);
    let plan = cache.plan_refresh(2025);
    cache.apply_refresh(
        &plan,
        t.clone(),
        vec![
            game(11, &t[0], &t[1], (1, 0), "Final", "2025-11-01"),
            game(12, &t[0], &t[1], (1, 0), "Final", "not a date"),
        ],
    );
    assert_eq!(cache.latest_game_date.as_deref(), Some("2025-11-05"));
}

#[test]
fn season_change_resets_games_and_refetches() {
    let t = teams();
    let mut cache = CacheInner::new(Some(2024));
    let plan = cache.plan_refresh(2024);
    cache.apply_refresh(&plan, t.clone(), vec![game(10, &t[0], &t[1], (1, 0), "Final", "2025-03-01")]);
    let plan = cache.plan_refresh(2025);
    assert!(plan.season_changed);
    assert!(plan.fetch_teams);
    assert_eq!(plan.games_since, None);
    let standings = cache.apply_refresh(&plan, t.clone(), vec![]).unwrap();
    assert_eq!(cache.season, 2025);
    assert_eq!(standings.season, 2025);
    assert!(cache.games.is_empty());
    assert_eq!(cache.latest_game_date, None);
}

#[test]
fn fresh_standings_only_within_ttl() {
    let t = teams();
    let mut cache = CacheInner::new(Some(2025));
    assert!(cache.fresh_standings(Some(0)).is_none());
    let plan = cache.plan_refresh(2025);
    cache.apply_refresh(&plan, t, vec![]);
    assert!(cache.fresh_standings(Some(0)).is_some());
    assert!(cache.fresh_standings(Some(CACHE_TTL_NANOS - 1)).is_some());
    assert!(cache.fresh_standings(Some(CACHE_TTL_NANOS)).is_none());
    assert!(cache.fresh_standings(None).is_none());
}

#[test]
fn stats_report_counts() {
    let t = teams();
    let mut cache = CacheInner::new(Some(2025));
    let plan = cache.plan_refresh(2025);
    cache.apply_refresh(&plan, t.clone(), vec![game(10, &t[0], &t[1], (1, 0), "Final", "2025-10-22")]);
    let stats = cache.stats(Some(12));
    assert_eq!(stats.team_count, 3);
    assert_eq!(stats.game_count, 1);
    assert_eq!(stats.season, 2025);
    assert_eq!(stats.latest_game_date.as_deref(), Some("2025-10-22"));
    assert_eq!(stats.age_secs, Some(12));
}

#[test]
fn game_list_lists_each_stored_game_once() {
    let t = teams();
    let mut games = HashMap::new();
    for id in [5u64, 9, 2] {
        games.insert(id, game(id, &t[0], &t[1], (1, 0), "Final", "2025-10-22"));
    }
    let mut ids: Vec<u64> = game_list(&games).iter().map(|g| g.id).collect();
    ids.sort();
    assert_eq!(ids, vec![2, 5, 9]);
}

#[test]
fn later_day_keeps_the_latest_known_day() {
    assert_eq!(later_day(None, None), None);
    assert_eq!(later_day(None, Some(5)), Some(5));
    assert_eq!(later_day(Some(5), None), Some(5));
    assert_eq!(later_day(Some(5), Some(3)), Some(5));
    assert_eq!(later_day(Some(5), Some(5)), Some(5));
    assert_eq!(later_day(Some(5), Some(9)), Some(9));
}

#[test]
fn game_count_is_union_of_kept_and_fetched_ids() {
    let t = teams();
    let mut cache = CacheInner::new(Some(2025));
    let plan = cache.plan_refresh(2025);
    cache.apply_refresh(
        &plan,
        t.clone(),
        vec![
            game(10, &t[0], &t[1], (1, 0), "Final", "2025-10-22"),
            game(11, &t[1], &t[2], (1, 0), "Final", "2025-10-23"),
        ],
    );
    let plan = cache.plan_refresh(2025);
    cache.apply_refresh(
        &plan,
        t.clone(),
        vec![
            game(11, &t[1], &t[2], (0, 1), "Final", "2025-10-23"),
            game(12, &t[2], &t[0], (1, 0), "Final", "2025-10-24"),
            game(12, &t[2], &t[0], (1, 0), "Final", "2025-10-24"),
        ],
    );
    assert_eq!(cache.stats(None).game_count, 3);
}
