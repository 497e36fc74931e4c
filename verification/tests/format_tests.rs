use nba_standings::compute::{Standings, TeamRecord};
use nba_standings::format::{
    build_standings_embeds, build_table, season_display, standings_embeds_at, EmbedText,
    EASTERN_COLOUR, UPDATED_TIME_FORMAT, WESTERN_COLOUR,
};
use nba_standings::models::Team;
use nba_standings::text::{decimal_text, pad_left, pad_right, repeat_text, two_digit_text};

// ── Helpers ─────────────────────────────────────────────────────

fn make_team(id: u64, name: &str, abbr: &str, conference: &str) -> Team {
    Team {
        id,
        conference: conference.to_string(),
        division: "Test".to_string(),
        city: "Test City".to_string(),
        name: name.to_string(),
        full_name: format!("Test City {name}"),
        abbreviation: abbr.to_string(),
    }
}

fn make_record(team: Team, wins: u32, losses: u32) -> TeamRecord {
    TeamRecord { team, wins, losses }
}

fn pct_texts(records: &[TeamRecord]) -> Vec<String> {
    records
        .iter()
        .map(|r| {
            let (w, d) = r.win_pct_fraction();
            format!("{:.3}", w as f64 / d as f64)
        })
        .collect()
}

fn embeds_of(standings: &Standings) -> Vec<EmbedText> {
    build_standings_embeds(standings, &pct_texts(&standings.eastern), &pct_texts(&standings.western))
}

fn sample_standings() -> Standings {
    let east = make_record(make_team(1, "Celtics", "BOS", "East"), 50, 20);
    let west = make_record(make_team(2, "Lakers", "LAL", "West"), 45, 25);
    Standings { eastern: vec![east], western: vec![west], season: 2025 }
}

// ── Embeds (the content of the scheduled message) ───────────────

#[test]
fn message_contains_both_conference_embeds() {
    let embeds = embeds_of(&sample_standings());
    assert_eq!(
        embeds.len(),
        2,
        "Scheduled message must contain exactly 2 embeds (Eastern + Western), got {}",
        embeds.len()
    );
    let titles: Vec<&str> = embeds.iter().map(|e| e.title.as_str()).collect();
    assert!(
        titles.iter().any(|t| t.contains("Eastern")),
        "Missing Eastern Conference embed. Titles: {titles:?}"
    );
    assert!(
        titles.iter().any(|t| t.contains("Western")),
        "Missing Western Conference embed. Titles: {titles:?}"
    );
}

#[test]
fn message_embeds_contain_team_data() {
    let embeds = embeds_of(&sample_standings());
    let descriptions: Vec<&str> = embeds.iter().map(|e| e.description.as_str()).collect();
    assert!(
        descriptions.iter().any(|d| d.contains("BOS")),
        "Eastern embed should contain BOS team data"
    );
    assert!(
        descriptions.iter().any(|d| d.contains("LAL")),
        "Western embed should contain LAL team data"
    );
}

#[test]
fn message_with_empty_standings_still_has_both_embeds() {
    let standings = Standings { eastern: vec![], western: vec![], season: 2025 };
    let embeds = embeds_of(&standings);
    assert_eq!(embeds.len(), 2, "Even with no teams, message must have both conference embeds");
}

#[test]
fn embed_replace_regression() {
    let embeds = embeds_of(&sample_standings());
    assert_eq!(embeds.len(), 2, "build_standings_embeds should return 2 embeds");
    assert!(embeds[0].title.contains("Eastern"), "First embed should be Eastern Conference");
    assert!(embeds[1].title.contains("Western"), "Second embed should be Western Conference");
}

#[test]
fn embed_texts_exact() {
    let standings = sample_standings();
    let embeds = standings_embeds_at(
        &standings,
        &pct_texts(&standings.eastern),
        &pct_texts(&standings.western),
        "March 3, 2026 at 3:00 PM UTC",
    );
    assert_eq!(embeds[0].title, "Eastern Conference — 2025-26");
    assert_eq!(embeds[1].title, "Western Conference — 2025-26");
    assert_eq!(embeds[0].colour, EASTERN_COLOUR);
    assert_eq!(embeds[0].colour, (29, 66, 138));
    assert_eq!(embeds[1].colour, WESTERN_COLOUR);
    assert_eq!(embeds[1].colour, (200, 16, 46));
    assert_eq!(embeds[0].footer, "Updated March 3, 2026 at 3:00 PM UTC");
    assert_eq!(
        embeds[0].description,
        "```\n#    Team   W   L    PCT\n────────────────────────\n1    BOS   50  20  0.714\n```"
    );
    assert_eq!(
        embeds[1].description,
        "```\n#    Team   W   L    PCT\n────────────────────────\n1    LAL   45  25  0.643\n```"
    );
}

#[test]
fn footer_starts_with_updated() {
    let embeds = embeds_of(&sample_standings());
    assert!(embeds[0].footer.starts_with("Updated "));
    assert!(embeds[0].footer.ends_with(" UTC"));
    assert!(embeds[0].footer.contains(" at "));
    assert_eq!(embeds[0].footer, embeds[1].footer);
}

#[test]
fn updated_time_format_writes_month_day_year_and_twelve_hour_time() {
    let at = chrono::NaiveDate::from_ymd_opt(2025, 11, 7)
        .unwrap()
        .and_hms_opt(15, 5, 9)
        .unwrap()
        .and_utc();
    assert_eq!(at.format(UPDATED_TIME_FORMAT).to_string(), "November 7, 2025 at 3:05 PM UTC");
}

// ── Table ───────────────────────────────────────────────────────

#[test]
fn table_matches_format_widths() {
    let records = vec![
        make_record(make_team(1, "Celtics", "BOS", "East"), 50, 20),
        make_record(make_team(2, "Raptors", "TORONTO", "East"), 7, 123),
    ];
    let table = build_table(&records, &pct_texts(&records));
    let expected = [
        format!("{:<4} {:<4} {:>3} {:>3}  {:>5}", "#", "Team", "W", "L", "PCT"),
        "─".repeat(24),
        format!("{:<4} {:<4} {:>3} {:>3}  {:.3}", 1, "BOS", 50, 20, 50.0 / 70.0),
        format!("{:<4} {:<4} {:>3} {:>3}  {:.3}", 2, "TORONTO", 7, 123, 7.0 / 130.0),
    ]
    .join("\n");
    assert_eq!(table, expected);
}

#[test]
fn empty_table_has_header_and_rule() {
    let table = build_table(&vec![], &vec![]);
    assert_eq!(table, "#    Team   W   L    PCT\n────────────────────────");
}

// ── Season label ────────────────────────────────────────────────

#[test]
fn season_display_formats_two_digit_next_year() {
    assert_eq!(season_display(2025), "2025-26");
    assert_eq!(season_display(1999), "1999-00");
    assert_eq!(season_display(2008), "2008-09");
    assert_eq!(season_display(0), "0-01");
}

// ── Text helpers ────────────────────────────────────────────────

#[test]
fn decimal_and_padding_match_std_formatting() {
    for n in [0u64, 7, 10, 99, 100, 4096, u64::MAX] {
        assert_eq!(decimal_text(n), n.to_string());
    }
    for n in [0u64, 5, 42, 99] {
        assert_eq!(two_digit_text(n), format!("{n:02}"));
    }
    assert_eq!(pad_right("ab", 4), format!("{:<4}", "ab"));
    assert_eq!(pad_right("abcdef", 4), "abcdef");
    assert_eq!(pad_left("7", 3), format!("{:>3}", "7"));
    assert_eq!(pad_left("─é", 3), format!("{:>3}", "─é"));
    assert_eq!(repeat_text("ab", 3), "ababab");
}
