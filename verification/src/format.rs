//! The standings laid out as text: the season label, a table per conference
//! and the two message embeds (title, description, colour, footer).
use vstd::prelude::*;

use crate::compute::{Standings, TeamRecord};
use crate::dates::{utc_now_fields, utc_time_text, utc_time_text_of, valid_ymd, MAX_YEAR, MIN_YEAR};
use crate::text::{
    dec, decimal_text, join_lines, join_with_newlines, pad_left, pad_left_spec, pad_right,
    pad_right_spec, repeat_spec, repeat_text, two_digit_text, two_digits,
};

verus! {

/// How the footer writes the time of the update, in chrono's format syntax:
/// e.g. "November 17, 2025 at 3:05 PM UTC".
pub const UPDATED_TIME_FORMAT: &'static str = "%B %-d, %Y at %-I:%M %p UTC";

/// The season label, e.g. "2025-26": the season, a dash, and the last two
/// digits of the next year.
pub open spec fn season_display_spec(season: u32) -> Seq<char> {
    dec(season as nat) + seq!['-'] + two_digits(((season + 1) % 100) as nat)
}

/// Format the season display string (e.g., "2025-26").
pub fn season_display(season: u32) -> (s: String)
    requires
        season < u32::MAX,
    ensures
        s@ == season_display_spec(season),
{
    let next = (season + 1) % 100;
    let mut s = decimal_text(season as u64);
    s.append("-");
    let tail = two_digit_text(next as u64);
    s.append(tail.as_str());
    proof {
        reveal_strlit("-");
        assert(s@ =~= season_display_spec(season));
    }
    s
}

/// The header line of a table.
pub open spec fn header_line() -> Seq<char> {
    pad_right_spec("#"@, 4) + " "@ + pad_right_spec("Team"@, 4) + " "@ + pad_left_spec("W"@, 3) + " "@
        + pad_left_spec("L"@, 3) + "  "@ + pad_left_spec("PCT"@, 5)
}

/// The rule under the header.
pub open spec fn rule_line() -> Seq<char> {
    repeat_spec("─"@, 24)
}

/// The line of the team ranked `rank`: rank, abbreviation, wins, losses and
/// the win percentage as given.
pub open spec fn row_line(rank: nat, r: TeamRecord, pct: Seq<char>) -> Seq<char> {
    pad_right_spec(dec(rank), 4) + " "@ + pad_right_spec(r.team.abbreviation@, 4) + " "@
        + pad_left_spec(dec(r.wins as nat), 3) + " "@ + pad_left_spec(dec(r.losses as nat), 3) + "  "@
        + pct
}

/// The lines of a table: header, rule, and one line per record in order.
pub open spec fn table_lines(records: Seq<TeamRecord>, pcts: Seq<Seq<char>>) -> Seq<Seq<char>> {
    seq![header_line(), rule_line()] + Seq::new(
        records.len(),
        |i: int| row_line((i + 1) as nat, records[i], pcts[i]),
    )
}

fn header_text() -> (s: String)
    ensures
        s@ == header_line(),
{
    let mut s = pad_right("#", 4);
    s.append(" ");
    let team = pad_right("Team", 4);
    s.append(team.as_str());
    s.append(" ");
    let w = pad_left("W", 3);
    s.append(w.as_str());
    s.append(" ");
    let l = pad_left("L", 3);
    s.append(l.as_str());
    s.append("  ");
    let pct = pad_left("PCT", 5);
    s.append(pct.as_str());
    s
}

fn row_text(rank: usize, r: &TeamRecord, pct: &String) -> (s: String)
    ensures
        s@ == row_line(rank as nat, *r, pct@),
{
    let rank_text = decimal_text(rank as u64);
    let mut s = pad_right(rank_text.as_str(), 4);
    s.append(" ");
    let abbr = pad_right(r.team.abbreviation.as_str(), 4);
    s.append(abbr.as_str());
    s.append(" ");
    let wins_text = decimal_text(r.wins as u64);
    let w = pad_left(wins_text.as_str(), 3);
    s.append(w.as_str());
    s.append(" ");
    let losses_text = decimal_text(r.losses as u64);
    let l = pad_left(losses_text.as_str(), 3);
    s.append(l.as_str());
    s.append("  ");
    s.append(pct.as_str());
    s
}

/// Build a formatted table from a list of team records: a header, a rule
/// and one line per team with its rank (from 1), abbreviation, wins, losses
/// and win percentage (`pcts[i]` is that of `records[i]`, already written).
pub fn build_table(records: &Vec<TeamRecord>, pcts: &Vec<String>) -> (s: String)
    requires
        pcts@.len() == records@.len(),
    ensures
        s@ == join_lines(table_lines(records@, texts(pcts@))),
{
    let mut lines: Vec<String> = Vec::new();
    lines.push(header_text());
    lines.push(repeat_text("─", 24));
    let mut i: usize = 0;
    while i < records.len()
        invariant
            i <= records@.len(),
            pcts@.len() == records@.len(),
            lines@.len() == i + 2,
            lines@[0]@ == header_line(),
            lines@[1]@ == rule_line(),
            forall|k: int|
                0 <= k < i ==> (#[trigger] lines@[k + 2])@ == row_line(
                    (k + 1) as nat,
                    records@[k],
                    pcts@[k]@,
                ),
        decreases records@.len() - i,
    {
        let row = row_text(i + 1, &records[i], &pcts[i]);
        lines.push(row);
        i = i + 1;
    }
    let s = join_with_newlines(&lines);
    proof {
        let views = lines@.map_values(|l: String| l@);
        let expected = table_lines(records@, texts(pcts@));
        assert forall|k: int| 0 <= k < views.len() implies #[trigger] views[k] == expected[k] by {
            if k >= 2 {
                assert(lines@[(k - 2) + 2]@ == row_line((k - 1) as nat, records@[k - 2], pcts@[k - 2]@));
            }
        }
        assert(views =~= expected);
    }
    s
}

/// The text of one message embed.
#[derive(Debug)]
pub struct EmbedText {
    pub title: String,
    pub description: String,
    pub colour: (u8, u8, u8),
    pub footer: String,
}

/// The colour of the Eastern Conference embed.
pub const EASTERN_COLOUR: (u8, u8, u8) = (29, 66, 138);

/// The colour of the Western Conference embed.
pub const WESTERN_COLOUR: (u8, u8, u8) = (200, 16, 46);

/// The embed of one conference: `<name> — <season>` as title, the table in
/// a code block as description, and "Updated <timestamp>" as footer.
pub open spec fn embed_spec(
    name: Seq<char>,
    season: u32,
    table: Seq<char>,
    colour: (u8, u8, u8),
    timestamp: Seq<char>,
    e: EmbedText,
) -> bool {
    &&& e.title@ == name + " — "@ + season_display_spec(season)
    &&& e.description@ == "```\n"@ + table + "\n```"@
    &&& e.colour == colour
    &&& e.footer@ == "Updated "@ + timestamp
}

/// The views of texts.
pub open spec fn texts(v: Seq<String>) -> Seq<Seq<char>> {
    v.map_values(|p: String| p@)
}

/// The embed of one conference with its records and their percentages.
pub open spec fn conference_embed_spec(
    name: Seq<char>,
    season: u32,
    records: Seq<TeamRecord>,
    pcts: Seq<String>,
    colour: (u8, u8, u8),
    timestamp: Seq<char>,
    e: EmbedText,
) -> bool {
    embed_spec(name, season, join_lines(table_lines(records, texts(pcts))), colour, timestamp, e)
}

fn conference_embed(
    name: &str,
    season_text: &String,
    table: String,
    colour: (u8, u8, u8),
    timestamp: &str,
) -> (e: EmbedText)
    ensures
        e.title@ == name@ + " — "@ + season_text@,
        e.description@ == "```\n"@ + table@ + "\n```"@,
        e.colour == colour,
        e.footer@ == "Updated "@ + timestamp@,
{
    let mut title = String::from_str(name);
    title.append(" — ");
    title.append(season_text.as_str());
    let mut description = String::from_str("```\n");
    description.append(table.as_str());
    description.append("\n```");
    let mut footer = String::from_str("Updated ");
    footer.append(timestamp);
    EmbedText { title, description, colour, footer }
}

/// The embeds of the standings stamped with `timestamp`: the Eastern
/// Conference first, then the Western, each with its table.
pub fn standings_embeds_at(
    standings: &Standings,
    eastern_pcts: &Vec<String>,
    western_pcts: &Vec<String>,
    timestamp: &str,
) -> (embeds: Vec<EmbedText>)
    requires
        standings.season < u32::MAX,
        eastern_pcts@.len() == standings.eastern@.len(),
        western_pcts@.len() == standings.western@.len(),
    ensures
        embeds@.len() == 2,
        conference_embed_spec(
            "Eastern Conference"@,
            standings.season,
            standings.eastern@,
            eastern_pcts@,
            EASTERN_COLOUR,
            timestamp@,
            embeds@[0],
        ),
        conference_embed_spec(
            "Western Conference"@,
            standings.season,
            standings.western@,
            western_pcts@,
            WESTERN_COLOUR,
            timestamp@,
            embeds@[1],
        ),
{
    let season_text = season_display(standings.season);
    let eastern_table = build_table(&standings.eastern, eastern_pcts);
    let western_table = build_table(&standings.western, western_pcts);
    let eastern = conference_embed(
        "Eastern Conference",
        &season_text,
        eastern_table,
        EASTERN_COLOUR,
        timestamp,
    );
    let western = conference_embed(
        "Western Conference",
        &season_text,
        western_table,
        WESTERN_COLOUR,
        timestamp,
    );
    let mut embeds: Vec<EmbedText> = Vec::new();
    embeds.push(eastern);
    embeds.push(western);
    embeds
}

/// A table has a header line, a rule line and then one row per record, in
/// order: line `i + 2` is the row of record `i`, ranked `i + 1`, with its
/// percentage text. No record is left out and no other line is added.
pub proof fn table_has_a_row_per_record(records: Seq<TeamRecord>, pcts: Seq<Seq<char>>)
    requires
        pcts.len() == records.len(),
    ensures
        table_lines(records, pcts).len() == records.len() + 2,
        table_lines(records, pcts)[0] == header_line(),
        table_lines(records, pcts)[1] == rule_line(),
        forall|i: int|
            0 <= i < records.len() ==> #[trigger] table_lines(records, pcts)[i + 2] == row_line(
                (i + 1) as nat,
                records[i],
                pcts[i],
            ),
{
}

/// Build the embeds for the standings (one for each conference), stamped
/// with the current time.
pub fn build_standings_embeds(
    standings: &Standings,
    eastern_pcts: &Vec<String>,
    western_pcts: &Vec<String>,
) -> (embeds: Vec<EmbedText>)
    requires
        standings.season < u32::MAX,
        eastern_pcts@.len() == standings.eastern@.len(),
        western_pcts@.len() == standings.western@.len(),
    ensures
        embeds@.len() == 2,
        exists|year: i32, month: u32, day: u32, hour: u32, minute: u32, second: u32|
            #![trigger utc_time_text_of(year, month, day, hour, minute, second, UPDATED_TIME_FORMAT@)]
            MIN_YEAR <= year <= MAX_YEAR && valid_ymd(year as int, month as int, day as int) && hour < 24
                && minute < 60 && second < 60 && conference_embed_spec(
                "Eastern Conference"@,
                standings.season,
                standings.eastern@,
                eastern_pcts@,
                EASTERN_COLOUR,
                utc_time_text_of(year, month, day, hour, minute, second, UPDATED_TIME_FORMAT@),
                embeds@[0],
            ) && conference_embed_spec(
                "Western Conference"@,
                standings.season,
                standings.western@,
                western_pcts@,
                WESTERN_COLOUR,
                utc_time_text_of(year, month, day, hour, minute, second, UPDATED_TIME_FORMAT@),
                embeds@[1],
            ),
{
    let (year, month, day, hour, minute, second) = utc_now_fields();
    let timestamp = utc_time_text(year, month, day, hour, minute, second, UPDATED_TIME_FORMAT);
    standings_embeds_at(standings, eastern_pcts, western_pcts, timestamp.as_str())
}

} // verus!
