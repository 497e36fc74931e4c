//! Tallying completed games into win/loss records and ranking each conference.
use vstd::multiset::Multiset;
use vstd::prelude::*;

use crate::dates::{utc_now_year_month, MAX_YEAR, MIN_YEAR};
use crate::models::{Game, Team};
use crate::text::text_is;

verus! {

/// A team's win-loss record for a season.
#[derive(Debug)]
pub struct TeamRecord {
    pub team: Team,
    pub wins: u32,
    pub losses: u32,
}

/// Standings split by conference.
#[derive(Debug)]
pub struct Standings {
    pub eastern: Vec<TeamRecord>,
    pub western: Vec<TeamRecord>,
    pub season: u32,
}

impl Clone for TeamRecord {
    fn clone(&self) -> (r: Self)
        ensures
            r == *self,
    {
        TeamRecord { team: self.team.clone(), wins: self.wins, losses: self.losses }
    }
}

/// A copy of a list of records, element for element.
pub fn copy_records(records: &Vec<TeamRecord>) -> (r: Vec<TeamRecord>)
    ensures
        r@ == records@,
{
    let mut r: Vec<TeamRecord> = Vec::new();
    let mut i: usize = 0;
    while i < records.len()
        invariant
            i <= records.len(),
            r@ == records@.take(i as int),
        decreases records.len() - i,
    {
        r.push(records[i].clone());
        proof {
            assert(records@.take(i + 1) =~= records@.take(i as int).push(records@[i as int]));
        }
        i = i + 1;
    }
    proof {
        assert(records@.take(records.len() as int) =~= records@);
    }
    r
}

impl Clone for Standings {
    fn clone(&self) -> (r: Self)
        ensures
            r.eastern@ == self.eastern@,
            r.western@ == self.western@,
            r.season == self.season,
    {
        let eastern = copy_records(&self.eastern);
        let western = copy_records(&self.western);
        Standings { eastern, western, season: self.season }
    }
}

impl TeamRecord {
    /// The win percentage as a fraction: wins over games played, or 0 over 1
    /// for a team that has not played.
    pub fn win_pct_fraction(&self) -> (r: (u32, u32))
        requires
            self.wins + self.losses <= u32::MAX,
        ensures
            r.0 == self.wins,
            r.1 == pct_denominator(*self),
    {
        let total = self.wins + self.losses;
        if total > 0 {
            (self.wins, total)
        } else {
            (0, 1)
        }
    }
}

// ── The tally ──────────────────────────────────────────────────────────

/// A game that counts toward the standings: final, both scores known, not tied.
pub open spec fn is_decided(g: Game) -> bool {
    &&& g.status@ == "Final"@
    &&& g.home_team_score is Some
    &&& g.visitor_team_score is Some
    &&& g.home_team_score->0 != g.visitor_team_score->0
}

/// The id of the team that won a decided game.
pub open spec fn winner_id(g: Game) -> u64 {
    if g.home_team_score->0 > g.visitor_team_score->0 {
        g.home_team.id
    } else {
        g.visitor_team.id
    }
}

/// The id of the team that lost a decided game.
pub open spec fn loser_id(g: Game) -> u64 {
    if g.home_team_score->0 > g.visitor_team_score->0 {
        g.visitor_team.id
    } else {
        g.home_team.id
    }
}

/// How many decided games the team `id` won.
pub open spec fn wins_of(id: u64, games: Seq<Game>) -> nat
    decreases games.len(),
{
    if games.len() == 0 {
        0
    } else {
        wins_of(id, games.drop_last()) + if is_decided(games.last()) && winner_id(games.last())
            == id {
            1nat
        } else {
            0nat
        }
    }
}

/// How many decided games the team `id` lost.
pub open spec fn losses_of(id: u64, games: Seq<Game>) -> nat
    decreases games.len(),
{
    if games.len() == 0 {
        0
    } else {
        losses_of(id, games.drop_last()) + if is_decided(games.last()) && loser_id(games.last())
            == id {
            1nat
        } else {
            0nat
        }
    }
}

/// How many games are decided.
pub open spec fn decided_count(games: Seq<Game>) -> nat
    decreases games.len(),
{
    if games.len() == 0 {
        0
    } else {
        decided_count(games.drop_last()) + if is_decided(games.last()) {
            1nat
        } else {
            0nat
        }
    }
}

/// The first position of a team with this id, or -1.
pub open spec fn team_position(ts: Seq<Team>, id: u64) -> int
    decreases ts.len(),
{
    if ts.len() == 0 {
        -1
    } else {
        let p = team_position(ts.drop_last(), id);
        if p >= 0 {
            p
        } else if ts.last().id == id {
            ts.len() - 1
        } else {
            -1
        }
    }
}

/// The teams that get a record: one per id, in the order ids first appear,
/// each the last team given with that id (as filling a map keyed by id leaves it).
pub open spec fn record_teams(teams: Seq<Team>) -> Seq<Team>
    decreases teams.len(),
{
    if teams.len() == 0 {
        Seq::empty()
    } else {
        let prev = record_teams(teams.drop_last());
        let p = team_position(prev, teams.last().id);
        if p >= 0 {
            prev.update(p, teams.last())
        } else {
            prev.push(teams.last())
        }
    }
}

/// The record of `team` over `games`.
pub open spec fn record_of(team: Team, games: Seq<Game>) -> TeamRecord {
    TeamRecord { team, wins: wins_of(team.id, games) as u32, losses: losses_of(team.id, games) as u32 }
}

/// The records of all teams, in the order of `record_teams`.
pub open spec fn all_records(teams: Seq<Team>, games: Seq<Game>) -> Seq<TeamRecord> {
    record_teams(teams).map_values(|t: Team| record_of(t, games))
}

/// Whether a record's team plays in the conference.
pub open spec fn in_conference(conference: Seq<char>) -> spec_fn(TeamRecord) -> bool {
    |r: TeamRecord| r.team.conference@ == conference
}

/// The records of the teams of one conference, in the order of `all_records`.
pub open spec fn conference_records(teams: Seq<Team>, games: Seq<Game>, conference: Seq<char>) -> Seq<
    TeamRecord,
> {
    all_records(teams, games).filter(in_conference(conference))
}

/// No team's games played (won and lost) exceed what a `u32` counts.
pub open spec fn tally_fits(teams: Seq<Team>, games: Seq<Game>) -> bool {
    forall|i: int|
        0 <= i < teams.len() ==> wins_of(#[trigger] teams[i].id, games) + losses_of(teams[i].id, games)
            <= u32::MAX
}

/// The winner's and the loser's id of a game that counts, or `None`.
fn decision(g: &Game) -> (r: Option<(u64, u64)>)
    ensures
        r is Some <==> is_decided(*g),
        r matches Some(p) ==> p.0 == winner_id(*g) && p.1 == loser_id(*g),
{
    if text_is(&g.status, "Final") {
        match (g.home_team_score, g.visitor_team_score) {
            (Some(h), Some(v)) => {
                if h > v {
                    Some((g.home_team.id, g.visitor_team.id))
                } else if v > h {
                    Some((g.visitor_team.id, g.home_team.id))
                } else {
                    None
                }
            },
            _ => None,
        }
    } else {
        None
    }
}

/// How many counted games the team `id` played (won or lost).
fn games_played(id: u64, games: &[Game]) -> (n: u128)
    ensures
        n == wins_of(id, games@) + losses_of(id, games@),
{
    let mut n: u128 = 0;
    let mut j: usize = 0;
    while j < games.len()
        invariant
            j <= games@.len(),
            n == wins_of(id, games@.take(j as int)) + losses_of(id, games@.take(j as int)),
            n <= 2 * j,
        decreases games@.len() - j,
    {
        proof {
            assert(games@.take(j + 1).drop_last() =~= games@.take(j as int));
            assert(games@.take(j + 1).last() == games@[j as int]);
        }
        match decision(&games[j]) {
            Some((winner, loser)) => {
                if winner == id {
                    n = n + 1;
                }
                if loser == id {
                    n = n + 1;
                }
            },
            None => {},
        }
        j = j + 1;
    }
    proof {
        assert(games@.take(games@.len() as int) =~= games@);
    }
    n
}

/// Whether every team's games played fit a `u32`, so that the standings can
/// be tallied.
pub fn tally_fits_exec(teams: &[Team], games: &[Game]) -> (b: bool)
    ensures
        b == tally_fits(teams@, games@),
{
    let mut i: usize = 0;
    while i < teams.len()
        invariant
            i <= teams@.len(),
            forall|k: int|
                0 <= k < i ==> wins_of(#[trigger] teams@[k].id, games@) + losses_of(teams@[k].id, games@)
                    <= u32::MAX,
        decreases teams@.len() - i,
    {
        let played = games_played(teams[i].id, games);
        if played > 0xFFFF_FFFFu128 {
            return false;
        }
        i = i + 1;
    }
    true
}

// ── The ranking ────────────────────────────────────────────────────────

/// Games played, or 1 for a team that has not played: the win percentage is
/// `wins / pct_denominator`.
pub open spec fn pct_denominator(r: TeamRecord) -> int {
    if r.wins + r.losses == 0 {
        1
    } else {
        r.wins + r.losses
    }
}

/// `a` stands at or above `b`: a higher win percentage, or the same one and
/// at least as many wins.
pub open spec fn ranks_at_or_above(a: TeamRecord, b: TeamRecord) -> bool {
    let x = a.wins * pct_denominator(b);
    let y = b.wins * pct_denominator(a);
    x > y || (x == y && a.wins >= b.wins)
}

/// Ordered by win percentage descending, then by wins descending.
pub open spec fn is_ranked(s: Seq<TeamRecord>) -> bool {
    forall|i: int, j: int| 0 <= i < j < s.len() ==> ranks_at_or_above(#[trigger] s[i], #[trigger] s[j])
}

/// Records whose games played fit in a `u32`.
pub open spec fn counts_fit(s: Seq<TeamRecord>) -> bool {
    forall|i: int| 0 <= i < s.len() ==> #[trigger] s[i].wins + s[i].losses <= u32::MAX
}

/// What `compute_standings` returns: each conference holds exactly the
/// records of its teams (the multiset of them), ranked.
pub open spec fn standings_of(
    teams: Seq<Team>,
    games: Seq<Game>,
    season: u32,
    s: Standings,
) -> bool {
    &&& s.eastern@.to_multiset() == conference_records(teams, games, "East"@).to_multiset()
    &&& s.western@.to_multiset() == conference_records(teams, games, "West"@).to_multiset()
    &&& is_ranked(s.eastern@)
    &&& is_ranked(s.western@)
    &&& s.season == season
}

proof fn lemma_cross_order(aw: int, ad: int, bw: int, bd: int, cw: int, cd: int)
    requires
        ad > 0,
        bd > 0,
        cd > 0,
        aw * bd >= bw * ad,
        bw * cd >= cw * bd,
    ensures
        aw * cd >= cw * ad,
        aw * cd == cw * ad ==> aw * bd == bw * ad && bw * cd == cw * bd,
{
    assert(aw * bd * cd >= bw * ad * cd) by (nonlinear_arith)
        requires
            aw * bd >= bw * ad,
            cd > 0,
    ;
    assert(bw * cd * ad >= cw * bd * ad) by (nonlinear_arith)
        requires
            bw * cd >= cw * bd,
            ad > 0,
    ;
    assert(aw * cd * bd >= cw * ad * bd) by (nonlinear_arith)
        requires
            aw * bd * cd >= bw * ad * cd,
            bw * cd * ad >= cw * bd * ad,
    ;
    assert(aw * cd >= cw * ad) by (nonlinear_arith)
        requires
            aw * cd * bd >= cw * ad * bd,
            bd > 0,
    ;
    if aw * cd == cw * ad {
        assert(aw * bd * cd == bw * ad * cd) by (nonlinear_arith)
            requires
                aw * bd * cd >= bw * ad * cd,
                bw * cd * ad >= cw * bd * ad,
                aw * cd == cw * ad,
        ;
        assert(aw * bd == bw * ad) by (nonlinear_arith)
            requires
                aw * bd * cd == bw * ad * cd,
                cd > 0,
        ;
        assert(bw * cd * ad == cw * bd * ad) by (nonlinear_arith)
            requires
                aw * bd * cd == bw * ad * cd,
                aw * cd == cw * ad,
        ;
        assert(bw * cd == cw * bd) by (nonlinear_arith)
            requires
                bw * cd * ad == cw * bd * ad,
                ad > 0,
        ;
    }
}

/// Any two records are ranked one way or the other.
pub proof fn lemma_rank_total(a: TeamRecord, b: TeamRecord)
    ensures
        ranks_at_or_above(a, b) || ranks_at_or_above(b, a),
{
}

/// Ranking is transitive.
pub proof fn lemma_rank_transitive(a: TeamRecord, b: TeamRecord, c: TeamRecord)
    requires
        ranks_at_or_above(a, b),
        ranks_at_or_above(b, c),
    ensures
        ranks_at_or_above(a, c),
{
    let ad = pct_denominator(a);
    let bd = pct_denominator(b);
    let cd = pct_denominator(c);
    lemma_cross_order(a.wins as int, ad, b.wins as int, bd, c.wins as int, cd);
}

fn ranks_at_or_above_exec(a: &TeamRecord, b: &TeamRecord) -> (r: bool)
    requires
        a.wins + a.losses <= u32::MAX,
        b.wins + b.losses <= u32::MAX,
    ensures
        r == ranks_at_or_above(*a, *b),
{
    let at: u64 = a.wins as u64 + a.losses as u64;
    let bt: u64 = b.wins as u64 + b.losses as u64;
    let ad: u64 = if at == 0 {
        1
    } else {
        at
    };
    let bd: u64 = if bt == 0 {
        1
    } else {
        bt
    };
    let aw: u64 = a.wins as u64;
    let bw: u64 = b.wins as u64;
    assert(aw * bd <= u32::MAX * u32::MAX) by (nonlinear_arith)
        requires
            aw <= u32::MAX,
            bd <= u32::MAX,
    ;
    assert(bw * ad <= u32::MAX * u32::MAX) by (nonlinear_arith)
        requires
            bw <= u32::MAX,
            ad <= u32::MAX,
    ;
    let x = aw * bd;
    let y = bw * ad;
    x > y || (x == y && a.wins >= b.wins)
}

proof fn lemma_empty_multiset<A>(s: Seq<A>)
    requires
        s.len() == 0,
    ensures
        s.to_multiset() =~= Multiset::<A>::empty(),
{
    s.to_multiset_ensures();
    vstd::multiset::lemma_multiset_empty_len(s.to_multiset());
}

/// The records ranked by win percentage descending, then wins descending;
/// records that rank level keep their order.
pub fn rank_records(records: Vec<TeamRecord>) -> (out: Vec<TeamRecord>)
    requires
        counts_fit(records@),
    ensures
        out@.to_multiset() == records@.to_multiset(),
        is_ranked(out@),
        counts_fit(out@),
{
    let mut out: Vec<TeamRecord> = Vec::new();
    let mut rest = records;
    let ghost input = rest@;
    let mut i: usize = 0;
    proof {
        lemma_empty_multiset(out@);
        lemma_empty_multiset(input.take(0));
    }
    while i < rest.len()
        invariant
            rest@ == input,
            counts_fit(input),
            i <= input.len(),
            out@.to_multiset() == input.take(i as int).to_multiset(),
            is_ranked(out@),
            counts_fit(out@),
        decreases input.len() - i,
    {
        let x = rest[i].clone();
        assert(x.wins + x.losses <= u32::MAX) by {
            assert(input[i as int] == x);
        }
        // the first position whose record `x` strictly outranks
        let mut p: usize = 0;
        while p < out.len() && ranks_at_or_above_exec(&out[p], &x)
            invariant
                p <= out@.len(),
                counts_fit(out@),
                x.wins + x.losses <= u32::MAX,
                forall|k: int| 0 <= k < p ==> ranks_at_or_above(#[trigger] out@[k], x),
            decreases out@.len() - p,
        {
            p = p + 1;
        }
        let ghost before = out@;
        proof {
            if p < before.len() {
                assert(!ranks_at_or_above(before[p as int], x));
                lemma_rank_total(before[p as int], x);
                assert forall|k: int| p <= k < before.len() implies ranks_at_or_above(
                    x,
                    #[trigger] before[k],
                ) by {
                    if k > p {
                        assert(ranks_at_or_above(before[p as int], before[k]));
                        lemma_rank_transitive(x, before[p as int], before[k]);
                    }
                }
            }
        }
        out.insert(p, x);
        proof {
            let after = out@;
            assert(after == before.insert(p as int, x));
            assert forall|a: int, b: int| 0 <= a < b < after.len() implies ranks_at_or_above(
                #[trigger] after[a],
                #[trigger] after[b],
            ) by {
                if b < p {
                    assert(after[a] == before[a] && after[b] == before[b]);
                } else if b == p {
                    assert(after[a] == before[a]);
                } else if a < p {
                    assert(after[a] == before[a] && after[b] == before[b - 1]);
                    assert(ranks_at_or_above(before[a], x));
                    assert(ranks_at_or_above(x, before[b - 1]));
                    lemma_rank_transitive(before[a], x, before[b - 1]);
                } else if a == p {
                    assert(after[b] == before[b - 1]);
                } else {
                    assert(after[a] == before[a - 1] && after[b] == before[b - 1]);
                }
            }
            assert forall|k: int| 0 <= k < after.len() implies #[trigger] after[k].wins
                + after[k].losses <= u32::MAX by {
                if k < p {
                    assert(after[k] == before[k]);
                } else if k > p {
                    assert(after[k] == before[k - 1]);
                }
            }
            assert(input.take(i + 1) =~= input.take(i as int).push(x));
            vstd::seq_lib::to_multiset_insert(before, p as int, x);
            vstd::seq_lib::to_multiset_build(input.take(i as int), x);
        }
        i = i + 1;
    }
    proof {
        assert(input.take(input.len() as int) =~= input);
    }
    out
}

// ── Computing the standings ────────────────────────────────────────────

proof fn lemma_team_position(ts: Seq<Team>, id: u64)
    ensures
        ({
            let p = team_position(ts, id);
            ||| (p == -1 && forall|k: int| 0 <= k < ts.len() ==> (#[trigger] ts[k]).id != id)
            ||| (0 <= p < ts.len() && ts[p].id == id && forall|k: int|
                0 <= k < p ==> (#[trigger] ts[k]).id != id)
        }),
    decreases ts.len(),
{
    if ts.len() > 0 {
        lemma_team_position(ts.drop_last(), id);
        let p = team_position(ts.drop_last(), id);
        if p >= 0 {
            assert(ts[p].id == ts.drop_last()[p].id);
            assert forall|k: int| 0 <= k < p implies (#[trigger] ts[k]).id != id by {
                assert(ts[k] == ts.drop_last()[k]);
            }
        } else {
            assert forall|k: int| 0 <= k < ts.len() - 1 implies (#[trigger] ts[k]).id != id by {
                assert(ts[k] == ts.drop_last()[k]);
            }
        }
    }
}

/// Ids are pairwise distinct.
pub open spec fn distinct_ids(ts: Seq<Team>) -> bool {
    forall|a: int, b: int| 0 <= a < b < ts.len() ==> (#[trigger] ts[a]).id != (#[trigger] ts[b]).id
}

proof fn lemma_record_teams(teams: Seq<Team>)
    ensures
        distinct_ids(record_teams(teams)),
        forall|k: int|
            0 <= k < record_teams(teams).len() ==> exists|i: int|
                0 <= i < teams.len() && teams[i] == #[trigger] record_teams(teams)[k],
        forall|i: int| 0 <= i < teams.len() ==> team_position(record_teams(teams), (#[trigger] teams[i]).id) >= 0,
    decreases teams.len(),
{
    if teams.len() > 0 {
        let init = teams.drop_last();
        let prev = record_teams(init);
        let t = teams.last();
        lemma_record_teams(init);
        lemma_team_position(prev, t.id);
        let p = team_position(prev, t.id);
        let rt = record_teams(teams);
        assert forall|k: int| 0 <= k < rt.len() implies exists|i: int|
            0 <= i < teams.len() && teams[i] == #[trigger] rt[k] by {
            if (p >= 0 && k == p) || (p < 0 && k == prev.len()) {
                assert(teams[teams.len() - 1] == rt[k]);
            } else {
                let i = choose|i: int| 0 <= i < init.len() && init[i] == prev[k];
                assert(teams[i] == rt[k]);
            }
        }
        assert forall|i: int| 0 <= i < teams.len() implies team_position(rt, (#[trigger] teams[i]).id) >= 0 by {
            lemma_team_position(rt, teams[i].id);
            if i < teams.len() - 1 {
                assert(teams[i] == init[i]);
                lemma_team_position(prev, init[i].id);
                let q = team_position(prev, init[i].id);
                assert(rt[q].id == init[i].id);
            } else if p >= 0 {
                assert(rt[p].id == t.id);
            } else {
                assert(rt[prev.len() as int].id == t.id);
            }
        }
    }
}

proof fn lemma_tally_prefix(id: u64, s: Seq<Game>, j: int)
    requires
        0 <= j <= s.len(),
    ensures
        wins_of(id, s.take(j)) <= wins_of(id, s),
        losses_of(id, s.take(j)) <= losses_of(id, s),
    decreases s.len() - j,
{
    if j < s.len() {
        lemma_tally_prefix(id, s, j + 1);
        assert(s.take(j + 1).drop_last() =~= s.take(j));
    } else {
        assert(s.take(j) =~= s);
    }
}

fn find_record(recs: &Vec<TeamRecord>, id: u64) -> (r: Option<usize>)
    ensures
        match r {
            Some(j) => j < recs@.len() && recs@[j as int].team.id == id && forall|k: int|
                0 <= k < j ==> (#[trigger] recs@[k]).team.id != id,
            None => forall|k: int| 0 <= k < recs@.len() ==> (#[trigger] recs@[k]).team.id != id,
        },
{
    let mut k: usize = 0;
    while k < recs.len()
        invariant
            k <= recs@.len(),
            forall|q: int| 0 <= q < k ==> (#[trigger] recs@[q]).team.id != id,
        decreases recs@.len() - k,
    {
        if recs[k].team.id == id {
            return Some(k);
        }
        k = k + 1;
    }
    None
}

/// The teams of the records, in order.
pub open spec fn teams_of(recs: Seq<TeamRecord>) -> Seq<Team> {
    recs.map_values(|r: TeamRecord| r.team)
}

/// Add a win to the record of `winner` and a loss to that of `loser`, where
/// they have one.
fn credit(recs: &mut Vec<TeamRecord>, winner: u64, loser: u64)
    requires
        distinct_ids(teams_of(old(recs)@)),
        forall|k: int|
            0 <= k < old(recs)@.len() ==> (#[trigger] old(recs)@[k]).wins + old(recs)@[k].losses + (
            if old(recs)@[k].team.id == winner {
                1int
            } else {
                0
            }) + (if old(recs)@[k].team.id == loser {
                1int
            } else {
                0
            }) <= u32::MAX,
    ensures
        final(recs)@.len() == old(recs)@.len(),
        forall|k: int|
            0 <= k < old(recs)@.len() ==> #[trigger] final(recs)@[k] == (TeamRecord {
                team: old(recs)@[k].team,
                wins: (old(recs)@[k].wins + if old(recs)@[k].team.id == winner {
                    1int
                } else {
                    0
                }) as u32,
                losses: (old(recs)@[k].losses + if old(recs)@[k].team.id == loser {
                    1int
                } else {
                    0
                }) as u32,
            }),
{
    let ghost start = recs@;
    match find_record(recs, winner) {
        Some(j) => {
            let mut r = recs[j].clone();
            assert(r == start[j as int]);
            r.wins = r.wins + 1;
            recs.set(j, r);
            proof {
                assert forall|k: int| 0 <= k < start.len() && k != j implies (#[trigger] start[k]).team.id
                    != winner by {
                    lemma_distinct_records(start, j as int, k);
                }
            }
        },
        None => {},
    }
    let ghost middle = recs@;
    assert forall|k: int| 0 <= k < start.len() implies #[trigger] middle[k] == (TeamRecord {
        team: start[k].team,
        wins: (start[k].wins + if start[k].team.id == winner {
            1int
        } else {
            0
        }) as u32,
        losses: start[k].losses,
    }) by {}
    match find_record(recs, loser) {
        Some(j) => {
            let mut r = recs[j].clone();
            assert(r == middle[j as int]);
            r.losses = r.losses + 1;
            recs.set(j, r);
            proof {
                assert forall|k: int| 0 <= k < start.len() && k != j implies (#[trigger] start[k]).team.id
                    != loser by {
                    lemma_distinct_records(start, j as int, k);
                }
            }
        },
        None => {},
    }
}

proof fn lemma_distinct_records(recs: Seq<TeamRecord>, j: int, k: int)
    requires
        distinct_ids(teams_of(recs)),
        0 <= j < recs.len(),
        0 <= k < recs.len(),
        j != k,
    ensures
        recs[j].team.id != recs[k].team.id,
{
    assert(teams_of(recs)[j] == recs[j].team);
    assert(teams_of(recs)[k] == recs[k].team);
    if j < k {
        assert(teams_of(recs)[j].id != teams_of(recs)[k].id);
    } else {
        assert(teams_of(recs)[k].id != teams_of(recs)[j].id);
    }
}

proof fn lemma_filter_counts_fit(s: Seq<TeamRecord>, p: spec_fn(TeamRecord) -> bool)
    requires
        counts_fit(s),
    ensures
        counts_fit(s.filter(p)),
    decreases s.len(),
{
    if s.len() > 0 {
        lemma_filter_counts_fit(s.drop_last(), p);
        assert(counts_fit(s.drop_last())) by {
            assert forall|i: int| 0 <= i < s.drop_last().len() implies #[trigger] s.drop_last()[i].wins
                + s.drop_last()[i].losses <= u32::MAX by {
                assert(s.drop_last()[i] == s[i]);
            }
        }
        let sub = s.drop_last().filter(p);
        assert(s =~= s.drop_last().push(s.last()));
        s.drop_last().lemma_filter_push(s.last(), p);
        if p(s.last()) {
            assert forall|i: int| 0 <= i < sub.push(s.last()).len() implies #[trigger] sub.push(
                s.last(),
            )[i].wins + sub.push(s.last())[i].losses <= u32::MAX by {
                if i < sub.len() {
                    assert(sub.push(s.last())[i] == sub[i]);
                }
            }
        }
    }
}

/// Compute standings from a list of teams and games.
///
/// Only games with status "Final" and both scores are counted, and a tie
/// counts for no one. Each team gets one record (a team listed twice keeps
/// the last listing); games of teams not listed are skipped. Records are
/// split into the Eastern and Western conferences and ranked by win
/// percentage descending, then by wins descending.
pub fn compute_standings(teams: &[Team], games: &[Game], season: u32) -> (s: Standings)
    requires
        tally_fits(teams@, games@),
    ensures
        standings_of(teams@, games@, season, s),
{
    // one record per team id
    let mut recs: Vec<TeamRecord> = Vec::new();
    let mut i: usize = 0;
    while i < teams.len()
        invariant
            i <= teams@.len(),
            recs@.len() == record_teams(teams@.take(i as int)).len(),
            forall|k: int|
                0 <= k < recs@.len() ==> #[trigger] recs@[k] == (TeamRecord {
                    team: record_teams(teams@.take(i as int))[k],
                    wins: 0,
                    losses: 0,
                }),
        decreases teams@.len() - i,
    {
        let ghost prev = record_teams(teams@.take(i as int));
        let t = &teams[i];
        proof {
            assert(teams@.take(i + 1).drop_last() =~= teams@.take(i as int));
            assert(teams@.take(i + 1).last() == teams@[i as int]);
            lemma_team_position(prev, t.id);
        }
        let fresh = TeamRecord { team: t.clone(), wins: 0, losses: 0 };
        match find_record(&recs, t.id) {
            Some(j) => {
                proof {
                    assert forall|k: int| 0 <= k < j implies (#[trigger] prev[k]).id != t.id by {
                        assert(recs@[k].team == prev[k]);
                    }
                    assert(prev[j as int] == recs@[j as int].team);
                }
                recs.set(j, fresh);
            },
            None => {
                proof {
                    assert forall|k: int| 0 <= k < prev.len() implies (#[trigger] prev[k]).id != t.id by {
                        assert(recs@[k].team == prev[k]);
                    }
                }
                recs.push(fresh);
            },
        }
        i = i + 1;
    }
    let ghost rt = record_teams(teams@);
    proof {
        assert(teams@.take(teams@.len() as int) =~= teams@);
        lemma_record_teams(teams@);
        assert forall|k: int| 0 <= k < rt.len() implies wins_of((#[trigger] rt[k]).id, games@)
            + losses_of(rt[k].id, games@) <= u32::MAX by {
            let w = choose|w: int| 0 <= w < teams@.len() && teams@[w] == rt[k];
            assert(teams@[w].id == rt[k].id);
        }
        assert(games@.take(0) =~= Seq::<Game>::empty());
    }
    // tally the decided games
    let mut i: usize = 0;
    while i < games.len()
        invariant
            i <= games@.len(),
            rt == record_teams(teams@),
            distinct_ids(rt),
            forall|k: int|
                0 <= k < rt.len() ==> wins_of((#[trigger] rt[k]).id, games@) + losses_of(
                    rt[k].id,
                    games@,
                ) <= u32::MAX,
            recs@.len() == rt.len(),
            forall|k: int|
                0 <= k < recs@.len() ==> #[trigger] recs@[k] == record_of(
                    rt[k],
                    games@.take(i as int),
                ),
        decreases games@.len() - i,
    {
        let ghost before = recs@;
        let ghost gs = games@.take(i + 1);
        let g = &games[i];
        proof {
            assert(gs.drop_last() =~= games@.take(i as int));
            assert(gs.last() == games@[i as int]);
            assert forall|k: int| 0 <= k < rt.len() implies wins_of((#[trigger] rt[k]).id, gs)
                + losses_of(rt[k].id, gs) <= u32::MAX by {
                lemma_tally_prefix(rt[k].id, games@, i + 1);
                lemma_tally_prefix(rt[k].id, games@, i as int);
            }
            assert(teams_of(recs@) =~= rt);
        }
        let mut decided = false;
        let mut winner: u64 = 0;
        let mut loser: u64 = 0;
        match decision(g) {
            Some((w, l)) => {
                decided = true;
                winner = w;
                loser = l;
            },
            None => {},
        }
        proof {
            assert(decided == is_decided(*g));
            assert(decided ==> winner == winner_id(*g) && loser == loser_id(*g));
        }
        if decided {
            proof {
                assert forall|k: int| 0 <= k < recs@.len() implies (#[trigger] recs@[k]).wins
                    + recs@[k].losses + (if recs@[k].team.id == winner {
                    1int
                } else {
                    0
                }) + (if recs@[k].team.id == loser {
                    1int
                } else {
                    0
                }) <= u32::MAX by {
                    lemma_tally_prefix(rt[k].id, games@, i as int);
                }
            }
            credit(&mut recs, winner, loser);
        }
        proof {
            assert forall|k: int| 0 <= k < recs@.len() implies #[trigger] recs@[k] == record_of(
                rt[k],
                gs,
            ) by {
                lemma_tally_prefix(rt[k].id, games@, i as int);
                assert(before[k] == record_of(rt[k], games@.take(i as int)));
            }
        }
        i = i + 1;
    }
    proof {
        assert(games@.take(games@.len() as int) =~= games@);
        assert(recs@ =~= all_records(teams@, games@));
    }
    // split by conference
    let mut eastern: Vec<TeamRecord> = Vec::new();
    let mut western: Vec<TeamRecord> = Vec::new();
    let ghost all = recs@;
    let mut k: usize = 0;
    proof {
        assert(all.take(0) =~= Seq::<TeamRecord>::empty());
    }
    while k < recs.len()
        invariant
            all == recs@,
            all == all_records(teams@, games@),
            k <= all.len(),
            eastern@ == all.take(k as int).filter(in_conference("East"@)),
            western@ == all.take(k as int).filter(in_conference("West"@)),
        decreases all.len() - k,
    {
        proof {
            assert(all.take(k + 1).drop_last() =~= all.take(k as int));
            assert(all.take(k + 1).last() == all[k as int]);
            reveal_strlit("East");
            reveal_strlit("West");
        }
        let ghost east_in = in_conference("East"@)(all[k as int]);
        let ghost west_in = in_conference("West"@)(all[k as int]);
        if text_is(&recs[k].team.conference, "East") {
            eastern.push(recs[k].clone());
            assert(all[k as int].team.conference@ == "East"@);
            assert("East"@[0] != "West"@[0]);
            assert(east_in && !west_in);
        } else if text_is(&recs[k].team.conference, "West") {
            western.push(recs[k].clone());
            assert(!east_in && west_in);
        } else {
            assert(!east_in && !west_in);
        }
        proof {
            let e = in_conference("East"@);
            let w = in_conference("West"@);
            assert(all.take(k + 1) =~= all.take(k as int).push(all[k as int]));
            all.take(k as int).lemma_filter_push(all[k as int], e);
            all.take(k as int).lemma_filter_push(all[k as int], w);
            assert(all.take(k + 1).filter(e) == if east_in {
                all.take(k as int).filter(e).push(all[k as int])
            } else {
                all.take(k as int).filter(e)
            });
            assert(all.take(k + 1).filter(w) == if west_in {
                all.take(k as int).filter(w).push(all[k as int])
            } else {
                all.take(k as int).filter(w)
            });
        }
        k = k + 1;
    }
    proof {
        assert(all.take(all.len() as int) =~= all);
        assert forall|q: int| 0 <= q < all.len() implies #[trigger] all[q].wins + all[q].losses
            <= u32::MAX by {
            assert(wins_of(rt[q].id, games@) + losses_of(rt[q].id, games@) <= u32::MAX);
            assert(all[q] == record_of(rt[q], games@));
        }
        lemma_filter_counts_fit(all, in_conference("East"@));
        lemma_filter_counts_fit(all, in_conference("West"@));
    }
    let eastern = rank_records(eastern);
    let western = rank_records(western);
    Standings { eastern, western, season }
}

// ── Laws of the tally ──────────────────────────────────────────────────

/// Each conference of the standings runs from the best win percentage
/// (wins over games played, 0 for a team that has not played) down, and
/// among equal percentages from the most wins down: for any two records,
/// the earlier one's percentage is at least the later one's, and if they
/// are equal it has at least as many wins.
pub proof fn standings_run_from_best_percentage(teams: Seq<Team>, games: Seq<Game>, season: u32, s: Standings)
    requires
        standings_of(teams, games, season, s),
    ensures
        forall|i: int, j: int|
            0 <= i < j < s.eastern@.len() ==> {
                let a = #[trigger] s.eastern@[i];
                let b = #[trigger] s.eastern@[j];
                let pa = if a.wins + a.losses == 0 { 1int } else { a.wins + a.losses };
                let pb = if b.wins + b.losses == 0 { 1int } else { b.wins + b.losses };
                a.wins * pb >= b.wins * pa && (a.wins * pb == b.wins * pa ==> a.wins >= b.wins)
            },
        forall|i: int, j: int|
            0 <= i < j < s.western@.len() ==> {
                let a = #[trigger] s.western@[i];
                let b = #[trigger] s.western@[j];
                let pa = if a.wins + a.losses == 0 { 1int } else { a.wins + a.losses };
                let pb = if b.wins + b.losses == 0 { 1int } else { b.wins + b.losses };
                a.wins * pb >= b.wins * pa && (a.wins * pb == b.wins * pa ==> a.wins >= b.wins)
            },
{
}

/// How one more game changes a team's tally, whatever the game's other
/// fields (period, postponement, season, ...): a game whose status is
/// "Final" and whose two scores are both known and unequal adds a win to the
/// team with the higher score and a loss to the team with the lower one;
/// every other game adds nothing to any team.
pub proof fn final_games_with_unequal_scores_count(games: Seq<Game>, g: Game, id: u64)
    ensures
        wins_of(id, games.push(g)) == wins_of(id, games) + if g.status@ == "Final"@ && g.home_team_score
            is Some && g.visitor_team_score is Some && ((g.home_team_score->0 > g.visitor_team_score->0
            && g.home_team.id == id) || (g.visitor_team_score->0 > g.home_team_score->0
            && g.visitor_team.id == id)) {
            1int
        } else {
            0int
        },
        losses_of(id, games.push(g)) == losses_of(id, games) + if g.status@ == "Final"@
            && g.home_team_score is Some && g.visitor_team_score is Some && ((g.home_team_score->0
            < g.visitor_team_score->0 && g.home_team.id == id) || (g.visitor_team_score->0
            < g.home_team_score->0 && g.visitor_team.id == id)) {
            1int
        } else {
            0int
        },
{
    assert(games.push(g).drop_last() =~= games);
    assert(games.push(g).last() == g);
}

/// A game that is not final, lacks a score or is tied changes no record.
pub proof fn undecided_game_changes_nothing(teams: Seq<Team>, games: Seq<Game>, g: Game)
    requires
        !is_decided(g),
    ensures
        all_records(teams, games.push(g)) == all_records(teams, games),
{
    assert(games.push(g).drop_last() =~= games);
    assert(all_records(teams, games.push(g)) =~= all_records(teams, games));
}

/// The wins of all the teams.
pub open spec fn total_wins(ts: Seq<Team>, games: Seq<Game>) -> nat
    decreases ts.len(),
{
    if ts.len() == 0 {
        0
    } else {
        total_wins(ts.drop_last(), games) + wins_of(ts.last().id, games)
    }
}

/// The losses of all the teams.
pub open spec fn total_losses(ts: Seq<Team>, games: Seq<Game>) -> nat
    decreases ts.len(),
{
    if ts.len() == 0 {
        0
    } else {
        total_losses(ts.drop_last(), games) + losses_of(ts.last().id, games)
    }
}

/// How many of the teams have this id.
pub open spec fn id_count(ts: Seq<Team>, id: u64) -> nat
    decreases ts.len(),
{
    if ts.len() == 0 {
        0
    } else {
        id_count(ts.drop_last(), id) + if ts.last().id == id {
            1nat
        } else {
            0nat
        }
    }
}

/// Whether some team of `ts` has this id.
pub open spec fn has_id(ts: Seq<Team>, id: u64) -> bool {
    exists|i: int| 0 <= i < ts.len() && (#[trigger] ts[i]).id == id
}

proof fn lemma_id_count_distinct(ts: Seq<Team>, id: u64)
    requires
        distinct_ids(ts),
    ensures
        id_count(ts, id) == if has_id(ts, id) {
            1nat
        } else {
            0nat
        },
    decreases ts.len(),
{
    if ts.len() > 0 {
        let init = ts.drop_last();
        assert(distinct_ids(init)) by {
            assert forall|a: int, b: int| 0 <= a < b < init.len() implies (#[trigger] init[a]).id
                != (#[trigger] init[b]).id by {
                assert(init[a] == ts[a] && init[b] == ts[b]);
            }
        }
        lemma_id_count_distinct(init, id);
        if ts.last().id == id {
            assert(ts[ts.len() - 1].id == id);
            assert(!has_id(init, id)) by {
                if has_id(init, id) {
                    let i = choose|i: int| 0 <= i < init.len() && (#[trigger] init[i]).id == id;
                    assert(ts[i] == init[i]);
                }
            }
        } else {
            if has_id(ts, id) {
                let i = choose|i: int| 0 <= i < ts.len() && (#[trigger] ts[i]).id == id;
                assert(init[i] == ts[i]);
            }
            if has_id(init, id) {
                let i = choose|i: int| 0 <= i < init.len() && (#[trigger] init[i]).id == id;
                assert(ts[i] == init[i]);
            }
        }
    }
}

proof fn lemma_totals_step(ts: Seq<Team>, games: Seq<Game>, g: Game)
    ensures
        total_wins(ts, games.push(g)) == total_wins(ts, games) + if is_decided(g) {
            id_count(ts, winner_id(g))
        } else {
            0nat
        },
        total_losses(ts, games.push(g)) == total_losses(ts, games) + if is_decided(g) {
            id_count(ts, loser_id(g))
        } else {
            0nat
        },
    decreases ts.len(),
{
    assert(games.push(g).drop_last() =~= games);
    assert(games.push(g).last() == g);
    if ts.len() > 0 {
        lemma_totals_step(ts.drop_last(), games, g);
    }
}

/// Every decided game between two listed teams gives one win and one loss:
/// when each decided game's winner and loser are listed, the wins of all
/// records, and their losses, both add up to the number of decided games.
pub proof fn wins_and_losses_balance(teams: Seq<Team>, games: Seq<Game>)
    requires
        forall|i: int|
            0 <= i < games.len() && is_decided(#[trigger] games[i]) ==> has_id(teams, winner_id(games[i]))
                && has_id(teams, loser_id(games[i])),
    ensures
        total_wins(record_teams(teams), games) == decided_count(games),
        total_losses(record_teams(teams), games) == decided_count(games),
    decreases games.len(),
{
    let rt = record_teams(teams);
    lemma_record_teams(teams);
    if games.len() == 0 {
        lemma_totals_zero(rt);
        assert(games =~= Seq::<Game>::empty());
    } else {
        let init = games.drop_last();
        let g = games.last();
        assert forall|i: int|
            0 <= i < init.len() && is_decided(#[trigger] init[i]) implies has_id(teams, winner_id(init[i]))
            && has_id(teams, loser_id(init[i])) by {
            assert(init[i] == games[i]);
        }
        wins_and_losses_balance(teams, init);
        assert(games =~= init.push(g));
        lemma_totals_step(rt, init, g);
        if is_decided(g) {
            assert(games[games.len() - 1] == g);
            lemma_listed_has_record(teams, winner_id(g));
            lemma_listed_has_record(teams, loser_id(g));
            lemma_id_count_distinct(rt, winner_id(g));
            lemma_id_count_distinct(rt, loser_id(g));
        }
        assert(decided_count(games) == decided_count(init) + if is_decided(g) {
            1nat
        } else {
            0nat
        });
    }
}

proof fn lemma_totals_zero(ts: Seq<Team>)
    ensures
        total_wins(ts, Seq::empty()) == 0,
        total_losses(ts, Seq::empty()) == 0,
    decreases ts.len(),
{
    if ts.len() > 0 {
        lemma_totals_zero(ts.drop_last());
    }
}

proof fn lemma_listed_has_record(teams: Seq<Team>, id: u64)
    requires
        has_id(teams, id),
    ensures
        has_id(record_teams(teams), id),
{
    lemma_record_teams(teams);
    let i = choose|i: int| 0 <= i < teams.len() && (#[trigger] teams[i]).id == id;
    assert(team_position(record_teams(teams), teams[i].id) >= 0);
    lemma_team_position(record_teams(teams), id);
    let p = team_position(record_teams(teams), id);
    assert(record_teams(teams)[p].id == id);
}

proof fn lemma_conference_contains(
    teams: Seq<Team>,
    games: Seq<Game>,
    conference: Seq<char>,
    listed: Seq<TeamRecord>,
    k: int,
)
    requires
        listed.to_multiset() == conference_records(teams, games, conference).to_multiset(),
        0 <= k < record_teams(teams).len(),
        record_teams(teams)[k].conference@ == conference,
    ensures
        listed.contains(record_of(record_teams(teams)[k], games)),
{
    let all = all_records(teams, games);
    let x = record_of(record_teams(teams)[k], games);
    assert(all[k] == x);
    all.lemma_filter_contains(in_conference(conference), k);
    vstd::seq_lib::to_multiset_contains(conference_records(teams, games, conference), x);
    vstd::seq_lib::to_multiset_contains(listed, x);
}

proof fn lemma_conference_member(
    teams: Seq<Team>,
    games: Seq<Game>,
    conference: Seq<char>,
    listed: Seq<TeamRecord>,
    j: int,
)
    requires
        listed.to_multiset() == conference_records(teams, games, conference).to_multiset(),
        0 <= j < listed.len(),
    ensures
        listed[j].team.conference@ == conference,
        exists|k: int|
            0 <= k < record_teams(teams).len() && listed[j] == record_of(
                #[trigger] record_teams(teams)[k],
                games,
            ),
{
    let all = all_records(teams, games);
    let x = listed[j];
    assert(listed.contains(x));
    vstd::seq_lib::to_multiset_contains(listed, x);
    vstd::seq_lib::to_multiset_contains(conference_records(teams, games, conference), x);
    all.lemma_filter_contains_rev(in_conference(conference), x);
    let q = choose|q: int| 0 <= q < conference_records(teams, games, conference).len()
        && conference_records(teams, games, conference)[q] == x;
    all.lemma_filter_pred(in_conference(conference), q);
    let k = choose|k: int| 0 <= k < all.len() && all[k] == x;
    assert(all[k] == record_of(record_teams(teams)[k], games));
}

/// Every listed team has its record in the standings of its conference, and
/// every record there is the record of a listed team of that conference: the
/// record of the last team listed with its id, holding that team's wins and
/// losses.
pub proof fn listed_teams_have_their_records(
    teams: Seq<Team>,
    games: Seq<Game>,
    season: u32,
    s: Standings,
)
    requires
        standings_of(teams, games, season, s),
    ensures
        forall|i: int|
            0 <= i < teams.len() ==> exists|k: int|
                0 <= k < record_teams(teams).len() && (#[trigger] record_teams(teams)[k]).id == (
                #[trigger] teams[i]).id && (record_teams(teams)[k].conference@ == "East"@
                    ==> s.eastern@.contains(record_of(record_teams(teams)[k], games))) && (
                record_teams(teams)[k].conference@ == "West"@ ==> s.western@.contains(
                    record_of(record_teams(teams)[k], games),
                )),
        forall|j: int|
            0 <= j < s.eastern@.len() ==> (#[trigger] s.eastern@[j]).team.conference@ == "East"@
                && exists|k: int|
                0 <= k < record_teams(teams).len() && s.eastern@[j] == record_of(
                    #[trigger] record_teams(teams)[k],
                    games,
                ),
        forall|j: int|
            0 <= j < s.western@.len() ==> (#[trigger] s.western@[j]).team.conference@ == "West"@
                && exists|k: int|
                0 <= k < record_teams(teams).len() && s.western@[j] == record_of(
                    #[trigger] record_teams(teams)[k],
                    games,
                ),
{
    let rt = record_teams(teams);
    lemma_record_teams(teams);
    assert forall|i: int| 0 <= i < teams.len() implies exists|k: int|
        0 <= k < rt.len() && (#[trigger] rt[k]).id == (#[trigger] teams[i]).id && (
        rt[k].conference@ == "East"@ ==> s.eastern@.contains(record_of(rt[k], games))) && (
        rt[k].conference@ == "West"@ ==> s.western@.contains(record_of(rt[k], games))) by {
        lemma_team_position(rt, teams[i].id);
        let k = team_position(rt, teams[i].id);
        if rt[k].conference@ == "East"@ {
            lemma_conference_contains(teams, games, "East"@, s.eastern@, k);
        }
        if rt[k].conference@ == "West"@ {
            lemma_conference_contains(teams, games, "West"@, s.western@, k);
        }
    }
    assert forall|j: int| 0 <= j < s.eastern@.len() implies (#[trigger] s.eastern@[j]).team.conference@
        == "East"@ && exists|k: int|
        0 <= k < rt.len() && s.eastern@[j] == record_of(#[trigger] rt[k], games) by {
        lemma_conference_member(teams, games, "East"@, s.eastern@, j);
    }
    assert forall|j: int| 0 <= j < s.western@.len() implies (#[trigger] s.western@[j]).team.conference@
        == "West"@ && exists|k: int|
        0 <= k < rt.len() && s.western@[j] == record_of(#[trigger] rt[k], games) by {
        lemma_conference_member(teams, games, "West"@, s.western@, j);
    }
}

// ── The season ─────────────────────────────────────────────────────────

/// What the clock gives as the current season: the year read as a `u32`
/// from October on, the year before it (wrapping below year 0) until September.
pub open spec fn clock_season(year: i32, month: u32) -> u32 {
    if month >= 10 {
        year as u32
    } else if year as u32 >= 1 {
        (year as u32 - 1) as u32
    } else {
        u32::MAX
    }
}

/// The current season for the clock's `year` and `month`: the year from
/// October on, the year before it until September (wrapping below year 0).
pub fn season_from_clock(year: i32, month: u32) -> (s: u32)
    ensures
        s == clock_season(year, month),
{
    let y = year as u32;
    if month >= 10 {
        y
    } else {
        y.wrapping_sub(1)
    }
}

/// The season named by a date of a positive year starts in October: from
/// October to December it is the date's year, from January to September the
/// year before (in March 2026 the season is 2025, the 2025-26 season).
pub proof fn season_starts_in_october(year: i32, month: u32)
    requires
        1 <= year,
        1 <= month <= 12,
    ensures
        10 <= month ==> clock_season(year, month) == year,
        month <= 9 ==> clock_season(year, month) == year - 1,
{
}

/// Determine the current season from the clock.
///
/// The season starts in October. If we're in Oct-Dec, the season year
/// equals the current year. If we're in Jan-Sep, it equals the previous year.
/// For example, in March 2026 the current season is 2025 (the 2025-26 season).
pub fn current_nba_season() -> (s: u32)
    ensures
        exists|year: i32, month: u32| MIN_YEAR <= year <= MAX_YEAR && 1 <= month <= 12 && s == #[trigger] clock_season(year, month),
{
    let (year, month) = utc_now_year_month();
    season_from_clock(year, month)
}

} // verus!
