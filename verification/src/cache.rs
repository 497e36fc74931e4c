//! The cache of teams and games between refreshes: games stored under their
//! id, the latest game date seen, what a refresh fetches, how it is merged,
//! and when the cached standings are still fresh.
use std::collections::HashMap;
use vstd::prelude::*;
use vstd::std_specs::hash::spec_hash_map_iter;
use vstd::std_specs::iter::IteratorSpec;

use crate::compute::{
    clock_season, compute_standings, current_nba_season, standings_of, tally_fits, tally_fits_exec, Standings,
};
use crate::dates::{iso_date_parse, iso_date_text, iso_date_text_of, max_day, min_day, parse_iso_date, MAX_YEAR, MIN_YEAR};
use crate::models::{Game, Team};

verus! {

broadcast use vstd::std_specs::hash::group_hash_axioms;

/// Every stored game is keyed by its own id.
pub open spec fn keyed_by_id(m: Map<u64, Game>) -> bool {
    forall|k: u64| #[trigger] m.contains_key(k) ==> m[k].id == k
}

/// `gs` lists the games of `m`, each once.
pub open spec fn lists_games(gs: Seq<Game>, m: Map<u64, Game>) -> bool {
    &&& gs.len() == m.dom().len()
    &&& forall|i: int| 0 <= i < gs.len() ==> m.contains_key((#[trigger] gs[i]).id) && m[gs[i].id] == gs[i]
    &&& forall|i: int, j: int| 0 <= i < j < gs.len() ==> (#[trigger] gs[i]).id != (#[trigger] gs[j]).id
    &&& forall|k: u64| #[trigger] m.contains_key(k) ==> exists|i: int| 0 <= i < gs.len() && gs[i].id == k
}

/// Lists the games stored in a map keyed by id.
pub fn game_list(games: &HashMap<u64, Game>) -> (r: Vec<Game>)
    requires
        keyed_by_id(games@),
    ensures
        lists_games(r@, games@),
{
    let mut r: Vec<Game> = Vec::new();
    let ghost m = games@;
    let ghost v = spec_hash_map_iter(games).remaining();
    for p in it: games.iter()
        invariant
            m == games@,
            keyed_by_id(m),
            v == spec_hash_map_iter(games).remaining(),
            it.seq() == v,
            r@.len() == it.index(),
            forall|i: int| 0 <= i < r@.len() ==> *it.seq()[i].1 == #[trigger] r@[i],
    {
        r.push(p.1.clone());
    }
    proof {
        assert forall|i: int| 0 <= i < r@.len() implies m.contains_key((#[trigger] r@[i]).id) && m[r@[i].id] == r@[i] by {
            let k = *v[i].0;
            assert(m.contains_key(k));
            assert(m[k] == *v[i].1);
        }
        assert forall|i: int, j: int| 0 <= i < j < r@.len() implies (#[trigger] r@[i]).id != (#[trigger] r@[j]).id by {
            let ki = *v[i].0;
            let kj = *v[j].0;
            assert(m.contains_key(ki) && m.contains_key(kj));
            assert(m[ki] == *v[i].1 && m[kj] == *v[j].1);
            assert(v[i] != v[j]);
        }
        assert forall|k: u64| #[trigger] m.contains_key(k) implies exists|i: int| 0 <= i < r@.len() && r@[i].id == k by {
            assert(v.contains((&k, &m[k])));
            let i = choose|i: int| 0 <= i < v.len() && v[i] == (&k, &m[k]);
            assert(r@[i] == m[k]);
        }
    }
    r
}

/// How long cached standings stay fresh, in seconds: one hour.
pub const CACHE_TTL_SECS: u64 = 3600;

/// How long cached standings stay fresh, in nanoseconds.
pub const CACHE_TTL_NANOS: u128 = 3_600_000_000_000;

/// The cached data: teams, games keyed by id, the latest game date seen
/// (`YYYY-MM-DD`), the season, and the standings computed from them. When the
/// cache was last refreshed is kept by the caller.
pub struct CacheInner {
    pub teams: Vec<Team>,
    pub games: HashMap<u64, Game>,
    pub latest_game_date: Option<String>,
    pub season: u32,
    pub standings: Option<Standings>,
}

/// Summary of cache state for logging.
#[derive(Debug)]
pub struct CacheStats {
    pub team_count: usize,
    pub game_count: usize,
    pub season: u32,
    pub latest_game_date: Option<String>,
    pub age_secs: Option<u64>,
}

/// What a refresh fetches.
#[derive(Debug)]
pub struct RefreshPlan {
    /// The season to refresh.
    pub season: u32,
    /// Whether the season differs from the cached one (everything is refetched).
    pub season_changed: bool,
    /// Whether the teams are fetched (none cached yet, or a new season).
    pub fetch_teams: bool,
    /// `Some(date)`: fetch only the games since `date`; `None`: the whole season.
    pub games_since: Option<String>,
}

/// Each game stored under its id, later games replacing earlier ones with the same id.
pub open spec fn upsert_all(m: Map<u64, Game>, gs: Seq<Game>) -> Map<u64, Game>
    decreases gs.len(),
{
    if gs.len() == 0 {
        m
    } else {
        upsert_all(m, gs.drop_last()).insert(gs.last().id, gs.last())
    }
}

/// The day a stored date text reads as.
pub open spec fn parsed_day(text: Option<String>) -> Option<i32> {
    match text {
        Some(t) => iso_date_parse(t@),
        None => None,
    }
}

/// The later of the latest day so far and a game's day, either possibly unknown.
pub open spec fn later_day_spec(current: Option<i32>, candidate: Option<i32>) -> Option<i32> {
    match candidate {
        Some(d) => match current {
            Some(c) => if d > c {
                Some(d)
            } else {
                current
            },
            None => Some(d),
        },
        None => current,
    }
}

/// The later of the latest day so far and a game's day.
pub fn later_day(current: Option<i32>, candidate: Option<i32>) -> (r: Option<i32>)
    ensures
        r == later_day_spec(current, candidate),
{
    match candidate {
        Some(d) => match current {
            Some(c) => if d > c {
                Some(d)
            } else {
                current
            },
            None => Some(d),
        },
        None => current,
    }
}

/// The latest day among `start` and the readable dates of the games.
pub open spec fn latest_day(start: Option<i32>, gs: Seq<Game>) -> Option<i32>
    decreases gs.len(),
{
    if gs.len() == 0 {
        start
    } else {
        later_day_spec(latest_day(start, gs.drop_last()), iso_date_parse(gs.last().date@))
    }
}

/// The text of a latest day, `YYYY-MM-DD`.
pub open spec fn day_text(day: Option<i32>) -> Option<Seq<char>> {
    match day {
        Some(d) => Some(iso_date_text_of(d)),
        None => None,
    }
}

/// The view of an optional text.
pub open spec fn opt_text(t: Option<String>) -> Option<Seq<char>> {
    match t {
        Some(s) => Some(s@),
        None => None,
    }
}

/// The season a refresh targets: the override, or the season by the clock.
pub fn effective_season(season_override: Option<u32>) -> (s: u32)
    ensures
        season_override matches Some(o) ==> s == o,
        season_override is None ==> exists|year: i32, month: u32|
            MIN_YEAR <= year <= MAX_YEAR && 1 <= month <= 12 && s == #[trigger] clock_season(year, month),
{
    match season_override {
        Some(o) => o,
        None => current_nba_season(),
    }
}

proof fn lemma_upsert_keyed(m: Map<u64, Game>, gs: Seq<Game>)
    requires
        keyed_by_id(m),
        m.dom().finite(),
    ensures
        keyed_by_id(upsert_all(m, gs)),
        upsert_all(m, gs).dom().finite(),
        upsert_all(m, gs).dom().len() <= m.dom().len() + gs.len(),
    decreases gs.len(),
{
    if gs.len() > 0 {
        lemma_upsert_keyed(m, gs.drop_last());
    }
}

proof fn lemma_latest_in_range(start: Option<i32>, gs: Seq<Game>)
    requires
        start matches Some(d) ==> min_day() <= d <= max_day(),
        forall|i: int| 0 <= i < gs.len() ==> (iso_date_parse((#[trigger] gs[i]).date@) matches Some(
            d,
        ) ==> min_day() <= d <= max_day()),
    ensures
        latest_day(start, gs) matches Some(d) ==> min_day() <= d <= max_day(),
    decreases gs.len(),
{
    if gs.len() > 0 {
        assert forall|i: int| 0 <= i < gs.drop_last().len() implies (iso_date_parse(
            (#[trigger] gs.drop_last()[i]).date@,
        ) matches Some(d) ==> min_day() <= d <= max_day()) by {
            assert(gs.drop_last()[i] == gs[i]);
        }
        lemma_latest_in_range(start, gs.drop_last());
        assert(gs.last() == gs[gs.len() - 1]);
    }
}

impl CacheInner {
    /// Every stored game is keyed by its own id.
    pub open spec fn wf(&self) -> bool {
        keyed_by_id(self.games@)
    }

    /// An empty cache for a season: the override, or the season by the clock.
    pub fn new(season_override: Option<u32>) -> (c: Self)
        ensures
            c.teams@.len() == 0,
            c.games@ == Map::<u64, Game>::empty(),
            c.latest_game_date is None,
            c.standings is None,
            c.wf(),
            season_override matches Some(o) ==> c.season == o,
            season_override is None ==> exists|year: i32, month: u32|
                MIN_YEAR <= year <= MAX_YEAR && 1 <= month <= 12 && c.season == #[trigger] clock_season(year, month),
    {
        CacheInner {
            teams: Vec::new(),
            games: HashMap::new(),
            latest_game_date: None,
            season: effective_season(season_override),
            standings: None,
        }
    }

    /// The cached standings, when there are some and they are younger than
    /// the TTL (`since_refresh_nanos` is the time since the last refresh).
    pub fn fresh_standings(&self, since_refresh_nanos: Option<u128>) -> (r: Option<Standings>)
        ensures
            match r {
                Some(s) => {
                    &&& self.standings matches Some(cached)
                    &&& s.eastern@ == cached.eastern@
                    &&& s.western@ == cached.western@
                    &&& s.season == cached.season
                    &&& since_refresh_nanos matches Some(e)
                    &&& e < CACHE_TTL_NANOS
                },
                None => self.standings is None || since_refresh_nanos is None || since_refresh_nanos->0
                    >= CACHE_TTL_NANOS,
            },
    {
        match (&self.standings, since_refresh_nanos) {
            (Some(standings), Some(elapsed)) => {
                if elapsed < CACHE_TTL_NANOS {
                    Some(standings.clone())
                } else {
                    None
                }
            },
            _ => None,
        }
    }

    /// Decide what a refresh for `season` fetches: the teams when none are
    /// cached or the season changed; the games since the latest cached date
    /// when there is one and the season is the same, else the whole season.
    pub fn plan_refresh(&self, season: u32) -> (plan: RefreshPlan)
        ensures
            plan.season == season,
            plan.season_changed == (season != self.season),
            plan.fetch_teams == (self.teams@.len() == 0 || season != self.season),
            opt_text(plan.games_since) == (if season != self.season {
                None
            } else {
                opt_text(self.latest_game_date)
            }),
    {
        let needs_teams = self.teams.len() == 0;
        let season_changed = season != self.season;
        let games_since = match &self.latest_game_date {
            Some(date) => {
                if !season_changed {
                    Some(date.clone())
                } else {
                    None
                }
            },
            None => None,
        };
        RefreshPlan { season, season_changed, fetch_teams: needs_teams || season_changed, games_since }
    }

    /// Merge a refresh into the cache and recompute the standings.
    ///
    /// On a season change the games and the latest date are dropped and the
    /// season is replaced. The teams are replaced. Each new game is stored
    /// under its id, replacing an earlier copy (scores of games that were in
    /// progress are updated). The latest date is the latest of the stored one
    /// and the new games' dates. The standings are computed from all stored
    /// games and kept; `None` (and no standings kept) when some team has
    /// played more games than a `u32` counts.
    pub fn apply_refresh(&mut self, plan: &RefreshPlan, teams: Vec<Team>, new_games: Vec<Game>) -> (r:
        Option<Standings>)
        requires
            old(self).wf(),
        ensures
            final(self).season == (if plan.season_changed {
                plan.season
            } else {
                old(self).season
            }),
            final(self).teams@ == teams@,
            final(self).games@ == upsert_all(
                if plan.season_changed {
                    Map::empty()
                } else {
                    old(self).games@
                },
                new_games@,
            ),
            final(self).wf(),
            opt_text(final(self).latest_game_date) == day_text(
                latest_day(
                    if plan.season_changed {
                        None
                    } else {
                        parsed_day(old(self).latest_game_date)
                    },
                    new_games@,
                ),
            ),
            exists|gs: Seq<Game>|
                #![trigger lists_games(gs, final(self).games@)]
                lists_games(gs, final(self).games@) && match r {
                    Some(s) => {
                        &&& tally_fits(teams@, gs)
                        &&& standings_of(teams@, gs, final(self).season, s)
                        &&& final(self).standings matches Some(kept) && (kept.eastern@ == s.eastern@
                            && kept.western@ == s.western@ && kept.season == s.season)
                    },
                    None => !tally_fits(teams@, gs) && final(self).standings is None,
                },
    {
        broadcast use vstd::std_specs::hash::group_hash_axioms;

        if plan.season_changed {
            self.games.clear();
            self.latest_game_date = None;
            self.season = plan.season;
        }
        let ghost teams_view = teams@;
        self.teams = teams;
        let ghost season_now = self.season;
        let ghost base = self.games@;
        let ghost start = parsed_day(self.latest_game_date);
        proof {
            assert(base.dom().finite());
        }
        let mut latest: Option<i32> = match &self.latest_game_date {
            Some(text) => parse_iso_date(text.as_str()),
            None => None,
        };
        let mut i: usize = 0;
        proof {
            assert(new_games@.take(0) =~= Seq::<Game>::empty());
        }
        while i < new_games.len()
            invariant
                i <= new_games@.len(),
                keyed_by_id(base),
                base.dom().finite(),
                self.season == season_now,
                self.teams@ == teams_view,
                self.games@ == upsert_all(base, new_games@.take(i as int)),
                latest == latest_day(start, new_games@.take(i as int)),
                start matches Some(d) ==> min_day() <= d <= max_day(),
                latest matches Some(d) ==> min_day() <= d <= max_day(),
            decreases new_games@.len() - i,
        {
            let game = &new_games[i];
            proof {
                assert(new_games@.take(i + 1).drop_last() =~= new_games@.take(i as int));
                assert(new_games@.take(i + 1).last() == new_games@[i as int]);
            }
            let game_day = parse_iso_date(game.date.as_str());
            latest = later_day(latest, game_day);
            self.games.insert(game.id, game.clone());
            i = i + 1;
        }
        proof {
            assert(new_games@.take(new_games@.len() as int) =~= new_games@);
            lemma_upsert_keyed(base, new_games@);
        }
        self.latest_game_date = match latest {
            Some(day) => Some(iso_date_text(day)),
            None => None,
        };
        let all_games = game_list(&self.games);
        if !tally_fits_exec(self.teams.as_slice(), all_games.as_slice()) {
            self.standings = None;
            assert(lists_games(all_games@, self.games@));
            return None;
        }
        let standings = compute_standings(self.teams.as_slice(), all_games.as_slice(), self.season);
        self.standings = Some(standings.clone());
        assert(lists_games(all_games@, self.games@));
        Some(standings)
    }

    /// Counts and dates of the cache, with the age of the last refresh.
    pub fn stats(&self, age_secs: Option<u64>) -> (st: CacheStats)
        ensures
            st.team_count == self.teams@.len(),
            st.game_count == self.games@.dom().len(),
            st.season == self.season,
            opt_text(st.latest_game_date) == opt_text(self.latest_game_date),
            st.age_secs == age_secs,
    {
        broadcast use vstd::std_specs::hash::group_hash_axioms;

        CacheStats {
            team_count: self.teams.len(),
            game_count: self.games.len(),
            season: self.season,
            latest_game_date: match &self.latest_game_date {
                Some(d) => Some(d.clone()),
                None => None,
            },
            age_secs,
        }
    }
}

/// The last game with id `k` in `gs`, if any.
pub open spec fn last_with_id(gs: Seq<Game>, k: u64) -> Option<Game>
    decreases gs.len(),
{
    if gs.len() == 0 {
        None
    } else if gs.last().id == k {
        Some(gs.last())
    } else {
        last_with_id(gs.drop_last(), k)
    }
}

proof fn lemma_upsert_at(m: Map<u64, Game>, gs: Seq<Game>, k: u64)
    ensures
        upsert_all(m, gs).contains_key(k) == (last_with_id(gs, k) is Some || m.contains_key(k)),
        upsert_all(m, gs).contains_key(k) ==> upsert_all(m, gs)[k] == match last_with_id(gs, k) {
            Some(g) => g,
            None => m[k],
        },
    decreases gs.len(),
{
    if gs.len() > 0 {
        lemma_upsert_at(m, gs.drop_last(), k);
    }
}

/// Storing the same games twice leaves the cache as storing them once:
/// games are upserted by id, so a refresh that sees a game again never
/// duplicates it.
pub proof fn upsert_idempotent(m: Map<u64, Game>, gs: Seq<Game>)
    ensures
        upsert_all(upsert_all(m, gs), gs) == upsert_all(m, gs),
{
    let u = upsert_all(m, gs);
    assert forall|k: u64| #[trigger] upsert_all(u, gs).contains_key(k) == u.contains_key(k) by {
        lemma_upsert_at(u, gs, k);
        lemma_upsert_at(m, gs, k);
    }
    assert forall|k: u64| #[trigger] upsert_all(u, gs).contains_key(k) implies upsert_all(u, gs)[k]
        == u[k] by {
        lemma_upsert_at(u, gs, k);
        lemma_upsert_at(m, gs, k);
    }
    assert(upsert_all(u, gs) =~= u);
}

/// The ids of the games in `gs`.
pub open spec fn ids_of(gs: Seq<Game>) -> Set<u64> {
    Set::new(|k: u64| exists|i: int| 0 <= i < gs.len() && (#[trigger] gs[i]).id == k)
}

/// The games stored after a refresh are keyed by the ids of the games kept
/// and of the games fetched, each id once: the cache counts the union of the
/// two sets of ids.
pub proof fn upsert_ids_are_union(m: Map<u64, Game>, gs: Seq<Game>)
    requires
        m.dom().finite(),
    ensures
        upsert_all(m, gs).dom() == m.dom().union(ids_of(gs)),
        upsert_all(m, gs).dom().len() == m.dom().union(ids_of(gs)).len(),
    decreases gs.len(),
{
    if gs.len() > 0 {
        let init = gs.drop_last();
        upsert_ids_are_union(m, init);
        assert forall|k: u64| #[trigger] ids_of(gs).contains(k) == (ids_of(init).contains(k) || k == gs.last().id) by {
            if ids_of(gs).contains(k) {
                let i = choose|i: int| 0 <= i < gs.len() && (#[trigger] gs[i]).id == k;
                if i < gs.len() - 1 {
                    assert(init[i] == gs[i]);
                }
            }
            if ids_of(init).contains(k) {
                let i = choose|i: int| 0 <= i < init.len() && (#[trigger] init[i]).id == k;
                assert(gs[i] == init[i]);
            }
            if k == gs.last().id {
                assert(gs[gs.len() - 1].id == k);
            }
        }
        assert(upsert_all(m, gs).dom() =~= m.dom().union(ids_of(gs)));
    } else {
        assert(m.dom().union(ids_of(gs)) =~= m.dom());
    }
}

/// A stored game is the last copy of it the refreshes delivered: a newer
/// copy (an updated score) replaces an older one.
pub proof fn upsert_keeps_last_copy(m: Map<u64, Game>, gs: Seq<Game>, i: int)
    requires
        0 <= i < gs.len(),
        forall|j: int| i < j < gs.len() ==> (#[trigger] gs[j]).id != gs[i].id,
    ensures
        upsert_all(m, gs).contains_key(gs[i].id),
        upsert_all(m, gs)[gs[i].id] == gs[i],
    decreases gs.len(),
{
    lemma_upsert_at(m, gs, gs[i].id);
    lemma_last_with_id(gs, i);
}

proof fn lemma_last_with_id(gs: Seq<Game>, i: int)
    requires
        0 <= i < gs.len(),
        forall|j: int| i < j < gs.len() ==> (#[trigger] gs[j]).id != gs[i].id,
    ensures
        last_with_id(gs, gs[i].id) == Some(gs[i]),
    decreases gs.len(),
{
    if i < gs.len() - 1 {
        assert(gs.last() == gs[gs.len() - 1]);
        assert forall|j: int| i < j < gs.drop_last().len() implies (#[trigger] gs.drop_last()[j]).id
            != gs.drop_last()[i].id by {
            assert(gs.drop_last()[j] == gs[j]);
        }
        lemma_last_with_id(gs.drop_last(), i);
    }
}

/// The latest date never moves backward, and it is at least the date of
/// every game whose date reads: it is the most recent date seen.
pub proof fn latest_day_is_maximum(start: Option<i32>, gs: Seq<Game>)
    ensures
        start matches Some(c) ==> (latest_day(start, gs) matches Some(d) && d >= c),
        forall|i: int|
            0 <= i < gs.len() ==> (iso_date_parse((#[trigger] gs[i]).date@) matches Some(x) ==> (
            latest_day(start, gs) matches Some(d) && d >= x)),
        latest_day(start, gs) matches Some(d) ==> (start == Some(d) || exists|i: int|
            0 <= i < gs.len() && iso_date_parse((#[trigger] gs[i]).date@) == Some(d)),
    decreases gs.len(),
{
    if gs.len() > 0 {
        let init = gs.drop_last();
        latest_day_is_maximum(start, init);
        assert forall|i: int| 0 <= i < gs.len() implies (iso_date_parse((#[trigger] gs[i]).date@) matches Some(
            x,
        ) ==> (latest_day(start, gs) matches Some(d) && d >= x)) by {
            if i < gs.len() - 1 {
                assert(gs[i] == init[i]);
            }
        }
        let prev = latest_day(start, init);
        if latest_day(start, gs) != prev {
            assert(iso_date_parse(gs[gs.len() - 1].date@) == latest_day(start, gs));
        } else if prev is Some {
            let d = prev->0;
            if start != Some(d) {
                let i = choose|i: int| 0 <= i < init.len() && iso_date_parse((#[trigger] init[i]).date@) == Some(d);
                assert(gs[i] == init[i]);
            }
        }
    }
}

} // verus!
