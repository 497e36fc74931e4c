//! Teams, games and the paginated envelope in which the games API returns them.
use vstd::prelude::*;

verus! {

/// Wrapper for paginated API responses.
#[derive(Debug)]
pub struct ApiResponse<T> {
    pub data: Vec<T>,
    pub meta: Option<Meta>,
}

/// Pagination metadata using cursor-based pagination.
#[derive(Debug, Clone, Copy, PartialEq, Eq)]
pub struct Meta {
    pub next_cursor: Option<u64>,
    pub per_page: Option<u32>,
}

/// A team as the API describes it.
#[derive(Debug)]
pub struct Team {
    pub id: u64,
    pub conference: String,
    pub division: String,
    pub city: String,
    pub name: String,
    pub full_name: String,
    pub abbreviation: String,
}

/// A game as the API describes it.
#[derive(Debug)]
pub struct Game {
    pub id: u64,
    pub date: String,
    pub season: u32,
    pub status: String,
    pub period: Option<u32>,
    pub postseason: bool,
    pub postponed: Option<bool>,
    pub home_team_score: Option<u32>,
    pub visitor_team_score: Option<u32>,
    pub home_team: Team,
    pub visitor_team: Team,
}

impl Clone for Team {
    fn clone(&self) -> (r: Self)
        ensures
            r == *self,
    {
        Team {
            id: self.id,
            conference: self.conference.clone(),
            division: self.division.clone(),
            city: self.city.clone(),
            name: self.name.clone(),
            full_name: self.full_name.clone(),
            abbreviation: self.abbreviation.clone(),
        }
    }
}

impl Clone for Game {
    fn clone(&self) -> (r: Self)
        ensures
            r == *self,
    {
        Game {
            id: self.id,
            date: self.date.clone(),
            season: self.season,
            status: self.status.clone(),
            period: self.period,
            postseason: self.postseason,
            postponed: self.postponed,
            home_team_score: self.home_team_score,
            visitor_team_score: self.visitor_team_score,
            home_team: self.home_team.clone(),
            visitor_team: self.visitor_team.clone(),
        }
    }
}

impl<T> ApiResponse<T> {
    /// The cursor of the page after this one, `None` on the last page.
    pub fn next_cursor(&self) -> (r: Option<u64>)
        ensures
            r == (match self.meta {
                Some(m) => m.next_cursor,
                None => None,
            }),
    {
        match self.meta {
            Some(m) => m.next_cursor,
            None => None,
        }
    }
}

} // verus!
