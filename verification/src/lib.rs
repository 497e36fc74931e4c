//! Standings for a basketball league: tallying completed games into
//! per-team win/loss records, ranking each conference, caching the data
//! between refreshes, planning the paginated fetches against the games API
//! under its rate limit, and laying the result out as message text.
pub mod text;
pub mod dates;
pub mod models;
pub mod compute;
pub mod client;
pub mod cache;
pub mod format;
pub mod config;
pub mod commands;
