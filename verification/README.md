# nba_standings

A Discord bot that posts basketball standings, with its logic as a Verus-verified library.

- `src/` — the verified library:
  - `compute.rs`: tallying final games into win/loss records, splitting by conference and ranking
    (win percentage, then wins); laws of the tally.
  - `cache.rs`: the cached teams and games (upserted by id), the latest game date, what a refresh
    fetches and how it is merged; laws of the cache.
  - `client.rs`: API limits, the season's date ranges, page queries, retry decisions, the rate
    limiter and the pagination of parallel fetches.
  - `format.rs`: the season label, the tables and the message embeds as text.
  - `config.rs`, `commands.rs`: reading the configuration values, the command's decisions.
  - `dates.rs`: dates as day numbers; calls into chrono.
  - `text.rs`: decimal numbers, padding and joining.
- `app/` — the program: environment, HTTP requests, locks, clocks, Discord.
- `tests/` — tests of the library.
