//! The decisions of the `/standings` slash command.
use vstd::prelude::*;

verus! {

/// The notice sent before a lookup of a season other than the configured one.
pub const CUSTOM_SEASON_NOTICE: &'static str =
    "Custom season lookups bypass the cache and may take a few minutes. Fetching...";

/// Whether the command first sends the custom-season notice: a season was
/// requested and it is not the configured one.
pub fn needs_custom_season_notice(requested: Option<u32>, configured: Option<u32>) -> (b: bool)
    ensures
        b == (requested is Some && requested != configured),
{
    match requested {
        Some(r) => match configured {
            Some(c) => r != c,
            None => true,
        },
        None => false,
    }
}

} // verus!
