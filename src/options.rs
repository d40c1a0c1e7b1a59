//! Search options and their defaults.

use vstd::prelude::*;

verus! {

/// The number of results returned when no limit is given.
pub const DEFAULT_LIMIT: usize = 10;

/// How a query is matched and how many results are kept. The minimum score
/// a result needs is given to the ranking separately.
#[derive(Clone, Copy, Debug, PartialEq, Eq, Structural)]
pub struct SearchOptions {
    /// The most results returned.
    pub limit: usize,
    /// Whether the last query token also matches the terms it begins.
    pub prefix: bool,
    /// Whether a token with no match falls back to terms one edit away.
    pub fuzzy: bool,
}

impl Default for SearchOptions {
    fn default() -> (r: Self)
        ensures
            r.limit == DEFAULT_LIMIT,
            r.prefix,
            !r.fuzzy,
    {
        SearchOptions { limit: DEFAULT_LIMIT, prefix: true, fuzzy: false }
    }
}

impl SearchOptions {
    /// Options from optional settings: each one left out takes its default.
    pub fn from_settings(limit: Option<u32>, prefix: Option<bool>, fuzzy: Option<bool>) -> (r: Self)
        ensures
            r.limit == match limit {
                Some(l) => l as usize,
                None => DEFAULT_LIMIT,
            },
            r.prefix == match prefix {
                Some(p) => p,
                None => true,
            },
            r.fuzzy == match fuzzy {
                Some(f) => f,
                None => false,
            },
    {
        let limit = match limit {
            Some(l) => l as usize,
            None => DEFAULT_LIMIT,
        };
        let prefix = match prefix {
            Some(p) => p,
            None => true,
        };
        let fuzzy = match fuzzy {
            Some(f) => f,
            None => false,
        };
        SearchOptions { limit, prefix, fuzzy }
    }
}

} // verus!
