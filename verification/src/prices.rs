//! Where the rate table comes from: the order in which a fresh cache, the
//! network, a stale cache and the bundled snapshot are tried.

use vstd::prelude::*;

verus! {

/// Where the priced rates ultimately came from.
#[derive(Clone, Copy, Debug, PartialEq, Eq, Structural)]
pub enum PriceSource {
    /// A fresh (or fallback) on-disk cache of a previous download.
    Cache,
    /// Just downloaded.
    Network,
    /// The compiled-in snapshot, used offline or when everything else fails.
    Bundled,
}

impl PriceSource {
    /// The short label the footer shows.
    pub fn label(self) -> (s: &'static str)
        ensures
            s@ == (match self {
                PriceSource::Cache => "cached"@,
                PriceSource::Network => "live"@,
                PriceSource::Bundled => "bundled"@,
            }),
    {
        match self {
            PriceSource::Cache => "cached",
            PriceSource::Network => "live",
            PriceSource::Bundled => "bundled",
        }
    }
}

/// One way of obtaining a rate table.
#[derive(Clone, Copy, Debug, PartialEq, Eq, Structural)]
pub enum PriceAttempt {
    /// Read the cache, trusted because it is recent.
    FreshCache,
    /// Download the document.
    Network,
    /// Read the cache even though it is old.
    StaleCache,
    /// Use the bundled snapshot.
    Bundled,
}

/// The first way to try: a fresh cache when there is one, else the network.
pub fn first_attempt(has_cache: bool, cache_fresh: bool) -> (a: PriceAttempt)
    ensures
        a == (if has_cache && cache_fresh { PriceAttempt::FreshCache } else { PriceAttempt::Network }),
{
    if has_cache && cache_fresh {
        PriceAttempt::FreshCache
    } else {
        PriceAttempt::Network
    }
}

/// After an attempt: the source to settle on, or the next attempt.
pub open spec fn after_attempt_spec(attempt: PriceAttempt, has_cache: bool, got_rates: bool) -> Result<PriceSource, PriceAttempt> {
    (match attempt {
        PriceAttempt::FreshCache => if got_rates {
            Ok(PriceSource::Cache)
        } else {
            Err(PriceAttempt::Network)
        },
        PriceAttempt::Network => if got_rates {
            Ok(PriceSource::Network)
        } else if has_cache {
            Err(PriceAttempt::StaleCache)
        } else {
            Err(PriceAttempt::Bundled)
        },
        PriceAttempt::StaleCache => if got_rates {
            Ok(PriceSource::Cache)
        } else {
            Err(PriceAttempt::Bundled)
        },
        PriceAttempt::Bundled => Ok(PriceSource::Bundled),
    })
}

/// After an attempt: the source to settle on when it yielded a non-empty
/// table (the bundled snapshot is always settled on), or the next attempt.
pub fn after_attempt(attempt: PriceAttempt, has_cache: bool, got_rates: bool) -> (r: Result<PriceSource, PriceAttempt>)
    ensures
        r == after_attempt_spec(attempt, has_cache, got_rates),
{
    match attempt {
        PriceAttempt::FreshCache => if got_rates {
            Ok(PriceSource::Cache)
        } else {
            Err(PriceAttempt::Network)
        },
        PriceAttempt::Network => if got_rates {
            Ok(PriceSource::Network)
        } else if has_cache {
            Err(PriceAttempt::StaleCache)
        } else {
            Err(PriceAttempt::Bundled)
        },
        PriceAttempt::StaleCache => if got_rates {
            Ok(PriceSource::Cache)
        } else {
            Err(PriceAttempt::Bundled)
        },
        PriceAttempt::Bundled => Ok(PriceSource::Bundled),
    }
}

/// The rank of an attempt in the fixed preference order.
pub open spec fn attempt_rank(a: PriceAttempt) -> int {
    match a {
        PriceAttempt::FreshCache => 0,
        PriceAttempt::Network => 1,
        PriceAttempt::StaleCache => 2,
        PriceAttempt::Bundled => 3,
    }
}

/// Loading always succeeds: every failed attempt moves strictly further
/// down the preference order, which ends at the bundled snapshot.
pub proof fn law_loading_always_settles(attempt: PriceAttempt, has_cache: bool, got_rates: bool)
    ensures
        after_attempt_spec(attempt, has_cache, got_rates) matches Err(next) ==> attempt_rank(next) > attempt_rank(attempt),
        after_attempt_spec(PriceAttempt::Bundled, has_cache, got_rates) is Ok,
{
}

/// The source reported names what was used: the bundled snapshot is always
/// reported as bundled, the network only after a download yielded rates,
/// the cache only after a fresh or stale cache read yielded rates; and a
/// failed attempt moves on to the network after a fresh cache, to the stale
/// cache (when there is one, else the snapshot) after the network, and to
/// the snapshot after a stale cache.
pub proof fn law_reported_source_is_the_one_used(attempt: PriceAttempt, has_cache: bool, got_rates: bool)
    ensures
        after_attempt_spec(PriceAttempt::Bundled, has_cache, got_rates) == Ok::<PriceSource, PriceAttempt>(
            PriceSource::Bundled,
        ),
        after_attempt_spec(attempt, has_cache, got_rates) == Ok::<PriceSource, PriceAttempt>(PriceSource::Bundled)
            <==> attempt == PriceAttempt::Bundled,
        after_attempt_spec(attempt, has_cache, got_rates) == Ok::<PriceSource, PriceAttempt>(PriceSource::Network)
            <==> attempt == PriceAttempt::Network && got_rates,
        after_attempt_spec(attempt, has_cache, got_rates) == Ok::<PriceSource, PriceAttempt>(PriceSource::Cache)
            <==> (attempt == PriceAttempt::FreshCache || attempt == PriceAttempt::StaleCache) && got_rates,
        attempt == PriceAttempt::FreshCache && !got_rates ==> after_attempt_spec(attempt, has_cache, got_rates)
            == Err::<PriceSource, PriceAttempt>(PriceAttempt::Network),
        attempt == PriceAttempt::Network && !got_rates ==> after_attempt_spec(attempt, has_cache, got_rates)
            == Err::<PriceSource, PriceAttempt>(if has_cache { PriceAttempt::StaleCache } else { PriceAttempt::Bundled }),
        attempt == PriceAttempt::StaleCache && !got_rates ==> after_attempt_spec(attempt, has_cache, got_rates)
            == Err::<PriceSource, PriceAttempt>(PriceAttempt::Bundled),
{
}

} // verus!
