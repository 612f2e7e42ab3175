use cusage::prices::{after_attempt, first_attempt, PriceAttempt, PriceSource};

#[test]
fn price_source_labels() {
    assert_eq!(PriceSource::Cache.label(), "cached");
    assert_eq!(PriceSource::Network.label(), "live");
    assert_eq!(PriceSource::Bundled.label(), "bundled");
}

#[test]
fn a_fresh_cache_is_tried_first() {
    assert_eq!(first_attempt(true, true), PriceAttempt::FreshCache);
    assert_eq!(first_attempt(true, false), PriceAttempt::Network);
    assert_eq!(first_attempt(false, true), PriceAttempt::Network);
}

#[test]
fn failures_fall_through_to_the_bundled_snapshot() {
    assert_eq!(after_attempt(PriceAttempt::FreshCache, true, true), Ok(PriceSource::Cache));
    assert_eq!(after_attempt(PriceAttempt::FreshCache, true, false), Err(PriceAttempt::Network));
    assert_eq!(after_attempt(PriceAttempt::Network, true, true), Ok(PriceSource::Network));
    assert_eq!(after_attempt(PriceAttempt::Network, true, false), Err(PriceAttempt::StaleCache));
    assert_eq!(after_attempt(PriceAttempt::Network, false, false), Err(PriceAttempt::Bundled));
    assert_eq!(after_attempt(PriceAttempt::StaleCache, true, true), Ok(PriceSource::Cache));
    assert_eq!(after_attempt(PriceAttempt::StaleCache, true, false), Err(PriceAttempt::Bundled));
    assert_eq!(after_attempt(PriceAttempt::Bundled, false, false), Ok(PriceSource::Bundled));
}
