use cusage::pricing::{
    bare_name, lookup_rate, parse_rate_table, pricing_for, strip_variant_suffix, CostSource, ModelRate,
    Pricing, RateEntry, RateTable,
};
use cusage::record::TokenTotals;

fn entry(name: &str, input: Option<f64>, output: Option<f64>, cache_read: Option<f64>, cache_creation: Option<f64>) -> RateEntry {
    RateEntry {
        name: name.to_string(),
        input: input.map(f64::to_bits),
        output: output.map(f64::to_bits),
        cache_read: cache_read.map(f64::to_bits),
        cache_creation: cache_creation.map(f64::to_bits),
    }
}

fn table() -> RateTable {
    parse_rate_table(&vec![entry("acme-opus-4-8", Some(0.000015), Some(0.000075), Some(0.0000015), Some(0.00001875))])
}

fn totals(uncached_input: u64, cached_input: u64, cache_creation: u64, output: u64) -> TokenTotals {
    TokenTotals { uncached_input, cached_input, cache_creation, output }
}

/// The dollar cost of a turn priced as `pricing`.
fn cost_of(pricing: Pricing, t: TokenTotals) -> f64 {
    match pricing {
        Pricing::Reported(bits) => f64::from_bits(bits),
        Pricing::Rated(rate) => {
            t.uncached_input as f64 * f64::from_bits(rate.input)
                + t.cached_input as f64 * f64::from_bits(rate.cache_read)
                + t.cache_creation as f64 * f64::from_bits(rate.cache_creation)
                + t.output as f64 * f64::from_bits(rate.output)
        }
        Pricing::Unpriced => 0.0,
    }
}

/// What the cached input would have cost at the full input rate minus what it did.
fn savings_of(rate: Option<ModelRate>, t: TokenTotals) -> f64 {
    match rate {
        None => 0.0,
        Some(rate) => t.cached_input as f64 * (f64::from_bits(rate.input) - f64::from_bits(rate.cache_read)),
    }
}

#[test]
fn prices_each_token_class_at_its_own_rate() {
    let t = totals(1000, 1000, 1000, 1000);
    let priced = pricing_for(&table(), "acme-opus-4-8", None);
    assert_eq!(priced.source(), CostSource::ModelPriced);
    let expected = 1000.0 * (0.000015 + 0.0000015 + 0.00001875 + 0.000075);
    assert!((cost_of(priced, t) - expected).abs() < 1e-12);
}

#[test]
fn reported_cost_takes_precedence() {
    let priced = pricing_for(&table(), "acme-opus-4-8", Some(9.99f64.to_bits()));
    assert_eq!(priced.source(), CostSource::ProviderReported);
    assert_eq!(cost_of(priced, totals(0, 0, 0, 0)), 9.99);
}

#[test]
fn a_non_finite_reported_cost_falls_back_to_the_rate() {
    let priced = pricing_for(&table(), "acme-opus-4-8", Some(f64::NAN.to_bits()));
    assert_eq!(priced.source(), CostSource::ModelPriced);
}

#[test]
fn strips_the_1m_variant_suffix() {
    let t = parse_rate_table(&vec![entry("acme-fable-5-1", Some(1.0), Some(2.0), None, None)]);
    assert!(lookup_rate(&t, "acme-fable-5-1[1m]").is_some());
}

#[test]
fn bare_family_names_are_unpriceable() {
    assert!(lookup_rate(&table(), "opus").is_none());
    let priced = pricing_for(&table(), "opus", None);
    assert_eq!(priced.source(), CostSource::Unpriced);
    assert_eq!(cost_of(priced, totals(0, 0, 0, 100)), 0.0);
}

#[test]
fn cache_savings_is_the_discount_on_cached_input() {
    let t = totals(0, 1_000_000, 0, 0);
    let saved = savings_of(lookup_rate(&table(), "acme-opus-4-8"), t);
    let expected = 1_000_000.0 * (0.000015 - 0.0000015);
    assert!((saved - expected).abs() < 1e-9);
}

#[test]
fn entries_without_both_core_rates_are_dropped() {
    assert!(parse_rate_table(&vec![entry("half", Some(1.0), None, None, None)]).is_empty());
}

#[test]
fn cache_rates_fall_back_to_the_input_rate() {
    let t = parse_rate_table(&vec![entry("m", Some(3.0), Some(4.0), None, Some(f64::INFINITY))]);
    let rate = lookup_rate(&t, "m").unwrap();
    assert_eq!(f64::from_bits(rate.cache_read), 3.0);
    assert_eq!(f64::from_bits(rate.cache_creation), 3.0);
    assert_eq!(f64::from_bits(rate.output), 4.0);
}

#[test]
fn lookup_trims_and_lowercases() {
    let t = table();
    assert!(lookup_rate(&t, "  Acme-OPUS-4-8  ").is_some());
    assert!(lookup_rate(&t, "acme-opus-9").is_none());
    assert!(lookup_rate(&t, "<synthetic>").is_none());
    assert!(lookup_rate(&t, "").is_none());
    assert!(lookup_rate(&t, "x/").is_none());
}

#[test]
fn keys_are_trimmed_and_lowercased_and_blank_keys_dropped() {
    let t = parse_rate_table(&vec![
        entry("  Model-A ", Some(1.0), Some(2.0), None, None),
        entry("   ", Some(1.0), Some(2.0), None, None),
        entry("nan", Some(f64::NAN), Some(2.0), None, None),
    ]);
    assert_eq!(t.len(), 1);
    assert!(t.contains_key(&"model-a".to_string()));
}

#[test]
fn bare_names_alias_only_when_unambiguous() {
    let t = parse_rate_table(&vec![
        entry("anthropic/foo", Some(1.0), Some(2.0), None, None),
        entry("vertex/foo", Some(1.0), Some(2.0), None, None),
        entry("anthropic/bar", Some(1.0), Some(2.0), None, None),
        entry("vertex/bar", Some(5.0), Some(2.0), None, None),
        entry("anthropic/baz", Some(1.0), Some(2.0), None, None),
        entry("baz", Some(9.0), Some(9.0), None, None),
        entry("zero/z", Some(0.0), Some(1.0), None, None),
        entry("neg/z", Some(-0.0), Some(1.0), None, None),
    ]);
    assert!(t.contains_key(&"foo".to_string()));
    assert!(!t.contains_key(&"bar".to_string()));
    assert_eq!(f64::from_bits(t.get(&"baz".to_string()).unwrap().input), 9.0);
    assert!(t.contains_key(&"z".to_string()));
    assert_eq!(t.len(), 10);
}

#[test]
fn later_entries_replace_earlier_ones_with_the_same_key() {
    let t = parse_rate_table(&vec![
        entry("m", Some(1.0), Some(2.0), None, None),
        entry("M", Some(7.0), Some(8.0), None, None),
    ]);
    assert_eq!(t.len(), 1);
    assert_eq!(f64::from_bits(t.get(&"m".to_string()).unwrap().input), 7.0);
}

#[test]
fn suffix_and_bare_name_helpers() {
    assert_eq!(strip_variant_suffix("acme-fable-5-1[1m]"), "acme-fable-5-1");
    assert_eq!(strip_variant_suffix("plain"), "plain");
    assert_eq!(strip_variant_suffix("[x]"), "");
    assert_eq!(bare_name("anthropic/foo"), "foo");
    assert_eq!(bare_name("a/b/c"), "c");
    assert_eq!(bare_name("plain"), "plain");
    assert_eq!(bare_name("trailing/"), "");
}

#[test]
fn lookup_trims_unicode_white_space_only() {
    let t = table();
    assert!(lookup_rate(&t, "\u{3000}acme-opus-4-8\u{2028}\t").is_some());
    assert!(lookup_rate(&t, "\u{a0}\u{85}acme-opus-4-8\u{202f}").is_some());
    // A zero-width space is not white space: it stays and the id is unknown.
    assert!(lookup_rate(&t, "\u{200b}acme-opus-4-8").is_none());
}
