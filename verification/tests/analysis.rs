use cusage::analysis::{analyze, kept_totals_within_u64, survivors, Analysis, Line, Turn, UNKNOWN_PROJECT};
use cusage::pricing::{parse_rate_table, Pricing, RateEntry, RateTable};
use cusage::record::{TokenTotals, UsageRecord};

fn entry(name: &str, input: f64, output: f64) -> RateEntry {
    RateEntry {
        name: name.to_string(),
        input: Some(input.to_bits()),
        output: Some(output.to_bits()),
        cache_read: None,
        cache_creation: None,
    }
}

fn table() -> RateTable {
    parse_rate_table(&vec![entry("acme-opus-4-8", 1.0, 2.0), entry("acme-sonnet-5", 1.0, 1.0)])
}

fn rec(ts: i64, model: &str, session: &str, project: &str, output: u64, dedupe: Option<&str>) -> UsageRecord {
    UsageRecord {
        timestamp_ms: ts,
        model: model.into(),
        session_id: session.into(),
        project: project.into(),
        totals: TokenTotals { uncached_input: 0, cached_input: 0, cache_creation: 0, output },
        reported_cost_usd: None,
        dedupe_key: dedupe.map(str::to_string),
    }
}

fn day_ab(ms: i64) -> String {
    if ms == 0 { "2026-09-09".into() } else { "2026-09-10".into() }
}

fn run(recs: &[UsageRecord]) -> Analysis {
    let days: Vec<String> = recs.iter().map(|r| day_ab(r.timestamp_ms)).collect();
    analyze(recs, &table(), &days)
}

/// The dollar cost of one turn.
fn turn_cost(turn: &Turn, t: TokenTotals) -> f64 {
    match turn.pricing {
        Pricing::Reported(bits) => f64::from_bits(bits),
        Pricing::Rated(rate) => {
            t.uncached_input as f64 * f64::from_bits(rate.input)
                + t.cached_input as f64 * f64::from_bits(rate.cache_read)
                + t.cache_creation as f64 * f64::from_bits(rate.cache_creation)
                + t.output as f64 * f64::from_bits(rate.output)
        }
        Pricing::Unpriced => 0.0,
    }
}

/// A group's cost: its members' costs summed in input order.
fn cost(a: &Analysis, recs: &[UsageRecord], line: &Line) -> f64 {
    let mut total = 0.0;
    for &i in &line.members {
        total += turn_cost(a.turns[i].as_ref().unwrap(), recs[i].totals);
    }
    total
}

fn row<'a>(rows: &'a [(String, Line)], key: &str) -> &'a Line {
    &rows.iter().find(|(k, _)| k == key).expect("row present").1
}

#[test]
fn folds_every_breakdown_in_one_pass() {
    let recs = [
        rec(0, "acme-opus-4-8", "s1", "/a", 10, Some("x")), // day09 $20
        rec(1, "acme-opus-4-8", "s1", "/a", 5, Some("y")),  // day10 $10
        rec(1, "acme-sonnet-5", "s2", "/b", 100, Some("z")), // day10 $100
    ];
    let a = run(&recs);

    assert!((cost(&a, &recs, &a.overall) - 130.0).abs() < 1e-9);
    assert_eq!(a.overall.totals.output, 115);
    assert!((cost(&a, &recs, row(&a.by_model, "acme-opus-4-8")) - 30.0).abs() < 1e-9);
    assert!((cost(&a, &recs, row(&a.by_day, "2026-09-09")) - 20.0).abs() < 1e-9);
    assert!((cost(&a, &recs, row(&a.by_day, "2026-09-10")) - 110.0).abs() < 1e-9);
    assert!((cost(&a, &recs, row(&a.by_project, "/a")) - 30.0).abs() < 1e-9);
    assert!((cost(&a, &recs, row(&a.by_project, "/b")) - 100.0).abs() < 1e-9);
}

#[test]
fn dedups_globally_and_picks_the_latest_session() {
    let recs = [
        rec(100, "acme-opus-4-8", "old", "/a", 10, Some("dup")),
        rec(200, "acme-opus-4-8", "old", "/a", 10, Some("dup")), // dropped
        rec(300, "acme-sonnet-5", "new", "/a", 1, Some("k")),
    ];
    let a = run(&recs);
    assert_eq!(a.duplicates_dropped, 1);
    assert_eq!(a.overall.records, 2);
    assert_eq!(a.latest_session.as_deref(), Some("new"));
    assert!(a.by_session.iter().any(|(k, _)| k == "new"));
}

#[test]
fn missing_project_falls_under_unknown() {
    let a = run(&[rec(0, "acme-opus-4-8", "s", "", 1, None)]);
    assert!(a.by_project.iter().any(|(k, _)| k == UNKNOWN_PROJECT));
}

#[test]
fn rows_come_in_key_order_with_their_members() {
    let recs = [
        rec(5, "b-model", "", "/p", 1, None),
        rec(6, "a-model", "s", "/q", 2, None),
        rec(7, "b-model", "s", "/p", 3, None),
    ];
    let a = run(&recs);
    let models: Vec<&str> = a.by_model.iter().map(|(k, _)| k.as_str()).collect();
    assert_eq!(models, vec!["a-model", "b-model"]);
    assert_eq!(row(&a.by_model, "b-model").members, vec![0, 2]);
    assert_eq!(row(&a.by_model, "b-model").totals.output, 4);
    assert_eq!(row(&a.by_model, "b-model").records, 2);
    // Neither model has a rate: both turns are unpriced.
    assert_eq!(a.overall.unpriced_records, 3);
    // The turn without a session is in no session row.
    assert_eq!(a.by_session.len(), 1);
    assert_eq!(row(&a.by_session, "s").members, vec![1, 2]);
    assert_eq!(a.latest_session.as_deref(), Some("s"));
    assert_eq!(a.latest_activity_ms, Some(7));
    assert_eq!(a.duplicates_dropped, 0);
}

#[test]
fn records_without_a_key_are_never_dropped() {
    let recs = [
        rec(1, "acme-opus-4-8", "s", "/a", 1, None),
        rec(1, "acme-opus-4-8", "s", "/a", 1, None),
    ];
    let a = run(&recs);
    assert_eq!(a.overall.records, 2);
    assert_eq!(a.duplicates_dropped, 0);
    assert!(a.turns.iter().all(|t| t.is_some()));
}

#[test]
fn dropped_duplicates_have_no_turn_and_ties_keep_the_first_session() {
    let recs = [
        rec(50, "acme-opus-4-8", "first", "/a", 1, Some("k1")),
        rec(50, "acme-opus-4-8", "second", "/a", 1, Some("k2")),
        rec(99, "acme-opus-4-8", "third", "/a", 1, Some("k1")),
    ];
    let a = run(&recs);
    assert!(a.turns[2].is_none());
    assert_eq!(a.latest_session.as_deref(), Some("first"));
    assert_eq!(a.latest_activity_ms, Some(50));
}

#[test]
fn latest_activity_counts_every_turn_but_the_session_needs_an_id() {
    let a = run(&[rec(10, "acme-opus-4-8", "", "/a", 1, None)]);
    assert_eq!(a.latest_session, None);
    assert_eq!(a.latest_activity_ms, Some(10));
    let b = run(&[rec(5, "acme-opus-4-8", "s", "/a", 1, None), rec(9, "acme-opus-4-8", "", "/a", 1, None)]);
    assert_eq!(b.latest_session.as_deref(), Some("s"));
    assert_eq!(b.latest_activity_ms, Some(9));
    let empty = run(&[]);
    assert_eq!(empty.overall.records, 0);
    assert_eq!(empty.latest_activity_ms, None);
    assert!(empty.by_day.is_empty());
}

#[test]
fn every_breakdown_accounts_for_every_surviving_turn() {
    let recs = [
        rec(0, "m1", "s1", "", 1, Some("a")),
        rec(1, "m2", "", "/x", 2, Some("b")),
        rec(2, "m1", "s2", "/x", 3, Some("a")),
        rec(3, "m3", "s1", "/y", 4, None),
    ];
    let a = run(&recs);
    let total = |rows: &[(String, Line)]| rows.iter().map(|(_, l)| l.records).sum::<u64>();
    assert_eq!(a.overall.records + a.duplicates_dropped, 4);
    assert_eq!(total(&a.by_model), a.overall.records);
    assert_eq!(total(&a.by_day), a.overall.records);
    assert_eq!(total(&a.by_project), a.overall.records);
    assert_eq!(total(&a.by_session), 2);
}

#[test]
fn days_form_a_date_ordered_series() {
    let recs = [
        rec(1, "acme-opus-4-8", "s", "/a", 1, None), // 2026-09-10
        rec(0, "acme-opus-4-8", "s", "/b", 2, None), // 2026-09-09
        rec(1, "acme-opus-4-8", "t", "/a", 3, None), // 2026-09-10
    ];
    let a = run(&recs);
    let days: Vec<&str> = a.by_day.iter().map(|(k, _)| k.as_str()).collect();
    assert_eq!(days, vec!["2026-09-09", "2026-09-10"]);
    assert_eq!(a.by_day[0].1.members, vec![1]);
    assert_eq!(a.by_day[1].1.members, vec![0, 2]);
    let projects: Vec<&str> = a.by_project.iter().map(|(k, _)| k.as_str()).collect();
    assert_eq!(projects, vec!["/a", "/b"]);
    let sessions: Vec<&str> = a.by_session.iter().map(|(k, _)| k.as_str()).collect();
    assert_eq!(sessions, vec!["s", "t"]);
}

#[test]
fn keys_order_by_code_point_and_prefixes_first() {
    let recs = [
        rec(1, "ab", "", "/a", 1, None),
        rec(1, "a", "", "/a", 1, None),
        rec(1, "B", "", "/a", 1, None),
        rec(1, "é", "", "/a", 1, None),
        rec(1, "b", "", "/a", 1, None),
    ];
    let a = run(&recs);
    let models: Vec<&str> = a.by_model.iter().map(|(k, _)| k.as_str()).collect();
    assert_eq!(models, vec!["B", "a", "ab", "b", "é"]);
}

#[test]
fn a_session_at_the_earliest_timestamp_is_still_the_latest_session() {
    let a = run(&[rec(i64::MIN, "acme-opus-4-8", "only", "/a", 1, Some("k"))]);
    assert_eq!(a.latest_session.as_deref(), Some("only"));
    assert_eq!(a.latest_activity_ms, Some(i64::MIN));
}

#[test]
fn reading_the_same_records_twice_changes_nothing_but_the_duplicates() {
    let recs = vec![
        rec(0, "acme-opus-4-8", "s1", "/a", 10, Some("x")),
        rec(1, "acme-sonnet-5", "s2", "", 5, Some("y")),
        rec(1, "other", "s1", "/b", 7, Some("z")),
    ];
    let once = run(&recs);
    let mut doubled = recs.clone();
    doubled.extend(recs.iter().cloned());
    let twice = run(&doubled);
    assert_eq!(once.duplicates_dropped, 0);
    assert_eq!(twice.duplicates_dropped, 3);
    assert_eq!(twice.overall.records, once.overall.records);
    assert_eq!(twice.overall.totals, once.overall.totals);
    assert_eq!(twice.overall.members, once.overall.members);
    for (r1, r2) in [
        (&once.by_model, &twice.by_model),
        (&once.by_day, &twice.by_day),
        (&once.by_project, &twice.by_project),
        (&once.by_session, &twice.by_session),
    ] {
        assert_eq!(r1.len(), r2.len());
        for (a, b) in r1.iter().zip(r2.iter()) {
            assert_eq!(a.0, b.0);
            assert_eq!(a.1.members, b.1.members);
            assert_eq!(a.1.records, b.1.records);
            assert_eq!(a.1.unpriced_records, b.1.unpriced_records);
            assert_eq!(a.1.totals, b.1.totals);
        }
    }
    assert_eq!(twice.latest_session, once.latest_session);
    assert_eq!(twice.latest_activity_ms, once.latest_activity_ms);
}

#[test]
fn the_overflow_check_counts_only_surviving_turns() {
    let big = rec(0, "m", "s", "/a", u64::MAX, Some("k"));
    let copy = rec(1, "m", "s", "/a", u64::MAX, Some("k"));
    assert!(kept_totals_within_u64(&[big.clone(), copy]));
    assert_eq!(survivors(&[big.clone(), rec(1, "m", "s", "/a", 1, Some("k")), rec(2, "m", "", "", 1, None)]), vec![true, false, true]);
    let other = rec(1, "m", "s", "/a", 1, Some("other"));
    assert!(!kept_totals_within_u64(&[big, other]));
    assert!(kept_totals_within_u64(&[]));
}
