use cusage::dashboard::{in_range, App, Key, Outcome, Range, Tab, DAY_MS};
use cusage::record::{TokenTotals, UsageRecord};
use cusage::prices::PriceSource;

#[test]
fn tab_stepping_wraps_both_ways() {
    assert_eq!(Tab::Overview.step(-1), Tab::Session);
    assert_eq!(Tab::Session.step(1), Tab::Overview);
}

#[test]
fn switching_tab_needs_no_recompute_but_changing_range_does() {
    let mut app = App::new(PriceSource::Bundled, "UTC".into());
    assert_eq!(app.on_key(Key::NextTab), Outcome::Redraw);
    assert_eq!(app.tab, Tab::Model);
    assert_eq!(app.on_key(Key::Range(Range::Week)), Outcome::Recompute);
    assert_eq!(app.on_key(Key::Range(Range::Week)), Outcome::Redraw); // unchanged
    assert_eq!(app.on_key(Key::Quit), Outcome::Quit);
}

#[test]
fn range_cutoffs_are_ordered() {
    let now = 1_000 * DAY_MS;
    let sot = now - DAY_MS / 2;
    assert_eq!(Range::All.cutoff_ms(now, sot), i64::MIN);
    assert!(Range::Month.cutoff_ms(now, sot) < Range::Week.cutoff_ms(now, sot));
    assert!(Range::Week.cutoff_ms(now, sot) < Range::Today.cutoff_ms(now, sot));
}

#[test]
fn stepping_forward_then_back_returns_to_each_tab() {
    for tab in Tab::ALL {
        assert_eq!(tab.step(1).step(-1), tab);
        assert_eq!(tab.step(-1).step(1), tab);
        assert_eq!(tab.step(4), tab);
        assert_eq!(tab.step(-4), tab);
    }
    assert_eq!(Tab::Model.step(2), Tab::Session);
    assert_eq!(Tab::Overview.step(-6), Tab::Project);
    assert_eq!(Tab::Overview.step(isize::MIN), Tab::Overview);
}

#[test]
fn tab_titles_and_indices() {
    let titles: Vec<&str> = Tab::ALL.iter().map(|t| t.title()).collect();
    assert_eq!(titles, vec!["Overview", "By model", "By project", "Session"]);
    let indices: Vec<usize> = Tab::ALL.iter().map(|t| t.index()).collect();
    assert_eq!(indices, vec![0, 1, 2, 3]);
}

#[test]
fn range_labels_and_exact_cutoffs() {
    assert_eq!(Range::Today.label(), "Today");
    assert_eq!(Range::Week.label(), "7 days");
    assert_eq!(Range::Month.label(), "30 days");
    assert_eq!(Range::All.label(), "All time");
    let now = 2_000_000_000_000;
    assert_eq!(Range::Week.cutoff_ms(now, 5), now - 604_800_000);
    assert_eq!(Range::Month.cutoff_ms(now, 5), now - 2_592_000_000);
    assert_eq!(Range::Today.cutoff_ms(now, 5), 5);
}

#[test]
fn new_app_starts_on_overview_over_all_time() {
    let app = App::new(PriceSource::Cache, "Europe/Lisbon".into());
    assert_eq!(app.tab, Tab::Overview);
    assert_eq!(app.range, Range::All);
    assert_eq!(app.updated_at, "—");
    assert_eq!(app.tz_label, "Europe/Lisbon");
    assert_eq!(app.analysis.overall.records, 0);
    assert!(app.analysis.by_model.is_empty());
}

#[test]
fn keys_move_tabs_and_refresh() {
    let mut app = App::new(PriceSource::Network, "UTC".into());
    assert_eq!(app.on_key(Key::PrevTab), Outcome::Redraw);
    assert_eq!(app.tab, Tab::Session);
    assert_eq!(app.on_key(Key::Refresh), Outcome::Recompute);
    assert_eq!(app.on_key(Key::Other), Outcome::Redraw);
    assert_eq!(app.tab, Tab::Session);
    assert_eq!(app.range, Range::All);
}

fn at(ts: i64) -> UsageRecord {
    UsageRecord {
        timestamp_ms: ts,
        model: "m".into(),
        session_id: "s".into(),
        project: "/p".into(),
        totals: TokenTotals { uncached_input: 0, cached_input: 0, cache_creation: 0, output: 1 },
        reported_cost_usd: None,
        dedupe_key: None,
    }
}

#[test]
fn a_range_keeps_the_records_at_or_after_its_cutoff_in_order() {
    let recs = vec![at(5), at(1), at(3), at(9)];
    let kept: Vec<i64> = in_range(&recs, 3).iter().map(|r| r.timestamp_ms).collect();
    assert_eq!(kept, vec![5, 3, 9]);
    assert_eq!(in_range(&recs, i64::MIN).len(), 4);
    assert!(in_range(&recs, 10).is_empty());
}
