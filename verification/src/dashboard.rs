//! The dashboard's view state and how keystrokes change it.
//!
//! `on_key` only changes the view and reports what the run loop should do
//! next; the loop performs the work.

use vstd::prelude::*;
use crate::analysis::Analysis;
use crate::prices::PriceSource;
use crate::record::UsageRecord;

verus! {

/// Milliseconds in a day, for range cutoffs.
pub const DAY_MS: i64 = 86_400_000;

/// The dashboard's tabs. Overview leads; the rest are breakdowns.
#[derive(Clone, Copy, Debug, PartialEq, Eq, Structural)]
pub enum Tab {
    Overview,
    Model,
    Project,
    Session,
}

/// The position of a tab in the tab bar.
pub open spec fn tab_index(t: Tab) -> int {
    match t {
        Tab::Overview => 0,
        Tab::Model => 1,
        Tab::Project => 2,
        Tab::Session => 3,
    }
}

/// The tab at a position of the tab bar (positions taken modulo four).
pub open spec fn tab_at(i: int) -> Tab {
    let r = i % 4;
    if r == 0 {
        Tab::Overview
    } else if r == 1 {
        Tab::Model
    } else if r == 2 {
        Tab::Project
    } else {
        Tab::Session
    }
}

impl Tab {
    /// Every tab, in tab-bar order.
    pub const ALL: [Tab; 4] = [Tab::Overview, Tab::Model, Tab::Project, Tab::Session];

    /// The tab's title.
    pub fn title(self) -> (s: &'static str)
        ensures
            s@ == (match self {
                Tab::Overview => "Overview"@,
                Tab::Model => "By model"@,
                Tab::Project => "By project"@,
                Tab::Session => "Session"@,
            }),
    {
        match self {
            Tab::Overview => "Overview",
            Tab::Model => "By model",
            Tab::Project => "By project",
            Tab::Session => "Session",
        }
    }

    /// The tab's position in the tab bar.
    pub fn index(self) -> (i: usize)
        ensures
            i == tab_index(self),
    {
        match self {
            Tab::Overview => 0,
            Tab::Model => 1,
            Tab::Project => 2,
            Tab::Session => 3,
        }
    }

    /// The tab `delta` positions away, wrapping around both ends.
    pub fn step(self, delta: isize) -> (t: Tab)
        requires
            tab_index(self) + delta <= isize::MAX,
        ensures
            t == tab_at(tab_index(self) + delta),
    {
        let d = match delta.checked_rem_euclid(4) {
            Some(d) => d,
            None => 0,
        };
        let i = (self.index() + d as usize) % 4;
        assert((tab_index(self) + delta) % 4 == (tab_index(self) + (delta % 4)) % 4) by (nonlinear_arith)
            requires
                0 <= tab_index(self) < 4,
        ;
        match i {
            0 => Tab::Overview,
            1 => Tab::Model,
            2 => Tab::Project,
            _ => Tab::Session,
        }
    }
}

/// Stepping forward and back again, or back and forward again, lands on the
/// tab you started from, and four steps either way go all the way round.
pub proof fn law_tab_stepping_wraps(t: Tab)
    ensures
        tab_at(tab_index(tab_at(tab_index(t) + 1)) - 1) == t,
        tab_at(tab_index(tab_at(tab_index(t) - 1)) + 1) == t,
        tab_at(tab_index(t) + 4) == t,
        tab_at(tab_index(t) - 4) == t,
{
}

/// The time window the figures cover.
#[derive(Clone, Copy, Debug, PartialEq, Eq, Structural)]
pub enum Range {
    Today,
    Week,
    Month,
    All,
}

/// The earliest timestamp a range includes.
pub open spec fn cutoff_spec(r: Range, now_ms: int, start_of_today_ms: int) -> int {
    match r {
        Range::Today => start_of_today_ms,
        Range::Week => now_ms - 7 * DAY_MS,
        Range::Month => now_ms - 30 * DAY_MS,
        Range::All => i64::MIN as int,
    }
}

impl Range {
    /// The range's label.
    pub fn label(self) -> (s: &'static str)
        ensures
            s@ == (match self {
                Range::Today => "Today"@,
                Range::Week => "7 days"@,
                Range::Month => "30 days"@,
                Range::All => "All time"@,
            }),
    {
        match self {
            Range::Today => "Today",
            Range::Week => "7 days",
            Range::Month => "30 days",
            Range::All => "All time",
        }
    }

    /// The earliest timestamp (Unix ms) inside this range; the start of today
    /// is supplied because it depends on the time zone.
    pub fn cutoff_ms(self, now_ms: i64, start_of_today_ms: i64) -> (c: i64)
        requires
            cutoff_spec(self, now_ms as int, start_of_today_ms as int) >= i64::MIN,
        ensures
            c == cutoff_spec(self, now_ms as int, start_of_today_ms as int),
    {
        match self {
            Range::Today => start_of_today_ms,
            Range::Week => now_ms - 7 * DAY_MS,
            Range::Month => now_ms - 30 * DAY_MS,
            Range::All => i64::MIN,
        }
    }
}

/// The ranges nest: all time reaches back at least as far as thirty days,
/// which reaches back further than seven, which reaches back further than
/// today whenever today began less than seven days ago.
pub proof fn law_range_cutoffs_ordered(now_ms: int, start_of_today_ms: int)
    requires
        now_ms - 30 * DAY_MS >= i64::MIN,
    ensures
        cutoff_spec(Range::All, now_ms, start_of_today_ms) <= cutoff_spec(Range::Month, now_ms, start_of_today_ms),
        cutoff_spec(Range::Month, now_ms, start_of_today_ms) < cutoff_spec(Range::Week, now_ms, start_of_today_ms),
        start_of_today_ms > now_ms - 7 * DAY_MS ==> cutoff_spec(Range::Week, now_ms, start_of_today_ms)
            < cutoff_spec(Range::Today, now_ms, start_of_today_ms),
{
}

/// Each range starts where its name says: today at the local midnight the
/// caller supplies, the week and the month exactly 7 and 30 days of
/// milliseconds before now, and all time at the earliest representable
/// instant.
pub proof fn law_range_cutoffs_exact(now_ms: int, start_of_today_ms: int)
    ensures
        cutoff_spec(Range::Today, now_ms, start_of_today_ms) == start_of_today_ms,
        cutoff_spec(Range::Week, now_ms, start_of_today_ms) == now_ms - 604_800_000,
        cutoff_spec(Range::Month, now_ms, start_of_today_ms) == now_ms - 2_592_000_000,
        cutoff_spec(Range::All, now_ms, start_of_today_ms) == -9_223_372_036_854_775_808int,
{
}

/// What a keystroke asks the run loop to do next.
#[derive(Clone, Copy, Debug, PartialEq, Eq, Structural)]
pub enum Outcome {
    /// Nothing further; just redraw.
    Redraw,
    /// The window changed; fold the records again.
    Recompute,
    /// Leave.
    Quit,
}

/// A logical key, decoupled from the terminal library.
#[derive(Clone, Copy, Debug, PartialEq, Eq, Structural)]
pub enum Key {
    Quit,
    NextTab,
    PrevTab,
    Range(Range),
    Refresh,
    Other,
}

/// The dashboard's mutable view state.
pub struct App {
    pub analysis: Analysis,
    pub source: PriceSource,
    pub tab: Tab,
    pub range: Range,
    pub tz_label: String,
    /// Wall-clock time of the last refresh, `HH:MM:SS`.
    pub updated_at: String,
}

impl App {
    /// A dashboard on the overview tab over all time, with no data yet.
    pub fn new(source: PriceSource, tz_label: String) -> (app: App)
        ensures
            app.source == source,
            app.tz_label == tz_label,
            app.tab == Tab::Overview,
            app.range == Range::All,
            app.updated_at@ == "—"@,
            forall|tm: Map<Seq<char>, crate::pricing::ModelRate>| crate::analysis::analysis_matches(
                app.analysis,
                tm,
                Seq::empty(),
                Seq::empty(),
            ),
    {
        let a = Analysis::empty();
        App {
            analysis: a,
            source,
            tab: Tab::Overview,
            range: Range::All,
            tz_label,
            updated_at: String::from_str("—"),
        }
    }

    /// Applies a key and reports what the run loop should do.
    pub fn on_key(&mut self, key: Key) -> (o: Outcome)
        ensures
            final(self).source == old(self).source,
            final(self).tz_label == old(self).tz_label,
            final(self).updated_at == old(self).updated_at,
            final(self).analysis == old(self).analysis,
            match key {
                Key::Quit => o == Outcome::Quit && final(self).tab == old(self).tab
                    && final(self).range == old(self).range,
                Key::NextTab => o == Outcome::Redraw && final(self).tab == tab_at(tab_index(old(self).tab) + 1)
                    && final(self).range == old(self).range,
                Key::PrevTab => o == Outcome::Redraw && final(self).tab == tab_at(tab_index(old(self).tab) - 1)
                    && final(self).range == old(self).range,
                Key::Range(r) => final(self).range == r && final(self).tab == old(self).tab && o == (if r
                    == old(self).range {
                    Outcome::Redraw
                } else {
                    Outcome::Recompute
                }),
                Key::Refresh => o == Outcome::Recompute && final(self).tab == old(self).tab
                    && final(self).range == old(self).range,
                Key::Other => o == Outcome::Redraw && final(self).tab == old(self).tab
                    && final(self).range == old(self).range,
            },
    {
        match key {
            Key::Quit => Outcome::Quit,
            Key::NextTab => {
                self.tab = self.tab.step(1);
                Outcome::Redraw
            },
            Key::PrevTab => {
                self.tab = self.tab.step(-1);
                Outcome::Redraw
            },
            Key::Range(range) => {
                if self.range == range {
                    Outcome::Redraw
                } else {
                    self.range = range;
                    Outcome::Recompute
                }
            },
            Key::Refresh => Outcome::Recompute,
            Key::Other => Outcome::Redraw,
        }
    }
}

/// The records at or after `cutoff` (a range's start), in their order.
pub fn in_range(records: &[UsageRecord], cutoff: i64) -> (r: Vec<UsageRecord>)
    ensures
        r@ == records@.filter(|x: UsageRecord| x.timestamp_ms >= cutoff),
{
    let mut out: Vec<UsageRecord> = Vec::new();
    let mut i: usize = 0;
    while i < records.len()
        invariant
            i <= records@.len(),
            out@ == records@.take(i as int).filter(|x: UsageRecord| x.timestamp_ms >= cutoff),
        decreases records@.len() - i,
    {
        let ghost pred = |x: UsageRecord| x.timestamp_ms >= cutoff;
        proof {
            let prev = records@.take(i as int);
            assert(records@.take(i + 1) =~= prev.push(records@[i as int]));
            prev.lemma_filter_push(records@[i as int], pred);
        }
        if records[i].timestamp_ms >= cutoff {
            out.push(records[i].copied());
        }
        i = i + 1;
    }
    assert(records@.take(records@.len() as int) =~= records@);
    out
}

} // verus!
