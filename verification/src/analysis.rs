//! The one fold: a sequence of records -> every breakdown the dashboard shows.
//!
//! De-duplication is global and happens exactly once here: the same dedupe key
//! can legitimately appear in several transcripts (resumed or forked
//! sessions) and only its first sighting counts. Each surviving turn is priced
//! once and added into every breakdown.
//!
//! The day a turn belongs to depends on a time zone, which the core does not
//! read: the caller passes each record's day key alongside the records.
//! Dollar figures are left to the caller, who sums the costs of each group's
//! member turns (in order) from the turn's [`Turn`] decision.

use vstd::prelude::*;
use crate::pricing::{
    lookup_rate, lookup_spec, pricing_for, pricing_spec, ModelRate, Pricing, RateTable,
};
use crate::order::{ascending, chars_lt, entry_keys, lemma_sorted_keys, sort_by_key, sorted_keys};
use crate::record::{TokenTotals, UsageRecord};
use crate::strmap::StrMap;

verus! {

/// The label used for turns whose working directory the transcript omitted.
pub const UNKNOWN_PROJECT: &'static str = "(unknown)";

/// How one surviving turn is priced, and the rate its cache savings use.
#[derive(Clone, Copy, Debug, PartialEq, Eq, Structural)]
pub struct Turn {
    pub pricing: Pricing,
    /// The matched rate, if any: cache savings are `cached_input × (input −
    /// cache_read)` at this rate, and zero without one.
    pub savings_rate: Option<ModelRate>,
}

/// Accumulated usage for one group (overall, a model, a day, a project, ...).
#[derive(Clone, Debug)]
pub struct Line {
    pub totals: TokenTotals,
    pub records: u64,
    /// Turns that matched no rate.
    pub unpriced_records: u64,
    /// The positions, in the input, of the turns folded into this group, in
    /// input order.
    pub members: Vec<usize>,
}

/// Every breakdown the dashboard renders, derived in one pass.
#[derive(Clone, Debug)]
pub struct Analysis {
    /// Headline figures across the whole window.
    pub overall: Line,
    /// Per-model rows, keyed by model id, in ascending key order.
    pub by_model: Vec<(String, Line)>,
    /// Per-day rows in date order (ascending `YYYY-MM-DD` keys): the trend
    /// series.
    pub by_day: Vec<(String, Line)>,
    /// Per-project rows, keyed by working directory, in ascending key order.
    pub by_project: Vec<(String, Line)>,
    /// Per-session rows, keyed by session id, in ascending key order.
    pub by_session: Vec<(String, Line)>,
    /// The session with the most recent turn; `None` when no turn carried a
    /// session id.
    pub latest_session: Option<String>,
    /// Timestamp (Unix ms) of the most recent turn overall, if any.
    pub latest_activity_ms: Option<i64>,
    /// Turns skipped because an earlier turn shared their dedupe key.
    pub duplicates_dropped: u64,
    /// For each input record: how it is priced when it survived
    /// de-duplication, `None` when it was dropped.
    pub turns: Vec<Option<Turn>>,
}

/// The breakdowns keyed by a string.
#[derive(Clone, Copy, Debug, PartialEq, Eq, Structural)]
pub enum Breakdown {
    Model,
    Day,
    Project,
    Session,
}

/// The dedupe key of a record, as characters.
pub open spec fn key_of(r: UsageRecord) -> Option<Seq<char>> {
    match r.dedupe_key {
        Some(k) => Some(k@),
        None => None,
    }
}

/// Whether record `i` survives de-duplication: it has no key, or no earlier
/// record has its key.
pub open spec fn is_kept(recs: Seq<UsageRecord>, i: int) -> bool {
    match key_of(recs[i]) {
        None => true,
        Some(k) => forall|j: int| 0 <= j < i ==> #[trigger] key_of(recs[j]) != Some(k),
    }
}

/// The project a record is grouped under.
pub open spec fn project_key(r: UsageRecord) -> Seq<char> {
    if r.project@.len() == 0 {
        UNKNOWN_PROJECT@
    } else {
        r.project@
    }
}

/// The key of record `i` in a breakdown (`None`: not in that breakdown).
pub open spec fn group_key(
    recs: Seq<UsageRecord>,
    days: Seq<Seq<char>>,
    kind: Breakdown,
    i: int,
) -> Option<Seq<char>> {
    match kind {
        Breakdown::Model => Some(recs[i].model@),
        Breakdown::Day => Some(days[i]),
        Breakdown::Project => Some(project_key(recs[i])),
        Breakdown::Session => if recs[i].session_id@.len() == 0 {
            None
        } else {
            Some(recs[i].session_id@)
        },
    }
}

/// Positions `< n` of the surviving records, in order.
pub open spec fn kept_members(recs: Seq<UsageRecord>, n: int) -> Seq<int>
    decreases n,
{
    if n <= 0 {
        Seq::empty()
    } else if is_kept(recs, n - 1) {
        kept_members(recs, n - 1).push(n - 1)
    } else {
        kept_members(recs, n - 1)
    }
}

/// Positions `< n` of the surviving records with key `k` in breakdown `kind`.
pub open spec fn members(
    recs: Seq<UsageRecord>,
    days: Seq<Seq<char>>,
    kind: Breakdown,
    n: int,
    k: Seq<char>,
) -> Seq<int>
    decreases n,
{
    if n <= 0 {
        Seq::empty()
    } else if is_kept(recs, n - 1) && group_key(recs, days, kind, n - 1) == Some(k) {
        members(recs, days, kind, n - 1, k).push(n - 1)
    } else {
        members(recs, days, kind, n - 1, k)
    }
}

/// The distinct keys of breakdown `kind` among surviving records `< n`, in
/// order of first appearance.
pub open spec fn group_keys(
    recs: Seq<UsageRecord>,
    days: Seq<Seq<char>>,
    kind: Breakdown,
    n: int,
) -> Seq<Seq<char>>
    decreases n,
{
    if n <= 0 {
        Seq::empty()
    } else {
        let prev = group_keys(recs, days, kind, n - 1);
        match group_key(recs, days, kind, n - 1) {
            Some(k) => if is_kept(recs, n - 1) && !prev.contains(k) {
                prev.push(k)
            } else {
                prev
            },
            None => prev,
        }
    }
}

/// Token class `f` (0: uncached input, 1: cached input, 2: cache creation,
/// 3: output) of `t`.
pub open spec fn field_of(t: TokenTotals, f: int) -> int {
    if f == 0 {
        t.uncached_input as int
    } else if f == 1 {
        t.cached_input as int
    } else if f == 2 {
        t.cache_creation as int
    } else {
        t.output as int
    }
}

/// The sum of token class `f` over the records at positions `ms`.
pub open spec fn sum_field(recs: Seq<UsageRecord>, ms: Seq<int>, f: int) -> int
    decreases ms.len(),
{
    if ms.len() == 0 {
        0
    } else {
        sum_field(recs, ms.drop_last(), f) + field_of(recs[ms.last()].totals, f)
    }
}

/// Whether record `r` matched no rate.
pub open spec fn is_unpriced(table: Map<Seq<char>, ModelRate>, r: UsageRecord) -> bool {
    pricing_spec(table, r.model@, r.reported_cost_usd) is Unpriced
}

/// How many records at positions `ms` matched no rate.
pub open spec fn count_unpriced(table: Map<Seq<char>, ModelRate>, recs: Seq<UsageRecord>, ms: Seq<int>) -> int
    decreases ms.len(),
{
    if ms.len() == 0 {
        0
    } else {
        count_unpriced(table, recs, ms.drop_last()) + if is_unpriced(table, recs[ms.last()]) {
            1int
        } else {
            0int
        }
    }
}

/// The pricing decision for one surviving record.
pub open spec fn turn_spec(table: Map<Seq<char>, ModelRate>, r: UsageRecord) -> Turn {
    Turn {
        pricing: pricing_spec(table, r.model@, r.reported_cost_usd),
        savings_rate: lookup_spec(table, r.model@),
    }
}

/// Whether `line` is the accumulation of the records at positions `ms`.
pub open spec fn line_matches(
    line: Line,
    table: Map<Seq<char>, ModelRate>,
    recs: Seq<UsageRecord>,
    ms: Seq<int>,
) -> bool {
    &&& line.members@.len() == ms.len()
    &&& forall|t: int| 0 <= t < ms.len() ==> line.members@[t] as int == #[trigger] ms[t]
    &&& line.records == ms.len()
    &&& line.unpriced_records == count_unpriced(table, recs, ms)
    &&& line.totals.uncached_input == sum_field(recs, ms, 0)
    &&& line.totals.cached_input == sum_field(recs, ms, 1)
    &&& line.totals.cache_creation == sum_field(recs, ms, 2)
    &&& line.totals.output == sum_field(recs, ms, 3)
}

/// Whether `rows` is breakdown `kind` over the first `n` records: one row
/// per key, in ascending key order.
pub open spec fn rows_match(
    rows: Seq<(String, Line)>,
    table: Map<Seq<char>, ModelRate>,
    recs: Seq<UsageRecord>,
    days: Seq<Seq<char>>,
    kind: Breakdown,
    n: int,
) -> bool {
    let ks = sorted_keys(group_keys(recs, days, kind, n));
    &&& rows.len() == ks.len()
    &&& forall|t: int| 0 <= t < ks.len() ==> (#[trigger] rows[t]).0@ == ks[t] && line_matches(
        rows[t].1,
        table,
        recs,
        members(recs, days, kind, n, ks[t]),
    )
}

/// The most recent surviving turn with a session among the first `n`: its
/// timestamp and session, `None` when no such turn exists. Of several turns
/// at the latest timestamp, the first one counts.
pub open spec fn latest_spec(recs: Seq<UsageRecord>, n: int) -> Option<(i64, Seq<char>)>
    decreases n,
{
    if n <= 0 {
        None
    } else {
        let prev = latest_spec(recs, n - 1);
        let r = recs[n - 1];
        let newer = match prev {
            Some(p) => r.timestamp_ms > p.0,
            None => true,
        };
        if is_kept(recs, n - 1) && r.session_id@.len() > 0 && newer {
            Some((r.timestamp_ms, r.session_id@))
        } else {
            prev
        }
    }
}

/// The latest timestamp of the surviving records `< n`, if there is one.
pub open spec fn latest_turn_spec(recs: Seq<UsageRecord>, n: int) -> Option<i64>
    decreases n,
{
    if n <= 0 {
        None
    } else {
        let prev = latest_turn_spec(recs, n - 1);
        if is_kept(recs, n - 1) {
            match prev {
                Some(t) => if recs[n - 1].timestamp_ms > t { Some(recs[n - 1].timestamp_ms) } else { prev },
                None => Some(recs[n - 1].timestamp_ms),
            }
        } else {
            prev
        }
    }
}

/// Whether every token class summed over the surviving records fits in `u64`.
pub open spec fn kept_totals_fit(recs: Seq<UsageRecord>) -> bool {
    forall|f: int| 0 <= f < 4 ==> #[trigger] sum_field(recs, kept_members(recs, recs.len() as int), f) <= u64::MAX
}

/// What the fold yields for records `recs`, rates `tm` and days `ds`.
pub open spec fn analysis_matches(
    a: Analysis,
    tm: Map<Seq<char>, ModelRate>,
    recs: Seq<UsageRecord>,
    ds: Seq<Seq<char>>,
) -> bool {
    let n = recs.len() as int;
    &&& line_matches(a.overall, tm, recs, kept_members(recs, n))
    &&& rows_match(a.by_model@, tm, recs, ds, Breakdown::Model, n)
    &&& rows_match(a.by_day@, tm, recs, ds, Breakdown::Day, n)
    &&& rows_match(a.by_project@, tm, recs, ds, Breakdown::Project, n)
    &&& rows_match(a.by_session@, tm, recs, ds, Breakdown::Session, n)
    &&& a.duplicates_dropped == n - kept_members(recs, n).len()
    &&& (match a.latest_session {
        Some(s) => latest_spec(recs, n) matches Some(p) && p.1 == s@,
        None => latest_spec(recs, n) is None,
    })
    &&& a.latest_activity_ms == latest_turn_spec(recs, n)
    &&& a.turns@.len() == n
    &&& forall|i: int| 0 <= i < n ==> #[trigger] a.turns@[i] == (if is_kept(recs, i) {
        Some(turn_spec(tm, recs[i]))
    } else {
        None
    })
}

impl Analysis {
    /// The analysis of no records at all.
    pub fn empty() -> (a: Analysis)
        ensures
            forall|tm: Map<Seq<char>, ModelRate>| analysis_matches(a, tm, Seq::empty(), Seq::empty()),
    {
        let a = Analysis {
            overall: empty_line(),
            by_model: Vec::new(),
            by_day: Vec::new(),
            by_project: Vec::new(),
            by_session: Vec::new(),
            latest_session: None,
            latest_activity_ms: None,
            duplicates_dropped: 0,
            turns: Vec::new(),
        };
        assert forall|tm: Map<Seq<char>, ModelRate>| analysis_matches(a, tm, Seq::empty(), Seq::empty()) by {
            assert(kept_members(Seq::<UsageRecord>::empty(), 0) =~= Seq::<int>::empty());
            assert(a.overall.members@ =~= Seq::<usize>::empty());
        }
        a
    }
}

/// Whether the map of rows is breakdown `kind` over the first `n` records.
pub open spec fn map_matches(
    rows: StrMap<Line>,
    table: Map<Seq<char>, ModelRate>,
    recs: Seq<UsageRecord>,
    days: Seq<Seq<char>>,
    kind: Breakdown,
    n: int,
) -> bool {
    &&& rows.wf()
    &&& rows.keys_view() == group_keys(recs, days, kind, n)
    &&& forall|t: int| 0 <= t < rows.keys_view().len() ==> line_matches(
        #[trigger] rows.vals_view()[t],
        table,
        recs,
        members(recs, days, kind, n, rows.keys_view()[t]),
    )
}

proof fn lemma_count_unpriced_bounds(table: Map<Seq<char>, ModelRate>, recs: Seq<UsageRecord>, ms: Seq<int>)
    ensures
        0 <= count_unpriced(table, recs, ms) <= ms.len(),
    decreases ms.len(),
{
    if ms.len() > 0 {
        lemma_count_unpriced_bounds(table, recs, ms.drop_last());
    }
}

proof fn lemma_members_len(recs: Seq<UsageRecord>, days: Seq<Seq<char>>, kind: Breakdown, n: int, k: Seq<char>)
    requires
        n >= 0,
    ensures
        members(recs, days, kind, n, k).len() <= n,
        kept_members(recs, n).len() <= n,
    decreases n,
{
    if n > 0 {
        lemma_members_len(recs, days, kind, n - 1, k);
    }
}

proof fn lemma_group_le_kept(recs: Seq<UsageRecord>, days: Seq<Seq<char>>, kind: Breakdown, n: int, k: Seq<char>, f: int)
    requires
        n >= 0,
    ensures
        sum_field(recs, members(recs, days, kind, n, k), f) <= sum_field(recs, kept_members(recs, n), f),
    decreases n,
{
    if n > 0 {
        lemma_group_le_kept(recs, days, kind, n - 1, k, f);
        let m0 = members(recs, days, kind, n - 1, k);
        let k0 = kept_members(recs, n - 1);
        if is_kept(recs, n - 1) {
            assert(kept_members(recs, n).drop_last() =~= k0);
            if group_key(recs, days, kind, n - 1) == Some(k) {
                assert(members(recs, days, kind, n, k).drop_last() =~= m0);
            } else {
                assert(field_of(recs[n - 1].totals, f) >= 0);
            }
        }
    }
}

proof fn lemma_kept_mono(recs: Seq<UsageRecord>, n1: int, n2: int, f: int)
    requires
        0 <= n1 <= n2,
    ensures
        sum_field(recs, kept_members(recs, n1), f) <= sum_field(recs, kept_members(recs, n2), f),
    decreases n2,
{
    if n1 < n2 {
        lemma_kept_mono(recs, n1, n2 - 1, f);
        if is_kept(recs, n2 - 1) {
            assert(kept_members(recs, n2).drop_last() =~= kept_members(recs, n2 - 1));
            assert(field_of(recs[n2 - 1].totals, f) >= 0);
        }
    }
}

proof fn lemma_absent_key_has_no_members(
    recs: Seq<UsageRecord>,
    days: Seq<Seq<char>>,
    kind: Breakdown,
    n: int,
    k: Seq<char>,
)
    requires
        n >= 0,
        !group_keys(recs, days, kind, n).contains(k),
    ensures
        members(recs, days, kind, n, k) == Seq::<int>::empty(),
    decreases n,
{
    if n > 0 {
        let prev = group_keys(recs, days, kind, n - 1);
        if prev.contains(k) {
            let t = choose|t: int| 0 <= t < prev.len() && prev[t] == k;
            assert(group_keys(recs, days, kind, n)[t] == k);
        }
        lemma_absent_key_has_no_members(recs, days, kind, n - 1, k);
        if is_kept(recs, n - 1) && group_key(recs, days, kind, n - 1) == Some(k) {
            let g = group_keys(recs, days, kind, n);
            assert(g[g.len() - 1] == k);
        }
    }
}

/// Sums of token class `f` over any group of surviving records fit in `u64`.
proof fn lemma_group_fits(recs: Seq<UsageRecord>, days: Seq<Seq<char>>, kind: Breakdown, n: int, k: Seq<char>)
    requires
        0 <= n <= recs.len(),
        kept_totals_fit(recs),
    ensures
        forall|f: int| 0 <= f < 4 ==> #[trigger] sum_field(recs, members(recs, days, kind, n, k), f) <= u64::MAX,
        forall|f: int| 0 <= f < 4 ==> #[trigger] sum_field(recs, kept_members(recs, n), f) <= u64::MAX,
{
    assert forall|f: int| 0 <= f < 4 implies #[trigger] sum_field(recs, members(recs, days, kind, n, k), f) <= u64::MAX by {
        lemma_group_le_kept(recs, days, kind, n, k, f);
        lemma_kept_mono(recs, n, recs.len() as int, f);
        assert(sum_field(recs, kept_members(recs, recs.len() as int), f) <= u64::MAX);
    }
    assert forall|f: int| 0 <= f < 4 implies #[trigger] sum_field(recs, kept_members(recs, n), f) <= u64::MAX by {
        lemma_kept_mono(recs, n, recs.len() as int, f);
        assert(sum_field(recs, kept_members(recs, recs.len() as int), f) <= u64::MAX);
    }
}

fn empty_line() -> (l: Line)
    ensures
        l.members@ == Seq::<usize>::empty(),
        l.records == 0,
        l.unpriced_records == 0,
        l.totals == crate::record::zero_totals(),
{
    Line {
        totals: TokenTotals { uncached_input: 0, cached_input: 0, cache_creation: 0, output: 0 },
        records: 0,
        unpriced_records: 0,
        members: Vec::new(),
    }
}

/// Folds record `i` into `line`, which holds the group's members `ms`.
fn absorb(
    line: &mut Line,
    Ghost(table): Ghost<Map<Seq<char>, ModelRate>>,
    recs: &[UsageRecord],
    Ghost(ms): Ghost<Seq<int>>,
    i: usize,
    unpriced: bool,
)
    requires
        i < recs@.len(),
        line_matches(*old(line), table, recs@, ms),
        unpriced == is_unpriced(table, recs@[i as int]),
        forall|f: int| 0 <= f < 4 ==> #[trigger] sum_field(recs@, ms.push(i as int), f) <= u64::MAX,
        ms.len() < recs@.len(),
    ensures
        line_matches(*final(line), table, recs@, ms.push(i as int)),
{
    let ghost ms2 = ms.push(i as int);
    assert(ms2.drop_last() =~= ms);
    assert(sum_field(recs@, ms2, 0) <= u64::MAX);
    assert(sum_field(recs@, ms2, 1) <= u64::MAX);
    assert(sum_field(recs@, ms2, 2) <= u64::MAX);
    assert(sum_field(recs@, ms2, 3) <= u64::MAX);
    proof {
        lemma_count_unpriced_bounds(table, recs@, ms);
    }
    let t = recs[i].totals;
    line.totals = line.totals.add(t);
    line.records = line.records + 1;
    if unpriced {
        line.unpriced_records = line.unpriced_records + 1;
    }
    line.members.push(i);
    assert forall|q: int| 0 <= q < ms2.len() implies line.members@[q] as int == #[trigger] ms2[q] by {
        if q < ms.len() {
            assert(ms2[q] == ms[q]);
        }
    }
}

/// Folds record `i` into breakdown `rows` under `key`.
fn fold_into(
    rows: &mut StrMap<Line>,
    Ghost(table): Ghost<Map<Seq<char>, ModelRate>>,
    recs: &[UsageRecord],
    Ghost(days): Ghost<Seq<Seq<char>>>,
    Ghost(kind): Ghost<Breakdown>,
    i: usize,
    key: Option<String>,
    unpriced: bool,
)
    requires
        i < recs@.len(),
        map_matches(*old(rows), table, recs@, days, kind, i as int),
        is_kept(recs@, i as int),
        (match key {
            Some(k) => Some(k@),
            None => None,
        }) == group_key(recs@, days, kind, i as int),
        unpriced == is_unpriced(table, recs@[i as int]),
        kept_totals_fit(recs@),
    ensures
        map_matches(*final(rows), table, recs@, days, kind, i + 1),
{
    let ghost n = i as int;
    let ghost old_rows = *rows;
    match key {
        None => {
            assert(group_keys(recs@, days, kind, n + 1) =~= group_keys(recs@, days, kind, n));
            assert forall|t: int| 0 <= t < rows.keys_view().len() implies line_matches(
                #[trigger] rows.vals_view()[t],
                table,
                recs@,
                members(recs@, days, kind, n + 1, rows.keys_view()[t]),
            ) by {
                assert(members(recs@, days, kind, n + 1, rows.keys_view()[t]) == members(
                    recs@,
                    days,
                    kind,
                    n,
                    rows.keys_view()[t],
                ));
            }
        },
        Some(k) => {
            let ghost kv = k@;
            proof {
                lemma_group_fits(recs@, days, kind, n + 1, kv);
                lemma_members_len(recs@, days, kind, n, kv);
                assert(members(recs@, days, kind, n + 1, kv) == members(recs@, days, kind, n, kv).push(n));
            }
            match rows.index_of(&k) {
                Some(t) => {
                    let mut line = rows.swap_value(t, empty_line());
                    absorb(&mut line, Ghost(table), recs, Ghost(members(recs@, days, kind, n, kv)), i, unpriced);
                    rows.set_value(t, line);
                    proof {
                        assert(group_keys(recs@, days, kind, n).contains(kv));
                        assert(group_keys(recs@, days, kind, n + 1) =~= group_keys(recs@, days, kind, n));
                        old_rows.lemma_wf_facts();
                        assert forall|q: int| 0 <= q < rows.keys_view().len() implies line_matches(
                            #[trigger] rows.vals_view()[q],
                            table,
                            recs@,
                            members(recs@, days, kind, n + 1, rows.keys_view()[q]),
                        ) by {
                            if q != t {
                                assert(rows.keys_view()[q] != kv);
                                assert(rows.vals_view()[q] == old_rows.vals_view()[q]);
                            }
                        }
                    }
                },
                None => {
                    let mut line = empty_line();
                    proof {
                        assert(!group_keys(recs@, days, kind, n).contains(kv));
                        lemma_absent_key_has_no_members(recs@, days, kind, n, kv);
                        assert(members(recs@, days, kind, n + 1, kv) =~= Seq::<int>::empty().push(n));
                        assert(line_matches(line, table, recs@, Seq::<int>::empty()));
                    }
                    absorb(&mut line, Ghost(table), recs, Ghost(Seq::<int>::empty()), i, unpriced);
                    rows.push_new(k, line);
                    proof {
                        old_rows.lemma_wf_facts();
                        assert(group_keys(recs@, days, kind, n + 1) =~= group_keys(recs@, days, kind, n).push(kv));
                        assert forall|q: int| 0 <= q < rows.keys_view().len() implies line_matches(
                            #[trigger] rows.vals_view()[q],
                            table,
                            recs@,
                            members(recs@, days, kind, n + 1, rows.keys_view()[q]),
                        ) by {
                            if q < old_rows.keys_view().len() {
                                assert(rows.keys_view()[q] == old_rows.keys_view()[q]);
                                assert(old_rows.keys_view().contains(rows.keys_view()[q]));
                                assert(rows.keys_view()[q] != kv);
                                assert(rows.vals_view()[q] == old_rows.vals_view()[q]);
                            }
                        }
                    }
                },
            }
        },
    }
}

/// The rows of a breakdown, in ascending key order.
fn into_rows(
    rows: StrMap<Line>,
    Ghost(table): Ghost<Map<Seq<char>, ModelRate>>,
    Ghost(recs): Ghost<Seq<UsageRecord>>,
    Ghost(days): Ghost<Seq<Seq<char>>>,
    Ghost(kind): Ghost<Breakdown>,
    Ghost(n): Ghost<int>,
) -> (r: Vec<(String, Line)>)
    requires
        map_matches(rows, table, recs, days, kind, n),
    ensures
        rows_match(r@, table, recs, days, kind, n),
{
    let ghost ks = rows.keys_view();
    let ghost vs = rows.vals_view();
    let entries = rows.into_entries();
    let ghost es = entries@;
    let r = sort_by_key(entries);
    proof {
        assert(entry_keys(es) =~= ks);
        lemma_sorted_keys(ks);
        let sk = sorted_keys(group_keys(recs, days, kind, n));
        assert(r@.len() == sk.len());
        assert forall|t: int| 0 <= t < sk.len() implies (#[trigger] r@[t]).0@ == sk[t] && line_matches(
            r@[t].1,
            table,
            recs,
            members(recs, days, kind, n, sk[t]),
        ) by {
            let j = choose|j: int| 0 <= j < es.len() && r@[t] == es[j];
            assert(es[j].0@ == ks[j] && es[j].1 == vs[j]);
            assert(line_matches(vs[j], table, recs, members(recs, days, kind, n, ks[j])));
        }
    }
    r
}

/// The key of `r` (whose day is `day`) in breakdown `kind`, if it has one.
fn key_for(kind: Breakdown, r: &UsageRecord, day: &String) -> (k: Option<String>)
    ensures
        match kind {
            Breakdown::Model => k == Some(r.model),
            Breakdown::Day => k == Some(*day),
            Breakdown::Project => k matches Some(s) && s@ == project_key(*r),
            Breakdown::Session => match k {
                Some(s) => s@ == r.session_id@ && r.session_id@.len() > 0,
                None => r.session_id@.len() == 0,
            },
        },
{
    match kind {
        Breakdown::Model => Some(r.model.clone()),
        Breakdown::Day => Some(day.clone()),
        Breakdown::Project => if r.project.as_str().is_empty() {
            Some(String::from_str(UNKNOWN_PROJECT))
        } else {
            Some(r.project.clone())
        },
        Breakdown::Session => if r.session_id.as_str().is_empty() {
            None
        } else {
            Some(r.session_id.clone())
        },
    }
}

/// For each record, whether it survives de-duplication.
pub fn survivors(records: &[UsageRecord]) -> (flags: Vec<bool>)
    ensures
        flags@.len() == records@.len(),
        forall|j: int| 0 <= j < records@.len() ==> #[trigger] flags@[j] == is_kept(records@, j),
{
    let ghost recs = records@;
    let n = records.len();
    let buckets = if n < 1024 { 64 } else { n / 4 };
    let mut seen: StrMap<bool> = StrMap::with_buckets(buckets);
    let mut flags: Vec<bool> = Vec::new();
    let mut i: usize = 0;
    while i < n
        invariant
            n == recs.len(),
            recs == records@,
            i <= n,
            seen.wf(),
            forall|k: Seq<char>| #[trigger] seen.keys_view().contains(k) <==> exists|j: int|
                0 <= j < i && key_of(recs[j]) == Some(k),
            flags@.len() == i,
            forall|j: int| 0 <= j < i ==> #[trigger] flags@[j] == is_kept(recs, j),
        decreases n - i,
    {
        let record = &records[i];
        let kept = match &record.dedupe_key {
            Some(key) => {
                match seen.index_of(key) {
                    Some(p) => {
                        proof {
                            assert(seen.keys_view().contains(key@));
                            assert(key_of(recs[i as int]) == Some(key@));
                            let j = choose|j: int| 0 <= j < i && key_of(recs[j]) == Some(key@);
                            assert(!is_kept(recs, i as int));
                        }
                        false
                    },
                    None => {
                        let ghost before = seen;
                        seen.push_new(key.clone(), true);
                        proof {
                            assert(is_kept(recs, i as int));
                            assert forall|k: Seq<char>| #[trigger] seen.keys_view().contains(k) <==> exists|j: int|
                                0 <= j < i + 1 && key_of(recs[j]) == Some(k) by {
                                if seen.keys_view().contains(k) && k != key@ {
                                    let t = choose|t: int| 0 <= t < seen.keys_view().len() && seen.keys_view()[t] == k;
                                    assert(before.keys_view()[t] == k);
                                    assert(before.keys_view().contains(k));
                                }
                                if k == key@ {
                                    assert(seen.keys_view()[before.keys_view().len() as int] == k);
                                }
                                if exists|j: int| 0 <= j < i + 1 && key_of(recs[j]) == Some(k) {
                                    let j = choose|j: int| 0 <= j < i + 1 && key_of(recs[j]) == Some(k);
                                    if j < i {
                                        assert(before.keys_view().contains(k));
                                        let t = choose|t: int| 0 <= t < before.keys_view().len() && before.keys_view()[t] == k;
                                        assert(seen.keys_view()[t] == k);
                                    } else {
                                        assert(seen.keys_view()[before.keys_view().len() as int] == k);
                                    }
                                }
                            }
                        }
                        true
                    },
                }
            },
            None => {
                proof {
                    assert forall|k: Seq<char>| #[trigger] seen.keys_view().contains(k) <==> exists|j: int|
                        0 <= j < i + 1 && key_of(recs[j]) == Some(k) by {
                        if exists|j: int| 0 <= j < i + 1 && key_of(recs[j]) == Some(k) {
                            let j = choose|j: int| 0 <= j < i + 1 && key_of(recs[j]) == Some(k);
                            assert(j < i);
                        }
                    }
                }
                true
            },
        };
        if !kept {
            proof {
                assert forall|k: Seq<char>| #[trigger] seen.keys_view().contains(k) <==> exists|j: int|
                    0 <= j < i + 1 && key_of(recs[j]) == Some(k) by {
                    if exists|j: int| 0 <= j < i + 1 && key_of(recs[j]) == Some(k) {
                        let j = choose|j: int| 0 <= j < i + 1 && key_of(recs[j]) == Some(k);
                        if j == i {
                            let j2 = choose|j2: int| 0 <= j2 < i && key_of(recs[j2]) == key_of(recs[i as int]);
                        }
                    }
                }
            }
        }
        flags.push(kept);
        i = i + 1;
    }
    flags
}

/// Whether every token class summed over the surviving records fits in
/// `u64`: what [`analyze`] needs of its input.
pub fn kept_totals_within_u64(records: &[UsageRecord]) -> (b: bool)
    ensures
        b == kept_totals_fit(records@),
{
    let ghost recs = records@;
    let flags = survivors(records);
    let n = records.len();
    let mut t = TokenTotals { uncached_input: 0, cached_input: 0, cache_creation: 0, output: 0 };
    let mut i: usize = 0;
    while i < n
        invariant
            n == recs.len(),
            recs == records@,
            i <= n,
            flags@.len() == n,
            forall|j: int| 0 <= j < n ==> #[trigger] flags@[j] == is_kept(recs, j),
            forall|f: int| 0 <= f < 4 ==> #[trigger] field_of(t, f) == sum_field(recs, kept_members(recs, i as int), f),
        decreases n - i,
    {
        let ghost ms = kept_members(recs, i as int);
        if flags[i] {
            let ghost ms2 = kept_members(recs, i + 1);
            proof {
                assert(ms2 == ms.push(i as int));
                assert(ms2.drop_last() =~= ms);
                assert forall|f: int| 0 <= f < 4 implies #[trigger] sum_field(recs, ms2, f) == sum_field(recs, ms, f)
                    + field_of(recs[i as int].totals, f) by {}
            }
            let r = records[i].totals;
            let s0 = t.uncached_input.checked_add(r.uncached_input);
            let s1 = t.cached_input.checked_add(r.cached_input);
            let s2 = t.cache_creation.checked_add(r.cache_creation);
            let s3 = t.output.checked_add(r.output);
            match (s0, s1, s2, s3) {
                (Some(a0), Some(a1), Some(a2), Some(a3)) => {
                    let ghost t0 = t;
                    t = TokenTotals { uncached_input: a0, cached_input: a1, cache_creation: a2, output: a3 };
                    proof {
                        assert forall|f: int| 0 <= f < 4 implies #[trigger] field_of(t, f) == sum_field(recs, ms2, f) by {
                            assert(field_of(t0, f) == sum_field(recs, ms, f));
                            assert(sum_field(recs, ms2, f) == sum_field(recs, ms, f) + field_of(recs[i as int].totals, f));
                            assert(field_of(t, f) == field_of(t0, f) + field_of(r, f));
                        }
                    }
                },
                _ => {
                    proof {
                        let f = if s0 is None { 0int } else if s1 is None { 1int } else if s2 is None { 2int } else { 3int };
                        assert(field_of(t, f) == sum_field(recs, ms, f));
                        assert(sum_field(recs, ms2, f) > u64::MAX);
                        lemma_kept_mono(recs, i + 1, n as int, f);
                    }
                    return false;
                },
            }
        } else {
            proof {
                assert(kept_members(recs, i + 1) == ms);
            }
        }
        i = i + 1;
    }
    proof {
        assert forall|f: int| 0 <= f < 4 implies #[trigger] sum_field(recs, kept_members(recs, recs.len() as int), f)
            <= u64::MAX by {
            assert(field_of(t, f) == sum_field(recs, kept_members(recs, n as int), f));
        }
    }
    true
}

/// Folds `records` into an [`Analysis`], pricing each surviving turn with
/// `table`; `days[i]` is the calendar day of `records[i]`.
pub fn analyze(records: &[UsageRecord], table: &RateTable, days: &[String]) -> (a: Analysis)
    requires
        days@.len() == records@.len(),
        kept_totals_fit(records@),
    ensures
        analysis_matches(a, table.view_map(), records@, days@.map_values(|d: String| d@)),
{
    let ghost recs = records@;
    let ghost ds = days@.map_values(|d: String| d@);
    let ghost tm = table.view_map();
    let n = records.len();
    let buckets = if n < 1024 { 64 } else { n / 4 };
    let flags = survivors(records);
    let mut overall = empty_line();
    let mut by_model: StrMap<Line> = StrMap::with_buckets(64);
    let mut by_day: StrMap<Line> = StrMap::with_buckets(256);
    let mut by_project: StrMap<Line> = StrMap::with_buckets(64);
    let mut by_session: StrMap<Line> = StrMap::with_buckets(buckets);
    let mut latest_ms: i64 = 0;
    let mut latest_activity_ms: Option<i64> = None;
    let mut latest_session: Option<String> = None;
    let mut duplicates_dropped: u64 = 0;
    let mut turns: Vec<Option<Turn>> = Vec::new();
    assert(by_model.keys_view() =~= group_keys(recs, ds, Breakdown::Model, 0));
    let mut i: usize = 0;
    while i < n
        invariant
            n == recs.len(),
            recs == records@,
            days@.len() == n,
            ds == days@.map_values(|d: String| d@),
            tm == table.view_map(),
            kept_totals_fit(recs),
            i <= n,
            flags@.len() == n,
            forall|j: int| 0 <= j < n ==> #[trigger] flags@[j] == is_kept(recs, j),
            line_matches(overall, tm, recs, kept_members(recs, i as int)),
            map_matches(by_model, tm, recs, ds, Breakdown::Model, i as int),
            map_matches(by_day, tm, recs, ds, Breakdown::Day, i as int),
            map_matches(by_project, tm, recs, ds, Breakdown::Project, i as int),
            map_matches(by_session, tm, recs, ds, Breakdown::Session, i as int),
            duplicates_dropped == i - kept_members(recs, i as int).len(),
            latest_activity_ms == latest_turn_spec(recs, i as int),
            match latest_session {
                Some(s) => latest_spec(recs, i as int) == Some((latest_ms, s@)),
                None => latest_spec(recs, i as int) is None,
            },
            turns@.len() == i,
            forall|j: int| 0 <= j < i ==> #[trigger] turns@[j] == (if is_kept(recs, j) {
                Some(turn_spec(tm, recs[j]))
            } else {
                None
            }),
        decreases n - i,
    {
        let record = &records[i];
        proof {
            lemma_members_len(recs, ds, Breakdown::Model, i as int, Seq::empty());
        }
        let kept = flags[i];
        if !kept {
            duplicates_dropped = duplicates_dropped + 1;
            turns.push(None);
            proof {
                assert(kept_members(recs, i + 1) == kept_members(recs, i as int));
                assert(latest_spec(recs, i + 1) == latest_spec(recs, i as int));
                assert(latest_turn_spec(recs, i + 1) == latest_turn_spec(recs, i as int));
                assert forall|kind: Breakdown| true implies group_keys(recs, ds, kind, i + 1) == group_keys(recs, ds, kind, i as int) by {}
                assert forall|kind: Breakdown, k: Seq<char>| true implies members(recs, ds, kind, i + 1, k) == members(recs, ds, kind, i as int, k) by {}
                assert forall|j: int| 0 <= j < i + 1 implies #[trigger] turns@[j] == (if is_kept(recs, j) {
                    Some(turn_spec(tm, recs[j]))
                } else {
                    None
                }) by {}
            }
        } else {
            let pricing = pricing_for(table, record.model.as_str(), record.reported_cost_usd);
            let savings_rate = lookup_rate(table, record.model.as_str());
            let unpriced = match pricing {
                Pricing::Unpriced => true,
                _ => false,
            };
            proof {
                lemma_group_fits(recs, ds, Breakdown::Model, i + 1, Seq::empty());
                assert(kept_members(recs, i + 1) == kept_members(recs, i as int).push(i as int));
                assert(ds[i as int] == days@[i as int]@);
            }
            absorb(&mut overall, Ghost(tm), records, Ghost(kept_members(recs, i as int)), i, unpriced);
            let day = &days[i];
            fold_into(&mut by_model, Ghost(tm), records, Ghost(ds), Ghost(Breakdown::Model), i,
                key_for(Breakdown::Model, record, day), unpriced);
            fold_into(&mut by_day, Ghost(tm), records, Ghost(ds), Ghost(Breakdown::Day), i,
                key_for(Breakdown::Day, record, day), unpriced);
            fold_into(&mut by_project, Ghost(tm), records, Ghost(ds), Ghost(Breakdown::Project), i,
                key_for(Breakdown::Project, record, day), unpriced);
            fold_into(&mut by_session, Ghost(tm), records, Ghost(ds), Ghost(Breakdown::Session), i,
                key_for(Breakdown::Session, record, day), unpriced);
            latest_activity_ms = match latest_activity_ms {
                Some(t) => if record.timestamp_ms > t { Some(record.timestamp_ms) } else { Some(t) },
                None => Some(record.timestamp_ms),
            };
            if !record.session_id.as_str().is_empty() {
                let newer = match &latest_session {
                    Some(_) => record.timestamp_ms > latest_ms,
                    None => true,
                };
                if newer {
                    latest_ms = record.timestamp_ms;
                    latest_session = Some(record.session_id.clone());
                }
            }
            turns.push(Some(Turn { pricing, savings_rate }));
            proof {
                assert forall|j: int| 0 <= j < i + 1 implies #[trigger] turns@[j] == (if is_kept(recs, j) {
                    Some(turn_spec(tm, recs[j]))
                } else {
                    None
                }) by {}
            }
        }
        i = i + 1;
    }
    let by_model_rows = into_rows(by_model, Ghost(tm), Ghost(recs), Ghost(ds), Ghost(Breakdown::Model), Ghost(n as int));
    let by_day_rows = into_rows(by_day, Ghost(tm), Ghost(recs), Ghost(ds), Ghost(Breakdown::Day), Ghost(n as int));
    let by_project_rows = into_rows(by_project, Ghost(tm), Ghost(recs), Ghost(ds), Ghost(Breakdown::Project), Ghost(n as int));
    let by_session_rows = into_rows(by_session, Ghost(tm), Ghost(recs), Ghost(ds), Ghost(Breakdown::Session), Ghost(n as int));
    Analysis {
        overall,
        by_model: by_model_rows,
        by_day: by_day_rows,
        by_project: by_project_rows,
        by_session: by_session_rows,
        latest_session,
        latest_activity_ms,
        duplicates_dropped,
        turns,
    }
}

/// The number of turns summed over `rows`.
pub open spec fn sum_records(rows: Seq<(String, Line)>) -> int
    decreases rows.len(),
{
    if rows.len() == 0 {
        0
    } else {
        sum_records(rows.drop_last()) + rows.last().1.records
    }
}

/// How many surviving records `< n` have a key in breakdown `kind`.
pub open spec fn keyed_kept_count(recs: Seq<UsageRecord>, ds: Seq<Seq<char>>, kind: Breakdown, n: int) -> int
    decreases n,
{
    if n <= 0 {
        0
    } else {
        keyed_kept_count(recs, ds, kind, n - 1) + if is_kept(recs, n - 1) && group_key(recs, ds, kind, n - 1) is Some {
            1int
        } else {
            0int
        }
    }
}

/// The members of each key in `ks`, counted together.
pub open spec fn member_total(
    recs: Seq<UsageRecord>,
    ds: Seq<Seq<char>>,
    kind: Breakdown,
    n: int,
    ks: Seq<Seq<char>>,
) -> int
    decreases ks.len(),
{
    if ks.len() == 0 {
        0
    } else {
        member_total(recs, ds, kind, n, ks.drop_last()) + members(recs, ds, kind, n, ks.last()).len()
    }
}

proof fn lemma_group_keys_grow(recs: Seq<UsageRecord>, ds: Seq<Seq<char>>, kind: Breakdown, n: int, k: Seq<char>)
    requires
        n >= 1,
        group_keys(recs, ds, kind, n - 1).contains(k),
    ensures
        group_keys(recs, ds, kind, n).contains(k),
{
    let prev = group_keys(recs, ds, kind, n - 1);
    let t = choose|t: int| 0 <= t < prev.len() && prev[t] == k;
    assert(group_keys(recs, ds, kind, n)[t] == k);
}

proof fn lemma_group_keys_distinct(recs: Seq<UsageRecord>, ds: Seq<Seq<char>>, kind: Breakdown, n: int)
    ensures
        group_keys(recs, ds, kind, n).no_duplicates(),
    decreases n,
{
    if n > 0 {
        lemma_group_keys_distinct(recs, ds, kind, n - 1);
    }
}

/// A surviving record lies among the members of its key, and the key is a row.
proof fn lemma_placed(recs: Seq<UsageRecord>, ds: Seq<Seq<char>>, kind: Breakdown, n: int, i: int, k: Seq<char>)
    requires
        0 <= i < n,
        is_kept(recs, i),
        group_key(recs, ds, kind, i) == Some(k),
    ensures
        group_keys(recs, ds, kind, n).contains(k),
        members(recs, ds, kind, n, k).contains(i),
    decreases n,
{
    if i == n - 1 {
        let prev = group_keys(recs, ds, kind, n - 1);
        if !prev.contains(k) {
            let g = group_keys(recs, ds, kind, n);
            assert(g[g.len() - 1] == k);
        } else {
            lemma_group_keys_grow(recs, ds, kind, n, k);
        }
        let m = members(recs, ds, kind, n, k);
        assert(m[m.len() - 1] == i);
    } else {
        lemma_placed(recs, ds, kind, n - 1, i, k);
        lemma_group_keys_grow(recs, ds, kind, n, k);
        let prev = members(recs, ds, kind, n - 1, k);
        let t = choose|t: int| 0 <= t < prev.len() && prev[t] == i;
        assert(members(recs, ds, kind, n, k)[t] == i);
    }
}

proof fn lemma_total_unchanged(
    recs: Seq<UsageRecord>,
    ds: Seq<Seq<char>>,
    kind: Breakdown,
    n: int,
    ks: Seq<Seq<char>>,
)
    requires
        n >= 0,
        forall|t: int| 0 <= t < ks.len() ==> members(recs, ds, kind, n + 1, #[trigger] ks[t]) == members(recs, ds, kind, n, ks[t]),
    ensures
        member_total(recs, ds, kind, n + 1, ks) == member_total(recs, ds, kind, n, ks),
    decreases ks.len(),
{
    if ks.len() > 0 {
        lemma_total_unchanged(recs, ds, kind, n, ks.drop_last());
        assert(ks.last() == ks[ks.len() - 1]);
    }
}

proof fn lemma_total_bump(
    recs: Seq<UsageRecord>,
    ds: Seq<Seq<char>>,
    kind: Breakdown,
    n: int,
    ks: Seq<Seq<char>>,
    k: Seq<char>,
)
    requires
        n >= 0,
        ks.no_duplicates(),
        ks.contains(k),
        members(recs, ds, kind, n + 1, k).len() == members(recs, ds, kind, n, k).len() + 1,
        forall|q: Seq<char>| q != k ==> members(recs, ds, kind, n + 1, q) == members(recs, ds, kind, n, q),
    ensures
        member_total(recs, ds, kind, n + 1, ks) == member_total(recs, ds, kind, n, ks) + 1,
    decreases ks.len(),
{
    let init = ks.drop_last();
    if ks.last() == k {
        assert(!init.contains(k)) by {
            if init.contains(k) {
                let t = choose|t: int| 0 <= t < init.len() && init[t] == k;
                assert(ks[t] == ks[ks.len() - 1]);
            }
        }
        assert forall|t: int| 0 <= t < init.len() implies members(recs, ds, kind, n + 1, #[trigger] init[t])
            == members(recs, ds, kind, n, init[t]) by {
            assert(init[t] != k);
        }
        lemma_total_unchanged(recs, ds, kind, n, init);
    } else {
        let t = choose|t: int| 0 <= t < ks.len() && ks[t] == k;
        assert(init[t] == k);
        lemma_total_bump(recs, ds, kind, n, init, k);
    }
}

/// The rows of a breakdown together hold every surviving turn that has a key.
proof fn lemma_member_total(recs: Seq<UsageRecord>, ds: Seq<Seq<char>>, kind: Breakdown, n: int)
    requires
        n >= 0,
    ensures
        member_total(recs, ds, kind, n, group_keys(recs, ds, kind, n)) == keyed_kept_count(recs, ds, kind, n),
    decreases n,
{
    if n > 0 {
        let m = n - 1;
        lemma_member_total(recs, ds, kind, m);
        let prev = group_keys(recs, ds, kind, m);
        lemma_group_keys_distinct(recs, ds, kind, m);
        match group_key(recs, ds, kind, m) {
            Some(k) => {
                if is_kept(recs, m) {
                    assert(members(recs, ds, kind, n, k) == members(recs, ds, kind, m, k).push(m));
                    if prev.contains(k) {
                        lemma_total_bump(recs, ds, kind, m, prev, k);
                    } else {
                        lemma_absent_key_has_no_members(recs, ds, kind, m, k);
                        assert forall|t: int| 0 <= t < prev.len() implies members(recs, ds, kind, n, #[trigger] prev[t])
                            == members(recs, ds, kind, m, prev[t]) by {
                            assert(prev[t] != k);
                        }
                        lemma_total_unchanged(recs, ds, kind, m, prev);
                        let g = prev.push(k);
                        assert(g.drop_last() =~= prev);
                    }
                } else {
                    assert forall|t: int| 0 <= t < prev.len() implies members(recs, ds, kind, n, #[trigger] prev[t])
                        == members(recs, ds, kind, m, prev[t]) by {}
                    lemma_total_unchanged(recs, ds, kind, m, prev);
                }
            },
            None => {
                assert forall|t: int| 0 <= t < prev.len() implies members(recs, ds, kind, n, #[trigger] prev[t])
                    == members(recs, ds, kind, m, prev[t]) by {}
                lemma_total_unchanged(recs, ds, kind, m, prev);
            },
        }
    }
}

proof fn lemma_sum_rows(
    rows: Seq<(String, Line)>,
    tm: Map<Seq<char>, ModelRate>,
    recs: Seq<UsageRecord>,
    ds: Seq<Seq<char>>,
    kind: Breakdown,
    n: int,
)
    requires
        rows_match(rows, tm, recs, ds, kind, n),
    ensures
        sum_records(rows) == member_total(recs, ds, kind, n, group_keys(recs, ds, kind, n)),
{
    let ks = sorted_keys(group_keys(recs, ds, kind, n));
    lemma_sum_rows_prefix(rows, tm, recs, ds, kind, n, rows.len() as int);
    assert(rows.take(rows.len() as int) =~= rows);
    assert(ks.take(ks.len() as int) =~= ks);
    lemma_total_sorted(recs, ds, kind, n, group_keys(recs, ds, kind, n));
}

/// Adding a key anywhere adds its members to the total.
proof fn lemma_total_insert(
    recs: Seq<UsageRecord>,
    ds: Seq<Seq<char>>,
    kind: Breakdown,
    n: int,
    ks: Seq<Seq<char>>,
    p: int,
    k: Seq<char>,
)
    requires
        0 <= p <= ks.len(),
    ensures
        member_total(recs, ds, kind, n, ks.insert(p, k)) == member_total(recs, ds, kind, n, ks) + members(
            recs,
            ds,
            kind,
            n,
            k,
        ).len(),
    decreases ks.len(),
{
    let t = ks.insert(p, k);
    if p == ks.len() {
        assert(t.drop_last() =~= ks);
    } else {
        assert(t.drop_last() =~= ks.drop_last().insert(p, k));
        assert(t.last() == ks.last());
        lemma_total_insert(recs, ds, kind, n, ks.drop_last(), p, k);
    }
}

/// Sorting the keys leaves the total unchanged.
proof fn lemma_total_sorted(recs: Seq<UsageRecord>, ds: Seq<Seq<char>>, kind: Breakdown, n: int, ks: Seq<Seq<char>>)
    ensures
        member_total(recs, ds, kind, n, sorted_keys(ks)) == member_total(recs, ds, kind, n, ks),
    decreases ks.len(),
{
    if ks.len() > 0 {
        let tail = ks.drop_first();
        lemma_total_sorted(recs, ds, kind, n, tail);
        let rest = sorted_keys(tail);
        lemma_sorted_keys(tail);
        crate::order::lemma_insert_pos_range(rest, ks[0]);
        lemma_total_insert(recs, ds, kind, n, rest, crate::order::insert_pos(rest, ks[0], 0), ks[0]);
        assert(tail.insert(0, ks[0]) =~= ks);
        lemma_total_insert(recs, ds, kind, n, tail, 0, ks[0]);
    }
}

proof fn lemma_sum_rows_prefix(
    rows: Seq<(String, Line)>,
    tm: Map<Seq<char>, ModelRate>,
    recs: Seq<UsageRecord>,
    ds: Seq<Seq<char>>,
    kind: Breakdown,
    n: int,
    m: int,
)
    requires
        rows_match(rows, tm, recs, ds, kind, n),
        0 <= m <= rows.len(),
    ensures
        sum_records(rows.take(m)) == member_total(recs, ds, kind, n, sorted_keys(group_keys(recs, ds, kind, n)).take(m)),
    decreases m,
{
    let ks = sorted_keys(group_keys(recs, ds, kind, n));
    if m > 0 {
        lemma_sum_rows_prefix(rows, tm, recs, ds, kind, n, m - 1);
        assert(rows.take(m).drop_last() =~= rows.take(m - 1));
        assert(ks.take(m).drop_last() =~= ks.take(m - 1));
        assert(rows[m - 1].0@ == ks[m - 1]);
    }
}

proof fn lemma_keyed_all(recs: Seq<UsageRecord>, ds: Seq<Seq<char>>, kind: Breakdown, n: int)
    requires
        n >= 0,
        kind != Breakdown::Session,
    ensures
        keyed_kept_count(recs, ds, kind, n) == kept_members(recs, n).len(),
    decreases n,
{
    if n > 0 {
        lemma_keyed_all(recs, ds, kind, n - 1);
    }
}

/// Surviving records never share a dedupe key: only the first sighting of a
/// key counts.
pub proof fn law_surviving_keys_distinct(recs: Seq<UsageRecord>, i: int, j: int)
    requires
        0 <= i < j < recs.len(),
        is_kept(recs, i),
        is_kept(recs, j),
        key_of(recs[i]) is Some,
    ensures
        key_of(recs[i]) != key_of(recs[j]),
{
    if key_of(recs[j]) is Some {
        assert(key_of(recs[i]) != key_of(recs[j]));
    }
}

/// Every dedupe key that occurs among the records is counted once: some
/// surviving record carries it.
pub proof fn law_every_key_survives_once(recs: Seq<UsageRecord>, j: int)
    requires
        0 <= j < recs.len(),
        key_of(recs[j]) is Some,
    ensures
        exists|i: int| 0 <= i <= j && is_kept(recs, i) && key_of(recs[i]) == key_of(recs[j]),
    decreases j,
{
    if !is_kept(recs, j) {
        let k = key_of(recs[j])->Some_0;
        let j2 = choose|j2: int| 0 <= j2 < j && key_of(recs[j2]) == Some(k);
        law_every_key_survives_once(recs, j2);
    }
}

/// Every surviving turn is added into every breakdown: the model, day and
/// project rows each account for all of them, the session rows for those
/// with a session, and the turns folded plus those dropped as duplicates
/// are all the input.
pub proof fn law_breakdowns_cover_every_turn(
    a: Analysis,
    tm: Map<Seq<char>, ModelRate>,
    recs: Seq<UsageRecord>,
    ds: Seq<Seq<char>>,
)
    requires
        analysis_matches(a, tm, recs, ds),
    ensures
        a.overall.records + a.duplicates_dropped == recs.len(),
        sum_records(a.by_model@) == a.overall.records,
        sum_records(a.by_day@) == a.overall.records,
        sum_records(a.by_project@) == a.overall.records,
        sum_records(a.by_session@) == keyed_kept_count(recs, ds, Breakdown::Session, recs.len() as int),
{
    let n = recs.len() as int;
    lemma_sum_rows(a.by_model@, tm, recs, ds, Breakdown::Model, n);
    lemma_member_total(recs, ds, Breakdown::Model, n);
    lemma_keyed_all(recs, ds, Breakdown::Model, n);
    lemma_sum_rows(a.by_day@, tm, recs, ds, Breakdown::Day, n);
    lemma_member_total(recs, ds, Breakdown::Day, n);
    lemma_keyed_all(recs, ds, Breakdown::Day, n);
    lemma_sum_rows(a.by_project@, tm, recs, ds, Breakdown::Project, n);
    lemma_member_total(recs, ds, Breakdown::Project, n);
    lemma_keyed_all(recs, ds, Breakdown::Project, n);
    lemma_sum_rows(a.by_session@, tm, recs, ds, Breakdown::Session, n);
    lemma_member_total(recs, ds, Breakdown::Session, n);
}

/// The rows of every breakdown come in strictly ascending key order, so each
/// key has one row and the days form a date-ordered series.
pub proof fn law_breakdowns_in_key_order(
    a: Analysis,
    tm: Map<Seq<char>, ModelRate>,
    recs: Seq<UsageRecord>,
    ds: Seq<Seq<char>>,
)
    requires
        analysis_matches(a, tm, recs, ds),
    ensures
        forall|s: int, t: int| 0 <= s < t < a.by_model@.len() ==> chars_lt(
            (#[trigger] a.by_model@[s]).0@,
            (#[trigger] a.by_model@[t]).0@,
        ),
        forall|s: int, t: int| 0 <= s < t < a.by_day@.len() ==> chars_lt(
            (#[trigger] a.by_day@[s]).0@,
            (#[trigger] a.by_day@[t]).0@,
        ),
        forall|s: int, t: int| 0 <= s < t < a.by_project@.len() ==> chars_lt(
            (#[trigger] a.by_project@[s]).0@,
            (#[trigger] a.by_project@[t]).0@,
        ),
        forall|s: int, t: int| 0 <= s < t < a.by_session@.len() ==> chars_lt(
            (#[trigger] a.by_session@[s]).0@,
            (#[trigger] a.by_session@[t]).0@,
        ),
{
    let n = recs.len() as int;
    lemma_rows_ascend(a.by_model@, tm, recs, ds, Breakdown::Model, n);
    lemma_rows_ascend(a.by_day@, tm, recs, ds, Breakdown::Day, n);
    lemma_rows_ascend(a.by_project@, tm, recs, ds, Breakdown::Project, n);
    lemma_rows_ascend(a.by_session@, tm, recs, ds, Breakdown::Session, n);
}

proof fn lemma_rows_ascend(
    rows: Seq<(String, Line)>,
    tm: Map<Seq<char>, ModelRate>,
    recs: Seq<UsageRecord>,
    ds: Seq<Seq<char>>,
    kind: Breakdown,
    n: int,
)
    requires
        rows_match(rows, tm, recs, ds, kind, n),
    ensures
        forall|s: int, t: int| 0 <= s < t < rows.len() ==> chars_lt((#[trigger] rows[s]).0@, (#[trigger] rows[t]).0@),
{
    let g = group_keys(recs, ds, kind, n);
    lemma_group_keys_distinct(recs, ds, kind, n);
    lemma_sorted_keys(g);
    let ks = sorted_keys(g);
    assert(ascending(ks));
    assert forall|s: int, t: int| 0 <= s < t < rows.len() implies chars_lt(
        (#[trigger] rows[s]).0@,
        (#[trigger] rows[t]).0@,
    ) by {
        assert(rows[s].0@ == ks[s]);
        assert(rows[t].0@ == ks[t]);
    }
}

/// Each surviving turn lies in the row of its own key in a breakdown, and a
/// turn without a working directory lies in the `(unknown)` project row.
pub proof fn law_turn_in_its_row(
    a: Analysis,
    tm: Map<Seq<char>, ModelRate>,
    recs: Seq<UsageRecord>,
    ds: Seq<Seq<char>>,
    i: int,
)
    requires
        analysis_matches(a, tm, recs, ds),
        0 <= i < recs.len(),
        is_kept(recs, i),
    ensures
        exists|t: int| 0 <= t < a.by_model@.len() && (#[trigger] a.by_model@[t]).0@ == recs[i].model@
            && a.by_model@[t].1.members@.contains(i as usize),
        exists|t: int| 0 <= t < a.by_day@.len() && (#[trigger] a.by_day@[t]).0@ == ds[i]
            && a.by_day@[t].1.members@.contains(i as usize),
        exists|t: int| 0 <= t < a.by_project@.len() && (#[trigger] a.by_project@[t]).0@ == project_key(recs[i])
            && a.by_project@[t].1.members@.contains(i as usize),
        recs[i].project@.len() == 0 ==> exists|t: int| 0 <= t < a.by_project@.len()
            && (#[trigger] a.by_project@[t]).0@ == UNKNOWN_PROJECT@ && a.by_project@[t].1.members@.contains(i as usize),
        recs[i].session_id@.len() > 0 ==> exists|t: int| 0 <= t < a.by_session@.len()
            && (#[trigger] a.by_session@[t]).0@ == recs[i].session_id@ && a.by_session@[t].1.members@.contains(i as usize),
{
    let n = recs.len() as int;
    lemma_row_holds(a.by_model@, tm, recs, ds, Breakdown::Model, n, i, recs[i].model@);
    lemma_row_holds(a.by_day@, tm, recs, ds, Breakdown::Day, n, i, ds[i]);
    lemma_row_holds(a.by_project@, tm, recs, ds, Breakdown::Project, n, i, project_key(recs[i]));
    if recs[i].session_id@.len() > 0 {
        lemma_row_holds(a.by_session@, tm, recs, ds, Breakdown::Session, n, i, recs[i].session_id@);
    }
}

proof fn lemma_row_holds(
    rows: Seq<(String, Line)>,
    tm: Map<Seq<char>, ModelRate>,
    recs: Seq<UsageRecord>,
    ds: Seq<Seq<char>>,
    kind: Breakdown,
    n: int,
    i: int,
    k: Seq<char>,
)
    requires
        rows_match(rows, tm, recs, ds, kind, n),
        0 <= i < n,
        is_kept(recs, i),
        group_key(recs, ds, kind, i) == Some(k),
    ensures
        exists|t: int| 0 <= t < rows.len() && (#[trigger] rows[t]).0@ == k && rows[t].1.members@.contains(i as usize),
{
    lemma_placed(recs, ds, kind, n, i, k);
    lemma_sorted_keys(group_keys(recs, ds, kind, n));
    let ks = sorted_keys(group_keys(recs, ds, kind, n));
    assert(ks.contains(k));
    let t = choose|t: int| 0 <= t < ks.len() && ks[t] == k;
    let ms = members(recs, ds, kind, n, k);
    let q = choose|q: int| 0 <= q < ms.len() && ms[q] == i;
    assert(rows[t].0@ == k);
    assert(rows[t].1.members@[q] as int == ms[q]);
    assert(rows[t].1.members@[q] == i as usize);
}

/// The current session is the one with the most recent turn that carries
/// a session: there is none exactly when no surviving turn has a session;
/// otherwise a surviving turn of that session is at least as late as every
/// surviving turn with a session, and strictly later than each such turn
/// before it. The latest activity is the latest timestamp of any surviving
/// turn, and there is one exactly when some turn survived.
pub proof fn law_latest_session_is_most_recent(
    a: Analysis,
    tm: Map<Seq<char>, ModelRate>,
    recs: Seq<UsageRecord>,
    ds: Seq<Seq<char>>,
)
    requires
        analysis_matches(a, tm, recs, ds),
    ensures
        a.latest_session is None <==> forall|j: int| 0 <= j < recs.len() && is_kept(recs, j) ==>
            (#[trigger] recs[j]).session_id@.len() == 0,
        a.latest_session matches Some(s) ==> exists|i: int| #![trigger recs[i]] 0 <= i < recs.len()
            && is_kept(recs, i) && recs[i].session_id@ == s@
            && (forall|j: int| 0 <= j < recs.len() && is_kept(recs, j) && recs[j].session_id@.len() > 0
                ==> #[trigger] recs[j].timestamp_ms <= recs[i].timestamp_ms)
            && (forall|j: int| 0 <= j < i && is_kept(recs, j) && recs[j].session_id@.len() > 0
                ==> #[trigger] recs[j].timestamp_ms < recs[i].timestamp_ms),
        a.latest_activity_ms is Some <==> kept_members(recs, recs.len() as int).len() > 0,
        a.latest_activity_ms matches Some(t) ==> (exists|i: int| 0 <= i < recs.len() && is_kept(recs, i)
            && #[trigger] recs[i].timestamp_ms == t) && forall|j: int| 0 <= j < recs.len() && is_kept(recs, j) ==>
            #[trigger] recs[j].timestamp_ms <= t,
{
    lemma_latest(recs, recs.len() as int);
    lemma_latest_turn(recs, recs.len() as int);
    if let Some(s) = a.latest_session {
        let p = latest_spec(recs, recs.len() as int)->Some_0;
        let i = choose|i: int| #![trigger recs[i]] 0 <= i < recs.len() && is_kept(recs, i)
            && recs[i].session_id@ == p.1 && recs[i].timestamp_ms == p.0
            && (forall|j: int| 0 <= j < i && is_kept(recs, j) && recs[j].session_id@.len() > 0
                ==> #[trigger] recs[j].timestamp_ms < p.0);
        assert(recs[i].session_id@ == s@);
    }
}

proof fn lemma_kept_nonempty(recs: Seq<UsageRecord>, m: int, j: int)
    requires
        0 <= j < m,
        is_kept(recs, j),
    ensures
        kept_members(recs, m).len() > 0,
    decreases m,
{
    if j < m - 1 {
        lemma_kept_nonempty(recs, m - 1, j);
    }
}

proof fn lemma_latest_turn(recs: Seq<UsageRecord>, n: int)
    requires
        0 <= n <= recs.len(),
    ensures
        latest_turn_spec(recs, n) is Some <==> kept_members(recs, n).len() > 0,
        latest_turn_spec(recs, n) matches Some(t) ==> (exists|i: int| 0 <= i < n && is_kept(recs, i)
            && #[trigger] recs[i].timestamp_ms == t) && forall|j: int| 0 <= j < n && is_kept(recs, j) ==>
            #[trigger] recs[j].timestamp_ms <= t,
    decreases n,
{
    if n > 0 {
        let m = n - 1;
        lemma_latest_turn(recs, m);
        let prev = latest_turn_spec(recs, m);
        if is_kept(recs, m) {
            let ts = recs[m].timestamp_ms;
            match prev {
                Some(t) => {
                    let w = choose|i: int| 0 <= i < m && is_kept(recs, i) && #[trigger] recs[i].timestamp_ms == t;
                    if ts > t {
                        assert(recs[m].timestamp_ms == ts);
                        assert forall|j: int| 0 <= j < n && is_kept(recs, j) implies #[trigger] recs[j].timestamp_ms <= ts by {
                            if j < m {
                                assert(recs[j].timestamp_ms <= t);
                            }
                        }
                    } else {
                        assert(recs[w].timestamp_ms == t);
                        assert forall|j: int| 0 <= j < n && is_kept(recs, j) implies #[trigger] recs[j].timestamp_ms <= t by {
                            if j < m {
                                assert(recs[j].timestamp_ms <= t);
                            }
                        }
                    }
                },
                None => {
                    assert(recs[m].timestamp_ms == ts);
                    assert forall|j: int| 0 <= j < n && is_kept(recs, j) implies #[trigger] recs[j].timestamp_ms <= ts by {
                        if j < m {
                            lemma_kept_nonempty(recs, m, j);
                        }
                    }
                },
            }
        } else {
            if let Some(t) = prev {
                let w = choose|i: int| 0 <= i < m && is_kept(recs, i) && #[trigger] recs[i].timestamp_ms == t;
                assert(recs[w].timestamp_ms == t);
            }
        }
    }
}

proof fn lemma_latest(recs: Seq<UsageRecord>, n: int)
    requires
        0 <= n <= recs.len(),
    ensures
        latest_spec(recs, n) is None <==> forall|j: int| 0 <= j < n && is_kept(recs, j) ==>
            (#[trigger] recs[j]).session_id@.len() == 0,
        latest_spec(recs, n) matches Some(p) ==> (forall|j: int| 0 <= j < n && is_kept(recs, j)
            && recs[j].session_id@.len() > 0 ==> #[trigger] recs[j].timestamp_ms <= p.0),
        latest_spec(recs, n) matches Some(p) ==> exists|i: int| #![trigger recs[i]] 0 <= i < n && is_kept(recs, i)
            && recs[i].session_id@ == p.1 && recs[i].timestamp_ms == p.0
            && (forall|j: int| 0 <= j < i && is_kept(recs, j) && recs[j].session_id@.len() > 0
                ==> #[trigger] recs[j].timestamp_ms < p.0),
    decreases n,
{
    if n > 0 {
        let m = n - 1;
        lemma_latest(recs, m);
        let prev = latest_spec(recs, m);
        let r = recs[m];
        if is_kept(recs, m) && r.session_id@.len() > 0 {
            match prev {
                Some(p) => {
                    let w = choose|i: int| #![trigger recs[i]] 0 <= i < m && is_kept(recs, i)
                        && recs[i].session_id@ == p.1 && recs[i].timestamp_ms == p.0
                        && (forall|j: int| 0 <= j < i && is_kept(recs, j) && recs[j].session_id@.len() > 0
                            ==> #[trigger] recs[j].timestamp_ms < p.0);
                    assert(recs[w].timestamp_ms == p.0);
                    if r.timestamp_ms > p.0 {
                        assert(recs[m].timestamp_ms == r.timestamp_ms);
                        assert forall|j: int| 0 <= j < n && is_kept(recs, j) && recs[j].session_id@.len() > 0
                            implies #[trigger] recs[j].timestamp_ms <= r.timestamp_ms by {
                            if j < m {
                                assert(recs[j].timestamp_ms <= p.0);
                            }
                        }
                        assert forall|j: int| 0 <= j < m && is_kept(recs, j) && recs[j].session_id@.len() > 0
                            implies #[trigger] recs[j].timestamp_ms < r.timestamp_ms by {
                            assert(recs[j].timestamp_ms <= p.0);
                        }
                    } else {
                        assert forall|j: int| 0 <= j < n && is_kept(recs, j) && recs[j].session_id@.len() > 0
                            implies #[trigger] recs[j].timestamp_ms <= p.0 by {
                            if j < m {
                                assert(recs[j].timestamp_ms <= p.0);
                            }
                        }
                    }
                },
                None => {
                    assert(recs[m].timestamp_ms == r.timestamp_ms);
                    assert forall|j: int| 0 <= j < n && is_kept(recs, j) && recs[j].session_id@.len() > 0
                        implies #[trigger] recs[j].timestamp_ms <= r.timestamp_ms by {
                        if j < m {
                            assert(recs[j].session_id@.len() == 0);
                        }
                    }
                    assert forall|j: int| 0 <= j < m && is_kept(recs, j) && recs[j].session_id@.len() > 0
                        implies #[trigger] recs[j].timestamp_ms < r.timestamp_ms by {
                        assert(recs[j].session_id@.len() == 0);
                    }
                },
            }
        } else {
            if let Some(p) = prev {
                let w = choose|i: int| #![trigger recs[i]] 0 <= i < m && is_kept(recs, i)
                    && recs[i].session_id@ == p.1 && recs[i].timestamp_ms == p.0
                    && (forall|j: int| 0 <= j < i && is_kept(recs, j) && recs[j].session_id@.len() > 0
                        ==> #[trigger] recs[j].timestamp_ms < p.0);
                assert(recs[w].timestamp_ms == p.0);
                assert forall|j: int| 0 <= j < n && is_kept(recs, j) && recs[j].session_id@.len() > 0
                    implies #[trigger] recs[j].timestamp_ms <= p.0 by {
                    if j < m {
                        assert(recs[j].timestamp_ms <= p.0);
                    }
                }
            } else {
                assert forall|j: int| 0 <= j < n && is_kept(recs, j) implies (#[trigger] recs[j]).session_id@.len() == 0 by {
                    if j < m {
                        assert(recs[j].session_id@.len() == 0);
                    }
                }
            }
        }
    }
}

/// Two lines with the same figures and the same member turns.
pub open spec fn same_line(l1: Line, l2: Line) -> bool {
    &&& l1.totals == l2.totals
    &&& l1.records == l2.records
    &&& l1.unpriced_records == l2.unpriced_records
    &&& l1.members@ == l2.members@
}

/// Two breakdowns with the same keys, in the same order, and the same lines.
pub open spec fn same_rows(r1: Seq<(String, Line)>, r2: Seq<(String, Line)>) -> bool {
    &&& r1.len() == r2.len()
    &&& forall|t: int| 0 <= t < r1.len() ==> (#[trigger] r1[t]).0@ == r2[t].0@ && same_line(r1[t].1, r2[t].1)
}

/// The text of an optional string.
pub open spec fn text_of(o: Option<String>) -> Option<Seq<char>> {
    match o {
        Some(s) => Some(s@),
        None => None,
    }
}

/// Reading the same records twice changes nothing but the duplicate count:
/// when every record carries a dedupe key, the second copy of each is
/// dropped, so the headline, every breakdown, the latest session and the
/// latest activity are those of a single copy, and each record of the second
/// copy counts as one more duplicate.
pub proof fn law_repeated_records_counted_once(
    a1: Analysis,
    a2: Analysis,
    tm: Map<Seq<char>, ModelRate>,
    recs: Seq<UsageRecord>,
    ds: Seq<Seq<char>>,
)
    requires
        ds.len() == recs.len(),
        forall|i: int| 0 <= i < recs.len() ==> key_of(#[trigger] recs[i]) is Some,
        analysis_matches(a1, tm, recs, ds),
        analysis_matches(a2, tm, recs + recs, ds + ds),
    ensures
        same_line(a2.overall, a1.overall),
        same_rows(a2.by_model@, a1.by_model@),
        same_rows(a2.by_day@, a1.by_day@),
        same_rows(a2.by_project@, a1.by_project@),
        same_rows(a2.by_session@, a1.by_session@),
        text_of(a2.latest_session) == text_of(a1.latest_session),
        a2.latest_activity_ms == a1.latest_activity_ms,
        a2.duplicates_dropped == a1.duplicates_dropped + recs.len(),
{
    let n = recs.len() as int;
    let rr = recs + recs;
    let dd = ds + ds;
    lemma_doubled_tail(recs, ds, 2 * n);
    lemma_members_below(recs, ds, Breakdown::Model, n, Seq::empty());
    lemma_line_doubled(a2.overall, tm, recs, kept_members(recs, n));
    lemma_line_unique(a2.overall, a1.overall, tm, recs, kept_members(recs, n));
    lemma_rows_doubled(a2.by_model@, a1.by_model@, tm, recs, ds, Breakdown::Model);
    lemma_rows_doubled(a2.by_day@, a1.by_day@, tm, recs, ds, Breakdown::Day);
    lemma_rows_doubled(a2.by_project@, a1.by_project@, tm, recs, ds, Breakdown::Project);
    lemma_rows_doubled(a2.by_session@, a1.by_session@, tm, recs, ds, Breakdown::Session);
    assert(rr.len() == 2 * n);
}

/// When no two records share a dedupe key, nothing is dropped.
pub proof fn law_distinct_keys_drop_nothing(
    a: Analysis,
    tm: Map<Seq<char>, ModelRate>,
    recs: Seq<UsageRecord>,
    ds: Seq<Seq<char>>,
)
    requires
        forall|i: int, j: int| 0 <= i < j < recs.len() && key_of(#[trigger] recs[i]) is Some ==> key_of(recs[i])
            != key_of(#[trigger] recs[j]),
        analysis_matches(a, tm, recs, ds),
    ensures
        a.duplicates_dropped == 0,
        a.overall.records == recs.len(),
{
    lemma_all_kept(recs, recs.len() as int);
}

proof fn lemma_all_kept(recs: Seq<UsageRecord>, m: int)
    requires
        0 <= m <= recs.len(),
        forall|i: int, j: int| 0 <= i < j < recs.len() && key_of(#[trigger] recs[i]) is Some ==> key_of(recs[i])
            != key_of(#[trigger] recs[j]),
    ensures
        kept_members(recs, m).len() == m,
    decreases m,
{
    if m > 0 {
        lemma_all_kept(recs, m - 1);
        if let Some(k) = key_of(recs[m - 1]) {
            assert forall|j: int| 0 <= j < m - 1 implies #[trigger] key_of(recs[j]) != Some(k) by {
                if key_of(recs[j]) == Some(k) {
                    assert(key_of(recs[j]) != key_of(recs[m - 1]));
                }
            }
        }
        assert(is_kept(recs, m - 1));
    }
}

/// Records `< m` of a doubled input, `m` within the first copy, fold as those
/// of one copy.
proof fn lemma_doubled_prefix(recs: Seq<UsageRecord>, ds: Seq<Seq<char>>, m: int)
    requires
        ds.len() == recs.len(),
        0 <= m <= recs.len(),
    ensures
        kept_members(recs + recs, m) == kept_members(recs, m),
        latest_spec(recs + recs, m) == latest_spec(recs, m),
        latest_turn_spec(recs + recs, m) == latest_turn_spec(recs, m),
        forall|kind: Breakdown| #[trigger] group_keys(recs + recs, ds + ds, kind, m) == group_keys(recs, ds, kind, m),
        forall|kind: Breakdown, k: Seq<char>| #[trigger] members(recs + recs, ds + ds, kind, m, k) == members(
            recs,
            ds,
            kind,
            m,
            k,
        ),
    decreases m,
{
    if m > 0 {
        let rr = recs + recs;
        let dd = ds + ds;
        lemma_doubled_prefix(recs, ds, m - 1);
        assert(rr[m - 1] == recs[m - 1]);
        assert(dd[m - 1] == ds[m - 1]);
        if let Some(k) = key_of(recs[m - 1]) {
            if is_kept(recs, m - 1) {
                assert forall|j: int| 0 <= j < m - 1 implies #[trigger] key_of(rr[j]) != Some(k) by {
                    assert(rr[j] == recs[j]);
                    assert(key_of(recs[j]) != Some(k));
                }
            }
            if is_kept(rr, m - 1) {
                assert forall|j: int| 0 <= j < m - 1 implies #[trigger] key_of(recs[j]) != Some(k) by {
                    assert(rr[j] == recs[j]);
                    assert(key_of(rr[j]) != Some(k));
                }
            }
        }
        assert(is_kept(rr, m - 1) == is_kept(recs, m - 1));
        assert forall|kind: Breakdown| #[trigger] group_keys(rr, dd, kind, m) == group_keys(recs, ds, kind, m) by {
            assert(group_key(rr, dd, kind, m - 1) == group_key(recs, ds, kind, m - 1));
            assert(group_keys(rr, dd, kind, m - 1) == group_keys(recs, ds, kind, m - 1));
        }
        assert forall|kind: Breakdown, k: Seq<char>| #[trigger] members(rr, dd, kind, m, k) == members(recs, ds, kind, m, k) by {
            assert(group_key(rr, dd, kind, m - 1) == group_key(recs, ds, kind, m - 1));
            assert(members(rr, dd, kind, m - 1, k) == members(recs, ds, kind, m - 1, k));
        }
    }
}

/// Every record of the second copy is a duplicate, so the fold of a doubled
/// input stands still past the first copy.
proof fn lemma_doubled_tail(recs: Seq<UsageRecord>, ds: Seq<Seq<char>>, m: int)
    requires
        ds.len() == recs.len(),
        recs.len() <= m <= 2 * recs.len(),
        forall|i: int| 0 <= i < recs.len() ==> key_of(#[trigger] recs[i]) is Some,
    ensures
        kept_members(recs + recs, m) == kept_members(recs, recs.len() as int),
        latest_spec(recs + recs, m) == latest_spec(recs, recs.len() as int),
        latest_turn_spec(recs + recs, m) == latest_turn_spec(recs, recs.len() as int),
        forall|kind: Breakdown| #[trigger] group_keys(recs + recs, ds + ds, kind, m) == group_keys(
            recs,
            ds,
            kind,
            recs.len() as int,
        ),
        forall|kind: Breakdown, k: Seq<char>| #[trigger] members(recs + recs, ds + ds, kind, m, k) == members(
            recs,
            ds,
            kind,
            recs.len() as int,
            k,
        ),
    decreases m,
{
    let n = recs.len() as int;
    let rr = recs + recs;
    let dd = ds + ds;
    if m == n {
        lemma_doubled_prefix(recs, ds, n);
    } else {
        lemma_doubled_tail(recs, ds, m - 1);
        let j = m - 1 - n;
        assert(rr[m - 1] == recs[j]);
        assert(rr[j] == recs[j]);
        assert(key_of(recs[j]) is Some);
        assert(key_of(rr[j]) == key_of(rr[m - 1]));
        assert(!is_kept(rr, m - 1));
        assert forall|kind: Breakdown| #[trigger] group_keys(rr, dd, kind, m) == group_keys(rr, dd, kind, m - 1) by {}
        assert forall|kind: Breakdown, k: Seq<char>| #[trigger] members(rr, dd, kind, m, k) == members(rr, dd, kind, m - 1, k) by {}
    }
}

/// The members of a group are positions `< n`.
proof fn lemma_members_below(recs: Seq<UsageRecord>, ds: Seq<Seq<char>>, kind: Breakdown, n: int, k: Seq<char>)
    requires
        n >= 0,
    ensures
        forall|t: int| 0 <= t < members(recs, ds, kind, n, k).len() ==> 0 <= #[trigger] members(recs, ds, kind, n, k)[t] < n,
        forall|t: int| 0 <= t < kept_members(recs, n).len() ==> 0 <= #[trigger] kept_members(recs, n)[t] < n,
    decreases n,
{
    if n > 0 {
        lemma_members_below(recs, ds, kind, n - 1, k);
        let pm = members(recs, ds, kind, n - 1, k);
        let pk = kept_members(recs, n - 1);
        assert forall|t: int| 0 <= t < members(recs, ds, kind, n, k).len() implies 0 <= #[trigger] members(
            recs,
            ds,
            kind,
            n,
            k,
        )[t] < n by {
            if t < pm.len() {
                assert(members(recs, ds, kind, n, k)[t] == pm[t]);
            }
        }
        assert forall|t: int| 0 <= t < kept_members(recs, n).len() implies 0 <= #[trigger] kept_members(recs, n)[t]
            < n by {
            if t < pk.len() {
                assert(kept_members(recs, n)[t] == pk[t]);
            }
        }
    }
}

proof fn lemma_sums_doubled(tm: Map<Seq<char>, ModelRate>, recs: Seq<UsageRecord>, ms: Seq<int>, f: int)
    requires
        forall|t: int| 0 <= t < ms.len() ==> 0 <= #[trigger] ms[t] < recs.len(),
    ensures
        sum_field(recs + recs, ms, f) == sum_field(recs, ms, f),
        count_unpriced(tm, recs + recs, ms) == count_unpriced(tm, recs, ms),
    decreases ms.len(),
{
    if ms.len() > 0 {
        let init = ms.drop_last();
        assert forall|t: int| 0 <= t < init.len() implies 0 <= #[trigger] init[t] < recs.len() by {
            assert(init[t] == ms[t]);
        }
        lemma_sums_doubled(tm, recs, init, f);
        assert(ms.last() == ms[ms.len() - 1]);
        assert((recs + recs)[ms.last()] == recs[ms.last()]);
    }
}

/// A line over members of the first copy of a doubled input is a line over
/// the same members of one copy.
proof fn lemma_line_doubled(line: Line, tm: Map<Seq<char>, ModelRate>, recs: Seq<UsageRecord>, ms: Seq<int>)
    requires
        forall|t: int| 0 <= t < ms.len() ==> 0 <= #[trigger] ms[t] < recs.len(),
        line_matches(line, tm, recs + recs, ms),
    ensures
        line_matches(line, tm, recs, ms),
{
    lemma_sums_doubled(tm, recs, ms, 0);
    lemma_sums_doubled(tm, recs, ms, 1);
    lemma_sums_doubled(tm, recs, ms, 2);
    lemma_sums_doubled(tm, recs, ms, 3);
}

/// A line is determined by the records it accumulates.
proof fn lemma_line_unique(l1: Line, l2: Line, tm: Map<Seq<char>, ModelRate>, recs: Seq<UsageRecord>, ms: Seq<int>)
    requires
        line_matches(l1, tm, recs, ms),
        line_matches(l2, tm, recs, ms),
    ensures
        same_line(l1, l2),
{
    assert(l1.members@ =~= l2.members@) by {
        assert forall|t: int| 0 <= t < ms.len() implies l1.members@[t] == l2.members@[t] by {
            assert(l1.members@[t] as int == ms[t]);
            assert(l2.members@[t] as int == ms[t]);
        }
    }
}

proof fn lemma_rows_doubled(
    r2: Seq<(String, Line)>,
    r1: Seq<(String, Line)>,
    tm: Map<Seq<char>, ModelRate>,
    recs: Seq<UsageRecord>,
    ds: Seq<Seq<char>>,
    kind: Breakdown,
)
    requires
        ds.len() == recs.len(),
        forall|i: int| 0 <= i < recs.len() ==> key_of(#[trigger] recs[i]) is Some,
        rows_match(r2, tm, recs + recs, ds + ds, kind, 2 * (recs.len() as int)),
        rows_match(r1, tm, recs, ds, kind, recs.len() as int),
    ensures
        same_rows(r2, r1),
{
    let n = recs.len() as int;
    lemma_doubled_tail(recs, ds, 2 * n);
    assert(group_keys(recs + recs, ds + ds, kind, 2 * n) == group_keys(recs, ds, kind, n));
    let ks = sorted_keys(group_keys(recs, ds, kind, n));
    assert forall|t: int| 0 <= t < r2.len() implies (#[trigger] r2[t]).0@ == r1[t].0@ && same_line(r2[t].1, r1[t].1) by {
        let k = ks[t];
        assert(members(recs + recs, ds + ds, kind, 2 * n, k) == members(recs, ds, kind, n, k));
        lemma_members_below(recs, ds, kind, n, k);
        lemma_line_doubled(r2[t].1, tm, recs, members(recs, ds, kind, n, k));
        lemma_line_unique(r2[t].1, r1[t].1, tm, recs, members(recs, ds, kind, n, k));
    }
}

/// Each surviving turn is priced by the precedence over its own record: a
/// finite reported cost `c` prices it at `Reported(c)` whatever the table
/// holds; otherwise it is `Rated` at exactly the rate the table gives its
/// model, or `Unpriced` when the table gives none; and its cache savings use
/// that same looked-up rate. Dropped duplicates get no pricing at all.
pub proof fn law_each_turn_priced_by_its_own_record(
    a: Analysis,
    tm: Map<Seq<char>, ModelRate>,
    recs: Seq<UsageRecord>,
    ds: Seq<Seq<char>>,
    i: int,
)
    requires
        analysis_matches(a, tm, recs, ds),
        0 <= i < recs.len(),
    ensures
        !is_kept(recs, i) ==> a.turns@[i] is None,
        is_kept(recs, i) ==> (a.turns@[i] matches Some(t) && t.savings_rate == lookup_spec(tm, recs[i].model@)),
        is_kept(recs, i) && (recs[i].reported_cost_usd matches Some(c) && crate::pricing::binary64_is_finite(c))
            ==> a.turns@[i] == Some(Turn {
            pricing: Pricing::Reported(recs[i].reported_cost_usd->Some_0),
            savings_rate: lookup_spec(tm, recs[i].model@),
        }),
        is_kept(recs, i) && !(recs[i].reported_cost_usd matches Some(c) && crate::pricing::binary64_is_finite(c))
            ==> a.turns@[i] == Some(Turn {
            pricing: match lookup_spec(tm, recs[i].model@) {
                Some(r) => Pricing::Rated(r),
                None => Pricing::Unpriced,
            },
            savings_rate: lookup_spec(tm, recs[i].model@),
        }),
{
    assert(a.turns@[i] == (if is_kept(recs, i) { Some(turn_spec(tm, recs[i])) } else { None }));
}

/// A line over no turns is all zeros, and adding one turn to a group adds
/// that turn's own token counts class by class (uncached input to uncached
/// input, cache reads to cache reads, cache writes to cache writes, output to
/// output), one record, and one unpriced record exactly when the turn matched
/// no rate and reported no finite cost.
pub proof fn law_lines_add_turn_by_turn(
    l1: Line,
    l2: Line,
    tm: Map<Seq<char>, ModelRate>,
    recs: Seq<UsageRecord>,
    ms: Seq<int>,
    i: int,
)
    requires
        line_matches(l1, tm, recs, ms),
        line_matches(l2, tm, recs, ms.push(i)),
    ensures
        line_matches(l1, tm, recs, Seq::empty()) ==> l1.totals == crate::record::zero_totals() && l1.records == 0
            && l1.unpriced_records == 0 && l1.members@.len() == 0,
        l2.totals.uncached_input == l1.totals.uncached_input + recs[i].totals.uncached_input,
        l2.totals.cached_input == l1.totals.cached_input + recs[i].totals.cached_input,
        l2.totals.cache_creation == l1.totals.cache_creation + recs[i].totals.cache_creation,
        l2.totals.output == l1.totals.output + recs[i].totals.output,
        l2.records == l1.records + 1,
        l2.unpriced_records == l1.unpriced_records + (if !(recs[i].reported_cost_usd matches Some(c)
            && crate::pricing::binary64_is_finite(c)) && lookup_spec(tm, recs[i].model@) is None {
            1int
        } else {
            0int
        }),
        l2.members@ == l1.members@.push(i as usize),
{
    assert(ms.push(i).drop_last() =~= ms);
    assert(l2.members@ =~= l1.members@.push(i as usize)) by {
        assert forall|t: int| 0 <= t < ms.len() implies l2.members@[t] == l1.members@[t] by {
            assert(l2.members@[t] as int == ms.push(i)[t]);
            assert(l1.members@[t] as int == ms[t]);
        }
        assert(l2.members@[ms.len() as int] as int == i);
    }
}

} // verus!
