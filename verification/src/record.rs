//! The value types the core folds over.

use vstd::prelude::*;

verus! {

/// The four token counts billed at different rates.
///
/// Reasoning tokens are folded into `output` by the provider and are not
/// billed separately, so they have no field of their own.
#[derive(Clone, Copy, Debug, PartialEq, Eq, Structural)]
pub struct TokenTotals {
    /// Fresh input tokens, billed at the full input rate.
    pub uncached_input: u64,
    /// Tokens served from cache, billed at the discounted cache-read rate.
    pub cached_input: u64,
    /// Tokens written into the cache, billed at the premium cache-write rate.
    pub cache_creation: u64,
    /// Generated tokens, billed at the output rate.
    pub output: u64,
}

/// The all-zero totals, the identity of [`TokenTotals::add`].
pub open spec fn zero_totals() -> TokenTotals {
    TokenTotals { uncached_input: 0, cached_input: 0, cache_creation: 0, output: 0 }
}

/// Whether the component-wise sum of `a` and `b` fits in `u64`.
pub open spec fn totals_add_fits(a: TokenTotals, b: TokenTotals) -> bool {
    &&& a.uncached_input + b.uncached_input <= u64::MAX
    &&& a.cached_input + b.cached_input <= u64::MAX
    &&& a.cache_creation + b.cache_creation <= u64::MAX
    &&& a.output + b.output <= u64::MAX
}

/// The component-wise sum of `a` and `b` (meaningful where it fits).
pub open spec fn totals_sum(a: TokenTotals, b: TokenTotals) -> TokenTotals {
    TokenTotals {
        uncached_input: (a.uncached_input + b.uncached_input) as u64,
        cached_input: (a.cached_input + b.cached_input) as u64,
        cache_creation: (a.cache_creation + b.cache_creation) as u64,
        output: (a.output + b.output) as u64,
    }
}

/// Every token of `t`, as a mathematical integer.
pub open spec fn totals_grand(t: TokenTotals) -> int {
    t.uncached_input + t.cached_input + t.cache_creation + t.output
}

impl Default for TokenTotals {
    fn default() -> (t: TokenTotals)
        ensures
            t == zero_totals(),
    {
        TokenTotals { uncached_input: 0, cached_input: 0, cache_creation: 0, output: 0 }
    }
}

impl TokenTotals {
    /// Component-wise sum. The identity is the all-zero value.
    pub fn add(self, other: TokenTotals) -> (sum: TokenTotals)
        requires
            totals_add_fits(self, other),
        ensures
            sum == totals_sum(self, other),
    {
        TokenTotals {
            uncached_input: self.uncached_input + other.uncached_input,
            cached_input: self.cached_input + other.cached_input,
            cache_creation: self.cache_creation + other.cache_creation,
            output: self.output + other.output,
        }
    }

    /// Every token that passed through the request.
    pub fn grand_total(self) -> (total: u64)
        requires
            totals_grand(self) <= u64::MAX,
        ensures
            total == totals_grand(self),
    {
        self.uncached_input + self.cached_input + self.cache_creation + self.output
    }
}

/// Adding the all-zero totals changes nothing.
pub proof fn law_totals_add_identity(a: TokenTotals)
    ensures
        totals_add_fits(a, zero_totals()),
        totals_sum(a, zero_totals()) == a,
        totals_sum(zero_totals(), a) == a,
{
}

/// Component-wise addition does not depend on the order of its operands.
pub proof fn law_totals_add_commutative(a: TokenTotals, b: TokenTotals)
    ensures
        totals_add_fits(a, b) == totals_add_fits(b, a),
        totals_sum(a, b) == totals_sum(b, a),
{
}

/// Component-wise addition does not depend on grouping, where it fits.
pub proof fn law_totals_add_associative(a: TokenTotals, b: TokenTotals, c: TokenTotals)
    requires
        totals_add_fits(a, b),
        totals_add_fits(totals_sum(a, b), c),
    ensures
        totals_add_fits(b, c),
        totals_add_fits(a, totals_sum(b, c)),
        totals_sum(totals_sum(a, b), c) == totals_sum(a, totals_sum(b, c)),
{
}

/// The grand total of a sum is the sum of the grand totals.
pub proof fn law_grand_total_of_sum(a: TokenTotals, b: TokenTotals)
    requires
        totals_add_fits(a, b),
    ensures
        totals_grand(totals_sum(a, b)) == totals_grand(a) + totals_grand(b),
{
}

/// One billable assistant turn.
#[derive(Clone, Debug)]
pub struct UsageRecord {
    /// Wall-clock instant of the turn, in Unix milliseconds.
    pub timestamp_ms: i64,
    /// The model id exactly as the transcript recorded it.
    pub model: String,
    /// The session the turn belongs to; empty when the transcript omitted it.
    pub session_id: String,
    /// The working directory the turn ran in; empty when omitted.
    pub project: String,
    pub totals: TokenTotals,
    /// The bit pattern of a finite binary64 `costUSD` the CLI recorded, if any.
    pub reported_cost_usd: Option<u64>,
    /// Key for cross-file de-duplication, or `None` when the record carries
    /// neither a message id nor a request id.
    pub dedupe_key: Option<String>,
}

impl UsageRecord {
    /// A copy of the record.
    pub fn copied(&self) -> (c: UsageRecord)
        ensures
            c == *self,
    {
        UsageRecord {
            timestamp_ms: self.timestamp_ms,
            model: self.model.clone(),
            session_id: self.session_id.clone(),
            project: self.project.clone(),
            totals: self.totals,
            reported_cost_usd: self.reported_cost_usd,
            dedupe_key: match &self.dedupe_key {
                Some(k) => Some(k.clone()),
                None => None,
            },
        }
    }
}

} // verus!
