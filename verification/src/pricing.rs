//! Model rate lookup and the decisions behind pricing a turn.
//!
//! Dollar amounts and per-token rates are IEEE-754 binary64 values. The core
//! never does arithmetic on them: it carries their bit patterns, decides which
//! rate or reported figure applies to a turn, and leaves the multiplication to
//! the caller.

use vstd::prelude::*;
use crate::strmap::StrMap;
use crate::text::{
    after_last, before_first, chars_after_last, chars_before_first, from_chars, to_chars,
    to_lowercase, trim, trim_end_spec, trim_spec, trim_start_spec, unicode_lowercase, unicode_white_space,
};

verus! {

/// Whether the binary64 value with bit pattern `bits` is finite (neither an
/// infinity nor a NaN): its exponent field is not all ones.
pub open spec fn binary64_is_finite(bits: u64) -> bool {
    (bits >> 52u64) & 0x7ffu64 != 0x7ffu64
}

/// Whether the binary64 value with bit pattern `bits` is a zero of either sign.
pub open spec fn binary64_is_zero(bits: u64) -> bool {
    bits & 0x7fff_ffff_ffff_ffffu64 == 0
}

/// Equality of two non-NaN binary64 values given by their bit patterns:
/// identical bits, or two zeros of any sign.
pub open spec fn binary64_eq(a: u64, b: u64) -> bool {
    a == b || (binary64_is_zero(a) && binary64_is_zero(b))
}

/// Whether the binary64 value with bit pattern `bits` is finite.
pub fn is_finite_bits(bits: u64) -> (r: bool)
    ensures
        r == binary64_is_finite(bits),
{
    (bits >> 52u64) & 0x7ffu64 != 0x7ffu64
}

/// Keeps a binary64 bit pattern only when the value is finite.
pub fn finite(value: Option<u64>) -> (r: Option<u64>)
    ensures
        r == (match value {
            Some(b) => if binary64_is_finite(b) { Some(b) } else { None },
            None => None,
        }),
{
    match value {
        Some(b) => if is_finite_bits(b) { Some(b) } else { None },
        None => None,
    }
}

fn same_binary64(a: u64, b: u64) -> (r: bool)
    ensures
        r == binary64_eq(a, b),
{
    a == b || ((a & 0x7fff_ffff_ffff_ffffu64) == 0 && (b & 0x7fff_ffff_ffff_ffffu64) == 0)
}

/// USD-per-token rates for one model, each the bit pattern of a binary64.
#[derive(Clone, Copy, Debug, PartialEq, Eq, Structural)]
pub struct ModelRate {
    pub input: u64,
    pub output: u64,
    /// Discounted rate for cache reads.
    pub cache_read: u64,
    /// Premium rate for cache writes.
    pub cache_creation: u64,
}

/// Equality of two rates as numbers (a zero equals a zero of either sign).
pub open spec fn rate_eq(a: ModelRate, b: ModelRate) -> bool {
    &&& binary64_eq(a.input, b.input)
    &&& binary64_eq(a.output, b.output)
    &&& binary64_eq(a.cache_read, b.cache_read)
    &&& binary64_eq(a.cache_creation, b.cache_creation)
}

/// Whether two rates are numerically equal.
pub fn same_rate(a: &ModelRate, b: &ModelRate) -> (r: bool)
    ensures
        r == rate_eq(*a, *b),
{
    same_binary64(a.input, b.input) && same_binary64(a.output, b.output)
        && same_binary64(a.cache_read, b.cache_read) && same_binary64(
        a.cache_creation,
        b.cache_creation,
    )
}

/// Where a priced figure came from.
#[derive(Clone, Copy, Debug, PartialEq, Eq, Structural)]
pub enum CostSource {
    /// The transcript itself carried a `costUSD`.
    ProviderReported,
    /// Computed from token counts and a matched rate.
    ModelPriced,
    /// No rate matched; reported as zero and flagged rather than guessed.
    Unpriced,
}

/// Normalized model id -> its rate.
pub struct RateTable {
    rates: StrMap<ModelRate>,
}

impl RateTable {
    #[verifier::type_invariant]
    spec fn inv(self) -> bool {
        self.rates.wf()
    }

    /// The table as a map from normalized model id to rate.
    pub closed spec fn view_map(self) -> Map<Seq<char>, ModelRate> {
        self.rates.map_view()
    }

    /// The model ids in the order they were first inserted.
    pub closed spec fn keys_view(self) -> Seq<Seq<char>> {
        self.rates.keys_view()
    }

    /// An empty table.
    pub fn new() -> (t: RateTable)
        ensures
            t.view_map() == Map::<Seq<char>, ModelRate>::empty(),
            t.keys_view() == Seq::<Seq<char>>::empty(),
    {
        let t = RateTable { rates: StrMap::with_buckets(256) };
        assert(t.view_map() =~= Map::<Seq<char>, ModelRate>::empty());
        t
    }

    /// The number of model ids.
    pub fn len(&self) -> (n: usize)
        ensures
            n == self.view_map().len(),
            n == self.keys_view().len(),
    {
        proof {
            use_type_invariant(self);
            self.rates.lemma_map_view_len();
        }
        self.rates.len()
    }

    /// Whether the table holds no rate at all.
    pub fn is_empty(&self) -> (b: bool)
        ensures
            b == (self.view_map().len() == 0),
    {
        self.len() == 0
    }

    /// The rate stored under exactly `key`.
    pub fn get(&self, key: &String) -> (r: Option<ModelRate>)
        ensures
            r == (if self.view_map().contains_key(key@) {
                Some(self.view_map()[key@])
            } else {
                None
            }),
    {
        proof {
            use_type_invariant(self);
        }
        match self.rates.index_of(key) {
            Some(i) => {
                proof {
                    self.rates.lemma_index_of_key(i as int);
                }
                Some(*self.rates.value_at(i))
            },
            None => None,
        }
    }

    /// Whether `key` has a rate.
    pub fn contains_key(&self, key: &String) -> (b: bool)
        ensures
            b == self.view_map().contains_key(key@),
    {
        proof {
            use_type_invariant(self);
        }
        self.rates.index_of(key).is_some()
    }

    /// Stores `rate` under `key`, replacing any rate already there.
    pub fn insert(&mut self, key: String, rate: ModelRate)
        ensures
            final(self).view_map() == old(self).view_map().insert(key@, rate),
            old(self).view_map().contains_key(key@) ==> final(self).keys_view() == old(self).keys_view(),
            !old(self).view_map().contains_key(key@) ==> final(self).keys_view() == old(self).keys_view().push(key@),
    {
        proof {
            use_type_invariant(&*self);
        }
        let mut rates = StrMap::with_buckets(1);
        std::mem::swap(&mut rates, &mut self.rates);
        match rates.index_of(&key) {
            Some(i) => {
                proof {
                    rates.lemma_index_of_key(i as int);
                }
                let ghost before = rates;
                rates.set_value(i, rate);
                proof {
                    rates.lemma_set_value_map(before, i as int, rate);
                }
            },
            None => {
                let ghost before = rates;
                let ghost k = key@;
                rates.push_new(key, rate);
                proof {
                    rates.lemma_push_new_map(before, k, rate);
                }
            },
        }
        self.rates = rates;
    }

    /// The model id at position `i` in insertion order.
    pub fn key_at(&self, i: usize) -> (k: &String)
        requires
            i < self.keys_view().len(),
        ensures
            k@ == self.keys_view()[i as int],
    {
        proof {
            use_type_invariant(self);
        }
        self.rates.key_at(i)
    }

    /// The rate of the model id at position `i` in insertion order.
    pub fn rate_at(&self, i: usize) -> (r: ModelRate)
        requires
            i < self.keys_view().len(),
        ensures
            self.view_map().contains_key(self.keys_view()[i as int]),
            r == self.view_map()[self.keys_view()[i as int]],
    {
        proof {
            use_type_invariant(self);
            self.rates.lemma_index_of_key(i as int);
        }
        *self.rates.value_at(i)
    }
}

/// The part of a model id before a bracketed variant suffix such as `[1m]`.
pub fn strip_variant_suffix(key: &str) -> (r: String)
    ensures
        r@ == before_first(key@, '['),
{
    let chars = to_chars(key);
    let base = chars_before_first(&chars, '[');
    from_chars(base.as_slice())
}

/// The last path segment of a possibly provider-prefixed id (`anthropic/foo` -> `foo`).
pub fn bare_name(key: &str) -> (r: String)
    ensures
        r@ == after_last(key@, '/'),
{
    let chars = to_chars(key);
    let tail = chars_after_last(&chars, '/');
    from_chars(tail.as_slice())
}

/// The normalized table key for a model id as transcripts record it: trimmed,
/// variant suffix dropped, lowercased.
pub open spec fn rate_key(model: Seq<char>) -> Seq<char> {
    unicode_lowercase(before_first(trim_spec(model), '['))
}

/// Names that are never priced: empty, locally generated turns, and bare
/// family names that are ambiguous across generations.
pub open spec fn is_unpriceable(bare: Seq<char>) -> bool {
    ||| bare.len() == 0
    ||| bare == "<synthetic>"@
    ||| bare == "synthetic"@
    ||| bare == "opus"@
    ||| bare == "sonnet"@
    ||| bare == "haiku"@
    ||| bare == "fable"@
}

/// The rate that applies to `model` under `table`, if any.
pub open spec fn lookup_spec(table: Map<Seq<char>, ModelRate>, model: Seq<char>) -> Option<ModelRate> {
    let key = rate_key(model);
    if is_unpriceable(after_last(key, '/')) {
        None
    } else if table.contains_key(key) {
        Some(table[key])
    } else {
        None
    }
}

fn is_unpriceable_name(bare: &String) -> (b: bool)
    ensures
        b == is_unpriceable(bare@),
{
    if bare.as_str().is_empty() {
        return true;
    }
    let names = ["<synthetic>", "synthetic", "opus", "sonnet", "haiku", "fable"];
    let mut found = false;
    let mut i: usize = 0;
    while i < 6
        invariant
            i <= 6,
            names@ == seq!["<synthetic>", "synthetic", "opus", "sonnet", "haiku", "fable"],
            found == exists|j: int| 0 <= j < i && bare@ == (#[trigger] names@[j])@,
        decreases 6 - i,
    {
        let name = String::from_str(names[i]);
        if name == *bare {
            found = true;
        }
        i = i + 1;
    }
    proof {
        if is_unpriceable(bare@) {
            if bare@ == "<synthetic>"@ { assert(bare@ == names@[0]@); }
            if bare@ == "synthetic"@ { assert(bare@ == names@[1]@); }
            if bare@ == "opus"@ { assert(bare@ == names@[2]@); }
            if bare@ == "sonnet"@ { assert(bare@ == names@[3]@); }
            if bare@ == "haiku"@ { assert(bare@ == names@[4]@); }
            if bare@ == "fable"@ { assert(bare@ == names@[5]@); }
        }
    }
    found
}

/// Looks up the rate for `model`: the id is trimmed, stripped of a variant
/// suffix and lowercased; unpriceable names and absent ids give `None`.
pub fn lookup_rate(table: &RateTable, model: &str) -> (r: Option<ModelRate>)
    ensures
        r == lookup_spec(table.view_map(), model@),
{
    let trimmed = trim(model);
    let base = strip_variant_suffix(trimmed.as_str());
    let key = to_lowercase(base.as_str());
    let bare = bare_name(key.as_str());
    if is_unpriceable_name(&bare) {
        return None;
    }
    table.get(&key)
}

/// How a turn is to be priced, decided before any arithmetic.
#[derive(Clone, Copy, Debug, PartialEq, Eq, Structural)]
pub enum Pricing {
    /// The transcript's own finite `costUSD` (bit pattern) is the cost.
    Reported(u64),
    /// The cost is the token counts times this rate.
    Rated(ModelRate),
    /// No rate applies: the cost is zero and the turn is flagged.
    Unpriced,
}

impl Pricing {
    /// Where a figure priced this way comes from.
    pub open spec fn source_spec(self) -> CostSource {
        match self {
            Pricing::Reported(_) => CostSource::ProviderReported,
            Pricing::Rated(_) => CostSource::ModelPriced,
            Pricing::Unpriced => CostSource::Unpriced,
        }
    }

    /// Where a figure priced this way comes from.
    pub fn source(&self) -> (s: CostSource)
        ensures
            s == self.source_spec(),
    {
        match self {
            Pricing::Reported(_) => CostSource::ProviderReported,
            Pricing::Rated(_) => CostSource::ModelPriced,
            Pricing::Unpriced => CostSource::Unpriced,
        }
    }
}

/// The precedence for pricing a turn: a finite reported cost wins, then a
/// matched rate, else the turn is unpriced.
pub open spec fn pricing_spec(
    table: Map<Seq<char>, ModelRate>,
    model: Seq<char>,
    reported_cost_usd: Option<u64>,
) -> Pricing {
    match reported_cost_usd {
        Some(c) if binary64_is_finite(c) => Pricing::Reported(c),
        _ => match lookup_spec(table, model) {
            Some(rate) => Pricing::Rated(rate),
            None => Pricing::Unpriced,
        },
    }
}

/// Decides how one turn is priced.
pub fn pricing_for(table: &RateTable, model: &str, reported_cost_usd: Option<u64>) -> (p: Pricing)
    ensures
        p == pricing_spec(table.view_map(), model@, reported_cost_usd),
{
    match finite(reported_cost_usd) {
        Some(c) => Pricing::Reported(c),
        None => match lookup_rate(table, model) {
            Some(rate) => Pricing::Rated(rate),
            None => Pricing::Unpriced,
        },
    }
}

/// One entry of a pricing document, as plain values: the model name and,
/// for each rate field, the binary64 bit pattern of its number when the field
/// holds a number.
#[derive(Debug)]
pub struct RateEntry {
    pub name: String,
    /// `input_cost_per_token`.
    pub input: Option<u64>,
    /// `output_cost_per_token`.
    pub output: Option<u64>,
    /// `cache_read_input_token_cost`.
    pub cache_read: Option<u64>,
    /// `cache_creation_input_token_cost`.
    pub cache_creation: Option<u64>,
}

/// A field's value when it is present and finite.
pub open spec fn finite_spec(value: Option<u64>) -> Option<u64> {
    match value {
        Some(b) => if binary64_is_finite(b) { Some(b) } else { None },
        None => None,
    }
}

/// The rate an entry defines: both core rates must be finite; cache rates
/// fall back to the input rate.
pub open spec fn entry_rate(e: RateEntry) -> Option<ModelRate> {
    match (finite_spec(e.input), finite_spec(e.output)) {
        (Some(input), Some(output)) => Some(ModelRate {
            input,
            output,
            cache_read: match finite_spec(e.cache_read) { Some(c) => c, None => input },
            cache_creation: match finite_spec(e.cache_creation) { Some(c) => c, None => input },
        }),
        _ => None,
    }
}

/// The table key of an entry: its trimmed, lowercased name.
pub open spec fn entry_key(e: RateEntry) -> Seq<char> {
    unicode_lowercase(trim_spec(e.name@))
}

/// The canonical rates of a document: each entry with both core rates and a
/// non-empty key, a later entry replacing an earlier one with the same key.
pub open spec fn canonical_rates(entries: Seq<RateEntry>) -> Map<Seq<char>, ModelRate>
    decreases entries.len(),
{
    if entries.len() == 0 {
        Map::empty()
    } else {
        let m = canonical_rates(entries.drop_last());
        let e = entries.last();
        match entry_rate(e) {
            Some(r) => if entry_key(e).len() > 0 { m.insert(entry_key(e), r) } else { m },
            None => m,
        }
    }
}

/// The bare name (last path segment) of a table key.
pub open spec fn alias_of(key: Seq<char>) -> Seq<char> {
    after_last(key, '/')
}

/// Whether `a` is the bare name of some canonical key and is not itself
/// claimed by a canonical entry.
pub open spec fn alias_candidate(base: Map<Seq<char>, ModelRate>, a: Seq<char>) -> bool {
    &&& a.len() > 0
    &&& !base.contains_key(a)
    &&& exists|k: Seq<char>| base.contains_key(k) && #[trigger] alias_of(k) == a
}

/// Whether every canonical key with bare name `a` has the same rate.
pub open spec fn alias_unambiguous(base: Map<Seq<char>, ModelRate>, a: Seq<char>) -> bool {
    forall|k1: Seq<char>, k2: Seq<char>|
        base.contains_key(k1) && base.contains_key(k2) && #[trigger] alias_of(k1) == a
            && #[trigger] alias_of(k2) == a ==> rate_eq(base[k1], base[k2])
}

/// What a rate table projected from `entries` holds: the canonical rates, and
/// each bare name that no canonical entry claims and on whose rate all its
/// qualified entries agree, with that rate.
pub open spec fn parsed_table_ok(entries: Seq<RateEntry>, t: Map<Seq<char>, ModelRate>) -> bool {
    let base = canonical_rates(entries);
    &&& forall|k: Seq<char>| #[trigger] t.contains_key(k) <==> (base.contains_key(k) || (
        alias_candidate(base, k) && alias_unambiguous(base, k)))
    &&& forall|k: Seq<char>| #[trigger] base.contains_key(k) ==> t[k] == base[k]
    &&& forall|a: Seq<char>| #[trigger] t.contains_key(a) && !base.contains_key(a) ==> exists|k: Seq<char>|
        base.contains_key(k) && #[trigger] alias_of(k) == a && t[a] == base[k]
}

fn entry_rate_exec(e: &RateEntry) -> (r: Option<ModelRate>)
    ensures
        r == entry_rate(*e),
{
    match (finite(e.input), finite(e.output)) {
        (Some(input), Some(output)) => Some(ModelRate {
            input,
            output,
            cache_read: match finite(e.cache_read) { Some(c) => c, None => input },
            cache_creation: match finite(e.cache_creation) { Some(c) => c, None => input },
        }),
        _ => None,
    }
}

fn canonical_table(entries: &Vec<RateEntry>) -> (t: RateTable)
    ensures
        t.view_map() == canonical_rates(entries@),
{
    let mut table = RateTable::new();
    let n = entries.len();
    let mut i: usize = 0;
    while i < n
        invariant
            n == entries@.len(),
            i <= n,
            table.view_map() == canonical_rates(entries@.take(i as int)),
        decreases n - i,
    {
        let e = &entries[i];
        assert(entries@.take(i + 1).drop_last() =~= entries@.take(i as int));
        assert(entries@.take(i + 1).last() == entries@[i as int]);
        match entry_rate_exec(e) {
            Some(rate) => {
                let key = to_lowercase(trim(e.name.as_str()).as_str());
                if !key.as_str().is_empty() {
                    table.insert(key, rate);
                }
            },
            None => {},
        }
        i = i + 1;
    }
    assert(entries@.take(n as int) =~= entries@);
    table
}

/// Projects a pricing document's entries into a rate table.
///
/// An entry is dropped unless it has both an input and an output rate; cache
/// rates fall back to the input rate. A bare model name is aliased to a
/// qualified entry only when no canonical entry claims it and every qualified
/// entry agrees on the rate.
pub fn parse_rate_table(entries: &Vec<RateEntry>) -> (t: RateTable)
    ensures
        parsed_table_ok(entries@, t.view_map()),
{
    let ghost base = canonical_rates(entries@);
    let mut table = canonical_table(entries);
    let ghost ks = table.keys_view();
    proof {
        use_type_invariant(&table);
        table.rates.lemma_map_view_len();
        assert forall|k: Seq<char>| table.view_map().contains_key(k) <==> ks.contains(k) by {
            assert(table.view_map().dom().contains(k) == ks.to_set().contains(k));
        }
    }
    let n = table.len();
    let mut aliases: StrMap<Option<ModelRate>> = StrMap::with_buckets(64);
    let mut i: usize = 0;
    while i < n
        invariant
            n == ks.len(),
            i <= n,
            table.view_map() == base,
            table.keys_view() == ks,
            forall|k: Seq<char>| base.contains_key(k) <==> ks.contains(k),
            aliases.wf(),
            forall|t: int| 0 <= t < aliases.keys_view().len() ==> {
                let a = #[trigger] aliases.keys_view()[t];
                &&& a.len() > 0
                &&& !base.contains_key(a)
                &&& exists|j: int| 0 <= j < i && alias_of(#[trigger] ks[j]) == a
            },
            forall|j: int| 0 <= j < i ==> {
                let a = alias_of(#[trigger] ks[j]);
                a.len() > 0 && !base.contains_key(a) ==> aliases.keys_view().contains(a)
            },
            forall|t: int| 0 <= t < aliases.keys_view().len() ==> {
                let a = aliases.keys_view()[t];
                match #[trigger] aliases.vals_view()[t] {
                    Some(r) => {
                        &&& exists|j: int| 0 <= j < i && alias_of(#[trigger] ks[j]) == a && r == base[ks[j]]
                        &&& forall|j: int| 0 <= j < i && alias_of(#[trigger] ks[j]) == a ==> rate_eq(r, base[ks[j]])
                    },
                    None => exists|j1: int, j2: int|
                        0 <= j1 < i && 0 <= j2 < i && alias_of(#[trigger] ks[j1]) == a && alias_of(
                            #[trigger] ks[j2],
                        ) == a && !rate_eq(base[ks[j1]], base[ks[j2]]),
                }
            },
        decreases n - i,
    {
        let key = table.key_at(i);
        let rate = table.rate_at(i);
        let alias = bare_name(key.as_str());
        assert(ks.contains(ks[i as int]));
        if !alias.as_str().is_empty() && !table.contains_key(&alias) {
            let ghost a = alias@;
            let ghost before = aliases;
            proof { aliases.lemma_wf_facts(); }
            match aliases.index_of(&alias) {
                Some(t) => {
                    let held = *aliases.value_at(t);
                    match held {
                        Some(r) => {
                            if !same_rate(&r, &rate) {
                                aliases.set_value(t, None);
                                proof {
                                    aliases.lemma_wf_facts();
                                    let j1 = choose|j: int| 0 <= j < i && alias_of(#[trigger] ks[j]) == a && r == base[ks[j]];
                                    assert(alias_of(ks[i as int]) == a);
                                    assert forall|tt: int| 0 <= tt < aliases.keys_view().len() implies {
                                        let aa = aliases.keys_view()[tt];
                                        match #[trigger] aliases.vals_view()[tt] {
                                            Some(rr) => {
                                                &&& exists|j: int| 0 <= j < i + 1 && alias_of(#[trigger] ks[j]) == aa && rr == base[ks[j]]
                                                &&& forall|j: int| 0 <= j < i + 1 && alias_of(#[trigger] ks[j]) == aa ==> rate_eq(rr, base[ks[j]])
                                            },
                                            None => exists|j1: int, j2: int|
                                                0 <= j1 < i + 1 && 0 <= j2 < i + 1 && alias_of(#[trigger] ks[j1]) == aa && alias_of(
                                                    #[trigger] ks[j2],
                                                ) == aa && !rate_eq(base[ks[j1]], base[ks[j2]]),
                                        }
                                    } by {
                                        if tt == t {
                                            assert(alias_of(ks[j1]) == a && alias_of(ks[i as int]) == a
                                                && !rate_eq(base[ks[j1]], base[ks[i as int]]));
                                        } else {
                                            assert(aliases.vals_view()[tt] == before.vals_view()[tt]);
                                            assert(aliases.keys_view()[tt] != a);
                                        }
                                    }
                                }
                            } else {
                                proof {
                                    assert forall|tt: int| 0 <= tt < aliases.keys_view().len() implies {
                                        let aa = aliases.keys_view()[tt];
                                        match #[trigger] aliases.vals_view()[tt] {
                                            Some(rr) => {
                                                &&& exists|j: int| 0 <= j < i + 1 && alias_of(#[trigger] ks[j]) == aa && rr == base[ks[j]]
                                                &&& forall|j: int| 0 <= j < i + 1 && alias_of(#[trigger] ks[j]) == aa ==> rate_eq(rr, base[ks[j]])
                                            },
                                            None => exists|j1: int, j2: int|
                                                0 <= j1 < i + 1 && 0 <= j2 < i + 1 && alias_of(#[trigger] ks[j1]) == aa && alias_of(
                                                    #[trigger] ks[j2],
                                                ) == aa && !rate_eq(base[ks[j1]], base[ks[j2]]),
                                        }
                                    } by {
                                        if tt == t {
                                        } else {
                                            assert(aliases.keys_view()[tt] != a);
                                        }
                                    }
                                }
                            }
                        },
                        None => {},
                    }
                },
                None => {
                    aliases.push_new(alias, Some(rate));
                    proof {
                        aliases.lemma_wf_facts();
                        assert(alias_of(ks[i as int]) == a);
                        assert forall|j: int| 0 <= j < i + 1 implies {
                            let aa = alias_of(#[trigger] ks[j]);
                            aa.len() > 0 && !base.contains_key(aa) ==> aliases.keys_view().contains(aa)
                        } by {
                            let aa = alias_of(ks[j]);
                            if j < i && aa.len() > 0 && !base.contains_key(aa) {
                                let tt = choose|tt: int| 0 <= tt < before.keys_view().len() && before.keys_view()[tt] == aa;
                                assert(aliases.keys_view()[tt] == aa);
                            } else if j == i {
                                assert(aliases.keys_view()[before.keys_view().len() as int] == a);
                            }
                        }
                        assert forall|tt: int| 0 <= tt < aliases.keys_view().len() implies {
                            let aa = aliases.keys_view()[tt];
                            match #[trigger] aliases.vals_view()[tt] {
                                Some(rr) => {
                                    &&& exists|j: int| 0 <= j < i + 1 && alias_of(#[trigger] ks[j]) == aa && rr == base[ks[j]]
                                    &&& forall|j: int| 0 <= j < i + 1 && alias_of(#[trigger] ks[j]) == aa ==> rate_eq(rr, base[ks[j]])
                                },
                                None => exists|j1: int, j2: int|
                                    0 <= j1 < i + 1 && 0 <= j2 < i + 1 && alias_of(#[trigger] ks[j1]) == aa && alias_of(
                                        #[trigger] ks[j2],
                                    ) == aa && !rate_eq(base[ks[j1]], base[ks[j2]]),
                            }
                        } by {
                            if tt == before.keys_view().len() {
                                assert forall|j: int| 0 <= j < i + 1 && alias_of(#[trigger] ks[j]) == a implies rate_eq(rate, base[ks[j]]) by {
                                    if j < i {
                                        assert(before.keys_view().contains(a));
                                    }
                                }
                            } else {
                                assert(aliases.vals_view()[tt] == before.vals_view()[tt]);
                                assert(aliases.keys_view()[tt] == before.keys_view()[tt]);
                                let aa = aliases.keys_view()[tt];
                                assert(aa != a);
                            }
                        }
                    }
                },
            }
        }
        i = i + 1;
    }
    let m = aliases.len();
    proof {
        aliases.lemma_wf_facts();
        assert forall|t: int| 0 <= t < m implies !base.contains_key(#[trigger] aliases.keys_view()[t]) by {
            let a = aliases.keys_view()[t];
        }
    }
    let mut u: usize = 0;
    while u < m
        invariant
            m == aliases.keys_view().len(),
            m == aliases.vals_view().len(),
            u <= m,
            aliases.wf(),
            aliases.keys_view().no_duplicates(),
            forall|t: int| 0 <= t < m ==> !base.contains_key(#[trigger] aliases.keys_view()[t]),
            forall|k: Seq<char>| #[trigger] table.view_map().contains_key(k) <==> (base.contains_key(k) || exists|t: int|
                0 <= t < u && aliases.keys_view()[t] == k && (#[trigger] aliases.vals_view()[t]) is Some),
            forall|k: Seq<char>| #[trigger] base.contains_key(k) ==> table.view_map()[k] == base[k],
            forall|t: int| 0 <= t < u && (#[trigger] aliases.vals_view()[t]) is Some ==>
                table.view_map()[aliases.keys_view()[t]] == aliases.vals_view()[t]->Some_0,
        decreases m - u,
    {
        let held = *aliases.value_at(u);
        match held {
            Some(r) => {
                let a = aliases.key_at(u).clone();
                let ghost before = table.view_map();
                table.insert(a, r);
                proof {
                    assert forall|t: int| 0 <= t < u && (#[trigger] aliases.vals_view()[t]) is Some implies
                        table.view_map()[aliases.keys_view()[t]] == aliases.vals_view()[t]->Some_0 by {
                        assert(aliases.keys_view()[t] != aliases.keys_view()[u as int]);
                    }
                }
            },
            None => {},
        }
        u = u + 1;
    }
    proof {
        let t = table.view_map();
        assert forall|k: Seq<char>| #[trigger] t.contains_key(k) <==> (base.contains_key(k) || (
            alias_candidate(base, k) && alias_unambiguous(base, k))) by {
            if alias_candidate(base, k) && alias_unambiguous(base, k) && !base.contains_key(k) {
                let kk = choose|kk: Seq<char>| base.contains_key(kk) && #[trigger] alias_of(kk) == k;
                let j = ks.index_of(kk);
                assert(alias_of(ks[j]) == k);
                let tt = choose|tt: int| 0 <= tt < aliases.keys_view().len() && aliases.keys_view()[tt] == k;
                if aliases.vals_view()[tt] is None {
                    let (j1, j2) = choose|j1: int, j2: int|
                        0 <= j1 < n && 0 <= j2 < n && alias_of(#[trigger] ks[j1]) == k && alias_of(
                            #[trigger] ks[j2],
                        ) == k && !rate_eq(base[ks[j1]], base[ks[j2]]);
                    assert(ks.contains(ks[j1]) && ks.contains(ks[j2]));
                    assert(rate_eq(base[ks[j1]], base[ks[j2]]));
                }
            }
            if t.contains_key(k) && !base.contains_key(k) {
                let tt = choose|tt: int| 0 <= tt < m && aliases.keys_view()[tt] == k && (#[trigger] aliases.vals_view()[tt]) is Some;
                let r = aliases.vals_view()[tt]->Some_0;
                assert forall|k1: Seq<char>, k2: Seq<char>|
                    base.contains_key(k1) && base.contains_key(k2) && #[trigger] alias_of(k1) == k
                        && #[trigger] alias_of(k2) == k implies rate_eq(base[k1], base[k2]) by {
                    let j1 = ks.index_of(k1);
                    let j2 = ks.index_of(k2);
                    assert(alias_of(ks[j1]) == k);
                    assert(alias_of(ks[j2]) == k);
                    assert(rate_eq(r, base[ks[j1]]));
                    assert(rate_eq(r, base[ks[j2]]));
                }
                let j = choose|j: int| 0 <= j < n && alias_of(#[trigger] ks[j]) == k && r == base[ks[j]];
                assert(ks.contains(ks[j]));
            }
        }
        assert forall|a: Seq<char>| #[trigger] t.contains_key(a) && !base.contains_key(a) implies exists|k: Seq<char>|
            base.contains_key(k) && #[trigger] alias_of(k) == a && t[a] == base[k] by {
            let tt = choose|tt: int| 0 <= tt < m && aliases.keys_view()[tt] == a && (#[trigger] aliases.vals_view()[tt]) is Some;
            let r = aliases.vals_view()[tt]->Some_0;
            let j = choose|j: int| 0 <= j < n && alias_of(#[trigger] ks[j]) == a && r == base[ks[j]];
            assert(ks.contains(ks[j]));
            assert(base.contains_key(ks[j]) && alias_of(ks[j]) == a && t[a] == base[ks[j]]);
        }
    }
    table
}

/// A bracketed variant suffix never changes which base id a key names.
pub proof fn law_variant_suffix_ignored(key: Seq<char>, variant: Seq<char>)
    requires
        !key.contains('['),
    ensures
        before_first(key + seq!['['] + variant, '[') == key,
        before_first(key, '[') == key,
    decreases key.len(),
{
    if key.len() == 0 {
        assert(key + seq!['['] + variant =~= seq!['['] + variant);
    } else {
        let rest = key.drop_first();
        assert(!rest.contains('[')) by {
            if rest.contains('[') {
                let t = choose|t: int| 0 <= t < rest.len() && rest[t] == '[';
                assert(key[t + 1] == '[');
            }
        }
        law_variant_suffix_ignored(rest, variant);
        assert((key + seq!['['] + variant).drop_first() =~= rest + seq!['['] + variant);
        assert(key[0] != '[');
        assert(seq![key[0]] + rest =~= key);
    }
}

/// Pricing precedence: a finite reported cost always wins; otherwise a turn
/// is model-priced exactly when a rate applies, and unpriced (never guessed)
/// exactly when none does.
pub proof fn law_pricing_precedence(
    table: Map<Seq<char>, ModelRate>,
    model: Seq<char>,
    reported_cost_usd: Option<u64>,
)
    ensures
        forall|c: u64| reported_cost_usd == Some(c) && binary64_is_finite(c) ==> pricing_spec(table, model, reported_cost_usd)
            == Pricing::Reported(c),
        !(reported_cost_usd matches Some(c) && binary64_is_finite(c)) ==> (pricing_spec(
            table,
            model,
            reported_cost_usd,
        ).source_spec() == CostSource::ModelPriced <==> lookup_spec(table, model) is Some),
        !(reported_cost_usd matches Some(c) && binary64_is_finite(c)) ==> (pricing_spec(
            table,
            model,
            reported_cost_usd,
        ).source_spec() == CostSource::Unpriced <==> lookup_spec(table, model) is None),
{
}

/// Unpriceable names (empty, synthetic turns, bare family names) are never
/// priced, whatever the table holds.
pub proof fn law_unpriceable_never_priced(table: Map<Seq<char>, ModelRate>, model: Seq<char>)
    requires
        is_unpriceable(after_last(rate_key(model), '/')),
    ensures
        lookup_spec(table, model) is None,
{
}

/// A rated turn carries exactly the table's rate for its model, each token
/// class at its own field: a turn with no finite reported cost is priced at
/// `Rated(r)` exactly when the lookup finds `r`, which is the table's entry
/// under the model's normalized key.
pub proof fn law_rated_turns_use_the_table_rate(
    table: Map<Seq<char>, ModelRate>,
    model: Seq<char>,
    reported_cost_usd: Option<u64>,
    r: ModelRate,
)
    ensures
        pricing_spec(table, model, reported_cost_usd) == Pricing::Rated(r) ==> lookup_spec(table, model) == Some(r),
        pricing_spec(table, model, reported_cost_usd) == Pricing::Rated(r) ==> table.contains_key(rate_key(model))
            && table[rate_key(model)] == r,
        !(reported_cost_usd matches Some(c) && binary64_is_finite(c)) && lookup_spec(table, model) == Some(r)
            ==> pricing_spec(table, model, reported_cost_usd) == Pricing::Rated(r),
        lookup_spec(table, model) == Some(r) ==> table.contains_key(rate_key(model)) && table[rate_key(model)] == r,
        !is_unpriceable(after_last(rate_key(model), '/')) && table.contains_key(rate_key(model)) ==> lookup_spec(
            table,
            model,
        ) == Some(table[rate_key(model)]),
{
}

/// A reported cost is used exactly when it is finite, whatever the table
/// says: a finite reported cost `c` prices the turn at `Reported(c)`, and a
/// turn priced `Reported(c)` had reported `c`.
pub proof fn law_reported_cost_wins(table: Map<Seq<char>, ModelRate>, model: Seq<char>, reported_cost_usd: Option<u64>, c: u64)
    ensures
        reported_cost_usd == Some(c) && binary64_is_finite(c) ==> pricing_spec(table, model, reported_cost_usd)
            == Pricing::Reported(c),
        pricing_spec(table, model, reported_cost_usd) == Pricing::Reported(c) ==> reported_cost_usd == Some(c)
            && binary64_is_finite(c),
{
}

/// An entry's rate takes each field from its own column: input and output
/// from theirs, each cache rate from its own column when that holds a finite
/// number and from the input rate otherwise.
pub proof fn law_entry_fields_keep_their_columns(e: RateEntry)
    requires
        e.input matches Some(i) && binary64_is_finite(i),
        e.output matches Some(o) && binary64_is_finite(o),
    ensures
        (entry_rate(e) matches Some(r) && r.input == e.input->Some_0 && r.output == e.output->Some_0
            && r.cache_read == (if e.cache_read matches Some(c) && binary64_is_finite(c) {
            e.cache_read->Some_0
        } else {
            e.input->Some_0
        }) && r.cache_creation == (if e.cache_creation matches Some(c) && binary64_is_finite(c) {
            e.cache_creation->Some_0
        } else {
            e.input->Some_0
        })),
{
}

/// The table projected from a document holds, under each entry's key, that
/// entry's rates column by column, unless a later entry with both core rates
/// claims the same key.
pub proof fn law_table_holds_the_last_entry_rate(entries: Seq<RateEntry>, t: Map<Seq<char>, ModelRate>, i: int)
    requires
        parsed_table_ok(entries, t),
        0 <= i < entries.len(),
        entries[i].input matches Some(x) && binary64_is_finite(x),
        entries[i].output matches Some(y) && binary64_is_finite(y),
        entry_key(entries[i]).len() > 0,
        forall|j: int| i < j < entries.len() && entry_key(#[trigger] entries[j]) == entry_key(entries[i]) ==> entry_rate(
            entries[j],
        ) is None,
    ensures
        t.contains_key(entry_key(entries[i])),
        t[entry_key(entries[i])].input == entries[i].input->Some_0,
        t[entry_key(entries[i])].output == entries[i].output->Some_0,
        t[entry_key(entries[i])].cache_read == (if entries[i].cache_read matches Some(c) && binary64_is_finite(c) {
            entries[i].cache_read->Some_0
        } else {
            entries[i].input->Some_0
        }),
        t[entry_key(entries[i])].cache_creation == (if entries[i].cache_creation matches Some(c) && binary64_is_finite(
            c,
        ) {
            entries[i].cache_creation->Some_0
        } else {
            entries[i].input->Some_0
        }),
{
    law_entry_fields_keep_their_columns(entries[i]);
    lemma_canonical_last(entries, i);
}

proof fn lemma_canonical_last(entries: Seq<RateEntry>, i: int)
    requires
        0 <= i < entries.len(),
        entry_rate(entries[i]) is Some,
        entry_key(entries[i]).len() > 0,
        forall|j: int| i < j < entries.len() && entry_key(#[trigger] entries[j]) == entry_key(entries[i]) ==> entry_rate(
            entries[j],
        ) is None,
    ensures
        canonical_rates(entries).contains_key(entry_key(entries[i])),
        canonical_rates(entries)[entry_key(entries[i])] == entry_rate(entries[i])->Some_0,
    decreases entries.len(),
{
    let n = entries.len() as int;
    if i < n - 1 {
        let init = entries.drop_last();
        assert(init[i] == entries[i]);
        assert forall|j: int| i < j < init.len() && entry_key(#[trigger] init[j]) == entry_key(init[i]) implies entry_rate(
            init[j],
        ) is None by {
            assert(init[j] == entries[j]);
        }
        lemma_canonical_last(init, i);
        assert(entries.last() == entries[n - 1]);
    }
}

/// The locally generated and the bare family names are never priced, under
/// any path prefix, whatever the table holds.
pub proof fn law_named_unpriceable_ids(table: Map<Seq<char>, ModelRate>, model: Seq<char>)
    ensures
        after_last(rate_key(model), '/').len() == 0 ==> lookup_spec(table, model) is None,
        after_last(rate_key(model), '/') == "<synthetic>"@ ==> lookup_spec(table, model) is None,
        after_last(rate_key(model), '/') == "synthetic"@ ==> lookup_spec(table, model) is None,
        after_last(rate_key(model), '/') == "opus"@ ==> lookup_spec(table, model) is None,
        after_last(rate_key(model), '/') == "sonnet"@ ==> lookup_spec(table, model) is None,
        after_last(rate_key(model), '/') == "haiku"@ ==> lookup_spec(table, model) is None,
        after_last(rate_key(model), '/') == "fable"@ ==> lookup_spec(table, model) is None,
{
}

/// A bare name enters the table only as an alias that all its qualified
/// entries agree on: when the projected table holds a key that no canonical
/// entry claims, some canonical key ends in that bare name, every canonical
/// key ending in it has the same rate, and the alias has that rate.
pub proof fn law_aliases_only_when_unambiguous(entries: Seq<RateEntry>, t: Map<Seq<char>, ModelRate>, a: Seq<char>)
    requires
        parsed_table_ok(entries, t),
        t.contains_key(a),
        !canonical_rates(entries).contains_key(a),
    ensures
        a.len() > 0,
        exists|k: Seq<char>| canonical_rates(entries).contains_key(k) && #[trigger] after_last(k, '/') == a
            && t[a] == canonical_rates(entries)[k],
        forall|k1: Seq<char>, k2: Seq<char>|
            canonical_rates(entries).contains_key(k1) && canonical_rates(entries).contains_key(k2)
                && #[trigger] after_last(k1, '/') == a && #[trigger] after_last(k2, '/') == a ==> rate_eq(
                canonical_rates(entries)[k1],
                canonical_rates(entries)[k2],
            ),
{
    let base = canonical_rates(entries);
    assert(alias_candidate(base, a) && alias_unambiguous(base, a));
    assert forall|k1: Seq<char>, k2: Seq<char>|
        base.contains_key(k1) && base.contains_key(k2) && #[trigger] after_last(k1, '/') == a
            && #[trigger] after_last(k2, '/') == a implies rate_eq(base[k1], base[k2]) by {
        assert(alias_of(k1) == a && alias_of(k2) == a);
    }
    let k = choose|k: Seq<char>| base.contains_key(k) && #[trigger] alias_of(k) == a && t[a] == base[k];
    assert(after_last(k, '/') == a);
}

proof fn lemma_trim_start_append(m: Seq<char>, x: Seq<char>)
    ensures
        trim_start_spec(m + x) == (if trim_start_spec(m).len() > 0 {
            trim_start_spec(m) + x
        } else {
            trim_start_spec(x)
        }),
    decreases m.len(),
{
    if m.len() == 0 {
        assert(m + x =~= x);
    } else if unicode_white_space(m[0]) {
        assert((m + x).drop_first() =~= m.drop_first() + x);
        assert((m + x)[0] == m[0]);
        lemma_trim_start_append(m.drop_first(), x);
    } else {
        assert((m + x)[0] == m[0]);
    }
}

/// White space around a model id never changes its rate: a leading or
/// trailing space is ignored.
pub proof fn law_padding_ignored(table: Map<Seq<char>, ModelRate>, model: Seq<char>)
    ensures
        lookup_spec(table, seq![' '] + model) == lookup_spec(table, model),
        lookup_spec(table, model + seq![' ']) == lookup_spec(table, model),
{
    let lead = seq![' '] + model;
    assert(lead.drop_first() =~= model);
    assert(trim_start_spec(lead) == trim_start_spec(model));
    let tail = model + seq![' '];
    lemma_trim_start_append(model, seq![' ']);
    let y = trim_start_spec(model);
    if y.len() > 0 {
        assert((y + seq![' ']).drop_last() =~= y);
        assert(trim_end_spec(y + seq![' ']) == trim_end_spec(y));
    } else {
        assert(seq![' '].drop_first() =~= Seq::<char>::empty());
        assert(trim_start_spec(Seq::<char>::empty()) == Seq::<char>::empty());
        assert(trim_start_spec(seq![' ']) == Seq::<char>::empty());
    }
    assert(trim_spec(tail) == trim_spec(model));
}

/// A bracketed variant after a trimmed model id never changes its rate: the
/// id with a suffix such as `[1m]` prices exactly as the id alone.
pub proof fn law_variant_prices_as_its_base(table: Map<Seq<char>, ModelRate>, model: Seq<char>, variant: Seq<char>)
    requires
        !model.contains('['),
        trim_spec(model) == model,
        variant.len() > 0,
        !unicode_white_space(variant.last()),
    ensures
        lookup_spec(table, model + seq!['['] + variant) == lookup_spec(table, model),
{
    let full = model + seq!['['] + variant;
    let y = seq!['['] + variant;
    assert(full =~= model + y);
    lemma_trim_start_append(model, y);
    assert(y.len() > 0 && y[0] == '[');
    assert(trim_start_spec(y) == y);
    if model.len() > 0 {
        assert(!unicode_white_space(model[0])) by {
            if unicode_white_space(model[0]) {
                assert(trim_start_spec(model) == trim_start_spec(model.drop_first()));
                crate::text::lemma_trim_start_shorter(model.drop_first());
                crate::text::lemma_trim_end_shorter(trim_start_spec(model));
            }
        }
        assert(trim_start_spec(model) == model);
    } else {
        assert(trim_start_spec(model) == model);
    }
    assert(trim_start_spec(full) == full);
    assert(full.last() == variant.last());
    assert(trim_end_spec(full) == full);
    law_variant_suffix_ignored(model, variant);
}

} // verus!
