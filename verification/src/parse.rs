//! Turning one transcript line into a usage record.
//!
//! The JSON document is decoded elsewhere into a [`TranscriptLine`] of plain
//! optional fields; this module makes every decision about which lines are
//! billable turns and what record they yield.

use vstd::prelude::*;
use crate::pricing::{binary64_is_finite, finite};
use crate::record::{TokenTotals, UsageRecord};
use crate::text::{contains_run, str_contains};

verus! {

/// Whether `line` contains the literal `"usage"` (with its quotes).
///
/// A line without it can never produce a record; this test is far cheaper
/// than decoding the line.
pub fn might_carry_usage(line: &str) -> (b: bool)
    ensures
        b == contains_run(line@, "\"usage\""@),
{
    str_contains(line, "\"usage\"")
}

/// The token counts of a `message.usage` block (absent counts are zero).
#[derive(Clone, Copy, Debug)]
pub struct TranscriptUsage {
    pub input_tokens: u64,
    pub cache_read_input_tokens: u64,
    pub cache_creation_input_tokens: u64,
    pub output_tokens: u64,
}

/// The `message` object of a transcript line.
#[derive(Debug)]
pub struct TranscriptMessage {
    pub model: Option<String>,
    pub id: Option<String>,
    pub usage: Option<TranscriptUsage>,
}

/// The fields of one transcript line that the tracker reads.
#[derive(Debug)]
pub struct TranscriptLine {
    /// `type`.
    pub kind: Option<String>,
    pub timestamp: Option<String>,
    /// `requestId`.
    pub request_id: Option<String>,
    /// `sessionId`.
    pub session_id: Option<String>,
    pub cwd: Option<String>,
    /// `costUSD`, as the bit pattern of its binary64 value.
    pub cost_usd: Option<u64>,
    pub message: Option<TranscriptMessage>,
}

/// The Unix-millisecond instant that an RFC 3339 timestamp text denotes, as
/// jiff's `Timestamp` parser computes it (`None` when it rejects the text).
pub uninterp spec fn timestamp_millis(text: Seq<char>) -> Option<i64>;

/// Parses an RFC 3339 timestamp into Unix milliseconds.
///
/// Trusted: calls jiff's `FromStr` for `Timestamp`, which needs an offset in
/// the text and ignores any bracketed time zone, then `as_millisecond`, which
/// truncates fractional milliseconds. The result depends on the text alone
/// and is named [`timestamp_millis`]; nothing more of it is stated.
#[verifier::external_body]
pub(crate) fn parse_timestamp_ms(raw: &str) -> (r: Option<i64>)
    ensures
        r == timestamp_millis(raw@),
{
    match raw.parse::<jiff::Timestamp>() {
        Ok(ts) => Some(ts.as_millisecond()),
        Err(_) => None,
    }
}

/// The characters of an optional string, empty when absent.
pub open spec fn or_empty(s: Option<String>) -> Seq<char> {
    match s {
        Some(v) => v@,
        None => Seq::empty(),
    }
}

/// Whether a line is a billable assistant turn: `type` is `assistant`, the
/// message carries a usage block, the timestamp parses, and the model is
/// non-empty.
pub open spec fn is_billable(line: TranscriptLine) -> bool {
    &&& line.kind matches Some(k) && k@ == "assistant"@
    &&& line.message matches Some(m) && m.usage is Some
        && (m.model matches Some(model) && model@.len() > 0)
    &&& line.timestamp matches Some(ts) && timestamp_millis(ts@) is Some
}

/// The dedupe key of a line: `"{message.id}:{requestId}"`, a missing half
/// written as empty, and no key when both halves are missing.
pub open spec fn dedupe_key_spec(id: Option<String>, request_id: Option<String>) -> Option<Seq<char>> {
    if id is None && request_id is None {
        None
    } else {
        Some(or_empty(id) + ":"@ + or_empty(request_id))
    }
}

/// What record a billable line yields.
pub open spec fn record_matches(line: TranscriptLine, r: UsageRecord) -> bool {
    let m = line.message->Some_0;
    let u = m.usage->Some_0;
    &&& r.timestamp_ms == timestamp_millis(line.timestamp->Some_0@)->Some_0
    &&& r.model@ == m.model->Some_0@
    &&& r.session_id@ == or_empty(line.session_id)
    &&& r.project@ == or_empty(line.cwd)
    &&& r.totals == TokenTotals {
        uncached_input: u.input_tokens,
        cached_input: u.cache_read_input_tokens,
        cache_creation: u.cache_creation_input_tokens,
        output: u.output_tokens,
    }
    &&& r.reported_cost_usd == (match line.cost_usd {
        Some(c) => if binary64_is_finite(c) { Some(c) } else { None },
        None => None,
    })
    &&& (match r.dedupe_key {
        Some(k) => dedupe_key_spec(m.id, line.request_id) == Some(k@),
        None => dedupe_key_spec(m.id, line.request_id) is None,
    })
}

fn text_or_empty(s: &Option<String>) -> (r: String)
    ensures
        r@ == or_empty(*s),
{
    match s {
        Some(v) => v.clone(),
        None => String::new(),
    }
}

fn is_assistant(kind: &Option<String>) -> (b: bool)
    ensures
        b == (kind matches Some(k) && k@ == "assistant"@),
{
    match kind {
        Some(k) => {
            let assistant = String::from_str("assistant");
            *k == assistant
        },
        None => false,
    }
}

/// Turns one decoded transcript line into a usage record, or `None` when the
/// line is not a billable assistant turn.
pub fn record_from_line(line: &TranscriptLine) -> (r: Option<UsageRecord>)
    ensures
        r is Some <==> is_billable(*line),
        r matches Some(rec) ==> record_matches(*line, rec),
{
    if !is_assistant(&line.kind) {
        return None;
    }
    let message = match &line.message {
        Some(m) => m,
        None => return None,
    };
    let usage = match &message.usage {
        Some(u) => u,
        None => return None,
    };
    let timestamp_ms = match &line.timestamp {
        Some(ts) => match parse_timestamp_ms(ts.as_str()) {
            Some(ms) => ms,
            None => return None,
        },
        None => return None,
    };
    let model = match &message.model {
        Some(m) => {
            if m.as_str().is_empty() {
                return None;
            }
            m.clone()
        },
        None => return None,
    };
    let dedupe_key = if message.id.is_none() && line.request_id.is_none() {
        None
    } else {
        let mut key = text_or_empty(&message.id);
        key.append(":");
        let req = text_or_empty(&line.request_id);
        key.append(req.as_str());
        Some(key)
    };
    Some(UsageRecord {
        timestamp_ms,
        model,
        session_id: text_or_empty(&line.session_id),
        project: text_or_empty(&line.cwd),
        totals: TokenTotals {
            uncached_input: usage.input_tokens,
            cached_input: usage.cache_read_input_tokens,
            cache_creation: usage.cache_creation_input_tokens,
            output: usage.output_tokens,
        },
        reported_cost_usd: finite(line.cost_usd),
        dedupe_key,
    })
}

/// Which lines count: an `assistant` line with a usage block, a timestamp
/// that parses and a non-empty model is a billable turn whatever the model
/// text says (a locally generated `<synthetic>` turn included), and its
/// record carries that model text unchanged.
pub proof fn law_every_named_model_is_counted(line: TranscriptLine, r: UsageRecord)
    requires
        line.kind matches Some(k) && k@ == "assistant"@,
        line.message matches Some(m) && m.usage is Some && (m.model matches Some(model) && model@.len() > 0),
        line.timestamp matches Some(ts) && timestamp_millis(ts@) is Some,
    ensures
        is_billable(line),
        record_matches(line, r) ==> r.model@ == line.message->Some_0.model->Some_0@,
{
}

/// Whether a line counts depends on its model only through the model being
/// present and non-empty: two lines that differ only in their (non-empty)
/// model text are both billable or both not.
pub proof fn law_model_text_does_not_decide_billing(l1: TranscriptLine, l2: TranscriptLine)
    requires
        l1.kind == l2.kind,
        l1.timestamp == l2.timestamp,
        l1.message matches Some(m1) && m1.model matches Some(a) && a@.len() > 0,
        l2.message matches Some(m2) && m2.model matches Some(b) && b@.len() > 0,
        (l1.message->Some_0.usage is Some) == (l2.message->Some_0.usage is Some),
    ensures
        is_billable(l1) == is_billable(l2),
{
}

/// A line without a usage block, without a model, with an empty model, with
/// an unparsable timestamp, or of another kind is not a billable turn.
pub proof fn law_only_complete_assistant_turns_count(line: TranscriptLine)
    ensures
        is_billable(line) ==> (line.kind matches Some(k) && k@ == "assistant"@),
        is_billable(line) ==> (line.message matches Some(m) && m.usage is Some && (m.model matches Some(model)
            && model@.len() > 0)),
        is_billable(line) ==> (line.timestamp matches Some(ts) && timestamp_millis(ts@) is Some),
{
}

/// A record takes each field from its own place in the line: the parsed
/// timestamp, the model, the session and working directory (empty when
/// absent), each token class from its own usage count, the reported cost
/// only when it is a finite number, and the dedupe key `id:requestId`.
pub proof fn law_record_fields_come_from_their_columns(line: TranscriptLine, r: UsageRecord)
    requires
        is_billable(line),
        record_matches(line, r),
    ensures
        line.timestamp matches Some(ts) && timestamp_millis(ts@) == Some(r.timestamp_ms),
        line.message matches Some(m) && (m.model matches Some(model) && r.model@ == model@),
        r.session_id@ == (match line.session_id { Some(v) => v@, None => Seq::empty() }),
        r.project@ == (match line.cwd { Some(v) => v@, None => Seq::empty() }),
        line.message matches Some(m) && (m.usage matches Some(u) && r.totals.uncached_input == u.input_tokens
            && r.totals.cached_input == u.cache_read_input_tokens
            && r.totals.cache_creation == u.cache_creation_input_tokens && r.totals.output == u.output_tokens),
        forall|c: u64| line.cost_usd == Some(c) && binary64_is_finite(c) ==> r.reported_cost_usd == Some(c),
        !(line.cost_usd matches Some(c) && binary64_is_finite(c)) ==> r.reported_cost_usd is None,
        line.message matches Some(m) && (m.id is None && line.request_id is None ==> r.dedupe_key is None),
        line.message->Some_0.id is Some && line.request_id is Some ==> (r.dedupe_key matches Some(k) && k@
            == line.message->Some_0.id->Some_0@ + ":"@ + line.request_id->Some_0@),
        line.message->Some_0.id is Some && line.request_id is None ==> (r.dedupe_key matches Some(k) && k@
            == line.message->Some_0.id->Some_0@ + ":"@),
{
}

} // verus!
