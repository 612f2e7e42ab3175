use cusage::parse::{
    might_carry_usage, record_from_line, TranscriptLine, TranscriptMessage,
    TranscriptUsage,
};

/// A record shaped like a real assistant turn (token counts and field layout
/// taken from an actual transcript).
const ASSISTANT: &str = r#"{"type":"assistant","requestId":"req_abc","sessionId":"sess_1","timestamp":"2026-09-10T12:00:00.000Z","message":{"model":"acme-opus-4-8","id":"msg_1","usage":{"input_tokens":2,"cache_read_input_tokens":26619,"cache_creation_input_tokens":11745,"output_tokens":138}}}"#;

fn s(v: &str) -> Option<String> {
    Some(v.to_string())
}

fn usage(input: u64, cache_read: u64, cache_creation: u64, output: u64) -> TranscriptUsage {
    TranscriptUsage {
        input_tokens: input,
        cache_read_input_tokens: cache_read,
        cache_creation_input_tokens: cache_creation,
        output_tokens: output,
    }
}

/// The decoded form of `ASSISTANT`.
fn assistant_line() -> TranscriptLine {
    TranscriptLine {
        kind: s("assistant"),
        timestamp: s("2026-09-10T12:00:00.000Z"),
        request_id: s("req_abc"),
        session_id: s("sess_1"),
        cwd: None,
        cost_usd: None,
        message: Some(TranscriptMessage {
            model: s("acme-opus-4-8"),
            id: s("msg_1"),
            usage: Some(usage(2, 26619, 11745, 138)),
        }),
    }
}

#[test]
fn might_carry_usage_gates_cheaply() {
    assert!(might_carry_usage(ASSISTANT));
    assert!(!might_carry_usage(r#"{"type":"user","message":{}}"#));
}

#[test]
fn parses_a_real_assistant_turn() {
    let r = record_from_line(&assistant_line()).expect("should parse");
    assert_eq!(r.model, "acme-opus-4-8");
    assert_eq!(r.session_id, "sess_1");
    assert_eq!(r.dedupe_key.as_deref(), Some("msg_1:req_abc"));
    assert_eq!(r.totals.uncached_input, 2);
    assert_eq!(r.totals.cached_input, 26619);
    assert_eq!(r.totals.cache_creation, 11745);
    assert_eq!(r.totals.output, 138);
    assert_eq!(r.reported_cost_usd, None);
    // 2026-09-10T12:00:00Z
    assert_eq!(r.timestamp_ms, 1_789_041_600_000);
}

#[test]
fn non_assistant_and_incomplete_lines_yield_nothing() {
    // {"type":"user","message":{}}
    let user = TranscriptLine {
        kind: s("user"),
        timestamp: None,
        request_id: None,
        session_id: None,
        cwd: None,
        cost_usd: None,
        message: Some(TranscriptMessage { model: None, id: None, usage: None }),
    };
    assert!(record_from_line(&user).is_none());
    // {"type":"assistant","message":{"model":"x"}}
    let no_usage = TranscriptLine {
        kind: s("assistant"),
        timestamp: None,
        request_id: None,
        session_id: None,
        cwd: None,
        cost_usd: None,
        message: Some(TranscriptMessage { model: s("x"), id: None, usage: None }),
    };
    assert!(record_from_line(&no_usage).is_none());
    let mut blank_model = assistant_line();
    blank_model.message.as_mut().unwrap().model = s("");
    assert!(record_from_line(&blank_model).is_none());
    let mut bad_time = assistant_line();
    bad_time.timestamp = s("yesterday");
    assert!(record_from_line(&bad_time).is_none());
    let mut no_time = assistant_line();
    no_time.timestamp = None;
    assert!(record_from_line(&no_time).is_none());
}

#[test]
fn missing_token_fields_default_to_zero() {
    let line = TranscriptLine {
        kind: s("assistant"),
        timestamp: s("2026-09-10T12:00:00Z"),
        request_id: None,
        session_id: None,
        cwd: None,
        cost_usd: None,
        message: Some(TranscriptMessage { model: s("acme-sonnet-5"), id: s("m"), usage: Some(usage(0, 0, 0, 10)) }),
    };
    let r = record_from_line(&line).expect("should parse");
    assert_eq!(r.totals.output, 10);
    assert_eq!(r.totals.uncached_input, 0);
    assert_eq!(r.totals.cache_creation, 0);
    assert_eq!(r.session_id, "");
    assert_eq!(r.project, "");
    assert_eq!(r.dedupe_key.as_deref(), Some("m:"));
}

#[test]
fn keeps_a_reported_cost_when_present() {
    let mut line = assistant_line();
    line.cost_usd = Some(0.42f64.to_bits());
    let r = record_from_line(&line).expect("should parse");
    assert_eq!(r.reported_cost_usd.map(f64::from_bits), Some(0.42));
}

#[test]
fn a_non_finite_reported_cost_is_dropped() {
    let mut line = assistant_line();
    line.cost_usd = Some(f64::INFINITY.to_bits());
    assert_eq!(record_from_line(&line).unwrap().reported_cost_usd, None);
    line.cost_usd = Some(f64::NAN.to_bits());
    assert_eq!(record_from_line(&line).unwrap().reported_cost_usd, None);
}

#[test]
fn dedupe_key_uses_whichever_half_exists() {
    let mut only_request = assistant_line();
    only_request.message.as_mut().unwrap().id = None;
    assert_eq!(record_from_line(&only_request).unwrap().dedupe_key.as_deref(), Some(":req_abc"));
    let mut neither = assistant_line();
    neither.message.as_mut().unwrap().id = None;
    neither.request_id = None;
    assert_eq!(record_from_line(&neither).unwrap().dedupe_key, None);
}

#[test]
fn the_working_directory_becomes_the_project() {
    let mut line = assistant_line();
    line.cwd = s("/work/app");
    assert_eq!(record_from_line(&line).unwrap().project, "/work/app");
}

fn stamped(ts: &str) -> Option<i64> {
    let mut line = assistant_line();
    line.timestamp = s(ts);
    record_from_line(&line).map(|r| r.timestamp_ms)
}

#[test]
fn timestamps_parse_to_unix_milliseconds() {
    assert_eq!(stamped("1970-01-01T00:00:00Z"), Some(0));
    assert_eq!(stamped("1970-01-01T00:00:01.5Z"), Some(1_500));
    assert_eq!(stamped("1970-01-01T01:00:00+01:00"), Some(0));
    assert_eq!(stamped("2026-09-10T12:00:00Z[Europe/Paris]"), Some(1_789_041_600_000));
    assert_eq!(stamped("1970-01-01T00:00:00"), None);
    assert_eq!(stamped("not a time"), None);
}
