use cusage::scan::{
    carried_records, complete_line_ends, cursor_after, decode_project_dir, fnv1a, guard_len_at, guard_window_start, plan_scan,
    resume_point, strip_line_endings, usage_line_text, with_project_fallback, Cursor, ScanStep,
};
use cusage::record::{TokenTotals, UsageRecord};

#[test]
fn fnv1a_matches_known_values() {
    assert_eq!(fnv1a(b""), 0x811c_9dc5);
    assert_eq!(fnv1a(b"a"), 0xe40c_292c);
    assert_eq!(fnv1a(b"foobar"), 0xbf9c_f968);
}

#[test]
fn only_newline_terminated_lines_are_complete() {
    assert_eq!(complete_line_ends(b"ab\ncd\nef"), vec![3, 6]);
    assert_eq!(complete_line_ends(b"no newline"), Vec::<usize>::new());
    assert_eq!(complete_line_ends(b"\n\n"), vec![1, 2]);
}

#[test]
fn resuming_after_an_append_finds_the_same_lines() {
    let first = b"one\ntwo\n";
    let appended = b"three\nfour";
    let mut whole = first.to_vec();
    whole.extend_from_slice(appended);
    let mut resumed = complete_line_ends(first);
    resumed.extend(complete_line_ends(appended).into_iter().map(|e| e + first.len()));
    assert_eq!(complete_line_ends(&whole), resumed);
}

#[test]
fn line_endings_are_stripped_once() {
    assert_eq!(strip_line_endings(b"abc\r\n"), b"abc");
    assert_eq!(strip_line_endings(b"abc\n"), b"abc");
    assert_eq!(strip_line_endings(b"abc\r"), b"abc");
    assert_eq!(strip_line_endings(b"abc\n\n"), b"abc\n");
    assert_eq!(strip_line_endings(b""), b"");
}

#[test]
fn only_utf8_lines_with_usage_are_kept() {
    assert_eq!(usage_line_text(b"{\"usage\":1}\r\n").as_deref(), Some("{\"usage\":1}"));
    assert_eq!(usage_line_text(b"{\"type\":\"user\"}\n"), None);
    assert_eq!(usage_line_text(b"\xff\"usage\"\n"), None);
}

#[test]
fn project_dir_names_decode_to_paths() {
    assert_eq!(decode_project_dir("-home-guilherme-project"), "/home/guilherme/project");
    assert_eq!(decode_project_dir("plain"), "/plain");
    assert_eq!(decode_project_dir(""), "/");
}

#[test]
fn a_missing_project_falls_back_to_the_directory() {
    let r = UsageRecord {
        timestamp_ms: 1,
        model: "m".into(),
        session_id: "s".into(),
        project: String::new(),
        totals: TokenTotals { uncached_input: 1, cached_input: 2, cache_creation: 3, output: 4 },
        reported_cost_usd: None,
        dedupe_key: None,
    };
    let filled = with_project_fallback(r.clone(), &"/home/me".to_string());
    assert_eq!(filled.project, "/home/me");
    let mut kept = r;
    kept.project = "/work".into();
    assert_eq!(with_project_fallback(kept, &"/home/me".to_string()).project, "/work");
}

#[test]
fn scans_skip_unchanged_files_and_check_guards() {
    let c = Cursor { offset: 100, guard: 7, guard_len: 64 };
    assert_eq!(plan_scan(Some(c), 100), ScanStep::Skip);
    assert_eq!(plan_scan(Some(c), 150), ScanStep::CheckGuard { end: 100, len: 64 });
    assert_eq!(plan_scan(Some(c), 50), ScanStep::ReadFromStart);
    assert_eq!(plan_scan(None, 50), ScanStep::ReadFromStart);
    let fresh = Cursor { offset: 0, guard: 0, guard_len: 0 };
    assert_eq!(plan_scan(Some(fresh), 10), ScanStep::ReadFromStart);
    assert_eq!(resume_point(c, Some(7)), Some(100));
    assert_eq!(resume_point(c, Some(8)), None);
    assert_eq!(resume_point(c, None), None);
}

#[test]
fn cursors_and_guard_windows() {
    assert_eq!(guard_len_at(10), 10);
    assert_eq!(guard_len_at(1000), 64);
    assert_eq!(guard_window_start(100, 64), Some(36));
    assert_eq!(guard_window_start(10, 64), None);
    assert_eq!(guard_window_start(100, 0), None);
    assert_eq!(guard_window_start(100, 65), None);
    let c = cursor_after(90, 20, Some(5));
    assert_eq!(c, Cursor { offset: 110, guard: 5, guard_len: 64 });
    assert_eq!(cursor_after(0, 3, None), Cursor { offset: 3, guard: 0, guard_len: 3 });
}

#[test]
fn earlier_records_are_carried_only_when_resuming() {
    let earlier = vec![UsageRecord {
        timestamp_ms: 1,
        model: "m".into(),
        session_id: "s".into(),
        project: "/p".into(),
        totals: TokenTotals { uncached_input: 0, cached_input: 0, cache_creation: 0, output: 1 },
        reported_cost_usd: None,
        dedupe_key: None,
    }];
    assert_eq!(carried_records(Some(40), Some(earlier.clone())).len(), 1);
    assert_eq!(carried_records(None, Some(earlier)).len(), 0);
    assert_eq!(carried_records(Some(40), None).len(), 0);
}

#[test]
fn a_resumed_read_finds_the_lines_a_full_read_finds() {
    let first = b"one\ntwo\n";
    let appended = b"three\nfour";
    let mut whole = first.to_vec();
    whole.extend_from_slice(appended);
    let full = complete_line_ends(&whole);
    let mut resumed = complete_line_ends(first);
    resumed.extend(complete_line_ends(appended).iter().map(|e| e + first.len()));
    assert_eq!(full, resumed);
    assert_eq!(full, vec![4, 8, 14]);
}

#[test]
fn lines_are_handed_to_the_parser_with_their_newline() {
    let buf = b"a\r\nbb\npartial";
    let ends = complete_line_ends(buf);
    let mut start = 0;
    let mut lines: Vec<&[u8]> = Vec::new();
    for &end in &ends {
        lines.push(&buf[start..end]);
        start = end;
    }
    assert_eq!(lines, vec![&b"a\r\n"[..], &b"bb\n"[..]]);
}
