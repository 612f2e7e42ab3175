use cusage::format::{short_day, short_id, short_project};

#[test]
fn short_day_drops_the_year() {
    assert_eq!(short_day("2026-09-10"), "09-10");
    assert_eq!(short_day("2026"), "2026");
    assert_eq!(short_day("abcd\u{e9}x"), "abcd\u{e9}x");
    assert_eq!(short_day("abcde"), "");
}

#[test]
fn short_id_keeps_eight_bytes() {
    assert_eq!(short_id("session-abcdef"), "session-");
    assert_eq!(short_id("short"), "short");
    assert_eq!(short_id("abcdefg\u{e9}"), "abcdefg\u{e9}");
}

#[test]
fn short_project_keeps_the_last_two_segments() {
    assert_eq!(short_project("/home/me/proj"), ".../me/proj");
    assert_eq!(short_project("/proj"), ".../proj");
    assert_eq!(short_project("/a//b/"), ".../a/b");
    assert_eq!(short_project("///"), "///");
    assert_eq!(short_project(""), "");
    assert_eq!(short_project("(unknown)"), ".../(unknown)");
}
