use clipwise::clock::{age_label, relative_time, relative_time_at, AgeLabel};
use clipwise::item::Timestamp;
use clipwise::text::{push_decimal, truncate_content};

#[test]
fn truncate_short_text_flattens_whitespace() {
    assert_eq!(truncate_content("a\nb\tc", 80), "a b c");
    assert_eq!(truncate_content("", 80), "");
    assert_eq!(truncate_content("exactly", 7), "exactly");
}

#[test]
fn truncate_long_text_cuts_and_adds_ellipsis() {
    assert_eq!(truncate_content("abcdef", 3), "abc\u{2026}");
    assert_eq!(truncate_content("ab\ncdef", 4), "ab c\u{2026}");
    assert_eq!(truncate_content("\n\tlong text here", 3), "  l\u{2026}");
    let long: String = std::iter::repeat('x').take(100).collect();
    let out = truncate_content(&long, 80);
    assert_eq!(out.chars().count(), 81);
    assert!(out.ends_with('\u{2026}'));
}

#[test]
fn truncate_counts_characters_not_bytes() {
    assert_eq!(truncate_content("h\u{e9}llo w\u{f6}rld", 5), "h\u{e9}llo\u{2026}");
    assert_eq!(truncate_content("\u{1f600}\u{1f600}", 2), "\u{1f600}\u{1f600}");
}

#[test]
fn decimal_numbers() {
    for n in [0u64, 7, 10, 59, 1234567890, u64::MAX] {
        let mut s = String::from("n=");
        push_decimal(&mut s, n);
        assert_eq!(s, format!("n={}", n));
    }
}

#[test]
fn age_labels_follow_the_thresholds() {
    let text = |s: i64| match age_label(s) {
        AgeLabel::Text(t) => Some(t),
        AgeLabel::CalendarDate => None,
    };
    assert_eq!(text(-5).as_deref(), Some("Just now"));
    assert_eq!(text(0).as_deref(), Some("Just now"));
    assert_eq!(text(59).as_deref(), Some("Just now"));
    assert_eq!(text(60).as_deref(), Some("1 minutes ago"));
    assert_eq!(text(3599).as_deref(), Some("59 minutes ago"));
    assert_eq!(text(3600).as_deref(), Some("1 hours ago"));
    assert_eq!(text(86399).as_deref(), Some("23 hours ago"));
    assert_eq!(text(86400).as_deref(), Some("Yesterday"));
    assert_eq!(text(2 * 86400 - 1).as_deref(), Some("Yesterday"));
    assert_eq!(text(2 * 86400).as_deref(), Some("2 days ago"));
    assert_eq!(text(7 * 86400 - 1).as_deref(), Some("6 days ago"));
    assert_eq!(text(7 * 86400), None);
}

#[test]
fn relative_time_at_uses_chrono_seconds_and_dates() {
    let now = Timestamp { secs: 1_749_000_000, nanos: 0 };
    let at = |secs: i64, nanos: u32| relative_time_at(&Timestamp { secs, nanos }, &now);
    assert_eq!(at(1_749_000_000 - 30, 0).as_deref(), Some("Just now"));
    assert_eq!(at(1_749_000_000 - 125, 0).as_deref(), Some("2 minutes ago"));
    // 59.5 seconds is not yet a whole minute
    assert_eq!(at(1_749_000_000 - 60, 500_000_000).as_deref(), Some("Just now"));
    assert_eq!(at(1_749_000_000 - 3 * 3600, 0).as_deref(), Some("3 hours ago"));
    assert_eq!(at(1_749_000_000 - 86400 - 10, 0).as_deref(), Some("Yesterday"));
    assert_eq!(at(1_749_000_000 - 3 * 86400, 0).as_deref(), Some("3 days ago"));
    // 2025-06-03 00:00:00 UTC
    assert_eq!(at(1_748_908_800, 0).as_deref(), Some("Yesterday"));
    let old = relative_time_at(&Timestamp { secs: 1_748_908_800 - 30 * 86400, nanos: 0 }, &now);
    assert_eq!(old.as_deref(), Some("May 4, 2025"));
    // a nanosecond part chrono refuses
    assert_eq!(at(1_749_000_000 - 100, 1_500_000_000), None);
}

#[test]
fn relative_time_of_the_future_is_just_now() {
    let far = Timestamp { secs: 4_000_000_000, nanos: 0 };
    assert_eq!(relative_time(&far).as_deref(), Some("Just now"));
}
