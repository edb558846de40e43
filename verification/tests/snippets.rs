use ropey::Rope;
use sanemark::config::SnippetsConfig;
use sanemark::encoding::{Position, PositionEncoding};
use sanemark::features::snippets::{
    detect_command, is_query_char, matches_query, snippet_menu, DateSnippet, WallClock,
};

fn dt(y: i32, m: u32, d: u32, hh: u32, mm: u32) -> WallClock {
    WallClock { year: y, month: m, day: d, hour: hh, minute: mm, second: 0, nanosecond: 0 }
}

fn items_with(text: &str, cursor: u32, now: WallClock, config: &SnippetsConfig) -> Vec<DateSnippet> {
    match snippet_menu(
        &Rope::from_str(text),
        Position { line: 0, character: cursor },
        PositionEncoding::Utf16,
        config,
        now,
    ) {
        Some(menu) => menu.dates,
        None => Vec::new(),
    }
}

fn items_at(text: &str, cursor: u32, now: WallClock) -> Vec<DateSnippet> {
    items_with(text, cursor, now, &SnippetsConfig::default())
}

fn inserted<'a>(items: &'a [DateSnippet], label: &str) -> &'a str {
    let item = items
        .iter()
        .find(|i| i.label == label)
        .unwrap_or_else(|| panic!("no item labelled {label:?}"));
    &item.insert
}

#[test]
fn slash_offers_date_and_time_snippets() {
    let items = items_at("/", 1, dt(2026, 7, 7, 14, 30));
    let labels: Vec<&str> = items.iter().map(|i| i.label.as_str()).collect();
    assert!(labels.contains(&"now"));
    assert!(labels.contains(&"today"));
    assert!(labels.contains(&"datetime"));
    assert_eq!(inserted(&items, "now"), "14:30");
    assert_eq!(inserted(&items, "today"), "2026-07-07");
    assert_eq!(inserted(&items, "datetime"), "2026-07-07 14:30");
}

#[test]
fn at_sign_also_triggers() {
    let items = items_at("@", 1, dt(2026, 7, 7, 9, 5));
    assert!(items.iter().any(|i| i.label == "now"));
    assert_eq!(inserted(&items, "now"), "09:05");
}

#[test]
fn tomorrow_and_yesterday_shift_the_date() {
    let items = items_at("/", 1, dt(2026, 7, 7, 0, 0));
    assert_eq!(inserted(&items, "tomorrow"), "2026-07-08");
    assert_eq!(inserted(&items, "yesterday"), "2026-07-06");
}

#[test]
fn query_filters_snippets() {
    // "/tod" should keep "today" but drop "now".
    let items = items_at("/tod", 4, dt(2026, 7, 7, 14, 30));
    let labels: Vec<&str> = items.iter().map(|i| i.label.as_str()).collect();
    assert!(labels.contains(&"today"));
    assert!(!labels.contains(&"now"));
}

#[test]
fn replace_range_covers_trigger_and_query() {
    // Accepting must replace "/now" (4 chars), not just append.
    let menu = snippet_menu(
        &Rope::from_str("/now"),
        Position { line: 0, character: 4 },
        PositionEncoding::Utf16,
        &SnippetsConfig::default(),
        dt(2026, 7, 7, 14, 30),
    )
    .unwrap();
    assert!(menu.dates.iter().any(|i| i.label == "now"));
    assert_eq!(menu.replace_start, Position { line: 0, character: 0 });
    assert_eq!(menu.trigger, '/');
    assert_eq!(menu.query, "now");
}

#[test]
fn no_trigger_inside_a_word() {
    // "and/or" — the slash is mid-word, so no menu.
    assert!(items_at("and/or", 6, dt(2026, 7, 7, 14, 30)).is_empty());
    // Email-like "a@b" — the "@" is mid-word.
    assert!(items_at("a@b", 3, dt(2026, 7, 7, 14, 30)).is_empty());
}

#[test]
fn trigger_after_whitespace_is_ok() {
    let items = items_at("- /", 3, dt(2026, 7, 7, 14, 30));
    assert!(items.iter().any(|i| i.label == "now"));
}

#[test]
fn disabled_snippets_return_nothing() {
    let config = SnippetsConfig { enabled: false, ..SnippetsConfig::default() };
    let items = items_with("/", 1, dt(2026, 7, 7, 14, 30), &config);
    assert!(items.is_empty());
}

#[test]
fn invalid_time_format_falls_back() {
    let config = SnippetsConfig { time_format: "%Q:%".to_string(), ..SnippetsConfig::default() };
    let items = items_with("/", 1, dt(2026, 7, 7, 14, 30), &config);
    // Falls back to the default "%H:%M" instead of panicking.
    assert_eq!(inserted(&items, "now"), "14:30");
}

#[test]
fn details_describe_the_inserted_text() {
    let items = items_at("/", 1, dt(2026, 12, 31, 23, 59));
    let now = items.iter().find(|i| i.label == "now").unwrap();
    assert_eq!(now.detail, "Current time — 23:59");
    assert_eq!(inserted(&items, "tomorrow"), "2027-01-01");
    assert_eq!(items.len(), 5);
}

#[test]
fn snippets_follow_the_cursor_line() {
    let menu = snippet_menu(
        &Rope::from_str("first line\n  @da"),
        Position { line: 1, character: 5 },
        PositionEncoding::Utf16,
        &SnippetsConfig::default(),
        dt(2026, 7, 7, 14, 30),
    )
    .unwrap();
    assert_eq!(menu.replace_start, Position { line: 1, character: 2 });
    let labels: Vec<&str> = menu.dates.iter().map(|i| i.label.as_str()).collect();
    assert_eq!(labels, vec!["today", "datetime", "yesterday"]);
}

#[test]
fn detect_command_reports_replace_length() {
    let triggers = vec!["/".to_string(), "@".to_string()];
    let c = detect_command("see @fo", &triggers).unwrap();
    assert_eq!(c.trigger, '@');
    assert_eq!(c.query, "fo");
    assert_eq!(c.replace_len, 3);
    assert!(detect_command("x", &triggers).is_none());
}

#[test]
fn query_matching_is_a_case_insensitive_subsequence() {
    assert!(matches_query("", "now"));
    assert!(matches_query("TdY", "today"));
    assert!(!matches_query("yt", "today"));
    assert!(is_query_char('é'));
    assert!(is_query_char('-'));
    assert!(!is_query_char('/'));
}
