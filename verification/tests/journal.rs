use sanemark::config::JournalConfig;
use sanemark::journal::{
    default_contents, format_date, note_path, note_plan, template_path, CalendarDate, NotePlan,
};

fn date() -> CalendarDate {
    CalendarDate { year: 2026, month: 7, day: 7 }
}

#[test]
fn note_path_uses_directory_and_filename_format() {
    let cfg = JournalConfig {
        directory: "journal".to_string(),
        filename_format: "%Y-%m-%d.md".to_string(),
        ..JournalConfig::default()
    };
    let p = note_path("/ws", &cfg, date());
    assert!(p.ends_with("journal/2026-07-07.md"), "got {p:?}");
    assert_eq!(p, "/ws/journal/2026-07-07.md");
}

#[test]
fn invalid_filename_format_falls_back() {
    let cfg = JournalConfig {
        filename_format: "%Q.md".to_string(),
        ..JournalConfig::default()
    };
    let p = note_path("/ws", &cfg, date());
    assert!(p.ends_with("journal/2026-07-07.md"), "got {p:?}");
}

#[test]
fn absolute_directory_ignores_the_root() {
    let cfg = JournalConfig { directory: "/notes".to_string(), ..JournalConfig::default() };
    assert_eq!(note_path("/ws", &cfg, date()), "/notes/2026-07-07.md");
}

#[test]
fn default_note_starts_with_a_dated_heading() {
    assert_eq!(default_contents(date()), "# 2026-07-07\n\n");
}

#[test]
fn dates_format_with_a_fallback() {
    assert_eq!(format_date("%d.%m.%Y", date(), "%Y"), "07.07.2026");
    assert_eq!(format_date("%Q", date(), "%Y"), "2026");
    // Not a date at all.
    assert_eq!(format_date("%Y", CalendarDate { year: 2026, month: 2, day: 30 }, "%Y"), "");
}

#[test]
fn template_paths_resolve_from_the_root() {
    let cfg = JournalConfig { template: Some("/t/day.md".to_string()), ..JournalConfig::default() };
    assert_eq!(template_path("/ws", &cfg).as_deref(), Some("/t/day.md"));
    assert_eq!(
        template_path("/ws", &JournalConfig::default()).as_deref(),
        Some("/ws/journal/template.md")
    );
    let none = JournalConfig { template: None, ..JournalConfig::default() };
    assert_eq!(template_path("/ws", &none), None);
}

#[test]
fn an_existing_note_is_never_rewritten() {
    let cfg = JournalConfig { template: Some("journal/template.md".to_string()), ..JournalConfig::default() };
    assert!(matches!(note_plan(true, "/ws", &cfg, true, date()), NotePlan::Keep));
    assert!(matches!(note_plan(true, "/ws", &JournalConfig::default(), false, date()), NotePlan::Keep));
}

#[test]
fn a_missing_note_starts_from_the_template_when_present() {
    let cfg = JournalConfig { template: Some("journal/template.md".to_string()), ..JournalConfig::default() };
    match note_plan(false, "/ws", &cfg, true, date()) {
        NotePlan::CopyTemplate(t) => assert_eq!(t, "/ws/journal/template.md"),
        _ => panic!("expected a copy of the template"),
    }
    // A configured template whose file is missing falls back to the heading.
    match note_plan(false, "/ws", &cfg, false, date()) {
        NotePlan::Write(c) => assert_eq!(c, "# 2026-07-07\n\n"),
        _ => panic!("expected the default text"),
    }
    let none = JournalConfig { template: None, ..JournalConfig::default() };
    match note_plan(false, "/ws", &none, true, date()) {
        NotePlan::Write(c) => assert_eq!(c, "# 2026-07-07\n\n"),
        _ => panic!("expected the default text"),
    }
}
