//! Daily notes: where the note for a date lives, the template it starts
//! from, and the minimal text of a note made without one. Creating the file
//! is left to the caller.

use vstd::prelude::*;
use crate::config::JournalConfig;
use crate::features::diagnostics::join_path;

verus! {

/// Where a daily note lives and whether it was just created.
pub struct DailyNote {
    pub path: String,
    pub created: bool,
}

/// A calendar date.
#[derive(Debug, Clone, Copy, PartialEq, Eq, Structural)]
pub struct CalendarDate {
    pub year: i32,
    pub month: u32,
    pub day: u32,
}

/// Whether `chrono`'s `StrftimeItems` parses `fmt` without an error item.
pub uninterp spec fn strftime_ok(fmt: Seq<char>) -> bool;

/// The text `chrono` writes for the date `year-month-day` formatted with
/// `fmt`, or `None` when that is no date or the writing fails (a format item
/// the date cannot fill).
pub uninterp spec fn strftime_date(fmt: Seq<char>, year: i32, month: u32, day: u32) -> Option<
    Seq<char>,
>;

/// Whether `chrono::format::StrftimeItems::new(fmt)` yields no
/// `Item::Error`. Claimed: the answer is [`strftime_ok`] of `fmt`.
#[verifier::external_body]
pub(crate) fn strftime_valid(fmt: &str) -> (r: bool)
    ensures
        r == strftime_ok(fmt@),
{
    !chrono::format::StrftimeItems::new(fmt).any(|it| matches!(it, chrono::format::Item::Error))
}

/// `NaiveDate::from_ymd_opt(year, month, day)` formatted with `fmt` and
/// written out by `DelayedFormat::write_to`; `None` when that is no date or
/// the writing fails. Claimed: the result is [`strftime_date`] of the
/// arguments.
#[verifier::external_body]
fn strftime_ymd(fmt: &str, year: i32, month: u32, day: u32) -> (r: Option<String>)
    ensures
        crate::links::opt_chars(r) == strftime_date(fmt@, year, month, day),
{
    let d = chrono::NaiveDate::from_ymd_opt(year, month, day)?;
    let mut s = String::new();
    match d.format(fmt).write_to(&mut s) {
        Ok(()) => Some(s),
        Err(_) => None,
    }
}

/// `date` formatted with `fmt`, or with `fallback` when `fmt` is not a valid
/// format (empty when neither is, when `date` is no date, or when the format
/// asks for what a date does not hold, such as a time).
pub open spec fn date_text(fmt: Seq<char>, date: CalendarDate, fallback: Seq<char>) -> Seq<char> {
    let f = if strftime_ok(fmt) {
        Some(fmt)
    } else if strftime_ok(fallback) {
        Some(fallback)
    } else {
        None
    };
    match f {
        Some(f) => match strftime_date(f, date.year, date.month, date.day) {
            Some(s) => s,
            None => Seq::empty(),
        },
        None => Seq::empty(),
    }
}

/// `date` formatted (see [`date_text`]).
pub fn format_date(fmt: &str, date: CalendarDate, fallback: &str) -> (r: String)
    ensures
        r@ == date_text(fmt@, date, fallback@),
{
    let f = if strftime_valid(fmt) {
        fmt
    } else if strftime_valid(fallback) {
        fallback
    } else {
        return String::new();
    };
    match strftime_ymd(f, date.year, date.month, date.day) {
        Some(s) => s,
        None => String::new(),
    }
}

/// The path of the note for `date`: its file name (the configured format, or
/// `%Y-%m-%d.md` when that is invalid) in the configured directory, taken
/// from `root` unless absolute.
pub open spec fn note_path_of(root: Seq<char>, config: JournalConfig, date: CalendarDate) -> Seq<
    char,
> {
    join_path(
        join_path(root, config.directory@),
        date_text(config.filename_format@, date, "%Y-%m-%d.md"@),
    )
}

/// The path of the note for `date` (see [`note_path_of`]).
pub fn note_path(root: &str, config: &JournalConfig, date: CalendarDate) -> (r: String)
    ensures
        r@ == note_path_of(root@, *config, date),
{
    let filename = format_date(config.filename_format.as_str(), date, "%Y-%m-%d.md");
    let dc = crate::text::chars_of(config.directory.as_str());
    let dir = crate::features::diagnostics::join_to(root, dc.as_slice());
    let ds = crate::text::string_of(dir.as_slice());
    let fc = crate::text::chars_of(filename.as_str());
    let full = crate::features::diagnostics::join_to(ds.as_str(), fc.as_slice());
    crate::text::string_of(full.as_slice())
}

/// The configured template's path, taken from `root` unless absolute.
pub fn template_path(root: &str, config: &JournalConfig) -> (r: Option<String>)
    ensures
        crate::links::opt_chars(r) == match config.template {
            Some(t) => Some(join_path(root@, t@)),
            None => None,
        },
{
    match &config.template {
        Some(t) => {
            let tc = crate::text::chars_of(t.as_str());
            let p = crate::features::diagnostics::join_to(root, tc.as_slice());
            Some(crate::text::string_of(p.as_slice()))
        },
        None => None,
    }
}

/// The text of a note made without a template: a heading with the date.
pub fn default_contents(date: CalendarDate) -> (r: String)
    ensures
        r@ == "# "@ + date_text("%Y-%m-%d"@, date, "%Y-%m-%d"@) + "\n\n"@,
{
    let mut out = "# ".to_owned();
    let d = format_date("%Y-%m-%d", date, "%Y-%m-%d");
    crate::text::extend_string(&mut out, d.as_str());
    crate::text::extend_string(&mut out, "\n\n");
    out
}

/// What opening a daily note does to the file system.
pub enum NotePlan {
    /// The note exists and is left as it is.
    Keep,
    /// The note is created as a copy of the template at this path.
    CopyTemplate(String),
    /// The note is created holding this text.
    Write(String),
}

/// Decides how the note for `date` is opened: an existing note is kept
/// untouched; a missing one is copied from the template when one is
/// configured and its file (at [`template_path`]) exists
/// (`template_exists`), and otherwise written with the default heading.
pub fn note_plan(
    note_exists: bool,
    root: &str,
    config: &JournalConfig,
    template_exists: bool,
    date: CalendarDate,
) -> (r: NotePlan)
    ensures
        note_exists ==> r is Keep,
        !note_exists && config.template is Some && template_exists ==> (r matches NotePlan::CopyTemplate(t)
            && t@ == join_path(root@, config.template.unwrap()@)),
        !note_exists && !(config.template is Some && template_exists) ==> (r matches NotePlan::Write(c)
            && c@ == "# "@ + date_text("%Y-%m-%d"@, date, "%Y-%m-%d"@) + "\n\n"@),
{
    if note_exists {
        return NotePlan::Keep;
    }
    match template_path(root, config) {
        Some(t) => {
            if template_exists {
                return NotePlan::CopyTemplate(t);
            }
        },
        None => {},
    }
    NotePlan::Write(default_contents(date))
}

} // verus!
