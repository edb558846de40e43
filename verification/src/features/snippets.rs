//! Quick commands typed as a trigger character (`/` or `@` by default) at a
//! word boundary, followed by a query: recognising them, the date and time
//! snippets they offer (formatted by `chrono`), and filtering the menu by the
//! query. Workspace files offered as links are found by the caller.

use vstd::prelude::*;
use crate::config::SnippetsConfig;
use ropey::Rope;
use crate::encoding::{char_of_position, char_to_position, line_before, line_prefix, position_of_char, position_to_char, Position, PositionEncoding};
use crate::rope::rope_text;
use crate::features::diagnostics::strings_view;
use crate::features::navigation::alphanumeric;
use crate::journal::strftime_ok;
use crate::links::opt_chars;
use crate::text::{is_ws, lowercase};

verus! {

/// A query character: alphanumeric, `_` or `-`.
pub open spec fn query_char(c: char) -> bool {
    alphanumeric(c) || c == '_' || c == '-'
}

/// Whether `c` may be part of a command's query.
pub fn is_query_char(c: char) -> (r: bool)
    ensures
        r == query_char(c),
{
    crate::features::navigation::is_alphanumeric(c) || c == '_' || c == '-'
}

/// The command being typed: its trigger, its query, and how many characters
/// to replace (the trigger and the query).
pub struct CommandCtx {
    pub trigger: char,
    pub query: String,
    pub replace_len: usize,
}

/// The start of the run of query characters that ends at `i`.
pub open spec fn query_start(s: Seq<char>, i: int) -> int
    decreases i,
{
    if i <= 0 || i > s.len() || !query_char(s[i - 1]) {
        i
    } else {
        query_start(s, i - 1)
    }
}

/// The command at the end of `before` (the line up to the cursor): a trigger
/// that is the first character of one of `triggers`, at the start of the line
/// or after whitespace, followed by query characters up to the cursor.
pub open spec fn command_of(before: Seq<char>, triggers: Seq<Seq<char>>) -> Option<
    (char, Seq<char>, int),
> {
    let i = query_start(before, before.len() as int);
    if i == 0 {
        None
    } else {
        let t = before[i - 1];
        if !(exists|k: int| 0 <= k < triggers.len() && #[trigger] triggers[k].len() > 0 && triggers[k][0] == t) {
            None
        } else if !(i < 2 || is_ws(before[i - 2])) {
            None
        } else {
            Some((t, before.subrange(i, before.len() as int), before.len() - (i - 1)))
        }
    }
}

/// The command at the end of `before` (see [`command_of`]).
pub fn detect_command(before: &str, triggers: &Vec<String>) -> (r: Option<CommandCtx>)
    ensures
        match command_of(before@, crate::features::diagnostics::strings_view(triggers@)) {
            None => r is None,
            Some((t, q, n)) => r matches Some(c) && c.trigger == t && c.query@ == q
                && c.replace_len == n,
        },
{
    let ghost tv = crate::features::diagnostics::strings_view(triggers@);
    let s = crate::text::chars_of(before);
    let mut i = s.len();
    while i > 0 && is_query_char(s[i - 1])
        invariant
            i <= s@.len(),
            s@ == before@,
            query_start(s@, i as int) == query_start(s@, s@.len() as int),
        decreases i,
    {
        i -= 1;
    }
    if i == 0 {
        return None;
    }
    let t = s[i - 1];
    let mut found = false;
    let mut k: usize = 0;
    while k < triggers.len()
        invariant
            k <= triggers@.len(),
            tv == crate::features::diagnostics::strings_view(triggers@),
            found == (exists|j: int| 0 <= j < k && #[trigger] tv[j].len() > 0 && tv[j][0] == t),
        decreases triggers@.len() - k,
    {
        let tc = crate::text::chars_of(triggers[k].as_str());
        assert(tv[k as int] == tc@);
        if tc.len() > 0 && tc[0] == t {
            found = true;
        }
        k += 1;
    }
    if !found {
        return None;
    }
    if !(i < 2 || crate::text::is_whitespace(s[i - 2])) {
        return None;
    }
    let q = crate::text::slice_chars(s.as_slice(), i, s.len());
    Some(CommandCtx { trigger: t, query: crate::text::string_of(q.as_slice()), replace_len: s.len() - (i - 1) })
}

/// `q` is a subsequence of `h` from positions `i` and `j` on.
pub open spec fn subseq_from(q: Seq<char>, h: Seq<char>, i: int, j: int) -> bool
    decreases q.len() - i, h.len() - j,
{
    if i >= q.len() {
        true
    } else if j >= h.len() {
        false
    } else if q[i] == h[j] {
        subseq_from(q, h, i + 1, j + 1)
    } else {
        subseq_from(q, h, i, j + 1)
    }
}

/// A case-insensitive subsequence match of `query` in `label` (an empty
/// query matches everything).
pub open spec fn query_matches(query: Seq<char>, label: Seq<char>) -> bool {
    query.len() == 0 || subseq_from(lowercase(query), lowercase(label), 0, 0)
}

/// Whether `query` matches `label` (see [`query_matches`]).
pub fn matches_query(query: &str, label: &str) -> (r: bool)
    ensures
        r == query_matches(query@, label@),
{
    let qc = crate::text::chars_of(query);
    if qc.len() == 0 {
        return true;
    }
    let ql = crate::text::to_lowercase(query);
    let hl = crate::text::to_lowercase(label);
    let q = crate::text::chars_of(ql.as_str());
    let h = crate::text::chars_of(hl.as_str());
    let mut i: usize = 0;
    let mut j: usize = 0;
    while i < q.len() && j < h.len()
        invariant
            i <= q@.len(),
            j <= h@.len(),
            q@ == lowercase(query@),
            h@ == lowercase(label@),
            query@.len() > 0,
            subseq_from(q@, h@, i as int, j as int) == subseq_from(q@, h@, 0, 0),
        decreases q@.len() - i + h@.len() - j,
    {
        if q[i] == h[j] {
            i += 1;
        }
        j += 1;
    }
    i >= q.len()
}

/// A local wall-clock time.
#[derive(Debug, Clone, Copy, PartialEq, Eq, Structural)]
pub struct WallClock {
    pub year: i32,
    pub month: u32,
    pub day: u32,
    pub hour: u32,
    pub minute: u32,
    pub second: u32,
    pub nanosecond: u32,
}

/// The text `chrono` writes for the date and time given formatted with
/// `fmt`, or `None` when that is no date and time or the writing fails.
pub uninterp spec fn strftime_datetime(
    fmt: Seq<char>,
    year: i32,
    month: u32,
    day: u32,
    hour: u32,
    minute: u32,
    second: u32,
    nanosecond: u32,
) -> Option<Seq<char>>;

/// The date `chrono` gives as the day after `year-month-day`, or `None`
/// when that is no date or has no successor.
pub uninterp spec fn day_after(year: i32, month: u32, day: u32) -> Option<(i32, u32, u32)>;

/// The date `chrono` gives as the day before `year-month-day`, or `None`
/// when that is no date or has no predecessor.
pub uninterp spec fn day_before(year: i32, month: u32, day: u32) -> Option<(i32, u32, u32)>;

/// `NaiveDate::from_ymd_opt` then `and_hms_nano_opt` with the fields of `t`,
/// formatted with `fmt` and written out by `DelayedFormat::write_to`; `None`
/// when that is no date and time or the writing fails. Claimed: the result
/// is [`strftime_datetime`] of the arguments.
#[verifier::external_body]
fn strftime_clock(fmt: &str, t: WallClock) -> (r: Option<String>)
    ensures
        opt_chars(r) == strftime_datetime(
            fmt@,
            t.year,
            t.month,
            t.day,
            t.hour,
            t.minute,
            t.second,
            t.nanosecond,
        ),
{
    let d = chrono::NaiveDate::from_ymd_opt(t.year, t.month, t.day)?;
    let dt = d.and_hms_nano_opt(t.hour, t.minute, t.second, t.nanosecond)?;
    let mut s = String::new();
    match dt.format(fmt).write_to(&mut s) {
        Ok(()) => Some(s),
        Err(_) => None,
    }
}

/// `NaiveDate::from_ymd_opt(year, month, day)` then `succ_opt`, as
/// `(year, month, day)`. Claimed: the result is [`day_after`] of the
/// arguments.
#[verifier::external_body]
fn next_day(year: i32, month: u32, day: u32) -> (r: Option<(i32, u32, u32)>)
    ensures
        r == day_after(year, month, day),
{
    let d = chrono::NaiveDate::from_ymd_opt(year, month, day)?.succ_opt()?;
    Some((chrono::Datelike::year(&d), chrono::Datelike::month(&d), chrono::Datelike::day(&d)))
}

/// `NaiveDate::from_ymd_opt(year, month, day)` then `pred_opt`, as
/// `(year, month, day)`. Claimed: the result is [`day_before`] of the
/// arguments.
#[verifier::external_body]
fn previous_day(year: i32, month: u32, day: u32) -> (r: Option<(i32, u32, u32)>)
    ensures
        r == day_before(year, month, day),
{
    let d = chrono::NaiveDate::from_ymd_opt(year, month, day)?.pred_opt()?;
    Some((chrono::Datelike::year(&d), chrono::Datelike::month(&d), chrono::Datelike::day(&d)))
}

/// `t` formatted with `fmt`, or with `fallback` when `fmt` is not a valid
/// format; empty when the formatting fails.
pub open spec fn clock_text(fmt: Seq<char>, t: WallClock, fallback: Seq<char>) -> Seq<char> {
    let f = if strftime_ok(fmt) {
        fmt
    } else {
        fallback
    };
    match strftime_datetime(f, t.year, t.month, t.day, t.hour, t.minute, t.second, t.nanosecond) {
        Some(s) => s,
        None => Seq::empty(),
    }
}

/// `t` moved to the date `d`, keeping its time of day.
pub open spec fn on_date(t: WallClock, d: (i32, u32, u32)) -> WallClock {
    WallClock {
        year: d.0,
        month: d.1,
        day: d.2,
        hour: t.hour,
        minute: t.minute,
        second: t.second,
        nanosecond: t.nanosecond,
    }
}

/// The date of `t` moved by a day (`d`), formatted with the date format;
/// empty when there is no such day.
pub open spec fn shifted_text(t: WallClock, d: Option<(i32, u32, u32)>, cfg: SnippetsConfig) -> Seq<
    char,
> {
    match d {
        Some(d) => clock_text(cfg.date_format@, on_date(t, d), "%Y-%m-%d"@),
        None => Seq::empty(),
    }
}

/// A date or time snippet: its label, its description and the text it
/// inserts.
pub struct DateSnippet {
    pub label: String,
    pub detail: String,
    pub insert: String,
}

/// The view of a snippet: label, description, inserted text.
pub open spec fn snippet_view(s: DateSnippet) -> (Seq<char>, Seq<char>, Seq<char>) {
    (s.label@, s.detail@, s.insert@)
}

/// The views of a list of snippets.
pub open spec fn snippets_view(v: Seq<DateSnippet>) -> Seq<(Seq<char>, Seq<char>, Seq<char>)> {
    Seq::new(v.len(), |i: int| snippet_view(v[i]))
}

/// The date and time snippets at `now`, in menu order: the time, today,
/// the date and time, tomorrow and yesterday, each formatted with its
/// configured format (a default one when that is invalid).
pub open spec fn date_snippets_of(now: WallClock, cfg: SnippetsConfig) -> Seq<
    (Seq<char>, Seq<char>, Seq<char>),
> {
    let time = clock_text(cfg.time_format@, now, "%H:%M"@);
    let today = clock_text(cfg.date_format@, now, "%Y-%m-%d"@);
    let datetime = clock_text(cfg.date_time_format@, now, "%Y-%m-%d %H:%M"@);
    let tomorrow = shifted_text(now, day_after(now.year, now.month, now.day), cfg);
    let yesterday = shifted_text(now, day_before(now.year, now.month, now.day), cfg);
    seq![
        ("now"@, "Current time — "@ + time, time),
        ("today"@, "Today's date — "@ + today, today),
        ("datetime"@, "Date & time — "@ + datetime, datetime),
        ("tomorrow"@, "Tomorrow's date — "@ + tomorrow, tomorrow),
        ("yesterday"@, "Yesterday's date — "@ + yesterday, yesterday),
    ]
}

/// The snippets of `s` whose label matches `query`, in order.
pub open spec fn matching(s: Seq<(Seq<char>, Seq<char>, Seq<char>)>, query: Seq<char>) -> Seq<
    (Seq<char>, Seq<char>, Seq<char>),
>
    decreases s.len(),
{
    if s.len() == 0 {
        s
    } else {
        let prev = matching(s.drop_last(), query);
        if query_matches(query, s.last().0) {
            prev.push(s.last())
        } else {
            prev
        }
    }
}

/// The date and time snippets at `now` (see [`date_snippets_of`]).
pub fn date_snippets(now: WallClock, cfg: &SnippetsConfig) -> (r: Vec<DateSnippet>)
    ensures
        snippets_view(r@) == date_snippets_of(now, *cfg),
{
    let time = format_clock(cfg.time_format.as_str(), now, "%H:%M");
    let today = format_clock(cfg.date_format.as_str(), now, "%Y-%m-%d");
    let datetime = format_clock(cfg.date_time_format.as_str(), now, "%Y-%m-%d %H:%M");
    let tomorrow = format_shifted(now, next_day(now.year, now.month, now.day), cfg);
    let yesterday = format_shifted(now, previous_day(now.year, now.month, now.day), cfg);
    let mut out: Vec<DateSnippet> = Vec::new();
    out.push(snippet("now", "Current time — ", time));
    out.push(snippet("today", "Today's date — ", today));
    out.push(snippet("datetime", "Date & time — ", datetime));
    out.push(snippet("tomorrow", "Tomorrow's date — ", tomorrow));
    out.push(snippet("yesterday", "Yesterday's date — ", yesterday));
    let ghost want = date_snippets_of(now, *cfg);
    assert(snippets_view(out@) =~= want);
    out
}

/// A snippet labelled `label` inserting `insert`, described by `prefix`
/// followed by the inserted text.
fn snippet(label: &str, prefix: &str, insert: String) -> (r: DateSnippet)
    ensures
        snippet_view(r) == (label@, prefix@ + insert@, insert@),
{
    let mut detail = prefix.to_owned();
    crate::text::extend_string(&mut detail, insert.as_str());
    DateSnippet { label: label.to_owned(), detail, insert }
}

/// `t` formatted (see [`clock_text`]).
fn format_clock(fmt: &str, t: WallClock, fallback: &str) -> (r: String)
    ensures
        r@ == clock_text(fmt@, t, fallback@),
{
    let f = if crate::journal::strftime_valid(fmt) {
        fmt
    } else {
        fallback
    };
    match strftime_clock(f, t) {
        Some(s) => s,
        None => String::new(),
    }
}

/// The shifted date formatted (see [`shifted_text`]).
fn format_shifted(t: WallClock, d: Option<(i32, u32, u32)>, cfg: &SnippetsConfig) -> (r: String)
    ensures
        r@ == shifted_text(t, d, *cfg),
{
    match d {
        Some(d) => {
            let moved = WallClock {
                year: d.0,
                month: d.1,
                day: d.2,
                hour: t.hour,
                minute: t.minute,
                second: t.second,
                nanosecond: t.nanosecond,
            };
            format_clock(cfg.date_format.as_str(), moved, "%Y-%m-%d")
        },
        None => String::new(),
    }
}

/// The quick-command menu at the cursor: the trigger and query typed, where
/// the replaced text (trigger and query) starts, and the date and time
/// snippets that match the query.
pub struct SnippetMenu {
    pub trigger: char,
    pub query: String,
    pub replace_start: Position,
    pub dates: Vec<DateSnippet>,
}

/// The quick-command menu at `pos` in the document held by `rope` at time `now`: none when the
/// menu is off or no command is being typed there (see [`command_of`] on
/// the line up to the cursor).
pub fn snippet_menu(
    rope: &Rope,
    pos: Position,
    enc: PositionEncoding,
    cfg: &SnippetsConfig,
    now: WallClock,
) -> (r: Option<SnippetMenu>)
    ensures
        ({
            let s = rope_text(*rope);
            let cursor = char_of_position(s, pos.line as nat, pos.character as nat, enc);
            match command_of(line_prefix(s, cursor), strings_view(cfg.triggers@)) {
                None => r is None,
                Some((t, q, n)) => if !cfg.enabled {
                    r is None
                } else {
                    let start = if cursor < n {
                        0
                    } else {
                        cursor - n
                    };
                    let p = position_of_char(s, start, enc);
                    r matches Some(m) && m.trigger == t && m.query@ == q
                        && m.replace_start.line == p.0 as u32
                        && m.replace_start.character == p.1 as u32
                        && snippets_view(m.dates@) == matching(date_snippets_of(now, *cfg), q)
                },
            }
        }),
{
    let cursor = position_to_char(rope, pos, enc);
    let before = line_before(rope, cursor);
    let ctx = match detect_command(before.as_str(), &cfg.triggers) {
        None => return None,
        Some(c) => c,
    };
    if !cfg.enabled {
        return None;
    }
    let start = if cursor < ctx.replace_len {
        0
    } else {
        cursor - ctx.replace_len
    };
    let replace_start = char_to_position(rope, start, enc);
    let all = date_snippets(now, cfg);
    let ghost entries = snippets_view(all@);
    let mut dates: Vec<DateSnippet> = Vec::new();
    let mut i: usize = 0;
    let n = all.len();
    while i < n
        invariant
            i <= n,
            n == entries.len(),
            entries == snippets_view(all@),
            snippets_view(dates@) == matching(entries.take(i as int), ctx.query@),
        decreases n - i,
    {
        let e = &all[i];
        assert(entries.take(i + 1).drop_last() =~= entries.take(i as int));
        assert(snippet_view(*e) == entries[i as int]);
        if matches_query(ctx.query.as_str(), e.label.as_str()) {
            let copy = DateSnippet {
                label: e.label.clone(),
                detail: e.detail.clone(),
                insert: e.insert.clone(),
            };
            dates.push(copy);
            assert(snippets_view(dates@) =~= matching(entries.take(i as int), ctx.query@).push(
                entries[i as int],
            ));
        }
        i += 1;
    }
    assert(entries.take(n as int) =~= entries);
    Some(SnippetMenu { trigger: ctx.trigger, query: ctx.query, replace_start, dates })
}

/// The menu offers only snippets whose label matches the query, never more
/// than there are, and with an empty query it offers all of them in order.
pub proof fn lemma_menu_filters_by_query(
    s: Seq<(Seq<char>, Seq<char>, Seq<char>)>,
    query: Seq<char>,
)
    ensures
        matching(s, query).len() <= s.len(),
        forall|k: int|
            0 <= k < matching(s, query).len() ==> query_matches(query, (#[trigger] matching(s, query)[k]).0),
        query.len() == 0 ==> matching(s, query) == s,
    decreases s.len(),
{
    if s.len() > 0 {
        lemma_menu_filters_by_query(s.drop_last(), query);
        let prev = matching(s.drop_last(), query);
        if query_matches(query, s.last().0) {
            assert forall|k: int| 0 <= k < prev.push(s.last()).len() implies query_matches(
                query,
                (#[trigger] prev.push(s.last())[k]).0,
            ) by {
                if k < prev.len() {
                    assert(prev.push(s.last())[k] == prev[k]);
                }
            }
        }
        if query.len() == 0 {
            assert(s.drop_last().push(s.last()) =~= s);
        }
    }
}

/// The link text for a file: its name without the extension (see
/// [`stem_of`](crate::features::diagnostics::stem_of)), or the whole name
/// when it names no file.
pub open spec fn link_text_of(name: Seq<char>) -> Seq<char> {
    match crate::features::diagnostics::file_name_of(name) {
        Some(f) => crate::features::diagnostics::stem_of(f),
        None => name,
    }
}

/// The link text for a file named `name` (see [`link_text_of`]).
pub fn link_text(name: &str) -> (r: String)
    ensures
        r@ == link_text_of(name@),
{
    match crate::features::diagnostics::file_name(name) {
        Some(f) => {
            let c = crate::text::chars_of(f.as_str());
            match crate::features::diagnostics::find_last_dot(c.as_slice()) {
                Some(k) => if k > 0 {
                    let t = crate::text::slice_chars(c.as_slice(), 0, k);
                    assert(t@ =~= c@.take(k as int));
                    crate::text::string_of(t.as_slice())
                } else {
                    f
                },
                None => f,
            }
        },
        None => name.to_owned(),
    }
}

/// Accepting a quick command replaces exactly what was typed for it: the
/// text from the start of the replaced span up to the cursor is the trigger
/// followed by the query.
pub proof fn lemma_menu_replaces_trigger_and_query(
    s: Seq<char>,
    pos: Position,
    enc: PositionEncoding,
    triggers: Seq<Seq<char>>,
)
    ensures
        ({
            let cursor = char_of_position(s, pos.line as nat, pos.character as nat, enc);
            match command_of(line_prefix(s, cursor), triggers) {
                Some((t, q, n)) => n <= cursor && s.subrange(cursor - n, cursor) == seq![t] + q,
                None => true,
            }
        }),
{
    let cursor = char_of_position(s, pos.line as nat, pos.character as nat, enc);
    crate::encoding::lemma_char_of_position_in_text(s, pos.line as nat, pos.character as nat, enc);
    crate::encoding::lemma_line_prefix_before(s, cursor);
    let before = line_prefix(s, cursor);
    lemma_query_start_bounds(before, before.len() as int);
    if let Some((t, q, n)) = command_of(before, triggers) {
        let i = query_start(before, before.len() as int);
        assert(before.subrange(i - 1, before.len() as int) =~= seq![t] + q);
        assert(s.subrange(cursor - n, cursor) =~= before.subrange(i - 1, before.len() as int));
    }
}

proof fn lemma_query_start_bounds(s: Seq<char>, i: int)
    requires
        0 <= i <= s.len(),
    ensures
        0 <= query_start(s, i) <= i,
    decreases i,
{
    if i > 0 && query_char(s[i - 1]) {
        lemma_query_start_bounds(s, i - 1);
    }
}

} // verus!
