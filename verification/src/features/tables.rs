//! GFM table formatting.
//!
//! Any run of consecutive "table-like" lines (lines that contain unescaped
//! pipes and are not headings, block quotes or list items) is normalised into a
//! well-formed, column-aligned GFM table: a lone header row gains a separator
//! row and one empty body row, columns are padded so the pipes line up, a
//! trailing stray `|` becomes a full empty row, and extra header cells become
//! new columns. Fenced code blocks and leading front matter are never touched,
//! and every other line is kept verbatim.

use vstd::prelude::*;
use crate::text::{
    eq_chars,    join, join_lines,    chars_of, string_of,
    ends_with, extend, is_whitespace, push_rep, rep, slice_chars, starts_with, trim, trim_bounds,
    trim_start, trim_vec, is_ws, trim_start_index, trim_end,
};

verus! {

broadcast use crate::lemmas::lemma_char_vec_deep_view;

/// Column alignment, read from the colons of a separator cell.
pub enum Align {
    Plain,
    Left,
    Right,
    Center,
}

// ---------------------------------------------------------------------------
// Line classification
// ---------------------------------------------------------------------------

/// Number of `|` in `s[i..]` not preceded by an escaping backslash, when the
/// character at `i` is escaped iff `escaped`.
pub open spec fn pipes_from(s: Seq<char>, i: int, escaped: bool) -> nat
    decreases s.len() - i,
{
    if i < 0 || i >= s.len() {
        0
    } else if escaped {
        pipes_from(s, i + 1, false)
    } else if s[i] == '\\' {
        pipes_from(s, i + 1, true)
    } else if s[i] == '|' {
        1 + pipes_from(s, i + 1, false)
    } else {
        pipes_from(s, i + 1, false)
    }
}

/// Number of unescaped pipes in `s`.
pub open spec fn spec_count_unescaped_pipes(s: Seq<char>) -> nat {
    pipes_from(s, 0, false)
}

proof fn lemma_pipes_bound(s: Seq<char>, i: int, escaped: bool)
    requires
        0 <= i <= s.len(),
    ensures
        pipes_from(s, i, escaped) <= s.len() - i,
    decreases s.len() - i,
{
    if i < s.len() {
        lemma_pipes_bound(s, i + 1, false);
        lemma_pipes_bound(s, i + 1, true);
    }
}

fn count_unescaped_pipes(s: &[char]) -> (r: usize)
    ensures
        r == spec_count_unescaped_pipes(s@),
{
    let mut count: usize = 0;
    let mut escaped = false;
    let mut i: usize = 0;
    while i < s.len()
        invariant
            i <= s@.len(),
            count <= i,
            count + pipes_from(s@, i as int, escaped) == pipes_from(s@, 0, false),
        decreases s@.len() - i,
    {
        let ch = s[i];
        if escaped {
            escaped = false;
        } else if ch == '\\' {
            escaped = true;
        } else if ch == '|' {
            count += 1;
        }
        i += 1;
    }
    count
}

/// Whether `c` is an ASCII digit.
pub open spec fn is_digit(c: char) -> bool {
    '0' <= c && c <= '9'
}

/// Length of the run of ASCII digits at the start of `s`.
pub open spec fn digit_run(s: Seq<char>) -> nat
    decreases s.len(),
{
    if s.len() > 0 && is_digit(s[0]) {
        1 + digit_run(s.drop_first())
    } else {
        0
    }
}

/// Whether the (trimmed) line `s` opens a list item: a bullet `-`, `*` or
/// `+` followed by a space, or digits followed by `. ` or `) `.
pub open spec fn spec_is_list_item(s: Seq<char>) -> bool {
    ||| (s.len() >= 2 && (s[0] == '-' || s[0] == '*' || s[0] == '+') && s[1] == ' ')
    ||| (digit_run(s) > 0 && s.len() >= digit_run(s) + 2 && (s[digit_run(s) as int] == '.'
        || s[digit_run(s) as int] == ')') && s[digit_run(s) + 1int] == ' ')
}

fn digit_run_len(s: &[char]) -> (n: usize)
    ensures
        n == digit_run(s@),
        n <= s@.len(),
{
    let mut i: usize = 0;
    assert(s@.skip(0) =~= s@);
    while i < s.len() && '0' <= s[i] && s[i] <= '9'
        invariant
            i <= s@.len(),
            forall|j: int| 0 <= j < i ==> is_digit(#[trigger] s@[j]),
            digit_run(s@) == i + digit_run(s@.skip(i as int)),
        decreases s@.len() - i,
    {
        assert(s@.skip(i as int).drop_first() =~= s@.skip(i + 1));
        i += 1;
    }
    i
}

fn is_list_item(s: &[char]) -> (r: bool)
    ensures
        r == spec_is_list_item(s@),
{
    assert(s@.skip(0) =~= s@);
    if s.len() >= 2 && (s[0] == '-' || s[0] == '*' || s[0] == '+') && s[1] == ' ' {
        return true;
    }
    let d = digit_run_len(s);
    d > 0 && s.len() - d >= 2 && (s[d] == '.' || s[d] == ')') && s[d + 1] == ' '
}

/// Length of the leading run of spaces and tabs of `s`.
pub open spec fn indent_len(s: Seq<char>) -> nat
    decreases s.len(),
{
    if s.len() > 0 && (s[0] == ' ' || s[0] == '\t') {
        1 + indent_len(s.drop_first())
    } else {
        0
    }
}

/// The leading spaces and tabs of `s`.
pub open spec fn spec_leading_ws(s: Seq<char>) -> Seq<char> {
    s.take(indent_len(s) as int)
}

proof fn lemma_indent_len_bound(s: Seq<char>)
    ensures
        indent_len(s) <= s.len(),
    decreases s.len(),
{
    if s.len() > 0 && (s[0] == ' ' || s[0] == '\t') {
        lemma_indent_len_bound(s.drop_first());
    }
}

fn leading_ws(s: &[char]) -> (r: Vec<char>)
    ensures
        r@ == spec_leading_ws(s@),
{
    let mut i: usize = 0;
    assert(s@.skip(0) =~= s@);
    while i < s.len() && (s[i] == ' ' || s[i] == '\t')
        invariant
            i <= s@.len(),
            indent_len(s@) == i + indent_len(s@.skip(i as int)),
        decreases s@.len() - i,
    {
        assert(s@.skip(i as int).drop_first() =~= s@.skip(i + 1));
        i += 1;
    }
    slice_chars(s, 0, i)
}

/// The fence character opening a fenced code block at the start of the
/// (left-trimmed) line `t`, if any.
pub open spec fn spec_fence_marker(t: Seq<char>) -> Option<char> {
    if starts_with(t, rep('`', 3)) {
        Some('`')
    } else if starts_with(t, rep('~', 3)) {
        Some('~')
    } else {
        None
    }
}

fn starts_with_three(t: &[char], m: char) -> (r: bool)
    ensures
        r == starts_with(t@, rep(m, 3)),
{
    let r = t.len() >= 3 && t[0] == m && t[1] == m && t[2] == m;
    if r {
        assert(t@.take(3) =~= rep(m, 3nat));
    } else if t.len() >= 3 {
        assert(t@.take(3)[0] == t@[0] && t@.take(3)[1] == t@[1] && t@.take(3)[2] == t@[2]);
    }
    r
}

fn fence_marker(t: &[char]) -> (r: Option<char>)
    ensures
        r == spec_fence_marker(t@),
{
    if starts_with_three(t, '`') {
        Some('`')
    } else if starts_with_three(t, '~') {
        Some('~')
    } else {
        None
    }
}

/// `s` with every leading `c` removed.
pub open spec fn strip_lead(s: Seq<char>, c: char) -> Seq<char>
    decreases s.len(),
{
    if s.len() > 0 && s[0] == c {
        strip_lead(s.drop_first(), c)
    } else {
        s
    }
}

/// `s` with every trailing `c` removed.
pub open spec fn strip_trail(s: Seq<char>, c: char) -> Seq<char>
    decreases s.len(),
{
    if s.len() > 0 && s.last() == c {
        strip_trail(s.drop_last(), c)
    } else {
        s
    }
}

/// A separator cell: after trimming, one or more dashes with optional colons
/// on either side.
pub open spec fn spec_is_separator_cell(cell: Seq<char>) -> bool {
    let c = trim(cell);
    let core = strip_trail(strip_lead(c, ':'), ':');
    c.len() > 0 && core.len() > 0 && forall|i: int| 0 <= i < core.len() ==> core[i] == '-'
}

fn is_separator_cell(cell: &[char]) -> (r: bool)
    ensures
        r == spec_is_separator_cell(cell@),
{
    let (lo, hi) = trim_bounds(cell);
    if lo == hi {
        return false;
    }
    let ghost c = trim(cell@);
    let mut a = lo;
    assert(cell@.subrange(a as int, hi as int) =~= c);
    while a < hi && cell[a] == ':'
        invariant
            lo <= a <= hi <= cell@.len(),
            c == cell@.subrange(lo as int, hi as int),
            strip_lead(c, ':') == strip_lead(cell@.subrange(a as int, hi as int), ':'),
        decreases hi - a,
    {
        assert(cell@.subrange(a as int, hi as int).drop_first() =~= cell@.subrange(
            a + 1,
            hi as int,
        ));
        a += 1;
    }
    let mut b = hi;
    assert(strip_lead(c, ':') == cell@.subrange(a as int, hi as int));
    while b > a && cell[b - 1] == ':'
        invariant
            lo <= a <= b <= hi <= cell@.len(),
            strip_trail(strip_lead(c, ':'), ':') == strip_trail(
                cell@.subrange(a as int, b as int),
                ':',
            ),
        decreases b,
    {
        assert(cell@.subrange(a as int, b as int).drop_last() =~= cell@.subrange(
            a as int,
            b - 1,
        ));
        b -= 1;
    }
    let ghost core = cell@.subrange(a as int, b as int);
    assert(strip_trail(strip_lead(c, ':'), ':') == core);
    if a == b {
        return false;
    }
    let mut i = a;
    while i < b
        invariant
            a <= i <= b <= cell@.len(),
            core == cell@.subrange(a as int, b as int),
            core == strip_trail(strip_lead(c, ':'), ':'),
            c == trim(cell@),
            c.len() > 0,
            forall|j: int| 0 <= j < i - a ==> core[j] == '-',
        decreases b - i,
    {
        if cell[i] != '-' {
            assert(core[i - a] != '-');
            return false;
        }
        i += 1;
    }
    true
}

/// The alignment a separator cell requests.
pub open spec fn spec_cell_align(cell: Seq<char>) -> Align {
    let c = trim(cell);
    let l = c.len() > 0 && c[0] == ':';
    let r = c.len() > 0 && c.last() == ':';
    if l && r {
        Align::Center
    } else if l {
        Align::Left
    } else if r {
        Align::Right
    } else {
        Align::Plain
    }
}

fn cell_align(cell: &[char]) -> (r: Align)
    ensures
        r == spec_cell_align(cell@),
{
    let (lo, hi) = trim_bounds(cell);
    let l = lo < hi && cell[lo] == ':';
    let r = lo < hi && cell[hi - 1] == ':';
    if l && r {
        Align::Center
    } else if l {
        Align::Left
    } else if r {
        Align::Right
    } else {
        Align::Plain
    }
}

// ---------------------------------------------------------------------------
// Rendering
// ---------------------------------------------------------------------------

/// `content` padded with spaces to `width` characters according to `align`
/// (left for `Plain`/`Left`, split evenly for `Center`, extra space right).
pub open spec fn spec_pad(content: Seq<char>, width: nat, align: Align) -> Seq<char> {
    if content.len() >= width {
        content
    } else {
        let total = (width - content.len()) as nat;
        match align {
            Align::Right => rep(' ', total) + content,
            Align::Center => rep(' ', total / 2) + content + rep(' ', (total - total / 2) as nat),
            _ => content + rep(' ', total),
        }
    }
}

fn pad_into(out: &mut Vec<char>, content: &[char], width: usize, align: &Align)
    ensures
        final(out)@ == old(out)@ + spec_pad(content@, width as nat, *align),
{
    let len = content.len();
    if len >= width {
        extend(out, content);
        return;
    }
    let total = width - len;
    match align {
        Align::Right => {
            push_rep(out, ' ', total);
            extend(out, content);
        },
        Align::Center => {
            let left = total / 2;
            push_rep(out, ' ', left);
            extend(out, content);
            push_rep(out, ' ', total - left);
        },
        _ => {
            extend(out, content);
            push_rep(out, ' ', total);
        },
    }
}

/// The separator cell for a column of `width` (at least three) characters.
pub open spec fn spec_separator_cell(width: nat, align: Align) -> Seq<char> {
    let w: nat = if width < 3 {
        3
    } else {
        width
    };
    match align {
        Align::Plain => rep('-', w),
        Align::Left => seq![':'] + rep('-', (w - 1) as nat),
        Align::Right => rep('-', (w - 1) as nat) + seq![':'],
        Align::Center => seq![':'] + rep('-', (w - 2) as nat) + seq![':'],
    }
}

fn separator_cell_into(out: &mut Vec<char>, width: usize, align: &Align)
    ensures
        final(out)@ == old(out)@ + spec_separator_cell(width as nat, *align),
{
    let w = if width < 3 {
        3
    } else {
        width
    };
    match align {
        Align::Plain => push_rep(out, '-', w),
        Align::Left => {
            out.push(':');
            push_rep(out, '-', w - 1);
        },
        Align::Right => {
            push_rep(out, '-', w - 1);
            out.push(':');
        },
        Align::Center => {
            out.push(':');
            push_rep(out, '-', w - 2);
            out.push(':');
        },
    }
    assert(final(out)@ =~= old(out)@ + spec_separator_cell(width as nat, *align));
}


// ---------------------------------------------------------------------------
// Rows
// ---------------------------------------------------------------------------

/// Cells of `s[i..]`, given the cell `cur` being read, whether the next
/// character is escaped, and the cells already closed.
pub open spec fn cells_from(
    s: Seq<char>,
    i: int,
    cur: Seq<char>,
    escaped: bool,
    cells: Seq<Seq<char>>,
) -> Seq<Seq<char>>
    decreases s.len() - i,
{
    if i < 0 || i >= s.len() {
        cells.push(trim(cur))
    } else if escaped {
        cells_from(s, i + 1, cur.push(s[i]), false, cells)
    } else if s[i] == '\\' {
        cells_from(s, i + 1, cur.push(s[i]), true, cells)
    } else if s[i] == '|' {
        cells_from(s, i + 1, Seq::empty(), false, cells.push(trim(cur)))
    } else {
        cells_from(s, i + 1, cur.push(s[i]), false, cells)
    }
}

/// Whether the character at `i` of `s` follows an escaping backslash (a
/// backslash that is not itself escaped).
pub open spec fn escaped_at(s: Seq<char>, i: int) -> bool
    decreases i,
{
    if i <= 0 {
        false
    } else if escaped_at(s, i - 1) {
        false
    } else {
        s[i - 1] == '\\'
    }
}

proof fn lemma_cells_from_count(
    s: Seq<char>,
    i: int,
    cur: Seq<char>,
    escaped: bool,
    cells: Seq<Seq<char>>,
)
    requires
        0 <= i <= s.len(),
    ensures
        cells_from(s, i, cur, escaped, cells).len() == cells.len() + pipes_from(s, i, escaped) + 1,
        forall|k: int|
            0 <= k < cells.len() ==> #[trigger] cells_from(s, i, cur, escaped, cells)[k] == cells[k],
    decreases s.len() - i,
{
    if i < s.len() {
        if escaped {
            lemma_cells_from_count(s, i + 1, cur.push(s[i]), false, cells);
        } else if s[i] == '\\' {
            lemma_cells_from_count(s, i + 1, cur.push(s[i]), true, cells);
        } else if s[i] == '|' {
            lemma_cells_from_count(s, i + 1, Seq::empty(), false, cells.push(trim(cur)));
            let r = cells_from(s, i, cur, escaped, cells);
            assert forall|k: int| 0 <= k < cells.len() implies #[trigger] r[k] == cells[k] by {
                assert(cells.push(trim(cur))[k] == cells[k]);
            }
        } else {
            lemma_cells_from_count(s, i + 1, cur.push(s[i]), false, cells);
        }
    }
}

proof fn lemma_cells_from_last_empty(s: Seq<char>, i: int, cur: Seq<char>, cells: Seq<Seq<char>>)
    requires
        0 <= i < s.len(),
        s.last() == '|',
        !escaped_at(s, s.len() - 1),
    ensures
        cells_from(s, i, cur, escaped_at(s, i), cells).last() == Seq::<char>::empty(),
    decreases s.len() - i,
{
    let esc = escaped_at(s, i);
    assert(escaped_at(s, i + 1) == if esc {
        false
    } else {
        s[i] == '\\'
    });
    if i == s.len() - 1 {
        let e = Seq::<char>::empty();
        assert(s[i] == s.last());
        assert(!esc);
        assert(trim(e) =~= e);
        let next = cells.push(trim(cur));
        assert(cells_from(s, i, cur, esc, cells) == cells_from(s, i + 1, e, false, next));
        assert(cells_from(s, i + 1, e, false, next) == next.push(trim(e)));
    } else if esc {
        lemma_cells_from_last_empty(s, i + 1, cur.push(s[i]), cells);
    } else if s[i] == '\\' {
        lemma_cells_from_last_empty(s, i + 1, cur.push(s[i]), cells);
    } else if s[i] == '|' {
        lemma_cells_from_last_empty(s, i + 1, Seq::empty(), cells.push(trim(cur)));
    } else {
        lemma_cells_from_last_empty(s, i + 1, cur.push(s[i]), cells);
    }
}

/// Rows split exactly at unescaped pipes: a text read as a row gives one
/// cell more than it has pipes not escaped by a backslash, so a `\|` never
/// separates two cells.
pub proof fn lemma_cells_split_at_unescaped_pipes(s: Seq<char>)
    ensures
        cells_from(s, 0, Seq::empty(), false, Seq::empty()).len() == spec_count_unescaped_pipes(s)
            + 1,
{
    lemma_cells_from_count(s, 0, Seq::empty(), false, Seq::empty());
}

/// A table row written `| ... |` (its trimmed text starting with a pipe and
/// ending with one that is not escaped) has one cell fewer than it has
/// unescaped pipes: escaped pipes stay inside their cells.
pub proof fn lemma_row_cells_between_pipes(line: Seq<char>)
    requires
        trim(line).len() > 0,
        trim(line)[0] == '|',
        trim(line).last() == '|',
        !escaped_at(trim(line), trim(line).len() - 1),
    ensures
        spec_parse_row(line).len() + 1 == spec_count_unescaped_pipes(trim(line)),
{
    let s = trim(line);
    let e = Seq::<char>::empty();
    let c = cells_from(s, 0, e, false, Seq::empty());
    lemma_cells_from_count(s, 0, e, false, Seq::empty());
    assert(trim(e) =~= e);
    assert(c == cells_from(s, 1, e, false, seq![e]));
    assert(Seq::<Seq<char>>::empty().push(trim(e)) =~= seq![e]);
    lemma_cells_from_count(s, 1, e, false, seq![e]);
    assert(c[0] == e);
    assert(pipes_from(s, 0, false) == 1 + pipes_from(s, 1, false));
    assert(escaped_at(s, 0) == false);
    lemma_cells_from_last_empty(s, 0, e, Seq::empty());
    let c1 = c.drop_first();
    assert(c1.last() == c.last());
}

/// The trimmed cells of a table line: split on unescaped `|` (a `\|` stays in
/// its cell), dropping the empty cells produced by a leading or trailing pipe.
pub open spec fn spec_parse_row(line: Seq<char>) -> Seq<Seq<char>> {
    let s = trim(line);
    let cells = cells_from(s, 0, Seq::empty(), false, Seq::empty());
    let cells1 = if s.len() > 0 && s[0] == '|' && cells.len() > 0 && cells[0].len() == 0 {
        cells.drop_first()
    } else {
        cells
    };
    if s.len() > 0 && s.last() == '|' && cells1.len() > 0 && cells1.last().len() == 0 {
        cells1.drop_last()
    } else {
        cells1
    }
}

fn parse_row(line: &[char]) -> (r: Vec<Vec<char>>)
    ensures
        r.deep_view() == spec_parse_row(line@),
{
    let s = trim_vec(line);
    let mut cells: Vec<Vec<char>> = Vec::new();
    let mut cur: Vec<char> = Vec::new();
    let mut escaped = false;
    let mut i: usize = 0;
    let ghost full = cells_from(s@, 0, Seq::empty(), false, Seq::empty());
    assert(cells.deep_view() =~= Seq::<Seq<char>>::empty());
    while i < s.len()
        invariant
            i <= s@.len(),
            full == cells_from(s@, i as int, cur@, escaped, cells.deep_view()),
        decreases s@.len() - i,
    {
        let ch = s[i];
        if escaped {
            cur.push(ch);
            escaped = false;
        } else if ch == '\\' {
            cur.push(ch);
            escaped = true;
        } else if ch == '|' {
            let t = trim_vec(&cur);
            let ghost old_cells = cells.deep_view();
            cells.push(t);
            assert(cells.deep_view() =~= old_cells.push(trim(cur@)));
            cur = Vec::new();
            assert(cur@ =~= Seq::<char>::empty());
        } else {
            cur.push(ch);
        }
        i += 1;
    }
    let t = trim_vec(&cur);
    let ghost old_cells = cells.deep_view();
    cells.push(t);
    assert(cells.deep_view() =~= old_cells.push(trim(cur@)));
    assert(cells.deep_view() == full);
    if s.len() > 0 && s[0] == '|' && cells.len() > 0 && cells[0].len() == 0 {
        let ghost before = cells.deep_view();
        cells.remove(0);
        assert(cells.deep_view() =~= before.drop_first());
    }
    let ghost cells1 = cells.deep_view();
    let n = cells.len();
    if s.len() > 0 && s[s.len() - 1] == '|' && n > 0 && cells[n - 1].len() == 0 {
        cells.pop();
        assert(cells.deep_view() =~= cells1.drop_last());
    }
    cells
}

/// A separator row: at least one cell, and every cell a separator cell.
pub open spec fn spec_is_separator_row(cells: Seq<Seq<char>>) -> bool {
    cells.len() > 0 && forall|i: int| 0 <= i < cells.len() ==> spec_is_separator_cell(
        #[trigger] cells[i],
    )
}

fn is_separator_row(cells: &Vec<Vec<char>>) -> (r: bool)
    ensures
        r == spec_is_separator_row(cells.deep_view()),
{
    if cells.len() == 0 {
        return false;
    }
    let mut i: usize = 0;
    while i < cells.len()
        invariant
            i <= cells@.len(),
            forall|j: int| 0 <= j < i ==> spec_is_separator_cell(#[trigger] cells.deep_view()[j]),
        decreases cells@.len() - i,
    {
        if !is_separator_cell(&cells[i]) {
            assert(!spec_is_separator_cell(cells.deep_view()[i as int]));
            return false;
        }
        i += 1;
    }
    true
}

/// Whether a line belongs to a table: after trimming it is non-empty, is not
/// a heading, block quote or list item, has at least one unescaped pipe, and
/// either starts or ends with a pipe, has two or more pipes, or is a separator
/// row.
pub open spec fn spec_is_table_row(line: Seq<char>) -> bool {
    let s = trim(line);
    let pipes = spec_count_unescaped_pipes(s);
    &&& s.len() > 0
    &&& !(s[0] == '#' || s[0] == '>' || spec_is_list_item(s))
    &&& pipes > 0
    &&& (s[0] == '|' || s.last() == '|' || pipes >= 2 || spec_is_separator_row(
        spec_parse_row(line),
    ))
}

fn is_table_row(line: &[char]) -> (r: bool)
    ensures
        r == spec_is_table_row(line@),
{
    let s = trim_vec(line);
    if s.len() == 0 {
        return false;
    }
    if s[0] == '#' || s[0] == '>' || is_list_item(&s) {
        return false;
    }
    let pipes = count_unescaped_pipes(&s);
    if pipes == 0 {
        return false;
    }
    if s[0] == '|' || s[s.len() - 1] == '|' || pipes >= 2 {
        return true;
    }
    let cells = parse_row(line);
    is_separator_row(&cells)
}


// ---------------------------------------------------------------------------
// Groups
// ---------------------------------------------------------------------------

/// The widths of `v`, as natural numbers.
pub open spec fn nats(v: Seq<usize>) -> Seq<nat> {
    v.map_values(|w: usize| w as nat)
}

/// The `k`th cell of `cells`, or the empty cell past its end.
pub open spec fn cell_or_empty(cells: Seq<Seq<char>>, k: int) -> Seq<char> {
    if 0 <= k < cells.len() {
        cells[k]
    } else {
        Seq::empty()
    }
}

/// The first `k` columns of a rendered row: ` cell |` for each.
pub open spec fn row_cols(
    cells: Seq<Seq<char>>,
    widths: Seq<nat>,
    aligns: Seq<Align>,
    k: int,
) -> Seq<char>
    decreases k,
{
    if k <= 0 {
        Seq::empty()
    } else {
        row_cols(cells, widths, aligns, k - 1) + seq![' '] + spec_pad(
            cell_or_empty(cells, k - 1),
            widths[k - 1],
            aligns[k - 1],
        ) + seq![' ', '|']
    }
}

/// A rendered table row: the indent, a leading pipe, then every column.
pub open spec fn spec_render_row(
    indent: Seq<char>,
    cells: Seq<Seq<char>>,
    widths: Seq<nat>,
    aligns: Seq<Align>,
) -> Seq<char> {
    indent + seq!['|'] + row_cols(cells, widths, aligns, widths.len() as int)
}

/// The first `k` columns of a rendered separator row.
pub open spec fn sep_cols(widths: Seq<nat>, aligns: Seq<Align>, k: int) -> Seq<char>
    decreases k,
{
    if k <= 0 {
        Seq::empty()
    } else {
        sep_cols(widths, aligns, k - 1) + seq![' '] + spec_separator_cell(
            widths[k - 1],
            aligns[k - 1],
        ) + seq![' ', '|']
    }
}

/// A rendered separator row.
pub open spec fn spec_render_separator(
    indent: Seq<char>,
    widths: Seq<nat>,
    aligns: Seq<Align>,
) -> Seq<char> {
    indent + seq!['|'] + sep_cols(widths, aligns, widths.len() as int)
}

fn render_row(indent: &[char], cells: &Vec<Vec<char>>, widths: &Vec<usize>, aligns: &Vec<Align>) -> (r:
    Vec<char>)
    requires
        widths@.len() == aligns@.len(),
    ensures
        r@ == spec_render_row(indent@, cells.deep_view(), nats(widths@), aligns@),
{
    let mut s: Vec<char> = Vec::new();
    extend(&mut s, indent);
    s.push('|');
    let ghost head = indent@ + seq!['|'];
    assert(s@ =~= head + row_cols(cells.deep_view(), nats(widths@), aligns@, 0));
    let empty: Vec<char> = Vec::new();
    let mut c: usize = 0;
    while c < widths.len()
        invariant
            c <= widths@.len() == aligns@.len(),
            empty@ == Seq::<char>::empty(),
            s@ == head + row_cols(cells.deep_view(), nats(widths@), aligns@, c as int),
        decreases widths@.len() - c,
    {
        s.push(' ');
        if c < cells.len() {
            pad_into(&mut s, &cells[c], widths[c], &aligns[c]);
        } else {
            assert(empty@ =~= cell_or_empty(cells.deep_view(), c as int));
            pad_into(&mut s, &empty, widths[c], &aligns[c]);
        }
        s.push(' ');
        s.push('|');
        c += 1;
        assert(s@ =~= head + row_cols(cells.deep_view(), nats(widths@), aligns@, c as int));
    }
    s
}

fn render_separator(indent: &[char], widths: &Vec<usize>, aligns: &Vec<Align>) -> (r: Vec<char>)
    requires
        widths@.len() == aligns@.len(),
    ensures
        r@ == spec_render_separator(indent@, nats(widths@), aligns@),
{
    let mut s: Vec<char> = Vec::new();
    extend(&mut s, indent);
    s.push('|');
    let ghost head = indent@ + seq!['|'];
    assert(s@ =~= head + sep_cols(nats(widths@), aligns@, 0));
    let mut c: usize = 0;
    while c < widths.len()
        invariant
            c <= widths@.len() == aligns@.len(),
            s@ == head + sep_cols(nats(widths@), aligns@, c as int),
        decreases widths@.len() - c,
    {
        s.push(' ');
        separator_cell_into(&mut s, widths[c], &aligns[c]);
        s.push(' ');
        s.push('|');
        c += 1;
        assert(s@ =~= head + sep_cols(nats(widths@), aligns@, c as int));
    }
    s
}

/// Index of the first separator row at or after `i`.
pub open spec fn first_sep_from(parsed: Seq<Seq<Seq<char>>>, i: int) -> Option<int>
    decreases parsed.len() - i,
{
    if i < 0 || i >= parsed.len() {
        None
    } else if spec_is_separator_row(parsed[i]) {
        Some(i)
    } else {
        first_sep_from(parsed, i + 1)
    }
}

/// The body rows among the first `i` parsed rows: every row but the header
/// (row 0) and the separator.
pub open spec fn body_upto(parsed: Seq<Seq<Seq<char>>>, sep: Option<int>, i: int) -> Seq<
    Seq<Seq<char>>,
>
    decreases i,
{
    if i <= 1 {
        Seq::empty()
    } else if sep == Some(i - 1) {
        body_upto(parsed, sep, i - 1)
    } else {
        body_upto(parsed, sep, i - 1).push(parsed[i - 1])
    }
}

/// The largest number of cells in any of `rows`.
pub open spec fn max_cells(rows: Seq<Seq<Seq<char>>>) -> nat
    decreases rows.len(),
{
    if rows.len() == 0 {
        0
    } else if rows.last().len() > max_cells(rows.drop_last()) {
        rows.last().len()
    } else {
        max_cells(rows.drop_last())
    }
}

/// Character count of the `c`th cell of `row` (zero past its end).
pub open spec fn cell_len(row: Seq<Seq<char>>, c: int) -> nat {
    cell_or_empty(row, c).len()
}

/// Width of column `c`: the longest cell of that column among `rows`, and at
/// least three so that `---` fits.
pub open spec fn col_width(rows: Seq<Seq<Seq<char>>>, c: int) -> nat
    decreases rows.len(),
{
    if rows.len() == 0 {
        3
    } else if cell_len(rows.last(), c) > col_width(rows.drop_last(), c) {
        cell_len(rows.last(), c)
    } else {
        col_width(rows.drop_last(), c)
    }
}

/// The alignment of every column, read from the separator row if there is one.
pub open spec fn spec_aligns(parsed: Seq<Seq<Seq<char>>>, sep: Option<int>, n: nat) -> Seq<
    Align,
> {
    Seq::new(
        n,
        |c: int|
            match sep {
                Some(k) => if c < parsed[k].len() {
                    spec_cell_align(parsed[k][c])
                } else {
                    Align::Plain
                },
                None => Align::Plain,
            },
    )
}

/// The reformatted lines of one block of table-like lines, or `None` when the
/// block is not treated as a table (no columns, or a single one-cell line
/// without a separator).
pub open spec fn spec_format_group(group: Seq<Seq<char>>) -> Option<Seq<Seq<char>>> {
    let parsed = Seq::new(group.len(), |i: int| spec_parse_row(group[i]));
    let indent = spec_leading_ws(group[0]);
    let sep = first_sep_from(parsed, 1);
    let header = parsed[0];
    let body = body_upto(parsed, sep, parsed.len() as int);
    let sep_cells: nat = match sep {
        Some(k) => parsed[k].len(),
        None => 0,
    };
    let m = max_cells(seq![header] + body);
    let max_cols: nat = if sep_cells > m {
        sep_cells
    } else {
        m
    };
    let qualifies = sep is Some || max_cols >= 2 || group.len() >= 2;
    if max_cols == 0 || !qualifies {
        None
    } else {
        let rows = seq![header] + body;
        let widths = Seq::new(max_cols, |c: int| col_width(rows, c));
        let aligns = spec_aligns(parsed, sep, max_cols);
        let top = seq![
            spec_render_row(indent, header, widths, aligns),
            spec_render_separator(indent, widths, aligns),
        ];
        if body.len() == 0 {
            Some(top.push(spec_render_row(indent, Seq::empty(), widths, aligns)))
        } else {
            Some(
                top + Seq::new(
                    body.len(),
                    |i: int| spec_render_row(indent, body[i], widths, aligns),
                ),
            )
        }
    }
}


/// `o` with its index widened to an integer.
pub open spec fn opt_int(o: Option<usize>) -> Option<int> {
    match o {
        Some(k) => Some(k as int),
        None => None,
    }
}

/// The rows whose widths matter: the header, then the body rows `body` (by
/// index into `parsed`).
pub open spec fn rows_of(parsed: Seq<Seq<Seq<char>>>, body: Seq<usize>) -> Seq<Seq<Seq<char>>> {
    seq![parsed[0]] + Seq::new(body.len(), |j: int| parsed[body[j] as int])
}

fn parse_all(group: &Vec<Vec<char>>) -> (r: Vec<Vec<Vec<char>>>)
    ensures
        r.deep_view() == Seq::new(
            group@.len(),
            |i: int| spec_parse_row(group.deep_view()[i]),
        ),
{
    let mut parsed: Vec<Vec<Vec<char>>> = Vec::new();
    let mut i: usize = 0;
    while i < group.len()
        invariant
            i <= group@.len(),
            parsed.deep_view() == Seq::new(i as nat, |j: int| spec_parse_row(group.deep_view()[j])),
        decreases group@.len() - i,
    {
        let row = parse_row(&group[i]);
        let ghost before = parsed.deep_view();
        let ghost rv = row.deep_view();
        parsed.push(row);
        assert(parsed.deep_view() =~= before.push(rv));
        i += 1;
        assert(parsed.deep_view() =~= Seq::new(
            i as nat,
            |j: int| spec_parse_row(group.deep_view()[j]),
        ));
    }
    parsed
}

fn find_sep(parsed: &Vec<Vec<Vec<char>>>) -> (r: Option<usize>)
    ensures
        opt_int(r) == first_sep_from(parsed.deep_view(), 1),
        r matches Some(k) ==> 1 <= k < parsed@.len(),
{
    let mut k: usize = 1;
    while k < parsed.len()
        invariant
            1 <= k,
            first_sep_from(parsed.deep_view(), 1) == first_sep_from(parsed.deep_view(), k as int),
        decreases parsed@.len() - k,
    {
        if is_separator_row(&parsed[k]) {
            return Some(k);
        }
        k += 1;
    }
    None
}

fn body_rows(parsed: &Vec<Vec<Vec<char>>>, sep: Option<usize>) -> (b: Vec<usize>)
    requires
        parsed@.len() > 0,
    ensures
        b@.len() < parsed@.len(),
        body_upto(parsed.deep_view(), opt_int(sep), parsed@.len() as int) == Seq::new(
            b@.len(),
            |j: int| parsed.deep_view()[b@[j] as int],
        ),
        forall|j: int| 0 <= j < b@.len() ==> 0 < #[trigger] b@[j] < parsed@.len(),
{
    let ghost p = parsed.deep_view();
    let mut b: Vec<usize> = Vec::new();
    let mut i: usize = 1;
    assert(body_upto(p, opt_int(sep), 1) =~= Seq::new(0, |j: int| p[b@[j] as int]));
    while i < parsed.len()
        invariant
            1 <= i <= parsed@.len(),
            b@.len() < i,
            p == parsed.deep_view(),
            body_upto(p, opt_int(sep), i as int) == Seq::new(b@.len(), |j: int| p[b@[j] as int]),
            forall|j: int| 0 <= j < b@.len() ==> 0 < #[trigger] b@[j] < parsed@.len(),
        decreases parsed@.len() - i,
    {
        let is_sep = match sep {
            Some(k) => k == i,
            None => false,
        };
        if !is_sep {
            b.push(i);
        }
        i += 1;
        assert(body_upto(p, opt_int(sep), i as int) =~= Seq::new(
            b@.len(),
            |j: int| p[b@[j] as int],
        ));
    }
    b
}

fn max_cells_of(parsed: &Vec<Vec<Vec<char>>>, body: &Vec<usize>) -> (m: usize)
    requires
        parsed@.len() > 0,
        forall|j: int| 0 <= j < body@.len() ==> 0 < #[trigger] body@[j] < parsed@.len(),
    ensures
        m == max_cells(rows_of(parsed.deep_view(), body@)),
{
    let ghost rows = rows_of(parsed.deep_view(), body@);
    let mut m: usize = parsed[0].len();
    assert(rows.take(1).drop_last() =~= Seq::<Seq<Seq<char>>>::empty());
    assert(rows.take(1).last() == rows[0]);
    assert(rows[0] == parsed.deep_view()[0]);
    assert(max_cells(rows.take(1).drop_last()) == 0);
    assert(parsed.deep_view()[0].len() == parsed[0]@.len());
    let mut j: usize = 0;
    while j < body.len()
        invariant
            j <= body@.len(),
            rows == rows_of(parsed.deep_view(), body@),
            forall|t: int| 0 <= t < body@.len() ==> 0 < #[trigger] body@[t] < parsed@.len(),
            m == max_cells(rows.take(j + 1)),
        decreases body@.len() - j,
    {
        let len = parsed[body[j]].len();
        if len > m {
            m = len;
        }
        j += 1;
        assert(rows.take(j + 1).drop_last() =~= rows.take(j as int));
    }
    assert(rows.take(body@.len() + 1int) =~= rows);
    m
}

fn widths_of(parsed: &Vec<Vec<Vec<char>>>, body: &Vec<usize>, n: usize) -> (w: Vec<usize>)
    requires
        parsed@.len() > 0,
        body@.len() < parsed@.len(),
        forall|j: int| 0 <= j < body@.len() ==> 0 < #[trigger] body@[j] < parsed@.len(),
    ensures
        nats(w@) == Seq::new(n as nat, |c: int| col_width(rows_of(parsed.deep_view(), body@), c)),
{
    let ghost rows = rows_of(parsed.deep_view(), body@);
    let mut w: Vec<usize> = Vec::new();
    let mut c: usize = 0;
    while c < n
        invariant
            c <= n,
            w@.len() == c,
            forall|t: int| 0 <= t < c ==> w@[t] == 3,
        decreases n - c,
    {
        w.push(3);
        c += 1;
    }
    let mut j: usize = 0;
    let plen = parsed.len();
    assert forall|t: int| 0 <= t < n implies w@[t] as nat == col_width(rows.take(j as int), t) by {
        assert(rows.take(0).len() == 0);
    }
    while j <= body.len()
        invariant
            j <= body@.len() + 1,
            plen == parsed@.len(),
            body@.len() < parsed@.len(),
            parsed@.len() > 0,
            w@.len() == n,
            rows == rows_of(parsed.deep_view(), body@),
            forall|t: int| 0 <= t < body@.len() ==> 0 < #[trigger] body@[t] < parsed@.len(),
            forall|t: int| 0 <= t < n ==> #[trigger] w@[t] as nat == col_width(rows.take(j as int), t),
        decreases body@.len() + 1 - j,
    {
        let row = if j == 0 {
            &parsed[0]
        } else {
            &parsed[body[j - 1]]
        };
        assert(row.deep_view() == rows[j as int]);
        let ghost before = w@;
        let mut c: usize = 0;
        while c < n
            invariant
                c <= n,
                w@.len() == n,
                row.deep_view() == rows[j as int],
                j < rows.len(),
                j <= body@.len(),
                body@.len() < parsed@.len(),
                parsed@.len() > 0,
                rows == rows_of(parsed.deep_view(), body@),
                forall|t: int| 0 <= t < body@.len() ==> 0 < #[trigger] body@[t] < parsed@.len(),
                forall|t: int| c <= t < n ==> #[trigger] w@[t] == before[t],
                forall|t: int|
                    0 <= t < c ==> #[trigger] w@[t] as nat == col_width(rows.take(j + 1), t),
                forall|t: int| 0 <= t < n ==> before[t] as nat == col_width(rows.take(j as int), t),
            decreases n - c,
        {
            assert(rows.take(j + 1).drop_last() =~= rows.take(j as int));
            assert(rows.take(j + 1).last() == rows[j as int]);
            let len = if c < row.len() {
                row[c].len()
            } else {
                0
            };
            if len > w[c] {
                w.set(c, len);
            }
            c += 1;
        }
        j += 1;
    }
    assert(rows.take(body@.len() + 1int) =~= rows);
    assert(nats(w@) =~= Seq::new(n as nat, |c: int| col_width(rows, c)));
    w
}

fn aligns_of(parsed: &Vec<Vec<Vec<char>>>, sep: Option<usize>, n: usize) -> (a: Vec<Align>)
    requires
        sep matches Some(k) ==> k < parsed@.len(),
    ensures
        a@ == spec_aligns(parsed.deep_view(), opt_int(sep), n as nat),
{
    let mut a: Vec<Align> = Vec::new();
    let mut c: usize = 0;
    while c < n
        invariant
            c <= n,
            sep matches Some(k) ==> k < parsed@.len(),
            a@ == spec_aligns(parsed.deep_view(), opt_int(sep), n as nat).take(c as int),
        decreases n - c,
    {
        let al = match sep {
            Some(k) => if c < parsed[k].len() {
                cell_align(&parsed[k][c])
            } else {
                Align::Plain
            },
            None => Align::Plain,
        };
        a.push(al);
        c += 1;
        assert(a@ =~= spec_aligns(parsed.deep_view(), opt_int(sep), n as nat).take(c as int));
    }
    assert(a@ =~= spec_aligns(parsed.deep_view(), opt_int(sep), n as nat));
    a
}


/// The spec result of [`format_group`] as an optional line sequence.
pub open spec fn opt_lines(r: Option<Vec<Vec<char>>>) -> Option<Seq<Seq<char>>> {
    match r {
        Some(v) => Some(v.deep_view()),
        None => None,
    }
}

/// Reformat one contiguous block of table-like lines, or `None` to leave it.
pub fn format_group(group: &Vec<Vec<char>>) -> (r: Option<Vec<Vec<char>>>)
    requires
        group@.len() > 0,
    ensures
        opt_lines(r) == spec_format_group(group.deep_view()),
{
    let ghost g = group.deep_view();
    let indent = leading_ws(&group[0]);
    let parsed = parse_all(group);
    let ghost p = parsed.deep_view();
    assert(p == Seq::new(g.len(), |i: int| spec_parse_row(g[i])));
    let sep = find_sep(&parsed);
    let body = body_rows(&parsed, sep);
    let ghost rows = rows_of(p, body@);
    let ghost spec_body = body_upto(p, opt_int(sep), p.len() as int);
    assert(rows =~= seq![p[0]] + spec_body);
    let m = max_cells_of(&parsed, &body);
    let sep_cells: usize = match sep {
        Some(k) => parsed[k].len(),
        None => 0,
    };
    let max_cols = if sep_cells > m {
        sep_cells
    } else {
        m
    };
    let qualifies = sep.is_some() || max_cols >= 2 || group.len() >= 2;
    if max_cols == 0 || !qualifies {
        return None;
    }
    let widths = widths_of(&parsed, &body, max_cols);
    let aligns = aligns_of(&parsed, sep, max_cols);
    let ghost sw = Seq::new(max_cols as nat, |c: int| col_width(rows, c));
    let ghost sa = spec_aligns(p, opt_int(sep), max_cols as nat);
    let mut out: Vec<Vec<char>> = Vec::new();
    let h = render_row(&indent, &parsed[0], &widths, &aligns);
    out.push(h);
    let sr = render_separator(&indent, &widths, &aligns);
    out.push(sr);
    let ghost top = seq![
        spec_render_row(indent@, p[0], sw, sa),
        spec_render_separator(indent@, sw, sa),
    ];
    assert(out.deep_view() =~= top);
    if body.len() == 0 {
        let empty: Vec<Vec<char>> = Vec::new();
        assert(empty.deep_view() =~= Seq::<Seq<char>>::empty());
        let e = render_row(&indent, &empty, &widths, &aligns);
        out.push(e);
        assert(out.deep_view() =~= top.push(spec_render_row(indent@, Seq::empty(), sw, sa)));
    } else {
        let mut j: usize = 0;
        while j < body.len()
            invariant
                j <= body@.len(),
                widths@.len() == aligns@.len() == max_cols,
                nats(widths@) == sw,
                aligns@ == sa,
                forall|t: int| 0 <= t < body@.len() ==> 0 < #[trigger] body@[t] < parsed@.len(),
                spec_body == Seq::new(body@.len(), |t: int| p[body@[t] as int]),
                p == parsed.deep_view(),
                out.deep_view() == top + Seq::new(
                    j as nat,
                    |i: int| spec_render_row(indent@, spec_body[i], sw, sa),
                ),
            decreases body@.len() - j,
        {
            let line = render_row(&indent, &parsed[body[j]], &widths, &aligns);
            let ghost before = out.deep_view();
            let ghost lv = line@;
            assert(parsed.deep_view()[body@[j as int] as int] == spec_body[j as int]);
            out.push(line);
            assert(out.deep_view() =~= before.push(lv));
            j += 1;
            assert(out.deep_view() =~= top + Seq::new(
                j as nat,
                |i: int| spec_render_row(indent@, spec_body[i], sw, sa),
            ));
        }
    }
    Some(out)
}


// ---------------------------------------------------------------------------
// Documents
// ---------------------------------------------------------------------------

/// Pieces of `s[i..]` between `\n` separators, given the piece `cur` being
/// read and the pieces already closed.
pub open spec fn split_from(s: Seq<char>, i: int, cur: Seq<char>, acc: Seq<Seq<char>>) -> Seq<
    Seq<char>,
>
    decreases s.len() - i,
{
    if i < 0 || i >= s.len() {
        acc.push(cur)
    } else if s[i] == '\n' {
        split_from(s, i + 1, Seq::empty(), acc.push(cur))
    } else {
        split_from(s, i + 1, cur.push(s[i]), acc)
    }
}

/// `l` without one trailing carriage return.
pub open spec fn strip_cr(l: Seq<char>) -> Seq<char> {
    if l.len() > 0 && l.last() == '\r' {
        l.drop_last()
    } else {
        l
    }
}

/// The lines of `s`: split on `\n`, each without a trailing `\r`.
pub open spec fn lines_of(s: Seq<char>) -> Seq<Seq<char>> {
    let pieces = split_from(s, 0, Seq::empty(), Seq::empty());
    Seq::new(pieces.len(), |i: int| strip_cr(pieces[i]))
}

/// Whether a `\r\n` pair starts at index `i` of `s`.
pub open spec fn crlf_at(s: Seq<char>, i: int) -> bool {
    0 <= i < s.len() - 1 && s[i] == '\r' && s[i + 1] == '\n'
}

/// Whether `s` contains a `\r\n` pair.
pub open spec fn has_crlf(s: Seq<char>) -> bool {
    exists|i: int| #[trigger] crlf_at(s, i)
}

/// First index at or after `j` whose trimmed line equals `close` (or the end).
pub open spec fn fm_close(lines: Seq<Seq<char>>, close: Seq<char>, j: int) -> int
    decreases lines.len() - j,
{
    if j < 0 || j >= lines.len() {
        lines.len() as int
    } else if trim(lines[j]) == close {
        j
    } else {
        fm_close(lines, close, j + 1)
    }
}

/// First index at or after `j` that is not a table row (or the end).
pub open spec fn run_end(lines: Seq<Seq<char>>, j: int) -> int
    decreases lines.len() - j,
{
    if j < 0 || j >= lines.len() {
        if j < 0 { 0 } else { j }
    } else if !spec_is_table_row(lines[j]) {
        j
    } else {
        run_end(lines, j + 1)
    }
}

pub proof fn lemma_run_end(lines: Seq<Seq<char>>, j: int)
    requires
        0 <= j,
    ensures
        j <= run_end(lines, j),
        j <= lines.len() ==> run_end(lines, j) <= lines.len(),
    decreases lines.len() - j,
{
    if j < lines.len() && spec_is_table_row(lines[j]) {
        lemma_run_end(lines, j + 1);
    }
}

pub proof fn lemma_fm_close(lines: Seq<Seq<char>>, close: Seq<char>, j: int)
    requires
        0 <= j,
    ensures
        j <= fm_close(lines, close, j) || fm_close(lines, close, j) == lines.len(),
        fm_close(lines, close, j) <= lines.len(),
    decreases lines.len() - j,
{
    if j < lines.len() && trim(lines[j]) != close {
        lemma_fm_close(lines, close, j + 1);
    }
}

/// Whether a (trimmed) line opens front matter: `---` or `+++`.
pub open spec fn is_front_matter_open(t: Seq<char>) -> bool {
    t == seq!['-', '-', '-'] || t == seq!['+', '+', '+']
}

/// The output lines produced for `lines[i..]`, given the fence character of
/// the code block that is open at line `i`, if any. Lines inside fenced code,
/// the front matter at the very top, and lines that are not table rows are
/// copied unchanged; every maximal run of table rows is replaced by its
/// formatted group when it qualifies as a table.
pub open spec fn fmt_from(lines: Seq<Seq<char>>, i: int, fence: Option<char>) -> Seq<Seq<char>>
    decreases lines.len() - i,
{
    if i < 0 || i >= lines.len() {
        Seq::empty()
    } else {
        let line = lines[i];
        let t = trim_start(line);
        match fence {
            Some(m) => seq![line] + fmt_from(
                lines,
                i + 1,
                if starts_with(t, rep(m, 3)) {
                    None
                } else {
                    Some(m)
                },
            ),
            None => match spec_fence_marker(t) {
                Some(m) => seq![line] + fmt_from(lines, i + 1, Some(m)),
                None => if i == 0 && is_front_matter_open(trim(line)) {
                    let k = fm_close(lines, trim(line), 1);
                    let e = if k < lines.len() {
                        k + 1
                    } else {
                        k
                    };
                    proof {
                        lemma_fm_close(lines, trim(line), 1);
                    }
                    lines.subrange(0, e) + fmt_from(lines, e, None)
                } else if spec_is_table_row(line) {
                    let e = run_end(lines, i + 1);
                    proof {
                        lemma_run_end(lines, i + 1);
                    }
                    let group = lines.subrange(i, e);
                    let formatted = match spec_format_group(group) {
                        Some(f) => f,
                        None => group,
                    };
                    formatted + fmt_from(lines, e, None)
                } else {
                    seq![line] + fmt_from(lines, i + 1, None)
                },
            },
        }
    }
}

/// The whole document with every table-like block reformatted and all other
/// text kept verbatim; lines are re-joined with `\r\n` when the input used
/// `\r\n` anywhere, and with `\n` otherwise.
pub open spec fn spec_format_tables(source: Seq<char>) -> Seq<char> {
    let sep = if has_crlf(source) {
        seq!['\r', '\n']
    } else {
        seq!['\n']
    };
    join(fmt_from(lines_of(source), 0, None), sep)
}


fn contains_crlf(s: &[char]) -> (r: bool)
    ensures
        r == has_crlf(s@),
{
    let mut i: usize = 0;
    while i < s.len() && s.len() - i > 1
        invariant
            i <= s@.len(),
            forall|j: int| 0 <= j < i ==> !crlf_at(s@, j),
        decreases s@.len() - i,
    {
        if s[i] == '\r' && s[i + 1] == '\n' {
            assert(crlf_at(s@, i as int));
            return true;
        }
        i += 1;
    }
    assert forall|j: int| !crlf_at(s@, j) by {
        if 0 <= j < s@.len() - 1 {
            assert(j < i);
        }
    }
    false
}

/// The lines of `s`, as [`lines_of`] describes them.
pub fn split_lines(s: &[char]) -> (r: Vec<Vec<char>>)
    ensures
        r.deep_view() == lines_of(s@),
{
    let mut pieces: Vec<Vec<char>> = Vec::new();
    let mut cur: Vec<char> = Vec::new();
    let mut i: usize = 0;
    let ghost full = split_from(s@, 0, Seq::empty(), Seq::empty());
    assert(pieces.deep_view() =~= Seq::<Seq<char>>::empty());
    while i < s.len()
        invariant
            i <= s@.len(),
            full == split_from(s@, i as int, cur@, pieces.deep_view()),
        decreases s@.len() - i,
    {
        if s[i] == '\n' {
            let ghost before = pieces.deep_view();
            let ghost cv = cur@;
            pieces.push(cur);
            assert(pieces.deep_view() =~= before.push(cv));
            cur = Vec::new();
            assert(cur@ =~= Seq::<char>::empty());
        } else {
            cur.push(s[i]);
        }
        i += 1;
    }
    let ghost before = pieces.deep_view();
    let ghost cv = cur@;
    pieces.push(cur);
    assert(pieces.deep_view() =~= before.push(cv));
    let ghost pv = pieces.deep_view();
    let mut out: Vec<Vec<char>> = Vec::new();
    let mut j: usize = 0;
    while j < pieces.len()
        invariant
            j <= pieces@.len(),
            pv == pieces.deep_view(),
            out.deep_view() == Seq::new(j as nat, |k: int| strip_cr(pv[k])),
        decreases pieces@.len() - j,
    {
        let p = &pieces[j];
        let n = p.len();
        let line = if n > 0 && p[n - 1] == '\r' {
            assert(p@.drop_last() =~= p@.subrange(0, n - 1));
            slice_chars(p, 0, n - 1)
        } else {
            assert(p@.subrange(0, n as int) =~= p@);
            slice_chars(p, 0, n)
        };
        let ghost before = out.deep_view();
        let ghost lv = line@;
        out.push(line);
        assert(out.deep_view() =~= before.push(lv));
        j += 1;
        assert(out.deep_view() =~= Seq::new(j as nat, |k: int| strip_cr(pv[k])));
    }
    out
}

fn is_front_matter_line(t: &[char]) -> (r: bool)
    ensures
        r == is_front_matter_open(t@),
{
    let r = t.len() == 3 && ((t[0] == '-' && t[1] == '-' && t[2] == '-') || (t[0] == '+' && t[1]
        == '+' && t[2] == '+'));
    if r {
        if t[0] == '-' {
            assert(t@ =~= seq!['-', '-', '-']);
        } else {
            assert(t@ =~= seq!['+', '+', '+']);
        }
    } else if t.len() == 3 {
        assert(t@ != seq!['-', '-', '-'] ==> true);
        assert(seq!['-', '-', '-'][0] == '-' && seq!['+', '+', '+'][0] == '+');
        assert(seq!['-', '-', '-'][1] == '-' && seq!['+', '+', '+'][1] == '+');
        assert(seq!['-', '-', '-'][2] == '-' && seq!['+', '+', '+'][2] == '+');
    }
    r
}

/// Copies of `lines[a..b]`.
fn copy_lines(lines: &Vec<Vec<char>>, a: usize, b: usize) -> (r: Vec<Vec<char>>)
    requires
        a <= b <= lines@.len(),
    ensures
        r.deep_view() == lines.deep_view().subrange(a as int, b as int),
{
    let mut out: Vec<Vec<char>> = Vec::new();
    let mut i = a;
    while i < b
        invariant
            a <= i <= b <= lines@.len(),
            out.deep_view() == lines.deep_view().subrange(a as int, i as int),
        decreases b - i,
    {
        let l = slice_chars(&lines[i], 0, lines[i].len());
        assert(l@ =~= lines[i as int]@);
        let ghost before = out.deep_view();
        let ghost lv = l@;
        out.push(l);
        assert(out.deep_view() =~= before.push(lv));
        i += 1;
        assert(out.deep_view() =~= lines.deep_view().subrange(a as int, i as int));
    }
    out
}

/// Moves every line of `more` onto the end of `out`.
fn append_lines(out: &mut Vec<Vec<char>>, more: Vec<Vec<char>>)
    ensures
        final(out).deep_view() == old(out).deep_view() + more.deep_view(),
{
    let ghost mv = more.deep_view();
    let mut more = more;
    let mut rest: Vec<Vec<char>> = Vec::new();
    // Move lines back-to-front so each `pop` yields the next line in order.
    while more.len() > 0
        invariant
            mv == more.deep_view() + rest.deep_view().reverse(),
        decreases more@.len(),
    {
        let ghost mb = more.deep_view();
        let ghost rb = rest.deep_view();
        let l = more.pop().unwrap();
        let ghost lv = l@;
        assert(mb == more.deep_view().push(lv)) by {
            assert(mb =~= more.deep_view().push(lv));
        }
        rest.push(l);
        assert(rest.deep_view() =~= rb.push(lv));
        assert(rest.deep_view().reverse() =~= seq![lv] + rb.reverse());
        assert(mv =~= more.deep_view() + rest.deep_view().reverse());
    }
    assert(more.deep_view() =~= Seq::<Seq<char>>::empty());
    while rest.len() > 0
        invariant
            out.deep_view() + rest.deep_view().reverse() == old(out).deep_view() + mv,
        decreases rest@.len(),
    {
        let ghost ob = out.deep_view();
        let ghost rb = rest.deep_view();
        let l = rest.pop().unwrap();
        let ghost lv = l@;
        assert(rb =~= rest.deep_view().push(lv));
        out.push(l);
        assert(out.deep_view() =~= ob.push(lv));
        assert(rb.reverse() =~= seq![lv] + rest.deep_view().reverse());
        assert(out.deep_view() + rest.deep_view().reverse() =~= ob + rb.reverse());
    }
    assert(rest.deep_view().reverse() =~= Seq::<Seq<char>>::empty());
    assert(out.deep_view() =~= old(out).deep_view() + mv);
}


/// Format every table-like block in `source`, leaving all other text verbatim.
#[verifier::spinoff_prover]
#[verifier::rlimit(40)]
pub fn format_tables(source: &str) -> (r: String)
    ensures
        r@ == spec_format_tables(source@),
{
    let chars = chars_of(source);
    let crlf = contains_crlf(&chars);
    let lines = split_lines(&chars);
    let ghost ls = lines.deep_view();
    let n = lines.len();
    let mut out: Vec<Vec<char>> = Vec::new();
    let mut i: usize = 0;
    let mut fence: Option<char> = None;
    assert(out.deep_view() + fmt_from(ls, 0, None) =~= fmt_from(ls, 0, None));
    while i < n
        invariant
            i <= n == ls.len(),
            ls == lines.deep_view(),
            fmt_from(ls, 0, None) == out.deep_view() + fmt_from(ls, i as int, fence),
        decreases n - i,
    {
        let line = &lines[i];
        let lo = trim_start_index(line);
        let trimmed = slice_chars(line, lo, line.len());
        assert(trimmed@ =~= trim_start(ls[i as int]));
        let ghost before = out.deep_view();
        match fence {
            Some(m) => {
                let copy = slice_chars(line, 0, line.len());
                assert(copy@ =~= ls[i as int]);
                out.push(copy);
                assert(out.deep_view() =~= before.push(ls[i as int]));
                if starts_with_three(&trimmed, m) {
                    fence = None;
                }
                i += 1;
                assert(fmt_from(ls, 0, None) =~= out.deep_view() + fmt_from(ls, i as int, fence));
                continue ;
            },
            None => {},
        }
        match fence_marker(&trimmed) {
            Some(m) => {
                let copy = slice_chars(line, 0, line.len());
                assert(copy@ =~= ls[i as int]);
                out.push(copy);
                assert(out.deep_view() =~= before.push(ls[i as int]));
                fence = Some(m);
                i += 1;
                assert(fmt_from(ls, 0, None) =~= out.deep_view() + fmt_from(ls, i as int, fence));
                continue ;
            },
            None => {},
        }
        let close = trim_vec(line);
        if i == 0 && is_front_matter_line(&close) {
            let mut k: usize = 1;
            while k < n && !eq_chars(&trim_vec(&lines[k]), &close)
                invariant
                    1 <= k <= n == ls.len(),
                    ls == lines.deep_view(),
                    close@ == trim(ls[0]),
                    fm_close(ls, close@, 1) == fm_close(ls, close@, k as int),
                decreases n - k,
            {
                k += 1;
            }
            let e = if k < n {
                k + 1
            } else {
                k
            };
            let front = copy_lines(&lines, 0, e);
            append_lines(&mut out, front);
            i = e;
            assert(fmt_from(ls, 0, None) =~= out.deep_view() + fmt_from(ls, i as int, None));
            fence = None;
            continue ;
        }
        if is_table_row(line) {
            let mut e = i + 1;
            while e < n && is_table_row(&lines[e])
                invariant
                    i < e <= n == ls.len(),
                    ls == lines.deep_view(),
                    run_end(ls, i + 1) == run_end(ls, e as int),
                decreases n - e,
            {
                e += 1;
            }
            let group = copy_lines(&lines, i, e);
            match format_group(&group) {
                Some(f) => append_lines(&mut out, f),
                None => append_lines(&mut out, group),
            }
            i = e;
            assert(fmt_from(ls, 0, None) =~= out.deep_view() + fmt_from(ls, i as int, None));
            continue ;
        }
        let copy = slice_chars(line, 0, line.len());
        assert(copy@ =~= ls[i as int]);
        out.push(copy);
        assert(out.deep_view() =~= before.push(ls[i as int]));
        i += 1;
        assert(fmt_from(ls, 0, None) =~= out.deep_view() + fmt_from(ls, i as int, fence));
    }
    assert(fmt_from(ls, n as int, fence) =~= Seq::<Seq<char>>::empty());
    assert(out.deep_view() =~= fmt_from(ls, 0, None));
    let sep: Vec<char> = if crlf {
        vec!['\r', '\n']
    } else {
        vec!['\n']
    };
    assert(sep@ =~= if has_crlf(source@) {
        seq!['\r', '\n']
    } else {
        seq!['\n']
    });
    let joined = join_lines(&out, &sep);
    string_of(&joined)
}

/// A document without table rows and without carriage returns is left
/// unchanged by table formatting.
pub proof fn lemma_no_tables_unchanged(source: Seq<char>)
    requires
        forall|i: int| 0 <= i < source.len() ==> #[trigger] source[i] != '\r',
        forall|k: int|
            0 <= k < lines_of(source).len() ==> !spec_is_table_row(#[trigger] lines_of(source)[k]),
    ensures
        spec_format_tables(source) == source,
{
    let pieces = split_from(source, 0, Seq::empty(), Seq::empty());
    lemma_split_no_cr(source, 0, Seq::empty(), Seq::empty());
    let lines = lines_of(source);
    assert(lines =~= pieces);
    lemma_fmt_copies(lines, 0, None);
    assert(lines.skip(0) =~= lines);
    assert(!has_crlf(source));
    lemma_join_split(source, 0, Seq::empty(), Seq::empty());
    assert(Seq::<Seq<char>>::empty().push(Seq::<char>::empty()) =~= seq![Seq::<char>::empty()]);
    assert(source.subrange(0, source.len() as int) =~= source);
}

/// Without table rows, formatting copies every line from `i` on.
proof fn lemma_fmt_copies(lines: Seq<Seq<char>>, i: int, fence: Option<char>)
    requires
        0 <= i <= lines.len(),
        forall|k: int| 0 <= k < lines.len() ==> !spec_is_table_row(#[trigger] lines[k]),
    ensures
        fmt_from(lines, i, fence) == lines.skip(i),
    decreases lines.len() - i,
{
    if i < lines.len() {
        let line = lines[i];
        let t = trim_start(line);
        match fence {
            Some(m) => {
                let next = if starts_with(t, rep(m, 3)) {
                    None
                } else {
                    Some(m)
                };
                lemma_fmt_copies(lines, i + 1, next);
                assert(seq![line] + lines.skip(i + 1) =~= lines.skip(i));
            },
            None => match spec_fence_marker(t) {
                Some(m) => {
                    lemma_fmt_copies(lines, i + 1, Some(m));
                    assert(seq![line] + lines.skip(i + 1) =~= lines.skip(i));
                },
                None => if i == 0 && is_front_matter_open(trim(line)) {
                    let k = fm_close(lines, trim(line), 1);
                    let e = if k < lines.len() {
                        k + 1
                    } else {
                        k
                    };
                    lemma_fm_close(lines, trim(line), 1);
                    lemma_fmt_copies(lines, e, None);
                    assert(lines.subrange(0, e) + lines.skip(e) =~= lines.skip(i));
                } else {
                    assert(!spec_is_table_row(lines[i]));
                    lemma_fmt_copies(lines, i + 1, None);
                    assert(seq![line] + lines.skip(i + 1) =~= lines.skip(i));
                },
            },
        }
    } else {
        assert(lines.skip(i) =~= Seq::<Seq<char>>::empty());
    }
}

/// Splitting a text without carriage returns gives pieces that do not end
/// in one.
proof fn lemma_split_no_cr(s: Seq<char>, i: int, cur: Seq<char>, acc: Seq<Seq<char>>)
    requires
        0 <= i,
        forall|j: int| 0 <= j < s.len() ==> #[trigger] s[j] != '\r',
        cur.len() == 0 || cur.last() != '\r',
        forall|j: int| 0 <= j < acc.len() ==> (#[trigger] acc[j]).len() == 0 || acc[j].last() != '\r',
    ensures
        ({
            let p = split_from(s, i, cur, acc);
            forall|j: int| 0 <= j < p.len() ==> strip_cr(#[trigger] p[j]) == p[j]
        }),
    decreases s.len() - i,
{
    if i >= s.len() {
        let p = acc.push(cur);
        assert forall|j: int| 0 <= j < p.len() implies strip_cr(#[trigger] p[j]) == p[j] by {
            if j < acc.len() {
                assert(p[j] == acc[j]);
            }
        }
    } else if s[i] == '\n' {
        let a2 = acc.push(cur);
        assert forall|j: int| 0 <= j < a2.len() implies (#[trigger] a2[j]).len() == 0 || a2[j].last() != '\r' by {
            if j < acc.len() {
                assert(a2[j] == acc[j]);
            }
        }
        lemma_split_no_cr(s, i + 1, Seq::empty(), a2);
        assert(split_from(s, i, cur, acc) == split_from(s, i + 1, Seq::empty(), a2));
    } else {
        assert(s[i] != '\r');
        lemma_split_no_cr(s, i + 1, cur.push(s[i]), acc);
        assert(split_from(s, i, cur, acc) == split_from(s, i + 1, cur.push(s[i]), acc));
    }
}

/// Joining the pieces of `s[i..]` with `\n` gives back the text.
proof fn lemma_join_split(s: Seq<char>, i: int, cur: Seq<char>, acc: Seq<Seq<char>>)
    requires
        0 <= i <= s.len(),
    ensures
        join(split_from(s, i, cur, acc), seq!['\n']) == join(acc.push(cur), seq!['\n']) + s.subrange(
            i,
            s.len() as int,
        ),
    decreases s.len() - i,
{
    let nl = seq!['\n'];
    if i >= s.len() {
        assert(s.subrange(i, s.len() as int) =~= Seq::<char>::empty());
        assert(join(acc.push(cur), nl) + Seq::<char>::empty() =~= join(acc.push(cur), nl));
    } else if s[i] == '\n' {
        let a2 = acc.push(cur);
        lemma_join_split(s, i + 1, Seq::empty(), a2);
        assert(a2.push(Seq::<char>::empty()).drop_last() =~= a2);
        assert(join(a2.push(Seq::<char>::empty()), nl) == join(a2, nl) + nl + Seq::<char>::empty());
        assert(join(a2, nl) + nl + Seq::<char>::empty() + s.subrange(i + 1, s.len() as int) =~= join(
            a2,
            nl,
        ) + s.subrange(i, s.len() as int));
    } else {
        lemma_join_split(s, i + 1, cur.push(s[i]), acc);
        if acc.len() == 0 {
            assert(acc.push(cur.push(s[i])) =~= seq![cur.push(s[i])]);
            assert(acc.push(cur) =~= seq![cur]);
        } else {
            assert(acc.push(cur.push(s[i])).drop_last() =~= acc);
            assert(acc.push(cur).drop_last() =~= acc);
        }
        assert(join(acc.push(cur.push(s[i])), nl) =~= join(acc.push(cur), nl) + seq![s[i]]);
        assert(join(acc.push(cur), nl) + seq![s[i]] + s.subrange(i + 1, s.len() as int) =~= join(
            acc.push(cur),
            nl,
        ) + s.subrange(i, s.len() as int));
    }
}

/// The characters taken by the first `k` columns of widths `widths`: a
/// space, the column and ` |` for each.
pub open spec fn cols_total(widths: Seq<nat>, k: int) -> nat
    decreases k,
{
    if k <= 0 {
        0
    } else {
        cols_total(widths, k - 1) + widths[k - 1] + 3
    }
}

/// A formatted table is aligned: every line of it, the separator row
/// included, has the same number of characters (the indent, the leading
/// pipe, and for each column a space, the column's width and ` |`).
pub proof fn lemma_formatted_table_aligned(group: Seq<Seq<char>>)
    requires
        group.len() > 0,
    ensures
        match spec_format_group(group) {
            Some(lines) => forall|i: int|
                0 <= i < lines.len() ==> (#[trigger] lines[i]).len() == lines[0].len(),
            None => true,
        },
{
    let parsed = Seq::new(group.len(), |i: int| spec_parse_row(group[i]));
    let indent = spec_leading_ws(group[0]);
    let sep = first_sep_from(parsed, 1);
    let header = parsed[0];
    let body = body_upto(parsed, sep, parsed.len() as int);
    let sep_cells: nat = match sep {
        Some(k) => parsed[k].len(),
        None => 0,
    };
    let m = max_cells(seq![header] + body);
    let max_cols: nat = if sep_cells > m {
        sep_cells
    } else {
        m
    };
    let qualifies = sep is Some || max_cols >= 2 || group.len() >= 2;
    if max_cols == 0 || !qualifies {
        return;
    }
    let rows = seq![header] + body;
    let widths = Seq::new(max_cols, |c: int| col_width(rows, c));
    let aligns = spec_aligns(parsed, sep, max_cols);
    let n = max_cols as int;
    let total = indent.len() + 1 + cols_total(widths, n);
    // Every row of the table renders to the same length.
    assert forall|r: int| 0 <= r < rows.len() implies (#[trigger] spec_render_row(indent, rows[r], widths, aligns)).len() == total by {
        assert forall|c: int| 0 <= c < n implies cell_len(rows[r], c) <= #[trigger] widths[c] by {
            lemma_col_width_covers(rows, c, r);
        }
        lemma_row_cols_len(rows[r], widths, aligns, n);
    }
    assert(spec_render_row(indent, Seq::empty(), widths, aligns).len() == total) by {
        lemma_row_cols_len(Seq::empty(), widths, aligns, n);
    }
    assert(spec_render_separator(indent, widths, aligns).len() == total) by {
        assert forall|c: int| 0 <= c < n implies #[trigger] widths[c] >= 3 by {
            lemma_col_width_covers(rows, c, 0);
        }
        lemma_sep_cols_len(widths, aligns, n);
    }
    let lines = spec_format_group(group).unwrap();
    assert(rows[0] == header);
    assert forall|i: int| 0 <= i < lines.len() implies (#[trigger] lines[i]).len() == total by {
        if i >= 2 && body.len() > 0 {
            assert(rows[i - 1] == body[i - 2]);
        }
    }
}

/// A column's width is at least three and covers the column's cell in
/// every row.
proof fn lemma_col_width_covers(rows: Seq<Seq<Seq<char>>>, c: int, r: int)
    requires
        0 <= r < rows.len(),
    ensures
        col_width(rows, c) >= cell_len(rows[r], c),
        col_width(rows, c) >= 3,
    decreases rows.len(),
{
    lemma_col_width_min(rows, c);
    if r < rows.len() - 1 {
        lemma_col_width_covers(rows.drop_last(), c, r);
        assert(rows.drop_last()[r] == rows[r]);
    }
}

proof fn lemma_col_width_min(rows: Seq<Seq<Seq<char>>>, c: int)
    ensures
        col_width(rows, c) >= 3,
    decreases rows.len(),
{
    if rows.len() > 0 {
        lemma_col_width_min(rows.drop_last(), c);
    }
}

/// Columns whose cells fit their widths render to the widths' total.
proof fn lemma_row_cols_len(cells: Seq<Seq<char>>, widths: Seq<nat>, aligns: Seq<Align>, k: int)
    requires
        k <= widths.len(),
        forall|c: int| 0 <= c < k ==> cell_len(cells, c) <= #[trigger] widths[c],
    ensures
        row_cols(cells, widths, aligns, k).len() == cols_total(widths, k),
    decreases k,
{
    if k > 0 {
        lemma_row_cols_len(cells, widths, aligns, k - 1);
        let content = cell_or_empty(cells, k - 1);
        assert(cell_len(cells, k - 1) <= widths[k - 1]);
        assert(spec_pad(content, widths[k - 1], aligns[k - 1]).len() == widths[k - 1]);
    }
}

/// Separator columns at least three wide render to the widths' total.
proof fn lemma_sep_cols_len(widths: Seq<nat>, aligns: Seq<Align>, k: int)
    requires
        k <= widths.len(),
        forall|c: int| 0 <= c < k ==> #[trigger] widths[c] >= 3,
    ensures
        sep_cols(widths, aligns, k).len() == cols_total(widths, k),
    decreases k,
{
    if k > 0 {
        lemma_sep_cols_len(widths, aligns, k - 1);
        assert(widths[k - 1] >= 3);
        assert(spec_separator_cell(widths[k - 1], aligns[k - 1]).len() == widths[k - 1]);
    }
}

/// Splitting on line breaks yields at least one line.
pub proof fn lemma_lines_of_nonempty(s: Seq<char>)
    ensures
        lines_of(s).len() >= 1,
{
    lemma_split_from_len(s, 0, Seq::empty(), Seq::empty());
}

proof fn lemma_split_from_len(s: Seq<char>, i: int, cur: Seq<char>, acc: Seq<Seq<char>>)
    ensures
        split_from(s, i, cur, acc).len() >= acc.len() + 1,
    decreases s.len() - i,
{
    if !(i < 0 || i >= s.len()) {
        if s[i] == '\n' {
            lemma_split_from_len(s, i + 1, Seq::empty(), acc.push(cur));
        } else {
            lemma_split_from_len(s, i + 1, cur.push(s[i]), acc);
        }
    }
}

/// The rows of a group of table lines, each split into its cells.
pub open spec fn group_rows(group: Seq<Seq<char>>) -> Seq<Seq<Seq<char>>> {
    Seq::new(group.len(), |i: int| spec_parse_row(group[i]))
}

/// The body rows of a group: those after the header, the separator row
/// left out.
pub open spec fn group_body(group: Seq<Seq<char>>) -> Seq<Seq<Seq<char>>> {
    let parsed = group_rows(group);
    body_upto(parsed, first_sep_from(parsed, 1), parsed.len() as int)
}

/// The number of columns of a group: the most cells in any of its rows
/// (the separator row's included).
pub open spec fn group_columns(group: Seq<Seq<char>>) -> nat {
    let parsed = group_rows(group);
    let sep = first_sep_from(parsed, 1);
    let sep_cells: nat = match sep {
        Some(k) => parsed[k].len(),
        None => 0,
    };
    let m = max_cells(seq![parsed[0]] + group_body(group));
    if sep_cells > m {
        sep_cells
    } else {
        m
    }
}

/// A character a separator row is written with.
pub open spec fn separator_char(c: char) -> bool {
    c == ' ' || c == '-' || c == ':' || c == '|'
}

proof fn lemma_separator_cell_chars(w: nat, a: Align)
    ensures
        forall|k: int|
            0 <= k < spec_separator_cell(w, a).len() ==> #[trigger] spec_separator_cell(w, a)[k]
                == '-' || spec_separator_cell(w, a)[k] == ':',
{
}

proof fn lemma_sep_cols_chars(widths: Seq<nat>, aligns: Seq<Align>, k: int)
    requires
        k <= widths.len(),
        k <= aligns.len(),
    ensures
        forall|j: int|
            0 <= j < sep_cols(widths, aligns, k).len() ==> separator_char(
                #[trigger] sep_cols(widths, aligns, k)[j],
            ),
    decreases k,
{
    if k > 0 {
        lemma_sep_cols_chars(widths, aligns, k - 1);
        lemma_separator_cell_chars(widths[k - 1], aligns[k - 1]);
        let prev = sep_cols(widths, aligns, k - 1);
        let cell = spec_separator_cell(widths[k - 1], aligns[k - 1]);
        let all = sep_cols(widths, aligns, k);
        assert(all == prev + seq![' '] + cell + seq![' ', '|']);
        assert forall|j: int| 0 <= j < all.len() implies separator_char(#[trigger] all[j]) by {
            if j < prev.len() {
                assert(all[j] == prev[j]);
            } else if j == prev.len() {
            } else if j < prev.len() + 1 + cell.len() {
                assert(all[j] == cell[j - prev.len() - 1]);
            }
        }
    }
}

/// Columns end with the closing pipe of the last column.
proof fn lemma_cols_end_with_pipe(cells: Seq<Seq<char>>, widths: Seq<nat>, aligns: Seq<Align>, k: int)
    requires
        k >= 1,
    ensures
        row_cols(cells, widths, aligns, k).len() >= 1,
        row_cols(cells, widths, aligns, k).last() == '|',
        sep_cols(widths, aligns, k).len() >= 1,
        sep_cols(widths, aligns, k).last() == '|',
{
}

/// The shape of a formatted table: the header, the separator and one line
/// per body row (an empty row when there is none); every line starts with
/// the first line's indentation and a `|` and ends with `|`; the separator
/// line is written only with spaces, dashes, colons and pipes after its
/// indentation; and all lines have the same number of characters. A group
/// is left alone exactly when it has no cells, or it is a single line of a
/// single cell without a separator.
pub proof fn lemma_formatted_table_shape(group: Seq<Seq<char>>)
    requires
        group.len() > 0,
    ensures
        match spec_format_group(group) {
            Some(lines) => {
                let indent = spec_leading_ws(group[0]);
                &&& lines.len() == 2 + if group_body(group).len() == 0 {
                    1
                } else {
                    group_body(group).len()
                }
                &&& forall|i: int|
                    0 <= i < lines.len() ==> (#[trigger] lines[i]).len() == lines[0].len()
                        && lines[i].len() > indent.len() + 1 && lines[i].take(indent.len() + 1int)
                        == indent + seq!['|'] && lines[i].last() == '|'
                &&& forall|k: int|
                    indent.len() <= k < lines[1].len() ==> separator_char(#[trigger] lines[1][k])
                &&& spec_is_separator_row(spec_parse_row(lines[1]))
            },
            None => true,
        },
        spec_format_group(group) is None <==> (group_columns(group) == 0 || !(first_sep_from(
            group_rows(group),
            1,
        ) is Some || group_columns(group) >= 2 || group.len() >= 2)),
{
    lemma_formatted_table_aligned(group);
    let parsed = Seq::new(group.len(), |i: int| spec_parse_row(group[i]));
    assert(parsed == group_rows(group));
    let indent = spec_leading_ws(group[0]);
    let sep = first_sep_from(parsed, 1);
    let header = parsed[0];
    let body = body_upto(parsed, sep, parsed.len() as int);
    let sep_cells: nat = match sep {
        Some(k) => parsed[k].len(),
        None => 0,
    };
    let m = max_cells(seq![header] + body);
    let max_cols: nat = if sep_cells > m {
        sep_cells
    } else {
        m
    };
    let qualifies = sep is Some || max_cols >= 2 || group.len() >= 2;
    if max_cols == 0 || !qualifies {
        return;
    }
    let rows = seq![header] + body;
    let widths = Seq::new(max_cols, |c: int| col_width(rows, c));
    let aligns = spec_aligns(parsed, sep, max_cols);
    let n = max_cols as int;
    let lines = spec_format_group(group).unwrap();
    assert(aligns.len() == max_cols);
    lemma_sep_cols_chars(widths, aligns, n);
    assert forall|r: Seq<Seq<char>>| true implies {
        let l = #[trigger] spec_render_row(indent, r, widths, aligns);
        l.len() > indent.len() + 1 && l.take(indent.len() + 1int) == indent + seq!['|'] && l.last()
            == '|'
    } by {
        lemma_cols_end_with_pipe(r, widths, aligns, n);
        let l = spec_render_row(indent, r, widths, aligns);
        assert(l.take(indent.len() + 1int) =~= indent + seq!['|']);
    }
    let sl = spec_render_separator(indent, widths, aligns);
    lemma_cols_end_with_pipe(header, widths, aligns, n);
    assert(sl.take(indent.len() + 1int) =~= indent + seq!['|']);
    assert forall|k: int| indent.len() <= k < sl.len() implies separator_char(#[trigger] sl[k]) by {
        if k > indent.len() {
            assert(sl[k] == sep_cols(widths, aligns, n)[k - indent.len() - 1]);
        }
    }
    assert(lines[1] == sl);
    lemma_indent_blank(group[0]);
    lemma_separator_line_parses(indent, widths, aligns);
    assert forall|i: int| 0 <= i < lines.len() implies (#[trigger] lines[i]).len() > indent.len() + 1
        && lines[i].take(indent.len() + 1int) == indent + seq!['|'] && lines[i].last() == '|' by {
        if i == 0 {
            assert(lines[0] == spec_render_row(indent, header, widths, aligns));
        } else if i == 1 {
        } else if body.len() == 0 {
            assert(lines[i] == spec_render_row(indent, Seq::empty(), widths, aligns));
        } else {
            assert(lines[i] == spec_render_row(indent, body[i - 2], widths, aligns));
        }
    }
}

/// `s` holds no `|`.
pub open spec fn no_pipe(s: Seq<char>) -> bool {
    forall|k: int| 0 <= k < s.len() ==> s[k] != '|'
}

proof fn lemma_no_pipe_count(s: Seq<char>, i: int, escaped: bool)
    requires
        no_pipe(s),
    ensures
        pipes_from(s, i, escaped) == 0,
    decreases s.len() - i,
{
    if 0 <= i < s.len() {
        lemma_no_pipe_count(s, i + 1, false);
        lemma_no_pipe_count(s, i + 1, true);
    }
}

proof fn lemma_no_pipe_trim(s: Seq<char>)
    requires
        no_pipe(s),
    ensures
        no_pipe(trim_start(s)),
        no_pipe(trim(s)),
    decreases s.len(),
{
    if s.len() > 0 && is_ws(s[0]) {
        let d = s.drop_first();
        assert forall|k: int| 0 <= k < d.len() implies d[k] != '|' by {
            assert(d[k] == s[k + 1]);
        }
        lemma_no_pipe_trim(d);
    }
    lemma_no_pipe_trim_end(trim_start(s));
}

proof fn lemma_no_pipe_trim_end(s: Seq<char>)
    requires
        no_pipe(s),
    ensures
        no_pipe(trim_end(s)),
    decreases s.len(),
{
    if s.len() > 0 && is_ws(s.last()) {
        let d = s.drop_last();
        assert forall|k: int| 0 <= k < d.len() implies d[k] != '|' by {
            assert(d[k] == s[k]);
        }
        lemma_no_pipe_trim_end(d);
    }
}

proof fn lemma_split_no_pipe(s: Seq<char>, i: int, cur: Seq<char>, acc: Seq<Seq<char>>)
    requires
        no_pipe(s),
        no_pipe(cur),
        forall|k: int| 0 <= k < acc.len() ==> no_pipe(#[trigger] acc[k]),
    ensures
        forall|k: int|
            0 <= k < split_from(s, i, cur, acc).len() ==> no_pipe(
                #[trigger] split_from(s, i, cur, acc)[k],
            ),
    decreases s.len() - i,
{
    if i < 0 || i >= s.len() {
        let r = acc.push(cur);
        assert forall|k: int| 0 <= k < r.len() implies no_pipe(#[trigger] r[k]) by {
            if k < acc.len() {
                assert(r[k] == acc[k]);
            } else {
                assert(r[k] == cur);
            }
        }
        assert(split_from(s, i, cur, acc) == r);
    } else if s[i] == '\n' {
        let a2 = acc.push(cur);
        assert forall|k: int| 0 <= k < a2.len() implies no_pipe(#[trigger] a2[k]) by {
            if k < acc.len() {
                assert(a2[k] == acc[k]);
            } else {
                assert(a2[k] == cur);
            }
        }
        lemma_split_no_pipe(s, i + 1, Seq::empty(), a2);
        assert(split_from(s, i, cur, acc) == split_from(s, i + 1, Seq::empty(), a2));
    } else {
        let c2 = cur.push(s[i]);
        assert forall|k: int| 0 <= k < c2.len() implies c2[k] != '|' by {
            if k < cur.len() {
                assert(c2[k] == cur[k]);
            } else {
                assert(c2[k] == s[i]);
            }
        }
        lemma_split_no_pipe(s, i + 1, c2, acc);
        assert(split_from(s, i, cur, acc) == split_from(s, i + 1, c2, acc));
    }
}

/// A text without any `|` and without carriage returns is left unchanged
/// by table formatting: none of its lines is a table row.
pub proof fn lemma_no_pipes_unchanged(source: Seq<char>)
    requires
        no_pipe(source),
        forall|i: int| 0 <= i < source.len() ==> #[trigger] source[i] != '\r',
    ensures
        spec_format_tables(source) == source,
{
    lemma_split_no_pipe(source, 0, Seq::empty(), Seq::empty());
    let pieces = split_from(source, 0, Seq::empty(), Seq::empty());
    let lines = lines_of(source);
    assert forall|k: int| 0 <= k < lines.len() implies !spec_is_table_row(#[trigger] lines[k]) by {
        let p = pieces[k];
        assert(no_pipe(p));
        let l = strip_cr(p);
        assert(no_pipe(l)) by {
            assert forall|j: int| 0 <= j < l.len() implies l[j] != '|' by {
                assert(l[j] == p[j]);
            }
        }
        assert(lines[k] == l);
        lemma_no_pipe_trim(l);
        lemma_no_pipe_count(trim(l), 0, false);
    }
    lemma_no_tables_unchanged(source);
}

proof fn lemma_indent_blank(s: Seq<char>)
    ensures
        forall|k: int|
            0 <= k < spec_leading_ws(s).len() ==> (#[trigger] spec_leading_ws(s)[k] == ' '
                || spec_leading_ws(s)[k] == '\t'),
    decreases s.len(),
{
    lemma_indent_len_bound(s);
    if s.len() > 0 && (s[0] == ' ' || s[0] == '\t') {
        lemma_indent_blank(s.drop_first());
        lemma_indent_len_bound(s.drop_first());
        let t = spec_leading_ws(s);
        let u = spec_leading_ws(s.drop_first());
        assert forall|k: int| 0 <= k < t.len() implies (#[trigger] t[k] == ' ' || t[k] == '\t') by {
            if k > 0 {
                assert(t[k] == u[k - 1]);
            }
        }
    }
}

/// Leading spaces and tabs come off before a non-blank start.
proof fn lemma_trim_start_indent(ind: Seq<char>, x: Seq<char>)
    requires
        forall|k: int| 0 <= k < ind.len() ==> (#[trigger] ind[k] == ' ' || ind[k] == '\t'),
        x.len() > 0,
        !is_ws(x[0]),
    ensures
        trim_start(ind + x) == x,
    decreases ind.len(),
{
    if ind.len() == 0 {
        assert(ind + x =~= x);
    } else {
        let d = ind.drop_first();
        assert forall|k: int| 0 <= k < d.len() implies (#[trigger] d[k] == ' ' || d[k] == '\t') by {
            assert(d[k] == ind[k + 1]);
        }
        lemma_trim_start_indent(d, x);
        assert((ind + x).drop_first() =~= d + x);
        assert(is_ws((ind + x)[0]));
    }
}

/// A separator cell is written with dashes and colons only, and at least
/// three of them.
proof fn lemma_separator_cell_shape(w: nat, a: Align)
    ensures
        spec_separator_cell(w, a).len() >= 3,
        forall|k: int|
            0 <= k < spec_separator_cell(w, a).len() ==> (#[trigger] spec_separator_cell(w, a)[k]
                == '-' || spec_separator_cell(w, a)[k] == ':'),
        spec_is_separator_cell(spec_separator_cell(w, a)),
{
    let c = spec_separator_cell(w, a);
    let wl: nat = if w < 3 {
        3
    } else {
        w
    };
    assert(!is_ws(c[0]) && !is_ws(c.last()));
    assert(trim_start(c) == c);
    assert(trim_end(c) == c);
    match a {
        Align::Plain => {
            assert(strip_lead(c, ':') == c);
            assert(strip_trail(c, ':') == c);
        },
        Align::Left => {
            let r = rep('-', (wl - 1) as nat);
            assert(c.drop_first() =~= r);
            assert(strip_lead(r, ':') == r);
            assert(strip_lead(c, ':') == r);
            assert(strip_trail(r, ':') == r);
        },
        Align::Right => {
            let r = rep('-', (wl - 1) as nat);
            assert(strip_lead(c, ':') == c);
            assert(c.drop_last() =~= r);
            assert(strip_trail(r, ':') == r);
            assert(strip_trail(c, ':') == r);
        },
        Align::Center => {
            let r = rep('-', (wl - 2) as nat);
            let m = c.drop_first();
            assert(m =~= r + seq![':']);
            assert(strip_lead(m, ':') == m);
            assert(strip_lead(c, ':') == m);
            assert(m.drop_last() =~= r);
            assert(strip_trail(r, ':') == r);
            assert(strip_trail(m, ':') == r);
        },
    }
}

proof fn lemma_sep_cols_prefix(widths: Seq<nat>, aligns: Seq<Align>, j: int, n: int)
    requires
        0 <= j <= n,
    ensures
        sep_cols(widths, aligns, n).len() >= sep_cols(widths, aligns, j).len(),
        sep_cols(widths, aligns, n).subrange(0, sep_cols(widths, aligns, j).len() as int)
            == sep_cols(widths, aligns, j),
    decreases n - j,
{
    if j < n {
        lemma_sep_cols_prefix(widths, aligns, j, n - 1);
        let a = sep_cols(widths, aligns, n - 1);
        let b = sep_cols(widths, aligns, n);
        let lj = sep_cols(widths, aligns, j).len() as int;
        assert(b.subrange(0, lj) =~= a.subrange(0, lj));
    } else {
        let b = sep_cols(widths, aligns, n);
        assert(b.subrange(0, b.len() as int) =~= b);
    }
}

/// Reading a cell's characters up to the next `|`.
proof fn lemma_cells_scan(t: Seq<char>, i: int, e: int, cur: Seq<char>, acc: Seq<Seq<char>>)
    requires
        0 <= i <= e < t.len(),
        t[e] == '|',
        forall|k: int| i <= k < e ==> #[trigger] t[k] != '|' && t[k] != '\\',
    ensures
        cells_from(t, i, cur, false, acc) == cells_from(
            t,
            e + 1,
            Seq::empty(),
            false,
            acc.push(trim(cur + t.subrange(i, e))),
        ),
    decreases e - i,
{
    if i == e {
        assert(cur + t.subrange(i, e) =~= cur);
    } else {
        assert(t[i] != '|' && t[i] != '\\');
        lemma_cells_scan(t, i + 1, e, cur.push(t[i]), acc);
        assert(cur.push(t[i]) + t.subrange(i + 1, e) =~= cur + t.subrange(i, e));
    }
}

/// The cells read from the separator columns from column `j` on.
proof fn lemma_sep_cells_from(widths: Seq<nat>, aligns: Seq<Align>, n: int, j: int, acc: Seq<Seq<char>>)
    requires
        0 <= j <= n,
        n <= widths.len(),
        n <= aligns.len(),
    ensures
        ({
            let t = seq!['|'] + sep_cols(widths, aligns, n);
            cells_from(t, 1 + sep_cols(widths, aligns, j).len() as int, Seq::empty(), false, acc)
                == acc + Seq::new(
                (n - j) as nat,
                |c: int| spec_separator_cell(widths[j + c], aligns[j + c]),
            ) + seq![Seq::<char>::empty()]
        }),
    decreases n - j,
{
    let t = seq!['|'] + sep_cols(widths, aligns, n);
    let cs = |c: int| spec_separator_cell(widths[j + c], aligns[j + c]);
    if j == n {
        assert(1 + sep_cols(widths, aligns, j).len() as int >= t.len());
        assert(trim(Seq::<char>::empty()) =~= Seq::<char>::empty());
        assert(acc + Seq::new(0, cs) + seq![Seq::<char>::empty()] =~= acc.push(Seq::<char>::empty()));
    } else {
        let pj = sep_cols(widths, aligns, j);
        let pj1 = sep_cols(widths, aligns, j + 1);
        let cell = spec_separator_cell(widths[j], aligns[j]);
        lemma_sep_cols_prefix(widths, aligns, j + 1, n);
        lemma_separator_cell_shape(widths[j], aligns[j]);
        assert(pj1 == pj + seq![' '] + cell + seq![' ', '|']);
        let a: int = 1 + pj.len() as int;
        let e: int = pj1.len() as int;
        let all = sep_cols(widths, aligns, n);
        assert forall|k: int| a <= k < e implies #[trigger] t[k] != '|' && t[k] != '\\' by {
            assert(t[k] == all[k - 1]);
            assert(all[k - 1] == all.subrange(0, pj1.len() as int)[k - 1]);
            assert(pj1[k - 1] == (seq![' '] + cell + seq![' ', '|'])[k - 1 - pj.len()]);
        }
        assert(t[e] == all.subrange(0, pj1.len() as int)[e - 1]);
        assert(t[e] == '|');
        lemma_cells_scan(t, a, e, Seq::empty(), acc);
        let mid = t.subrange(a, e);
        assert(mid =~= seq![' '] + cell + seq![' ']) by {
            assert forall|k: int| 0 <= k < mid.len() implies mid[k] == (seq![' '] + cell + seq![
                ' ',
            ])[k] by {
                assert(mid[k] == t[a + k]);
                assert(t[a + k] == all[a + k - 1]);
                assert(all[a + k - 1] == all.subrange(0, pj1.len() as int)[a + k - 1]);
            }
        }
        assert(Seq::<char>::empty() + mid =~= mid);
        assert(trim_start(mid) == cell + seq![' ']) by {
            assert(mid[0] == ' ');
            assert(mid.drop_first() =~= cell + seq![' ']);
            assert((cell + seq![' '])[0] == cell[0]);
            assert(cell[0] == '-' || cell[0] == ':');
            assert(trim_start(cell + seq![' ']) == cell + seq![' ']);
        }
        assert(trim_end(cell + seq![' ']) == cell) by {
            assert((cell + seq![' ']).drop_last() =~= cell);
        }
        lemma_sep_cells_from(widths, aligns, n, j + 1, acc.push(cell));
        let cs1 = |c: int| spec_separator_cell(widths[j + 1 + c], aligns[j + 1 + c]);
        assert(acc.push(cell) + Seq::new((n - j - 1) as nat, cs1) =~= acc + Seq::new(
            (n - j) as nat,
            cs,
        ));
    }
}

/// The rendered separator line reads back as a separator row.
proof fn lemma_separator_line_parses(indent: Seq<char>, widths: Seq<nat>, aligns: Seq<Align>)
    requires
        forall|k: int| 0 <= k < indent.len() ==> (#[trigger] indent[k] == ' ' || indent[k] == '\t'),
        widths.len() >= 1,
        aligns.len() == widths.len(),
    ensures
        spec_is_separator_row(spec_parse_row(spec_render_separator(indent, widths, aligns))),
{
    let n = widths.len() as int;
    let all = sep_cols(widths, aligns, n);
    let t = seq!['|'] + all;
    let line = spec_render_separator(indent, widths, aligns);
    assert(line == indent + t);
    lemma_cols_end_with_pipe(Seq::empty(), widths, aligns, n);
    lemma_trim_start_indent(indent, t);
    assert(t.last() == '|');
    assert(trim(line) == t);
    // The leading `|`.
    assert(t[0] == '|');
    assert(cells_from(t, 0, Seq::empty(), false, Seq::empty()) == cells_from(
        t,
        1,
        Seq::empty(),
        false,
        seq![trim(Seq::<char>::empty())],
    ));
    assert(trim(Seq::<char>::empty()) =~= Seq::<char>::empty());
    assert(sep_cols(widths, aligns, 0) =~= Seq::<char>::empty());
    lemma_sep_cells_from(widths, aligns, n, 0, seq![Seq::<char>::empty()]);
    let cs = Seq::new(n as nat, |c: int| spec_separator_cell(widths[0 + c], aligns[0 + c]));
    let cells = seq![Seq::<char>::empty()] + cs + seq![Seq::<char>::empty()];
    let row = spec_parse_row(line);
    assert(cells.drop_first() =~= cs + seq![Seq::<char>::empty()]);
    assert((cs + seq![Seq::<char>::empty()]).drop_last() =~= cs);
    assert(row == cs);
    assert forall|i: int| 0 <= i < cs.len() implies spec_is_separator_cell(#[trigger] cs[i]) by {
        lemma_separator_cell_shape(widths[i], aligns[i]);
    }
}

} // verus!
