//! Command-line interface: what an invocation asks for.
//!
//! ```text
//! sanemark format [--write|--check] [--move-references] [--no-tables] [--no-lists] [PATHS...]
//! sanemark inline [--references-heading NAME] [--stdin] [PATHS...]
//! sanemark lint   [--root DIR] [--no-images] PATHS...
//! sanemark config | readme
//! ```
//!
//! The arguments are parsed here into an [`Invocation`]; running it (reading
//! files, printing, walking directories) is left to the binary.

use vstd::prelude::*;
use crate::encoding::{byte_to_position, position_of_char, PositionEncoding};
use crate::rope::{rope_from_str, rope_text};
use crate::features::diagnostics::LinkCheck;
use crate::offsets::char_floor;

verus! {

/// A single lint finding, in editor-friendly 1-based coordinates.
#[derive(Debug, Clone)]
pub struct LintIssue {
    pub line: usize,
    pub column: usize,
    pub message: String,
}

/// The options of the `format`, `inline` and `lint` subcommands (each reads
/// the ones that concern it).
#[derive(Debug, Clone)]
pub struct CliOptions {
    /// `-w`, `--write`: rewrite files in place.
    pub write: bool,
    /// `--check`: fail when a file is not formatted.
    pub check: bool,
    /// `--stdin`: read from standard input.
    pub stdin: bool,
    /// Respect `.gitignore` and `.ignore` (off with `--no-ignore`).
    pub gitignore: bool,
    /// `--hidden`: include hidden files and directories.
    pub hidden: bool,
    /// `-r`, `--move-references`: consolidate reference links.
    pub move_references: bool,
    /// Format tables (off with `--no-tables`).
    pub tables: bool,
    /// Normalise lists (off with `--no-lists`).
    pub lists: bool,
    /// `--references-heading NAME`.
    pub heading: String,
    /// `--root DIR`.
    pub root: Option<String>,
    /// Check images (off with `--no-images`).
    pub images: bool,
    /// The paths given.
    pub files: Vec<String>,
}

/// What an invocation asks for.
pub enum Invocation {
    Format(CliOptions),
    Inline(CliOptions),
    Lint(CliOptions),
    /// Print the example configuration.
    Config,
    /// Print the README.
    Readme,
    /// Print the usage text and exit with `code`.
    Help { code: i32 },
    /// Print `message` and exit with status 2.
    Error { message: String },
}

/// The subcommands that take options.
#[derive(Clone, Copy, PartialEq, Eq, Structural)]
pub enum Subcommand {
    Format,
    Inline,
    Lint,
}

pub struct CliOptionsV {
    pub write: bool,
    pub check: bool,
    pub stdin: bool,
    pub gitignore: bool,
    pub hidden: bool,
    pub move_references: bool,
    pub tables: bool,
    pub lists: bool,
    pub heading: Seq<char>,
    pub root: Option<Seq<char>>,
    pub images: bool,
    pub files: Seq<Seq<char>>,
}

pub enum InvocationV {
    Format(CliOptionsV),
    Inline(CliOptionsV),
    Lint(CliOptionsV),
    Config,
    Readme,
    Help { code: i32 },
    Error { message: Seq<char> },
}

/// The views of a vector of strings.
pub open spec fn args_view(v: Seq<String>) -> Seq<Seq<char>> {
    Seq::new(v.len(), |i: int| v[i]@)
}

impl View for CliOptions {
    type V = CliOptionsV;

    open spec fn view(&self) -> CliOptionsV {
        CliOptionsV {
            write: self.write,
            check: self.check,
            stdin: self.stdin,
            gitignore: self.gitignore,
            hidden: self.hidden,
            move_references: self.move_references,
            tables: self.tables,
            lists: self.lists,
            heading: self.heading@,
            root: match self.root {
                Some(r) => Some(r@),
                None => None,
            },
            images: self.images,
            files: args_view(self.files@),
        }
    }
}

impl View for Invocation {
    type V = InvocationV;

    open spec fn view(&self) -> InvocationV {
        match self {
            Invocation::Format(o) => InvocationV::Format(o@),
            Invocation::Inline(o) => InvocationV::Inline(o@),
            Invocation::Lint(o) => InvocationV::Lint(o@),
            Invocation::Config => InvocationV::Config,
            Invocation::Readme => InvocationV::Readme,
            Invocation::Help { code } => InvocationV::Help { code: *code },
            Invocation::Error { message } => InvocationV::Error { message: message@ },
        }
    }
}

/// The options before any flag: tables and lists formatted, ignore files
/// respected, images checked, references left in place, heading
/// `References`.
pub open spec fn default_options() -> CliOptionsV {
    CliOptionsV {
        write: false,
        check: false,
        stdin: false,
        gitignore: true,
        hidden: false,
        move_references: false,
        tables: true,
        lists: true,
        heading: "References"@,
        root: None,
        images: true,
        files: Seq::empty(),
    }
}

/// The name of a subcommand.
pub open spec fn sub_name(sub: Subcommand) -> Seq<char> {
    match sub {
        Subcommand::Format => "format"@,
        Subcommand::Inline => "inline"@,
        Subcommand::Lint => "lint"@,
    }
}

/// `a` is one of the flags `x` or `y`.
pub open spec fn is_flag(a: Seq<char>, x: Seq<char>, y: Seq<char>) -> bool {
    a == x || a == y
}

/// The outcome of reading the arguments from `i` on: the final options, or
/// the invocation that ends parsing early (help or an error).
pub enum ParseStep {
    Done(CliOptionsV),
    Stop(InvocationV),
}

/// The flags an argument can be.
#[derive(Clone, Copy, PartialEq, Eq, Structural)]
pub enum Flag {
    Write,
    Check,
    Stdin,
    NoIgnore,
    Hidden,
    MoveReferences,
    NoTables,
    NoLists,
    NoImages,
    ReferencesHeading,
    Root,
    Help,
    /// Anything else.
    Other,
}

/// Which flag `a` is.
pub open spec fn flag_of(a: Seq<char>) -> Flag {
    if is_flag(a, "-w"@, "--write"@) {
        Flag::Write
    } else if a == "--check"@ {
        Flag::Check
    } else if a == "--stdin"@ {
        Flag::Stdin
    } else if a == "--no-ignore"@ {
        Flag::NoIgnore
    } else if a == "--hidden"@ {
        Flag::Hidden
    } else if is_flag(a, "-r"@, "--move-references"@) {
        Flag::MoveReferences
    } else if a == "--no-tables"@ {
        Flag::NoTables
    } else if a == "--no-lists"@ {
        Flag::NoLists
    } else if a == "--no-images"@ {
        Flag::NoImages
    } else if a == "--references-heading"@ {
        Flag::ReferencesHeading
    } else if a == "--root"@ {
        Flag::Root
    } else if is_flag(a, "-h"@, "--help"@) {
        Flag::Help
    } else {
        Flag::Other
    }
}

/// Whether subcommand `sub` takes flag `f`.
pub open spec fn takes(sub: Subcommand, f: Flag) -> bool {
    match f {
        Flag::Write | Flag::Check | Flag::MoveReferences | Flag::NoTables | Flag::NoLists => sub
            == Subcommand::Format,
        Flag::Stdin | Flag::ReferencesHeading => sub != Subcommand::Lint,
        Flag::NoImages | Flag::Root => sub == Subcommand::Lint,
        Flag::NoIgnore | Flag::Hidden | Flag::Help => true,
        Flag::Other => false,
    }
}

/// One step of reading the arguments: the position of the next argument and
/// the options so far, or the invocation that ends parsing early.
pub enum Step {
    Next(int, CliOptionsV),
    Stop(InvocationV),
}

/// Reads argument `i` of subcommand `sub` with options `o` so far. A flag the
/// subcommand takes updates the options (`-h`/`--help` stops with help,
/// status 0; a flag needing a value stops with an error when none follows);
/// any other argument starting with `-` (but `-` itself) is an unknown
/// option, and the rest are paths.
pub open spec fn step_of(sub: Subcommand, args: Seq<Seq<char>>, i: int, o: CliOptionsV) -> Step {
    let a = args[i];
    let f = flag_of(a);
    if takes(sub, f) {
        match f {
            Flag::Write => Step::Next(i + 1, CliOptionsV { write: true, ..o }),
            Flag::Check => Step::Next(i + 1, CliOptionsV { check: true, ..o }),
            Flag::Stdin => Step::Next(i + 1, CliOptionsV { stdin: true, ..o }),
            Flag::NoIgnore => Step::Next(i + 1, CliOptionsV { gitignore: false, ..o }),
            Flag::Hidden => Step::Next(i + 1, CliOptionsV { hidden: true, ..o }),
            Flag::MoveReferences => Step::Next(i + 1, CliOptionsV { move_references: true, ..o }),
            Flag::NoTables => Step::Next(i + 1, CliOptionsV { tables: false, ..o }),
            Flag::NoLists => Step::Next(i + 1, CliOptionsV { lists: false, ..o }),
            Flag::NoImages => Step::Next(i + 1, CliOptionsV { images: false, ..o }),
            Flag::ReferencesHeading => if i + 1 < args.len() {
                Step::Next(i + 2, CliOptionsV { heading: args[i + 1], ..o })
            } else {
                Step::Stop(
                    InvocationV::Error { message: "--references-heading requires a value"@ },
                )
            },
            Flag::Root => if i + 1 < args.len() {
                Step::Next(i + 2, CliOptionsV { root: Some(args[i + 1]), ..o })
            } else {
                Step::Stop(InvocationV::Error { message: "--root requires a value"@ })
            },
            _ => Step::Stop(InvocationV::Help { code: 0 }),
        }
    } else if a.len() > 0 && a[0] == '-' && a != "-"@ {
        Step::Stop(
            InvocationV::Error { message: sub_name(sub) + ": unknown option '"@ + a + "'"@ },
        )
    } else {
        Step::Next(i + 1, CliOptionsV { files: o.files.push(a), ..o })
    }
}

/// Reads the arguments of subcommand `sub` from position `i` on (see
/// [`step_of`]).
pub open spec fn parse_from(sub: Subcommand, args: Seq<Seq<char>>, i: int, o: CliOptionsV) -> ParseStep
    decreases args.len() - i,
{
    if i < 0 || i >= args.len() {
        ParseStep::Done(o)
    } else {
        match step_of(sub, args, i, o) {
            Step::Next(j, o2) => if i < j <= args.len() {
                parse_from(sub, args, j, o2)
            } else {
                ParseStep::Done(o2)
            },
            Step::Stop(inv) => ParseStep::Stop(inv),
        }
    }
}

/// The invocation of the program with arguments `args` (`args[0]` being the
/// subcommand). `lint` and `check` are the same subcommand, which needs at
/// least one path; an unknown or missing subcommand asks for help with
/// status 2.
pub open spec fn invocation_of(args: Seq<Seq<char>>) -> InvocationV {
    if args.len() == 0 {
        InvocationV::Help { code: 2 }
    } else {
        let a = args[0];
        let sub = if a == "format"@ {
            Some(Subcommand::Format)
        } else if a == "inline"@ {
            Some(Subcommand::Inline)
        } else if a == "lint"@ || a == "check"@ {
            Some(Subcommand::Lint)
        } else {
            None
        };
        match sub {
            Some(s) => match parse_from(s, args, 1, default_options()) {
                ParseStep::Stop(inv) => inv,
                ParseStep::Done(o) => match s {
                    Subcommand::Format => InvocationV::Format(o),
                    Subcommand::Inline => InvocationV::Inline(o),
                    Subcommand::Lint => if o.files.len() == 0 {
                        InvocationV::Error { message: "lint: no files given"@ }
                    } else {
                        InvocationV::Lint(o)
                    },
                },
            },
            None => if a == "config"@ {
                InvocationV::Config
            } else if a == "readme"@ {
                InvocationV::Readme
            } else {
                InvocationV::Help { code: 2 }
            },
        }
    }
}

/// Whether `s` is exactly `lit`.
fn is_lit(s: &String, lit: &str) -> (r: bool)
    ensures
        r == (s@ == lit@),
{
    let a = crate::text::chars_of(s.as_str());
    let b = crate::text::chars_of(lit);
    crate::text::eq_chars(a.as_slice(), b.as_slice())
}

/// A copy of `s`.
fn copy_string(s: &String) -> (r: String)
    ensures
        r@ == s@,
{
    let mut out = String::new();
    crate::text::extend_string(&mut out, s.as_str());
    out
}

/// Which flag `a` is (see [`flag_of`]).
fn classify(a: &String) -> (r: Flag)
    ensures
        r == flag_of(a@),
{
    if is_lit(a, "-w") || is_lit(a, "--write") {
        Flag::Write
    } else if is_lit(a, "--check") {
        Flag::Check
    } else if is_lit(a, "--stdin") {
        Flag::Stdin
    } else if is_lit(a, "--no-ignore") {
        Flag::NoIgnore
    } else if is_lit(a, "--hidden") {
        Flag::Hidden
    } else if is_lit(a, "-r") || is_lit(a, "--move-references") {
        Flag::MoveReferences
    } else if is_lit(a, "--no-tables") {
        Flag::NoTables
    } else if is_lit(a, "--no-lists") {
        Flag::NoLists
    } else if is_lit(a, "--no-images") {
        Flag::NoImages
    } else if is_lit(a, "--references-heading") {
        Flag::ReferencesHeading
    } else if is_lit(a, "--root") {
        Flag::Root
    } else if is_lit(a, "-h") || is_lit(a, "--help") {
        Flag::Help
    } else {
        Flag::Other
    }
}

/// Sets the option of a flag that takes no value.
fn set_switch(f: Flag, o: &mut CliOptions)
    requires
        f != Flag::ReferencesHeading && f != Flag::Root && f != Flag::Help && f != Flag::Other,
    ensures
        final(o)@ == (match f {
            Flag::Write => CliOptionsV { write: true, ..old(o)@ },
            Flag::Check => CliOptionsV { check: true, ..old(o)@ },
            Flag::Stdin => CliOptionsV { stdin: true, ..old(o)@ },
            Flag::NoIgnore => CliOptionsV { gitignore: false, ..old(o)@ },
            Flag::Hidden => CliOptionsV { hidden: true, ..old(o)@ },
            Flag::MoveReferences => CliOptionsV { move_references: true, ..old(o)@ },
            Flag::NoTables => CliOptionsV { tables: false, ..old(o)@ },
            Flag::NoLists => CliOptionsV { lists: false, ..old(o)@ },
            _ => CliOptionsV { images: false, ..old(o)@ },
        }),
{
    match f {
        Flag::Write => o.write = true,
        Flag::Check => o.check = true,
        Flag::Stdin => o.stdin = true,
        Flag::NoIgnore => o.gitignore = false,
        Flag::Hidden => o.hidden = true,
        Flag::MoveReferences => o.move_references = true,
        Flag::NoTables => o.tables = false,
        Flag::NoLists => o.lists = false,
        _ => o.images = false,
    }
}

/// An argument that is no flag of the subcommand: an unknown option, or a
/// path added to `o`.
fn other_arg(sub: Subcommand, a: &String, o: &mut CliOptions) -> (r: Option<Invocation>)
    ensures
        if a@.len() > 0 && a@[0] == '-' && a@ != "-"@ {
            r matches Some(x) && x@ == (InvocationV::Error {
                message: sub_name(sub) + ": unknown option '"@ + a@ + "'"@,
            }) && final(o)@ == old(o)@
        } else {
            r is None && final(o)@ == (CliOptionsV { files: old(o)@.files.push(a@), ..old(o)@ })
        },
{
    let ac = crate::text::chars_of(a.as_str());
    if ac.len() > 0 && ac[0] == '-' && !is_lit(a, "-") {
        let mut m = match sub {
            Subcommand::Format => "format".to_owned(),
            Subcommand::Inline => "inline".to_owned(),
            Subcommand::Lint => "lint".to_owned(),
        };
        crate::text::extend_string(&mut m, ": unknown option '");
        crate::text::extend_string(&mut m, a.as_str());
        crate::text::extend_string(&mut m, "'");
        return Some(Invocation::Error { message: m });
    }
    let ghost before = args_view(o.files@);
    o.files.push(copy_string(a));
    assert(args_view(o.files@) =~= before.push(a@));
    None
}

/// Reads argument `i` (see [`step_of`]), updating `o`; `Ok` holds the
/// position of the next argument.
fn read_arg(sub: Subcommand, args: &Vec<String>, i: usize, o: &mut CliOptions) -> (r: Result<
    usize,
    Invocation,
>)
    requires
        i < args@.len(),
    ensures
        match step_of(sub, args_view(args@), i as int, old(o)@) {
            Step::Next(j, o2) => r matches Ok(k) && k == j && final(o)@ == o2,
            Step::Stop(inv) => r matches Err(x) && x@ == inv,
        },
{
    let ghost av = args_view(args@);
    let n = args.len();
    let a = &args[i];
    assert(av[i as int] == a@);
    let f = classify(a);
    let applies = match f {
        Flag::Write | Flag::Check | Flag::MoveReferences | Flag::NoTables | Flag::NoLists => sub
            == Subcommand::Format,
        Flag::Stdin | Flag::ReferencesHeading => sub != Subcommand::Lint,
        Flag::NoImages | Flag::Root => sub == Subcommand::Lint,
        Flag::NoIgnore | Flag::Hidden | Flag::Help => true,
        Flag::Other => false,
    };
    assert(applies == takes(sub, f));
    if !applies {
        return match other_arg(sub, a, o) {
            Some(inv) => Err(inv),
            None => Ok(i + 1),
        };
    }
    match f {
        Flag::ReferencesHeading => {
            if i + 1 < n {
                assert(av[i + 1] == args@[i + 1]@);
                o.heading = copy_string(&args[i + 1]);
                Ok(i + 2)
            } else {
                Err(
                    Invocation::Error {
                        message: "--references-heading requires a value".to_owned(),
                    },
                )
            }
        },
        Flag::Root => {
            if i + 1 < n {
                assert(av[i + 1] == args@[i + 1]@);
                o.root = Some(copy_string(&args[i + 1]));
                Ok(i + 2)
            } else {
                Err(Invocation::Error { message: "--root requires a value".to_owned() })
            }
        },
        Flag::Help => Err(Invocation::Help { code: 0 }),
        _ => {
            set_switch(f, o);
            Ok(i + 1)
        },
    }
}

/// Reads the arguments after the subcommand (see [`parse_from`]).
fn parse_options(sub: Subcommand, args: &Vec<String>) -> (r: Result<CliOptions, Invocation>)
    requires
        args@.len() >= 1,
    ensures
        match parse_from(sub, args_view(args@), 1, default_options()) {
            ParseStep::Done(o) => r matches Ok(x) && x@ == o,
            ParseStep::Stop(inv) => r matches Err(x) && x@ == inv,
        },
{
    let ghost av = args_view(args@);
    let mut o = CliOptions {
        write: false,
        check: false,
        stdin: false,
        gitignore: true,
        hidden: false,
        move_references: false,
        tables: true,
        lists: true,
        heading: "References".to_owned(),
        root: None,
        images: true,
        files: Vec::new(),
    };
    assert(args_view(o.files@) =~= Seq::<Seq<char>>::empty());
    assert(o@ =~= default_options());
    let mut i: usize = 1;
    while i < args.len()
        invariant
            1 <= i <= args@.len(),
            av == args_view(args@),
            parse_from(sub, av, i as int, o@) == parse_from(sub, av, 1, default_options()),
        decreases args@.len() - i,
    {
        match read_arg(sub, args, i, &mut o) {
            Ok(k) => {
                i = k;
            },
            Err(inv) => {
                return Err(inv);
            },
        }
    }
    Ok(o)
}

/// Parses the program's arguments (see [`invocation_of`]).
pub fn parse_invocation(args: &Vec<String>) -> (r: Invocation)
    ensures
        r@ == invocation_of(args_view(args@)),
{
    if args.len() == 0 {
        return Invocation::Help { code: 2 };
    }
    let a = &args[0];
    let ghost av = args_view(args@);
    assert(av[0] == a@);
    let sub = if is_lit(a, "format") {
        Some(Subcommand::Format)
    } else if is_lit(a, "inline") {
        Some(Subcommand::Inline)
    } else if is_lit(a, "lint") || is_lit(a, "check") {
        Some(Subcommand::Lint)
    } else {
        None
    };
    match sub {
        Some(s) => match parse_options(s, args) {
            Err(inv) => inv,
            Ok(o) => match s {
                Subcommand::Format => Invocation::Format(o),
                Subcommand::Inline => Invocation::Inline(o),
                Subcommand::Lint => if o.files.len() == 0 {
                    Invocation::Error { message: "lint: no files given".to_owned() }
                } else {
                    Invocation::Lint(o)
                },
            },
        },
        None => if is_lit(a, "config") {
            Invocation::Config
        } else if is_lit(a, "readme") {
            Invocation::Readme
        } else {
            Invocation::Help { code: 2 }
        },
    }
}

/// What `format` does with one file.
#[derive(Debug, Clone, Copy, PartialEq, Eq, Structural)]
pub enum FormatAction {
    /// Report that the file would be reformatted (`--check`).
    Report,
    /// Write the formatted text back (`--write`).
    Rewrite,
    /// Print the formatted text.
    Print,
    /// Nothing to do.
    Nothing,
}

/// What `format` does with a file: with `--check`, report it when it
/// changed; with `--write`, rewrite it when it changed; otherwise print it.
pub open spec fn action_of(check: bool, write: bool, changed: bool) -> FormatAction {
    if check {
        if changed {
            FormatAction::Report
        } else {
            FormatAction::Nothing
        }
    } else if write {
        if changed {
            FormatAction::Rewrite
        } else {
            FormatAction::Nothing
        }
    } else {
        FormatAction::Print
    }
}

/// What `format` does with a file (see [`action_of`]).
pub fn format_action(check: bool, write: bool, changed: bool) -> (r: FormatAction)
    ensures
        r == action_of(check, write, changed),
{
    if check {
        if changed {
            FormatAction::Report
        } else {
            FormatAction::Nothing
        }
    } else if write {
        if changed {
            FormatAction::Rewrite
        } else {
            FormatAction::Nothing
        }
    } else {
        FormatAction::Print
    }
}

/// The exit status of `format`: 1 after a read or write error, or when
/// checking found a file to reformat; 0 otherwise.
pub fn format_status(had_error: bool, check: bool, changed: bool) -> (r: i32)
    ensures
        r == (if had_error || (check && changed) {
            1i32
        } else {
            0i32
        }),
{
    if had_error || (check && changed) {
        1
    } else {
        0
    }
}

/// The exit status of `lint`: 1 after a read error or when anything was
/// reported; 0 otherwise.
pub fn lint_status(had_error: bool, issues: usize) -> (r: i32)
    ensures
        r == (if had_error || issues > 0 {
            1i32
        } else {
            0i32
        }),
{
    if had_error || issues > 0 {
        1
    } else {
        0
    }
}

/// The lint findings for the destinations of `text` in `missing` (those
/// whose file does not exist), in their order: where each destination
/// starts, as a 1-based line and 1-based byte column, and its message.
pub fn lint_source(text: &str, missing: &Vec<LinkCheck>) -> (r: Vec<LintIssue>)
    ensures
        r@.len() == missing@.len(),
        forall|i: int|
            0 <= i < r@.len() ==> {
                let p = position_of_char(
                    text@,
                    char_floor(text@, missing@[i].start_byte as int) as int,
                    PositionEncoding::Utf8,
                );
                &&& (#[trigger] r@[i]).line == (p.0 as u32 as usize).wrapping_add(1)
                &&& r@[i].column == (p.1 as u32 as usize).wrapping_add(1)
                &&& r@[i].message@ == missing@[i].message@
            },
{
    let rope = rope_from_str(text);
    let mut out: Vec<LintIssue> = Vec::new();
    let mut i: usize = 0;
    while i < missing.len()
        invariant
            i <= missing@.len(),
            rope_text(rope) == text@,
            out@.len() == i,
            forall|k: int|
                0 <= k < i ==> {
                    let p = position_of_char(
                        text@,
                        char_floor(text@, missing@[k].start_byte as int) as int,
                        PositionEncoding::Utf8,
                    );
                    &&& (#[trigger] out@[k]).line == (p.0 as u32 as usize).wrapping_add(1)
                    &&& out@[k].column == (p.1 as u32 as usize).wrapping_add(1)
                    &&& out@[k].message@ == missing@[k].message@
                },
        decreases missing@.len() - i,
    {
        let pos = byte_to_position(&rope, missing[i].start_byte, PositionEncoding::Utf8);
        let mut message = String::new();
        crate::text::extend_string(&mut message, missing[i].message.as_str());
        out.push(
            LintIssue {
                line: (pos.line as usize).wrapping_add(1),
                column: (pos.character as usize).wrapping_add(1),
                message,
            },
        );
        i += 1;
    }
    out
}

/// The code of `c` with ASCII letters lowercased.
pub open spec fn ascii_lower(c: char) -> u32 {
    let u = c as u32;
    if 65 <= u <= 90 {
        (u + 32) as u32
    } else {
        u
    }
}

/// `a` and `b` are equal ignoring ASCII case.
pub open spec fn eq_ignore_ascii_case(a: Seq<char>, b: Seq<char>) -> bool {
    a.len() == b.len() && forall|i: int| 0 <= i < a.len() ==> ascii_lower(#[trigger] a[i]) == ascii_lower(b[i])
}

/// `path` names a Markdown file: its extension is `md` or `markdown`, in
/// any ASCII case.
pub open spec fn markdown_path(path: Seq<char>) -> bool {
    match crate::features::diagnostics::file_name_of(path) {
        Some(f) => match crate::features::diagnostics::extension_of(f) {
            Some(e) => eq_ignore_ascii_case(e, "md"@) || eq_ignore_ascii_case(e, "markdown"@),
            None => false,
        },
        None => false,
    }
}

fn lower_ascii(c: char) -> (r: u32)
    ensures
        r == ascii_lower(c),
{
    let u = c as u32;
    if 65 <= u && u <= 90 {
        u + 32
    } else {
        u
    }
}

fn same_ignoring_ascii_case(a: &[char], b: &[char]) -> (r: bool)
    ensures
        r == eq_ignore_ascii_case(a@, b@),
{
    if a.len() != b.len() {
        return false;
    }
    let mut i: usize = 0;
    while i < a.len()
        invariant
            i <= a@.len() == b@.len(),
            forall|j: int| 0 <= j < i ==> ascii_lower(#[trigger] a@[j]) == ascii_lower(b@[j]),
        decreases a@.len() - i,
    {
        if lower_ascii(a[i]) != lower_ascii(b[i]) {
            return false;
        }
        i += 1;
    }
    true
}

/// Whether `path` names a Markdown file (see [`markdown_path`]).
pub fn is_markdown(path: &str) -> (r: bool)
    ensures
        r == markdown_path(path@),
{
    let f = match crate::features::diagnostics::file_name(path) {
        Some(f) => f,
        None => return false,
    };
    let c = crate::text::chars_of(f.as_str());
    let found = crate::features::diagnostics::find_last_dot(c.as_slice());
    let k = match found {
        Some(k) => k,
        None => return false,
    };
    let n = c.len();
    assert(k < n);
    if k == 0 {
        return false;
    }
    let e = crate::text::slice_chars(c.as_slice(), k + 1, n);
    assert(e@ =~= c@.skip(k + 1));
    let md = crate::text::chars_of("md");
    let markdown = crate::text::chars_of("markdown");
    same_ignoring_ascii_case(e.as_slice(), md.as_slice()) || same_ignoring_ascii_case(
        e.as_slice(),
        markdown.as_slice(),
    )
}

/// Reading options from `i` on looks only at the arguments from `i` on.
proof fn lemma_parse_from_tail(sub: Subcommand, a1: Seq<Seq<char>>, a2: Seq<Seq<char>>, i: int, o: CliOptionsV)
    requires
        a1.len() == a2.len(),
        i >= 1,
        forall|k: int| 1 <= k < a1.len() ==> a1[k] == a2[k],
    ensures
        parse_from(sub, a1, i, o) == parse_from(sub, a2, i, o),
    decreases a1.len() - i,
{
    if 0 <= i < a1.len() {
        assert(step_of(sub, a1, i, o) == step_of(sub, a2, i, o));
        match step_of(sub, a1, i, o) {
            Step::Next(j, o2) => {
                if i < j <= a1.len() {
                    lemma_parse_from_tail(sub, a1, a2, j, o2);
                }
            },
            Step::Stop(_) => {},
        }
    }
}

/// `check` is another name for `lint`: both subcommands read the same
/// options and give the same invocation for every rest of the arguments.
pub proof fn lemma_check_is_lint(rest: Seq<Seq<char>>)
    ensures
        invocation_of(seq!["check"@] + rest) == invocation_of(seq!["lint"@] + rest),
{
    reveal_strlit("check");
    reveal_strlit("lint");
    reveal_strlit("format");
    reveal_strlit("inline");
    let a1 = seq!["check"@] + rest;
    let a2 = seq!["lint"@] + rest;
    assert(a1[0] == "check"@);
    assert(a2[0] == "lint"@);
    assert(a1[0] != "format"@ && a1[0] != "inline"@);
    assert(a2[0] != "format"@ && a2[0] != "inline"@);
    lemma_parse_from_tail(Subcommand::Lint, a1, a2, 1, default_options());
}

/// No arguments, or a first argument that names no subcommand, asks for
/// the help text with status 2.
pub proof fn lemma_unknown_subcommand_asks_for_help(args: Seq<Seq<char>>)
    requires
        args.len() == 0 || !(args[0] == "format"@ || args[0] == "inline"@ || args[0] == "lint"@
            || args[0] == "check"@ || args[0] == "config"@ || args[0] == "readme"@),
    ensures
        invocation_of(args) == (InvocationV::Help { code: 2 }),
{
}

} // verus!
