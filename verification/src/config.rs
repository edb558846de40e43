//! User-facing configuration: every section with its defaults, so that an
//! empty settings object still gives useful behaviour.

use vstd::prelude::*;

verus! {

/// Which structural elements produce folding ranges.
#[derive(Debug, Clone)]
pub struct FoldingConfig {
    pub headings: bool,
    pub lists: bool,
    pub code_blocks: bool,
    pub block_quotes: bool,
    pub tables: bool,
    pub front_matter: bool,
}

impl Default for FoldingConfig {
    fn default() -> (r: FoldingConfig)
        ensures
            r.headings && r.lists && r.code_blocks && r.block_quotes && r.tables && r.front_matter,
    {
        FoldingConfig {
            headings: true,
            lists: true,
            code_blocks: true,
            block_quotes: true,
            tables: true,
            front_matter: true,
        }
    }
}

/// Presentation style for bare path completions.
#[derive(Debug, Clone, Copy, PartialEq, Eq, Structural)]
pub enum PathStyle {
    /// Relative outside Git work trees; [`PathStyle::Hybrid`] inside them.
    Auto,
    /// Always relative to the current document.
    Relative,
    /// Always from the workspace root.
    Absolute,
    /// Siblings and children relative, paths above the document from the root.
    Hybrid,
}

/// Path-completion behaviour.
#[derive(Debug, Clone)]
pub struct CompletionConfig {
    /// Master switch for link and image path completion.
    pub paths: bool,
    /// How bare completion results are presented.
    pub path_style: PathStyle,
    /// Extensions sorted to the top of the list, highest priority first.
    pub prioritize_extensions: Vec<String>,
    /// Offer dotfiles and hidden directories.
    pub show_hidden_files: bool,
    /// Respect `.gitignore`, `.ignore` and git excludes when walking.
    pub gitignore: bool,
    /// Also offer files in nested directories, fuzzy-matched.
    pub deep_paths: bool,
    /// How deep to recurse for `deep_paths`.
    pub deep_paths_max_depth: usize,
    /// Upper bound on the completion items returned.
    pub max_items: usize,
}

impl Default for CompletionConfig {
    fn default() -> (r: CompletionConfig)
        ensures
            r.paths,
            r.path_style == PathStyle::Auto,
            r.prioritize_extensions@.len() == 2,
            r.prioritize_extensions@[0]@ == ".md"@,
            r.prioritize_extensions@[1]@ == ".markdown"@,
            !r.show_hidden_files,
            r.gitignore,
            r.deep_paths,
            r.deep_paths_max_depth == 8,
            r.max_items == 256,
    {
        let mut exts: Vec<String> = Vec::new();
        exts.push(".md".to_owned());
        exts.push(".markdown".to_owned());
        CompletionConfig {
            paths: true,
            path_style: PathStyle::Auto,
            prioritize_extensions: exts,
            show_hidden_files: false,
            gitignore: true,
            deep_paths: true,
            deep_paths_max_depth: 8,
            max_items: 256,
        }
    }
}

/// Diagnostic severity, mirroring the LSP levels.
#[derive(Debug, Clone, Copy, PartialEq, Eq, Structural)]
pub enum Severity {
    Error,
    Warning,
    Information,
    Hint,
}

/// Broken-link diagnostics.
#[derive(Debug, Clone)]
pub struct DiagnosticsConfig {
    /// Warn about links and images to local files that do not exist.
    pub broken_links: bool,
    /// Severity of the "file does not exist" diagnostic.
    pub severity: Severity,
    /// Also validate image destinations.
    pub check_images: bool,
    /// Glob patterns whose matching targets are never reported.
    pub ignore: Vec<String>,
}

impl Default for DiagnosticsConfig {
    fn default() -> (r: DiagnosticsConfig)
        ensures
            r.broken_links,
            r.severity == Severity::Warning,
            r.check_images,
            r.ignore@.len() == 0,
    {
        DiagnosticsConfig {
            broken_links: true,
            severity: Severity::Warning,
            check_images: true,
            ignore: Vec::new(),
        }
    }
}

/// Formatter behaviour.
#[derive(Debug, Clone)]
pub struct FormattingConfig {
    /// Rewrite inline links to reference links and consolidate the
    /// definitions at the bottom of the file.
    pub move_references_to_bottom: bool,
    /// Heading text of the generated references section.
    pub references_heading: String,
    /// Normalise GFM tables.
    pub format_tables: bool,
    /// Normalise list markers, numbering and gaps.
    pub format_lists: bool,
}

impl Default for FormattingConfig {
    fn default() -> (r: FormattingConfig)
        ensures
            r.move_references_to_bottom,
            r.references_heading@ == "References"@,
            r.format_tables,
            r.format_lists,
    {
        FormattingConfig {
            move_references_to_bottom: true,
            references_heading: "References".to_owned(),
            format_tables: true,
            format_lists: true,
        }
    }
}

/// Quick-insert command completions (dates, times, file links).
#[derive(Debug, Clone)]
pub struct SnippetsConfig {
    /// Master switch for the quick-command menu.
    pub enabled: bool,
    /// Characters that open the menu at a word boundary; only the first
    /// character of each entry is used.
    pub triggers: Vec<String>,
    /// Offer workspace files, inserted as inline links.
    pub file_links: bool,
    /// `chrono` format of the time snippet.
    pub time_format: String,
    /// `chrono` format of the date snippets.
    pub date_format: String,
    /// `chrono` format of the date-and-time snippet.
    pub date_time_format: String,
}

impl Default for SnippetsConfig {
    fn default() -> (r: SnippetsConfig)
        ensures
            r.enabled,
            r.triggers@.len() == 2,
            r.triggers@[0]@ == "/"@,
            r.triggers@[1]@ == "@"@,
            r.file_links,
            r.time_format@ == "%H:%M"@,
            r.date_format@ == "%Y-%m-%d"@,
            r.date_time_format@ == "%Y-%m-%d %H:%M"@,
    {
        let mut triggers: Vec<String> = Vec::new();
        triggers.push("/".to_owned());
        triggers.push("@".to_owned());
        SnippetsConfig {
            enabled: true,
            triggers,
            file_links: true,
            time_format: "%H:%M".to_owned(),
            date_format: "%Y-%m-%d".to_owned(),
            date_time_format: "%Y-%m-%d %H:%M".to_owned(),
        }
    }
}

/// Daily-note commands.
#[derive(Debug, Clone)]
pub struct JournalConfig {
    /// Directory of the daily notes (relative to the workspace root unless
    /// absolute).
    pub directory: String,
    /// Template copied into a new note; relative paths resolve against the
    /// workspace root.
    pub template: Option<String>,
    /// `chrono` format of a note's file name.
    pub filename_format: String,
}

impl Default for JournalConfig {
    fn default() -> (r: JournalConfig)
        ensures
            r.directory@ == "journal"@,
            r.template matches Some(t) && t@ == "journal/template.md"@,
            r.filename_format@ == "%Y-%m-%d.md"@,
    {
        JournalConfig {
            directory: "journal".to_owned(),
            template: Some("journal/template.md".to_owned()),
            filename_format: "%Y-%m-%d.md".to_owned(),
        }
    }
}

/// Root configuration object.
#[derive(Debug, Clone)]
pub struct Config {
    pub folding: FoldingConfig,
    pub completion: CompletionConfig,
    pub diagnostics: DiagnosticsConfig,
    pub formatting: FormattingConfig,
    pub snippets: SnippetsConfig,
    pub journal: JournalConfig,
    /// Parse GitHub Flavored Markdown (tables, task lists, autolinks, ...).
    pub gfm: bool,
}

impl Default for Config {
    fn default() -> (r: Config)
        ensures
            r.gfm,
            r.folding.headings,
            r.completion.path_style == PathStyle::Auto,
            r.diagnostics.severity == Severity::Warning,
            r.formatting.move_references_to_bottom,
            r.formatting.references_heading@ == "References"@,
            r.formatting.format_tables,
            r.formatting.format_lists,
            r.snippets.enabled,
            r.journal.directory@ == "journal"@,
    {
        Config {
            folding: FoldingConfig::default(),
            completion: CompletionConfig::default(),
            diagnostics: DiagnosticsConfig::default(),
            formatting: FormattingConfig::default(),
            snippets: SnippetsConfig::default(),
            journal: JournalConfig::default(),
            gfm: true,
        }
    }
}

/// The comment written above a line of the pretty-printed default
/// configuration: one per section, and one for the path style.
pub open spec fn section_comment(l: Seq<char>) -> Option<Seq<char>> {
    if l == "  \"folding\": {"@ {
        Some("  // Structural ranges exposed to editor folding."@)
    } else if l == "  \"completion\": {"@ {
        Some("  // Link/image path completion and workspace search."@)
    } else if l == "    \"pathStyle\": \"auto\","@ {
        Some(
            "    // auto: hybrid in Git work trees, relative elsewhere.\n    // Also accepts relative, absolute, or hybrid."@,
        )
    } else if l == "  \"diagnostics\": {"@ {
        Some("  // Validation of local link and image targets."@)
    } else if l == "  \"formatting\": {"@ {
        Some("  // Changes made by document formatting."@)
    } else if l == "  \"snippets\": {"@ {
        Some("  // Quick insert menu opened by / or @."@)
    } else if l == "  \"journal\": {"@ {
        Some("  // Daily-note location and naming."@)
    } else {
        None
    }
}

/// The lines `ls`, each after its comment when it has one, each ending in a
/// newline.
pub open spec fn commented_lines(ls: Seq<Seq<char>>) -> Seq<char>
    decreases ls.len(),
{
    if ls.len() == 0 {
        Seq::empty()
    } else {
        let l = ls.last();
        commented_lines(ls.drop_last()) + match section_comment(l) {
            Some(c) => c.push('\n'),
            None => Seq::empty(),
        } + l.push('\n')
    }
}

/// The lines of `s` as `str::lines` gives them: split on `\n`, each without
/// a trailing `\r`, with no empty last line after a final `\n`.
pub open spec fn text_lines(s: Seq<char>) -> Seq<Seq<char>> {
    let ls = crate::features::tables::lines_of(s);
    if s.len() == 0 || s.last() == '\n' {
        ls.drop_last()
    } else {
        ls
    }
}

/// The pretty-printed configuration `json` with a comment above each
/// section (and above the path style), without its final newline.
pub open spec fn spec_commented_config(json: Seq<char>) -> Seq<char> {
    let out = commented_lines(text_lines(json));
    if out.len() > 0 {
        out.drop_last()
    } else {
        out
    }
}

/// The comment for line `l` (see [`section_comment`]).
fn comment_for(l: &[char]) -> (r: Option<Vec<char>>)
    ensures
        match section_comment(l@) {
            Some(c) => r matches Some(v) && v@ == c,
            None => r is None,
        },
{
    if crate::text::eq_chars(l, crate::text::chars_of("  \"folding\": {").as_slice()) {
        Some(crate::text::chars_of("  // Structural ranges exposed to editor folding."))
    } else if crate::text::eq_chars(l, crate::text::chars_of("  \"completion\": {").as_slice()) {
        Some(crate::text::chars_of("  // Link/image path completion and workspace search."))
    } else if crate::text::eq_chars(l, crate::text::chars_of("    \"pathStyle\": \"auto\",").as_slice()) {
        Some(
            crate::text::chars_of(
                "    // auto: hybrid in Git work trees, relative elsewhere.\n    // Also accepts relative, absolute, or hybrid.",
            ),
        )
    } else if crate::text::eq_chars(l, crate::text::chars_of("  \"diagnostics\": {").as_slice()) {
        Some(crate::text::chars_of("  // Validation of local link and image targets."))
    } else if crate::text::eq_chars(l, crate::text::chars_of("  \"formatting\": {").as_slice()) {
        Some(crate::text::chars_of("  // Changes made by document formatting."))
    } else if crate::text::eq_chars(l, crate::text::chars_of("  \"snippets\": {").as_slice()) {
        Some(crate::text::chars_of("  // Quick insert menu opened by / or @."))
    } else if crate::text::eq_chars(l, crate::text::chars_of("  \"journal\": {").as_slice()) {
        Some(crate::text::chars_of("  // Daily-note location and naming."))
    } else {
        None
    }
}

/// The pretty-printed default configuration `json` made into the commented
/// file `sanemark config` prints (see [`spec_commented_config`]).
pub fn commented_config(json: &str) -> (r: String)
    ensures
        r@ == spec_commented_config(json@),
{
    let s = crate::text::chars_of(json);
    let all = crate::features::tables::split_lines(s.as_slice());
    let ghost ls = text_lines(json@);
    proof {
        crate::features::tables::lemma_lines_of_nonempty(s@);
    }
    let n = if s.len() == 0 || s[s.len() - 1] == '\n' {
        all.len() - 1
    } else {
        all.len()
    };
    assert(ls.len() == n);
    let mut out: Vec<char> = Vec::new();
    let mut k: usize = 0;
    while k < n
        invariant
            k <= n <= all@.len(),
            ls.len() == n,
            forall|i: int| 0 <= i < n ==> ls[i] == #[trigger] all@[i]@,
            out@ == commented_lines(ls.take(k as int)),
        decreases n - k,
    {
        let l = all[k].as_slice();
        assert(ls.take(k + 1).drop_last() =~= ls.take(k as int));
        assert(ls.take(k + 1).last() == l@);
        match comment_for(l) {
            Some(c) => {
                crate::text::extend(&mut out, c.as_slice());
                out.push('\n');
            },
            None => {},
        }
        crate::text::extend(&mut out, l);
        out.push('\n');
        k += 1;
        assert(out@ =~= commented_lines(ls.take(k as int)));
    }
    assert(ls.take(n as int) =~= ls);
    if out.len() > 0 {
        out.pop();
    }
    crate::text::string_of(out.as_slice())
}

} // verus!
