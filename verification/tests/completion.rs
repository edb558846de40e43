use ropey::Rope;
use sanemark::config::{CompletionConfig, PathStyle};
use sanemark::encoding::{Position, PositionEncoding};
use sanemark::features::completion::{
    completion_request, configured_mode, detect_context, ext_bucket, present, query_shows_hidden,
    rank_entries, rel_path, Mode, Scope, WalkEntry,
};

fn request(text: &str, cursor: u32, cfg: &CompletionConfig, known: bool, in_git: bool) -> Option<(Mode, String, Position, Scope, usize)> {
    completion_request(
        &Rope::from_str(text),
        Position { line: 0, character: cursor },
        PositionEncoding::Utf16,
        cfg,
        known,
        known,
        in_git,
    )
    .map(|r| (r.mode, r.query, r.replace_start, r.scope, r.max_depth))
}

#[test]
fn no_completion_for_urls() {
    let cfg = CompletionConfig::default();
    assert!(request("see [x](https://", 16, &cfg, false, false).is_none());
    assert!(request("see [x](https://", 16, &cfg, true, true).is_none());
}

#[test]
fn no_completion_outside_link() {
    let cfg = CompletionConfig::default();
    assert!(request("just some text ", 15, &cfg, false, false).is_none());
    assert!(request("just some text ", 15, &cfg, true, true).is_none());
}

#[test]
fn request_replaces_the_destination_typed_so_far() {
    let cfg = CompletionConfig::default();
    let (mode, query, start, scope, depth) = request("see [x](./al", 12, &cfg, true, false).unwrap();
    assert_eq!(mode, Mode::Relative);
    assert_eq!(query, "./al");
    assert_eq!(start, Position { line: 0, character: 8 });
    assert_eq!(scope, Scope::Root);
    assert_eq!(depth, cfg.deep_paths_max_depth.max(1));
}

#[test]
fn bare_queries_take_the_configured_mode() {
    let cfg = CompletionConfig::default();
    assert_eq!(request("[a](a", 5, &cfg, true, true).unwrap().0, Mode::Bare);
    assert_eq!(request("[a](a", 5, &cfg, true, false).unwrap().0, Mode::Relative);
    let abs = CompletionConfig { path_style: PathStyle::Absolute, ..CompletionConfig::default() };
    assert_eq!(request("[a](a", 5, &abs, true, false).unwrap().0, Mode::Absolute);
    // An explicit prefix wins over the configured style.
    assert_eq!(request("[a](./a", 7, &abs, true, false).unwrap().0, Mode::Relative);
}

#[test]
fn shallow_completion_walks_the_document_directory_once() {
    let cfg = CompletionConfig { deep_paths: false, ..CompletionConfig::default() };
    let r = request("[a](./", 6, &cfg, true, false).unwrap();
    assert_eq!(r.3, Scope::DocDir);
    assert_eq!(r.4, 1);
    let r = request("[a](/", 5, &cfg, true, false).unwrap();
    assert_eq!(r.3, Scope::Root);
    let off = CompletionConfig { paths: false, ..CompletionConfig::default() };
    assert!(request("[a](./", 6, &off, true, false).is_none());
}

#[test]
fn context_detection() {
    let c = detect_context("see [x](<./doc").unwrap();
    assert_eq!(c.mode, Mode::Relative);
    assert_eq!(c.query, "./doc");
    assert_eq!(detect_context("![i](/img").unwrap().mode, Mode::Absolute);
    assert_eq!(detect_context("[x](notes").unwrap().mode, Mode::Bare);
    assert!(detect_context("[x](#top").is_none());
    assert!(detect_context("[x](a b").is_none());
    assert!(detect_context("[x](done) and").is_none());
    assert!(detect_context("mailto:x").is_none());
}

#[test]
fn relative_paths_between_directories() {
    assert_eq!(rel_path("/w/test", "/w/a.md").as_deref(), Some("../a.md"));
    assert_eq!(rel_path("/w", "/w/test/k.md").as_deref(), Some("test/k.md"));
    assert_eq!(rel_path("/w", "/w").as_deref(), Some("."));
}

#[test]
fn presenting_entries() {
    assert_eq!(
        present("/w/sub", true, Some("/w"), "/w", Mode::Relative),
        Some(("./sub/".to_string(), true))
    );
    assert_eq!(
        present("/w/a.md", false, Some("/w/test"), "/w", Mode::Bare),
        Some(("/a.md".to_string(), false))
    );
    assert_eq!(
        present("/w/test/b.md", false, Some("/w/test"), "/w", Mode::Bare),
        Some(("./b.md".to_string(), true))
    );
    assert_eq!(
        present("/w/a.md", false, Some("/w/test"), "/w", Mode::Relative),
        Some(("../a.md".to_string(), false))
    );
}

#[test]
fn modes_and_buckets() {
    assert_eq!(configured_mode(PathStyle::Hybrid, false), Mode::Bare);
    assert_eq!(configured_mode(PathStyle::Relative, true), Mode::Relative);
    assert!(query_shows_hidden("./sub/.git"));
    assert!(!query_shows_hidden("./sub/git"));
    let cfg = CompletionConfig::default();
    assert_eq!(ext_bucket("NOTES.MD", false, &cfg), 0);
    assert_eq!(ext_bucket("notes.txt", false, &cfg), 1);
    assert_eq!(ext_bucket("docs", true, &cfg), 2);
}

fn entry(path: &str, is_dir: bool, depth: usize, name: &str) -> WalkEntry {
    WalkEntry { path: path.to_string(), is_dir, depth, name: name.to_string() }
}

#[test]
fn relative_prefix_lists_every_entry_relatively() {
    let entries = vec![
        entry("/w", true, 0, "w"),
        entry("/w/index.md", false, 1, "index.md"),
        entry("/w/notes.md", false, 1, "notes.md"),
        entry("/w/other.txt", false, 1, "other.txt"),
        entry("/w/sub", true, 1, "sub"),
    ];
    let cfg = CompletionConfig::default();
    let c = rank_entries(&entries, Some("/w"), "/w", Mode::Relative, "./", &cfg);
    let mut labels: Vec<String> = c.iter().map(|c| c.display.clone()).collect();
    labels.sort();
    assert_eq!(labels, vec!["./index.md", "./notes.md", "./other.txt", "./sub/"]);
}

#[test]
fn fuzzy_query_filters_and_ranks() {
    let entries = vec![
        entry("/w/alpha.md", false, 1, "alpha.md"),
        entry("/w/beta.md", false, 1, "beta.md"),
    ];
    let cfg = CompletionConfig::default();
    let c = rank_entries(&entries, Some("/w"), "/w", Mode::Relative, "./al", &cfg);
    let labels: Vec<String> = c.iter().map(|c| c.display.clone()).collect();
    assert_eq!(labels, vec!["./alpha.md"]);
}

#[test]
fn ranking_prefers_prioritised_extensions_then_shorter_paths() {
    let entries = vec![
        entry("/w/zz.txt", false, 1, "zz.txt"),
        entry("/w/long-name.md", false, 1, "long-name.md"),
        entry("/w/b.md", false, 1, "b.md"),
        entry("/w/dir", true, 1, "dir"),
    ];
    let cfg = CompletionConfig::default();
    let c = rank_entries(&entries, Some("/w"), "/w", Mode::Relative, "", &cfg);
    let labels: Vec<String> = c.iter().map(|c| c.display.clone()).collect();
    assert_eq!(labels, vec!["./b.md", "./long-name.md", "./zz.txt", "./dir/"]);
    let few = CompletionConfig { max_items: 2, ..CompletionConfig::default() };
    assert_eq!(rank_entries(&entries, Some("/w"), "/w", Mode::Relative, "", &few).len(), 2);
}
