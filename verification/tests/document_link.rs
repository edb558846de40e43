use sanemark::analysis::analyze;
use sanemark::features::document_link::{link_plans, LinkPlan};
use sanemark::features::hover::{hover_target, hover_text};

fn links_for(text: &str) -> Vec<LinkPlan> {
    let analysis = analyze(text, 1);
    link_plans(&analysis, Some("/w"), Some("/w"))
}

#[test]
fn external_url_is_linked() {
    let links = links_for("see [g](https://google.com)");
    assert_eq!(links.len(), 1);
    match &links[0] {
        LinkPlan::External { url, .. } => assert_eq!(url, "https://google.com"),
        _ => panic!("expected an external link"),
    }
}

#[test]
fn pure_anchor_is_skipped() {
    assert!(links_for("[x](#section)").is_empty());
}

#[test]
fn local_links_resolve_against_document_and_root() {
    let text = "[a](./a.md) and ![b](/img/b.png)\n\n[d]: docs/d.md\n";
    let links = links_for(text);
    let paths: Vec<&str> = links
        .iter()
        .map(|l| match l {
            LinkPlan::Local { path, .. } => path.as_str(),
            LinkPlan::External { url, .. } => url.as_str(),
        })
        .collect();
    assert_eq!(paths, vec!["/w/a.md", "/w/img/b.png", "/w/docs/d.md"]);
    let analysis = analyze("[a](./a.md)", 1);
    assert!(link_plans(&analysis, None, None).is_empty());
}

#[test]
fn hover_shows_resolved_path_and_status() {
    let text = "see [a](./a.md) and [g](https://g.org)";
    let analysis = analyze(text, 1);
    let t = hover_target(&analysis, text.find("a.md").unwrap(), Some("/w"), Some("/w")).unwrap();
    assert!(t.local);
    assert_eq!(t.resolved.as_deref(), Some("/w/a.md"));
    assert_eq!(hover_text(&t, true), "`./a.md`\n\n/w/a.md — exists");
    assert_eq!(hover_text(&t, false), "`./a.md`\n\n/w/a.md — **missing**");
    let g = hover_target(&analysis, text.find("g.org").unwrap(), Some("/w"), Some("/w")).unwrap();
    assert!(!g.local);
    assert_eq!(hover_text(&g, false), "[https://g.org](https://g.org)");
    assert!(hover_target(&analysis, 0, Some("/w"), Some("/w")).is_none());
    let nobase = hover_target(&analysis, text.find("a.md").unwrap(), None, None).unwrap();
    assert_eq!(hover_text(&nobase, false), "`./a.md`");
}
