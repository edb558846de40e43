use sanemark::json::{looks_like_ours, merge_values, resolve_layers, unwrap_wrapper, Json};

fn obj(fields: Vec<(&str, Json)>) -> Json {
    Json::Object(fields.into_iter().map(|(k, v)| (k.to_string(), v)).collect())
}

fn s(t: &str) -> Json {
    Json::Str(t.to_string())
}

fn get<'a>(j: &'a Json, path: &[&str]) -> Option<&'a Json> {
    let mut cur = j;
    for key in path {
        match cur {
            Json::Object(fs) => cur = &fs.iter().find(|(k, _)| k == key)?.1,
            _ => return None,
        }
    }
    Some(cur)
}

fn as_bool(j: Option<&Json>) -> Option<bool> {
    match j {
        Some(Json::Bool(b)) => Some(*b),
        _ => None,
    }
}

fn as_str(j: Option<&Json>) -> Option<&str> {
    match j {
        Some(Json::Str(t)) => Some(t.as_str()),
        _ => None,
    }
}

#[test]
fn project_file_overrides_client_but_keeps_other_keys() {
    let client = obj(vec![
        ("formatting", obj(vec![("moveReferencesToBottom", Json::Bool(false)), ("referencesHeading", s("Links"))])),
        ("gfm", Json::Bool(true)),
    ]);
    let project = obj(vec![
        ("journal", obj(vec![("template", s("journal/template.md"))])),
        ("formatting", obj(vec![("moveReferencesToBottom", Json::Bool(true))])),
    ]);
    let merged = resolve_layers(Some(&client), Some(&project));
    // Project wins on the key it sets...
    assert_eq!(as_bool(get(&merged, &["formatting", "moveReferencesToBottom"])), Some(true));
    // ...but the client's sibling key is preserved (deep merge, not replace).
    assert_eq!(as_str(get(&merged, &["formatting", "referencesHeading"])), Some("Links"));
    // ...and project-only keys apply.
    assert_eq!(as_str(get(&merged, &["journal", "template"])), Some("journal/template.md"));
    assert_eq!(as_bool(get(&merged, &["gfm"])), Some(true));
}

#[test]
fn resolve_tolerates_missing_layers_and_wrappers() {
    assert!(matches!(resolve_layers(None, None), Json::Null));
    let wrapped = obj(vec![("sanemark", obj(vec![("gfm", Json::Bool(false))]))]);
    let merged = resolve_layers(Some(&wrapped), None);
    assert_eq!(as_bool(get(&merged, &["gfm"])), Some(false));
}

#[test]
fn null_leaves_the_base_and_scalars_replace() {
    let base = obj(vec![("a", Json::Number("1".to_string())), ("b", Json::Array(vec![s("x")]))]);
    let over = obj(vec![("a", Json::Null), ("b", Json::Array(vec![])), ("c", s("new"))]);
    let m = merge_values(base, over);
    match get(&m, &["a"]) {
        Some(Json::Number(n)) => assert_eq!(n, "1"),
        _ => panic!("a kept"),
    }
    assert!(matches!(get(&m, &["b"]), Some(Json::Array(v)) if v.is_empty()));
    assert_eq!(as_str(get(&m, &["c"])), Some("new"));
    assert!(matches!(merge_values(s("x"), Json::Null), Json::Str(_)));
    assert!(matches!(merge_values(obj(vec![]), s("y")), Json::Str(_)));
}

#[test]
fn recognising_our_settings() {
    assert!(!looks_like_ours(&Json::Null));
    assert!(!looks_like_ours(&obj(vec![])));
    assert!(!looks_like_ours(&obj(vec![("rust-analyzer", obj(vec![]))])));
    assert!(!looks_like_ours(&obj(vec![("sanemark", Json::Null)])));
    assert!(looks_like_ours(&obj(vec![("markdownLsp", obj(vec![]))])));
    assert!(looks_like_ours(&obj(vec![("journal", obj(vec![]))])));
    let wrapped = obj(vec![("markdown", obj(vec![("gfm", Json::Bool(false))]))]);
    assert!(matches!(unwrap_wrapper(&wrapped), Json::Object(f) if f.len() == 1));
    assert!(matches!(unwrap_wrapper(&s("plain")), Json::Str(_)));
}

#[test]
fn jsonc_parser_accepts_comments_and_trailing_commas() {
    let value = sanemark::json::parse_jsonc_value(
        r#"{
            // Prefer portable links in this workspace.
            "completion": {
                "pathStyle": "relative",
            },
        }"#,
    )
    .unwrap();
    assert_eq!(as_str(get(&value, &["completion", "pathStyle"])), Some("relative"));
    let merged = resolve_layers(None, Some(&value));
    assert_eq!(as_str(get(&merged, &["completion", "pathStyle"])), Some("relative"));
}

#[test]
fn jsonc_errors_are_reported() {
    assert!(sanemark::json::parse_jsonc_value("{ \"a\": }").is_err());
    assert!(matches!(
        sanemark::json::parse_jsonc_value("[1, 2.5, \"x\", null, true]"),
        Ok(Json::Array(v)) if v.len() == 5
    ));
}
