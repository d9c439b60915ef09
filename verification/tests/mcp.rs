use mdkb::index::LinkOutcome;
use mdkb::mcp::{
    build_request, linked_message, tool_names, tool_specs, ArgItem, ArgValue, ParamKind, ToolArgs,
};
use mdkb::request::Request;

const ID: &str = "01J5Z8Q4N2M3K7T9V6W0X1Y600";

fn args(entries: Vec<(&str, ArgValue)>) -> ToolArgs {
    ToolArgs {
        entries: entries.into_iter().map(|(k, v)| (k.to_string(), v)).collect(),
    }
}

fn s(v: &str) -> ArgValue {
    ArgValue::Str(v.to_string())
}

fn strs(items: &[&str]) -> ArgValue {
    ArgValue::Array(
        items
            .iter()
            .map(|t| ArgItem {
                text: Some(t.to_string()),
                key: None,
                value: None,
            })
            .collect(),
    )
}

fn kv(key: Option<&str>, value: Option<&str>) -> ArgItem {
    ArgItem {
        text: None,
        key: key.map(|k| k.to_string()),
        value: value.map(|v| v.to_string()),
    }
}

#[test]
fn every_tool_name_builds_a_request() {
    let a = args(vec![
        ("query", s("q")),
        ("id", s(ID)),
        ("source_id", s(ID)),
        ("target_id", s(ID)),
        ("parent_id", s(ID)),
        ("child_id", s(ID)),
        ("title", s("T")),
        ("body", s("b")),
        ("embed", ArgValue::Bool(true)),
        ("tags", strs(&["x"])),
        ("props", ArgValue::Array(vec![kv(Some("source"), Some("git"))])),
        ("keys", strs(&["source"])),
    ]);
    let names = tool_names();
    assert!(names.len() >= 14);
    for name in names {
        build_request(name, &a).unwrap_or_else(|e| panic!("tool {name} failed to build: {e}"));
    }
}

#[test]
fn tool_names_are_unique() {
    let names = tool_names();
    let mut seen = std::collections::HashSet::new();
    for n in &names {
        assert!(seen.insert(*n), "duplicate tool name: {n}");
    }
}

#[test]
fn set_props_maps_key_value_objects() {
    let a = args(vec![
        ("id", s(ID)),
        (
            "props",
            ArgValue::Array(vec![
                kv(Some("source"), Some("https://example.com/x")),
                kv(Some("verified"), Some("2026-06-01")),
            ]),
        ),
    ]);
    match build_request("set_props", &a).unwrap() {
        Request::SetProps { props, .. } => {
            assert_eq!(
                props,
                vec![
                    ("source".to_string(), "https://example.com/x".to_string()),
                    ("verified".to_string(), "2026-06-01".to_string()),
                ]
            );
        }
        _ => panic!("expected set_props"),
    }
}

#[test]
fn set_props_errors_on_malformed_item() {
    let a = args(vec![("id", s(ID)), ("props", ArgValue::Array(vec![kv(Some("source"), None)]))]);
    assert!(build_request("set_props", &a).is_err());
    let a = args(vec![("id", s(ID)), ("props", ArgValue::Array(vec![kv(None, Some("git"))]))]);
    assert!(build_request("set_props", &a).is_err());
}

#[test]
fn set_props_error_names_the_item() {
    let a = args(vec![
        ("id", s(ID)),
        (
            "props",
            ArgValue::Array(vec![kv(Some("a"), Some("1")), kv(Some("b"), None)]),
        ),
    ]);
    assert_eq!(
        build_request("set_props", &a).unwrap_err(),
        "props[1] is missing a string \"value\""
    );
}

#[test]
fn search_maps_all_filters() {
    let a = args(vec![
        ("query", s("x")),
        ("lang", s("kusto")),
        ("tags", strs(&["a", "b"])),
        ("limit", ArgValue::UInt(7)),
    ]);
    match build_request("search", &a).unwrap() {
        Request::Search { query } => {
            assert_eq!(query.text.as_deref(), Some("x"));
            assert_eq!(query.lang.as_deref(), Some("kusto"));
            assert_eq!(query.tags, vec!["a", "b"]);
            assert_eq!(query.limit, 7);
        }
        _ => panic!("expected search"),
    }
}

#[test]
fn search_parses_query_operators_and_merges_explicit_args() {
    let a = args(vec![
        ("query", s("deploy #k8s updated:before:2026-01-01")),
        ("tags", strs(&["ops", "K8S"])),
        ("created_after", s("2025-01-01")),
    ]);
    match build_request("search", &a).unwrap() {
        Request::Search { query } => {
            assert_eq!(query.text.as_deref(), Some("deploy"));
            assert!(query.tags.iter().any(|t| t == "k8s"), "operator tag kept");
            assert!(query.tags.iter().any(|t| t == "ops"), "explicit tag merged");
            assert_eq!(query.tags.len(), 2, "a tag equal ignoring case is not added twice");
            assert_eq!(query.updated_before.as_deref(), Some("2026-01-01T00:00:00Z"));
            assert_eq!(query.created_after.as_deref(), Some("2025-01-01T00:00:00Z"));
        }
        _ => panic!("expected search"),
    }
}

#[test]
fn search_rejects_bad_date_arg() {
    let a = args(vec![("query", s("x")), ("updated_before", s("last tuesday"))]);
    assert_eq!(
        build_request("search", &a).unwrap_err(),
        "invalid date for updated_before: last tuesday"
    );
}

#[test]
fn create_block_maps_title_and_body() {
    let a = args(vec![("title", s("T")), ("body", s("hi"))]);
    match build_request("create_block", &a).unwrap() {
        Request::CreateBlock { title, body } => {
            assert_eq!(title.as_deref(), Some("T"));
            assert_eq!(body, "hi");
        }
        _ => panic!("expected create_block"),
    }
}

#[test]
fn missing_required_arg_errors() {
    assert!(build_request("get_block", &ToolArgs::default()).is_err());
    assert!(build_request("create_block", &ToolArgs::default()).is_err());
    let a = args(vec![("id", s(ID))]);
    assert!(build_request("set_tags", &a).is_err());
}

#[test]
fn argument_errors_are_specific() {
    assert_eq!(
        build_request("get_block", &ToolArgs::default()).unwrap_err(),
        "missing required argument: id"
    );
    let a = args(vec![("id", s("not-an-id"))]);
    assert_eq!(
        build_request("delete_block", &a).unwrap_err(),
        "invalid block id for id: not-an-id"
    );
    let a = args(vec![("id", ArgValue::UInt(3))]);
    assert_eq!(
        build_request("backlinks", &a).unwrap_err(),
        "missing required argument: id"
    );
    assert_eq!(
        build_request("nope", &ToolArgs::default()).unwrap_err(),
        "unknown tool: nope"
    );
}

#[test]
fn set_tags_maps_id_and_tags() {
    let a = args(vec![("id", s(ID)), ("tags", strs(&["a", "b"]))]);
    match build_request("set_tags", &a).unwrap() {
        Request::SetTags { tags, .. } => assert_eq!(tags, vec!["a", "b"]),
        _ => panic!("expected set_tags"),
    }
    let a = args(vec![("id", s(ID)), ("tags", strs(&[]))]);
    match build_request("set_tags", &a).unwrap() {
        Request::SetTags { tags, .. } => assert!(tags.is_empty()),
        _ => panic!("expected set_tags"),
    }
}

#[test]
fn list_tags_maps() {
    assert!(matches!(
        build_request("list_tags", &ToolArgs::default()).unwrap(),
        Request::ListTags
    ));
}

#[test]
fn update_and_link_default_their_flags() {
    let a = args(vec![("id", s(ID)), ("body", s("b"))]);
    match build_request("update_block", &a).unwrap() {
        Request::UpdateBlock { force, title, .. } => {
            assert!(!force);
            assert_eq!(title, None);
        }
        _ => panic!("expected update_block"),
    }
    let a = args(vec![("source_id", s(ID)), ("target_id", s(ID))]);
    match build_request("link_blocks", &a).unwrap() {
        Request::LinkBlocks { embed, .. } => assert!(!embed),
        _ => panic!("expected link_blocks"),
    }
}

#[test]
fn link_outcome_messages() {
    assert_eq!(linked_message(LinkOutcome::Reference), "linked (reference)");
    assert_eq!(linked_message(LinkOutcome::Transclusion), "linked (transclusion)");
    assert!(linked_message(LinkOutcome::DowngradedToReference).contains("transclusion cycle"));
}


#[test]
fn tool_specs_name_the_listed_tools() {
    let specs = tool_specs();
    assert_eq!(specs.len(), 21);
    let names: Vec<&str> = specs.iter().map(|t| t.name).collect();
    assert_eq!(names, tool_names());
    let set_props = specs.iter().find(|t| t.name == "set_props").unwrap();
    let props = set_props.params.iter().find(|p| p.name == "props").unwrap();
    assert_eq!(props.kind, ParamKind::KeyValueArray);
    assert!(props.required);
    let stats = specs.iter().find(|t| t.name == "stats").unwrap();
    assert!(stats.params.is_empty());
    let search = &specs[0];
    assert_eq!(search.name, "search");
    assert!(search.params.iter().all(|p| !p.required));
    assert_eq!(search.params[3].name, "limit");
    assert_eq!(search.params[3].kind, ParamKind::Int);
}
