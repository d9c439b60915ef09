use mdkb::block::Block;
use mdkb::blockfile::{parse_block, write_block};
use mdkb::id::BlockId;

fn new_id() -> BlockId {
    BlockId::parse("01J5Z8Q4N2M3K7T9V6W0X1Y2ZA").unwrap()
}

fn p(src: &str) -> Block {
    parse_block(new_id(), src)
}

#[test]
fn parses_frontmatter_title_and_tags() {
    let b = p("---\ntitle: Deploying to k3s\ntags: [k3s, ops]\n---\n\nbody here\n");
    assert_eq!(b.title.as_deref(), Some("Deploying to k3s"));
    assert!(b.tags.contains(&"k3s".to_string()));
    assert!(b.tags.contains(&"ops".to_string()));
    assert_eq!(b.body, "body here\n");
}

#[test]
fn parses_block_list_tags() {
    let b = p("---\ntags:\n  - alpha\n  - beta\n---\nbody\n");
    assert_eq!(b.tags, vec!["alpha", "beta"]);
}

#[test]
fn no_frontmatter_keeps_body_verbatim() {
    let b = p("# Just markdown\n\nno frontmatter\n");
    assert_eq!(b.title, None);
    assert_eq!(b.body, "# Just markdown\n\nno frontmatter\n");
}

#[test]
fn inline_tags_picked_up_outside_code() {
    let b = p("a #real tag\n\n```sh\n# not-a-tag shell comment\n```\n");
    assert!(b.tags.contains(&"real".to_string()));
    assert!(!b.tags.iter().any(|t| t == "not-a-tag"));
}

#[test]
fn captures_code_langs() {
    let b = p("```kusto\nStormEvents\n```\n\n```sh\nls\n```\n");
    assert_eq!(b.langs, vec!["kusto", "sh"]);
}

#[test]
fn write_block_round_trips_through_parse() {
    let text = write_block(Some("My Title"), &[], false, &[], "the body\n");
    let b = parse_block(new_id(), &text);
    assert_eq!(b.title.as_deref(), Some("My Title"));
    assert_eq!(b.body, "the body\n");
}

#[test]
fn write_block_without_title_or_tags_is_pure_body() {
    assert_eq!(write_block(None, &[], false, &[], "hello\n"), "hello\n");
}

#[test]
fn write_block_round_trips_frontmatter_tags() {
    let tags = vec!["k8s".to_string(), "ops".to_string()];
    let text = write_block(Some("Deploy"), &tags, false, &[], "body\n");
    assert!(text.contains("tags: [k8s, ops]"));
    let b = parse_block(new_id(), &text);
    assert_eq!(b.fm_tags, vec!["k8s", "ops"]);
    assert_eq!(b.tags, vec!["k8s", "ops"]);
    assert_eq!(b.title.as_deref(), Some("Deploy"));
}

#[test]
fn write_block_emits_tags_without_title() {
    let tags = vec!["solo".to_string()];
    let text = write_block(None, &tags, false, &[], "body\n");
    let b = parse_block(new_id(), &text);
    assert_eq!(b.fm_tags, vec!["solo"]);
    assert_eq!(b.title, None);
}

#[test]
fn write_block_quotes_title_with_colon() {
    let text = write_block(Some("SPEC: A block file"), &[], false, &[], "body\n");
    assert!(
        text.contains("title: \"SPEC: A block file\"\n"),
        "title should be quoted: {text}"
    );
    let b = parse_block(new_id(), &text);
    assert_eq!(b.title.as_deref(), Some("SPEC: A block file"));
}

#[test]
fn write_block_leaves_plain_title_unquoted() {
    let text = write_block(Some("Deploying to k3s"), &[], false, &[], "body\n");
    assert!(text.contains("title: Deploying to k3s\n"), "{text}");
}

#[test]
fn write_block_round_trips_title_with_quotes_and_backslash() {
    let title = "He said \"hi\" \\ bye";
    let text = write_block(Some(title), &[], false, &[], "body\n");
    let b = parse_block(new_id(), &text);
    assert_eq!(b.title.as_deref(), Some(title));
}

#[test]
fn parse_title_unescapes_double_quoted() {
    let b = p("---\ntitle: \"a: b \\\"c\\\"\"\n---\n\nbody\n");
    assert_eq!(b.title.as_deref(), Some("a: b \"c\""));
}

#[test]
fn parses_locked_flag() {
    let b = p("---\ntitle: Pinned\nlocked: true\n---\n\nbody\n");
    assert!(b.locked);
    let unlocked = p("---\ntitle: Free\n---\n\nbody\n");
    assert!(!unlocked.locked);
    assert!(!p("# plain\n").locked);
}

#[test]
fn write_block_round_trips_locked() {
    let text = write_block(Some("Pinned"), &[], true, &[], "body\n");
    assert!(text.contains("locked: true\n"), "{text}");
    let b = parse_block(new_id(), &text);
    assert!(b.locked);
    assert_eq!(b.title.as_deref(), Some("Pinned"));
}

#[test]
fn write_block_emits_locked_without_title_or_tags() {
    let text = write_block(None, &[], true, &[], "just body\n");
    assert!(text.starts_with("---\nlocked: true\n---\n"), "{text}");
    assert!(parse_block(new_id(), &text).locked);
}

#[test]
fn write_block_omits_locked_when_false() {
    let text = write_block(Some("Free"), &[], false, &[], "body\n");
    assert!(!text.contains("locked"), "{text}");
}

#[test]
fn parses_arbitrary_props_skipping_managed_keys() {
    let b = p("---\ntitle: Atom\ntags: [mem]\nlocked: true\nsource: https://example.com/x\nverified: 2026-06-01\nconfidence: 0.8\n---\n\nbody\n");
    assert_eq!(b.title.as_deref(), Some("Atom"));
    assert_eq!(b.fm_tags, vec!["mem"]);
    assert!(b.locked);
    assert_eq!(
        b.props,
        vec![
            ("source".to_string(), "https://example.com/x".to_string()),
            ("verified".to_string(), "2026-06-01".to_string()),
            ("confidence".to_string(), "0.8".to_string()),
        ]
    );
}

#[test]
fn props_ignore_indented_lines_and_tag_list_items() {
    let b = p("---\ntags:\n  - alpha\n  - beta\nsource: git\n---\nbody\n");
    assert_eq!(b.tags, vec!["alpha", "beta"]);
    assert_eq!(b.props, vec![("source".to_string(), "git".to_string())]);
}

#[test]
fn write_block_round_trips_props() {
    let props = vec![
        ("source".to_string(), "https://example.com/x".to_string()),
        ("verified".to_string(), "2026-06-01".to_string()),
    ];
    let text = write_block(Some("Atom"), &[], false, &props, "body\n");
    assert!(text.contains("source: https://example.com/x\n"), "{text}");
    let b = parse_block(new_id(), &text);
    assert_eq!(b.props, props);
}

#[test]
fn write_block_quotes_prop_value_with_colon() {
    let props = vec![("note".to_string(), "ratio: 2:1 high".to_string())];
    let text = write_block(None, &[], false, &props, "body\n");
    let b = parse_block(new_id(), &text);
    assert_eq!(b.prop("note"), Some("ratio: 2:1 high"));
}

#[test]
fn write_block_emits_props_without_title_tags_or_lock() {
    let props = vec![("source".to_string(), "git".to_string())];
    let text = write_block(None, &[], false, &props, "just body\n");
    assert!(text.starts_with("---\nsource: git\n---\n"), "{text}");
    assert_eq!(parse_block(new_id(), &text).prop("source"), Some("git"));
}

#[test]
fn write_block_drops_injection_keys() {
    let props = vec![
        ("evil\nlocked".to_string(), "true".to_string()),
        ("ok".to_string(), "1".to_string()),
    ];
    let text = write_block(Some("V"), &[], false, &props, "body\n");
    assert!(!text.contains("locked"), "injection leaked:\n{text}");
    let b = parse_block(new_id(), &text);
    assert!(!b.locked, "block must not be locked via injection");
    assert_eq!(b.prop("ok"), Some("1"));
    assert_eq!(b.props.len(), 1);
}

#[test]
fn parse_keeps_the_given_id() {
    let b = p("body\n");
    assert_eq!(b.id.as_str(), "01J5Z8Q4N2M3K7T9V6W0X1Y2ZA");
}

#[test]
fn title_and_tags_survive_a_write_then_parse_with_body_unchanged() {
    let tags = vec!["a".to_string(), "b-c".to_string()];
    let body = "line one\n\n```rs\nfn x() {}\n```\n";
    let text = write_block(Some("T: x"), &tags, true, &[], body);
    let b = parse_block(new_id(), &text);
    assert_eq!(b.title.as_deref(), Some("T: x"));
    assert_eq!(b.fm_tags, vec!["a", "b-c"]);
    assert!(b.locked);
    assert_eq!(b.body, body);
    assert_eq!(b.langs, vec!["rs"]);
}

#[test]
fn padded_tags_and_props_read_back_cleaned() {
    let tags = vec!["  alpha ".to_string(), "   ".to_string(), "beta".to_string()];
    let props = vec![
        (" source ".to_string(), "git".to_string()),
        ("Title".to_string(), "dropped".to_string()),
        ("note".to_string(), "ratio: 2:1".to_string()),
    ];
    let text = write_block(None, &tags, false, &props, "\n\nbody\n");
    let b = parse_block(new_id(), &text);
    assert_eq!(b.fm_tags, vec!["alpha", "beta"]);
    assert_eq!(
        b.props,
        vec![
            ("source".to_string(), "git".to_string()),
            ("note".to_string(), "ratio: 2:1".to_string()),
        ]
    );
    assert_eq!(b.body, "body\n");
    assert_eq!(b.title, None);
    assert!(!b.locked);
}

#[test]
fn a_tag_holding_a_comma_reads_back_split() {
    let tags = vec!["a,b".to_string()];
    let text = write_block(None, &tags, false, &[], "body\n");
    let b = parse_block(new_id(), &text);
    assert_eq!(b.fm_tags, vec!["a", "b"]);
}

#[test]
fn a_repeated_property_key_keeps_its_first_value() {
    let props = vec![
        ("source".to_string(), "one".to_string()),
        ("SOURCE".to_string(), "two".to_string()),
    ];
    let text = write_block(None, &[], false, &props, "body\n");
    let b = parse_block(new_id(), &text);
    assert_eq!(b.props, vec![("source".to_string(), "one".to_string())]);
}
