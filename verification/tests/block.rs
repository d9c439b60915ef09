use mdkb::block::Block;
use mdkb::id::BlockId;

fn block(body: &str) -> Block {
    Block {
        id: BlockId::parse("01J5Z8Q4N2M3K7T9V6W0X1Y2ZB").unwrap(),
        title: None,
        tags: vec![],
        fm_tags: vec![],
        langs: vec![],
        locked: false,
        props: vec![],
        body: body.to_string(),
    }
}

#[test]
fn separates_children_from_references() {
    let b = block("intro ![[01ARZ3NDEKTSV4RRFFQ69G5FAV]] and a [[link-target]] here");
    assert_eq!(b.child_targets(), vec!["01ARZ3NDEKTSV4RRFFQ69G5FAV"]);
    assert_eq!(b.reference_targets(), vec!["link-target"]);
}

#[test]
fn contextual_text_prepends_title_and_flattens_directives() {
    let mut b = block("see [[ideas|the ideas page]] now");
    b.title = Some("Home".into());
    let ctx = b.contextual_text();
    assert!(ctx.starts_with("Home"));
    assert!(ctx.contains("the ideas page"));
    assert!(!ctx.contains("[["));
}

#[test]
fn display_title_prefers_title_then_first_line() {
    let mut b = block("# Heading One\n\nbody");
    assert_eq!(b.display_title(), "Heading One");
    b.title = Some("Explicit".into());
    assert_eq!(b.display_title(), "Explicit");
}

#[test]
fn display_title_strips_markup_and_truncates_long_lines() {
    let long = "x".repeat(100);
    let b = block(&format!("**{long}**"));
    let t = b.display_title();
    assert_eq!(t.chars().count(), 81);
    assert!(t.ends_with('…'));
    assert!(!t.contains('*'));
    let empty = block("\n   \n");
    assert_eq!(empty.display_title(), "01J5Z8Q4N2M3K7T9V6W0X1Y2ZB");
}

#[test]
fn contextual_text_without_title_is_plain_body() {
    let b = block("a ![[x|shown]] b");
    assert_eq!(b.contextual_text(), "a shown b");
}

#[test]
fn tag_names_drop_repeats_keeping_first_order() {
    let mut b = block("");
    b.tags = vec!["a".into(), "b".into(), "a".into()];
    assert_eq!(b.tag_names(), vec!["a", "b"]);
}

#[test]
fn prop_lookup_ignores_key_case() {
    let mut b = block("");
    b.props = vec![("Source".into(), "git".into())];
    assert_eq!(b.prop("source"), Some("git"));
    assert_eq!(b.prop("missing"), None);
}
