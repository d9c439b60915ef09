use mdkb::id::BlockId;
use mdkb::render::{
    flat_reference_targets, relative_link, render_block, render_flat, render_flat_in_set,
    rendered_block, FlatSet,
};
use mdkb::vault::Vault;

const IDS: [&str; 4] = [
    "01J5Z8Q4N2M3K7T9V6W0X1Y300",
    "01J5Z8Q4N2M3K7T9V6W0X1Y301",
    "01J5Z8Q4N2M3K7T9V6W0X1Y302",
    "01J5Z8Q4N2M3K7T9V6W0X1Y303",
];

fn id(k: usize) -> BlockId {
    BlockId::parse(IDS[k]).unwrap()
}

fn vault() -> (Vault, BlockId, BlockId) {
    let mut v = Vault::new();
    let child = id(0);
    let parent = id(1);
    v.insert_source(child.clone(), "---\ntitle: Child\n---\nchild content\n");
    v.insert_source(
        parent.clone(),
        &format!("intro\n\n![[{}]]\n\nlink [[Child]]\n", child.as_str()),
    );
    (v, parent, child)
}

#[test]
fn embed_renders_card_with_live_content() {
    let (v, parent, _child) = vault();
    let out = render_block(&v, &parent).unwrap();
    assert!(out.contains("child content"), "got: {out}");
    assert!(out.contains("> ⧉ ["), "embed card header missing: {out}");
}

#[test]
fn reference_renders_mdkb_link() {
    let (v, parent, child) = vault();
    let out = render_block(&v, &parent).unwrap();
    assert!(out.contains(&format!("(mdkb:{})", child.as_str())), "got: {out}");
}

#[test]
fn bare_id_reference_uses_block_title_as_label() {
    let mut v = Vault::new();
    let target = id(0);
    let src = id(1);
    v.insert_source(target.clone(), "---\ntitle: Deployment Guide\n---\nbody\n");
    v.insert_source(src.clone(), &format!("see [[{}]] now\n", target.as_str()));
    let out = render_block(&v, &src).unwrap();
    assert_eq!(out, format!("see [Deployment Guide](mdkb:{}) now\n", target.as_str()));
}

#[test]
fn explicit_alias_is_preserved() {
    let mut v = Vault::new();
    let target = id(0);
    let src = id(1);
    v.insert_source(target.clone(), "---\ntitle: Long Title\n---\nbody\n");
    v.insert_source(src.clone(), &format!("see [[{}|the docs]]\n", target.as_str()));
    let out = render_block(&v, &src).unwrap();
    assert!(out.contains(&format!("[the docs](mdkb:{})", target.as_str())), "got: {out}");
}

#[test]
fn edit_once_reflects_everywhere() {
    let mut v = Vault::new();
    let q = id(0);
    let x = id(1);
    let y = id(2);
    v.insert_source(q.clone(), "---\ntitle: Q\n---\nStormEvents | take 10\n");
    v.insert_source(x.clone(), &format!("![[{}]]\n", q.as_str()));
    v.insert_source(y.clone(), &format!("see ![[{}]]\n", q.as_str()));
    assert!(render_block(&v, &x).unwrap().contains("take 10"));
    assert!(render_block(&v, &y).unwrap().contains("take 10"));
    v.insert_source(q.clone(), "---\ntitle: Q\n---\nStormEvents | take 50\n");
    assert!(render_block(&v, &x).unwrap().contains("take 50"));
    assert!(!render_block(&v, &x).unwrap().contains("take 10"));
}

#[test]
fn cycle_is_broken_with_a_note() {
    let mut v = Vault::new();
    let a = id(0);
    let b = id(1);
    v.insert_source(a.clone(), &format!("A ![[{}]]\n", b.as_str()));
    v.insert_source(b.clone(), &format!("B ![[{}]]\n", a.as_str()));
    let out = render_block(&v, &a).unwrap();
    assert!(out.contains("transclusion cycle"), "got: {out}");
    assert!(out.contains("](mdkb:"), "cycle note should link: {out}");
}

#[test]
fn dangling_embed_degrades_locally() {
    let mut v = Vault::new();
    let a = id(0);
    v.insert_source(a.clone(), "before\n\n![[01JJJJJJJJJJJJJJJJJJJJJJJJ]]\n\nafter\n");
    let out = render_block(&v, &a).unwrap();
    assert!(out.contains("before"));
    assert!(out.contains("after"));
    assert!(out.contains("unresolved"));
}

#[test]
fn rendered_block_carries_raw_and_resolved() {
    let (v, parent, _child) = vault();
    let rb = rendered_block(&v, &parent).unwrap();
    assert!(rb.raw.contains("![["));
    assert!(rb.rendered.contains("> ⧉ ["));
    assert!(!rb.rendered.contains("![["));
}

#[test]
fn flat_dissolves_embeds_inline_no_card() {
    let (v, parent, _child) = vault();
    let out = render_flat(&v, &parent).unwrap();
    assert!(out.contains("child content"), "got: {out}");
    assert!(!out.contains("> ⧉"), "should not be a card: {out}");
    assert!(!out.contains("mdkb:"), "no mdkb links in flat output: {out}");
    assert!(!out.contains("![["), "embed directive should be gone: {out}");
}

#[test]
fn flat_reference_becomes_plain_title() {
    let mut v = Vault::new();
    let target = id(0);
    let src = id(1);
    v.insert_source(target.clone(), "---\ntitle: Deployment Guide\n---\nbody\n");
    v.insert_source(src.clone(), &format!("see [[{}]] now\n", target.as_str()));
    let out = render_flat(&v, &src).unwrap();
    assert_eq!(out, "see Deployment Guide now\n");
}

#[test]
fn relative_link_same_dir_is_bare_filename() {
    assert_eq!(relative_link("a.md", "b.md"), "b.md");
    assert_eq!(relative_link("docs/a.md", "docs/b.md"), "b.md");
}

#[test]
fn relative_link_walks_up_and_down() {
    assert_eq!(relative_link("docs/skills/cli/SKILL.md", "docs/DESIGN.md"), "../../DESIGN.md");
    assert_eq!(relative_link("a.md", "sub/b.md"), "sub/b.md");
    assert_eq!(relative_link("x/a.md", "y/b.md"), "../y/b.md");
}

#[test]
fn flat_reference_in_set_becomes_relative_link() {
    let mut v = Vault::new();
    let target = id(0);
    let src = id(1);
    v.insert_source(target.clone(), "---\ntitle: Spec\n---\nbody\n");
    v.insert_source(src.clone(), &format!("see [[{}]] now\n", target.as_str()));
    let paths = vec![(target.clone(), "design.md".to_string())];
    let set = FlatSet { paths: &paths, self_path: "guide.md" };
    let out = render_flat_in_set(&v, &src, &set).unwrap();
    assert_eq!(out, "see [Spec](design.md) now\n");
}

#[test]
fn flat_reference_out_of_set_stays_plain_text() {
    let mut v = Vault::new();
    let target = id(0);
    let src = id(1);
    v.insert_source(target.clone(), "---\ntitle: Spec\n---\nbody\n");
    v.insert_source(src.clone(), &format!("see [[{}]] now\n", target.as_str()));
    let paths: Vec<(BlockId, String)> = Vec::new();
    let set = FlatSet { paths: &paths, self_path: "guide.md" };
    let out = render_flat_in_set(&v, &src, &set).unwrap();
    assert_eq!(out, "see Spec now\n");
}

#[test]
fn flat_reference_targets_includes_links_through_embeds() {
    let mut v = Vault::new();
    let linked = id(0);
    let child = id(1);
    let page = id(2);
    v.insert_source(linked.clone(), "---\ntitle: Linked\n---\nbody\n");
    v.insert_source(child.clone(), &format!("child links [[{}]]\n", linked.as_str()));
    v.insert_source(page.clone(), &format!("# Page\n\n![[{}]]\n", child.as_str()));
    let targets = flat_reference_targets(&v, &page);
    assert_eq!(targets, vec![linked], "should surface refs through embeds");
}

#[test]
fn flat_nested_embeds_dissolve_recursively() {
    let mut v = Vault::new();
    let leaf = id(0);
    let mid = id(1);
    let root = id(2);
    v.insert_source(leaf.clone(), "leaf text\n");
    v.insert_source(mid.clone(), &format!("mid before\n\n![[{}]]\n\nmid after\n", leaf.as_str()));
    v.insert_source(root.clone(), &format!("# Doc\n\n![[{}]]\n", mid.as_str()));
    let out = render_flat(&v, &root).unwrap();
    assert!(out.contains("# Doc"));
    assert!(out.contains("mid before"));
    assert!(out.contains("leaf text"));
    assert!(out.contains("mid after"));
    assert!(!out.contains("![["));
}

#[test]
fn flat_cycle_and_dangling_become_comments() {
    let mut v = Vault::new();
    let a = id(0);
    let b = id(1);
    v.insert_source(a.clone(), &format!("A\n\n![[{}]]\n", b.as_str()));
    v.insert_source(b.clone(), &format!("B\n\n![[{}]]\n", a.as_str()));
    let out = render_flat(&v, &a).unwrap();
    assert!(out.contains("A"));
    assert!(out.contains("B"));
    assert!(out.contains("<!-- mdkb: transclusion cycle"), "got: {out}");

    let mut v2 = Vault::new();
    let c = id(2);
    v2.insert_source(c.clone(), "x\n\n![[01JJJJJJJJJJJJJJJJJJJJJJJJ]]\n\ny\n");
    let out2 = render_flat(&v2, &c).unwrap();
    assert!(out2.contains("<!-- mdkb: unresolved embed"), "got: {out2}");
}

#[test]
fn flat_embed_at_column_zero_is_unchanged() {
    let mut v = Vault::new();
    let child = id(0);
    let host = id(1);
    v.insert_source(child.clone(), "line one\nline two\nline three\n");
    v.insert_source(host.clone(), &format!("# Doc\n\n![[{}]]\n", child.as_str()));
    let out = render_flat(&v, &host).unwrap();
    assert!(out.contains("# Doc"));
    assert!(out.contains("\nline one\nline two\nline three"), "no indent at col 0:\n{out}");
}

#[test]
fn flat_embed_reindents_continuation_lines_in_indented_context() {
    let mut v = Vault::new();
    let child = id(0);
    let host = id(1);
    v.insert_source(child.clone(), "line one\nline two\nline three\n");
    v.insert_source(
        host.clone(),
        &format!("---\ntitle: Page\n---\n\n---\ndesc: >-\n    ![[{}]]\n---\nbody\n", child.as_str()),
    );
    let out = render_flat(&v, &host).unwrap();
    assert!(out.contains("    line one\n    line two\n    line three"), "got:\n{out}");
    assert!(!out.contains("\nline two"), "continuation not re-indented:\n{out}");
}

#[test]
fn flat_embed_reindents_under_list_item() {
    let mut v = Vault::new();
    let child = id(0);
    let host = id(1);
    v.insert_source(child.clone(), "first\nsecond\n");
    v.insert_source(host.clone(), &format!("- ![[{}]]\n", child.as_str()));
    let out = render_flat(&v, &host).unwrap();
    assert!(out.contains("- first\n  second"), "got:\n{out}");
}

#[test]
fn flat_inline_single_line_embed_splices_mid_sentence() {
    let mut v = Vault::new();
    let tag = id(0);
    let host = id(1);
    v.insert_source(tag.clone(), "the fast knowledge base");
    v.insert_source(host.clone(), &format!("mdkb is ![[{}]] for developers.\n", tag.as_str()));
    let out = render_flat(&v, &host).unwrap();
    assert_eq!(out, "mdkb is the fast knowledge base for developers.\n");
}

#[test]
fn flat_list_embedded_in_list_item_nests() {
    let mut v = Vault::new();
    let sub = id(0);
    let host = id(1);
    v.insert_source(sub.clone(), "- item a\n- item b\n- item c\n");
    v.insert_source(host.clone(), &format!("- before\n- ![[{}]]\n- after\n", sub.as_str()));
    let out = render_flat(&v, &host).unwrap();
    assert!(out.contains("- - item a\n  - item b\n  - item c"), "got:\n{out}");
    assert!(!out.contains("\n- item b"), "sub-item escaped the nesting:\n{out}");
}

#[test]
fn render_of_unknown_block_is_none() {
    let (v, _p, _c) = vault();
    assert!(render_block(&v, &id(3)).is_none());
    assert!(render_flat(&v, &id(3)).is_none());
    assert!(rendered_block(&v, &id(3)).is_none());
    assert!(flat_reference_targets(&v, &id(3)).is_empty());
}

#[test]
fn embed_card_exact_shape_and_escaped_labels() {
    let mut v = Vault::new();
    let child = id(0);
    let host = id(1);
    v.insert_source(child.clone(), "---\ntitle: A [b]\n---\none\n\ntwo\n");
    v.insert_source(host.clone(), &format!("![[{}]]", child.as_str()));
    let out = render_block(&v, &host).unwrap();
    assert_eq!(
        out,
        format!("> ⧉ [A \\[b\\]](mdkb:{})\n>\n> one\n>\n> two\n", child.as_str())
    );
    let mut v2 = Vault::new();
    v2.insert_source(host.clone(), "x [[nowhere]] y");
    assert_eq!(render_block(&v2, &host).unwrap(), "x [nowhere](mdkb:?unresolved) y");
}

#[test]
fn plain_body_renders_verbatim() {
    let mut v = Vault::new();
    let a = id(0);
    v.insert_source(a.clone(), "just `[[code]]` text\n");
    assert_eq!(render_block(&v, &a).unwrap(), "just `[[code]]` text\n");
    assert_eq!(render_flat(&v, &a).unwrap(), "just `[[code]]` text\n");
}

#[test]
fn editing_an_embedded_block_shows_in_every_embedder() {
    let (mut v, parent, child) = vault();
    let other = id(2);
    v.insert_source(other.clone(), &format!("see ![[{}]]\n", child.as_str()));
    let before = render_block(&v, &parent).unwrap();
    assert!(before.contains("> child content"));
    v.insert_source(child.clone(), "---\ntitle: Child\n---\nrevised once\n");
    let after_parent = render_block(&v, &parent).unwrap();
    let after_other = render_block(&v, &other).unwrap();
    assert!(after_parent.contains("> revised once"));
    assert!(after_other.contains("> revised once"));
    assert!(!after_parent.contains("child content"));
}
