use mdkb::block::Block;
use mdkb::id::BlockId;
use mdkb::index::{block_links, link_graph, transclusion_reaches, BlockRecord, IndexError, LinkKind};
use mdkb::vault::Vault;

const IDS: [&str; 3] = [
    "01J5Z8Q4N2M3K7T9V6W0X1Y400",
    "01J5Z8Q4N2M3K7T9V6W0X1Y401",
    "01J5Z8Q4N2M3K7T9V6W0X1Y402",
];

fn id(k: usize) -> BlockId {
    BlockId::parse(IDS[k]).unwrap()
}

#[test]
fn block_links_resolve_and_classify() {
    let mut v = Vault::new();
    let target = id(0);
    let src = id(1);
    v.insert_source(target.clone(), "---\ntitle: T\n---\nx\n");
    v.insert_source(src.clone(), &format!("ref [[{t}]] embed ![[{t}]]\n", t = target.as_str()));
    let rows = block_links(&v, v.block(&src).unwrap());
    assert_eq!(rows.len(), 2);
    assert!(rows
        .iter()
        .any(|r| r.kind == LinkKind::References && r.target_id == Some(target.clone())));
    assert!(rows
        .iter()
        .any(|r| r.kind == LinkKind::Transcludes && r.target_id == Some(target.clone())));
}

#[test]
fn dangling_target_is_recorded() {
    let mut v = Vault::new();
    let a = id(0);
    v.insert_source(a.clone(), "see [[ghost-block]]\n");
    let rows = block_links(&v, v.block(&a).unwrap());
    assert_eq!(rows.len(), 1);
    assert_eq!(rows[0].target_id, None);
    assert_eq!(rows[0].target, "ghost-block");
}

#[test]
fn graph_counts_degrees_and_roots() {
    let mut v = Vault::new();
    let child = id(0);
    let parent = id(1);
    v.insert_source(child.clone(), "---\ntitle: Child\n---\nx\n");
    v.insert_source(parent.clone(), &format!("![[{}]]\n", child.as_str()));
    let g = link_graph(&v);
    assert_eq!(g.nodes.len(), 2);
    let cn = g.nodes.iter().find(|n| n.id == child).unwrap();
    assert_eq!(cn.in_degree, 1);
    assert!(!cn.root);
    let pn = g.nodes.iter().find(|n| n.id == parent).unwrap();
    assert!(pn.root);
    assert_eq!(pn.out_degree, 1);
}

#[test]
fn transclusion_reaches_follows_only_embeds() {
    let mut v = Vault::new();
    let a = id(0);
    let b = id(1);
    v.insert_source(a.clone(), &format!("![[{}]]\n", b.as_str()));
    v.insert_source(b.clone(), "leaf\n");
    assert!(transclusion_reaches(&v, &a, &b));
    assert!(!transclusion_reaches(&v, &b, &a));
    v.insert_source(b.clone(), &format!("see [[{}]]\n", a.as_str()));
    assert!(!transclusion_reaches(&v, &b, &a));
}

#[test]
fn a_block_reaches_itself_and_reachability_chains() {
    let mut v = Vault::new();
    let a = id(0);
    let b = id(1);
    let c = id(2);
    v.insert_source(a.clone(), &format!("![[{}]]\n", b.as_str()));
    v.insert_source(b.clone(), &format!("![[{}]]\n", c.as_str()));
    v.insert_source(c.clone(), "leaf\n");
    assert!(transclusion_reaches(&v, &c, &c));
    assert!(transclusion_reaches(&v, &a, &c));
    assert!(!transclusion_reaches(&v, &c, &a));
}

#[test]
fn self_links_are_not_graph_edges() {
    let mut v = Vault::new();
    let a = id(0);
    v.insert_source(a.clone(), &format!("me [[{}]]\n", a.as_str()));
    let g = link_graph(&v);
    assert!(g.edges.is_empty());
    assert_eq!(g.nodes[0].in_degree, 0);
    assert!(g.nodes[0].root);
}

#[test]
fn record_from_block_copies_fields_and_decodes_creation_time() {
    let b = Block {
        id: BlockId::parse("01ARZ3NDEKTSV4RRFFQ69G5FAV").unwrap(),
        title: Some("  T  ".into()),
        tags: vec!["x".into(), "x".into(), "y".into()],
        fm_tags: vec![],
        langs: vec!["rs".into()],
        locked: true,
        props: vec![("K".into(), "v".into())],
        body: "# Head\nsee [[a|b]]\n".into(),
    };
    let r = BlockRecord::from_block(&b, 3);
    assert_eq!(r.tags, vec!["x", "y"]);
    assert_eq!(r.child_count, 3);
    assert!(r.locked);
    assert_eq!(r.contextual_text, "T\n\n# Head\nsee b\n");
    assert_eq!(r.prop("k"), Some("v"));
    assert_eq!(r.display_title(), "T");
    assert_eq!(r.created.as_deref(), Some("2016-07-30T23:54:10Z"));
    assert_eq!(r.updated, None);
}

#[test]
fn record_title_falls_back_to_first_line_then_id() {
    let b = Block {
        id: BlockId::parse("01ARZ3NDEKTSV4RRFFQ69G5FAV").unwrap(),
        title: None,
        tags: vec![],
        fm_tags: vec![],
        langs: vec![],
        locked: false,
        props: vec![],
        body: "\n## *Heading*\n".into(),
    };
    let r = BlockRecord::from_block(&b, 0);
    assert_eq!(r.display_title(), "*Heading*");
    let mut r2 = r.clone();
    r2.content = String::new();
    assert_eq!(r2.display_title(), "01ARZ3NDEKTSV4RRFFQ69G5FAV");
}

#[test]
fn link_kind_strings_and_error_text() {
    assert_eq!(LinkKind::Transcludes.as_str(), "transcludes");
    assert_eq!(LinkKind::References.as_str(), "references");
    assert_eq!(IndexError::new("boom").to_string(), "index error: boom");
}
