use mdkb::id::BlockId;
use mdkb::vault::{block_rel_path, safe_relative_path, sanitize_asset_filename, Vault};

fn id(s: &str) -> BlockId {
    BlockId::parse(s).unwrap()
}

const A: &str = "01J5Z8Q4N2M3K7T9V6W0X1Y200";
const B: &str = "01J5Z8Q4N2M3K7T9V6W0X1Y201";
const C: &str = "01J5Z8Q4N2M3K7T9V6W0X1Y202";
const D: &str = "01J5Z8Q4N2M3K7T9V6W0X1Y203";

#[test]
fn resolves_by_id_and_title() {
    let mut v = Vault::new();
    let a = id(A);
    v.insert_source(a.clone(), "---\ntitle: Alpha\n---\nbody\n");
    assert_eq!(v.resolve(a.as_str()), Some(a.clone()));
    assert_eq!(v.resolve("alpha"), Some(a.clone()));
    assert_eq!(v.resolve("ALPHA"), Some(a));
    assert_eq!(v.resolve("missing"), None);
}

#[test]
fn children_and_backlinks_via_embeds() {
    let mut v = Vault::new();
    let child = id(A);
    let parent = id(B);
    v.insert_source(child.clone(), "---\ntitle: Child\n---\nchild body\n");
    v.insert_source(parent.clone(), &format!("intro ![[{}]] end\n", child.as_str()));
    assert_eq!(v.children(&parent), vec![child.clone()]);
    assert_eq!(v.transcluded_by(&child), vec![parent.clone()]);
    assert!(v.roots().contains(&parent));
    assert!(!v.roots().contains(&child));
}

#[test]
fn lineage_reports_roots_depth_and_multiple_parents() {
    let mut v = Vault::new();
    let leaf = id(A);
    let mid = id(B);
    let pagea = id(C);
    let pageb = id(D);
    v.insert_source(leaf.clone(), "---\ntitle: Leaf\n---\nleaf body\n");
    v.insert_source(mid.clone(), &format!("---\ntitle: Mid\n---\n![[{}]]\n", leaf.as_str()));
    v.insert_source(pagea.clone(), &format!("---\ntitle: PageA\n---\n![[{}]]\n", mid.as_str()));
    v.insert_source(pageb.clone(), &format!("---\ntitle: PageB\n---\n![[{}]]\n", leaf.as_str()));

    let la = v.lineage(&pagea);
    assert!(la.is_root);
    assert_eq!(la.depth, 0);
    assert_eq!(
        la.roots.iter().map(|c| c.id.clone()).collect::<Vec<_>>(),
        vec![pagea.clone()]
    );

    let ll = v.lineage(&leaf);
    assert!(!ll.is_root);
    assert_eq!(ll.depth, 1, "PageB embeds leaf directly: nearest root is 1 hop");
    let parent_ids: Vec<_> = ll.parents.iter().map(|c| c.id.clone()).collect();
    assert!(parent_ids.contains(&mid) && parent_ids.contains(&pageb));
    let root_ids: Vec<_> = ll.roots.iter().map(|c| c.id.clone()).collect();
    assert!(root_ids.contains(&pagea) && root_ids.contains(&pageb));
    assert!(ll.parents.iter().any(|c| c.title == "Mid"));
}

#[test]
fn lineage_is_cycle_safe() {
    let mut v = Vault::new();
    let a = id(A);
    let b = id(B);
    v.insert_source(a.clone(), &format!("---\ntitle: A\n---\n![[{}]]\n", b.as_str()));
    v.insert_source(b.clone(), &format!("---\ntitle: B\n---\n![[{}]]\n", a.as_str()));
    let _ = v.lineage(&a);
}

#[test]
fn references_are_separate_from_children() {
    let mut v = Vault::new();
    let t = id(A);
    let s = id(B);
    v.insert_source(t.clone(), "---\ntitle: Target\n---\nx\n");
    v.insert_source(s.clone(), "see [[Target]] and embed ![[Target]]\n");
    assert_eq!(v.references(&s), vec![t.clone()]);
    assert_eq!(v.children(&s), vec![t.clone()]);
    assert_eq!(v.referenced_by(&t), vec![s.clone()]);
    assert_eq!(v.transcluded_by(&t), vec![s]);
}

#[test]
fn sanitize_asset_filename_keeps_safe_names_and_neutralises_paths() {
    assert_eq!(sanitize_asset_filename("diagram.png"), "diagram.png");
    assert_eq!(sanitize_asset_filename("My Photo.JPG"), "My-Photo.JPG");
    assert_eq!(sanitize_asset_filename("../../etc/passwd"), "passwd");
    assert_eq!(sanitize_asset_filename("a/b/c.png"), "c.png");
    assert_eq!(sanitize_asset_filename("C:\\temp\\x.png"), "x.png");
    for tricky in ["..", "/", ".hidden", "  .png", ""] {
        let out = sanitize_asset_filename(tricky);
        assert!(!out.is_empty());
        assert!(!out.contains('/') && !out.contains('\\') && !out.contains(':'));
        assert_ne!(out, "..");
    }
}

#[test]
fn sanitize_asset_filename_falls_back_to_file() {
    assert_eq!(sanitize_asset_filename(".hidden"), "hidden");
    assert_eq!(sanitize_asset_filename("..."), "file");
    assert_eq!(sanitize_asset_filename("--.png"), "file.png");
}

#[test]
fn safe_relative_path_cleans_and_refuses() {
    assert_eq!(safe_relative_path(" a\\./b//c.md "), Ok("a/b/c.md".to_string()));
    assert_eq!(safe_relative_path("   "), Err("empty path".to_string()));
    assert_eq!(
        safe_relative_path("/etc/passwd"),
        Err("absolute paths are not allowed: /etc/passwd".to_string())
    );
    assert_eq!(
        safe_relative_path("a/../b"),
        Err("path traversal is not allowed: a/../b".to_string())
    );
    assert_eq!(
        safe_relative_path("x/c:y"),
        Err("invalid path component \"c:y\" in x/c:y".to_string())
    );
    assert_eq!(
        safe_relative_path("./."),
        Err("path resolves to the vault root: ./.".to_string())
    );
}

#[test]
fn block_rel_path_is_under_blocks() {
    assert_eq!(block_rel_path(&id(A)), format!("blocks/{A}.md"));
}

#[test]
fn remove_then_block_is_gone_and_insert_replaces() {
    let mut v = Vault::new();
    let a = id(A);
    v.insert_source(a.clone(), "one\n");
    v.insert_source(a.clone(), "two\n");
    assert_eq!(v.len(), 1);
    assert_eq!(v.block(&a).unwrap().body, "two\n");
    assert!(v.remove(&a));
    assert!(v.block(&a).is_none());
    assert!(!v.remove(&a));
    assert!(v.is_empty());
}

#[test]
fn from_dir_loads_every_file() {
    let files = vec![
        (id(B), "---\ntitle: Bee\n---\nb\n".to_string()),
        (id(A), "a\n".to_string()),
    ];
    let v = Vault::from_dir(&files);
    assert_eq!(v.ids(), vec![id(A), id(B)]);
    assert_eq!(v.resolve("bee"), Some(id(B)));
}
