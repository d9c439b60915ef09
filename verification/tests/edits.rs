use mdkb::edits::{append_text, clean_tags, merge_props, resolve_title, unset_props, SyncReport};
use mdkb::id::BlockId;
use mdkb::index::LinkOutcome;
use mdkb::service::{
    carve_selection_text, carved_body, dangling_links, link_plan, Capability, RequestContext,
};
use mdkb::vault::Vault;

fn p(k: &str, v: &str) -> (String, String) {
    (k.to_string(), v.to_string())
}

fn prop<'a>(ps: &'a [(String, String)], k: &str) -> Option<&'a str> {
    ps.iter()
        .find(|(x, _)| x.eq_ignore_ascii_case(k))
        .map(|(_, v)| v.as_str())
}

#[test]
fn set_props_merges_and_dedupes_within_call() {
    let merged = merge_props(&vec![], &[p("k", "1"), p("K", "2"), p("other", "3")]).unwrap();
    assert_eq!(merged, vec![p("k", "1"), p("other", "3")]);
}

#[test]
fn set_props_is_merge_not_replace() {
    let first = merge_props(&vec![], &[p("source", "git"), p("verified", "2026-01-01")]).unwrap();
    let second = merge_props(&first, &[p("verified", "2026-06-01")]).unwrap();
    assert_eq!(prop(&second, "source"), Some("git"), "other prop must be preserved");
    assert_eq!(prop(&second, "verified"), Some("2026-06-01"), "named prop updated");
    let third = merge_props(&second, &[p("confidence", "0.9")]).unwrap();
    assert_eq!(third.len(), 3);
}

#[test]
fn set_props_rejects_empty_value() {
    assert!(merge_props(&vec![], &[p("note", "  ")]).is_err());
}

#[test]
fn set_props_rejects_timestamp_keys() {
    assert!(merge_props(&vec![], &[p("created", "2020-01-01")]).is_err());
    assert!(merge_props(&vec![], &[p("updated", "2020-01-01")]).is_err());
}

#[test]
fn merge_props_error_messages() {
    assert_eq!(
        merge_props(&vec![], &[p("evil\nlocked", "true")]).unwrap_err(),
        "invalid property key \"evil\\nlocked\": keys must start with a letter and contain only letters, digits, '_' or '-'"
    );
    for key in ["locked", "Locked", "title", "tags"] {
        let e = merge_props(&vec![], &[p(key, "true")]).unwrap_err();
        assert!(e.starts_with("reserved property key "), "{e}");
    }
    assert_eq!(
        merge_props(&vec![], &[p("note", " ")]).unwrap_err(),
        "empty value for property \"note\": use unset to remove a property, don't set it empty"
    );
}

#[test]
fn merge_props_refuses_whole_request_and_skips_blank_keys() {
    let existing = vec![p("a", "1")];
    assert!(merge_props(&existing, &[p("b", "2"), p("locked", "true")]).is_err());
    let merged = merge_props(&existing, &[p("  ", "x"), p(" B ", "2"), p("A", "9")]).unwrap();
    assert_eq!(merged, vec![p("a", "9"), p("B", "2")]);
}

#[test]
fn unset_props_removes_only_named_keys() {
    let ps = vec![p("source", "git"), p("verified", "2026-06-01"), p("confidence", "0.9")];
    let after = unset_props(&ps, &["Verified".to_string()]);
    assert_eq!(prop(&after, "verified"), None);
    assert_eq!(prop(&after, "source"), Some("git"));
    assert_eq!(prop(&after, "confidence"), Some("0.9"));
    let again = unset_props(&after, &["nope".to_string()]);
    assert_eq!(again.len(), 2);
    let empty = unset_props(&again, &[" source ".to_string(), "confidence".to_string()]);
    assert!(empty.is_empty());
}

#[test]
fn unset_twice_is_unset_once() {
    let ps = vec![p("a", "1"), p("b", "2"), p("c", "3")];
    let keys = vec!["B".to_string()];
    let once = unset_props(&ps, &keys);
    assert_eq!(unset_props(&once, &keys), once);
}

#[test]
fn clean_tags_trims_drops_blank_and_case_duplicates() {
    let tags: Vec<String> = vec![" Rust ".into(), "".into(), "rust".into(), "notes".into(), "  ".into()];
    assert_eq!(clean_tags(&tags), vec!["Rust".to_string(), "notes".to_string()]);
    assert!(clean_tags(&[]).is_empty());
}

#[test]
fn resolve_title_keeps_clears_or_replaces() {
    let existing = Some("Old".to_string());
    assert_eq!(resolve_title(&existing, None), Some("Old".to_string()));
    assert_eq!(resolve_title(&existing, Some("  ")), None);
    assert_eq!(resolve_title(&existing, Some("New")), Some("New".to_string()));
    assert_eq!(resolve_title(&None, None), None);
}

#[test]
fn append_text_adds_a_paragraph() {
    assert_eq!(append_text("body\n\n  ", "[[x]]"), "body\n\n[[x]]\n");
    assert_eq!(append_text("", "s"), "\n\ns\n");
}

#[test]
fn sync_report_emptiness_ignores_conflicts() {
    let mut r = SyncReport::default();
    assert!(r.is_empty());
    r.conflicts.push("a (conflicted copy).md".into());
    assert!(r.is_empty());
    r.removed.push("x".into());
    assert!(!r.is_empty());
}

#[test]
fn authorize_refuses_only_unauthenticated_remote_callers() {
    assert!(RequestContext::local().authorize(Capability::Write).is_ok());
    assert!(RequestContext::authenticated("bot").authorize(Capability::Write).is_ok());
    let e = RequestContext::remote("peer-1").authorize(Capability::Read).unwrap_err();
    assert_eq!(
        e.0,
        "unauthorized: remote caller peer-1 (authenticate with a token first)"
    );
}

const A: &str = "01J5Z8Q4N2M3K7T9V6W0X1Y500";
const B: &str = "01J5Z8Q4N2M3K7T9V6W0X1Y501";
const C: &str = "01J5Z8Q4N2M3K7T9V6W0X1Y502";

fn id(s: &str) -> BlockId {
    BlockId::parse(s).unwrap()
}

#[test]
fn link_plan_embeds_references_and_downgrades_cycles() {
    let mut v = Vault::new();
    v.insert_source(id(A), &format!("![[{B}]]\n"));
    v.insert_source(id(B), "leaf\n");
    v.insert_source(id(C), "other\n");
    // A already embeds B: embedding A into B would close a cycle, so it is downgraded.
    let (o, d) = link_plan(&v, &id(B), &id(A), true).unwrap();
    assert_eq!(o, LinkOutcome::DowngradedToReference);
    assert_eq!(d, format!("[[{A}]]"));
    // Embedding a block into itself is a cycle too.
    let (o, _) = link_plan(&v, &id(C), &id(C), true).unwrap();
    assert_eq!(o, LinkOutcome::DowngradedToReference);
    // A fresh embed is a transclusion.
    let (o, d) = link_plan(&v, &id(C), &id(A), true).unwrap();
    assert_eq!(o, LinkOutcome::Transclusion);
    assert_eq!(d, format!("![[{A}]]"));
    // References are never cycle-checked.
    let (o, d) = link_plan(&v, &id(B), &id(A), false).unwrap();
    assert_eq!(o, LinkOutcome::Reference);
    assert_eq!(d, format!("[[{A}]]"));
}

#[test]
fn link_plan_needs_both_blocks() {
    let mut v = Vault::new();
    v.insert_source(id(A), "a\n");
    let e = link_plan(&v, &id(B), &id(A), true).unwrap_err();
    assert_eq!(e.0, format!("unknown source block: {B}"));
    let e = link_plan(&v, &id(A), &id(C), false).unwrap_err();
    assert_eq!(e.0, format!("unknown target block: {C}"));
}

#[test]
fn carve_selection_validates_and_trims() {
    let body = "intro\n\n  the chunk  \n\noutro\n";
    let start = body.find("  the").unwrap();
    let end = start + "  the chunk  ".len();
    assert_eq!(carve_selection_text(body, start, end).unwrap(), "the chunk");
    assert_eq!(
        carve_selection_text(body, 3, 3).unwrap_err().0,
        "invalid carve selection range"
    );
    assert_eq!(
        carve_selection_text(body, 0, body.len() + 1).unwrap_err().0,
        "invalid carve selection range"
    );
    assert_eq!(
        carve_selection_text(body, 5, 7).unwrap_err().0,
        "carve selection is empty"
    );
    let uni = "aé b";
    assert!(carve_selection_text(uni, 2, 4).is_err(), "byte 2 is inside é");
    assert_eq!(carve_selection_text(uni, 1, 3).unwrap(), "é");
}

#[test]
fn carved_body_replaces_the_range_with_an_embed() {
    let body = "intro\nchunk\noutro\n";
    let start = body.find("chunk").unwrap();
    let end = start + "chunk".len();
    let out = carved_body(body, start, end, &id(A)).unwrap();
    assert_eq!(out, format!("intro\n![[{A}]]\noutro\n"));
    assert!(carved_body(body, 4, 2, &id(A)).is_none());
}

#[test]
fn dangling_links_lists_unresolved_targets_only() {
    let mut v = Vault::new();
    v.insert_source(id(A), &format!("[[{B}]] and [[ghost]] and ![[nowhere]]\n"));
    v.insert_source(id(B), "[[also-missing]]\n");
    let rows = dangling_links(&v);
    let targets: Vec<&str> = rows.iter().map(|r| r.target.as_str()).collect();
    assert_eq!(targets, vec!["ghost", "nowhere", "also-missing"]);
    assert!(rows.iter().all(|r| r.target_id.is_none()));
}
