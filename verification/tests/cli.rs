use mdkb::cli::{
    doc_status, drifted_paths, export_outcome, export_plan, export_root, parse_date_flag, parse_id,
    push_prop_key, DocStatus, ExportChoice, ExportFlags, ExportSelection,
};

#[test]
fn parse_id_accepts_a_ulid_and_names_a_bad_one() {
    let id = parse_id("01J5Z8Q4N2M3K7T9V6W0X1Y2ZA").unwrap();
    assert_eq!(id.as_str(), "01J5Z8Q4N2M3K7T9V6W0X1Y2ZA");
    assert_eq!(parse_id("nope").err().unwrap(), "invalid block id: nope");
}

#[test]
fn parse_date_flag_normalizes_or_explains() {
    assert_eq!(parse_date_flag("2026-06-24").unwrap(), "2026-06-24T00:00:00Z");
    assert_eq!(parse_date_flag(" 2026-06-24T02:30:00Z ").unwrap(), "2026-06-24T02:30:00Z");
    assert_eq!(
        parse_date_flag("soon").err().unwrap(),
        "bad date \"soon\": use YYYY-MM-DD or an RFC 3339 timestamp"
    );
}

#[test]
fn push_prop_key_trims_lowercases_and_keeps_keys_once() {
    let mut keys: Vec<String> = Vec::new();
    push_prop_key(&mut keys, "  Source ");
    push_prop_key(&mut keys, "source");
    push_prop_key(&mut keys, "   ");
    push_prop_key(&mut keys, "Verified");
    assert_eq!(keys, vec!["source".to_string(), "verified".to_string()]);
}

#[test]
fn export_refuses_conflicting_flags() {
    let both = ExportFlags { tag: Some("t".into()), manifest: Some("m.toml".into()), ..Default::default() };
    assert_eq!(export_plan(&both, None), Err("--tag and --manifest are mutually exclusive selectors".to_string()));
    let non_root = ExportFlags { include_non_root: true, ..Default::default() };
    assert_eq!(export_plan(&non_root, None), Err("--include-non-root only applies with --tag".to_string()));
    let raw_manifest = ExportFlags { manifest: Some("m.toml".into()), raw: true, ..Default::default() };
    assert!(export_plan(&raw_manifest, None).unwrap_err().starts_with("--follow-links and --raw don't apply to --manifest"));
}

#[test]
fn export_chooses_tag_manifest_default_or_all_roots() {
    let tag = ExportFlags { tag: Some("ops".into()), include_non_root: true, raw: true, ..Default::default() };
    assert_eq!(
        export_plan(&tag, Some("v/export.toml".into())),
        Ok(ExportChoice::Slugs {
            selection: ExportSelection::Tag { name: "ops".into(), include_non_root: true },
            follow_links: false,
            raw: true,
        })
    );
    let manifest = ExportFlags { manifest: Some("m.json".into()), ..Default::default() };
    assert_eq!(export_plan(&manifest, Some("v/export.toml".into())), Ok(ExportChoice::Manifest("m.json".into())));
    let none = ExportFlags::default();
    assert_eq!(export_plan(&none, Some("v/export.toml".into())), Ok(ExportChoice::Manifest("v/export.toml".into())));
    let all = ExportChoice::Slugs { selection: ExportSelection::AllRoots, follow_links: false, raw: false };
    assert_eq!(export_plan(&none, None), Ok(all.clone()));
    let follow = ExportFlags { follow_links: true, ..Default::default() };
    assert_eq!(
        export_plan(&follow, Some("v/export.toml".into())),
        Ok(ExportChoice::Slugs { selection: ExportSelection::AllRoots, follow_links: true, raw: false })
    );
    assert_eq!(export_root(&none, &all), "docs-export");
    assert_eq!(export_root(&none, &ExportChoice::Manifest("m".into())), ".");
    let rooted = ExportFlags { root: Some("out".into()), ..Default::default() };
    assert_eq!(export_root(&rooted, &all), "out");
}

#[test]
fn export_reports_drift_and_writes() {
    assert_eq!(doc_status(None, "x"), DocStatus::Created);
    assert_eq!(doc_status(Some("x"), "x"), DocStatus::Unchanged);
    assert_eq!(doc_status(Some("y"), "x"), DocStatus::Updated);
    let docs = vec![("a.md".to_string(), "A".to_string()), ("b.md".to_string(), "B".to_string()), ("c.md".to_string(), "C".to_string())];
    let current = vec![Some("A".to_string()), None, Some("old".to_string())];
    assert_eq!(drifted_paths(&docs, &current), vec!["b.md".to_string(), "c.md".to_string()]);
    assert_eq!(export_outcome(true, 3, 0, 0), Ok("up to date (3 doc(s))".to_string()));
    assert_eq!(export_outcome(true, 3, 2, 0), Err("2 doc(s) out of date; run `mdkb export` to regenerate".to_string()));
    assert_eq!(export_outcome(false, 12, 10, 4), Ok("exported 12 doc(s) (4 written)".to_string()));
}
