use mdkb::assets::{asset_candidate, asset_rel_path, orphan_assets, removable_asset_path};

#[test]
fn candidates_number_the_stem_before_the_extension() {
    assert_eq!(asset_candidate("diagram.png", 0), "diagram.png");
    assert_eq!(asset_candidate("diagram.png", 1), "diagram-1.png");
    assert_eq!(asset_candidate("archive.tar.gz", 12), "archive.tar-12.gz");
    assert_eq!(asset_candidate("README", 2), "README-2");
}

#[test]
fn rel_path_is_under_assets() {
    assert_eq!(asset_rel_path("x.png"), "assets/x.png");
}

#[test]
fn orphans_are_unreferenced_and_sorted() {
    let assets: Vec<String> = vec![
        "assets/z.png".into(),
        "assets/used.png".into(),
        "assets/a.png".into(),
        "assets/sub/kept.svg".into(),
    ];
    let bodies: Vec<String> = vec![
        "![](assets/used.png)\n".into(),
        "see ![](./assets/sub/kept.svg)".into(),
    ];
    assert_eq!(
        orphan_assets(&assets, &bodies),
        vec!["assets/a.png".to_string(), "assets/z.png".to_string()]
    );
    assert!(orphan_assets(&[], &bodies).is_empty());
}

#[test]
fn removal_is_confined_to_assets() {
    assert_eq!(removable_asset_path("assets/./x.png").unwrap(), "assets/x.png");
    assert_eq!(
        removable_asset_path("blocks/x.md").unwrap_err(),
        "not an asset path (must be under assets/): blocks/x.md"
    );
    assert!(removable_asset_path("assets/../blocks/x.md").is_err());
}
