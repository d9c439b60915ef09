use mdkb::conflict::{conflict_verdict, is_conflict_path};

#[test]
fn detects_onedrive_device_suffix() {
    assert!(is_conflict_path("notes/arch-DESKTOP-AB12CD.md"));
    assert!(is_conflict_path("queries-LAPTOP-99XY.md"));
    assert!(is_conflict_path("plan-MACBOOK-7F3K2.md"));
}

#[test]
fn detects_dropbox_and_syncthing() {
    assert!(is_conflict_path("a (conflicted copy 2026-01-02).md"));
    assert!(is_conflict_path("b.sync-conflict-20260102-foo.md"));
}

#[test]
fn does_not_misclassify_legitimate_titles() {
    assert!(!is_conflict_path("office-laptop-setup.md"));
    assert!(!is_conflict_path("sit-stand-desktop-guide.md"));
    assert!(!is_conflict_path("my-pc-build-notes.md"));
    assert!(!is_conflict_path("notes-desktop-tips.md"));
}

#[test]
fn normal_files_are_not_conflicts() {
    assert!(!is_conflict_path("notes/architecture.md"));
    assert!(!is_conflict_path("useful-queries.md"));
    assert!(!is_conflict_path("topic/project-x.md"));
}

#[test]
fn markers_match_ignoring_case_in_the_file_name_only() {
    assert!(is_conflict_path("X (Conflicted Copy 1).md"));
    assert!(!is_conflict_path("a (conflicted copy)/note.md"));
}

#[test]
fn conflict_verdict_combines_markers_and_suffix_match() {
    assert!(conflict_verdict("notes (conflicted copy 2024-01-01).md", None));
    assert!(conflict_verdict("a.sync-conflict-20240101-abc.md", Some(false)));
    assert!(conflict_verdict("plain.md", Some(true)));
    assert!(!conflict_verdict("plain.md", Some(false)));
    assert!(!conflict_verdict("plain.md", None));
}
