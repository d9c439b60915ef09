use mdkb::appcore::{
    connection_status, is_active_entry, kept_token, link_outcome_label, local_vault_path,
    switch_vault, vault_rows,
};
use mdkb::connect::{ConnectionConfig, Registry, VaultEntry};
use mdkb::index::LinkOutcome;

fn local(v: &str) -> ConnectionConfig {
    ConnectionConfig::Local { vault: v.into() }
}

fn remote(h: &str, t: &str) -> ConnectionConfig {
    ConnectionConfig::Remote {
        host: h.into(),
        token: t.into(),
    }
}

fn registry() -> Registry {
    Registry {
        vaults: vec![
            VaultEntry {
                name: "personal".into(),
                connection: local("~/notes"),
            },
            VaultEntry {
                name: "team".into(),
                connection: remote("10.0.0.5:7820", "secret"),
            },
        ],
        default: Some("team".into()),
    }
}

#[test]
fn outcome_labels() {
    assert_eq!(link_outcome_label(LinkOutcome::Reference), "reference");
    assert_eq!(link_outcome_label(LinkOutcome::Transclusion), "transclusion");
    assert_eq!(link_outcome_label(LinkOutcome::DowngradedToReference), "downgraded");
}

#[test]
fn rows_mark_active_and_default() {
    let rows = vault_rows(&registry(), &local("~/notes"));
    assert_eq!(rows.len(), 2);
    assert_eq!(rows[0].name, "personal");
    assert_eq!(rows[0].kind, "local");
    assert_eq!(rows[0].target, "~/notes");
    assert!(rows[0].active);
    assert!(!rows[0].default);
    assert_eq!(rows[1].kind, "remote");
    assert_eq!(rows[1].target, "10.0.0.5:7820");
    assert!(!rows[1].active);
    assert!(rows[1].default);
}

#[test]
fn status_uses_registry_name_then_folder_then_host() {
    let reg = registry();
    let s = connection_status(&reg, &remote("10.0.0.5:7820", "secret"), "tcp:10.0.0.5:7820".into(), true);
    assert_eq!(s.label, "team (remote)");
    assert_eq!(s.endpoint, "tcp:10.0.0.5:7820");
    assert!(s.connected);
    let s = connection_status(&reg, &local("/home/u/work/"), "local:/x".into(), false);
    assert_eq!(s.label, "work (local)");
    let s = connection_status(&reg, &local("/"), "local:/x".into(), false);
    assert_eq!(s.label, "/ (local)");
    let s = connection_status(&reg, &remote("other:1", "t"), "tcp:other:1".into(), false);
    assert_eq!(s.label, "other:1 (remote)");
}

#[test]
fn switch_and_active_lookups() {
    let reg = registry();
    assert_eq!(switch_vault(&reg, "team").unwrap(), remote("10.0.0.5:7820", "secret"));
    assert_eq!(switch_vault(&reg, "nope").unwrap_err(), "no vault named \"nope\"");
    assert!(is_active_entry(&reg, "personal", &local("~/notes")));
    assert!(!is_active_entry(&reg, "team", &local("~/notes")));
    assert!(!is_active_entry(&reg, "ghost", &local("~/notes")));
}

#[test]
fn blank_token_keeps_the_stored_secret() {
    let reg = registry();
    assert_eq!(kept_token(&reg, "team", ""), "secret");
    assert_eq!(kept_token(&reg, "team", "new"), "new");
    assert_eq!(kept_token(&reg, "personal", ""), "");
    assert_eq!(kept_token(&reg, "ghost", ""), "");
}

#[test]
fn local_vault_path_expands_home_and_refuses_remote() {
    let reg = registry();
    assert_eq!(local_vault_path(&reg, "personal", Some("/home/u")).unwrap(), "/home/u/notes");
    assert_eq!(
        local_vault_path(&reg, "team", Some("/home/u")).unwrap_err(),
        "this is a remote vault \u{2014} nothing local to reveal"
    );
    assert_eq!(
        local_vault_path(&reg, "x", None).unwrap_err(),
        "no vault named \"x\""
    );
}
