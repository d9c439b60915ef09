use mdkb::config::{paths_from_args, PathEnv};
use mdkb::paths::{fnv1a64, index_dir_in, DaemonPaths};
use std::path::{Path, PathBuf};

#[test]
fn index_dir_uses_base_and_a_stable_vault_id() {
    let base = "/data/mdkb";
    let dir = index_dir_in("/home/me/vault", Some(base), "/home/me/vault");
    let dirp = PathBuf::from(&dir);
    assert_eq!(dirp.parent().unwrap(), Path::new(base));
    let id = dirp.file_name().unwrap().to_str().unwrap();
    assert_eq!(id.len(), 16);
    assert!(id.chars().all(|c| c.is_ascii_hexdigit()));
    assert_eq!(index_dir_in("/home/me/vault", Some(base), "/home/me/vault"), dir);
    assert_ne!(index_dir_in("/home/me/other", Some(base), "/home/me/other"), dir);
}

#[test]
fn index_dir_falls_back_to_in_vault_when_no_base() {
    assert_eq!(
        PathBuf::from(index_dir_in("/srv/vault", None, "/srv/vault")),
        PathBuf::from("/srv/vault/.mdkb")
    );
}

#[test]
fn fnv_is_stable_and_distinguishes() {
    assert_eq!(fnv1a64(b"hello"), fnv1a64(b"hello"));
    assert_ne!(fnv1a64(b"hello"), fnv1a64(b"world"));
    assert_eq!(fnv1a64(b""), 0xcbf2_9ce4_8422_2325);
    assert_eq!(fnv1a64(b"a"), 0xaf63_dc4c_8601_ec8c);
}

#[test]
fn db_and_socket_share_one_dir() {
    let p = DaemonPaths::from_vault_in("/tmp/v", Some("/state/mdkb"), "/tmp/v");
    assert_eq!(Path::new(&p.db).file_name().unwrap(), "index.db");
    assert_eq!(Path::new(&p.socket).file_name().unwrap(), "mdkbd.sock");
    assert_eq!(Path::new(&p.db).parent(), Path::new(&p.socket).parent());
    assert_eq!(Path::new(&p.mdkb_dir()), Path::new(&p.db).parent().unwrap());
    assert!(!p.db.starts_with("/tmp/v"));
}

fn env() -> PathEnv {
    PathEnv {
        default_vault: "/home/me/mdkb-vault".into(),
    }
}

#[test]
fn paths_from_args_defaults_and_overrides() {
    let p = paths_from_args(&["--vault".into(), "/tmp/v".into()], &env()).unwrap();
    assert_eq!(Path::new(&p.socket).file_name().unwrap(), "mdkbd.sock");
    let p2 = paths_from_args(&["--vault=/tmp/v".into(), "--socket=/run/x.sock".into()], &env())
        .unwrap();
    assert_eq!(PathBuf::from(&p2.socket), PathBuf::from("/run/x.sock"));
}

#[test]
fn paths_from_args_rejects_unknown() {
    assert!(paths_from_args(&["--bogus".into()], &env()).is_err());
}

#[test]
fn the_index_lives_in_the_vault() {
    let p = paths_from_args(&["--vault=/tmp/v".into()], &env()).unwrap();
    assert_eq!(p.db, "/tmp/v/.mdkb/index.db");
    assert_eq!(p.socket, "/tmp/v/.mdkb/mdkbd.sock");
    let rel = paths_from_args(&["--vault=notes".into()], &env()).unwrap();
    assert_eq!(rel.vault, "notes");
    assert_eq!(rel.db, "notes/.mdkb/index.db");
    let dflt = paths_from_args(&[], &env()).unwrap();
    assert_eq!(dflt.vault, "/home/me/mdkb-vault");
    assert_eq!(dflt.socket, "/home/me/mdkb-vault/.mdkb/mdkbd.sock");
    let inv = paths_from_args(&["--vault=/v".into(), "--db=/x.db".into()], &env()).unwrap();
    assert_eq!(inv.socket, "/v/.mdkb/mdkbd.sock");
    assert_eq!(inv.db, "/x.db");
}
