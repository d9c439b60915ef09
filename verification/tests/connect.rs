use mdkb::config::PathEnv;
use mdkb::connect::{
    connect, connect_resolved, expand_user, resolve_target, Client, ClientInputs, ConnectStep,
    ConnectionConfig, EnvSnapshot, Registry, ResolvedTarget, Transport, VaultEntry,
};

const BUILTIN: &str = "/home/tester/mdkb-vault";

fn local(v: &str) -> ConnectionConfig {
    ConnectionConfig::Local { vault: v.into() }
}

fn no_env() -> EnvSnapshot {
    EnvSnapshot::default()
}

fn path_env() -> PathEnv {
    PathEnv {
        default_vault: BUILTIN.into(),
    }
}

#[test]
fn connect_remote_builds_tcp_client() {
    let step = connect(
        &ConnectionConfig::Remote {
            host: "h:7820".into(),
            token: "t".into(),
        },
        &path_env(),
    )
    .unwrap();
    match step {
        ConnectStep::Ready(c) => assert_eq!(c.endpoint(), "tcp:h:7820"),
        other => panic!("expected a ready client, got {other:?}"),
    }
}

#[test]
fn connect_refuses_blank_remote_host() {
    let r = connect(
        &ConnectionConfig::Remote {
            host: "  ".into(),
            token: "t".into(),
        },
        &path_env(),
    );
    assert_eq!(r.unwrap_err(), "remote host is empty");
}

#[test]
fn connect_local_needs_its_daemon_at_the_vault_paths() {
    match connect(&local("/v"), &path_env()).unwrap() {
        ConnectStep::EnsureDaemon(p) => {
            assert_eq!(p.vault, "/v");
            assert_eq!(p.db, "/v/.mdkb/index.db");
            assert_eq!(p.socket, "/v/.mdkb/mdkbd.sock");
        }
        other => panic!("expected a daemon to ensure, got {other:?}"),
    }
}

#[test]
fn connect_resolved_socket_is_ready() {
    let step = connect_resolved(
        ResolvedTarget::LocalSocket {
            socket: "/run/x.sock".into(),
        },
        &path_env(),
    );
    match step {
        ConnectStep::Ready(c) => {
            assert_eq!(c.endpoint(), "local:/run/x.sock");
            assert_eq!(c.socket(), "/run/x.sock");
        }
        other => panic!("expected a ready client, got {other:?}"),
    }
}

#[test]
fn describe_names_kind_and_target() {
    assert_eq!(local("/a").describe(), "local:/a");
    let r = ConnectionConfig::Remote {
        host: "h:1".into(),
        token: "secret".into(),
    };
    assert_eq!(r.describe(), "remote:h:1");
}

#[test]
fn client_descriptors() {
    let c = Client::new("/s.sock");
    assert!(!c.announces_app());
    let c = c.as_app();
    assert!(c.announces_app());
    assert_eq!(c.endpoint(), "local:/s.sock");
    let t = Client::tcp("h:2", "tok");
    assert_eq!(t.socket(), "");
    match t.transport() {
        Transport::Tcp { addr, token } => {
            assert_eq!(addr, "h:2");
            assert_eq!(token, "tok");
        }
        Transport::Local(_) => panic!("expected tcp"),
    }
}

#[test]
fn client_from_env_values_precedence() {
    let c = Client::from_env_values(Some(" h:3 "), Some("t"), Some("/s"), "/d.sock").unwrap();
    assert_eq!(c.endpoint(), "tcp:h:3");
    let e = Client::from_env_values(Some("h:3"), None, None, "/d.sock").unwrap_err();
    assert_eq!(
        e,
        "MDKB_REMOTE is set but MDKB_TOKEN is empty; a remote daemon requires a token"
    );
    let c = Client::from_env_values(Some("  "), None, Some("/s"), "/d.sock").unwrap();
    assert_eq!(c.endpoint(), "local:/s");
    let c = Client::from_env_values(None, None, Some(" "), "/d.sock").unwrap();
    assert_eq!(c.endpoint(), "local:/d.sock");
}

#[test]
fn env_snapshot_treats_blank_as_absent() {
    let e = EnvSnapshot::from_values(Some("  "), Some(" h:1 "), Some(""), None, Some("/home/u"), "/dv");
    assert_eq!(e.vault, None);
    assert_eq!(e.remote.as_deref(), Some("h:1"));
    assert_eq!(e.token, None);
    assert_eq!(e.socket, None);
    assert_eq!(e.home.as_deref(), Some("/home/u"));
    assert_eq!(e.default_vault, "/dv");
}

#[test]
fn expand_user_replaces_leading_tilde_only() {
    assert_eq!(expand_user("~/notes", Some("/home/tester")), "/home/tester/notes");
    assert_eq!(expand_user("~", Some("/home/tester")), "/home/tester");
    assert_eq!(expand_user("~other/x", Some("/home/tester")), "~other/x");
    assert_eq!(expand_user("/abs/~/x", Some("/home/tester")), "/abs/~/x");
    assert_eq!(expand_user("~/notes", None), "~/notes");
}

// ---------- registry ----------

#[test]
fn builtin_registry_has_one_default_entry() {
    let reg = Registry::builtin(BUILTIN);
    assert_eq!(reg.vaults.len(), 1);
    assert_eq!(reg.vaults[0].name, "default");
    assert_eq!(reg.default.as_deref(), Some("default"));
    assert_eq!(reg.default_connection("/other"), local(BUILTIN));
}

#[test]
fn default_connection_resolves_named_default() {
    let reg = Registry {
        vaults: vec![
            VaultEntry {
                name: "a".into(),
                connection: local("/a"),
            },
            VaultEntry {
                name: "b".into(),
                connection: local("/b"),
            },
        ],
        default: Some("b".into()),
    };
    assert_eq!(reg.default_connection(BUILTIN), local("/b"));
}

#[test]
fn default_connection_missing_name_falls_back_to_builtin_not_another_vault() {
    let reg = Registry {
        vaults: vec![VaultEntry {
            name: "a".into(),
            connection: local("/a"),
        }],
        default: Some("ghost".into()),
    };
    assert_eq!(reg.default_connection(BUILTIN), local(BUILTIN));
}

#[test]
fn default_connection_none_uses_first_then_builtin() {
    let with = Registry {
        vaults: vec![VaultEntry {
            name: "a".into(),
            connection: local("/a"),
        }],
        default: None,
    };
    assert_eq!(with.default_connection(BUILTIN), local("/a"));
    let empty = Registry::default();
    assert_eq!(empty.default_connection(BUILTIN), local(BUILTIN));
}

#[test]
fn set_default_connection_creates_then_updates_default_entry() {
    let mut reg = Registry::default();
    reg.set_default_connection(local("/x"));
    assert_eq!(reg.default.as_deref(), Some("default"));
    assert_eq!(reg.vaults.len(), 1);
    reg.set_default_connection(local("/y"));
    assert_eq!(reg.vaults.len(), 1);
    assert_eq!(reg.default_connection(BUILTIN), local("/y"));
}

#[test]
fn set_default_connection_keeps_a_named_default() {
    let mut reg = Registry {
        vaults: vec![
            VaultEntry {
                name: "a".into(),
                connection: local("/a"),
            },
            VaultEntry {
                name: "work".into(),
                connection: local("/w"),
            },
        ],
        default: Some("work".into()),
    };
    reg.set_default_connection(local("/w2"));
    assert_eq!(reg.vaults.len(), 2);
    assert_eq!(reg.vaults[0].connection, local("/a"));
    assert_eq!(reg.vaults[1].name, "work");
    assert_eq!(reg.default_connection(BUILTIN), local("/w2"));
}

// ---------- pure resolver ----------

#[test]
fn resolve_explicit_vault_beats_everything() {
    let inputs = ClientInputs {
        vault: Some("/explicit".into()),
        ..Default::default()
    };
    let env = EnvSnapshot {
        remote: Some("h:1".into()),
        token: Some("t".into()),
        ..Default::default()
    };
    let reg = ConnectionConfig::Remote {
        host: "reg:1".into(),
        token: "t".into(),
    };
    assert_eq!(
        resolve_target(&inputs, &env, Some(&reg)).unwrap(),
        ResolvedTarget::LocalVault {
            vault: "/explicit".into()
        }
    );
}

#[test]
fn resolve_env_beats_registry_default() {
    let env = EnvSnapshot {
        vault: Some("/from-env".into()),
        ..Default::default()
    };
    let reg = local("/from-registry");
    assert_eq!(
        resolve_target(&ClientInputs::default(), &env, Some(&reg)).unwrap(),
        ResolvedTarget::LocalVault {
            vault: "/from-env".into()
        }
    );
}

#[test]
fn resolve_registry_default_when_no_flag_or_env() {
    let reg = local("/from-registry");
    assert_eq!(
        resolve_target(&ClientInputs::default(), &no_env(), Some(&reg)).unwrap(),
        ResolvedTarget::LocalVault {
            vault: "/from-registry".into()
        }
    );
}

#[test]
fn resolve_builtin_when_nothing_configured() {
    let env = EnvSnapshot {
        default_vault: BUILTIN.into(),
        ..Default::default()
    };
    assert_eq!(
        resolve_target(&ClientInputs::default(), &env, None).unwrap(),
        ResolvedTarget::LocalVault {
            vault: BUILTIN.into()
        }
    );
}

#[test]
fn resolve_remote_requires_a_token() {
    let inputs = ClientInputs {
        remote: Some("h:7820".into()),
        ..Default::default()
    };
    assert!(resolve_target(&inputs, &no_env(), None).is_err());
    let env = EnvSnapshot {
        token: Some("t".into()),
        ..Default::default()
    };
    assert_eq!(
        resolve_target(&inputs, &env, None).unwrap(),
        ResolvedTarget::Remote {
            host: "h:7820".into(),
            token: "t".into()
        }
    );
}

#[test]
fn resolve_remote_error_names_the_host() {
    let inputs = ClientInputs {
        remote: Some("h:7820".into()),
        ..Default::default()
    };
    assert_eq!(
        resolve_target(&inputs, &no_env(), None).unwrap_err(),
        "remote daemon h:7820 requires a token (set --token or $MDKB_TOKEN)"
    );
}

#[test]
fn resolve_registry_remote_needs_a_nonblank_token() {
    let reg = ConnectionConfig::Remote {
        host: "reg:1".into(),
        token: "  ".into(),
    };
    assert!(resolve_target(&ClientInputs::default(), &no_env(), Some(&reg)).is_err());
    let reg = ConnectionConfig::Remote {
        host: "reg:1".into(),
        token: " tk ".into(),
    };
    assert_eq!(
        resolve_target(&ClientInputs::default(), &no_env(), Some(&reg)).unwrap(),
        ResolvedTarget::Remote {
            host: "reg:1".into(),
            token: "tk".into()
        }
    );
}

#[test]
fn resolve_expands_tilde_in_vault() {
    let inputs = ClientInputs {
        vault: Some("~/notes".into()),
        ..Default::default()
    };
    let env = EnvSnapshot {
        home: Some("/home/tester".into()),
        ..Default::default()
    };
    assert_eq!(
        resolve_target(&inputs, &env, None).unwrap(),
        ResolvedTarget::LocalVault {
            vault: "/home/tester/notes".into()
        }
    );
}

#[test]
fn resolve_socket_beats_vault_within_a_layer() {
    let inputs = ClientInputs {
        vault: Some("/v".into()),
        socket: Some("/run/x.sock".into()),
        ..Default::default()
    };
    assert_eq!(
        resolve_target(&inputs, &no_env(), None).unwrap(),
        ResolvedTarget::LocalSocket {
            socket: "/run/x.sock".into()
        }
    );
}

#[test]
fn from_env_resolves_remote_socket_and_default() {
    let c = Client::from_env_values(None, None, None, "/home/u/mdkb-vault/.mdkb/mdkbd.sock").unwrap();
    assert!(c.endpoint().starts_with("local:"));
}

#[test]
fn a_blank_explicit_token_is_no_token() {
    let inputs = ClientInputs {
        remote: Some("h:1".into()),
        token: Some("  ".into()),
        ..Default::default()
    };
    let r = resolve_target(&inputs, &EnvSnapshot::default(), None);
    assert_eq!(r.err().unwrap(), "remote daemon h:1 requires a token (set --token or $MDKB_TOKEN)");
}
