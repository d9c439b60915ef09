use mdkb::config::{Config, PathEnv};

fn env() -> PathEnv {
    PathEnv { default_vault: "/home/me/mdkb-vault".into() }
}

fn args(xs: &[&str]) -> Vec<String> {
    xs.iter().map(|s| s.to_string()).collect()
}

fn from(xs: &[&str]) -> Result<Config, String> {
    Config::from_args(&args(xs), None, &env())
}

#[test]
fn defaults_derive_from_vault() {
    let cfg = from(&["--vault", "/tmp/v"]).unwrap();
    assert_eq!(cfg.vault(), "/tmp/v");
    assert_eq!(cfg.db(), "/tmp/v/.mdkb/index.db");
    assert_eq!(cfg.socket(), "/tmp/v/.mdkb/mdkbd.sock");
}

#[test]
fn explicit_overrides_win() {
    let cfg = from(&["--vault=/tmp/v", "--db=/var/cache/i.db", "--socket=/run/m.sock"]).unwrap();
    assert_eq!(cfg.db(), "/var/cache/i.db");
    assert_eq!(cfg.socket(), "/run/m.sock");
}

#[test]
fn unknown_arg_errors() {
    assert!(from(&["--nope"]).is_err());
    assert_eq!(from(&["--nope"]).err().unwrap(), "unknown argument: --nope");
}

#[test]
fn idle_timeout_parses_and_zero_means_never() {
    let cfg = from(&["--vault=/tmp/v"]).unwrap();
    assert_eq!(cfg.idle_timeout, None);
    let cfg = from(&["--vault=/tmp/v", "--idle-timeout", "900"]).unwrap();
    assert_eq!(cfg.idle_timeout, Some(900));
    let cfg = from(&["--vault=/tmp/v", "--idle-timeout=30"]).unwrap();
    assert_eq!(cfg.idle_timeout, Some(30));
    let cfg = from(&["--vault=/tmp/v", "--idle-timeout=0"]).unwrap();
    assert_eq!(cfg.idle_timeout, None);
    assert!(from(&["--vault=/tmp/v", "--idle-timeout=soon"]).is_err());
}

#[test]
fn listen_requires_a_token() {
    let err = from(&["--listen=0.0.0.0:7820"]).unwrap_err();
    assert!(err.contains("token"));
    let cfg = from(&["--listen=0.0.0.0:7820", "--token=secret"]).unwrap();
    assert_eq!(cfg.listen.as_deref(), Some("0.0.0.0:7820"));
    assert_eq!(cfg.token.as_deref(), Some("secret"));
}

#[test]
fn the_environment_token_serves_a_listener_and_a_blank_one_does_not() {
    let cfg = Config::from_args(&args(&["--listen", "0.0.0.0:7820"]), Some("env-secret"), &env()).unwrap();
    assert_eq!(cfg.token.as_deref(), Some("env-secret"));
    assert!(Config::from_args(&args(&["--listen", "0.0.0.0:7820"]), Some(""), &env()).is_err());
}

#[test]
fn flag_values_messages_and_help() {
    assert_eq!(from(&["--db"]).err().unwrap(), "--db requires a value");
    assert_eq!(
        from(&["--idle-timeout= 9x"]).err().unwrap(),
        "--idle-timeout expects a whole number of seconds, got \" 9x\""
    );
    let cfg = from(&["-h", "--idle-timeout", " 12 "]).unwrap();
    assert!(cfg.help);
    assert_eq!(cfg.idle_timeout, Some(12));
    assert_eq!(cfg.vault(), "/home/me/mdkb-vault");
}
