//! Command-line configuration of the daemon and of its clients: flags are parsed into the
//! daemon's paths (see [`crate::paths`]) and options. What the environment supplies (the
//! default vault, `$MDKB_TOKEN`) is handed in.

use vstd::prelude::*;
use crate::paths::{index_dir_of, join_path, DaemonPaths};
use crate::numeric::{int_of, parse_u64};
use crate::text::{chars_of, copy_range, push_str, starts_with, string_from, trim, trim_bounds};
use crate::vault::{debug_quoted, debug_text};

verus! {

/// What the environment supplies to path resolution.
#[derive(Debug, Clone)]
pub struct PathEnv {
    /// The vault used when none is given (`$MDKB_VAULT`, else `~/mdkb-vault`, ...).
    pub default_vault: String,
}

pub open spec fn opt_view(o: Option<String>) -> Option<Seq<char>> {
    match o {
        Some(s) => Some(s@),
        None => None,
    }
}

/// The daemon paths for `vault`: the database and socket live in `<vault>/.mdkb`.
pub open spec fn paths_for(vault: Seq<char>, env: PathEnv) -> (Seq<char>, Seq<char>, Seq<char>) {
    let dir = index_dir_of(vault);
    (vault, join_path(dir, "index.db"@), join_path(dir, "mdkbd.sock"@))
}

pub(crate) fn paths_in(vault: &str, env: &PathEnv) -> (r: DaemonPaths)
    ensures
        (r.vault@, r.db@, r.socket@) == paths_for(vault@, *env),
{
    DaemonPaths::from_vault_in(vault, None, vault)
}

impl DaemonPaths {
    /// The standard paths for `vault` in the environment `env` (see [`paths_for`]).
    pub fn from_vault(vault: &str, env: &PathEnv) -> (r: DaemonPaths)
        ensures
            (r.vault@, r.db@, r.socket@) == paths_for(vault@, *env),
    {
        paths_in(vault, env)
    }

    /// The standard paths for the environment's default vault.
    pub fn for_default_vault(env: &PathEnv) -> (r: DaemonPaths)
        ensures
            (r.vault@, r.db@, r.socket@) == paths_for(env.default_vault@, *env),
    {
        paths_in(env.default_vault.as_str(), env)
    }
}

/// The value that follows a flag at `i`, if any.
pub open spec fn next_arg(args: Seq<Seq<char>>, i: int) -> Option<Seq<char>> {
    if i + 1 < args.len() {
        Some(args[i + 1])
    } else {
        None
    }
}

/// The vault, socket and database flags of `args[i..]` on top of `st` (a later flag wins; a
/// flag with no value after it clears its setting), or the unknown argument's message.
pub open spec fn path_flags(
    args: Seq<Seq<char>>,
    i: int,
    st: (Option<Seq<char>>, Option<Seq<char>>, Option<Seq<char>>),
) -> Result<(Option<Seq<char>>, Option<Seq<char>>, Option<Seq<char>>), Seq<char>>
    decreases args.len() + 1 - i,
{
    if i < 0 || i >= args.len() {
        Ok(st)
    } else {
        let a = args[i];
        if a == "--vault"@ {
            path_flags(args, i + 2, (next_arg(args, i), st.1, st.2))
        } else if a == "--socket"@ {
            path_flags(args, i + 2, (st.0, next_arg(args, i), st.2))
        } else if a == "--db"@ {
            path_flags(args, i + 2, (st.0, st.1, next_arg(args, i)))
        } else if starts_with(a, "--vault="@) {
            path_flags(args, i + 1, (Some(a.skip(8)), st.1, st.2))
        } else if starts_with(a, "--socket="@) {
            path_flags(args, i + 1, (st.0, Some(a.skip(9)), st.2))
        } else if starts_with(a, "--db="@) {
            path_flags(args, i + 1, (st.0, st.1, Some(a.skip(5))))
        } else {
            Err("unknown argument: "@ + a)
        }
    }
}

pub open spec fn args_view(args: Seq<String>) -> Seq<Seq<char>> {
    args.map_values(|s: String| s@)
}

/// The text after `n` leading characters.
fn suffix_from(a: &Vec<char>, n: usize) -> (r: String)
    requires
        n <= a@.len(),
    ensures
        r@ == a@.skip(n as int),
{
    let v = copy_range(a, n, a.len());
    assert(v@ =~= a@.skip(n as int));
    string_from(&v)
}

fn clone_next(args: &[String], i: usize) -> (r: Option<String>)
    requires
        i < args@.len(),
    ensures
        opt_view(r) == next_arg(args_view(args@), i as int),
{
    if args.len() - i > 1 {
        Some(args[i + 1].clone())
    } else {
        None
    }
}

/// Parse the vault, socket and database flags of `args`.
fn parse_path_flags(args: &[String]) -> (r: Result<(Option<String>, Option<String>, Option<String>), String>)
    ensures
        match path_flags(args_view(args@), 0, (None, None, None)) {
            Ok(st) => r matches Ok(v) && (opt_view(v.0), opt_view(v.1), opt_view(v.2)) == st,
            Err(m) => r matches Err(e) && e@ == m,
        },
{
    let ghost av = args_view(args@);
    let mut vault: Option<String> = None;
    let mut socket: Option<String> = None;
    let mut db: Option<String> = None;
    let mut i: usize = 0;
    while i < args.len()
        invariant
            av == args_view(args@),
            path_flags(av, 0, (None, None, None)) == path_flags(
                av,
                i as int,
                (opt_view(vault), opt_view(socket), opt_view(db)),
            ),
        decreases args.len() - i,
    {
        let a = chars_of(args[i].as_str());
        assert(av[i as int] == a@);
        assert(a@.subrange(0, a@.len() as int) =~= a@);
        proof {
            reveal_strlit("--vault=");
            reveal_strlit("--socket=");
            reveal_strlit("--db=");
        }
        if crate::text::str_eq(args[i].as_str(), "--vault") {
            vault = clone_next(args, i);
            if args.len() - i <= 1 {
                let ghost cur = (opt_view(vault), opt_view(socket), opt_view(db));
                assert(path_flags(av, i + 2, cur) == path_flags(av, args@.len() as int, cur));
                i = args.len();
            } else {
                i += 2;
            }
        } else if crate::text::str_eq(args[i].as_str(), "--socket") {
            socket = clone_next(args, i);
            if args.len() - i <= 1 {
                let ghost cur = (opt_view(vault), opt_view(socket), opt_view(db));
                assert(path_flags(av, i + 2, cur) == path_flags(av, args@.len() as int, cur));
                i = args.len();
            } else {
                i += 2;
            }
        } else if crate::text::str_eq(args[i].as_str(), "--db") {
            db = clone_next(args, i);
            if args.len() - i <= 1 {
                let ghost cur = (opt_view(vault), opt_view(socket), opt_view(db));
                assert(path_flags(av, i + 2, cur) == path_flags(av, args@.len() as int, cur));
                i = args.len();
            } else {
                i += 2;
            }
        } else if crate::text::has_prefix_str(&a, 0, a.len(), "--vault=") {
            assert(a@.subrange(0, a@.len() as int) =~= a@);
            vault = Some(suffix_from(&a, 8));
            i += 1;
        } else if crate::text::has_prefix_str(&a, 0, a.len(), "--socket=") {
            assert(a@.subrange(0, a@.len() as int) =~= a@);
            socket = Some(suffix_from(&a, 9));
            i += 1;
        } else if crate::text::has_prefix_str(&a, 0, a.len(), "--db=") {
            assert(a@.subrange(0, a@.len() as int) =~= a@);
            db = Some(suffix_from(&a, 5));
            i += 1;
        } else {
            assert(a@.subrange(0, a@.len() as int) =~= a@);
            let mut m: Vec<char> = Vec::new();
            push_str(&mut m, "unknown argument: ");
            crate::text::push_all(&mut m, &a);
            return Err(string_from(&m));
        }
    }
    Ok((vault, socket, db))
}

/// The daemon paths `args` select: the vault flag (else the environment's default vault)
/// decides the standard paths, and explicit socket and database flags override them.
pub open spec fn paths_from(args: Seq<Seq<char>>, env: PathEnv) -> Result<(Seq<char>, Seq<char>, Seq<char>), Seq<char>> {
    match path_flags(args, 0, (None, None, None)) {
        Err(m) => Err(m),
        Ok(st) => {
            let vault = match st.0 {
                Some(v) => v,
                None => env.default_vault@,
            };
            let p = paths_for(vault, env);
            Ok(
                (
                    p.0,
                    match st.2 {
                        Some(d) => d,
                        None => p.1,
                    },
                    match st.1 {
                        Some(s) => s,
                        None => p.2,
                    },
                ),
            )
        },
    }
}

/// Resolve daemon paths from client flags (`--vault`, `--socket`, `--db`, also as
/// `--flag=value`) in the given environment.
pub fn paths_from_args(args: &[String], env: &PathEnv) -> (r: Result<DaemonPaths, String>)
    ensures
        match paths_from(args_view(args@), *env) {
            Ok(p) => r matches Ok(d) && (d.vault@, d.db@, d.socket@) == p,
            Err(m) => r matches Err(e) && e@ == m,
        },
{
    let (vault, socket, db) = match parse_path_flags(args) {
        Ok(st) => st,
        Err(e) => return Err(e),
    };
    let v = match vault {
        Some(v) => v,
        None => env.default_vault.clone(),
    };
    let mut paths = paths_in(v.as_str(), env);
    if let Some(s) = socket {
        paths.socket = s;
    }
    if let Some(d) = db {
        paths.db = d;
    }
    Ok(paths)
}

/// The daemon's configuration.
#[derive(Debug, Clone)]
pub struct Config {
    /// Resolved paths.
    pub paths: DaemonPaths,
    /// Optional network listen address (e.g. `0.0.0.0:7820`); `None` serves the local socket only.
    pub listen: Option<String>,
    /// Shared token for network authentication (required when `listen` is set).
    pub token: Option<String>,
    /// Seconds without requests after which the daemon shuts itself down; `None` runs forever.
    pub idle_timeout: Option<u64>,
    /// Whether help was requested.
    pub help: bool,
}

impl Config {
    /// Usage text.
    pub fn usage() -> (r: &'static str)
        ensures
            r@ == USAGE@,
    {
        USAGE
    }

    /// Vault directory.
    pub fn vault(&self) -> (r: &str)
        ensures
            r@ == self.paths.vault@,
    {
        self.paths.vault.as_str()
    }

    /// Index database path.
    pub fn db(&self) -> (r: &str)
        ensures
            r@ == self.paths.db@,
    {
        self.paths.db.as_str()
    }

    /// Socket path.
    pub fn socket(&self) -> (r: &str)
        ensures
            r@ == self.paths.socket@,
    {
        self.paths.socket.as_str()
    }
}

// ---------------------------------------------------------------------------------------------
// The daemon's own flags.
// ---------------------------------------------------------------------------------------------

/// The daemon's flags read so far.
pub struct DaemonFlags {
    pub vault: Option<Seq<char>>,
    pub db: Option<Seq<char>>,
    pub socket: Option<Seq<char>>,
    pub listen: Option<Seq<char>>,
    pub token: Option<Seq<char>>,
    pub idle: Option<u64>,
    pub help: bool,
}

/// The message for a flag given without its value.
pub open spec fn value_error(flag: Seq<char>) -> Seq<char> {
    flag + " requires a value"@
}

/// The message for an idle timeout that is no whole number of seconds.
pub open spec fn secs_error(v: Seq<char>) -> Seq<char> {
    "--idle-timeout expects a whole number of seconds, got "@ + debug_text(v)
}

/// The message refusing a network listener without a token.
pub open spec fn listen_needs_token() -> Seq<char> {
    "--listen requires a token (set --token or $MDKB_TOKEN); refusing to expose the network listener without auth"@
}

/// The seconds `v` spells (`str::parse::<u64>` of its trim).
pub open spec fn secs_of(v: Seq<char>) -> Option<u64> {
    match int_of(trim(v), false) {
        Some(n) => if 0 <= n <= u64::MAX {
            Some(n as u64)
        } else {
            None
        },
        None => None,
    }
}

pub open spec fn with_vault(st: DaemonFlags, v: Seq<char>) -> DaemonFlags {
    DaemonFlags { vault: Some(v), ..st }
}

pub open spec fn with_db(st: DaemonFlags, v: Seq<char>) -> DaemonFlags {
    DaemonFlags { db: Some(v), ..st }
}

pub open spec fn with_socket(st: DaemonFlags, v: Seq<char>) -> DaemonFlags {
    DaemonFlags { socket: Some(v), ..st }
}

pub open spec fn with_listen(st: DaemonFlags, v: Seq<char>) -> DaemonFlags {
    DaemonFlags { listen: Some(v), ..st }
}

pub open spec fn with_token(st: DaemonFlags, v: Seq<char>) -> DaemonFlags {
    DaemonFlags { token: Some(v), ..st }
}

/// The state after the valued flag numbered `k` at `args[i]`, whose value is the next argument.
pub open spec fn flag_value(args: Seq<Seq<char>>, i: int, st: DaemonFlags, k: int) -> Result<DaemonFlags, Seq<char>> {
    match next_arg(args, i) {
        None => Err(value_error(args[i])),
        Some(v) => set_flag(st, k, v),
    }
}

/// `st` with the flag numbered `k` (vault, db, socket, listen, token, idle timeout) set from `v`.
pub open spec fn set_flag(st: DaemonFlags, k: int, v: Seq<char>) -> Result<DaemonFlags, Seq<char>> {
    if k == 0 {
        Ok(with_vault(st, v))
    } else if k == 1 {
        Ok(with_db(st, v))
    } else if k == 2 {
        Ok(with_socket(st, v))
    } else if k == 3 {
        Ok(with_listen(st, v))
    } else if k == 4 {
        Ok(with_token(st, v))
    } else {
        match secs_of(v) {
            Some(n) => Ok(DaemonFlags { idle: Some(n), ..st }),
            None => Err(secs_error(v)),
        }
    }
}

/// The names of the daemon's valued flags, numbered as [`set_flag`] numbers them.
pub open spec fn flag_name(k: int) -> Seq<char> {
    if k == 0 {
        "--vault"@
    } else if k == 1 {
        "--db"@
    } else if k == 2 {
        "--socket"@
    } else if k == 3 {
        "--listen"@
    } else if k == 4 {
        "--token"@
    } else {
        "--idle-timeout"@
    }
}

/// The first valued flag `a` names by itself (`--flag`), if any.
pub open spec fn bare_flag(a: Seq<char>) -> Option<int> {
    if a == flag_name(0) {
        Some(0)
    } else if a == flag_name(1) {
        Some(1)
    } else if a == flag_name(2) {
        Some(2)
    } else if a == flag_name(3) {
        Some(3)
    } else if a == flag_name(4) {
        Some(4)
    } else if a == flag_name(5) {
        Some(5)
    } else {
        None
    }
}

/// The first valued flag `a` gives inline (`--flag=value`), if any.
pub open spec fn inline_flag(a: Seq<char>) -> Option<int> {
    if starts_with(a, flag_name(0) + "="@) {
        Some(0)
    } else if starts_with(a, flag_name(1) + "="@) {
        Some(1)
    } else if starts_with(a, flag_name(2) + "="@) {
        Some(2)
    } else if starts_with(a, flag_name(3) + "="@) {
        Some(3)
    } else if starts_with(a, flag_name(4) + "="@) {
        Some(4)
    } else if starts_with(a, flag_name(5) + "="@) {
        Some(5)
    } else {
        None
    }
}

/// The daemon's flags in `args[i..]` on top of `st`: `--help`/`-h`, and `--vault`, `--db`,
/// `--socket`, `--listen`, `--token`, `--idle-timeout` with their value as the next argument or
/// after `=`; a later flag wins. A flag missing its value, a bad idle timeout and an unknown
/// argument are refused with their message.
pub open spec fn daemon_flags(args: Seq<Seq<char>>, i: int, st: DaemonFlags) -> Result<DaemonFlags, Seq<char>>
    decreases args.len() + 1 - i,
{
    if i < 0 || i >= args.len() {
        Ok(st)
    } else {
        let a = args[i];
        if a == "--help"@ || a == "-h"@ {
            daemon_flags(args, i + 1, DaemonFlags { help: true, ..st })
        } else if bare_flag(a) is Some {
            match flag_value(args, i, st, bare_flag(a)->0) {
                Ok(next) => daemon_flags(args, i + 2, next),
                Err(m) => Err(m),
            }
        } else if inline_flag(a) is Some {
            let k = inline_flag(a)->0;
            match set_flag(st, k, a.skip(flag_name(k).len() as int + 1)) {
                Ok(next) => daemon_flags(args, i + 1, next),
                Err(m) => Err(m),
            }
        } else {
            Err("unknown argument: "@ + a)
        }
    }
}

/// The flags a daemon starts from: the token from the environment, when it is non-empty.
pub open spec fn initial_flags(env_token: Option<Seq<char>>) -> DaemonFlags {
    DaemonFlags {
        vault: None,
        db: None,
        socket: None,
        listen: None,
        token: match env_token {
            Some(t) => if t.len() > 0 {
                Some(t)
            } else {
                None
            },
            None => None,
        },
        idle: None,
        help: false,
    }
}

/// The daemon configuration `args` give, as `(paths, listen, token, idle timeout, help)`: the
/// flags read, a listener refused without a non-empty token, the paths of the chosen vault with
/// explicit database and socket overriding them, and an idle timeout of zero meaning none.
pub open spec fn config_of(args: Seq<Seq<char>>, env_token: Option<Seq<char>>, env: PathEnv) -> Result<
    ((Seq<char>, Seq<char>, Seq<char>), Option<Seq<char>>, Option<Seq<char>>, Option<u64>, bool),
    Seq<char>,
> {
    match daemon_flags(args, 0, initial_flags(env_token)) {
        Err(m) => Err(m),
        Ok(st) => if st.listen is Some && (match st.token {
            Some(t) => t.len() == 0,
            None => true,
        }) {
            Err(listen_needs_token())
        } else {
            let vault = match st.vault {
                Some(v) => v,
                None => env.default_vault@,
            };
            let p = paths_for(vault, env);
            Ok(
                (
                    (
                        p.0,
                        match st.db {
                            Some(d) => d,
                            None => p.1,
                        },
                        match st.socket {
                            Some(x) => x,
                            None => p.2,
                        },
                    ),
                    st.listen,
                    st.token,
                    match st.idle {
                        Some(n) => if n > 0 {
                            Some(n)
                        } else {
                            None
                        },
                        None => None,
                    },
                    st.help,
                ),
            )
        },
    }
}

/// The daemon's flags as they are read.
struct FlagsExec {
    vault: Option<String>,
    db: Option<String>,
    socket: Option<String>,
    listen: Option<String>,
    token: Option<String>,
    idle: Option<u64>,
    help: bool,
}

impl View for FlagsExec {
    type V = DaemonFlags;

    closed spec fn view(&self) -> DaemonFlags {
        DaemonFlags {
            vault: opt_view(self.vault),
            db: opt_view(self.db),
            socket: opt_view(self.socket),
            listen: opt_view(self.listen),
            token: opt_view(self.token),
            idle: self.idle,
            help: self.help,
        }
    }
}

fn flag_name_exec(k: usize) -> (r: &'static str)
    requires
        k < 6,
    ensures
        r@ == flag_name(k as int),
{
    if k == 0 {
        "--vault"
    } else if k == 1 {
        "--db"
    } else if k == 2 {
        "--socket"
    } else if k == 3 {
        "--listen"
    } else if k == 4 {
        "--token"
    } else {
        "--idle-timeout"
    }
}

/// The seconds of an `--idle-timeout` value, or its message.
fn parse_secs(v: &str) -> (r: Result<u64, String>)
    ensures
        match secs_of(v@) {
            Some(n) => r matches Ok(x) && x == n,
            None => r matches Err(m) && m@ == secs_error(v@),
        },
{
    let c = chars_of(v);
    let (a, b) = trim_bounds(&c, 0, c.len());
    assert(c@.subrange(0, c@.len() as int) =~= c@);
    let t = copy_range(&c, a, b);
    match parse_u64(&t) {
        Some(n) => Ok(n),
        None => {
            let q = debug_quoted(v);
            let mut m: Vec<char> = Vec::new();
            push_str(&mut m, "--idle-timeout expects a whole number of seconds, got ");
            push_str(&mut m, q.as_str());
            Err(string_from(&m))
        },
    }
}

fn set_flag_exec(st: &mut FlagsExec, k: usize, v: String) -> (r: Result<(), String>)
    requires
        k < 6,
    ensures
        match set_flag(old(st)@, k as int, v@) {
            Ok(n) => r is Ok && final(st)@ == n,
            Err(m) => r matches Err(e) && e@ == m,
        },
{
    if k == 0 {
        st.vault = Some(v);
    } else if k == 1 {
        st.db = Some(v);
    } else if k == 2 {
        st.socket = Some(v);
    } else if k == 3 {
        st.listen = Some(v);
    } else if k == 4 {
        st.token = Some(v);
    } else {
        match parse_secs(v.as_str()) {
            Ok(n) => st.idle = Some(n),
            Err(m) => return Err(m),
        }
    }
    Ok(())
}

/// The valued flag `a` names by itself, if any (see [`bare_flag`]).
fn bare_flag_exec(a: &str) -> (r: Option<usize>)
    ensures
        match bare_flag(a@) {
            Some(k) => r == Some(k as usize) && k < 6,
            None => r is None,
        },
{
    let mut k: usize = 0;
    while k < 6
        invariant
            k <= 6,
            forall|j: int| 0 <= j < k ==> a@ != #[trigger] flag_name(j),
        decreases 6 - k,
    {
        if crate::text::str_eq(a, flag_name_exec(k)) {
            return Some(k);
        }
        k += 1;
    }
    assert(a@ != flag_name(0) && a@ != flag_name(1) && a@ != flag_name(2));
    assert(a@ != flag_name(3) && a@ != flag_name(4) && a@ != flag_name(5));
    None
}

/// The valued flag `a` gives inline, if any (see [`inline_flag`]).
fn inline_flag_exec(a: &Vec<char>) -> (r: Option<usize>)
    ensures
        match inline_flag(a@) {
            Some(k) => r == Some(k as usize) && k < 6,
            None => r is None,
        },
        r matches Some(k) ==> starts_with(a@, flag_name(k as int) + "="@),
{
    assert(a@.subrange(0, a@.len() as int) =~= a@);
    let mut k: usize = 0;
    while k < 6
        invariant
            k <= 6,
            a@.subrange(0, a@.len() as int) == a@,
            forall|j: int| 0 <= j < k ==> !starts_with(a@, #[trigger] flag_name(j) + "="@),
        decreases 6 - k,
    {
        let mut p: Vec<char> = Vec::new();
        push_str(&mut p, flag_name_exec(k));
        p.push('=');
        proof {
            reveal_strlit("=");
            assert(p@ =~= flag_name(k as int) + "="@);
        }
        if crate::text::has_prefix_at(a, 0, a.len(), &p) {
            return Some(k);
        }
        k += 1;
    }
    assert(!starts_with(a@, flag_name(0) + "="@) && !starts_with(a@, flag_name(1) + "="@));
    assert(!starts_with(a@, flag_name(2) + "="@) && !starts_with(a@, flag_name(3) + "="@));
    assert(!starts_with(a@, flag_name(4) + "="@) && !starts_with(a@, flag_name(5) + "="@));
    None
}

impl Config {
    /// The daemon's configuration from its arguments (past the program name), the token the
    /// environment holds (`$MDKB_TOKEN`), and the path environment (see [`config_of`]).
    pub fn from_args(args: &[String], env_token: Option<&str>, env: &PathEnv) -> (r: Result<Config, String>)
        ensures
            match config_of(args_view(args@), crate::connect::opt_ref_view(env_token), *env) {
                Ok(c) => r matches Ok(cfg) && (cfg.paths.vault@, cfg.paths.db@, cfg.paths.socket@) == c.0
                    && opt_view(cfg.listen) == c.1 && opt_view(cfg.token) == c.2 && cfg.idle_timeout == c.3
                    && cfg.help == c.4,
                Err(m) => r matches Err(e) && e@ == m,
            },
    {
        let ghost av = args_view(args@);
        let token0: Option<String> = match env_token {
            Some(t) => if chars_of(t).len() > 0 {
                Some(t.to_owned())
            } else {
                None
            },
            None => None,
        };
        let mut st = FlagsExec {
            vault: None,
            db: None,
            socket: None,
            listen: None,
            token: token0,
            idle: None,
            help: false,
        };
        assert(st@ == initial_flags(crate::connect::opt_ref_view(env_token)));
        let mut i: usize = 0;
        while i < args.len()
            invariant
                av == args_view(args@),
                daemon_flags(av, 0, initial_flags(crate::connect::opt_ref_view(env_token))) == daemon_flags(
                    av,
                    i as int,
                    st@,
                ),
            decreases args.len() - i,
        {
            let a = chars_of(args[i].as_str());
            assert(av[i as int] == a@);
            proof {
                reveal_strlit("--help");
                reveal_strlit("-h");
            }
            if crate::text::str_eq(args[i].as_str(), "--help") || crate::text::str_eq(args[i].as_str(), "-h") {
                st.help = true;
                i += 1;
            } else if let Some(k) = bare_flag_exec(args[i].as_str()) {
                if args.len() - i <= 1 {
                    let mut m: Vec<char> = Vec::new();
                    crate::text::push_all(&mut m, &a);
                    push_str(&mut m, " requires a value");
                    proof {
                        reveal_strlit(" requires a value");
                    }
                    return Err(string_from(&m));
                }
                let v = args[i + 1].clone();
                assert(next_arg(av, i as int) == Some(v@));
                match set_flag_exec(&mut st, k, v) {
                    Ok(()) => {},
                    Err(m) => return Err(m),
                }
                i += 2;
            } else if let Some(k) = inline_flag_exec(&a) {
                let fname = chars_of(flag_name_exec(k));
                proof {
                    reveal_strlit("=");
                }
                assert(fname@.len() + 1 <= a@.len());
                let alen = a.len();
                assert(fname.len() < alen);
                let n = fname.len() + 1;
                proof {
                    reveal_strlit("=");
                    assert((flag_name(k as int) + "="@).len() == n);
                }
                let v = suffix_from(&a, n);
                match set_flag_exec(&mut st, k, v) {
                    Ok(()) => {},
                    Err(m) => return Err(m),
                }
                i += 1;
            } else {
                let mut m: Vec<char> = Vec::new();
                push_str(&mut m, "unknown argument: ");
                crate::text::push_all(&mut m, &a);
                return Err(string_from(&m));
            }
        }
        let listen_bad = match &st.listen {
            Some(_) => match &st.token {
                Some(t) => chars_of(t.as_str()).len() == 0,
                None => true,
            },
            None => false,
        };
        if listen_bad {
            return Err(
                "--listen requires a token (set --token or $MDKB_TOKEN); refusing to expose the network listener without auth".to_owned(),
            );
        }
        let vault = match st.vault {
            Some(v) => v,
            None => env.default_vault.clone(),
        };
        let mut paths = paths_in(vault.as_str(), env);
        if let Some(d) = st.db {
            paths.db = d;
        }
        if let Some(x) = st.socket {
            paths.socket = x;
        }
        let idle = match st.idle {
            Some(n) => if n > 0 {
                Some(n)
            } else {
                None
            },
            None => None,
        };
        Ok(Config { paths, listen: st.listen, token: st.token, idle_timeout: idle, help: st.help })
    }
}

/// The usage text of the daemon.
pub const USAGE: &'static str = "mdkbd \u{2014} mdkb headless daemon

usage:
  mdkbd [--vault <dir>] [--db <path>] [--socket <path>] [--listen <addr>] [--token <tok>] [--idle-timeout <secs>]

options:
  --vault <dir>     vault directory (default: $MDKB_VAULT or ~/mdkb-vault)
  --db <path>       index database (default: <vault>/.mdkb/index.db)
  --socket <path>   local socket: Unix socket / Windows named pipe (default: <vault>/.mdkb/mdkbd.sock)
  --listen <addr>   ALSO serve over TCP at <addr> (e.g. 0.0.0.0:7820); requires a token
  --token <tok>     shared token network clients must present ($MDKB_TOKEN also accepted)
  --idle-timeout <secs>  self-shutdown after <secs> with no requests AND no interactive lease
                         (0 = never; default: never when run manually)
  --help            show this help

The index and socket directory (<vault>/.mdkb) is local-only and must be excluded
from cloud sync; only the Markdown files are meant to sync.

The network listener is opt-in and fails closed: without a valid token, remote callers
are rejected. The Unix socket remains local-only and trusted.";

} // verus!
