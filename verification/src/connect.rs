//! Where a client connects. A client (the desktop app, the CLI, the MCP server) either talks to
//! the daemon of a vault on this machine or to a remote daemon over TCP with a shared token.
//! This module holds the vault registry, the precedence that picks a target from flags, the
//! environment and the registry, and the client's transport descriptor. Reading the
//! environment, the registry file and the sockets themselves happens around these decisions.

use vstd::prelude::*;
use crate::block::{clone_opt, opt_str_view};
use crate::config::{paths_for, paths_in, PathEnv};
use crate::paths::{join_path, DaemonPaths};
use crate::text::{chars_of, copy_range, push_str, starts_with, str_eq, string_from, trim, trim_bounds};

verus! {

/// Where a client should connect, as saved in the client's registry.
#[derive(Debug, Clone, PartialEq, Eq)]
pub enum ConnectionConfig {
    /// A local vault directory; the client ensures a daemon is running for it.
    Local {
        /// Vault root (Markdown directory).
        vault: String,
    },
    /// A remote daemon over TCP, authenticated with a shared token.
    Remote {
        /// `host:port` of the remote daemon.
        host: String,
        /// Shared token the remote daemon requires.
        token: String,
    },
}

/// The mathematical value of a [`ConnectionConfig`].
pub enum ConnView {
    Local(Seq<char>),
    Remote(Seq<char>, Seq<char>),
}

impl View for ConnectionConfig {
    type V = ConnView;

    open spec fn view(&self) -> ConnView {
        match self {
            ConnectionConfig::Local { vault } => ConnView::Local(vault@),
            ConnectionConfig::Remote { host, token } => ConnView::Remote(host@, token@),
        }
    }
}

/// The short description of a connection: `local:<vault>` or `remote:<host>`.
pub open spec fn describe_of(c: ConnView) -> Seq<char> {
    match c {
        ConnView::Local(v) => "local:"@ + v,
        ConnView::Remote(h, _) => "remote:"@ + h,
    }
}

impl ConnectionConfig {
    /// A copy of this connection.
    pub fn duplicate(&self) -> (r: ConnectionConfig)
        ensures
            r@ == self@,
    {
        match self {
            ConnectionConfig::Local { vault } => ConnectionConfig::Local { vault: vault.clone() },
            ConnectionConfig::Remote { host, token } => ConnectionConfig::Remote {
                host: host.clone(),
                token: token.clone(),
            },
        }
    }

    /// A short human description of this connection (for UI and logs).
    pub fn describe(&self) -> (r: String)
        ensures
            r@ == describe_of(self@),
    {
        let mut out: Vec<char> = Vec::new();
        match self {
            ConnectionConfig::Local { vault } => {
                push_str(&mut out, "local:");
                push_str(&mut out, vault.as_str());
            },
            ConnectionConfig::Remote { host, .. } => {
                push_str(&mut out, "remote:");
                push_str(&mut out, host.as_str());
            },
        }
        string_from(&out)
    }
}

/// One named vault in the [`Registry`].
#[derive(Debug, Clone, PartialEq, Eq)]
pub struct VaultEntry {
    /// Stable, human-chosen name (also how the registry's default refers to this entry).
    pub name: String,
    /// Where this vault's daemon is.
    pub connection: ConnectionConfig,
}

/// The client's vault registry: the named vaults this user knows about, in display order, and
/// which one is the default.
#[derive(Debug, Clone, PartialEq, Eq, Default)]
pub struct Registry {
    /// Known vaults, in display order.
    pub vaults: Vec<VaultEntry>,
    /// Name of the default entry; `None` means the first entry, if any.
    pub default: Option<String>,
}

/// The entries of a registry as `(name, connection)` pairs.
pub open spec fn entries_view(v: Seq<VaultEntry>) -> Seq<(Seq<char>, ConnView)> {
    v.map_values(|e: VaultEntry| (e.name@, e.connection@))
}

/// The index of the first entry of `es[i..]` named `n`.
pub open spec fn find_name(es: Seq<(Seq<char>, ConnView)>, n: Seq<char>, i: int) -> Option<int>
    decreases es.len() - i,
{
    if i < 0 || i >= es.len() {
        None
    } else if es[i].0 == n {
        Some(i)
    } else {
        find_name(es, n, i + 1)
    }
}

/// The fallback connection of a registry: the entry the default names; the built-in vault
/// `dv` when the default names no entry; with no default, the first entry, else `dv`.
pub open spec fn default_conn_of(es: Seq<(Seq<char>, ConnView)>, d: Option<Seq<char>>, dv: Seq<char>) -> ConnView {
    match d {
        Some(n) => match find_name(es, n, 0) {
            Some(i) => es[i].1,
            None => ConnView::Local(dv),
        },
        None => if es.len() > 0 {
            es[0].1
        } else {
            ConnView::Local(dv)
        },
    }
}

/// The name of the entry [`Registry::set_default_connection`] writes.
pub open spec fn default_name_of(d: Option<Seq<char>>) -> Seq<char> {
    match d {
        Some(n) => n,
        None => "default"@,
    }
}

/// The entries after setting the default entry's connection to `c`: replaced in place when
/// an entry has the default's name, else a new entry appended.
pub open spec fn set_default_entries(es: Seq<(Seq<char>, ConnView)>, d: Option<Seq<char>>, c: ConnView) -> Seq<(Seq<char>, ConnView)> {
    let n = default_name_of(d);
    match find_name(es, n, 0) {
        Some(i) => es.update(i, (n, c)),
        None => es.push((n, c)),
    }
}

fn find_entry(vaults: &Vec<VaultEntry>, name: &str) -> (r: Option<usize>)
    ensures
        match r {
            Some(i) => find_name(entries_view(vaults@), name@, 0) == Some(i as int) && i < vaults@.len(),
            None => find_name(entries_view(vaults@), name@, 0) is None,
        },
{
    let ghost es = entries_view(vaults@);
    let mut i: usize = 0;
    while i < vaults.len()
        invariant
            i <= vaults@.len(),
            es == entries_view(vaults@),
            find_name(es, name@, 0) == find_name(es, name@, i as int),
        decreases vaults.len() - i,
    {
        if str_eq(vaults[i].name.as_str(), name) {
            return Some(i);
        }
        i += 1;
    }
    None
}

impl Registry {
    /// A registry with a single local vault named `default` at `default_vault`, which is also
    /// the default entry.
    pub fn builtin(default_vault: &str) -> (r: Registry)
        ensures
            entries_view(r.vaults@) == seq![("default"@, ConnView::Local(default_vault@))],
            opt_str_view(r.default) == Some("default"@),
    {
        let mut vaults: Vec<VaultEntry> = Vec::new();
        vaults.push(VaultEntry {
            name: "default".to_owned(),
            connection: ConnectionConfig::Local { vault: default_vault.to_owned() },
        });
        let r = Registry { vaults, default: Some("default".to_owned()) };
        assert(entries_view(r.vaults@) =~= seq![("default"@, ConnView::Local(default_vault@))]);
        r
    }

    /// The connection a client falls back to when it names no vault (see
    /// [`default_conn_of`]): a default naming a missing entry gives the built-in vault
    /// `default_vault`, never another configured vault.
    pub fn default_connection(&self, default_vault: &str) -> (r: ConnectionConfig)
        ensures
            r@ == default_conn_of(entries_view(self.vaults@), opt_str_view(self.default), default_vault@),
    {
        match &self.default {
            Some(name) => match find_entry(&self.vaults, name.as_str()) {
                Some(i) => self.vaults[i].connection.duplicate(),
                None => ConnectionConfig::Local { vault: default_vault.to_owned() },
            },
            None => if self.vaults.len() > 0 {
                self.vaults[0].connection.duplicate()
            } else {
                ConnectionConfig::Local { vault: default_vault.to_owned() }
            },
        }
    }

    /// Set (or replace) the default entry's connection, keeping its name; with no default
    /// entry yet, append one named after the default (or `default`). The default then names it.
    pub fn set_default_connection(&mut self, connection: ConnectionConfig)
        ensures
            opt_str_view(final(self).default) == Some(default_name_of(opt_str_view(old(self).default))),
            entries_view(final(self).vaults@) == set_default_entries(
                entries_view(old(self).vaults@),
                opt_str_view(old(self).default),
                connection@,
            ),
    {
        let name = match &self.default {
            Some(n) => n.clone(),
            None => "default".to_owned(),
        };
        let ghost es = entries_view(self.vaults@);
        let found = find_entry(&self.vaults, name.as_str());
        proof {
            lemma_find_name(es, name@, 0);
        }
        match found {
            Some(i) => {
                let entry = VaultEntry { name: self.vaults[i].name.clone(), connection };
                self.vaults.set(i, entry);
                assert(entries_view(self.vaults@) =~= es.update(i as int, (name@, connection@)));
            },
            None => {
                self.vaults.push(VaultEntry { name: name.clone(), connection });
                assert(entries_view(self.vaults@) =~= es.push((name@, connection@)));
            },
        }
        self.default = Some(name);
    }
}

proof fn lemma_find_name(es: Seq<(Seq<char>, ConnView)>, n: Seq<char>, i: int)
    requires
        0 <= i,
    ensures
        find_name(es, n, i) matches Some(j) ==> i <= j < es.len() && es[j].0 == n && forall|k: int|
            i <= k < j ==> es[k].0 != n,
        find_name(es, n, i) is None ==> forall|k: int| i <= k < es.len() ==> es[k].0 != n,
    decreases es.len() - i,
{
    if i < es.len() && es[i].0 != n {
        lemma_find_name(es, n, i + 1);
    }
}

proof fn lemma_find_name_same(a: Seq<(Seq<char>, ConnView)>, b: Seq<(Seq<char>, ConnView)>, n: Seq<char>, j: int)
    requires
        0 <= j < a.len(),
        j < b.len(),
        a[j].0 == n,
        b[j].0 == n,
        forall|k: int| 0 <= k < j ==> a[k].0 != n,
        forall|k: int| 0 <= k < j ==> b[k].0 == a[k].0,
    ensures
        find_name(b, n, 0) == Some(j),
{
    lemma_find_name(b, n, 0);
    match find_name(b, n, 0) {
        Some(f) => {
            if f < j {
                assert(b[f].0 == a[f].0);
            }
        },
        None => {
            assert(b[j].0 == n);
        },
    }
}

/// Saving a connection as the default makes it the fallback connection, whatever the
/// registry held and whatever the built-in vault is; the registry gains an entry only when none
/// has the default's name, every entry of another name is kept, and saving again replaces that
/// entry in place rather than adding another.
pub proof fn lemma_set_default_connection(
    es: Seq<(Seq<char>, ConnView)>,
    d: Option<Seq<char>>,
    c1: ConnView,
    c2: ConnView,
    dv: Seq<char>,
)
    ensures
        default_conn_of(set_default_entries(es, d, c1), Some(default_name_of(d)), dv) == c1,
        set_default_entries(es, d, c1).len() == es.len() + if find_name(es, default_name_of(d), 0) is None {
            1int
        } else {
            0int
        },
        forall|k: int|
            0 <= k < es.len() && es[k].0 != default_name_of(d) ==> #[trigger] set_default_entries(es, d, c1)[k]
                == es[k],
        set_default_entries(set_default_entries(es, d, c1), Some(default_name_of(d)), c2).len()
            == set_default_entries(es, d, c1).len(),
{
    let n = default_name_of(d);
    let es1 = set_default_entries(es, d, c1);
    lemma_find_name(es, n, 0);
    match find_name(es, n, 0) {
        Some(i) => {
            lemma_find_name_same(es, es1, n, i);
        },
        None => {
            lemma_find_name_same(es1, es1, n, es.len() as int);
        },
    }
    assert(default_name_of(Some(n)) == n);
}

// ---------------------------------------------------------------------------------------------
// Resolving a connection target.
// ---------------------------------------------------------------------------------------------

/// The connection a client was asked for by explicit flags; a `None` field defers to the next
/// layer (environment, then the registry default, then the built-in vault).
#[derive(Debug, Clone, Default, PartialEq, Eq)]
pub struct ClientInputs {
    /// Local vault directory to connect to (its daemon is auto-started); may start with `~`.
    pub vault: Option<String>,
    /// `host:port` of a remote daemon to dial instead.
    pub remote: Option<String>,
    /// Token to present to a remote daemon.
    pub token: Option<String>,
    /// Explicit local socket path to dial instead of deriving one from the vault.
    pub socket: Option<String>,
}

/// The same connection inputs taken from the environment (an empty variable counts as
/// absent), with the home directory that `~` expands to and the built-in default vault.
#[derive(Debug, Clone, Default, PartialEq, Eq)]
pub struct EnvSnapshot {
    pub vault: Option<String>,
    pub remote: Option<String>,
    pub token: Option<String>,
    pub socket: Option<String>,
    /// The home directory (`$HOME`), if set.
    pub home: Option<String>,
    /// The vault used when nothing else names one.
    pub default_vault: String,
}

/// `o` trimmed, or `None` when it is absent or blank.
pub open spec fn nonempty_of(o: Option<Seq<char>>) -> Option<Seq<char>> {
    match o {
        Some(x) => if trim(x).len() > 0 {
            Some(trim(x))
        } else {
            None
        },
        None => None,
    }
}

fn nonempty(s: Option<&str>) -> (r: Option<String>)
    ensures
        opt_str_view(r) == nonempty_of(
            match s {
                Some(x) => Some(x@),
                None => None,
            },
        ),
{
    match s {
        None => None,
        Some(x) => {
            let v = chars_of(x);
            let (a, b) = trim_bounds(&v, 0, v.len());
            assert(v@.subrange(0, v@.len() as int) =~= v@);
            if a == b {
                None
            } else {
                let t = copy_range(&v, a, b);
                Some(string_from(&t))
            }
        },
    }
}

impl EnvSnapshot {
    /// A snapshot from raw variable values: the four connection variables are trimmed and a
    /// blank one counts as absent; `home` and `default_vault` are kept as given.
    pub fn from_values(
        vault: Option<&str>,
        remote: Option<&str>,
        token: Option<&str>,
        socket: Option<&str>,
        home: Option<&str>,
        default_vault: &str,
    ) -> (r: EnvSnapshot)
        ensures
            opt_str_view(r.vault) == nonempty_of(opt_ref_view(vault)),
            opt_str_view(r.remote) == nonempty_of(opt_ref_view(remote)),
            opt_str_view(r.token) == nonempty_of(opt_ref_view(token)),
            opt_str_view(r.socket) == nonempty_of(opt_ref_view(socket)),
            opt_str_view(r.home) == opt_ref_view(home),
            r.default_vault@ == default_vault@,
    {
        EnvSnapshot {
            vault: nonempty(vault),
            remote: nonempty(remote),
            token: nonempty(token),
            socket: nonempty(socket),
            home: match home {
                Some(h) => Some(h.to_owned()),
                None => None,
            },
            default_vault: default_vault.to_owned(),
        }
    }
}

/// The view of an optional string slice.
pub open spec fn opt_ref_view(o: Option<&str>) -> Option<Seq<char>> {
    match o {
        Some(x) => Some(x@),
        None => None,
    }
}

/// `p` with a leading `~` (alone, or followed by `/`) replaced by the home directory; other
/// paths, and every path when no home is known, are kept.
pub open spec fn expand_user_of(p: Seq<char>, home: Option<Seq<char>>) -> Seq<char> {
    match home {
        None => p,
        Some(h) => if p == "~"@ {
            h
        } else if starts_with(p, "~/"@) {
            join_path(h, p.skip(2))
        } else {
            p
        },
    }
}

/// Expand a leading `~` in `p` against `home` (see [`expand_user_of`]).
pub fn expand_user(p: &str, home: Option<&str>) -> (r: String)
    ensures
        r@ == expand_user_of(p@, opt_ref_view(home)),
{
    match home {
        None => p.to_owned(),
        Some(h) => {
            let v = chars_of(p);
            proof {
                reveal_strlit("~");
                reveal_strlit("~/");
            }
            if v.len() == 1 && v[0] == '~' {
                assert(v@ =~= "~"@);
                return h.to_owned();
            }
            if v.len() >= 2 && v[0] == '~' && v[1] == '/' {
                assert(v@.subrange(0, 2) =~= "~/"@);
                let rest = copy_range(&v, 2, v.len());
                assert(rest@ =~= v@.skip(2));
                let rs = string_from(&rest);
                return crate::paths::join(h, rs.as_str());
            }
            assert(v@ != "~"@);
            if v.len() >= 2 {
                assert(v@.subrange(0, 2)[0] == v@[0] && v@.subrange(0, 2)[1] == v@[1]);
            }
            assert(!starts_with(v@, "~/"@));
            p.to_owned()
        },
    }
}

/// A fully resolved connection target: the decision of where to connect.
#[derive(Debug, Clone, PartialEq, Eq)]
pub enum ResolvedTarget {
    /// Connect to (auto-starting) the daemon for this local vault.
    LocalVault { vault: String },
    /// Connect to this explicit local socket.
    LocalSocket { socket: String },
    /// Connect to a remote daemon over TCP with a token.
    Remote { host: String, token: String },
}

/// The mathematical value of a [`ResolvedTarget`].
pub enum TargetView {
    LocalVault(Seq<char>),
    LocalSocket(Seq<char>),
    Remote(Seq<char>, Seq<char>),
}

impl View for ResolvedTarget {
    type V = TargetView;

    open spec fn view(&self) -> TargetView {
        match self {
            ResolvedTarget::LocalVault { vault } => TargetView::LocalVault(vault@),
            ResolvedTarget::LocalSocket { socket } => TargetView::LocalSocket(socket@),
            ResolvedTarget::Remote { host, token } => TargetView::Remote(host@, token@),
        }
    }
}

/// The message refusing a remote target without a token.
pub open spec fn token_required_message(host: Seq<char>) -> Seq<char> {
    "remote daemon "@ + host + " requires a token (set --token or $MDKB_TOKEN)"@
}

/// A remote target, which needs a token.
pub open spec fn remote_of(host: Seq<char>, token: Option<Seq<char>>) -> Result<TargetView, Seq<char>> {
    match token {
        Some(t) => Ok(TargetView::Remote(host, t)),
        None => Err(token_required_message(host)),
    }
}

/// The target chosen with the precedence explicit flag > environment > registry default >
/// built-in vault; within a layer a remote is tried first, then a socket, then a vault. The
/// token comes from the flags, else from the environment; a blank token counts as none, so a
/// remote target always carries a non-empty one.
pub open spec fn resolve_of(inputs: ClientInputs, env: EnvSnapshot, reg: Option<ConnView>) -> Result<TargetView, Seq<char>> {
    let token = match nonempty_of(opt_str_view(inputs.token)) {
        Some(t) => Some(t),
        None => nonempty_of(opt_str_view(env.token)),
    };
    let home = opt_str_view(env.home);
    if nonempty_of(opt_str_view(inputs.remote)) is Some {
        remote_of(nonempty_of(opt_str_view(inputs.remote))->0, token)
    } else if inputs.socket is Some {
        Ok(TargetView::LocalSocket(inputs.socket->0@))
    } else if inputs.vault is Some {
        Ok(TargetView::LocalVault(expand_user_of(inputs.vault->0@, home)))
    } else if nonempty_of(opt_str_view(env.remote)) is Some {
        remote_of(nonempty_of(opt_str_view(env.remote))->0, token)
    } else if env.socket is Some {
        Ok(TargetView::LocalSocket(env.socket->0@))
    } else if env.vault is Some {
        Ok(TargetView::LocalVault(expand_user_of(env.vault->0@, home)))
    } else {
        match reg {
            Some(ConnView::Local(v)) => Ok(TargetView::LocalVault(expand_user_of(v, home))),
            Some(ConnView::Remote(h, t)) => remote_of(h, nonempty_of(Some(t))),
            None => Ok(TargetView::LocalVault(env.default_vault@)),
        }
    }
}

fn remote_target(host: String, token: Option<String>) -> (r: Result<ResolvedTarget, String>)
    ensures
        match remote_of(host@, opt_str_view(token)) {
            Ok(t) => r matches Ok(x) && x@ == t,
            Err(m) => r matches Err(e) && e@ == m,
        },
{
    match token {
        Some(token) => Ok(ResolvedTarget::Remote { host, token }),
        None => {
            let mut m: Vec<char> = Vec::new();
            push_str(&mut m, "remote daemon ");
            push_str(&mut m, host.as_str());
            push_str(&mut m, " requires a token (set --token or $MDKB_TOKEN)");
            Err(string_from(&m))
        },
    }
}

fn opt_as_str(o: &Option<String>) -> (r: Option<&str>)
    ensures
        opt_ref_view(r) == opt_str_view(*o),
{
    match o {
        Some(s) => Some(s.as_str()),
        None => None,
    }
}

/// Resolve the connection target from explicit inputs, the environment and the registry
/// default (see [`resolve_of`]). Nothing is read or connected here.
pub fn resolve_target(inputs: &ClientInputs, env: &EnvSnapshot, registry_default: Option<&ConnectionConfig>) -> (r: Result<ResolvedTarget, String>)
    ensures
        match resolve_of(
            *inputs,
            *env,
            match registry_default {
                Some(c) => Some(c@),
                None => None,
            },
        ) {
            Ok(t) => r matches Ok(x) && x@ == t,
            Err(m) => r matches Err(e) && e@ == m,
        },
{
    let token = match nonempty(opt_as_str(&inputs.token)) {
        Some(t) => Some(t),
        None => nonempty(opt_as_str(&env.token)),
    };
    let home = opt_as_str(&env.home);
    if let Some(remote) = nonempty(opt_as_str(&inputs.remote)) {
        return remote_target(remote, token);
    }
    if let Some(socket) = &inputs.socket {
        return Ok(ResolvedTarget::LocalSocket { socket: socket.clone() });
    }
    if let Some(vault) = &inputs.vault {
        return Ok(ResolvedTarget::LocalVault { vault: expand_user(vault.as_str(), home) });
    }
    if let Some(remote) = nonempty(opt_as_str(&env.remote)) {
        return remote_target(remote, token);
    }
    if let Some(socket) = &env.socket {
        return Ok(ResolvedTarget::LocalSocket { socket: socket.clone() });
    }
    if let Some(vault) = &env.vault {
        return Ok(ResolvedTarget::LocalVault { vault: expand_user(vault.as_str(), home) });
    }
    match registry_default {
        Some(ConnectionConfig::Local { vault }) => Ok(ResolvedTarget::LocalVault { vault: expand_user(vault.as_str(), home) }),
        Some(ConnectionConfig::Remote { host, token }) => remote_target(host.clone(), nonempty(Some(token.as_str()))),
        None => Ok(ResolvedTarget::LocalVault { vault: env.default_vault.clone() }),
    }
}

/// An explicit remote, socket or vault flag decides the target alone: the environment's own
/// remote, socket and vault, the registry default and the built-in vault play no part.
pub proof fn lemma_explicit_flags_win(inputs: ClientInputs, e1: EnvSnapshot, e2: EnvSnapshot, r1: Option<ConnView>, r2: Option<ConnView>)
    requires
        nonempty_of(opt_str_view(inputs.remote)) is Some || inputs.socket is Some || inputs.vault is Some,
        opt_str_view(e1.token) == opt_str_view(e2.token),
        opt_str_view(e1.home) == opt_str_view(e2.home),
    ensures
        resolve_of(inputs, e1, r1) == resolve_of(inputs, e2, r2),
{
}

/// A resolved remote target always carries a non-empty token, the trim of the flag's, the
/// environment's or the registry entry's.
pub proof fn lemma_remote_has_token(inputs: ClientInputs, env: EnvSnapshot, reg: Option<ConnView>)
    ensures
        resolve_of(inputs, env, reg) matches Ok(TargetView::Remote(h, t)) ==> t.len() > 0 && (
        nonempty_of(opt_str_view(inputs.token)) == Some(t) || nonempty_of(opt_str_view(env.token)) == Some(t)
            || (reg matches Some(ConnView::Remote(_, rt)) && t == trim(rt))),
{
}

// ---------------------------------------------------------------------------------------------
// The client's transport.
// ---------------------------------------------------------------------------------------------

/// How a [`Client`] reaches the daemon.
#[derive(Debug, Clone)]
pub enum Transport {
    /// The local socket at this path (trusted).
    Local(String),
    /// TCP to `addr`, presenting `token` on each connection.
    Tcp { addr: String, token: String },
}

/// The mathematical value of a [`Transport`].
pub enum TransportView {
    Local(Seq<char>),
    Tcp(Seq<char>, Seq<char>),
}

impl View for Transport {
    type V = TransportView;

    open spec fn view(&self) -> TransportView {
        match self {
            Transport::Local(p) => TransportView::Local(p@),
            Transport::Tcp { addr, token } => TransportView::Tcp(addr@, token@),
        }
    }
}

/// Where a client sends its requests, and whether it announces itself as the desktop app
/// (which lets a local request manage locks). One request is sent per connection.
#[derive(Debug, Clone)]
pub struct Client {
    transport: Transport,
    announce_app: bool,
}

/// The mathematical value of a [`Client`].
pub struct ClientView {
    pub transport: TransportView,
    pub announce_app: bool,
}

impl View for Client {
    type V = ClientView;

    closed spec fn view(&self) -> ClientView {
        ClientView { transport: self.transport@, announce_app: self.announce_app }
    }
}

/// The short description of where a client connects: `local:<socket>` or `tcp:<addr>`.
pub open spec fn endpoint_of(t: TransportView) -> Seq<char> {
    match t {
        TransportView::Local(p) => "local:"@ + p,
        TransportView::Tcp(a, _) => "tcp:"@ + a,
    }
}

impl Client {
    /// A client for the daemon's local socket at `socket`.
    pub fn new(socket: &str) -> (r: Client)
        ensures
            r@.transport == TransportView::Local(socket@),
            !r@.announce_app,
    {
        Client { transport: Transport::Local(socket.to_owned()), announce_app: false }
    }

    /// A client for a daemon at the TCP address `addr`, authenticating with `token`.
    pub fn tcp(addr: &str, token: &str) -> (r: Client)
        ensures
            r@.transport == TransportView::Tcp(addr@, token@),
            !r@.announce_app,
    {
        Client { transport: Transport::Tcp { addr: addr.to_owned(), token: token.to_owned() }, announce_app: false }
    }

    /// This client marked as the desktop app: each local request announces the app scope.
    pub fn as_app(self) -> (r: Client)
        ensures
            r@.transport == self@.transport,
            r@.announce_app,
    {
        Client { transport: self.transport, announce_app: true }
    }

    /// The transport.
    pub fn transport(&self) -> (r: &Transport)
        ensures
            r@ == self@.transport,
    {
        &self.transport
    }

    /// Whether each local request announces the app scope first.
    pub fn announces_app(&self) -> (r: bool)
        ensures
            r == self@.announce_app,
    {
        self.announce_app
    }

    /// The socket path of a local client; empty for a TCP client.
    pub fn socket(&self) -> (r: &str)
        ensures
            r@ == match self@.transport {
                TransportView::Local(p) => p,
                TransportView::Tcp(_, _) => Seq::<char>::empty(),
            },
    {
        match &self.transport {
            Transport::Local(p) => p.as_str(),
            Transport::Tcp { .. } => {
                proof {
                    reveal_strlit("");
                }
                ""
            },
        }
    }

    /// A short human description of where this client connects (see [`endpoint_of`]).
    pub fn endpoint(&self) -> (r: String)
        ensures
            r@ == endpoint_of(self@.transport),
    {
        let mut out: Vec<char> = Vec::new();
        match &self.transport {
            Transport::Local(p) => {
                push_str(&mut out, "local:");
                push_str(&mut out, p.as_str());
            },
            Transport::Tcp { addr, .. } => {
                push_str(&mut out, "tcp:");
                push_str(&mut out, addr.as_str());
            },
        }
        string_from(&out)
    }

    /// The client the environment selects, from the values of `$MDKB_REMOTE`, `$MDKB_TOKEN`
    /// and `$MDKB_SOCKET`: a non-blank remote gives a TCP client (its token must not be empty);
    /// else a non-blank socket gives that local socket; else `default_socket`.
    pub fn from_env_values(remote: Option<&str>, token: Option<&str>, socket: Option<&str>, default_socket: &str) -> (r: Result<Client, String>)
        ensures
            nonempty_of(opt_ref_view(remote)) matches Some(a) ==> {
                let t = match opt_ref_view(token) {
                    Some(t) => t,
                    None => Seq::<char>::empty(),
                };
                if t.len() == 0 {
                    r matches Err(e) && e@ == "MDKB_REMOTE is set but MDKB_TOKEN is empty; a remote daemon requires a token"@
                } else {
                    r matches Ok(c) && c@.transport == TransportView::Tcp(a, t) && !c@.announce_app
                }
            },
            nonempty_of(opt_ref_view(remote)) is None ==> (r matches Ok(c) && !c@.announce_app
                && c@.transport == TransportView::Local(
                match opt_ref_view(socket) {
                    Some(sk) => if trim(sk).len() > 0 {
                        sk
                    } else {
                        default_socket@
                    },
                    None => default_socket@,
                },
            )),
    {
        if let Some(a) = nonempty(remote) {
            let t = match token {
                Some(t) => t,
                None => "",
            };
            proof {
                reveal_strlit("");
            }
            if chars_of(t).len() == 0 {
                return Err("MDKB_REMOTE is set but MDKB_TOKEN is empty; a remote daemon requires a token".to_owned());
            }
            return Ok(Client::tcp(a.as_str(), t));
        }
        if let Some(sk) = socket {
            if nonempty(Some(sk)).is_some() {
                return Ok(Client::new(sk));
            }
        }
        Ok(Client::new(default_socket))
    }
}

/// What connecting takes: a client that is ready at once, or the paths of a local vault whose
/// daemon must be reachable (started if need be) before its client is.
#[derive(Debug, Clone)]
pub enum ConnectStep {
    Ready(Client),
    EnsureDaemon(DaemonPaths),
}

/// Turn a resolved target into the step that connects it: a remote host or an explicit
/// socket is ready at once; a local vault needs its daemon, at the standard paths in `env`.
pub fn connect_resolved(target: ResolvedTarget, env: &PathEnv) -> (r: ConnectStep)
    ensures
        match target@ {
            TargetView::Remote(h, t) => r matches ConnectStep::Ready(c) && c@.transport == TransportView::Tcp(h, t),
            TargetView::LocalSocket(s) => r matches ConnectStep::Ready(c) && c@.transport == TransportView::Local(s),
            TargetView::LocalVault(v) => r matches ConnectStep::EnsureDaemon(p) && (p.vault@, p.db@, p.socket@)
                == paths_for(v, *env),
        },
{
    match target {
        ResolvedTarget::Remote { host, token } => ConnectStep::Ready(Client::tcp(host.as_str(), token.as_str())),
        ResolvedTarget::LocalSocket { socket } => ConnectStep::Ready(Client::new(socket.as_str())),
        ResolvedTarget::LocalVault { vault } => ConnectStep::EnsureDaemon(paths_in(vault.as_str(), env)),
    }
}

/// Connect a saved connection: a remote one is ready at once (its host must not be blank);
/// a local one needs its vault's daemon, at the standard paths in `env`.
pub fn connect(cfg: &ConnectionConfig, env: &PathEnv) -> (r: Result<ConnectStep, String>)
    ensures
        match cfg@ {
            ConnView::Remote(h, t) => if trim(h).len() == 0 {
                r matches Err(e) && e@ == "remote host is empty"@
            } else {
                r matches Ok(ConnectStep::Ready(c)) && c@.transport == TransportView::Tcp(h, t)
            },
            ConnView::Local(v) => r matches Ok(ConnectStep::EnsureDaemon(p)) && (p.vault@, p.db@, p.socket@)
                == paths_for(v, *env),
        },
{
    match cfg {
        ConnectionConfig::Remote { host, token } => {
            if nonempty(Some(host.as_str())).is_none() {
                return Err("remote host is empty".to_owned());
            }
            Ok(ConnectStep::Ready(Client::tcp(host.as_str(), token.as_str())))
        },
        ConnectionConfig::Local { vault } => Ok(ConnectStep::EnsureDaemon(paths_in(vault.as_str(), env))),
    }
}

} // verus!
