//! What every front-end of the app shows, shaped once: the view records a UI command returns,
//! and the decisions behind the vault switcher (its rows, the connection indicator, which
//! entry is active, what a vault name resolves to). Talking to the daemon and reading or
//! writing the registry file happen in the front-end.

use vstd::prelude::*;
use crate::block::opt_str_view;
use crate::connect::{entries_view, expand_user, expand_user_of, find_name, opt_ref_view, ConnView, ConnectionConfig, Registry};
use crate::index::LinkOutcome;
use crate::text::{chars_of, copy_range, push_str, str_eq, string_from};
use crate::vault::{debug_quoted, debug_text};

verus! {

/// A block reduced to `{id, title}` for the sidebar and the link picker.
#[derive(Debug, Clone, PartialEq, Eq)]
pub struct NavBlock {
    pub id: String,
    pub title: String,
}

/// A block prepared for a front-end: id, display title, tags, properties, raw Markdown for
/// editing and rendered HTML; `outline` holds the source spans of the body's top-level blocks,
/// in document order.
#[derive(Debug, Clone, PartialEq, Eq)]
pub struct BlockView {
    pub id: String,
    pub title: String,
    pub tags: Vec<String>,
    pub fm_tags: Vec<String>,
    pub props: Vec<(String, String)>,
    pub content: String,
    pub html: String,
    pub locked: bool,
    pub outline: Vec<(usize, usize)>,
}

/// The result of saving a block under optimistic concurrency.
#[derive(Debug, Clone, PartialEq, Eq)]
pub enum SaveOutcome {
    /// The save was applied; `version` is the block's new content version.
    Applied { version: String },
    /// The block changed since the editor opened it; nothing was written.
    Conflict { current_title: Option<String>, current_body: String, version: String },
}

/// A tag with its block count, for the tag browser.
#[derive(Debug, Clone, PartialEq, Eq)]
pub struct TagCountView {
    pub tag: String,
    pub count: usize,
}

/// One row of the vault switcher: a registry entry, whether it is the active connection and
/// whether it is the launch default.
#[derive(Debug, Clone, PartialEq, Eq)]
pub struct VaultRow {
    /// The entry's name.
    pub name: String,
    /// `local` or `remote`.
    pub kind: String,
    /// The local vault path, or the remote `host:port`.
    pub target: String,
    /// Whether this is the vault the app is connected to.
    pub active: bool,
    /// Whether this is the registry's launch default.
    pub default: bool,
}

/// A local vault with a running daemon that the registry does not know yet.
#[derive(Debug, Clone, PartialEq, Eq)]
pub struct DiscoveredRow {
    /// Suggested name (the vault folder's basename).
    pub name: String,
    /// The vault path the running daemon reports.
    pub path: String,
    /// Block count.
    pub blocks: usize,
}

/// The connection indicator: a label, the full endpoint, and whether the daemon answered.
#[derive(Debug, Clone, PartialEq, Eq)]
pub struct ConnStatus {
    pub label: String,
    pub endpoint: String,
    pub connected: bool,
}

/// The short label a UI shows for a link outcome.
pub open spec fn outcome_label(o: LinkOutcome) -> Seq<char> {
    match o {
        LinkOutcome::Reference => "reference"@,
        LinkOutcome::Transclusion => "transclusion"@,
        LinkOutcome::DowngradedToReference => "downgraded"@,
    }
}

/// Map a link outcome to the label a UI shows.
pub fn link_outcome_label(outcome: LinkOutcome) -> (r: String)
    ensures
        r@ == outcome_label(outcome),
{
    match outcome {
        LinkOutcome::Reference => "reference".to_owned(),
        LinkOutcome::Transclusion => "transclusion".to_owned(),
        LinkOutcome::DowngradedToReference => "downgraded".to_owned(),
    }
}

/// Whether two connections are the same.
pub fn same_connection(a: &ConnectionConfig, b: &ConnectionConfig) -> (r: bool)
    ensures
        r == (a@ == b@),
{
    match (a, b) {
        (ConnectionConfig::Local { vault: x }, ConnectionConfig::Local { vault: y }) => str_eq(x.as_str(), y.as_str()),
        (ConnectionConfig::Remote { host: h1, token: t1 }, ConnectionConfig::Remote { host: h2, token: t2 }) => str_eq(
            h1.as_str(),
            h2.as_str(),
        ) && str_eq(t1.as_str(), t2.as_str()),
        _ => false,
    }
}

/// The kind and target a switcher row shows for a connection.
pub open spec fn kind_target(c: ConnView) -> (Seq<char>, Seq<char>) {
    match c {
        ConnView::Local(v) => ("local"@, v),
        ConnView::Remote(h, _) => ("remote"@, h),
    }
}

/// The switcher row of entry `e` given the registry default `d` and the active connection.
pub open spec fn row_of(e: (Seq<char>, ConnView), d: Option<Seq<char>>, active: ConnView) -> (Seq<char>, Seq<char>, Seq<char>, bool, bool) {
    (e.0, kind_target(e.1).0, kind_target(e.1).1, e.1 == active, d == Some(e.0))
}

/// The view of a switcher row.
pub open spec fn row_view(r: VaultRow) -> (Seq<char>, Seq<char>, Seq<char>, bool, bool) {
    (r.name@, r.kind@, r.target@, r.active, r.default)
}

/// The switcher's rows: one per registry entry, in order, marking the active connection and
/// the launch default.
pub fn vault_rows(reg: &Registry, active: &ConnectionConfig) -> (r: Vec<VaultRow>)
    ensures
        r@.len() == reg.vaults@.len(),
        forall|i: int|
            0 <= i < r@.len() ==> row_view(#[trigger] r@[i]) == row_of(
                entries_view(reg.vaults@)[i],
                opt_str_view(reg.default),
                active@,
            ),
{
    let mut rows: Vec<VaultRow> = Vec::new();
    let mut i: usize = 0;
    while i < reg.vaults.len()
        invariant
            i <= reg.vaults@.len(),
            rows@.len() == i,
            forall|k: int|
                0 <= k < i ==> row_view(#[trigger] rows@[k]) == row_of(
                    entries_view(reg.vaults@)[k],
                    opt_str_view(reg.default),
                    active@,
                ),
        decreases reg.vaults.len() - i,
    {
        let e = &reg.vaults[i];
        let (kind, target) = match &e.connection {
            ConnectionConfig::Local { vault } => ("local".to_owned(), vault.clone()),
            ConnectionConfig::Remote { host, .. } => ("remote".to_owned(), host.clone()),
        };
        let is_default = match &reg.default {
            Some(d) => str_eq(d.as_str(), e.name.as_str()),
            None => false,
        };
        let row = VaultRow {
            name: e.name.clone(),
            kind,
            target,
            active: same_connection(&e.connection, active),
            default: is_default,
        };
        assert(entries_view(reg.vaults@)[i as int] == (e.name@, e.connection@));
        rows.push(row);
        i += 1;
    }
    rows
}

/// The index of the first entry whose connection is `c`, from `i` on.
pub open spec fn find_conn(es: Seq<(Seq<char>, ConnView)>, c: ConnView, i: int) -> Option<int>
    decreases es.len() - i,
{
    if i < 0 || i >= es.len() {
        None
    } else if es[i].1 == c {
        Some(i)
    } else {
        find_conn(es, c, i + 1)
    }
}

/// The last component of a path (trailing `/` ignored), unless it is empty, `.` or `..`.
pub open spec fn base_name(p: Seq<char>) -> Option<Seq<char>> {
    let t = trim_slashes(p);
    let n = name_start(t, t.len() as int);
    let b = t.subrange(n, t.len() as int);
    if b.len() == 0 || b == "."@ || b == ".."@ {
        None
    } else {
        Some(b)
    }
}

/// `p` without trailing `/`.
pub open spec fn trim_slashes(p: Seq<char>) -> Seq<char>
    decreases p.len(),
{
    if p.len() > 0 && p.last() == '/' {
        trim_slashes(p.drop_last())
    } else {
        p
    }
}

/// The start of the component that ends at `e`.
pub open spec fn name_start(p: Seq<char>, e: int) -> int
    decreases e,
{
    if e <= 0 || e > p.len() || p[e - 1] == '/' {
        if e < 0 { 0 } else { e }
    } else {
        name_start(p, e - 1)
    }
}

/// The name the indicator shows for connection `c`: its registry name, else the vault
/// folder's name (else the whole vault path), else the remote host.
pub open spec fn status_name(es: Seq<(Seq<char>, ConnView)>, c: ConnView) -> Seq<char> {
    match find_conn(es, c, 0) {
        Some(i) => es[i].0,
        None => match c {
            ConnView::Local(v) => match base_name(v) {
                Some(b) => b,
                None => v,
            },
            ConnView::Remote(h, _) => h,
        },
    }
}

/// The indicator's label: `<name> (local)` or `<name> (remote)`.
pub open spec fn status_label(es: Seq<(Seq<char>, ConnView)>, c: ConnView) -> Seq<char> {
    status_name(es, c) + " ("@ + kind_target(c).0 + ")"@
}

fn base_name_exec(p: &str) -> (r: Option<String>)
    ensures
        opt_str_view(r) == base_name(p@),
{
    let v = chars_of(p);
    let mut e: usize = v.len();
    assert(v@.take(v@.len() as int) =~= v@);
    while e > 0 && v[e - 1] == '/'
        invariant
            e <= v@.len(),
            trim_slashes(v@) == trim_slashes(v@.take(e as int)),
        decreases e,
    {
        assert(v@.take(e as int).drop_last() =~= v@.take(e - 1));
        e -= 1;
    }
    let ghost t = v@.take(e as int);
    proof {
        if e > 0 {
            assert(t.last() == v@[e - 1]);
        }
        assert(trim_slashes(t) == t);
    }
    let mut n: usize = e;
    while n > 0 && v[n - 1] != '/'
        invariant
            n <= e,
            e <= v@.len(),
            t == v@.take(e as int),
            name_start(t, e as int) == name_start(t, n as int),
        decreases n,
    {
        assert(t[n - 1] == v@[n - 1]);
        n -= 1;
    }
    proof {
        if n > 0 {
            assert(t[n - 1] == v@[n - 1]);
        }
    }
    let b = copy_range(&v, n, e);
    assert(b@ =~= t.subrange(n as int, t.len() as int));
    proof {
        reveal_strlit(".");
        reveal_strlit("..");
    }
    if b.len() == 0 || (b.len() == 1 && b[0] == '.') || (b.len() == 2 && b[0] == '.' && b[1] == '.') {
        proof {
            if b.len() == 1 {
                assert(b@ =~= "."@);
            }
            if b.len() == 2 {
                assert(b@ =~= ".."@);
            }
        }
        return None;
    }
    proof {
        if b@ == "."@ {
            assert(b@.len() == 1 && b@[0] == '.');
        }
        if b@ == ".."@ {
            assert(b@.len() == 2 && b@[0] == '.' && b@[1] == '.');
        }
    }
    Some(string_from(&b))
}

fn find_conn_exec(reg: &Registry, c: &ConnectionConfig) -> (r: Option<usize>)
    ensures
        match r {
            Some(i) => find_conn(entries_view(reg.vaults@), c@, 0) == Some(i as int) && i < reg.vaults@.len(),
            None => find_conn(entries_view(reg.vaults@), c@, 0) is None,
        },
{
    let ghost es = entries_view(reg.vaults@);
    let mut i: usize = 0;
    while i < reg.vaults.len()
        invariant
            i <= reg.vaults@.len(),
            es == entries_view(reg.vaults@),
            find_conn(es, c@, 0) == find_conn(es, c@, i as int),
        decreases reg.vaults.len() - i,
    {
        assert(es[i as int] == (reg.vaults@[i as int].name@, reg.vaults@[i as int].connection@));
        if same_connection(&reg.vaults[i].connection, c) {
            return Some(i);
        }
        i += 1;
    }
    None
}

/// The connection indicator for the active connection `cfg`, given the client's endpoint and
/// whether the daemon answered (see [`status_label`]).
pub fn connection_status(reg: &Registry, cfg: &ConnectionConfig, endpoint: String, connected: bool) -> (r: ConnStatus)
    ensures
        r.label@ == status_label(entries_view(reg.vaults@), cfg@),
        r.endpoint@ == endpoint@,
        r.connected == connected,
{
    let found = find_conn_exec(reg, cfg);
    let name = match found {
        Some(k) => {
            assert(entries_view(reg.vaults@)[k as int].0 == reg.vaults@[k as int].name@);
            reg.vaults[k].name.clone()
        },
        None => match cfg {
            ConnectionConfig::Local { vault } => match base_name_exec(vault.as_str()) {
                Some(b) => b,
                None => vault.clone(),
            },
            ConnectionConfig::Remote { host, .. } => host.clone(),
        },
    };
    let mut label: Vec<char> = Vec::new();
    push_str(&mut label, name.as_str());
    push_str(&mut label, " (");
    match cfg {
        ConnectionConfig::Local { .. } => push_str(&mut label, "local"),
        ConnectionConfig::Remote { .. } => push_str(&mut label, "remote"),
    }
    push_str(&mut label, ")");
    ConnStatus { label: string_from(&label), endpoint, connected }
}

/// The message for a vault name the registry does not hold.
pub open spec fn no_vault_message(name: Seq<char>) -> Seq<char> {
    "no vault named "@ + debug_text(name)
}

fn find_named(reg: &Registry, name: &str) -> (r: Option<usize>)
    ensures
        match r {
            Some(i) => find_name(entries_view(reg.vaults@), name@, 0) == Some(i as int) && i < reg.vaults@.len(),
            None => find_name(entries_view(reg.vaults@), name@, 0) is None,
        },
{
    let ghost es = entries_view(reg.vaults@);
    let mut i: usize = 0;
    while i < reg.vaults.len()
        invariant
            i <= reg.vaults@.len(),
            es == entries_view(reg.vaults@),
            find_name(es, name@, 0) == find_name(es, name@, i as int),
        decreases reg.vaults.len() - i,
    {
        if str_eq(reg.vaults[i].name.as_str(), name) {
            return Some(i);
        }
        i += 1;
    }
    None
}

fn no_vault(name: &str) -> (r: String)
    ensures
        r@ == no_vault_message(name@),
{
    let q = debug_quoted(name);
    let mut m: Vec<char> = Vec::new();
    push_str(&mut m, "no vault named ");
    push_str(&mut m, q.as_str());
    string_from(&m)
}

/// The connection of the entry named `name`, to switch to (the launch default is untouched).
pub fn switch_vault(reg: &Registry, name: &str) -> (r: Result<ConnectionConfig, String>)
    ensures
        match find_name(entries_view(reg.vaults@), name@, 0) {
            Some(i) => r matches Ok(c) && c@ == entries_view(reg.vaults@)[i].1,
            None => r matches Err(e) && e@ == no_vault_message(name@),
        },
{
    match find_named(reg, name) {
        Some(i) => {
            assert(entries_view(reg.vaults@)[i as int].1 == reg.vaults@[i as int].connection@);
            Ok(reg.vaults[i].connection.duplicate())
        },
        None => Err(no_vault(name)),
    }
}

/// Whether the entry named `name` is the active connection (`false` when there is none).
pub fn is_active_entry(reg: &Registry, name: &str, active: &ConnectionConfig) -> (r: bool)
    ensures
        r == match find_name(entries_view(reg.vaults@), name@, 0) {
            Some(i) => entries_view(reg.vaults@)[i].1 == active@,
            None => false,
        },
{
    match find_named(reg, name) {
        Some(i) => {
            assert(entries_view(reg.vaults@)[i as int].1 == reg.vaults@[i as int].connection@);
            same_connection(&reg.vaults[i].connection, active)
        },
        None => false,
    }
}

/// The token a remote-vault edit stores: a blank `token` keeps the one the entry named `name`
/// holds (empty when it holds none), so the host can be fixed without re-entering the secret.
pub fn kept_token(reg: &Registry, name: &str, token: &str) -> (r: String)
    ensures
        r@ == if token@.len() > 0 {
            token@
        } else {
            match find_name(entries_view(reg.vaults@), name@, 0) {
                Some(i) => match entries_view(reg.vaults@)[i].1 {
                    ConnView::Remote(_, t) => t,
                    ConnView::Local(_) => Seq::<char>::empty(),
                },
                None => Seq::<char>::empty(),
            }
        },
{
    if chars_of(token).len() > 0 {
        return token.to_owned();
    }
    match find_named(reg, name) {
        Some(i) => {
            assert(entries_view(reg.vaults@)[i as int].1 == reg.vaults@[i as int].connection@);
            match &reg.vaults[i].connection {
                ConnectionConfig::Remote { token, .. } => token.clone(),
                ConnectionConfig::Local { .. } => string_from(&Vec::new()),
            }
        },
        None => string_from(&Vec::new()),
    }
}

/// The message for revealing a remote vault.
pub open spec fn remote_reveal_message() -> Seq<char> {
    "this is a remote vault \u{2014} nothing local to reveal"@
}

/// The folder of the local vault named `name`, with a leading `~` expanded against `home`.
pub fn local_vault_path(reg: &Registry, name: &str, home: Option<&str>) -> (r: Result<String, String>)
    ensures
        match find_name(entries_view(reg.vaults@), name@, 0) {
            Some(i) => match entries_view(reg.vaults@)[i].1 {
                ConnView::Local(v) => r matches Ok(p) && p@ == expand_user_of(v, opt_ref_view(home)),
                ConnView::Remote(_, _) => r matches Err(e) && e@ == remote_reveal_message(),
            },
            None => r matches Err(e) && e@ == no_vault_message(name@),
        },
{
    match find_named(reg, name) {
        Some(i) => {
            assert(entries_view(reg.vaults@)[i as int].1 == reg.vaults@[i as int].connection@);
            match &reg.vaults[i].connection {
                ConnectionConfig::Local { vault } => Ok(expand_user(vault.as_str(), home)),
                ConnectionConfig::Remote { .. } => Err("this is a remote vault \u{2014} nothing local to reveal".to_owned()),
            }
        },
        None => Err(no_vault(name)),
    }
}

} // verus!
