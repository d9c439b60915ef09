//! The daemon's lifecycle decisions: when it last served a request, which interactive leases
//! keep it alive, when an idle daemon may reap itself, and how a network connection
//! authenticates. Times are milliseconds on a monotonic clock that the caller reads.

use vstd::prelude::*;
use crate::service::{Caller, RequestContext};
use crate::text::{push_str, string_from};

verus! {

/// Tracks the time of the most recent request so an idle daemon can reap itself.
#[derive(Debug, Clone, Copy, PartialEq, Eq, Structural)]
pub struct Activity {
    /// When the last request was served.
    pub last_ms: u64,
}

impl Activity {
    /// An activity tracker with `now_ms` as the last activity.
    pub fn new(now_ms: u64) -> (r: Activity)
        ensures
            r.last_ms == now_ms,
    {
        Activity { last_ms: now_ms }
    }

    /// Record that a request just happened.
    pub fn touch(&mut self, now_ms: u64)
        ensures
            final(self).last_ms == now_ms,
    {
        self.last_ms = now_ms;
    }

    /// How long since the last recorded activity (zero if the clock reads earlier).
    pub fn idle_for(&self, now_ms: u64) -> (r: u64)
        ensures
            r == if now_ms >= self.last_ms {
                now_ms - self.last_ms
            } else {
                0
            },
    {
        now_ms.saturating_sub(self.last_ms)
    }
}

/// The shortest lease a heartbeat may request.
pub const MIN_LEASE_TTL_MS: u64 = 1000;

/// The longest lease a heartbeat may request.
pub const MAX_LEASE_TTL_MS: u64 = 300000;

/// A requested lease length clamped to the allowed range.
pub open spec fn clamp_ttl(ttl: u64) -> u64 {
    if ttl < MIN_LEASE_TTL_MS {
        MIN_LEASE_TTL_MS
    } else if ttl > MAX_LEASE_TTL_MS {
        MAX_LEASE_TTL_MS
    } else {
        ttl
    }
}

/// The expiry of a lease renewed at `now_ms` for `ttl` (saturating at the clock's end).
pub open spec fn expiry_at(now_ms: u64, ttl: u64) -> u64 {
    if now_ms + clamp_ttl(ttl) > u64::MAX {
        u64::MAX
    } else {
        (now_ms + clamp_ttl(ttl)) as u64
    }
}

/// The position of `key` among the leases.
pub open spec fn key_index(es: Seq<(Seq<char>, u64)>, key: Seq<char>) -> Option<int>
    decreases es.len(),
{
    if es.len() == 0 {
        None
    } else if es.last().0 == key {
        Some(es.len() - 1)
    } else {
        key_index(es.drop_last(), key)
    }
}

/// The leases still live at `now_ms` (expiring strictly later), in order.
pub open spec fn live(es: Seq<(Seq<char>, u64)>, now_ms: u64) -> Seq<(Seq<char>, u64)>
    decreases es.len(),
{
    if es.len() == 0 {
        seq![]
    } else {
        live(es.drop_last(), now_ms) + if es.last().1 > now_ms {
            seq![es.last()]
        } else {
            seq![]
        }
    }
}

/// No lease name occurs twice.
pub open spec fn keys_distinct(es: Seq<(Seq<char>, u64)>) -> bool {
    forall|i: int, j: int| 0 <= i < j < es.len() ==> (#[trigger] es[i]).0 != (#[trigger] es[j]).0
}

/// The leases after `lease` is acquired or renewed to expire at `exp`: a held lease has its
/// expiry replaced in place, a new one is added at the end.
pub open spec fn renewed(es: Seq<(Seq<char>, u64)>, lease: Seq<char>, exp: u64) -> Seq<(Seq<char>, u64)> {
    match key_index(es, lease) {
        Some(i) => es.update(i, (lease, exp)),
        None => es.push((lease, exp)),
    }
}

/// The leases after `lease` is released: removed if held.
pub open spec fn released(es: Seq<(Seq<char>, u64)>, lease: Seq<char>) -> Seq<(Seq<char>, u64)> {
    match key_index(es, lease) {
        Some(i) => es.remove(i),
        None => es,
    }
}

proof fn lemma_key_index(es: Seq<(Seq<char>, u64)>, key: Seq<char>)
    ensures
        key_index(es, key) matches Some(i) ==> 0 <= i < es.len() && es[i].0 == key && forall|k: int|
            i < k < es.len() ==> #[trigger] es[k].0 != key,
        key_index(es, key) is None ==> forall|k: int| 0 <= k < es.len() ==> es[k].0 != key,
    decreases es.len(),
{
    if es.len() > 0 {
        lemma_key_index(es.drop_last(), key);
        if key_index(es, key) is Some {
            let i = key_index(es, key)->0;
            if es.last().0 != key {
                assert forall|k: int| i < k < es.len() implies #[trigger] es[k].0 != key by {
                    if k < es.len() - 1 {
                        assert(es.drop_last()[k] == es[k]);
                    }
                }
            }
        }
        if key_index(es, key) is None {
            assert forall|k: int| 0 <= k < es.len() implies es[k].0 != key by {
                if k < es.len() - 1 {
                    assert(es.drop_last()[k] == es[k]);
                }
            }
        }
    }
}

proof fn lemma_live_sub(es: Seq<(Seq<char>, u64)>, now_ms: u64)
    ensures
        forall|p: (Seq<char>, u64)| #[trigger] live(es, now_ms).contains(p) ==> es.contains(p),
        keys_distinct(es) ==> keys_distinct(live(es, now_ms)),
    decreases es.len(),
{
    if es.len() > 0 {
        let init = es.drop_last();
        lemma_live_sub(init, now_ms);
        let l = live(es, now_ms);
        let li = live(init, now_ms);
        assert forall|p: (Seq<char>, u64)| #[trigger] l.contains(p) implies es.contains(p) by {
            let k = choose|k: int| 0 <= k < l.len() && l[k] == p;
            if k < li.len() {
                assert(li[k] == p);
                assert(li.contains(p));
                let m = choose|m: int| 0 <= m < init.len() && init[m] == p;
                assert(es[m] == p);
            } else {
                assert(es[es.len() - 1] == p);
            }
        }
        if keys_distinct(es) {
            assert(keys_distinct(init)) by {
                assert forall|i: int, j: int| 0 <= i < j < init.len() implies (#[trigger] init[i]).0 != (#[trigger] init[j]).0 by {
                    assert(init[i] == es[i] && init[j] == es[j]);
                }
            }
            assert forall|i: int, j: int| 0 <= i < j < l.len() implies (#[trigger] l[i]).0 != (#[trigger] l[j]).0 by {
                if j >= li.len() {
                    assert(l[j] == es.last());
                    assert(li.contains(l[i])) by {
                        assert(li[i] == l[i]);
                    }
                    let m = choose|m: int| 0 <= m < init.len() && init[m] == l[i];
                    assert(es[m] == l[i]);
                } else {
                    assert(l[i] == li[i] && l[j] == li[j]);
                }
            }
        }
    }
}

/// Interactive leases: a long-lived client holds one to keep an auto-started daemon alive while
/// it is open. A lease expires its ttl after the last heartbeat, so a crashed client never pins
/// the daemon.
pub struct Leases {
    entries: Vec<(String, u64)>,
}

pub open spec fn leases_view(v: Seq<(String, u64)>) -> Seq<(Seq<char>, u64)> {
    v.map_values(|p: (String, u64)| (p.0@, p.1))
}

impl Leases {
    #[verifier::type_invariant]
    spec fn well_formed(self) -> bool {
        keys_distinct(leases_view(self.entries@))
    }

    /// The held leases with their expiry times (no name twice).
    pub closed spec fn held(self) -> Seq<(Seq<char>, u64)> {
        leases_view(self.entries@)
    }

    /// No leases.
    pub fn new() -> (r: Leases)
        ensures
            r.held().len() == 0,
    {
        Leases { entries: Vec::new() }
    }

    /// How many leases are recorded.
    pub fn len(&self) -> (r: usize)
        ensures
            r == self.held().len(),
    {
        self.entries.len()
    }

    fn find(&self, lease: &str) -> (r: Option<usize>)
        ensures
            match r {
                Some(i) => key_index(self.held(), lease@) == Some(i as int),
                None => key_index(self.held(), lease@) is None,
            },
    {
        let mut i: usize = self.entries.len();
        assert(self.held().take(i as int) =~= self.held());
        while i > 0
            invariant
                i <= self.entries@.len(),
                key_index(self.held(), lease@) == key_index(self.held().take(i as int), lease@),
            decreases i,
        {
            let ghost t = self.held().take(i as int);
            assert(t.last() == (self.entries@[i - 1].0@, self.entries@[i - 1].1));
            assert(t.drop_last() =~= self.held().take(i - 1));
            if crate::text::str_eq(self.entries[i - 1].0.as_str(), lease) {
                return Some(i - 1);
            }
            i -= 1;
        }
        None
    }

    /// Acquire or renew `lease`, expiring `ttl_ms` (clamped to the allowed range) after
    /// `now_ms`. Renewing a held lease replaces its expiry; it never adds a second entry.
    pub fn heartbeat(&mut self, lease: &str, ttl_ms: u64, now_ms: u64)
        ensures
            final(self).held() == renewed(old(self).held(), lease@, expiry_at(now_ms, ttl_ms)),
    {
        proof {
            use_type_invariant(&*self);
        }
        let ttl = if ttl_ms < MIN_LEASE_TTL_MS {
            MIN_LEASE_TTL_MS
        } else if ttl_ms > MAX_LEASE_TTL_MS {
            MAX_LEASE_TTL_MS
        } else {
            ttl_ms
        };
        let exp = now_ms.saturating_add(ttl);
        let ghost old_v = self.held();
        proof {
            lemma_key_index(old_v, lease@);
        }
        match self.find(lease) {
            Some(i) => {
                let mut v: Vec<(String, u64)> = Vec::new();
                std::mem::swap(&mut v, &mut self.entries);
                v.set(i, (lease.to_owned(), exp));
                assert(leases_view(v@) =~= old_v.update(i as int, (lease@, exp)));
                assert(keys_distinct(leases_view(v@))) by {
                    let nv = leases_view(v@);
                    assert forall|a: int, b: int| 0 <= a < b < nv.len() implies (#[trigger] nv[a]).0 != (#[trigger] nv[b]).0 by {
                        if a != i && b != i {
                            assert(nv[a] == old_v[a] && nv[b] == old_v[b]);
                        } else if a == i {
                            assert(nv[b] == old_v[b]);
                        } else {
                            assert(nv[a] == old_v[a]);
                        }
                    }
                }
                self.entries = v;
            },
            None => {
                let mut v: Vec<(String, u64)> = Vec::new();
                std::mem::swap(&mut v, &mut self.entries);
                v.push((lease.to_owned(), exp));
                assert(leases_view(v@) =~= old_v.push((lease@, exp)));
                assert(keys_distinct(leases_view(v@))) by {
                    let nv = leases_view(v@);
                    assert forall|a: int, b: int| 0 <= a < b < nv.len() implies (#[trigger] nv[a]).0 != (#[trigger] nv[b]).0 by {
                        if b < old_v.len() {
                            assert(nv[a] == old_v[a] && nv[b] == old_v[b]);
                        } else {
                            assert(nv[a] == old_v[a]);
                        }
                    }
                }
                self.entries = v;
            },
        }
    }

    /// Drop `lease` (a clean release); an unknown lease is ignored.
    pub fn release(&mut self, lease: &str)
        ensures
            final(self).held() == released(old(self).held(), lease@),
    {
        proof {
            use_type_invariant(&*self);
        }
        let ghost old_v = self.held();
        proof {
            lemma_key_index(old_v, lease@);
        }
        match self.find(lease) {
            Some(i) => {
                let mut v: Vec<(String, u64)> = Vec::new();
                std::mem::swap(&mut v, &mut self.entries);
                v.remove(i);
                assert(leases_view(v@) =~= old_v.remove(i as int));
                assert(keys_distinct(leases_view(v@))) by {
                    let nv = leases_view(v@);
                    assert forall|a: int, b: int| 0 <= a < b < nv.len() implies (#[trigger] nv[a]).0 != (#[trigger] nv[b]).0 by {
                        let oa = if a < i { a } else { a + 1 };
                        let ob = if b < i { b } else { b + 1 };
                        assert(nv[a] == old_v[oa] && nv[b] == old_v[ob]);
                    }
                }
                self.entries = v;
            },
            None => {},
        }
    }

    /// Whether any unexpired lease is held at `now_ms`; expired leases are pruned.
    pub fn any_active(&mut self, now_ms: u64) -> (r: bool)
        ensures
            final(self).held() == live(old(self).held(), now_ms),
            r == (final(self).held().len() > 0),
    {
        proof {
            use_type_invariant(&*self);
        }
        let ghost old_v = self.held();
        let mut v: Vec<(String, u64)> = Vec::new();
        std::mem::swap(&mut v, &mut self.entries);
        let mut kept: Vec<(String, u64)> = Vec::new();
        let mut i: usize = 0;
        while i < v.len()
            invariant
                i <= v@.len(),
                leases_view(v@) == old_v,
                leases_view(kept@) == live(old_v.take(i as int), now_ms),
            decreases v.len() - i,
        {
            let ghost t = old_v.take(i + 1);
            assert(t.drop_last() =~= old_v.take(i as int));
            assert(t.last() == (v@[i as int].0@, v@[i as int].1));
            if v[i].1 > now_ms {
                let ghost before = leases_view(kept@);
                let name = v[i].0.clone();
                kept.push((name, v[i].1));
                assert(leases_view(kept@) =~= before.push((v@[i as int].0@, v@[i as int].1)));
            }
            assert(leases_view(kept@) =~= live(t, now_ms));
            i += 1;
        }
        assert(old_v.take(v@.len() as int) =~= old_v);
        proof {
            lemma_live_sub(old_v, now_ms);
        }
        self.entries = kept;
        self.entries.len() > 0
    }
}

impl Default for Leases {
    /// No leases.
    fn default() -> (r: Leases)
        ensures
            r.held().len() == 0,
    {
        Leases::new()
    }
}

/// Whether an auto-started daemon should reap itself now: idle for at least `timeout_ms` and
/// holding no live lease (leases are only consulted, and pruned, once it is idle long enough).
pub fn should_reap(idle_ms: u64, timeout_ms: u64, leases: &mut Leases, now_ms: u64) -> (r: bool)
    ensures
        idle_ms < timeout_ms ==> !r && final(leases).held() == old(leases).held(),
        idle_ms >= timeout_ms ==> final(leases).held() == live(old(leases).held(), now_ms) && r == (
        final(leases).held().len() == 0),
{
    idle_ms >= timeout_ms && !leases.any_active(now_ms)
}

/// The network listener's configuration.
#[derive(Debug, Clone)]
pub struct NetConfig {
    /// Address to bind (e.g. `0.0.0.0:7820`).
    pub addr: String,
    /// Shared token clients must present to authenticate.
    pub token: String,
}

/// Compare two byte strings in time that depends only on their length, so a token is not
/// leaked through timing.
pub fn constant_time_eq(a: &[u8], b: &[u8]) -> (r: bool)
    ensures
        r == (a@ == b@),
{
    if a.len() != b.len() {
        return false;
    }
    let mut diff: u8 = 0;
    let mut i: usize = 0;
    while i < a.len()
        invariant
            i <= a@.len(),
            a@.len() == b@.len(),
            (diff == 0) == (forall|k: int| 0 <= k < i ==> a@[k] == b@[k]),
        decreases a.len() - i,
    {
        let x = a[i];
        let y = b[i];
        let d = diff;
        assert(((d | (x ^ y)) == 0) == (d == 0 && x == y)) by (bit_vector);
        diff = d | (x ^ y);
        i += 1;
    }
    if diff == 0 {
        assert(a@ =~= b@);
    }
    diff == 0
}

/// The message refusing a wrong token.
pub open spec fn auth_failed() -> Seq<char> {
    "authentication failed"@
}

/// Authenticate a connection with the token it `presented`. Without an `expected` token (a
/// trusted transport) this always succeeds and changes nothing; with one, a matching token
/// upgrades the connection to a token-authenticated caller and a wrong one is refused.
pub fn authenticate(ctx: &mut RequestContext, expected: Option<&str>, presented: &str) -> (r: Result<(), String>)
    ensures
        match expected {
            None => r is Ok && final(ctx).caller == old(ctx).caller,
            Some(exp) => if exp@ == presented@ {
                r is Ok && (final(ctx).caller matches Caller::Authenticated(p) && p@ == "token"@)
            } else {
                r matches Err(m) && m@ == auth_failed() && final(ctx).caller == old(ctx).caller
            },
        },
{
    match expected {
        None => Ok(()),
        Some(exp) => {
            let same = constant_time_eq(exp.as_bytes(), presented.as_bytes());
            proof {
                vstd::utf8::encode_utf8_decode_utf8(exp@);
                vstd::utf8::encode_utf8_decode_utf8(presented@);
            }
            if same {
                *ctx = RequestContext::authenticated("token");
                Ok(())
            } else {
                let mut m: Vec<char> = Vec::new();
                push_str(&mut m, "authentication failed");
                Err(string_from(&m))
            }
        },
    }
}

/// One request line of a connection, as the transport read and decoded it: the end of the
/// stream, a line over the length cap, a blank line, a line that is no request (with the
/// decoder's message), one of the requests the connection layer answers itself, or any other
/// request, which goes to the service.
#[derive(Debug, Clone)]
pub enum ConnEvent {
    Eof,
    TooLong,
    Blank,
    Invalid(String),
    Authenticate(String),
    Heartbeat { lease: String, ttl_ms: u64 },
    ReleaseLease(String),
    AnnounceApp,
    Shutdown,
    Service,
}

/// What the connection does with an event: stop reading; skip the line; send `Ok` or an error;
/// send an error and stop; pass the request to the service; or send `Ok`, then remove the
/// socket and exit.
#[derive(Debug, Clone, PartialEq, Eq)]
pub enum ConnAction {
    Stop,
    Skip,
    ReplyOk,
    ReplyError(String),
    ReplyErrorThenStop(String),
    Dispatch,
    ReplyOkThenShutdown,
}

/// A connection's state: who the caller is, the token its transport requires (if any), and
/// whether it holds the desktop app's scope (lock management).
#[derive(Debug, Clone)]
pub struct Connection {
    pub ctx: RequestContext,
    pub token: Option<String>,
    pub app_scope: bool,
}

/// The message for a line over the length cap.
pub open spec fn too_long_message() -> Seq<char> {
    "request line exceeds maximum length"@
}

/// The message refusing the app scope to a caller that is not local.
pub open spec fn app_scope_refused() -> Seq<char> {
    "lock management is available only to the local desktop app"@
}

/// The message refusing a shutdown from a caller that is not local.
pub open spec fn shutdown_refused() -> Seq<char> {
    "shutdown is available only to the local desktop app"@
}

/// Whether an event counts as use of the daemon (defers its idle shutdown).
pub open spec fn counts_as_activity(e: ConnEvent) -> bool {
    e is Authenticate || e is Heartbeat || e is ReleaseLease || e is AnnounceApp || e is Service
}

/// Decide what a connection does with one event, updating its state, the lease registry and
/// the activity tracker (read at `now_ms`). Authentication goes through [`authenticate`];
/// lease ops renew or drop the lease and answer `Ok`; the app scope and a shutdown are granted
/// to a local caller only; any other request is dispatched to the service. Every request but a
/// shutdown counts as activity.
pub fn connection_step(conn: &mut Connection, leases: &mut Leases, activity: &mut Option<Activity>, now_ms: u64, event: ConnEvent) -> (r: ConnAction)
    ensures
        counts_as_activity(event) ==> match *old(activity) {
            Some(_) => *final(activity) == Some(Activity { last_ms: now_ms }),
            None => *final(activity) is None,
        },
        !counts_as_activity(event) ==> *final(activity) == *old(activity),
        !(event is Heartbeat || event is ReleaseLease) ==> final(leases).held() == old(leases).held(),
        !(event is Authenticate) ==> final(conn).ctx.caller == old(conn).ctx.caller,
        final(conn).token == old(conn).token,
        !(event is AnnounceApp) ==> final(conn).app_scope == old(conn).app_scope,
        match event {
            ConnEvent::Eof => r == ConnAction::Stop,
            ConnEvent::TooLong => r matches ConnAction::ReplyErrorThenStop(m) && m@ == too_long_message(),
            ConnEvent::Blank => r == ConnAction::Skip,
            ConnEvent::Invalid(e) => r matches ConnAction::ReplyError(m) && m@ == "invalid request: "@ + e@,
            ConnEvent::Authenticate(p) => match old(conn).token {
                None => r == ConnAction::ReplyOk && final(conn).ctx.caller == old(conn).ctx.caller,
                Some(exp) => if exp@ == p@ {
                    r == ConnAction::ReplyOk && (final(conn).ctx.caller matches Caller::Authenticated(n) && n@
                        == "token"@)
                } else {
                    r matches ConnAction::ReplyError(m) && m@ == auth_failed() && final(conn).ctx.caller
                        == old(conn).ctx.caller
                },
            },
            ConnEvent::Heartbeat { lease, ttl_ms } => r == ConnAction::ReplyOk && final(leases).held() == renewed(
                old(leases).held(),
                lease@,
                expiry_at(now_ms, ttl_ms),
            ),
            ConnEvent::ReleaseLease(lease) => r == ConnAction::ReplyOk && final(leases).held() == released(
                old(leases).held(),
                lease@,
            ),
            ConnEvent::AnnounceApp => if old(conn).ctx.caller is Local {
                r == ConnAction::ReplyOk && final(conn).app_scope
            } else {
                r matches ConnAction::ReplyError(m) && m@ == app_scope_refused() && final(conn).app_scope
                    == old(conn).app_scope
            },
            ConnEvent::Shutdown => if old(conn).ctx.caller is Local {
                r == ConnAction::ReplyOkThenShutdown
            } else {
                r matches ConnAction::ReplyError(m) && m@ == shutdown_refused()
            },
            ConnEvent::Service => r == ConnAction::Dispatch,
        },
{
    let is_activity = match &event {
        ConnEvent::Authenticate(_) | ConnEvent::Heartbeat { .. } | ConnEvent::ReleaseLease(_) | ConnEvent::AnnounceApp
        | ConnEvent::Service => true,
        _ => false,
    };
    if is_activity {
        match activity {
            Some(a) => a.touch(now_ms),
            None => {},
        }
    }
    match event {
        ConnEvent::Eof => ConnAction::Stop,
        ConnEvent::TooLong => {
            let mut m: Vec<char> = Vec::new();
            push_str(&mut m, "request line exceeds maximum length");
            ConnAction::ReplyErrorThenStop(string_from(&m))
        },
        ConnEvent::Blank => ConnAction::Skip,
        ConnEvent::Invalid(e) => {
            let mut m: Vec<char> = Vec::new();
            push_str(&mut m, "invalid request: ");
            push_str(&mut m, e.as_str());
            ConnAction::ReplyError(string_from(&m))
        },
        ConnEvent::Authenticate(p) => {
            let expected: Option<&str> = match &conn.token {
                Some(t) => Some(t.as_str()),
                None => None,
            };
            match authenticate(&mut conn.ctx, expected, p.as_str()) {
                Ok(()) => ConnAction::ReplyOk,
                Err(m) => ConnAction::ReplyError(m),
            }
        },
        ConnEvent::Heartbeat { lease, ttl_ms } => {
            leases.heartbeat(lease.as_str(), ttl_ms, now_ms);
            ConnAction::ReplyOk
        },
        ConnEvent::ReleaseLease(lease) => {
            leases.release(lease.as_str());
            ConnAction::ReplyOk
        },
        ConnEvent::AnnounceApp => match conn.ctx.caller {
            Caller::Local => {
                conn.app_scope = true;
                ConnAction::ReplyOk
            },
            _ => {
                let mut m: Vec<char> = Vec::new();
                push_str(&mut m, "lock management is available only to the local desktop app");
                ConnAction::ReplyError(string_from(&m))
            },
        },
        ConnEvent::Shutdown => match conn.ctx.caller {
            Caller::Local => ConnAction::ReplyOkThenShutdown,
            _ => {
                let mut m: Vec<char> = Vec::new();
                push_str(&mut m, "shutdown is available only to the local desktop app");
                ConnAction::ReplyError(string_from(&m))
            },
        },
        ConnEvent::Service => ConnAction::Dispatch,
    }
}


// ---------------------------------------------------------------------------------------------
// Lease laws.
// ---------------------------------------------------------------------------------------------

/// Heartbeats are idempotent in the lease: renewing a lease twice to the same expiry leaves the
/// leases as one renewal does.
pub proof fn lemma_heartbeat_idempotent(es: Seq<(Seq<char>, u64)>, lease: Seq<char>, exp: u64)
    ensures
        renewed(renewed(es, lease, exp), lease, exp) == renewed(es, lease, exp),
{
    lemma_key_index(es, lease);
    let r = renewed(es, lease, exp);
    lemma_key_index(r, lease);
    match key_index(es, lease) {
        Some(i) => {
            assert(r[i].0 == lease);
            assert forall|k: int| i < k < r.len() implies #[trigger] r[k].0 != lease by {
                assert(r[k] == es[k]);
            }
            match key_index(r, lease) {
                Some(j) => {
                    assert(j == i);
                },
                None => {
                    assert(r[i].0 == lease);
                },
            }
            assert(r.update(i, (lease, exp)) =~= r);
        },
        None => {
            let n = es.len() as int;
            assert(r[n].0 == lease);
            match key_index(r, lease) {
                Some(j) => {
                    assert(j == n);
                },
                None => {},
            }
            assert(r.update(n, (lease, exp)) =~= r);
        },
    }
}

proof fn lemma_live_keeps(es: Seq<(Seq<char>, u64)>, now_ms: u64, k: int)
    requires
        0 <= k < es.len(),
        es[k].1 > now_ms,
    ensures
        live(es, now_ms).contains(es[k]),
    decreases es.len(),
{
    let init = es.drop_last();
    if k < es.len() - 1 {
        lemma_live_keeps(init, now_ms, k);
        assert(init[k] == es[k]);
        let l = live(init, now_ms);
        let j = choose|j: int| 0 <= j < l.len() && l[j] == es[k];
        assert(live(es, now_ms)[j] == es[k]);
    } else {
        let l = live(es, now_ms);
        assert(l[l.len() - 1] == es.last());
    }
}

/// A heartbeat keeps the daemon alive: until the renewed lease's expiry, a lease is live.
pub proof fn lemma_heartbeat_keeps_alive(es: Seq<(Seq<char>, u64)>, lease: Seq<char>, exp: u64, now_ms: u64)
    requires
        now_ms < exp,
    ensures
        live(renewed(es, lease, exp), now_ms).contains((lease, exp)),
{
    lemma_key_index(es, lease);
    let r = renewed(es, lease, exp);
    let k = match key_index(es, lease) {
        Some(i) => i,
        None => es.len() as int,
    };
    assert(r[k] == (lease, exp));
    lemma_live_keeps(r, now_ms, k);
}

/// A lease ages out: once its expiry has passed and it was not renewed, no live lease bears its
/// name, so a client that stops beating never pins the daemon.
pub proof fn lemma_lease_ages_out(es: Seq<(Seq<char>, u64)>, lease: Seq<char>, exp: u64, now_ms: u64)
    requires
        keys_distinct(es),
        exp <= now_ms,
    ensures
        forall|p: (Seq<char>, u64)| #[trigger] live(renewed(es, lease, exp), now_ms).contains(p) ==> p.0 != lease,
{
    lemma_key_index(es, lease);
    let r = renewed(es, lease, exp);
    lemma_live_sub(r, now_ms);
    assert forall|p: (Seq<char>, u64)| #[trigger] live(r, now_ms).contains(p) implies p.0 != lease by {
        lemma_live_expiry(r, now_ms, p);
        let k = choose|k: int| 0 <= k < r.len() && r[k] == p;
        match key_index(es, lease) {
            Some(i) => {
                if k != i {
                    assert(r[k] == es[k]);
                    if p.0 == lease {
                        if k < i {
                            assert(es[k].0 != es[i].0);
                        } else {
                            assert(es[i].0 != es[k].0);
                        }
                    }
                }
            },
            None => {
                if k < es.len() {
                    assert(r[k] == es[k]);
                }
            },
        }
    }
}

proof fn lemma_live_expiry(es: Seq<(Seq<char>, u64)>, now_ms: u64, p: (Seq<char>, u64))
    requires
        live(es, now_ms).contains(p),
    ensures
        p.1 > now_ms,
        es.contains(p),
    decreases es.len(),
{
    lemma_live_sub(es, now_ms);
    if es.len() > 0 {
        let init = es.drop_last();
        let l = live(es, now_ms);
        let li = live(init, now_ms);
        let j = choose|j: int| 0 <= j < l.len() && l[j] == p;
        if j < li.len() {
            assert(li[j] == p);
            lemma_live_expiry(init, now_ms, p);
        }
    }
}

/// Releasing a lease drops it: afterwards no held lease bears its name.
pub proof fn lemma_release_drops(es: Seq<(Seq<char>, u64)>, lease: Seq<char>)
    requires
        keys_distinct(es),
    ensures
        forall|k: int| 0 <= k < released(es, lease).len() ==> (#[trigger] released(es, lease)[k]).0 != lease,
{
    lemma_key_index(es, lease);
    let r = released(es, lease);
    match key_index(es, lease) {
        Some(i) => {
            assert forall|k: int| 0 <= k < r.len() implies (#[trigger] r[k]).0 != lease by {
                if k < i {
                    assert(r[k] == es[k]);
                    assert(es[k].0 != es[i].0);
                } else {
                    assert(r[k] == es[k + 1]);
                    assert(es[i].0 != es[k + 1].0);
                }
            }
        },
        None => {},
    }
}
} // verus!
