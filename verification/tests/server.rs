use mdkb::server::{
    authenticate, connection_step, constant_time_eq, should_reap, Activity, ConnAction, ConnEvent,
    Connection, Leases,
};
use mdkb::service::{Caller, RequestContext};

#[test]
fn lease_holds_then_expires() {
    let mut leases = Leases::default();
    assert!(!leases.any_active(0), "no leases initially");
    leases.heartbeat("app", 60_000, 0);
    assert!(leases.any_active(0), "an unexpired lease is active");
    leases.release("app");
    assert!(!leases.any_active(0), "released lease is gone");
}

#[test]
fn heartbeat_is_idempotent_renew() {
    let mut leases = Leases::default();
    leases.heartbeat("app", 10_000, 0);
    leases.heartbeat("app", 10_000, 0);
    assert_eq!(leases.len(), 1);
    assert!(leases.any_active(0));
}

#[test]
fn expired_lease_is_pruned_and_not_active() {
    let mut leases = Leases::default();
    leases.heartbeat("stale", 1_000, 0);
    assert!(!leases.any_active(2_000), "expired lease must not keep the daemon alive");
    assert_eq!(leases.len(), 0, "any_active prunes expired leases");
}

#[test]
fn should_reap_requires_idle_and_no_lease() {
    let mut leases = Leases::default();
    let timeout = 120_000;
    assert!(should_reap(121_000, timeout, &mut leases, 0));
    assert!(!should_reap(10_000, timeout, &mut leases, 0));
    leases.heartbeat("app", 60_000, 0);
    assert!(!should_reap(121_000, timeout, &mut leases, 0));
}

#[test]
fn lease_ttl_is_clamped() {
    let mut leases = Leases::default();
    leases.heartbeat("short", 1, 0);
    assert!(leases.any_active(999));
    assert!(!leases.any_active(1_000));
    leases.heartbeat("long", u64::MAX, 0);
    assert!(leases.any_active(299_999));
    assert!(!leases.any_active(300_000));
}

#[test]
fn activity_measures_idle_time() {
    let mut a = Activity::new(1_000);
    assert_eq!(a.idle_for(4_000), 3_000);
    a.touch(5_000);
    assert_eq!(a.idle_for(4_000), 0);
}

#[test]
fn token_comparison_and_authentication() {
    assert!(constant_time_eq(b"secret", b"secret"));
    assert!(!constant_time_eq(b"secret", b"secreT"));
    assert!(!constant_time_eq(b"a", b"ab"));
    let mut ctx = RequestContext::remote("peer");
    assert_eq!(authenticate(&mut ctx, Some("tok"), "bad"), Err("authentication failed".to_string()));
    assert_eq!(ctx.caller, Caller::Remote("peer".into()));
    assert_eq!(authenticate(&mut ctx, Some("tok"), "tok"), Ok(()));
    assert_eq!(ctx.caller, Caller::Authenticated("token".into()));
    let mut local = RequestContext::local();
    assert_eq!(authenticate(&mut local, None, "anything"), Ok(()));
    assert_eq!(local.caller, Caller::Local);
}

fn conn(ctx: RequestContext, token: Option<&str>) -> Connection {
    Connection {
        ctx,
        token: token.map(|t| t.to_string()),
        app_scope: false,
    }
}

#[test]
fn connection_step_answers_lifecycle_requests() {
    let mut c = conn(RequestContext::local(), None);
    let mut leases = Leases::new();
    let mut act = Some(Activity::new(0));
    assert_eq!(connection_step(&mut c, &mut leases, &mut act, 5, ConnEvent::Blank), ConnAction::Skip);
    assert_eq!(act.unwrap().last_ms, 0, "a blank line is not activity");
    let r = connection_step(
        &mut c,
        &mut leases,
        &mut act,
        10,
        ConnEvent::Heartbeat { lease: "app".into(), ttl_ms: 30_000 },
    );
    assert_eq!(r, ConnAction::ReplyOk);
    assert_eq!(leases.len(), 1);
    assert_eq!(act.unwrap().last_ms, 10);
    assert_eq!(
        connection_step(&mut c, &mut leases, &mut act, 11, ConnEvent::ReleaseLease("app".into())),
        ConnAction::ReplyOk
    );
    assert_eq!(leases.len(), 0);
    assert_eq!(connection_step(&mut c, &mut leases, &mut act, 12, ConnEvent::AnnounceApp), ConnAction::ReplyOk);
    assert!(c.app_scope);
    assert_eq!(connection_step(&mut c, &mut leases, &mut act, 13, ConnEvent::Service), ConnAction::Dispatch);
    assert_eq!(
        connection_step(&mut c, &mut leases, &mut act, 14, ConnEvent::Shutdown),
        ConnAction::ReplyOkThenShutdown
    );
    assert_eq!(act.unwrap().last_ms, 13, "a shutdown is not activity");
    assert_eq!(connection_step(&mut c, &mut leases, &mut act, 15, ConnEvent::Eof), ConnAction::Stop);
}

#[test]
fn connection_step_guards_remote_callers() {
    let mut c = conn(RequestContext::remote("10.0.0.9:5000"), Some("s3cret"));
    let mut leases = Leases::new();
    let mut act = None;
    assert_eq!(
        connection_step(&mut c, &mut leases, &mut act, 1, ConnEvent::AnnounceApp),
        ConnAction::ReplyError("lock management is available only to the local desktop app".into())
    );
    assert!(!c.app_scope);
    assert_eq!(
        connection_step(&mut c, &mut leases, &mut act, 2, ConnEvent::Shutdown),
        ConnAction::ReplyError("shutdown is available only to the local desktop app".into())
    );
    assert_eq!(
        connection_step(&mut c, &mut leases, &mut act, 3, ConnEvent::Authenticate("nope".into())),
        ConnAction::ReplyError("authentication failed".into())
    );
    assert!(matches!(c.ctx.caller, Caller::Remote(_)));
    assert_eq!(
        connection_step(&mut c, &mut leases, &mut act, 4, ConnEvent::Authenticate("s3cret".into())),
        ConnAction::ReplyOk
    );
    assert!(matches!(c.ctx.caller, Caller::Authenticated(ref p) if p == "token"));
    assert_eq!(
        connection_step(&mut c, &mut leases, &mut act, 5, ConnEvent::AnnounceApp),
        ConnAction::ReplyError("lock management is available only to the local desktop app".into())
    );
    assert_eq!(
        connection_step(&mut c, &mut leases, &mut act, 6, ConnEvent::TooLong),
        ConnAction::ReplyErrorThenStop("request line exceeds maximum length".into())
    );
    assert_eq!(
        connection_step(&mut c, &mut leases, &mut act, 7, ConnEvent::Invalid("expected value".into())),
        ConnAction::ReplyError("invalid request: expected value".into())
    );
}
