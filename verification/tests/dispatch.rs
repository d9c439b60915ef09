use mdkb::blockfile::write_block;
use mdkb::dispatch::{answer, expect_heartbeat, expect_ids, expect_text, Response, Step};
use mdkb::id::BlockId;
use mdkb::index::LinkOutcome;
use mdkb::request::Request;
use mdkb::service::RequestContext;
use mdkb::vault::Vault;

/// A vault in memory, with the steps carried out as the daemon carries them out.
struct Mem {
    vault: Vault,
    next: u64,
}

fn id_n(n: u64) -> BlockId {
    BlockId::parse(&format!("01J{n:023}")).unwrap()
}

impl Mem {
    fn new() -> Mem {
        Mem { vault: Vault::new(), next: 1 }
    }

    fn run(&mut self, ctx: &RequestContext, req: Request) -> Response {
        let fresh = id_n(self.next);
        self.next += 1;
        match answer(&self.vault, ctx, &req, &fresh) {
            Step::Answer(r) => r,
            Step::Write { writes, then } => {
                for w in writes {
                    let src = write_block(w.title.as_deref(), &w.tags, w.locked, &w.props, &w.body);
                    self.vault.insert_source(w.id.clone(), &src);
                }
                then
            }
            Step::Delete(id) => {
                self.vault.remove(&id);
                Response::Done
            }
            Step::Defer => panic!("deferred: {req:?}"),
        }
    }

    fn create(&mut self, title: Option<&str>, body: &str) -> BlockId {
        match self.run(&RequestContext::local(), Request::CreateBlock { title: title.map(str::to_string), body: body.into() }) {
            Response::BlockId(id) => id,
            other => panic!("expected a block id, got {other:?}"),
        }
    }

    fn source(&mut self, id: &BlockId) -> String {
        match self.run(&RequestContext::local(), Request::GetBlockSource { id: id.clone() }) {
            Response::Text(Some(t)) => t,
            other => panic!("expected text, got {other:?}"),
        }
    }

    fn link(&mut self, s: &BlockId, t: &BlockId, embed: bool) -> Result<LinkOutcome, String> {
        match self.run(&RequestContext::local(), Request::LinkBlocks { source_id: s.clone(), target_id: t.clone(), embed }) {
            Response::Linked(o) => Ok(o),
            Response::Error { message } => Err(message),
            other => panic!("unexpected {other:?}"),
        }
    }

    fn render(&mut self, id: &BlockId) -> Option<String> {
        match self.run(&RequestContext::local(), Request::RenderBlock { id: id.clone() }) {
            Response::Text(t) => t,
            other => panic!("unexpected {other:?}"),
        }
    }
}

#[test]
fn create_update_render_round_trip() {
    let mut m = Mem::new();
    let ctx = RequestContext::local();
    let id = m.create(Some("Note"), "original body");
    assert_eq!(m.vault.block(&id).unwrap().body, "original body");
    let r = m.run(&ctx, Request::UpdateBlock { id: id.clone(), title: Some("Note".into()), body: "updated body".into(), force: false });
    assert!(matches!(r, Response::Done));
    assert_eq!(m.source(&id), "updated body");
    assert_eq!(m.vault.block(&id).unwrap().title.as_deref(), Some("Note"));
}

#[test]
fn carve_creates_child_and_links_parent() {
    let mut m = Mem::new();
    let ctx = RequestContext::local();
    let parent = m.create(Some("Guide"), "intro");
    let child = match m.run(&ctx, Request::CarveBlock { parent_id: parent.clone(), title: Some("Shared step".into()), body: "do the thing".into() }) {
        Response::BlockId(c) => c,
        other => panic!("unexpected {other:?}"),
    };
    let rendered = m.render(&parent).unwrap();
    assert!(rendered.contains("do the thing"), "got: {rendered}");
    assert!(m.vault.children(&parent).contains(&child));
}

#[test]
fn carve_selection_extracts_range_in_place() {
    let mut m = Mem::new();
    let ctx = RequestContext::local();
    let body = "before SHARED after";
    let parent = m.create(Some("Guide"), body);
    let start = body.find("SHARED").unwrap();
    let end = start + "SHARED".len();
    let child = match m.run(&ctx, Request::CarveSelection { parent_id: parent.clone(), start, end }) {
        Response::BlockId(c) => c,
        other => panic!("unexpected {other:?}"),
    };
    assert_eq!(m.vault.block(&child).unwrap().body, "SHARED");
    let psrc = m.source(&parent);
    assert_eq!(psrc, format!("before ![[{}]] after", child.as_str()));
    let rendered = m.render(&parent).unwrap();
    assert!(rendered.contains("SHARED"));
    assert!(m.vault.children(&parent).contains(&child));
    assert_eq!(m.vault.block(&parent).unwrap().title.as_deref(), Some("Guide"));
}

#[test]
fn carve_selection_rejects_bad_range() {
    let mut m = Mem::new();
    let ctx = RequestContext::local();
    let parent = m.create(None, "short");
    let before = m.vault.len();
    assert!(matches!(m.run(&ctx, Request::CarveSelection { parent_id: parent.clone(), start: 3, end: 3 }), Response::Error { .. }));
    assert!(matches!(m.run(&ctx, Request::CarveSelection { parent_id: parent.clone(), start: 0, end: 999 }), Response::Error { .. }));
    assert_eq!(m.vault.len(), before);
    assert_eq!(m.source(&parent), "short");
}

#[test]
fn link_embed_reflects_in_render() {
    let mut m = Mem::new();
    let q = m.create(Some("Q"), "StormEvents | take 10");
    let host = m.create(Some("Host"), "Project notes:");
    assert_eq!(m.link(&host, &q, true), Ok(LinkOutcome::Transclusion));
    let rendered = m.render(&host).unwrap();
    assert!(rendered.contains("StormEvents | take 10"));
}

#[test]
fn embed_that_would_cycle_is_downgraded() {
    let mut m = Mem::new();
    let a = m.create(Some("A"), "block a");
    let b = m.create(Some("B"), "block b");
    assert_eq!(m.link(&a, &b, true), Ok(LinkOutcome::Transclusion));
    assert_eq!(m.link(&b, &a, true), Ok(LinkOutcome::DowngradedToReference));
    let b_src = m.source(&b);
    assert!(b_src.contains(&format!("[[{}]]", a.as_str())));
    assert!(!b_src.contains(&format!("![[{}]]", a.as_str())));
    assert!(m.render(&a).is_some());
    assert!(m.render(&b).is_some());
}

#[test]
fn self_embed_is_downgraded() {
    let mut m = Mem::new();
    let a = m.create(None, "note");
    assert_eq!(m.link(&a, &a, true), Ok(LinkOutcome::DowngradedToReference));
}

#[test]
fn reference_cycle_is_allowed() {
    let mut m = Mem::new();
    let a = m.create(None, "A");
    let b = m.create(None, "B");
    assert_eq!(m.link(&a, &b, false), Ok(LinkOutcome::Reference));
    assert_eq!(m.link(&b, &a, false), Ok(LinkOutcome::Reference));
}

#[test]
fn remote_caller_is_denied_by_default() {
    let mut m = Mem::new();
    let ctx = RequestContext::remote("agent-7");
    match m.run(&ctx, Request::ListBlocks) {
        Response::Error { message } => {
            assert_eq!(message, "unauthorized: remote caller agent-7 (authenticate with a token first)")
        }
        other => panic!("remote callers must fail closed, got {other:?}"),
    }
}

#[test]
fn delete_removes_block() {
    let mut m = Mem::new();
    let ctx = RequestContext::local();
    let id = m.create(None, "x");
    assert_eq!(m.vault.len(), 1);
    assert!(matches!(m.run(&ctx, Request::DeleteBlock { id }), Response::Done));
    assert_eq!(m.vault.len(), 0);
}

// Further cases.

#[test]
fn edits_of_a_missing_block_are_refused_and_write_nothing() {
    let m = Mem::new();
    let ctx = RequestContext::local();
    let ghost = id_n(99);
    let step = answer(&m.vault, &ctx, &Request::AppendToBlock { id: ghost.clone(), text: "x".into() }, &id_n(100));
    match step {
        Step::Answer(Response::Error { message }) => assert_eq!(message, format!("unknown block: {}", ghost.as_str())),
        other => panic!("unexpected {other:?}"),
    }
}

#[test]
fn append_props_tags_and_lock_keep_the_rest() {
    let mut m = Mem::new();
    let ctx = RequestContext::local();
    let id = m.create(Some("T"), "body");
    assert!(matches!(m.run(&ctx, Request::SetTags { id: id.clone(), tags: vec![" ops ".into(), "OPS".into(), "kql".into()] }), Response::Done));
    assert!(matches!(m.run(&ctx, Request::SetProps { id: id.clone(), props: vec![("source".into(), "web".into())] }), Response::Done));
    assert!(matches!(m.run(&ctx, Request::SetLock { id: id.clone(), locked: true }), Response::Done));
    assert!(matches!(m.run(&ctx, Request::AppendToBlock { id: id.clone(), text: "more".into() }), Response::Done));
    let b = m.vault.block(&id).unwrap();
    assert_eq!(b.fm_tags, vec!["ops".to_string(), "kql".to_string()]);
    assert_eq!(b.props, vec![("source".to_string(), "web".to_string())]);
    assert!(b.locked);
    assert_eq!(b.title.as_deref(), Some("T"));
    assert_eq!(b.body, "body\n\nmore\n");
    match m.run(&ctx, Request::SetProps { id: id.clone(), props: vec![("locked".into(), "false".into())] }) {
        Response::Error { message } => assert!(message.starts_with("reserved property key")),
        other => panic!("unexpected {other:?}"),
    }
    assert!(matches!(m.run(&ctx, Request::UnsetProps { id: id.clone(), keys: vec!["SOURCE".into()] }), Response::Done));
    assert!(m.vault.block(&id).unwrap().props.is_empty());
}

#[test]
fn connection_requests_and_index_requests_are_not_the_vaults() {
    let m = Mem::new();
    let ctx = RequestContext::local();
    assert!(matches!(answer(&m.vault, &ctx, &Request::Ping, &id_n(1)), Step::Answer(Response::Pong)));
    match answer(&m.vault, &ctx, &Request::Shutdown, &id_n(1)) {
        Step::Answer(Response::Error { message }) => assert_eq!(message, "shutdown is handled by the daemon connection layer"),
        other => panic!("unexpected {other:?}"),
    }
    assert!(matches!(answer(&m.vault, &ctx, &Request::Stats, &id_n(1)), Step::Defer));
    assert!(matches!(answer(&m.vault, &ctx, &Request::Rebuild, &id_n(1)), Step::Defer));
}

#[test]
fn clients_map_replies_to_results() {
    assert_eq!(expect_heartbeat(Response::Heartbeat { generation: 7 }), Ok(7));
    assert_eq!(expect_heartbeat(Response::Done), Ok(0));
    assert_eq!(expect_heartbeat(Response::Error { message: "boom".into() }), Err("boom".to_string()));
    assert_eq!(expect_heartbeat(Response::Pong), Err("unexpected response: pong".to_string()));
    assert_eq!(expect_ids(Response::Ids(vec![id_n(3)])).unwrap().len(), 1);
    assert_eq!(expect_ids(Response::Text(None)).unwrap_err(), "unexpected response: text");
    assert_eq!(expect_text(Response::Text(Some("hi".into()))), Ok(Some("hi".to_string())));
}
