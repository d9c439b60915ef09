//! What the daemon does with a request for the vault: answer it from the vault, refuse it, or
//! plan the block files to write and the answer to give once they are written. Writing the
//! files, re-indexing them, searching the index and the daemon's connection layer happen
//! outside; the id a newly created block gets is handed in.

use vstd::prelude::*;
use crate::block::{clone_opt, clone_props, clone_strings, opt_str_view, props_view, strs_view, Block, display_title_of};
use crate::edits::{append_text, appended, clean_tag_set, clean_tags, merge_from, merge_props, resolve_title, title_after, unset_props, without_keys};
use crate::id::BlockId;
use crate::index::{edges_view, graph_edges, graph_nodes, link_graph, nodes_view, rows_view, GraphData, LinkOutcome, LinkRow};
use crate::render::{render_block, render_block_of, render_flat, render_flat_of, render_text, rendered_block, RenderedBlock};
use crate::request::Request;
use crate::service::{
    carve_of, carve_selection_text, carved_body, carved_body_of, dangling_links, dangling_upto, directive_text, link_plan,
    unauthorized_message, would_cycle, Caller, RequestContext,
};
use crate::text::{push_str, string_from};
use crate::vault::{ids_view, index_of_id, roots_upto, Vault};

verus! {

/// What the daemon answers.
#[derive(Debug)]
pub enum Response {
    Pong,
    Ids(Vec<BlockId>),
    Graph(GraphData),
    Text(Option<String>),
    Rendered(Option<RenderedBlock>),
    Links(Vec<LinkRow>),
    BlockId(BlockId),
    Linked(LinkOutcome),
    /// File or asset names.
    Names(Vec<String>),
    /// The answer to a lease heartbeat: the daemon's vault-content generation.
    Heartbeat { generation: u64 },
    /// Success with no payload.
    Done,
    Error { message: String },
}

/// A block file to write: the block's frontmatter and body (the write time is added when it is
/// written).
#[derive(Debug, Clone)]
pub struct BlockWrite {
    pub id: BlockId,
    pub title: Option<String>,
    pub tags: Vec<String>,
    pub locked: bool,
    pub props: Vec<(String, String)>,
    pub body: String,
}

/// What to do with a request.
#[derive(Debug)]
pub enum Step {
    /// Answer, writing nothing.
    Answer(Response),
    /// Write these block files, in order, then answer `then`; a failed write is answered with
    /// its error and stops the plan.
    Write { writes: Vec<BlockWrite>, then: Response },
    /// Remove the block's file (if it is there) and its index entry, then answer `Ok`.
    Delete(BlockId),
    /// The request is the search index's, the file system's (assets, reconcile) or the
    /// connection layer's to serve.
    Defer,
}

/// A block write as plain values.
pub type WriteView = (Seq<char>, Option<Seq<char>>, Seq<Seq<char>>, bool, Seq<(Seq<char>, Seq<char>)>, Seq<char>);

pub open spec fn write_view(w: BlockWrite) -> WriteView {
    (w.id@, opt_str_view(w.title), strs_view(w.tags@), w.locked, props_view(w.props@), w.body@)
}

/// `r` is the error answer `msg`.
pub open spec fn fails_with(r: Step, msg: Seq<char>) -> bool {
    r matches Step::Answer(Response::Error { message }) && message@ == msg
}

/// `r` writes exactly `ws`, then answers with `then` holding.
pub open spec fn plans(r: Step, ws: Seq<WriteView>) -> bool {
    r matches Step::Write { writes, then } && writes@.map_values(|w: BlockWrite| write_view(w)) == ws
}

/// `r`, once its writes are done, answers with the block id `id`.
pub open spec fn answers_id(r: Step, id: Seq<char>) -> bool {
    r->then matches Response::BlockId(c) && c@ == id
}

/// The message for a block that is not in the vault.
pub open spec fn unknown_block(id: Seq<char>) -> Seq<char> {
    "unknown block: "@ + id
}

/// Block `b` rewritten with `body` and the given tags, lock and properties; its title kept as
/// an edit keeps it.
pub open spec fn rewrite(b: Block, tags: Seq<Seq<char>>, locked: bool, props: Seq<(Seq<char>, Seq<char>)>, body: Seq<char>) -> WriteView {
    (b.id@, title_after(opt_str_view(b.title), opt_str_view(b.title)), tags, locked, props, body)
}

/// Block `b` with only its body changed.
pub open spec fn with_body(b: Block, body: Seq<char>) -> WriteView {
    rewrite(b, strs_view(b.fm_tags@), b.locked, props_view(b.props@), body)
}

/// Block `b` with its body replaced and its title as an edit requesting `title` leaves it.
pub open spec fn edited(b: Block, title: Option<Seq<char>>, body: Seq<char>) -> WriteView {
    (b.id@, title_after(opt_str_view(b.title), title), strs_view(b.fm_tags@), b.locked, props_view(b.props@), body)
}

/// A new block: no tags, unlocked, no properties.
pub open spec fn new_block(id: Seq<char>, title: Option<Seq<char>>, body: Seq<char>) -> WriteView {
    (id, title, seq![], false, seq![], body)
}

/// The request is served by the connection layer, not the vault; the message it is answered
/// with if it reaches the vault.
pub open spec fn layer_message(req: Request) -> Option<Seq<char>> {
    match req {
        Request::Authenticate { .. } => Some("authenticate is handled by the transport layer"@),
        Request::AnnounceApp => Some("announce_app is handled by the daemon connection layer"@),
        Request::Shutdown => Some("shutdown is handled by the daemon connection layer"@),
        Request::Heartbeat { .. } => Some("lease ops are handled by the daemon lifecycle layer"@),
        Request::ReleaseLease { .. } => Some("lease ops are handled by the daemon lifecycle layer"@),
        _ => None,
    }
}

/// The read requests answered from the vault.
pub open spec fn is_vault_read(req: Request) -> bool {
    ||| req is ListBlocks
    ||| req is ListRoots
    ||| req is Graph
    ||| req is GetBlockSource
    ||| req is RenderBlock
    ||| req is RenderedBlock
    ||| req is RenderFlat
    ||| req is Dangling
}

/// The write requests planned from the vault.
pub open spec fn is_vault_write(req: Request) -> bool {
    ||| req is CreateBlock
    ||| req is AppendToBlock
    ||| req is UpdateBlock
    ||| req is DeleteBlock
    ||| req is SetTags
    ||| req is SetProps
    ||| req is UnsetProps
    ||| req is SetLock
    ||| req is CarveBlock
    ||| req is CarveSelection
    ||| req is LinkBlocks
}

/// `o` is what [`rendered_block`] gives for `id`.
pub open spec fn rendered_of(bs: Seq<Block>, id: Seq<char>, o: Option<RenderedBlock>) -> bool {
    match o {
        Some(rb) => index_of_id(bs, id) matches Some(k) && {
            let b = bs[k];
            &&& rb.id@ == id
            &&& rb.title@ == display_title_of(opt_str_view(b.title), b.body@, b.id@)
            &&& strs_view(rb.tags@) == strs_view(b.tags@)
            &&& strs_view(rb.fm_tags@) == strs_view(b.fm_tags@)
            &&& rb.raw@ == b.body@
            &&& rb.rendered@ == render_text(bs, seq![id], b.body@)
        },
        None => index_of_id(bs, id) is None,
    }
}

/// `resp` answers the read request `req` against the blocks `bs`.
pub open spec fn read_answer(bs: Seq<Block>, req: Request, resp: Response) -> bool {
    match req {
        Request::ListBlocks => resp matches Response::Ids(v) && ids_view(v@) == bs.map_values(
            |b: Block| b.id@,
        ),
        Request::ListRoots => resp matches Response::Ids(v) && ids_view(v@) == roots_upto(bs, bs.len() as int),
        Request::Graph => resp matches Response::Graph(g) && edges_view(g.edges@) == graph_edges(
            bs,
            bs.len() as int,
        ) && nodes_view(g.nodes@) == graph_nodes(bs),
        Request::GetBlockSource { id } => resp matches Response::Text(t) && opt_str_view(t) == match index_of_id(
            bs,
            id@,
        ) {
            Some(k) => Some(bs[k].body@),
            None => None,
        },
        Request::RenderBlock { id } => resp matches Response::Text(t) && opt_str_view(t) == render_block_of(bs, id@),
        Request::RenderedBlock { id } => resp matches Response::Rendered(o) && rendered_of(bs, id@, o),
        Request::RenderFlat { id } => resp matches Response::Text(t) && opt_str_view(t) == render_flat_of(bs, id@, None),
        Request::Dangling => resp matches Response::Links(v) && rows_view(v@) == dangling_upto(bs, bs.len() as int),
        _ => false,
    }
}

/// `r` carries out the write request `req` against the blocks `bs`, a created block getting
/// the id `fresh`: the error when a block it names is missing or its input is refused, else
/// the block files to write and the answer.
pub open spec fn write_step(bs: Seq<Block>, req: Request, fresh: Seq<char>, r: Step) -> bool {
    match req {
        Request::CreateBlock { title, body } => plans(r, seq![new_block(fresh, opt_str_view(title), body@)])
            && answers_id(r, fresh),
        Request::DeleteBlock { id } => r matches Step::Delete(x) && x@ == id@,
        Request::UpdateBlock { id, title, body, force: _ } => match index_of_id(bs, id@) {
            None => fails_with(r, unknown_block(id@)),
            Some(k) => plans(r, seq![edited(bs[k], opt_str_view(title), body@)]) && r->then is Done,
        },
        Request::AppendToBlock { id, text } => match index_of_id(bs, id@) {
            None => fails_with(r, unknown_block(id@)),
            Some(k) => plans(r, seq![with_body(bs[k], appended(bs[k].body@, text@))]) && r->then is Done,
        },
        Request::SetTags { id, tags } => match index_of_id(bs, id@) {
            None => fails_with(r, unknown_block(id@)),
            Some(k) => plans(
                r,
                seq![rewrite(bs[k], clean_tag_set(strs_view(tags@)), bs[k].locked, props_view(bs[k].props@), bs[k].body@)],
            ) && r->then is Done,
        },
        Request::SetProps { id, props } => match index_of_id(bs, id@) {
            None => fails_with(r, unknown_block(id@)),
            Some(k) => match merge_from(props_view(props@), 0, props_view(bs[k].props@), seq![]) {
                Ok(m) => plans(r, seq![rewrite(bs[k], strs_view(bs[k].fm_tags@), bs[k].locked, m, bs[k].body@)])
                    && r->then is Done,
                Err(e) => fails_with(r, e),
            },
        },
        Request::UnsetProps { id, keys } => match index_of_id(bs, id@) {
            None => fails_with(r, unknown_block(id@)),
            Some(k) => plans(
                r,
                seq![rewrite(bs[k], strs_view(bs[k].fm_tags@), bs[k].locked, without_keys(props_view(bs[k].props@), strs_view(keys@)), bs[k].body@)],
            ) && r->then is Done,
        },
        Request::SetLock { id, locked } => match index_of_id(bs, id@) {
            None => fails_with(r, unknown_block(id@)),
            Some(k) => plans(
                r,
                seq![rewrite(bs[k], strs_view(bs[k].fm_tags@), locked, props_view(bs[k].props@), bs[k].body@)],
            ) && r->then is Done,
        },
        Request::CarveBlock { parent_id, title, body } => match index_of_id(bs, parent_id@) {
            None => fails_with(r, unknown_block(parent_id@)),
            Some(k) => plans(
                r,
                seq![
                    new_block(fresh, opt_str_view(title), body@),
                    with_body(bs[k], appended(bs[k].body@, "![["@ + fresh + "]]"@)),
                ],
            ) && answers_id(r, fresh),
        },
        Request::CarveSelection { parent_id, start, end } => match index_of_id(bs, parent_id@) {
            None => fails_with(r, unknown_block(parent_id@)),
            Some(k) => match carve_of(bs[k].body@, start as int, end as int) {
                Err(e) => fails_with(r, e),
                Ok(sel) => plans(
                    r,
                    seq![
                        new_block(fresh, None, sel),
                        with_body(bs[k], carved_body_of(bs[k].body@, start as int, end as int, fresh)),
                    ],
                ) && answers_id(r, fresh),
            },
        },
        Request::LinkBlocks { source_id, target_id, embed } => match index_of_id(bs, source_id@) {
            None => fails_with(r, "unknown source block: "@ + source_id@),
            Some(k) => match index_of_id(bs, target_id@) {
                None => fails_with(r, "unknown target block: "@ + target_id@),
                Some(_) => {
                    let cyc = embed && would_cycle(bs, source_id@, target_id@);
                    &&& plans(r, seq![with_body(bs[k], appended(bs[k].body@, directive_text(target_id@, embed && !cyc)))])
                    &&& r->then == Response::Linked(
                        if !embed {
                            LinkOutcome::Reference
                        } else if cyc {
                            LinkOutcome::DowngradedToReference
                        } else {
                            LinkOutcome::Transclusion
                        },
                    )
                },
            },
        },
        _ => false,
    }
}

fn fail(msg: String) -> (r: Step)
    ensures
        fails_with(r, msg@),
{
    Step::Answer(Response::Error { message: msg })
}

fn unknown(id: &BlockId) -> (r: Step)
    ensures
        fails_with(r, unknown_block(id@)),
{
    let mut m: Vec<char> = Vec::new();
    push_str(&mut m, "unknown block: ");
    push_str(&mut m, id.as_str());
    fail(string_from(&m))
}

/// Block `b` rewritten (see [`rewrite`]).
fn rewrite_write(b: &Block, tags: Vec<String>, locked: bool, props: Vec<(String, String)>, body: String) -> (w: BlockWrite)
    ensures
        write_view(w) == rewrite(*b, strs_view(tags@), locked, props_view(props@), body@),
{
    let current: Option<&str> = match &b.title {
        Some(t) => Some(t.as_str()),
        None => None,
    };
    let title = resolve_title(&b.title, current);
    BlockWrite { id: b.id.clone(), title, tags, locked, props, body }
}

/// Block `b` with only its body changed (see [`with_body`]).
fn body_write(b: &Block, body: String) -> (w: BlockWrite)
    ensures
        write_view(w) == with_body(*b, body@),
{
    rewrite_write(b, clone_strings(&b.fm_tags), b.locked, clone_props(&b.props), body)
}

fn new_write(id: &BlockId, title: &Option<String>, body: &String) -> (w: BlockWrite)
    ensures
        write_view(w) == new_block(id@, opt_str_view(*title), body@),
{
    let w = BlockWrite {
        id: id.clone(),
        title: clone_opt(title),
        tags: Vec::new(),
        locked: false,
        props: Vec::new(),
        body: string_from(&crate::text::chars_of(body.as_str())),
    };
    assert(strs_view(w.tags@) =~= Seq::<Seq<char>>::empty());
    assert(props_view(w.props@) =~= Seq::<(Seq<char>, Seq<char>)>::empty());
    w
}

fn one(w: BlockWrite, then: Response) -> (r: Step)
    ensures
        plans(r, seq![write_view(w)]),
        r->then == then,
{
    let ghost wv = write_view(w);
    let mut writes: Vec<BlockWrite> = Vec::new();
    writes.push(w);
    assert(writes@.map_values(|x: BlockWrite| write_view(x)) =~= seq![wv]);
    Step::Write { writes, then }
}

fn two(w1: BlockWrite, w2: BlockWrite, then: Response) -> (r: Step)
    ensures
        plans(r, seq![write_view(w1), write_view(w2)]),
        r->then == then,
{
    let ghost v1 = write_view(w1);
    let ghost v2 = write_view(w2);
    let mut writes: Vec<BlockWrite> = Vec::new();
    writes.push(w1);
    writes.push(w2);
    assert(writes@.map_values(|x: BlockWrite| write_view(x)) =~= seq![v1, v2]);
    Step::Write { writes, then }
}

/// The answer to a read request from the vault (see [`read_answer`]).
fn read_vault(vault: &Vault, req: &Request) -> (r: Response)
    requires
        is_vault_read(*req),
    ensures
        read_answer(vault.entries(), *req, r),
{
    match req {
        Request::ListBlocks => Response::Ids(vault.ids()),
        Request::ListRoots => Response::Ids(vault.roots()),
        Request::Graph => Response::Graph(link_graph(vault)),
        Request::GetBlockSource { id } => Response::Text(
            match vault.block(id) {
                Some(b) => Some(string_from(&crate::text::chars_of(b.body.as_str()))),
                None => None,
            },
        ),
        Request::RenderBlock { id } => Response::Text(render_block(vault, id)),
        Request::RenderedBlock { id } => Response::Rendered(rendered_block(vault, id)),
        Request::RenderFlat { id } => Response::Text(render_flat(vault, id)),
        _ => Response::Links(dangling_links(vault)),
    }
}

/// The step for a write request (see [`write_step`]); `fresh` is the id a created block gets.
fn plan_write(vault: &Vault, req: &Request, fresh: &BlockId) -> (r: Step)
    requires
        is_vault_write(*req),
    ensures
        write_step(vault.entries(), *req, fresh@, r),
{
    match req {
        Request::CreateBlock { title, body } => one(new_write(fresh, title, body), Response::BlockId(fresh.clone())),
        Request::DeleteBlock { id } => Step::Delete(id.clone()),
        Request::UpdateBlock { id, title, body, force: _ } => match vault.block(id) {
            None => unknown(id),
            Some(b) => {
                let requested: Option<&str> = match title {
                    Some(t) => Some(t.as_str()),
                    None => None,
                };
                let w = BlockWrite {
                    id: b.id.clone(),
                    title: resolve_title(&b.title, requested),
                    tags: clone_strings(&b.fm_tags),
                    locked: b.locked,
                    props: clone_props(&b.props),
                    body: string_from(&crate::text::chars_of(body.as_str())),
                };
                one(w, Response::Done)
            },
        },
        Request::AppendToBlock { id, text } => match vault.block(id) {
            None => unknown(id),
            Some(b) => one(body_write(b, append_text(b.body.as_str(), text.as_str())), Response::Done),
        },
        Request::SetTags { id, tags } => match vault.block(id) {
            None => unknown(id),
            Some(b) => one(
                rewrite_write(
                    b,
                    clean_tags(tags.as_slice()),
                    b.locked,
                    clone_props(&b.props),
                    string_from(&crate::text::chars_of(b.body.as_str())),
                ),
                Response::Done,
            ),
        },
        Request::SetProps { id, props } => match vault.block(id) {
            None => unknown(id),
            Some(b) => match merge_props(&b.props, props.as_slice()) {
                Ok(m) => one(
                    rewrite_write(
                        b,
                        clone_strings(&b.fm_tags),
                        b.locked,
                        m,
                        string_from(&crate::text::chars_of(b.body.as_str())),
                    ),
                    Response::Done,
                ),
                Err(e) => fail(e),
            },
        },
        Request::UnsetProps { id, keys } => match vault.block(id) {
            None => unknown(id),
            Some(b) => one(
                rewrite_write(
                    b,
                    clone_strings(&b.fm_tags),
                    b.locked,
                    unset_props(&b.props, keys.as_slice()),
                    string_from(&crate::text::chars_of(b.body.as_str())),
                ),
                Response::Done,
            ),
        },
        Request::SetLock { id, locked } => match vault.block(id) {
            None => unknown(id),
            Some(b) => one(
                rewrite_write(
                    b,
                    clone_strings(&b.fm_tags),
                    *locked,
                    clone_props(&b.props),
                    string_from(&crate::text::chars_of(b.body.as_str())),
                ),
                Response::Done,
            ),
        },
        Request::CarveBlock { parent_id, title, body } => match vault.block(parent_id) {
            None => unknown(parent_id),
            Some(p) => {
                let mut d: Vec<char> = Vec::new();
                push_str(&mut d, "![[");
                push_str(&mut d, fresh.as_str());
                push_str(&mut d, "]]");
                let dir = string_from(&d);
                two(
                    new_write(fresh, title, body),
                    body_write(p, append_text(p.body.as_str(), dir.as_str())),
                    Response::BlockId(fresh.clone()),
                )
            },
        },
        Request::CarveSelection { parent_id, start, end } => match vault.block(parent_id) {
            None => unknown(parent_id),
            Some(p) => match carve_selection_text(p.body.as_str(), *start, *end) {
                Err(e) => fail(e.0),
                Ok(sel) => match carved_body(p.body.as_str(), *start, *end, fresh) {
                    Some(nb) => two(
                        new_write(fresh, &None, &sel),
                        body_write(p, nb),
                        Response::BlockId(fresh.clone()),
                    ),
                    None => Step::Defer,
                },
            },
        },
        Request::LinkBlocks { source_id, target_id, embed } => match link_plan(vault, source_id, target_id, *embed) {
            Err(e) => fail(e.0),
            Ok((outcome, directive)) => match vault.block(source_id) {
                Some(b) => one(body_write(b, append_text(b.body.as_str(), directive.as_str())), Response::Linked(outcome)),
                None => Step::Defer,
            },
        },
        _ => Step::Defer,
    }
}

/// What the daemon does with `req` from the caller of `ctx`: `Ping` is answered `Pong`; the
/// connection layer's requests are refused with its message; an unauthenticated remote
/// caller is refused any vault read or write; vault reads are answered from `vault`
/// ([`read_answer`]); vault writes are planned ([`write_step`]), a created block getting the id
/// `fresh`; every other request is deferred to the index, file and connection layers.
pub fn answer(vault: &Vault, ctx: &RequestContext, req: &Request, fresh: &BlockId) -> (r: Step)
    ensures
        req is Ping ==> r matches Step::Answer(Response::Pong),
        layer_message(*req) matches Some(m) ==> fails_with(r, m),
        is_vault_read(*req) ==> match ctx.caller {
            Caller::Remote(id) => fails_with(r, unauthorized_message(id@)),
            _ => r matches Step::Answer(resp) && read_answer(vault.entries(), *req, resp),
        },
        is_vault_write(*req) ==> match ctx.caller {
            Caller::Remote(id) => fails_with(r, unauthorized_message(id@)),
            _ => write_step(vault.entries(), *req, fresh@, r),
        },
        !(req is Ping) && layer_message(*req) is None && !is_vault_read(*req) && !is_vault_write(*req)
            ==> r is Defer,
{
    match req {
        Request::Ping => return Step::Answer(Response::Pong),
        Request::Authenticate { .. } => return fail("authenticate is handled by the transport layer".to_owned()),
        Request::AnnounceApp => return fail("announce_app is handled by the daemon connection layer".to_owned()),
        Request::Shutdown => return fail("shutdown is handled by the daemon connection layer".to_owned()),
        Request::Heartbeat { .. } => return fail("lease ops are handled by the daemon lifecycle layer".to_owned()),
        Request::ReleaseLease { .. } => return fail("lease ops are handled by the daemon lifecycle layer".to_owned()),
        _ => {},
    }
    let read = match req {
        Request::ListBlocks | Request::ListRoots | Request::Graph | Request::GetBlockSource { .. }
        | Request::RenderBlock { .. } | Request::RenderedBlock { .. } | Request::RenderFlat { .. }
        | Request::Dangling => true,
        _ => false,
    };
    let write = match req {
        Request::CreateBlock { .. } | Request::AppendToBlock { .. } | Request::UpdateBlock { .. }
        | Request::DeleteBlock { .. }
        | Request::SetTags { .. } | Request::SetProps { .. } | Request::UnsetProps { .. }
        | Request::SetLock { .. } | Request::CarveBlock { .. } | Request::CarveSelection { .. }
        | Request::LinkBlocks { .. } => true,
        _ => false,
    };
    if !read && !write {
        return Step::Defer;
    }
    if let Caller::Remote(id) = &ctx.caller {
        let mut m: Vec<char> = Vec::new();
        push_str(&mut m, "unauthorized: remote caller ");
        push_str(&mut m, id.as_str());
        push_str(&mut m, " (authenticate with a token first)");
        return fail(string_from(&m));
    }
    if read {
        Step::Answer(read_vault(vault, req))
    } else {
        plan_write(vault, req, fresh)
    }
}

// ---------------------------------------------------------------------------------------------
// What a client makes of a response.
// ---------------------------------------------------------------------------------------------

/// The wire name of a response's kind.
pub open spec fn kind_name(r: Response) -> Seq<char> {
    match r {
        Response::Pong => "pong"@,
        Response::Ids(_) => "ids"@,
        Response::Graph(_) => "graph"@,
        Response::Text(_) => "text"@,
        Response::Rendered(_) => "rendered"@,
        Response::Links(_) => "links"@,
        Response::BlockId(_) => "block_id"@,
        Response::Linked(_) => "linked"@,
        Response::Names(_) => "names"@,
        Response::Heartbeat { .. } => "heartbeat"@,
        Response::Done => "ok"@,
        Response::Error { .. } => "error"@,
    }
}

/// The wire name of a response's kind (see [`kind_name`]).
pub fn kind_of(r: &Response) -> (s: &'static str)
    ensures
        s@ == kind_name(*r),
{
    match r {
        Response::Pong => "pong",
        Response::Ids(_) => "ids",
        Response::Graph(_) => "graph",
        Response::Text(_) => "text",
        Response::Rendered(_) => "rendered",
        Response::Links(_) => "links",
        Response::BlockId(_) => "block_id",
        Response::Linked(_) => "linked",
        Response::Names(_) => "names",
        Response::Heartbeat { .. } => "heartbeat",
        Response::Done => "ok",
        Response::Error { .. } => "error",
    }
}

/// The error a client reports for a response it did not ask for: an error response's message,
/// else `unexpected response: <kind>`.
pub open spec fn refusal(r: Response) -> Seq<char> {
    match r {
        Response::Error { message } => message@,
        _ => "unexpected response: "@ + kind_name(r),
    }
}

fn refuse(r: Response) -> (e: String)
    ensures
        e@ == refusal(r),
{
    match r {
        Response::Error { message } => message,
        _ => {
            let mut m: Vec<char> = Vec::new();
            push_str(&mut m, "unexpected response: ");
            push_str(&mut m, kind_of(&r));
            string_from(&m)
        },
    }
}

/// The ids a listing request is answered with.
pub fn expect_ids(r: Response) -> (x: Result<Vec<BlockId>, String>)
    ensures
        match r {
            Response::Ids(v) => x matches Ok(w) && w == v,
            _ => x matches Err(e) && e@ == refusal(r),
        },
{
    match r {
        Response::Ids(v) => Ok(v),
        _ => Err(refuse(r)),
    }
}

/// The optional text a source or render request is answered with.
pub fn expect_text(r: Response) -> (x: Result<Option<String>, String>)
    ensures
        match r {
            Response::Text(t) => x matches Ok(u) && u == t,
            _ => x matches Err(e) && e@ == refusal(r),
        },
{
    match r {
        Response::Text(t) => Ok(t),
        _ => Err(refuse(r)),
    }
}

/// The block id a create or carve request is answered with.
pub fn expect_block_id(r: Response) -> (x: Result<BlockId, String>)
    ensures
        match r {
            Response::BlockId(id) => x matches Ok(y) && y == id,
            _ => x matches Err(e) && e@ == refusal(r),
        },
{
    match r {
        Response::BlockId(id) => Ok(id),
        _ => Err(refuse(r)),
    }
}

/// The names a conflicts or orphan-assets request is answered with.
pub fn expect_names(r: Response) -> (x: Result<Vec<String>, String>)
    ensures
        match r {
            Response::Names(v) => x matches Ok(w) && w == v,
            _ => x matches Err(e) && e@ == refusal(r),
        },
{
    match r {
        Response::Names(v) => Ok(v),
        _ => Err(refuse(r)),
    }
}

/// The outcome a link request is answered with.
pub fn expect_linked(r: Response) -> (x: Result<LinkOutcome, String>)
    ensures
        match r {
            Response::Linked(o) => x == Ok::<LinkOutcome, String>(o),
            _ => x matches Err(e) && e@ == refusal(r),
        },
{
    match r {
        Response::Linked(o) => Ok(o),
        _ => Err(refuse(r)),
    }
}

/// Success of a request answered with no payload.
pub fn expect_done(r: Response) -> (x: Result<(), String>)
    ensures
        match r {
            Response::Done => x is Ok,
            _ => x matches Err(e) && e@ == refusal(r),
        },
{
    match r {
        Response::Done => Ok(()),
        _ => Err(refuse(r)),
    }
}

/// The content generation a heartbeat is answered with; a daemon that answers a plain success
/// (one that keeps no generation) counts as generation `0`.
pub fn expect_heartbeat(r: Response) -> (x: Result<u64, String>)
    ensures
        match r {
            Response::Heartbeat { generation } => x == Ok::<u64, String>(generation),
            Response::Done => x == Ok::<u64, String>(0),
            _ => x matches Err(e) && e@ == refusal(r),
        },
{
    match r {
        Response::Heartbeat { generation } => Ok(generation),
        Response::Done => Ok(0),
        _ => Err(refuse(r)),
    }
}

} // verus!
