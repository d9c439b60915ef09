//! Index records, link rows and the block-level knowledge graph: the storage-agnostic pieces
//! that every index engine shares, so edges are extracted and graphs built identically.

use vstd::prelude::*;
use crate::block::{
    clone_opt, clone_props, clone_strings, contextual_text_of, dedup, first_text_line,
    first_text_line_exec, opt_str_view, prop_in, prop_lookup, props_view, strs_view, Block,
};
use crate::clock::{created, created_of};
use crate::id::BlockId;
use crate::link::{references_of, refs_view, RefSpec};
use crate::text::{chars_of, copy_range, push_str, string_from, trim, trim_bounds};
use crate::vault::{
    children_of, contains_id, ids_view, index_of_id, lemma_index_from, lemma_resolve_in_exists,
    resolve_in, roots_upto, Vault,
};

verus! {

/// An owned, index-friendly snapshot of a block.
#[derive(Debug, Clone, PartialEq, Eq)]
pub struct BlockRecord {
    /// Stable block id (its filename stem).
    pub id: BlockId,
    /// Optional human title.
    pub title: Option<String>,
    /// Tag names attached to the block.
    pub tags: Vec<String>,
    /// Fenced-code languages in the block.
    pub langs: Vec<String>,
    /// The Markdown body (verbatim).
    pub content: String,
    /// Title-prepended plain text used for search context.
    pub contextual_text: String,
    /// Number of resolved children (transclusions).
    pub child_count: usize,
    /// Human-only flag (frontmatter `locked: true`).
    pub locked: bool,
    /// Block properties: open-ended `key: value` metadata.
    pub props: Vec<(String, String)>,
    /// Creation time (RFC 3339 UTC), decoded from the block's id.
    pub created: Option<String>,
    /// Last-modified time (RFC 3339 UTC), when one is known.
    pub updated: Option<String>,
}

/// The display title of a record: its trimmed title, else the first non-empty line of its
/// content with leading `#`s dropped (at most 80 characters), else its id.
pub open spec fn record_title_of(title: Option<Seq<char>>, content: Seq<char>, id: Seq<char>) -> Seq<char> {
    if title is Some && trim(title->0).len() > 0 {
        trim(title->0)
    } else {
        match first_text_line(content, 0) {
            Some(t) => if t.len() > 80 {
                t.take(80)
            } else {
                t
            },
            None => id,
        }
    }
}

impl BlockRecord {
    /// Build a record from a parsed block and its resolved child count.
    pub fn from_block(block: &Block, child_count: usize) -> (r: BlockRecord)
        ensures
            r.id@ == block.id@,
            opt_str_view(r.title) == opt_str_view(block.title),
            strs_view(r.tags@) == dedup(strs_view(block.tags@)),
            strs_view(r.langs@) == strs_view(block.langs@),
            r.content@ == block.body@,
            r.contextual_text@ == contextual_text_of(opt_str_view(block.title), block.body@),
            r.child_count == child_count,
            r.locked == block.locked,
            props_view(r.props@) == props_view(block.props@),
            opt_str_view(r.created) == created_of(block.id@),
            r.updated is None,
    {
        let names = block.tag_names();
        let mut tags: Vec<String> = Vec::new();
        let mut i: usize = 0;
        while i < names.len()
            invariant
                i <= names@.len(),
                strs_view(tags@) == names@.take(i as int).map_values(|s: &str| s@),
            decreases names.len() - i,
        {
            let t = string_from(&chars_of(names[i]));
            tags.push(t);
            assert(names@.take(i + 1).map_values(|s: &str| s@) =~= names@.take(i as int).map_values(
                |s: &str| s@,
            ).push(names@[i as int]@));
            assert(strs_view(tags@) =~= names@.take(i + 1).map_values(|s: &str| s@));
            i += 1;
        }
        assert(names@.take(names@.len() as int) =~= names@);
        let c = created(&block.id);
        BlockRecord {
            id: block.id.clone(),
            title: clone_opt(&block.title),
            tags,
            langs: clone_strings(&block.langs),
            content: block.body.clone(),
            contextual_text: block.contextual_text(),
            child_count,
            locked: block.locked,
            props: clone_props(&block.props),
            created: c,
            updated: None,
        }
    }

    /// A short display title for this record.
    pub fn display_title(&self) -> (r: String)
        ensures
            r@ == record_title_of(opt_str_view(self.title), self.content@, self.id@),
    {
        if let Some(t) = &self.title {
            let tv = chars_of(t.as_str());
            let (a, b) = trim_bounds(&tv, 0, tv.len());
            assert(tv@.subrange(0, tv@.len() as int) =~= tv@);
            if b > a {
                return string_from(&copy_range(&tv, a, b));
            }
        }
        let cv = chars_of(self.content.as_str());
        match first_text_line_exec(&cv) {
            Some(t) => {
                if t.len() > 80 {
                    string_from(&copy_range(&t, 0, 80))
                } else {
                    string_from(&t)
                }
            },
            None => {
                let v = chars_of(self.id.as_str());
                string_from(&v)
            },
        }
    }

    /// The value of property `key`, if present (the key compared ignoring ASCII case).
    pub fn prop(&self, key: &str) -> (r: Option<&str>)
        ensures
            match r {
                Some(v) => prop_lookup(props_view(self.props@), key@) == Some(v@),
                None => prop_lookup(props_view(self.props@), key@) is None,
            },
    {
        prop_in(&self.props, key)
    }
}

/// What a link or embed write actually wrote. A requested transclusion that would have closed
/// a cycle is downgraded to a plain reference.
#[derive(Debug, Clone, Copy, PartialEq, Eq, Structural)]
pub enum LinkOutcome {
    /// A plain `[[reference]]` was written, as requested.
    Reference,
    /// A `![[transclusion]]` was written, as requested.
    Transclusion,
    /// A transclusion was requested but would have formed a cycle, so a plain `[[reference]]`
    /// was written instead.
    DowngradedToReference,
}

/// The relationship a link expresses.
#[derive(Debug, Clone, Copy, PartialEq, Eq, Structural)]
pub enum LinkKind {
    /// `![[...]]`: an embed (a child edge).
    Transcludes,
    /// `[[...]]`: a plain reference.
    References,
}

/// The kind of a directive with the given `embed` flag.
pub open spec fn kind_of(embed: bool) -> LinkKind {
    if embed {
        LinkKind::Transcludes
    } else {
        LinkKind::References
    }
}

impl LinkKind {
    /// Short stable string form.
    pub fn as_str(&self) -> (r: &'static str)
        ensures
            r@ == match *self {
                LinkKind::Transcludes => "transcludes"@,
                LinkKind::References => "references"@,
            },
    {
        match self {
            LinkKind::Transcludes => "transcludes",
            LinkKind::References => "references",
        }
    }
}

/// A directed edge from one block to another (resolved), or a dangling directive.
#[derive(Debug, Clone, PartialEq, Eq)]
pub struct LinkRow {
    /// The block that contains the directive.
    pub source_id: BlockId,
    /// Resolved target block id, if the target resolved.
    pub target_id: Option<BlockId>,
    /// The raw target token (id or title) as written.
    pub target: String,
    /// Embed or plain reference.
    pub kind: LinkKind,
}

impl LinkRow {
    /// A copy of this row.
    pub fn duplicate(&self) -> (r: LinkRow)
        ensures
            row_view(r) == row_view(*self),
    {
        LinkRow {
            source_id: self.source_id.clone(),
            target_id: match &self.target_id {
                Some(t) => Some(t.clone()),
                None => None,
            },
            target: self.target.clone(),
            kind: self.kind,
        }
    }
}

pub open spec fn opt_id_view(o: Option<BlockId>) -> Option<Seq<char>> {
    match o {
        Some(i) => Some(i@),
        None => None,
    }
}

/// The content of a link row: source, resolved target, raw target, kind.
pub open spec fn row_view(r: LinkRow) -> (Seq<char>, Option<Seq<char>>, Seq<char>, LinkKind) {
    (r.source_id@, opt_id_view(r.target_id), r.target@, r.kind)
}

pub open spec fn rows_view(v: Seq<LinkRow>) -> Seq<(Seq<char>, Option<Seq<char>>, Seq<char>, LinkKind)> {
    v.map_values(|r: LinkRow| row_view(r))
}

/// The link rows of the block `b`: one per directive, in order, each with its resolved target
/// (none when dangling).
pub open spec fn links_of(bs: Seq<Block>, b: Block) -> Seq<(Seq<char>, Option<Seq<char>>, Seq<char>, LinkKind)> {
    references_of(b.body@).map_values(
        |r: RefSpec| (b.id@, resolve_in(bs, r.target), r.target, kind_of(r.embed)),
    )
}

/// Lightweight index statistics.
#[derive(Debug, Clone, Copy, Default, PartialEq, Eq, Structural)]
pub struct IndexStats {
    /// Number of indexed blocks.
    pub blocks: usize,
    /// Number of root blocks (not transcluded by anything).
    pub roots: usize,
    /// Number of blocks with a stored embedding.
    pub embedded: usize,
}

/// A tag and how many blocks carry it.
#[derive(Debug, Clone, PartialEq, Eq)]
pub struct TagCount {
    /// The tag name.
    pub tag: String,
    /// Number of blocks carrying it.
    pub count: usize,
}

/// An error from an index operation.
#[derive(Debug)]
pub struct IndexError(pub String);

impl IndexError {
    /// An error carrying the given message.
    pub fn new(e: &str) -> (r: IndexError)
        ensures
            r.0@ == e@,
    {
        IndexError(e.to_owned())
    }

    /// The error as text: `index error: <message>`.
    pub fn to_string(&self) -> (r: String)
        ensures
            r@ == "index error: "@ + self.0@,
    {
        let mut v: Vec<char> = Vec::new();
        push_str(&mut v, "index error: ");
        push_str(&mut v, self.0.as_str());
        string_from(&v)
    }
}

/// The resolved link rows of a block, given a vault for target resolution: one row per
/// directive, in document order. Unresolved targets keep `target_id = None` (dangling) but are
/// still recorded.
pub fn block_links(vault: &Vault, block: &Block) -> (r: Vec<LinkRow>)
    ensures
        rows_view(r@) == links_of(vault.entries(), *block),
{
    let refs = block.references();
    let ghost rs = refs_view(refs@);
    let mut out: Vec<LinkRow> = Vec::new();
    let mut i: usize = 0;
    while i < refs.len()
        invariant
            rs == refs_view(refs@),
            rs == crate::link::in_bytes(block.body@, references_of(block.body@)),
            i <= rs.len(),
            rows_view(out@) == links_of(vault.entries(), *block).take(i as int),
        decreases refs.len() - i,
    {
        let r = &refs[i];
        assert(rs[i as int] == r@);
        let tid = vault.resolve(r.target.as_str());
        assert(opt_id_view(tid) == resolve_in(vault.entries(), r@.target));
        let row = LinkRow {
            source_id: block.id.clone(),
            target_id: tid,
            target: r.target.clone(),
            kind: if r.embed {
                LinkKind::Transcludes
            } else {
                LinkKind::References
            },
        };
        let ghost before = rows_view(out@);
        out.push(row);
        assert(rows_view(out@) =~= before.push(row_view(row)));
        assert(links_of(vault.entries(), *block).take(i + 1) =~= links_of(vault.entries(), *block).take(i as int).push(links_of(vault.entries(), *block)[i as int]));
        assert(rows_view(out@) =~= links_of(vault.entries(), *block).take(i + 1));
        i += 1;
    }
    assert(links_of(vault.entries(), *block).take(rs.len() as int) =~= links_of(vault.entries(), *block));
    out
}

// ---------------------------------------------------------------------------------------------
// The knowledge graph.
// ---------------------------------------------------------------------------------------------

/// A node in the knowledge graph (one per block).
#[derive(Debug, Clone, PartialEq, Eq)]
pub struct GraphNode {
    /// Block id.
    pub id: BlockId,
    /// Display title.
    pub title: String,
    /// How many edges point at this block.
    pub in_degree: usize,
    /// How many edges leave this block.
    pub out_degree: usize,
    /// Whether this block is a root (nothing transcludes it).
    pub root: bool,
}

/// A directed edge between two blocks in the knowledge graph.
#[derive(Debug, Clone, PartialEq, Eq)]
pub struct GraphEdge {
    /// Source block id.
    pub source: BlockId,
    /// Target block id.
    pub target: BlockId,
    /// Reference or transclusion.
    pub kind: LinkKind,
}

/// The whole vault as a block-level link graph.
#[derive(Debug, Clone, PartialEq, Eq)]
pub struct GraphData {
    /// One node per block, in id order.
    pub nodes: Vec<GraphNode>,
    /// Directed edges between blocks (resolved only).
    pub edges: Vec<GraphEdge>,
}

pub open spec fn edge_view(e: GraphEdge) -> (Seq<char>, Seq<char>, LinkKind) {
    (e.source@, e.target@, e.kind)
}

pub open spec fn edges_view(v: Seq<GraphEdge>) -> Seq<(Seq<char>, Seq<char>, LinkKind)> {
    v.map_values(|e: GraphEdge| edge_view(e))
}

pub open spec fn node_view(n: GraphNode) -> (Seq<char>, Seq<char>, nat, nat, bool) {
    (n.id@, n.title@, n.in_degree as nat, n.out_degree as nat, n.root)
}

pub open spec fn nodes_view(v: Seq<GraphNode>) -> Seq<(Seq<char>, Seq<char>, nat, nat, bool)> {
    v.map_values(|n: GraphNode| node_view(n))
}

/// The edges that the link rows of block `src` contribute: resolved targets other than `src`.
pub open spec fn edges_from_rows(
    src: Seq<char>,
    rows: Seq<(Seq<char>, Option<Seq<char>>, Seq<char>, LinkKind)>,
) -> Seq<(Seq<char>, Seq<char>, LinkKind)>
    decreases rows.len(),
{
    if rows.len() == 0 {
        seq![]
    } else {
        let init = edges_from_rows(src, rows.drop_last());
        match rows.last().1 {
            Some(t) => if t != src {
                init.push((src, t, rows.last().3))
            } else {
                init
            },
            None => init,
        }
    }
}

/// The edges of the first `n` blocks, block by block in id order.
pub open spec fn graph_edges(bs: Seq<Block>, n: int) -> Seq<(Seq<char>, Seq<char>, LinkKind)>
    decreases n,
{
    if n <= 0 {
        seq![]
    } else {
        graph_edges(bs, n - 1) + edges_from_rows(bs[n - 1].id@, links_of(bs, bs[n - 1]))
    }
}

/// How many of `es` end at `id` (`incoming`) or start at it.
pub open spec fn degree(es: Seq<(Seq<char>, Seq<char>, LinkKind)>, id: Seq<char>, incoming: bool) -> nat
    decreases es.len(),
{
    if es.len() == 0 {
        0
    } else {
        degree(es.drop_last(), id, incoming) + if (if incoming {
            es.last().1
        } else {
            es.last().0
        }) == id {
            1nat
        } else {
            0nat
        }
    }
}

/// The graph's nodes: per block its id, title, in- and out-degree and whether it is a root.
pub open spec fn graph_nodes(bs: Seq<Block>) -> Seq<(Seq<char>, Seq<char>, nat, nat, bool)> {
    let es = graph_edges(bs, bs.len() as int);
    bs.map_values(
        |b: Block|
            (
                b.id@,
                crate::block::display_title_of(opt_str_view(b.title), b.body@, b.id@),
                degree(es, b.id@, true),
                degree(es, b.id@, false),
                roots_upto(bs, bs.len() as int).contains(b.id@),
            ),
    )
}

fn count_degree(edges: &Vec<GraphEdge>, id: &BlockId, incoming: bool) -> (r: usize)
    ensures
        r == degree(edges_view(edges@), id@, incoming),
{
    let mut n: usize = 0;
    let mut j: usize = 0;
    while j < edges.len()
        invariant
            j <= edges@.len(),
            n == degree(edges_view(edges@).take(j as int), id@, incoming),
            n <= j,
        decreases edges.len() - j,
    {
        let e = &edges[j];
        let hit = if incoming {
            e.target.same(id)
        } else {
            e.source.same(id)
        };
        let ghost t = edges_view(edges@).take(j + 1);
        assert(t.drop_last() =~= edges_view(edges@).take(j as int));
        assert(t.last() == edge_view(*e));
        if hit {
            n += 1;
        }
        j += 1;
    }
    assert(edges_view(edges@).take(edges@.len() as int) =~= edges_view(edges@));
    n
}

/// Build the block-level knowledge graph of the vault: one node per block (with its in- and
/// out-degree and whether it is a root) and one edge per resolved directive between two
/// different blocks.
pub fn link_graph(vault: &Vault) -> (r: GraphData)
    ensures
        edges_view(r.edges@) == graph_edges(vault.entries(), vault.entries().len() as int),
        nodes_view(r.nodes@) == graph_nodes(vault.entries()),
{
    let ghost bs = vault.entries();
    let blocks = vault.blocks();
    let mut edges: Vec<GraphEdge> = Vec::new();
    let mut k: usize = 0;
    while k < blocks.len()
        invariant
            blocks@.map_values(|b: &Block| *b) == bs,
            bs == vault.entries(),
            k <= blocks@.len(),
            edges_view(edges@) == graph_edges(bs, k as int),
        decreases blocks.len() - k,
    {
        let b: &Block = blocks[k];
        assert(*b == bs[k as int]);
        let rows = block_links(vault, b);
        let ghost pre = edges_view(edges@);
        let ghost rv = rows_view(rows@);
        let mut j: usize = 0;
        while j < rows.len()
            invariant
                rv == rows_view(rows@),
                rv == links_of(bs, *b),
                j <= rows@.len(),
                edges_view(edges@) == pre + edges_from_rows(b.id@, rv.take(j as int)),
            decreases rows.len() - j,
        {
            let row = &rows[j];
            let ghost before = edges_view(edges@);
            let ghost t = rv.take(j + 1);
            assert(t.drop_last() =~= rv.take(j as int));
            assert(t.last() == row_view(*row));
            if let Some(target) = &row.target_id {
                if !target.same(&b.id) {
                    edges.push(GraphEdge { source: b.id.clone(), target: target.clone(), kind: row.kind });
                    assert(edges_view(edges@) =~= before.push(
                        (b.id@, target@, row.kind),
                    ));
                }
            }
            assert(edges_view(edges@) =~= pre + edges_from_rows(b.id@, t));
            j += 1;
        }
        assert(rv.take(rv.len() as int) =~= rv);
        k += 1;
    }
    let roots = vault.roots();
    let ghost es = edges_view(edges@);
    let mut nodes: Vec<GraphNode> = Vec::new();
    let mut k: usize = 0;
    while k < blocks.len()
        invariant
            blocks@.map_values(|b: &Block| *b) == bs,
            bs == vault.entries(),
            k <= blocks@.len(),
            es == edges_view(edges@),
            es == graph_edges(bs, bs.len() as int),
            ids_view(roots@) == roots_upto(bs, bs.len() as int),
            nodes_view(nodes@) == graph_nodes(bs).take(k as int),
        decreases blocks.len() - k,
    {
        let b: &Block = blocks[k];
        assert(*b == bs[k as int]);
        let node = GraphNode {
            id: b.id.clone(),
            title: b.display_title(),
            in_degree: count_degree(&edges, &b.id, true),
            out_degree: count_degree(&edges, &b.id, false),
            root: contains_id(&roots, &b.id),
        };
        let ghost before = nodes_view(nodes@);
        nodes.push(node);
        assert(nodes_view(nodes@) =~= before.push(node_view(node)));
        assert(graph_nodes(bs).take(k + 1) =~= graph_nodes(bs).take(k as int).push(graph_nodes(bs)[k as int]));
        k += 1;
    }
    assert(graph_nodes(bs).take(bs.len() as int) =~= graph_nodes(bs));
    GraphData { nodes, edges }
}

// ---------------------------------------------------------------------------------------------
// Reachability along transclusions.
// ---------------------------------------------------------------------------------------------

/// The blocks that some member of `s` embeds.
pub open spec fn embed_step(bs: Seq<Block>, s: Set<Seq<char>>) -> Set<Seq<char>> {
    Set::new(|p: Seq<char>| exists|x: Seq<char>| s.contains(x) && #[trigger] children_of(bs, x).contains(p))
}

/// The blocks within `k` embed-hops below `start` (`start` included).
pub open spec fn embed_reach(bs: Seq<Block>, start: Seq<char>, k: nat) -> Set<Seq<char>>
    decreases k,
{
    if k == 0 {
        set![start]
    } else {
        embed_reach(bs, start, (k - 1) as nat).union(embed_step(bs, embed_reach(bs, start, (k - 1) as nat)))
    }
}

/// Whether `start` reaches `goal` by following transclusion edges (a block reaches itself).
pub open spec fn transcludes_to(bs: Seq<Block>, start: Seq<char>, goal: Seq<char>) -> bool {
    exists|k: nat| #[trigger] embed_reach(bs, start, k).contains(goal)
}

proof fn lemma_resolve_all_exists(bs: Seq<Block>, targets: Seq<Seq<char>>)
    ensures
        forall|p: Seq<char>|
            #[trigger] crate::vault::resolve_all(bs, targets).contains(p) ==> index_of_id(bs, p) is Some,
    decreases targets.len(),
{
    if targets.len() > 0 {
        lemma_resolve_all_exists(bs, targets.drop_last());
        lemma_resolve_in_exists(bs, targets.last());
        let init = crate::vault::resolve_all(bs, targets.drop_last());
        assert forall|p: Seq<char>| #[trigger] crate::vault::resolve_all(bs, targets).contains(p) implies index_of_id(bs, p) is Some by {
            let all = crate::vault::resolve_all(bs, targets);
            let k = choose|k: int| 0 <= k < all.len() && all[k] == p;
            if k < init.len() {
                assert(init[k] == p);
                assert(init.contains(p));
            }
        }
    }
}

/// Embedded blocks are blocks of the vault.
proof fn lemma_children_exist(bs: Seq<Block>, x: Seq<char>, p: Seq<char>)
    requires
        children_of(bs, x).contains(p),
    ensures
        index_of_id(bs, p) is Some,
{
    match index_of_id(bs, x) {
        Some(i) => {
            lemma_resolve_all_exists(bs, crate::block::targets_where(references_of(bs[i].body@), true));
        },
        None => {},
    }
}

proof fn lemma_seen_bound(bs: Seq<Block>, start: Seq<char>, seen: Seq<Seq<char>>)
    requires
        seen.no_duplicates(),
        forall|x: Seq<char>| #[trigger] seen.contains(x) ==> x == start || index_of_id(bs, x) is Some,
    ensures
        seen.len() <= bs.len() + 1,
{
    let universe = seq![start] + bs.map_values(|b: Block| b.id@);
    assert(seen.to_set().subset_of(universe.to_set())) by {
        assert forall|x: Seq<char>| seen.to_set().contains(x) implies universe.to_set().contains(x) by {
            assert(seen.contains(x));
            if x == start {
                assert(universe[0] == start);
            } else {
                lemma_index_from(bs, x, 0);
                let k = index_of_id(bs, x)->0;
                assert(universe[k + 1] == x);
            }
        }
    }
    seen.unique_seq_to_set();
    universe.lemma_cardinality_of_set();
    vstd::set_lib::lemma_len_subset(seen.to_set(), universe.to_set());
}

/// A set that holds `start` and every block embedded by any of its members holds everything
/// `start` reaches.
proof fn lemma_closed_holds_reach(bs: Seq<Block>, start: Seq<char>, s: Set<Seq<char>>, k: nat)
    requires
        s.contains(start),
        forall|x: Seq<char>, p: Seq<char>|
            s.contains(x) && #[trigger] children_of(bs, x).contains(p) ==> s.contains(p),
    ensures
        embed_reach(bs, start, k).subset_of(s),
    decreases k,
{
    if k > 0 {
        lemma_closed_holds_reach(bs, start, s, (k - 1) as nat);
        let prev = embed_reach(bs, start, (k - 1) as nat);
        assert forall|p: Seq<char>| embed_step(bs, prev).contains(p) implies s.contains(p) by {
            let x = choose|x: Seq<char>| prev.contains(x) && #[trigger] children_of(bs, x).contains(p);
        }
    }
}

/// Whether `start` reaches `goal` by following transclusion edges, transitively. References are
/// ignored: only embeds expand when rendering, so only embeds can loop. A block reaches itself.
/// Creating `source ![[target]]` closes a cycle exactly when `target` reaches `source`.
pub fn transclusion_reaches(vault: &Vault, start: &BlockId, goal: &BlockId) -> (r: bool)
    ensures
        r == transcludes_to(vault.entries(), start@, goal@),
{
    let ghost bs = vault.entries();
    let ghost st = start@;
    let mut stack: Vec<BlockId> = Vec::new();
    stack.push(start.clone());
    let mut seen: Vec<BlockId> = Vec::new();
    proof {
        assert(ids_view(stack@) =~= seq![st]);
        assert(ids_view(stack@)[0] == st);
        assert(ids_view(seen@) =~= Seq::<Seq<char>>::empty());
        assert(embed_reach(bs, st, 0).contains(st));
    }
    while stack.len() > 0
        invariant
            bs == vault.entries(),
            st == start@,
            ids_view(seen@).no_duplicates(),
            forall|x: Seq<char>| #[trigger] ids_view(seen@).contains(x) ==> x == st || index_of_id(bs, x) is Some,
            forall|x: Seq<char>| #[trigger] ids_view(stack@).contains(x) ==> x == st || index_of_id(bs, x) is Some,
            forall|x: Seq<char>| #[trigger] ids_view(seen@).contains(x) ==> transcludes_to(bs, st, x),
            forall|x: Seq<char>| #[trigger] ids_view(stack@).contains(x) ==> transcludes_to(bs, st, x),
            forall|x: Seq<char>, p: Seq<char>|
                ids_view(seen@).contains(x) && #[trigger] children_of(bs, x).contains(p) ==> ids_view(seen@).contains(p)
                    || ids_view(stack@).contains(p),
            ids_view(seen@).contains(st) || ids_view(stack@).contains(st),
            !ids_view(seen@).contains(goal@),
        decreases bs.len() + 1 - seen@.len(), stack@.len(),
    {
        proof {
            lemma_seen_bound(bs, st, ids_view(seen@));
        }
        let ghost old_stack = ids_view(stack@);
        let ghost old_seen = ids_view(seen@);
        let id = match stack.pop() {
            Some(id) => id,
            None => return false,
        };
        proof {
            assert(old_stack =~= ids_view(stack@).push(id@));
            assert(old_stack[old_stack.len() - 1] == id@);
            assert(old_stack.contains(id@));
            assert forall|x: Seq<char>| old_stack.contains(x) implies ids_view(stack@).contains(x) || x == id@ by {
                let k = choose|k: int| 0 <= k < old_stack.len() && old_stack[k] == x;
                if k < old_stack.len() - 1 {
                    assert(ids_view(stack@)[k] == x);
                }
            }
            assert forall|x: Seq<char>| #[trigger] ids_view(stack@).contains(x) implies old_stack.contains(x) by {
                let k = choose|k: int| 0 <= k < ids_view(stack@).len() && ids_view(stack@)[k] == x;
                assert(old_stack[k] == x);
            }
        }
        if id.same(goal) {
            return true;
        }
        if contains_id(&seen, &id) {
            continue;
        }
        seen.push(id.clone());
        proof {
            assert(ids_view(seen@) =~= old_seen.push(id@));
            assert forall|x: Seq<char>| #[trigger] ids_view(seen@).contains(x) implies old_seen.contains(x) || x == id@ by {
                let k = choose|k: int| 0 <= k < ids_view(seen@).len() && ids_view(seen@)[k] == x;
                if k < old_seen.len() {
                    assert(old_seen[k] == x);
                }
            }
            assert(ids_view(seen@).contains(id@)) by {
                assert(ids_view(seen@)[old_seen.len() as int] == id@);
            }
            assert forall|x: Seq<char>| old_seen.contains(x) implies #[trigger] ids_view(seen@).contains(x) by {
                let k = choose|k: int| 0 <= k < old_seen.len() && old_seen[k] == x;
                assert(ids_view(seen@)[k] == x);
            }
            lemma_seen_bound(bs, st, ids_view(seen@));
        }
        let kids = vault.children(&id);
        let ghost kv = ids_view(kids@);
        let ghost mid = ids_view(stack@);
        let ghost k0 = choose|k: nat| #[trigger] embed_reach(bs, st, k).contains(id@);
        let mut j: usize = 0;
        while j < kids.len()
            invariant
                kv == ids_view(kids@),
                kv == children_of(bs, id@),
                j <= kids@.len(),
                embed_reach(bs, st, k0).contains(id@),
                ids_view(stack@) == mid + kv.take(j as int),
            decreases kids.len() - j,
        {
            let ghost before = ids_view(stack@);
            let kid = kids[j].clone();
            assert(kid@ == kv[j as int]);
            stack.push(kid);
            assert(ids_view(stack@) =~= before.push(kv[j as int]));
            assert(kv.take(j + 1) =~= kv.take(j as int).push(kv[j as int]));
            assert(ids_view(stack@) =~= mid + kv.take(j + 1));
            j += 1;
        }
        proof {
            assert(kv.take(kv.len() as int) =~= kv);
            let now = ids_view(stack@);
            assert forall|x: Seq<char>| mid.contains(x) implies #[trigger] now.contains(x) by {
                let k = choose|k: int| 0 <= k < mid.len() && mid[k] == x;
                assert(now[k] == x);
            }
            assert forall|x: Seq<char>| kv.contains(x) implies #[trigger] now.contains(x) by {
                let k = choose|k: int| 0 <= k < kv.len() && kv[k] == x;
                assert(now[mid.len() + k] == x);
            }
            assert forall|x: Seq<char>| #[trigger] now.contains(x) implies mid.contains(x) || kv.contains(x) by {
                let k = choose|k: int| 0 <= k < now.len() && now[k] == x;
                if k < mid.len() {
                    assert(mid[k] == x);
                } else {
                    assert(kv[k - mid.len()] == x);
                }
            }
            assert forall|x: Seq<char>| kv.contains(x) implies transcludes_to(bs, st, x) by {
                assert(embed_step(bs, embed_reach(bs, st, k0)).contains(x));
                assert(embed_reach(bs, st, k0 + 1).contains(x));
            }
            assert forall|x: Seq<char>| kv.contains(x) implies index_of_id(bs, x) is Some by {
                lemma_children_exist(bs, id@, x);
            }
        }
    }
    proof {
        let s = ids_view(seen@).to_set();
        assert forall|x: Seq<char>, p: Seq<char>|
            s.contains(x) && #[trigger] children_of(bs, x).contains(p) implies s.contains(p) by {
            assert(ids_view(seen@).contains(x));
        }
        assert(s.contains(st));
        if transcludes_to(bs, st, goal@) {
            let k = choose|k: nat| #[trigger] embed_reach(bs, st, k).contains(goal@);
            lemma_closed_holds_reach(bs, st, s, k);
            assert(s.contains(goal@));
        }
    }
    false
}

/// Every block reaches itself.
pub proof fn lemma_reaches_itself(bs: Seq<Block>, x: Seq<char>)
    ensures
        transcludes_to(bs, x, x),
{
    assert(embed_reach(bs, x, 0).contains(x));
}

proof fn lemma_reach_shift(bs: Seq<Block>, a: Seq<char>, b: Seq<char>, i: nat, j: nat)
    requires
        embed_reach(bs, a, i).contains(b),
    ensures
        embed_reach(bs, b, j).subset_of(embed_reach(bs, a, i + j)),
    decreases j,
{
    if j > 0 {
        lemma_reach_shift(bs, a, b, i, (j - 1) as nat);
        let prev_b = embed_reach(bs, b, (j - 1) as nat);
        let prev_a = embed_reach(bs, a, (i + j - 1) as nat);
        assert((i + j - 1) as nat == (i + (j - 1)) as nat);
        assert forall|p: Seq<char>| embed_step(bs, prev_b).contains(p) implies embed_step(bs, prev_a).contains(p) by {
            let x = choose|x: Seq<char>| prev_b.contains(x) && #[trigger] children_of(bs, x).contains(p);
            assert(prev_a.contains(x));
        }
    }
}

/// Reachability along transclusions is transitive.
pub proof fn lemma_reaches_transitive(bs: Seq<Block>, a: Seq<char>, b: Seq<char>, c: Seq<char>)
    requires
        transcludes_to(bs, a, b),
        transcludes_to(bs, b, c),
    ensures
        transcludes_to(bs, a, c),
{
    let i = choose|k: nat| #[trigger] embed_reach(bs, a, k).contains(b);
    let j = choose|k: nat| #[trigger] embed_reach(bs, b, k).contains(c);
    lemma_reach_shift(bs, a, b, i, j);
    assert(embed_reach(bs, a, i + j).contains(c));
}

proof fn lemma_row_edges(src: Seq<char>, rows: Seq<(Seq<char>, Option<Seq<char>>, Seq<char>, LinkKind)>)
    ensures
        forall|i: int|
            0 <= i < edges_from_rows(src, rows).len() ==> {
                let e = #[trigger] edges_from_rows(src, rows)[i];
                &&& e.0 == src
                &&& e.1 != src
                &&& exists|j: int| 0 <= j < rows.len() && #[trigger] rows[j].1 == Some(e.1) && rows[j].3 == e.2
            },
    decreases rows.len(),
{
    if rows.len() > 0 {
        let init_rows = rows.drop_last();
        lemma_row_edges(src, init_rows);
        let init = edges_from_rows(src, init_rows);
        let all = edges_from_rows(src, rows);
        assert forall|i: int| 0 <= i < all.len() implies {
            let e = #[trigger] all[i];
            &&& e.0 == src
            &&& e.1 != src
            &&& exists|j: int| 0 <= j < rows.len() && #[trigger] rows[j].1 == Some(e.1) && rows[j].3 == e.2
        } by {
            if i < init.len() {
                assert(all[i] == init[i]);
                let e = init[i];
                let j = choose|j: int| 0 <= j < init_rows.len() && #[trigger] init_rows[j].1 == Some(e.1)
                    && init_rows[j].3 == e.2;
                assert(rows[j] == init_rows[j]);
            } else {
                assert(rows[rows.len() - 1] == rows.last());
            }
        }
    }
}

/// The link graph has no self-loops, and each of its edges leaves the block whose link rows
/// hold it, toward that row's resolved target and with that row's kind.
pub proof fn lemma_graph_edges_from_links(bs: Seq<Block>, n: int)
    requires
        0 <= n <= bs.len(),
    ensures
        forall|i: int|
            0 <= i < graph_edges(bs, n).len() ==> {
                let e = #[trigger] graph_edges(bs, n)[i];
                &&& e.0 != e.1
                &&& exists|k: int| 0 <= k < n && #[trigger] bs[k].id@ == e.0 && exists|j: int|
                    0 <= j < links_of(bs, bs[k]).len() && #[trigger] links_of(bs, bs[k])[j].1 == Some(e.1)
                        && links_of(bs, bs[k])[j].3 == e.2
            },
    decreases n,
{
    if n > 0 {
        lemma_graph_edges_from_links(bs, n - 1);
        let prev = graph_edges(bs, n - 1);
        let b = bs[n - 1];
        let rows = links_of(bs, b);
        let last = edges_from_rows(b.id@, rows);
        lemma_row_edges(b.id@, rows);
        let all = graph_edges(bs, n);
        assert(all == prev + last);
        assert forall|i: int| 0 <= i < all.len() implies {
            let e = #[trigger] all[i];
            &&& e.0 != e.1
            &&& exists|k: int| 0 <= k < n && #[trigger] bs[k].id@ == e.0 && exists|j: int|
                0 <= j < links_of(bs, bs[k]).len() && #[trigger] links_of(bs, bs[k])[j].1 == Some(e.1)
                    && links_of(bs, bs[k])[j].3 == e.2
        } by {
            if i < prev.len() {
                assert(all[i] == prev[i]);
            } else {
                let e = last[i - prev.len()];
                assert(all[i] == e);
                let j = choose|j: int| 0 <= j < rows.len() && #[trigger] rows[j].1 == Some(e.1) && rows[j].3 == e.2;
                assert(bs[n - 1].id@ == e.0);
                assert(links_of(bs, bs[n - 1])[j].1 == Some(e.1));
            }
        }
    }
}

} // verus!
