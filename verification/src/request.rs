//! The requests a client sends the daemon, and which of them change vault content. The wire
//! form (one JSON object per line) is read and written outside this crate; the request that
//! plans an export travels with the export module's own types and is not modelled here.

use vstd::prelude::*;
use crate::block::{opt_str_view, props_view, strs_view};
use crate::id::BlockId;
use crate::query::SearchQuery;

verus! {

/// A request to the daemon.
#[derive(Debug, Clone)]
pub enum Request {
    /// Liveness check.
    Ping,
    /// Index statistics.
    Stats,
    /// All block ids.
    ListBlocks,
    /// Root block ids.
    ListRoots,
    /// The block-level knowledge graph.
    Graph,
    /// All tags with per-tag block counts.
    ListTags,
    /// Search.
    Search { query: SearchQuery },
    /// A block record.
    GetBlock { id: BlockId },
    /// A block's content (raw, rendered or a 1-based inclusive line range) with its lineage and
    /// relationships.
    GetBlockView { id: BlockId, rendered: bool, start: Option<usize>, end: Option<usize> },
    /// A block's raw body.
    GetBlockSource { id: BlockId },
    /// Lines `start..=end` (1-based) of a block's raw body.
    GetBlockSourceRange { id: BlockId, start: usize, end: usize },
    /// A block rendered with its children resolved.
    RenderBlock { id: BlockId },
    /// A block as raw and resolved Markdown.
    RenderedBlock { id: BlockId },
    /// A block as flat, self-contained Markdown.
    RenderFlat { id: BlockId },
    /// Outgoing links of a block.
    LinksFrom { id: BlockId },
    /// Incoming references and transclusions of a block.
    Backlinks { id: BlockId },
    /// Dangling links across the vault.
    Dangling,
    /// Create a block.
    CreateBlock { title: Option<String>, body: String },
    /// Import an asset (bytes in base64).
    AddAsset { name: String, data_base64: String },
    /// Assets no block references.
    OrphanAssets,
    /// Delete an asset by its vault-relative path.
    RemoveAsset { path: String },
    /// Overwrite a block's title and body (`force` overrides the destructive-update guard).
    UpdateBlock { id: BlockId, title: Option<String>, body: String, force: bool },
    /// Replace exactly `expect_count` occurrences of `old` in a block's body.
    ReplaceInBlock { id: BlockId, old: String, new: String, expect_count: usize, force: bool },
    /// Append text to a block's body.
    AppendToBlock { id: BlockId, text: String },
    /// Delete a block.
    DeleteBlock { id: BlockId },
    /// Set a block's managed tags to exactly these.
    SetTags { id: BlockId, tags: Vec<String> },
    /// Merge properties into a block.
    SetProps { id: BlockId, props: Vec<(String, String)> },
    /// Remove the named properties from a block.
    UnsetProps { id: BlockId, keys: Vec<String> },
    /// Carve a new child out of a block.
    CarveBlock { parent_id: BlockId, title: Option<String>, body: String },
    /// Carve a byte range of a block's body into a new child, embedded in its place.
    CarveSelection { parent_id: BlockId, start: usize, end: usize },
    /// Inline a block's single embedded child and delete the child.
    FlattenBlock { parent_id: BlockId, child_id: BlockId },
    /// Link or embed one block into another.
    LinkBlocks { source_id: BlockId, target_id: BlockId, embed: bool },
    /// Reconcile the block files with the index.
    Reconcile,
    /// Rebuild the index from the block files.
    Rebuild,
    /// Cloud-sync conflict files found at the last reconcile.
    Conflicts,
    /// Authenticate the connection with a shared token.
    Authenticate { token: String },
    /// Acquire or renew an interactive lease.
    Heartbeat { lease: String, ttl_ms: u64 },
    /// Release an interactive lease.
    ReleaseLease { lease: String },
    /// Lock or unlock a block.
    SetLock { id: BlockId, locked: bool },
    /// Declare the connection the desktop app.
    AnnounceApp,
    /// Shut the daemon down.
    Shutdown,
}

/// Whether a request changes vault content (a block or an asset file), so the daemon advances
/// its content generation after it succeeds.
pub open spec fn is_write(r: Request) -> bool {
    ||| r is CreateBlock
    ||| r is AddAsset
    ||| r is RemoveAsset
    ||| r is UpdateBlock
    ||| r is ReplaceInBlock
    ||| r is AppendToBlock
    ||| r is DeleteBlock
    ||| r is SetTags
    ||| r is SetProps
    ||| r is UnsetProps
    ||| r is CarveBlock
    ||| r is CarveSelection
    ||| r is FlattenBlock
    ||| r is LinkBlocks
    ||| r is SetLock
}

impl Request {
    /// Whether applying this request changes vault content (see [`is_write`]); reads and
    /// connection or lifecycle requests do not.
    pub fn mutates(&self) -> (r: bool)
        ensures
            r == is_write(*self),
    {
        match self {
            Request::CreateBlock { .. } | Request::AddAsset { .. } | Request::RemoveAsset { .. }
            | Request::UpdateBlock { .. } | Request::ReplaceInBlock { .. } | Request::AppendToBlock { .. }
            | Request::DeleteBlock { .. } | Request::SetTags { .. } | Request::SetProps { .. }
            | Request::UnsetProps { .. } | Request::CarveBlock { .. } | Request::CarveSelection { .. }
            | Request::FlattenBlock { .. } | Request::LinkBlocks { .. } | Request::SetLock { .. } => true,
            Request::Ping | Request::Stats | Request::ListBlocks | Request::ListRoots | Request::Graph
            | Request::ListTags | Request::Search { .. } | Request::GetBlock { .. } | Request::GetBlockView { .. }
            | Request::GetBlockSource { .. } | Request::GetBlockSourceRange { .. } | Request::RenderBlock { .. }
            | Request::RenderedBlock { .. } | Request::RenderFlat { .. } | Request::LinksFrom { .. }
            | Request::Backlinks { .. } | Request::Dangling | Request::OrphanAssets | Request::Reconcile
            | Request::Rebuild | Request::Conflicts | Request::Authenticate { .. } | Request::Heartbeat { .. }
            | Request::ReleaseLease { .. } | Request::AnnounceApp | Request::Shutdown => false,
        }
    }
}

} // verus!
