# mdkb — a verified core for a Markdown knowledge base

mdkb keeps knowledge as one Markdown file per block (`blocks/<ULID>.md`). A block can embed
another (`![[id]]`, a live transclusion) or reference it (`[[id]]`). This crate is the core of
that system, written in Verus: every function in `src/` carries a contract, and Verus proves
the code meets it.

## Layout

- `src/` — the verified library:
  - text and directives: `text`, `link`, `yaml`, `rx`, `id`, `block`, `blockfile`;
  - Markdown structure: `document` (headings, fences, lists, quotes, paragraphs, frontmatter
    tags, heading lineage);
  - the vault graph and what is derived from it: `vault`, `lineage`, `index`, `render`,
    `conflict`, `assets`;
  - search input: `query`, `fts`, `clock`, `numeric`;
  - edits and requests: `edits`, `service`, `request`, `dispatch` (what the daemon answers or
    writes for each request), `mcp`, `cli`;
  - daemon and clients: `paths`, `config`, `server`, `connect`, `embedder`, `tools`;
  - presentation: `view`, `http`, `routes`, `appcore`;
  - `roundtrip` — what the block-file writer's text reads back as.
- `tests/` — the test suite (ordinary Rust against the compiled library).
- `app/` — ordinary Rust around the library: the environment, the registry and embedder
  configuration files, the wire form of requests, the daemon's socket loop and idle watchdog,
  the vault service that carries out each request's step, the client's connection and daemon
  start-up, vault directories, writing the docs `export` planned, the MCP tools' JSON schemas
  (built from `mcp::tool_specs`), and linking the desktop app's command-line tools.

## Laws

Besides the contracts of each function, the library states properties that span functions as
public proof functions, among them: a written block file parses back to its title, tags,
`locked` flag, properties and body (`roundtrip`); an embed shows the embedded block's current
body (`render`); heartbeats are idempotent and leases age out (`server`); property merges keep
what they do not name and unsets are idempotent (`edits`); explicit connection flags win over
the environment and the registry (`connect`); a parsed Markdown document's blocks come in
source order, each exactly the source text between the offsets it records (`document`).
The index and socket of a vault live in `<vault>/.mdkb` (`config`).
