//! The MCP tools: each tool call (a name and its arguments) becomes one daemon request. The
//! arguments arrive as a JSON object; the front-end hands over, for each member, the plain
//! value this translation reads (a string, a boolean, an unsigned integer, or an array whose
//! items are given by their string value and their `key` and `value` string members).

use vstd::prelude::*;
use crate::block::{opt_str_view, props_view, strs_view};
use crate::clock::{parse_query_date, query_date_of};
use crate::id::{is_ulid, BlockId};
use crate::index::LinkOutcome;
use crate::query::{empty_query, parse_safe, parsed_query, query_view, QueryView, SearchQuery};
use crate::request::Request;
use crate::text::{eq_ci, eq_ignore_case, chars_of, push_str, str_eq, string_from};
use crate::view::{decimal, push_decimal};

verus! {

/// An array item of a tool argument: its value if it is a string, and its `key` and `value`
/// members if they are strings.
#[derive(Debug, Clone)]
pub struct ArgItem {
    pub text: Option<String>,
    pub key: Option<String>,
    pub value: Option<String>,
}

/// The value of a tool argument, as far as the translation reads it.
#[derive(Debug, Clone)]
pub enum ArgValue {
    Str(String),
    Bool(bool),
    UInt(u64),
    Array(Vec<ArgItem>),
    Other,
}

/// A tool call's arguments: the members of its JSON object, each name once.
#[derive(Debug, Clone, Default)]
pub struct ToolArgs {
    pub entries: Vec<(String, ArgValue)>,
}

/// The names of the tools the server exposes.
pub open spec fn tool_list() -> Seq<Seq<char>> {
    seq![
        "search"@, "get_block"@, "render_block"@, "list_blocks"@, "list_roots"@, "graph"@,
        "list_tags"@, "backlinks"@, "links_from"@, "create_block"@, "update_block"@,
        "delete_block"@, "set_tags"@, "set_props"@, "unset_props"@, "carve_block"@,
        "flatten_block"@, "link_blocks"@, "stats"@, "rebuild"@, "conflicts"@
    ]
}

// ---------------------------------------------------------------------------------------------
// The tools' argument schemas.
// ---------------------------------------------------------------------------------------------

/// The JSON type of a tool argument: a string, an integer, a boolean, an array of strings, or an
/// array of objects with string members `key` and `value` (both required).
#[derive(Debug, Clone, Copy, PartialEq, Eq, Structural)]
pub enum ParamKind {
    Str,
    Int,
    Bool,
    StrArray,
    KeyValueArray,
}

/// One argument of a tool: its name, type, description (if any) and whether it is required.
#[derive(Debug, Clone)]
pub struct ToolParam {
    pub name: &'static str,
    pub kind: ParamKind,
    pub description: Option<&'static str>,
    pub required: bool,
}

/// A tool: its name, one-line description and arguments. Every tool's arguments form one JSON
/// object whose members are the parameters, in order.
#[derive(Debug, Clone)]
pub struct ToolSpec {
    pub name: &'static str,
    pub description: &'static str,
    pub params: Vec<ToolParam>,
}

/// A parameter as plain values.
pub open spec fn param_view(p: ToolParam) -> (Seq<char>, ParamKind, Option<Seq<char>>, bool) {
    (
        p.name@,
        p.kind,
        match p.description {
            Some(d) => Some(d@),
            None => None,
        },
        p.required,
    )
}

/// A tool as plain values.
pub open spec fn spec_view(t: ToolSpec) -> (Seq<char>, Seq<char>, Seq<(Seq<char>, ParamKind, Option<Seq<char>>, bool)>) {
    (t.name@, t.description@, t.params@.map_values(|p: ToolParam| param_view(p)))
}

pub open spec fn tool_specs_view(v: Seq<ToolSpec>) -> Seq<(Seq<char>, Seq<char>, Seq<(Seq<char>, ParamKind, Option<Seq<char>>, bool)>)> {
    v.map_values(|t: ToolSpec| spec_view(t))
}

/// The tools the server exposes, in order, with their arguments.
pub open spec fn tool_spec_list() -> Seq<(Seq<char>, Seq<char>, Seq<(Seq<char>, ParamKind, Option<Seq<char>>, bool)>)> {
    seq![
        ("search"@, "Search the knowledge base (keyword + semantic). Optional filters: lang, tags, limit, and created/updated date ranges (the staleness/freshness audit — e.g. updated_before to find blocks not touched since a date). Dates are YYYY-MM-DD or RFC 3339. created comes free from each block's id; updated is the last-write time."@, seq![
            ("query"@, ParamKind::Str, Some("Free-text query"@), false),
            ("lang"@, ParamKind::Str, Some("Restrict to a code-fence language (e.g. kusto)"@), false),
            ("tags"@, ParamKind::StrArray, Some("Require all of these tags"@), false),
            ("limit"@, ParamKind::Int, Some("Max results (default 50)"@), false),
            ("created_after"@, ParamKind::Str, Some("Only blocks created on/after this date (YYYY-MM-DD or RFC 3339)"@), false),
            ("created_before"@, ParamKind::Str, Some("Only blocks created before this date"@), false),
            ("updated_after"@, ParamKind::Str, Some("Only blocks last-modified on/after this date"@), false),
            ("updated_before"@, ParamKind::Str, Some("Only blocks last-modified before this date (find stale blocks)"@), false),
        ]),
        ("get_block"@, "Fetch a single block by id: its title, tags, properties, timestamps (created — free from the id — and updated), and Markdown body."@, seq![
            ("id"@, ParamKind::Str, None, true),
        ]),
        ("render_block"@, "Render a block with all child transclusions (![[id]]) resolved inline."@, seq![
            ("id"@, ParamKind::Str, None, true),
        ]),
        ("list_blocks"@, "List all block ids in the vault."@, seq![]),
        ("list_roots"@, "List root block ids (top-level entries that nothing transcludes)."@, seq![]),
        ("graph"@, "The block-level knowledge graph (nodes = blocks, edges = references/transclusions)."@, seq![]),
        ("list_tags"@, "List all tags in the vault with how many blocks carry each (tag discovery). Use a returned tag with search's `tags` filter to scope a domain."@, seq![]),
        ("backlinks"@, "List blocks that reference or transclude a given block id."@, seq![
            ("id"@, ParamKind::Str, None, true),
        ]),
        ("links_from"@, "List outgoing links/transclusions from a given block id."@, seq![
            ("id"@, ParamKind::Str, None, true),
        ]),
        ("create_block"@, "Create a new block (optional title + Markdown body). Returns the new block id."@, seq![
            ("title"@, ParamKind::Str, None, false),
            ("body"@, ParamKind::Str, None, true),
        ]),
        ("update_block"@, "Overwrite a block's title + Markdown body, by id. This replaces the ENTIRE body, so read the current body first (get_block) and send the full revised text — don't send a fragment. An edit that would empty the block or strip most of its content is refused unless force=true (use that only for a deliberate rewrite)."@, seq![
            ("id"@, ParamKind::Str, None, true),
            ("title"@, ParamKind::Str, None, false),
            ("body"@, ParamKind::Str, None, true),
            ("force"@, ParamKind::Bool, Some("Bypass the destructive-update guard for an intentional rewrite (default false)"@), false),
        ]),
        ("delete_block"@, "Delete a block (removes its file and index entries)."@, seq![
            ("id"@, ParamKind::Str, None, true),
        ]),
        ("set_tags"@, "Set a block's managed (frontmatter) tags to exactly the given list (replaces them; pass [] to clear). Inline #hashtags in the body are left untouched. Title and body are preserved."@, seq![
            ("id"@, ParamKind::Str, None, true),
            ("tags"@, ParamKind::StrArray, Some("The full desired tag set"@), true),
        ]),
        ("set_props"@, "Add or update a block's properties (open-ended key: value metadata, e.g. source/verified/confidence). Each given key is added or updated; ALL OTHER PROPERTIES ARE PRESERVED — this never replaces the whole set, so you can't accidentally drop a property you didn't name. Title, tags, lock state, and body are preserved. Property values are full-text searchable. Use unset_props to remove a property."@, seq![
            ("id"@, ParamKind::Str, None, true),
            ("props"@, ParamKind::KeyValueArray, Some("The properties to add or update (other properties are kept)"@), true),
        ]),
        ("unset_props"@, "Remove the named properties from a block, preserving all other properties (and title, tags, lock state, body). Keys not present are ignored. This is the only way to remove a property."@, seq![
            ("id"@, ParamKind::Str, None, true),
            ("keys"@, ParamKind::StrArray, Some("The property keys to remove"@), true),
        ]),
        ("carve_block"@, "Carve a new child block out of a parent: the new block gets the given body, and a ![[child]] directive is appended to the parent in place. Returns the new child id."@, seq![
            ("parent_id"@, ParamKind::Str, None, true),
            ("title"@, ParamKind::Str, None, false),
            ("body"@, ParamKind::Str, None, true),
        ]),
        ("flatten_block"@, "Flatten (uncarve): inline a parent's single ![[child]] embed back into the parent body and delete the child block. The inverse of carve_block. Only valid when the child is referenced in exactly one place in the whole vault (a single ![[child]] embed in the given parent, with no other embedders and no [[references]]); errors otherwise and changes nothing. The child's own ![[grandchild]] embeds are preserved."@, seq![
            ("parent_id"@, ParamKind::Str, None, true),
            ("child_id"@, ParamKind::Str, None, true),
        ]),
        ("link_blocks"@, "Link or embed one block into another. embed=true writes a transclusion (![[id]]); false a plain reference ([[id]]). An embed that would create a cycle is auto-downgraded to a reference."@, seq![
            ("source_id"@, ParamKind::Str, None, true),
            ("target_id"@, ParamKind::Str, None, true),
            ("embed"@, ParamKind::Bool, None, true),
        ]),
        ("stats"@, "Index statistics: block, root, and embedding counts."@, seq![]),
        ("rebuild"@, "Rebuild the entire search index from the block files (the source of truth)."@, seq![]),
        ("conflicts"@, "List cloud-sync conflict files detected in the vault (surfaced, not indexed)."@, seq![]),
    ]
}

/// The tools the server exposes (see [`tool_spec_list`]).
pub fn tool_specs() -> (r: Vec<ToolSpec>)
    ensures
        tool_specs_view(r@) == tool_spec_list(),
{
    let r: Vec<ToolSpec> = vec![
        ToolSpec {
            name: "search",
            description: "Search the knowledge base (keyword + semantic). Optional filters: lang, tags, limit, and created/updated date ranges (the staleness/freshness audit — e.g. updated_before to find blocks not touched since a date). Dates are YYYY-MM-DD or RFC 3339. created comes free from each block's id; updated is the last-write time.",
            params: vec![
                ToolParam { name: "query", kind: ParamKind::Str, description: Some("Free-text query"), required: false },
                ToolParam { name: "lang", kind: ParamKind::Str, description: Some("Restrict to a code-fence language (e.g. kusto)"), required: false },
                ToolParam { name: "tags", kind: ParamKind::StrArray, description: Some("Require all of these tags"), required: false },
                ToolParam { name: "limit", kind: ParamKind::Int, description: Some("Max results (default 50)"), required: false },
                ToolParam { name: "created_after", kind: ParamKind::Str, description: Some("Only blocks created on/after this date (YYYY-MM-DD or RFC 3339)"), required: false },
                ToolParam { name: "created_before", kind: ParamKind::Str, description: Some("Only blocks created before this date"), required: false },
                ToolParam { name: "updated_after", kind: ParamKind::Str, description: Some("Only blocks last-modified on/after this date"), required: false },
                ToolParam { name: "updated_before", kind: ParamKind::Str, description: Some("Only blocks last-modified before this date (find stale blocks)"), required: false },
            ],
        },
        ToolSpec {
            name: "get_block",
            description: "Fetch a single block by id: its title, tags, properties, timestamps (created — free from the id — and updated), and Markdown body.",
            params: vec![
                ToolParam { name: "id", kind: ParamKind::Str, description: None, required: true },
            ],
        },
        ToolSpec {
            name: "render_block",
            description: "Render a block with all child transclusions (![[id]]) resolved inline.",
            params: vec![
                ToolParam { name: "id", kind: ParamKind::Str, description: None, required: true },
            ],
        },
        ToolSpec {
            name: "list_blocks",
            description: "List all block ids in the vault.",
            params: Vec::new(),
        },
        ToolSpec {
            name: "list_roots",
            description: "List root block ids (top-level entries that nothing transcludes).",
            params: Vec::new(),
        },
        ToolSpec {
            name: "graph",
            description: "The block-level knowledge graph (nodes = blocks, edges = references/transclusions).",
            params: Vec::new(),
        },
        ToolSpec {
            name: "list_tags",
            description: "List all tags in the vault with how many blocks carry each (tag discovery). Use a returned tag with search's `tags` filter to scope a domain.",
            params: Vec::new(),
        },
        ToolSpec {
            name: "backlinks",
            description: "List blocks that reference or transclude a given block id.",
            params: vec![
                ToolParam { name: "id", kind: ParamKind::Str, description: None, required: true },
            ],
        },
        ToolSpec {
            name: "links_from",
            description: "List outgoing links/transclusions from a given block id.",
            params: vec![
                ToolParam { name: "id", kind: ParamKind::Str, description: None, required: true },
            ],
        },
        ToolSpec {
            name: "create_block",
            description: "Create a new block (optional title + Markdown body). Returns the new block id.",
            params: vec![
                ToolParam { name: "title", kind: ParamKind::Str, description: None, required: false },
                ToolParam { name: "body", kind: ParamKind::Str, description: None, required: true },
            ],
        },
        ToolSpec {
            name: "update_block",
            description: "Overwrite a block's title + Markdown body, by id. This replaces the ENTIRE body, so read the current body first (get_block) and send the full revised text — don't send a fragment. An edit that would empty the block or strip most of its content is refused unless force=true (use that only for a deliberate rewrite).",
            params: vec![
                ToolParam { name: "id", kind: ParamKind::Str, description: None, required: true },
                ToolParam { name: "title", kind: ParamKind::Str, description: None, required: false },
                ToolParam { name: "body", kind: ParamKind::Str, description: None, required: true },
                ToolParam { name: "force", kind: ParamKind::Bool, description: Some("Bypass the destructive-update guard for an intentional rewrite (default false)"), required: false },
            ],
        },
        ToolSpec {
            name: "delete_block",
            description: "Delete a block (removes its file and index entries).",
            params: vec![
                ToolParam { name: "id", kind: ParamKind::Str, description: None, required: true },
            ],
        },
        ToolSpec {
            name: "set_tags",
            description: "Set a block's managed (frontmatter) tags to exactly the given list (replaces them; pass [] to clear). Inline #hashtags in the body are left untouched. Title and body are preserved.",
            params: vec![
                ToolParam { name: "id", kind: ParamKind::Str, description: None, required: true },
                ToolParam { name: "tags", kind: ParamKind::StrArray, description: Some("The full desired tag set"), required: true },
            ],
        },
        ToolSpec {
            name: "set_props",
            description: "Add or update a block's properties (open-ended key: value metadata, e.g. source/verified/confidence). Each given key is added or updated; ALL OTHER PROPERTIES ARE PRESERVED — this never replaces the whole set, so you can't accidentally drop a property you didn't name. Title, tags, lock state, and body are preserved. Property values are full-text searchable. Use unset_props to remove a property.",
            params: vec![
                ToolParam { name: "id", kind: ParamKind::Str, description: None, required: true },
                ToolParam { name: "props", kind: ParamKind::KeyValueArray, description: Some("The properties to add or update (other properties are kept)"), required: true },
            ],
        },
        ToolSpec {
            name: "unset_props",
            description: "Remove the named properties from a block, preserving all other properties (and title, tags, lock state, body). Keys not present are ignored. This is the only way to remove a property.",
            params: vec![
                ToolParam { name: "id", kind: ParamKind::Str, description: None, required: true },
                ToolParam { name: "keys", kind: ParamKind::StrArray, description: Some("The property keys to remove"), required: true },
            ],
        },
        ToolSpec {
            name: "carve_block",
            description: "Carve a new child block out of a parent: the new block gets the given body, and a ![[child]] directive is appended to the parent in place. Returns the new child id.",
            params: vec![
                ToolParam { name: "parent_id", kind: ParamKind::Str, description: None, required: true },
                ToolParam { name: "title", kind: ParamKind::Str, description: None, required: false },
                ToolParam { name: "body", kind: ParamKind::Str, description: None, required: true },
            ],
        },
        ToolSpec {
            name: "flatten_block",
            description: "Flatten (uncarve): inline a parent's single ![[child]] embed back into the parent body and delete the child block. The inverse of carve_block. Only valid when the child is referenced in exactly one place in the whole vault (a single ![[child]] embed in the given parent, with no other embedders and no [[references]]); errors otherwise and changes nothing. The child's own ![[grandchild]] embeds are preserved.",
            params: vec![
                ToolParam { name: "parent_id", kind: ParamKind::Str, description: None, required: true },
                ToolParam { name: "child_id", kind: ParamKind::Str, description: None, required: true },
            ],
        },
        ToolSpec {
            name: "link_blocks",
            description: "Link or embed one block into another. embed=true writes a transclusion (![[id]]); false a plain reference ([[id]]). An embed that would create a cycle is auto-downgraded to a reference.",
            params: vec![
                ToolParam { name: "source_id", kind: ParamKind::Str, description: None, required: true },
                ToolParam { name: "target_id", kind: ParamKind::Str, description: None, required: true },
                ToolParam { name: "embed", kind: ParamKind::Bool, description: None, required: true },
            ],
        },
        ToolSpec {
            name: "stats",
            description: "Index statistics: block, root, and embedding counts.",
            params: Vec::new(),
        },
        ToolSpec {
            name: "rebuild",
            description: "Rebuild the entire search index from the block files (the source of truth).",
            params: Vec::new(),
        },
        ToolSpec {
            name: "conflicts",
            description: "List cloud-sync conflict files detected in the vault (surfaced, not indexed).",
            params: Vec::new(),
        },
    ];
    assert(tool_specs_view(r@) =~~= tool_spec_list());
    r
}

/// The names of the tools the server lists are those of [`tool_spec_list`], in order.
pub proof fn lemma_tool_names()
    ensures
        tool_spec_list().map_values(
            |t: (Seq<char>, Seq<char>, Seq<(Seq<char>, ParamKind, Option<Seq<char>>, bool)>)| t.0,
        ) == tool_list(),
{
    assert(tool_spec_list().map_values(
        |t: (Seq<char>, Seq<char>, Seq<(Seq<char>, ParamKind, Option<Seq<char>>, bool)>)| t.0,
    ) =~= tool_list());
}

/// The names of the tools the server exposes, in the order it lists them (those of
/// [`tool_specs`]).
pub fn tool_names() -> (r: Vec<&'static str>)
    ensures
        r@.map_values(|s: &str| s@) == tool_list(),
{
    let specs = tool_specs();
    let mut out: Vec<&'static str> = Vec::new();
    let mut i: usize = 0;
    while i < specs.len()
        invariant
            i <= specs@.len(),
            tool_specs_view(specs@) == tool_spec_list(),
            out@.len() == i,
            forall|k: int| 0 <= k < i ==> #[trigger] out@[k]@ == specs@[k].name@,
        decreases specs.len() - i,
    {
        out.push(specs[i].name);
        i += 1;
    }
    proof {
        lemma_tool_names();
        let names = tool_spec_list().map_values(
            |t: (Seq<char>, Seq<char>, Seq<(Seq<char>, ParamKind, Option<Seq<char>>, bool)>)| t.0,
        );
        assert forall|k: int| 0 <= k < out@.len() implies out@.map_values(|s: &str| s@)[k]
            == names[k] by {
            assert(tool_specs_view(specs@)[k] == spec_view(specs@[k]));
        }
        assert(out@.map_values(|s: &str| s@) =~= names);
    }
    out
}

/// The index of the first argument named `k`.
pub open spec fn arg_index(es: Seq<(String, ArgValue)>, k: Seq<char>, i: int) -> Option<int>
    decreases es.len() - i,
{
    if i < 0 || i >= es.len() {
        None
    } else if es[i].0@ == k {
        Some(i)
    } else {
        arg_index(es, k, i + 1)
    }
}

/// The argument named `k`.
pub open spec fn arg_of(es: Seq<(String, ArgValue)>, k: Seq<char>) -> Option<ArgValue> {
    match arg_index(es, k, 0) {
        Some(i) => Some(es[i].1),
        None => None,
    }
}

/// The argument named `k`, if it is a string.
pub open spec fn str_arg(es: Seq<(String, ArgValue)>, k: Seq<char>) -> Option<Seq<char>> {
    match arg_of(es, k) {
        Some(ArgValue::Str(s)) => Some(s@),
        _ => None,
    }
}

/// The argument named `k`, if it is a boolean.
pub open spec fn bool_arg(es: Seq<(String, ArgValue)>, k: Seq<char>) -> Option<bool> {
    match arg_of(es, k) {
        Some(ArgValue::Bool(b)) => Some(b),
        _ => None,
    }
}

/// The argument named `k`, if it is an unsigned integer.
pub open spec fn u64_arg(es: Seq<(String, ArgValue)>, k: Seq<char>) -> Option<u64> {
    match arg_of(es, k) {
        Some(ArgValue::UInt(n)) => Some(n),
        _ => None,
    }
}

/// The items of the argument named `k`, if it is an array.
pub open spec fn items_arg(es: Seq<(String, ArgValue)>, k: Seq<char>) -> Option<Seq<ArgItem>> {
    match arg_of(es, k) {
        Some(ArgValue::Array(v)) => Some(v@),
        _ => None,
    }
}

/// The string items among the first `n` of `items`, in order.
pub open spec fn item_texts(items: Seq<ArgItem>, n: int) -> Seq<Seq<char>>
    decreases n,
{
    if n <= 0 {
        seq![]
    } else {
        match items[n - 1].text {
            Some(t) => item_texts(items, n - 1).push(t@),
            None => item_texts(items, n - 1),
        }
    }
}

/// The message for a missing required argument.
pub open spec fn missing_message(k: Seq<char>) -> Seq<char> {
    "missing required argument: "@ + k
}

/// A required string argument.
pub open spec fn required_str(es: Seq<(String, ArgValue)>, k: Seq<char>) -> Result<Seq<char>, Seq<char>> {
    match str_arg(es, k) {
        Some(s) => Ok(s),
        None => Err(missing_message(k)),
    }
}

/// A required block-id argument.
pub open spec fn required_id(es: Seq<(String, ArgValue)>, k: Seq<char>) -> Result<Seq<char>, Seq<char>> {
    match str_arg(es, k) {
        None => Err(missing_message(k)),
        Some(v) => if is_ulid(v) {
            Ok(v)
        } else {
            Err("invalid block id for "@ + k + ": "@ + v)
        },
    }
}

/// `(key, value)` pairs of the first `n` property items, or the message for the first item
/// without a string key or value.
pub open spec fn props_of(items: Seq<ArgItem>, n: int) -> Result<Seq<(Seq<char>, Seq<char>)>, Seq<char>>
    decreases n,
{
    if n <= 0 {
        Ok(seq![])
    } else {
        match props_of(items, n - 1) {
            Err(e) => Err(e),
            Ok(ps) => match (items[n - 1].key, items[n - 1].value) {
                (None, _) => Err("props["@ + decimal((n - 1) as nat) + "] is missing a string \"key\""@),
                (Some(_), None) => Err("props["@ + decimal((n - 1) as nat) + "] is missing a string \"value\""@),
                (Some(k), Some(v)) => Ok(ps.push((k@, v@))),
            },
        }
    }
}

/// `tags` with each string item of the first `n` of `items` added, unless a tag equal to it
/// ignoring ASCII case is already there.
pub open spec fn merged_tags(tags: Seq<Seq<char>>, items: Seq<ArgItem>, n: int) -> Seq<Seq<char>>
    decreases n,
{
    if n <= 0 {
        tags
    } else {
        let acc = merged_tags(tags, items, n - 1);
        match items[n - 1].text {
            Some(t) => if exists|j: int| 0 <= j < acc.len() && eq_ci(#[trigger] acc[j], t@) {
                acc
            } else {
                acc.push(t@)
            },
            None => acc,
        }
    }
}

/// The query with date bound `which` (0 created-after, 1 created-before, 2 updated-after,
/// 3 updated-before) set to `d`.
pub open spec fn with_bound(q: QueryView, which: int, d: Seq<char>) -> QueryView {
    if which == 0 {
        QueryView { created_after: Some(d), ..q }
    } else if which == 1 {
        QueryView { created_before: Some(d), ..q }
    } else if which == 2 {
        QueryView { updated_after: Some(d), ..q }
    } else {
        QueryView { updated_before: Some(d), ..q }
    }
}

/// Apply the date argument `k` as bound `which`: absent keeps the query; a date sets the
/// bound; anything else is refused.
pub open spec fn apply_date(r: Result<QueryView, Seq<char>>, es: Seq<(String, ArgValue)>, k: Seq<char>, which: int) -> Result<QueryView, Seq<char>> {
    match r {
        Err(e) => Err(e),
        Ok(q) => match str_arg(es, k) {
            None => Ok(q),
            Some(d) => match query_date_of(d) {
                Some(x) => Ok(with_bound(q, which, x)),
                None => Err("invalid date for "@ + k + ": "@ + d),
            },
        },
    }
}

/// The search a `search` call asks for: its `query` parsed for operators, then the explicit
/// `lang`, `tags` (merged), `limit` and date arguments laid over it.
pub open spec fn search_of(es: Seq<(String, ArgValue)>) -> Result<QueryView, Seq<char>> {
    let q0 = match str_arg(es, "query"@) {
        Some(t) => parsed_query(t),
        None => empty_query(),
    };
    let q1 = match str_arg(es, "lang"@) {
        Some(l) => QueryView { lang: Some(l), ..q0 },
        None => q0,
    };
    let q2 = match items_arg(es, "tags"@) {
        Some(items) => QueryView { tags: merged_tags(q1.tags, items, items.len() as int), ..q1 },
        None => q1,
    };
    let q3 = match u64_arg(es, "limit"@) {
        Some(n) => QueryView { limit: n as usize, ..q2 },
        None => q2,
    };
    apply_date(
        apply_date(apply_date(apply_date(Ok(q3), es, "created_after"@, 0), es, "created_before"@, 1), es, "updated_after"@, 2),
        es,
        "updated_before"@,
        3,
    )
}

/// The request a tool call makes, as values.
pub enum ToolRequest {
    Search(QueryView),
    GetBlock(Seq<char>),
    RenderBlock(Seq<char>),
    ListBlocks,
    ListRoots,
    Graph,
    ListTags,
    Backlinks(Seq<char>),
    LinksFrom(Seq<char>),
    CreateBlock(Option<Seq<char>>, Seq<char>),
    UpdateBlock(Seq<char>, Option<Seq<char>>, Seq<char>, bool),
    DeleteBlock(Seq<char>),
    SetTags(Seq<char>, Seq<Seq<char>>),
    SetProps(Seq<char>, Seq<(Seq<char>, Seq<char>)>),
    UnsetProps(Seq<char>, Seq<Seq<char>>),
    CarveBlock(Seq<char>, Option<Seq<char>>, Seq<char>),
    FlattenBlock(Seq<char>, Seq<char>),
    LinkBlocks(Seq<char>, Seq<char>, bool),
    Stats,
    Rebuild,
    Conflicts,
}

/// The value of a request a tool call can make (`None` for the others).
pub open spec fn tool_request_view(r: Request) -> Option<ToolRequest> {
    match r {
        Request::Search { query } => Some(ToolRequest::Search(query_view(query))),
        Request::GetBlock { id } => Some(ToolRequest::GetBlock(id@)),
        Request::RenderBlock { id } => Some(ToolRequest::RenderBlock(id@)),
        Request::ListBlocks => Some(ToolRequest::ListBlocks),
        Request::ListRoots => Some(ToolRequest::ListRoots),
        Request::Graph => Some(ToolRequest::Graph),
        Request::ListTags => Some(ToolRequest::ListTags),
        Request::Backlinks { id } => Some(ToolRequest::Backlinks(id@)),
        Request::LinksFrom { id } => Some(ToolRequest::LinksFrom(id@)),
        Request::CreateBlock { title, body } => Some(ToolRequest::CreateBlock(opt_str_view(title), body@)),
        Request::UpdateBlock { id, title, body, force } => Some(
            ToolRequest::UpdateBlock(id@, opt_str_view(title), body@, force),
        ),
        Request::DeleteBlock { id } => Some(ToolRequest::DeleteBlock(id@)),
        Request::SetTags { id, tags } => Some(ToolRequest::SetTags(id@, strs_view(tags@))),
        Request::SetProps { id, props } => Some(ToolRequest::SetProps(id@, props_view(props@))),
        Request::UnsetProps { id, keys } => Some(ToolRequest::UnsetProps(id@, strs_view(keys@))),
        Request::CarveBlock { parent_id, title, body } => Some(
            ToolRequest::CarveBlock(parent_id@, opt_str_view(title), body@),
        ),
        Request::FlattenBlock { parent_id, child_id } => Some(ToolRequest::FlattenBlock(parent_id@, child_id@)),
        Request::LinkBlocks { source_id, target_id, embed } => Some(
            ToolRequest::LinkBlocks(source_id@, target_id@, embed),
        ),
        Request::Stats => Some(ToolRequest::Stats),
        Request::Rebuild => Some(ToolRequest::Rebuild),
        Request::Conflicts => Some(ToolRequest::Conflicts),
        _ => None,
    }
}

/// The request for a tool that takes one block id.
pub open spec fn id_request(es: Seq<(String, ArgValue)>, k: Seq<char>, f: spec_fn(Seq<char>) -> ToolRequest) -> Result<ToolRequest, Seq<char>> {
    match required_id(es, k) {
        Ok(id) => Ok(f(id)),
        Err(e) => Err(e),
    }
}

/// The request a tool call makes, or why it cannot: an unknown tool, a missing or malformed
/// required argument (checked in the order the request lists its fields), or a bad date.
pub open spec fn tool_request(name: Seq<char>, es: Seq<(String, ArgValue)>) -> Result<ToolRequest, Seq<char>> {
    if name == "search"@ {
        match search_of(es) {
            Ok(q) => Ok(ToolRequest::Search(q)),
            Err(e) => Err(e),
        }
    } else if name == "get_block"@ {
        id_request(es, "id"@, |id: Seq<char>| ToolRequest::GetBlock(id))
    } else if name == "render_block"@ {
        id_request(es, "id"@, |id: Seq<char>| ToolRequest::RenderBlock(id))
    } else if name == "list_blocks"@ {
        Ok(ToolRequest::ListBlocks)
    } else if name == "list_roots"@ {
        Ok(ToolRequest::ListRoots)
    } else if name == "graph"@ {
        Ok(ToolRequest::Graph)
    } else if name == "list_tags"@ {
        Ok(ToolRequest::ListTags)
    } else if name == "backlinks"@ {
        id_request(es, "id"@, |id: Seq<char>| ToolRequest::Backlinks(id))
    } else if name == "links_from"@ {
        id_request(es, "id"@, |id: Seq<char>| ToolRequest::LinksFrom(id))
    } else if name == "create_block"@ {
        match required_str(es, "body"@) {
            Ok(b) => Ok(ToolRequest::CreateBlock(str_arg(es, "title"@), b)),
            Err(e) => Err(e),
        }
    } else if name == "update_block"@ {
        match (required_id(es, "id"@), required_str(es, "body"@)) {
            (Err(e), _) => Err(e),
            (Ok(_), Err(e)) => Err(e),
            (Ok(id), Ok(b)) => Ok(
                ToolRequest::UpdateBlock(
                    id,
                    str_arg(es, "title"@),
                    b,
                    match bool_arg(es, "force"@) {
                        Some(f) => f,
                        None => false,
                    },
                ),
            ),
        }
    } else if name == "delete_block"@ {
        id_request(es, "id"@, |id: Seq<char>| ToolRequest::DeleteBlock(id))
    } else if name == "set_tags"@ || name == "unset_props"@ {
        let k = if name == "set_tags"@ { "tags"@ } else { "keys"@ };
        match (required_id(es, "id"@), items_arg(es, k)) {
            (Err(e), _) => Err(e),
            (Ok(_), None) => Err(missing_message(k)),
            (Ok(id), Some(items)) => if name == "set_tags"@ {
                Ok(ToolRequest::SetTags(id, item_texts(items, items.len() as int)))
            } else {
                Ok(ToolRequest::UnsetProps(id, item_texts(items, items.len() as int)))
            },
        }
    } else if name == "set_props"@ {
        match (required_id(es, "id"@), items_arg(es, "props"@)) {
            (Err(e), _) => Err(e),
            (Ok(_), None) => Err(missing_message("props"@)),
            (Ok(id), Some(items)) => match props_of(items, items.len() as int) {
                Ok(ps) => Ok(ToolRequest::SetProps(id, ps)),
                Err(e) => Err(e),
            },
        }
    } else if name == "carve_block"@ {
        match (required_id(es, "parent_id"@), required_str(es, "body"@)) {
            (Err(e), _) => Err(e),
            (Ok(_), Err(e)) => Err(e),
            (Ok(p), Ok(b)) => Ok(ToolRequest::CarveBlock(p, str_arg(es, "title"@), b)),
        }
    } else if name == "flatten_block"@ {
        match (required_id(es, "parent_id"@), required_id(es, "child_id"@)) {
            (Err(e), _) => Err(e),
            (Ok(_), Err(e)) => Err(e),
            (Ok(p), Ok(c)) => Ok(ToolRequest::FlattenBlock(p, c)),
        }
    } else if name == "link_blocks"@ {
        match (required_id(es, "source_id"@), required_id(es, "target_id"@)) {
            (Err(e), _) => Err(e),
            (Ok(_), Err(e)) => Err(e),
            (Ok(s), Ok(t)) => Ok(
                ToolRequest::LinkBlocks(
                    s,
                    t,
                    match bool_arg(es, "embed"@) {
                        Some(b) => b,
                        None => false,
                    },
                ),
            ),
        }
    } else if name == "stats"@ {
        Ok(ToolRequest::Stats)
    } else if name == "rebuild"@ {
        Ok(ToolRequest::Rebuild)
    } else if name == "conflicts"@ {
        Ok(ToolRequest::Conflicts)
    } else {
        Err("unknown tool: "@ + name)
    }
}

fn find_arg(args: &ToolArgs, k: &str) -> (r: Option<usize>)
    ensures
        match r {
            Some(i) => arg_index(args.entries@, k@, 0) == Some(i as int) && i < args.entries@.len(),
            None => arg_index(args.entries@, k@, 0) is None,
        },
{
    let mut i: usize = 0;
    while i < args.entries.len()
        invariant
            i <= args.entries@.len(),
            arg_index(args.entries@, k@, 0) == arg_index(args.entries@, k@, i as int),
        decreases args.entries.len() - i,
    {
        if str_eq(args.entries[i].0.as_str(), k) {
            return Some(i);
        }
        i += 1;
    }
    None
}

fn get_str(args: &ToolArgs, k: &str) -> (r: Option<String>)
    ensures
        opt_str_view(r) == str_arg(args.entries@, k@),
{
    match find_arg(args, k) {
        Some(i) => match &args.entries[i].1 {
            ArgValue::Str(s) => Some(s.clone()),
            _ => None,
        },
        None => None,
    }
}

fn get_bool(args: &ToolArgs, k: &str) -> (r: Option<bool>)
    ensures
        r == bool_arg(args.entries@, k@),
{
    match find_arg(args, k) {
        Some(i) => match &args.entries[i].1 {
            ArgValue::Bool(b) => Some(*b),
            _ => None,
        },
        None => None,
    }
}

fn get_u64(args: &ToolArgs, k: &str) -> (r: Option<u64>)
    ensures
        r == u64_arg(args.entries@, k@),
{
    match find_arg(args, k) {
        Some(i) => match &args.entries[i].1 {
            ArgValue::UInt(n) => Some(*n),
            _ => None,
        },
        None => None,
    }
}

fn get_items<'a>(args: &'a ToolArgs, k: &str) -> (r: Option<&'a Vec<ArgItem>>)
    ensures
        match r {
            Some(v) => items_arg(args.entries@, k@) == Some(v@),
            None => items_arg(args.entries@, k@) is None,
        },
{
    match find_arg(args, k) {
        Some(i) => match &args.entries[i].1 {
            ArgValue::Array(v) => Some(v),
            _ => None,
        },
        None => None,
    }
}

fn missing(k: &str) -> (r: String)
    ensures
        r@ == missing_message(k@),
{
    let mut m: Vec<char> = Vec::new();
    push_str(&mut m, "missing required argument: ");
    push_str(&mut m, k);
    string_from(&m)
}

fn req_str(args: &ToolArgs, k: &str) -> (r: Result<String, String>)
    ensures
        match required_str(args.entries@, k@) {
            Ok(v) => r matches Ok(s) && s@ == v,
            Err(e) => r matches Err(m) && m@ == e,
        },
{
    match get_str(args, k) {
        Some(s) => Ok(s),
        None => Err(missing(k)),
    }
}

fn req_id(args: &ToolArgs, k: &str) -> (r: Result<BlockId, String>)
    ensures
        match required_id(args.entries@, k@) {
            Ok(v) => r matches Ok(id) && id@ == v,
            Err(e) => r matches Err(m) && m@ == e,
        },
{
    let v = match get_str(args, k) {
        Some(v) => v,
        None => return Err(missing(k)),
    };
    match BlockId::parse(v.as_str()) {
        Ok(id) => Ok(id),
        Err(_) => {
            let mut m: Vec<char> = Vec::new();
            push_str(&mut m, "invalid block id for ");
            push_str(&mut m, k);
            push_str(&mut m, ": ");
            push_str(&mut m, v.as_str());
            Err(string_from(&m))
        },
    }
}

fn texts_of(items: &Vec<ArgItem>) -> (r: Vec<String>)
    ensures
        strs_view(r@) == item_texts(items@, items@.len() as int),
{
    let mut out: Vec<String> = Vec::new();
    let mut i: usize = 0;
    assert(strs_view(out@) =~= Seq::<Seq<char>>::empty());
    while i < items.len()
        invariant
            i <= items@.len(),
            strs_view(out@) == item_texts(items@, i as int),
        decreases items.len() - i,
    {
        match &items[i].text {
            Some(t) => {
                let ghost before = strs_view(out@);
                out.push(t.clone());
                assert(strs_view(out@) =~= before.push(t@));
            },
            None => {},
        }
        i += 1;
    }
    out
}

fn item_message(i: usize, rest: &str) -> (r: String)
    ensures
        r@ == "props["@ + decimal(i as nat) + rest@,
{
    let mut m: Vec<char> = Vec::new();
    push_str(&mut m, "props[");
    push_decimal(&mut m, i);
    push_str(&mut m, rest);
    string_from(&m)
}

fn props_from(items: &Vec<ArgItem>) -> (r: Result<Vec<(String, String)>, String>)
    ensures
        match props_of(items@, items@.len() as int) {
            Ok(ps) => r matches Ok(v) && props_view(v@) == ps,
            Err(e) => r matches Err(m) && m@ == e,
        },
{
    let mut out: Vec<(String, String)> = Vec::new();
    let mut i: usize = 0;
    assert(props_view(out@) =~= Seq::<(Seq<char>, Seq<char>)>::empty());
    while i < items.len()
        invariant
            i <= items@.len(),
            props_of(items@, i as int) == Ok::<Seq<(Seq<char>, Seq<char>)>, Seq<char>>(props_view(out@)),
        decreases items.len() - i,
    {
        let key = match &items[i].key {
            Some(k) => k,
            None => {
                let e = item_message(i, "] is missing a string \"key\"");
                proof {
                    lemma_props_error_stays(items@, i as int + 1);
                }
                return Err(e);
            },
        };
        let value = match &items[i].value {
            Some(v) => v,
            None => {
                let e = item_message(i, "] is missing a string \"value\"");
                proof {
                    lemma_props_error_stays(items@, i as int + 1);
                }
                return Err(e);
            },
        };
        let ghost before = props_view(out@);
        out.push((key.clone(), value.clone()));
        assert(props_view(out@) =~= before.push((key@, value@)));
        i += 1;
    }
    Ok(out)
}

proof fn lemma_props_error_stays(items: Seq<ArgItem>, n: int)
    requires
        0 < n <= items.len(),
        props_of(items, n) is Err,
    ensures
        props_of(items, items.len() as int) == props_of(items, n),
    decreases items.len() - n,
{
    if n < items.len() {
        lemma_props_error_stays(items, n + 1);
    }
}

fn merge_tag_items(tags: &mut Vec<String>, items: &Vec<ArgItem>)
    ensures
        strs_view(final(tags)@) == merged_tags(strs_view(old(tags)@), items@, items@.len() as int),
{
    let ghost start = strs_view(tags@);
    let mut i: usize = 0;
    while i < items.len()
        invariant
            i <= items@.len(),
            start == strs_view(old(tags)@),
            strs_view(tags@) == merged_tags(start, items@, i as int),
        decreases items.len() - i,
    {
        match &items[i].text {
            Some(t) => {
                let tv = chars_of(t.as_str());
                let ghost acc = strs_view(tags@);
                let mut j: usize = 0;
                let mut found = false;
                while j < tags.len()
                    invariant
                        j <= tags@.len(),
                        acc == strs_view(tags@),
                        tv@ == t@,
                        found == (exists|k: int| 0 <= k < j && eq_ci(#[trigger] acc[k], t@)),
                    decreases tags.len() - j,
                {
                    let e = chars_of(tags[j].as_str());
                    assert(acc[j as int] == tags@[j as int]@);
                    if eq_ignore_case(&e, &tv) {
                        found = true;
                    }
                    j += 1;
                }
                if !found {
                    tags.push(t.clone());
                    assert(strs_view(tags@) =~= acc.push(t@));
                }
            },
            None => {},
        }
        i += 1;
    }
}

fn date_arg(q: &mut SearchQuery, args: &ToolArgs, k: &str, which: u8) -> (r: Result<(), String>)
    requires
        which < 4,
    ensures
        match apply_date(Ok(query_view(*old(q))), args.entries@, k@, which as int) {
            Ok(v) => r is Ok && query_view(*final(q)) == v,
            Err(e) => r matches Err(m) && m@ == e,
        },
{
    let d = match get_str(args, k) {
        Some(d) => d,
        None => return Ok(()),
    };
    match parse_query_date(d.as_str()) {
        Some(x) => {
            if which == 0 {
                q.created_after = Some(x);
            } else if which == 1 {
                q.created_before = Some(x);
            } else if which == 2 {
                q.updated_after = Some(x);
            } else {
                q.updated_before = Some(x);
            }
            Ok(())
        },
        None => {
            let mut m: Vec<char> = Vec::new();
            push_str(&mut m, "invalid date for ");
            push_str(&mut m, k);
            push_str(&mut m, ": ");
            push_str(&mut m, d.as_str());
            Err(string_from(&m))
        },
    }
}

fn search_request(args: &ToolArgs) -> (r: Result<SearchQuery, String>)
    requires
        str_arg(args.entries@, "query"@) matches Some(t) ==> parse_safe(t),
    ensures
        match search_of(args.entries@) {
            Ok(v) => r matches Ok(q) && query_view(q) == v,
            Err(e) => r matches Err(m) && m@ == e,
        },
{
    let mut q = match get_str(args, "query") {
        Some(text) => SearchQuery::parse(text.as_str()),
        None => {
            let tags: Vec<String> = Vec::new();
            assert(strs_view(tags@) =~= Seq::<Seq<char>>::empty());
            SearchQuery {
            text: None,
            vector_model: None,
            tags,
            lang: None,
            created_after: None,
            created_before: None,
            updated_after: None,
            updated_before: None,
            limit: 0,
            }
        },
    };
    if let Some(lang) = get_str(args, "lang") {
        q.lang = Some(lang);
    }
    if let Some(items) = get_items(args, "tags") {
        merge_tag_items(&mut q.tags, items);
    }
    if let Some(limit) = get_u64(args, "limit") {
        q.limit = limit as usize;
    }
    let ghost q3 = query_view(q);
    let ghost es = args.entries@;
    date_arg(&mut q, args, "created_after", 0)?;
    date_arg(&mut q, args, "created_before", 1)?;
    date_arg(&mut q, args, "updated_after", 2)?;
    date_arg(&mut q, args, "updated_before", 3)?;
    Ok(q)
}

/// Translate a tool call into its daemon request (see [`tool_request`]): `search` parses its
/// query for operators and lays the explicit filters over it (a malformed date is refused);
/// tools on a block need a valid block id; `set_props` needs every item to carry a string key
/// and value; an unknown tool is refused.
pub fn build_request(name: &str, args: &ToolArgs) -> (r: Result<Request, String>)
    requires
        name@ == "search"@ ==> (str_arg(args.entries@, "query"@) matches Some(t) ==> parse_safe(t)),
    ensures
        match tool_request(name@, args.entries@) {
            Ok(v) => r matches Ok(q) && tool_request_view(q) == Some(v),
            Err(e) => r matches Err(m) && m@ == e,
        },
{
    proof {
        reveal_strlit("set_tags");
        reveal_strlit("unset_props");
        reveal_strlit("tags");
        reveal_strlit("keys");
        reveal_strlit("set_props");
    }
    if str_eq(name, "search") {
        proof {
            reveal_strlit("search");
        }
        let q = search_request(args)?;
        return Ok(Request::Search { query: q });
    }
    if str_eq(name, "get_block") {
        return Ok(Request::GetBlock { id: req_id(args, "id")? });
    }
    if str_eq(name, "render_block") {
        return Ok(Request::RenderBlock { id: req_id(args, "id")? });
    }
    if str_eq(name, "list_blocks") {
        return Ok(Request::ListBlocks);
    }
    if str_eq(name, "list_roots") {
        return Ok(Request::ListRoots);
    }
    if str_eq(name, "graph") {
        return Ok(Request::Graph);
    }
    if str_eq(name, "list_tags") {
        return Ok(Request::ListTags);
    }
    if str_eq(name, "backlinks") {
        return Ok(Request::Backlinks { id: req_id(args, "id")? });
    }
    if str_eq(name, "links_from") {
        return Ok(Request::LinksFrom { id: req_id(args, "id")? });
    }
    if str_eq(name, "create_block") {
        let title = get_str(args, "title");
        let body = req_str(args, "body")?;
        return Ok(Request::CreateBlock { title, body });
    }
    if str_eq(name, "update_block") {
        let id = req_id(args, "id")?;
        let title = get_str(args, "title");
        let body = req_str(args, "body")?;
        let force = match get_bool(args, "force") {
            Some(f) => f,
            None => false,
        };
        return Ok(Request::UpdateBlock { id, title, body, force });
    }
    if str_eq(name, "delete_block") {
        return Ok(Request::DeleteBlock { id: req_id(args, "id")? });
    }
    if str_eq(name, "set_tags") {
        let id = req_id(args, "id")?;
        let tags = match get_items(args, "tags") {
            Some(items) => texts_of(items),
            None => return Err(missing("tags")),
        };
        return Ok(Request::SetTags { id, tags });
    }
    if str_eq(name, "set_props") {
        let id = req_id(args, "id")?;
        proof {
            reveal_strlit("set_tags");
            reveal_strlit("set_props");
            assert("set_props"@[4] != "set_tags"@[4]);
        }
        assert(name@ != "set_tags"@ && name@ != "unset_props"@);
        let items = match get_items(args, "props") {
            Some(items) => items,
            None => return Err(missing("props")),
        };
        let props = props_from(items)?;
        return Ok(Request::SetProps { id, props });
    }
    if str_eq(name, "unset_props") {
        let id = req_id(args, "id")?;
        let keys = match get_items(args, "keys") {
            Some(items) => texts_of(items),
            None => return Err(missing("keys")),
        };
        return Ok(Request::UnsetProps { id, keys });
    }
    if str_eq(name, "carve_block") {
        let parent_id = req_id(args, "parent_id")?;
        let title = get_str(args, "title");
        let body = req_str(args, "body")?;
        return Ok(Request::CarveBlock { parent_id, title, body });
    }
    if str_eq(name, "flatten_block") {
        let parent_id = req_id(args, "parent_id")?;
        let child_id = req_id(args, "child_id")?;
        return Ok(Request::FlattenBlock { parent_id, child_id });
    }
    if str_eq(name, "link_blocks") {
        let source_id = req_id(args, "source_id")?;
        let target_id = req_id(args, "target_id")?;
        let embed = match get_bool(args, "embed") {
            Some(b) => b,
            None => false,
        };
        return Ok(Request::LinkBlocks { source_id, target_id, embed });
    }
    if str_eq(name, "stats") {
        return Ok(Request::Stats);
    }
    if str_eq(name, "rebuild") {
        return Ok(Request::Rebuild);
    }
    if str_eq(name, "conflicts") {
        return Ok(Request::Conflicts);
    }
    let mut m: Vec<char> = Vec::new();
    push_str(&mut m, "unknown tool: ");
    push_str(&mut m, name);
    Err(string_from(&m))
}

/// The text a `link_blocks` result reads as.
pub open spec fn linked_text(o: LinkOutcome) -> Seq<char> {
    match o {
        LinkOutcome::Reference => "linked (reference)"@,
        LinkOutcome::Transclusion => "linked (transclusion)"@,
        LinkOutcome::DowngradedToReference => "linked as a plain reference (an embed would have created a transclusion cycle)"@,
    }
}

/// Render a link outcome as tool result text.
pub fn linked_message(o: LinkOutcome) -> (r: String)
    ensures
        r@ == linked_text(o),
{
    match o {
        LinkOutcome::Reference => "linked (reference)".to_owned(),
        LinkOutcome::Transclusion => "linked (transclusion)".to_owned(),
        LinkOutcome::DowngradedToReference => "linked as a plain reference (an embed would have created a transclusion cycle)".to_owned(),
    }
}

// ---------------------------------------------------------------------------------------------
// The tools listed are the tools understood.
// ---------------------------------------------------------------------------------------------

proof fn lemma_missing_first(k: Seq<char>)
    ensures
        missing_message(k).len() > 0 && missing_message(k)[0] == 'm',
{
    reveal_strlit("missing required argument: ");
}

proof fn lemma_required_errors(es: Seq<(String, ArgValue)>, k: Seq<char>)
    ensures
        required_str(es, k) matches Err(e) ==> e.len() > 0 && e[0] == 'm',
        required_id(es, k) matches Err(e) ==> e.len() > 0 && (e[0] == 'm' || e[0] == 'i'),
{
    lemma_missing_first(k);
    reveal_strlit("invalid block id for ");
}

proof fn lemma_props_errors(items: Seq<ArgItem>, n: int)
    ensures
        props_of(items, n) matches Err(e) ==> e.len() > 0 && e[0] == 'p',
    decreases n,
{
    reveal_strlit("props[");
    if n > 0 {
        lemma_props_errors(items, n - 1);
    }
}

proof fn lemma_date_errors(r: Result<QueryView, Seq<char>>, es: Seq<(String, ArgValue)>, k: Seq<char>, which: int)
    requires
        r matches Err(e) ==> e.len() > 0 && e[0] == 'i',
    ensures
        apply_date(r, es, k, which) matches Err(e) ==> e.len() > 0 && e[0] == 'i',
{
    reveal_strlit("invalid date for ");
}

proof fn lemma_search_errors(es: Seq<(String, ArgValue)>)
    ensures
        search_of(es) matches Err(e) ==> e.len() > 0 && e[0] == 'i',
{
    let q0 = match str_arg(es, "query"@) {
        Some(t) => parsed_query(t),
        None => empty_query(),
    };
    let q1 = match str_arg(es, "lang"@) {
        Some(l) => QueryView { lang: Some(l), ..q0 },
        None => q0,
    };
    let q2 = match items_arg(es, "tags"@) {
        Some(items) => QueryView { tags: merged_tags(q1.tags, items, items.len() as int), ..q1 },
        None => q1,
    };
    let q3 = match u64_arg(es, "limit"@) {
        Some(n) => QueryView { limit: n as usize, ..q2 },
        None => q2,
    };
    let r0 = Ok::<QueryView, Seq<char>>(q3);
    lemma_date_errors(r0, es, "created_after"@, 0);
    let r1 = apply_date(r0, es, "created_after"@, 0);
    lemma_date_errors(r1, es, "created_before"@, 1);
    let r2 = apply_date(r1, es, "created_before"@, 1);
    lemma_date_errors(r2, es, "updated_after"@, 2);
    let r3 = apply_date(r2, es, "updated_after"@, 2);
    lemma_date_errors(r3, es, "updated_before"@, 3);
}

/// The tools the server lists are exactly the tools a call is understood for: a call of a
/// listed tool is never refused as unknown (it succeeds, or names a missing or malformed
/// argument), and a call of any other name is refused as an unknown tool, naming it.
pub proof fn lemma_listed_tools_are_known(name: Seq<char>, es: Seq<(String, ArgValue)>)
    ensures
        tool_list().contains(name) ==> tool_request(name, es) != Err::<ToolRequest, Seq<char>>(
            "unknown tool: "@ + name,
        ),
        !tool_list().contains(name) ==> tool_request(name, es) == Err::<ToolRequest, Seq<char>>(
            "unknown tool: "@ + name,
        ),
{
    reveal_strlit("unknown tool: ");
    assert(("unknown tool: "@ + name)[0] == 'u');
    let l = tool_list();
    assert(l[0] == "search"@ && l[1] == "get_block"@ && l[2] == "render_block"@ && l[3] == "list_blocks"@);
    assert(l[4] == "list_roots"@ && l[5] == "graph"@ && l[6] == "list_tags"@ && l[7] == "backlinks"@);
    assert(l[8] == "links_from"@ && l[9] == "create_block"@ && l[10] == "update_block"@);
    assert(l[11] == "delete_block"@ && l[12] == "set_tags"@ && l[13] == "set_props"@);
    assert(l[14] == "unset_props"@ && l[15] == "carve_block"@ && l[16] == "flatten_block"@);
    assert(l[17] == "link_blocks"@ && l[18] == "stats"@ && l[19] == "rebuild"@ && l[20] == "conflicts"@);
    lemma_search_errors(es);
    lemma_required_errors(es, "id"@);
    lemma_required_errors(es, "body"@);
    lemma_required_errors(es, "parent_id"@);
    lemma_required_errors(es, "child_id"@);
    lemma_required_errors(es, "source_id"@);
    lemma_required_errors(es, "target_id"@);
    lemma_missing_first("tags"@);
    lemma_missing_first("keys"@);
    lemma_missing_first("props"@);
    if let Some(items) = items_arg(es, "props"@) {
        lemma_props_errors(items, items.len() as int);
    }
    if !l.contains(name) {
        if name == "search"@ { assert(l[0] == name); }
        if name == "get_block"@ { assert(l[1] == name); }
        if name == "render_block"@ { assert(l[2] == name); }
        if name == "list_blocks"@ { assert(l[3] == name); }
        if name == "list_roots"@ { assert(l[4] == name); }
        if name == "graph"@ { assert(l[5] == name); }
        if name == "list_tags"@ { assert(l[6] == name); }
        if name == "backlinks"@ { assert(l[7] == name); }
        if name == "links_from"@ { assert(l[8] == name); }
        if name == "create_block"@ { assert(l[9] == name); }
        if name == "update_block"@ { assert(l[10] == name); }
        if name == "delete_block"@ { assert(l[11] == name); }
        if name == "set_tags"@ { assert(l[12] == name); }
        if name == "set_props"@ { assert(l[13] == name); }
        if name == "unset_props"@ { assert(l[14] == name); }
        if name == "carve_block"@ { assert(l[15] == name); }
        if name == "flatten_block"@ { assert(l[16] == name); }
        if name == "link_blocks"@ { assert(l[17] == name); }
        if name == "stats"@ { assert(l[18] == name); }
        if name == "rebuild"@ { assert(l[19] == name); }
        if name == "conflicts"@ { assert(l[20] == name); }
    }
}

} // verus!
