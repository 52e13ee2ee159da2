//! The table of tools.
use vstd::prelude::*;
use vstd::string::*;

use crate::text::str_eq;
use crate::tool_error;
use crate::tool_error::ToolError;

verus! {

/// The tools.
#[derive(Clone, Copy, Debug, PartialEq, Eq, Structural)]
pub enum ToolKind {
    ListContexts,
    Search,
    GetChunk,
    SubQuery,
    BatchSubQuery,
    Store,
    Retrieve,
    ListKeys,
}

/// A tool as it is described to a model.
#[derive(Debug)]
pub struct ToolInfo {
    pub kind: ToolKind,
    pub name: String,
    pub description: String,
    pub title: String,
    pub read_only: bool,
    pub destructive: bool,
    pub idempotent: bool,
    pub open_world: bool,
}

/// What a [`ToolInfo`] holds.
#[verifier::ext_equal]
pub struct ToolView {
    pub kind: ToolKind,
    pub name: Seq<char>,
    pub description: Seq<char>,
    pub title: Seq<char>,
    pub read_only: bool,
    pub destructive: bool,
    pub idempotent: bool,
    pub open_world: bool,
}

impl View for ToolInfo {
    type V = ToolView;

    open spec fn view(&self) -> ToolView {
        ToolView {
            kind: self.kind,
            name: self.name@,
            description: self.description@,
            title: self.title@,
            read_only: self.read_only,
            destructive: self.destructive,
            idempotent: self.idempotent,
            open_world: self.open_world,
        }
    }
}

/// What a list of tools holds.
pub open spec fn tool_views(v: Seq<ToolInfo>) -> Seq<ToolView> {
    Seq::new(v.len(), |i: int| v[i]@)
}

// ---------------------------------------------------------------------------
// Model
// ---------------------------------------------------------------------------

/// The tools in the order in which they are listed.
pub open spec fn tool_kinds() -> Seq<ToolKind> {
    seq![
        ToolKind::ListContexts,
        ToolKind::Search,
        ToolKind::GetChunk,
        ToolKind::SubQuery,
        ToolKind::BatchSubQuery,
        ToolKind::Store,
        ToolKind::Retrieve,
        ToolKind::ListKeys,
    ]
}

/// The name of a tool.
pub open spec fn tool_name(kind: ToolKind) -> Seq<char> {
    match kind {
        ToolKind::ListContexts => "list_contexts"@,
        ToolKind::Search => "search"@,
        ToolKind::GetChunk => "get_chunk"@,
        ToolKind::SubQuery => "sub_query"@,
        ToolKind::BatchSubQuery => "batch_sub_query"@,
        ToolKind::Store => "store"@,
        ToolKind::Retrieve => "retrieve"@,
        ToolKind::ListKeys => "list_keys"@,
    }
}

/// What a tool is said to do.
pub open spec fn tool_description(kind: ToolKind) -> Seq<char> {
    match kind {
        ToolKind::ListContexts => {
            "List all loaded contexts (name, source, size, chunk count)."@
        },
        ToolKind::Search => {
            "Search a loaded context by query. Modes: bm25 (default), substring, regex. Returns top-k matches with previews — never the full chunk."@
        },
        ToolKind::GetChunk => {
            "Fetch a specific chunk (by chunk_id, byte_range, or section heading). Always capped by max_chars; the full content stays in the store."@
        },
        ToolKind::SubQuery => {
            "Delegate analysis of one or more referenced slices to a fresh sub-LLM call. Returns just the answer (no history)."@
        },
        ToolKind::BatchSubQuery => {
            "Run multiple sub-queries in parallel (cap 8 concurrent)."@
        },
        ToolKind::Store => "Persist a key/value finding to session-scoped memory."@,
        ToolKind::Retrieve => "Pull a previously stored value from session memory."@,
        ToolKind::ListKeys => "List all keys currently in session memory."@,
    }
}

/// The title of a tool.
pub open spec fn tool_title(kind: ToolKind) -> Seq<char> {
    match kind {
        ToolKind::ListContexts => "List Contexts"@,
        ToolKind::Search => "RLM Search"@,
        ToolKind::GetChunk => "RLM Get Chunk"@,
        ToolKind::SubQuery => "RLM Sub Query"@,
        ToolKind::BatchSubQuery => "RLM Batch Sub Query"@,
        ToolKind::Store => "RLM Store"@,
        ToolKind::Retrieve => "RLM Retrieve"@,
        ToolKind::ListKeys => "RLM List Keys"@,
    }
}

/// A tool as it is described. The sub-queries and the one that stores are not read-only,
/// and only the one that stores may destroy something.
pub open spec fn tool_view(kind: ToolKind) -> ToolView {
    ToolView {
        kind,
        name: tool_name(kind),
        description: tool_description(kind),
        title: tool_title(kind),
        read_only: kind != ToolKind::SubQuery && kind != ToolKind::BatchSubQuery && kind
            != ToolKind::Store,
        destructive: kind == ToolKind::Store,
        idempotent: false,
        open_world: false,
    }
}

// ---------------------------------------------------------------------------
// Laws
// ---------------------------------------------------------------------------

/// Different tools have different names.
pub proof fn law_tool_names_distinct(a: ToolKind, b: ToolKind)
    requires
        tool_name(a) == tool_name(b),
    ensures
        a == b,
{
    reveal_strlit("list_contexts");
    reveal_strlit("search");
    reveal_strlit("get_chunk");
    reveal_strlit("sub_query");
    reveal_strlit("batch_sub_query");
    reveal_strlit("store");
    reveal_strlit("retrieve");
    reveal_strlit("list_keys");
    let (x, y) = (tool_name(a), tool_name(b));
    assert(x.len() == y.len());
    assert(x[0] == y[0]);
    assert(x[1] == y[1]);
}

/// Every tool is listed once.
pub proof fn law_tools_listed(kind: ToolKind)
    ensures
        tool_kinds().contains(kind),
        tool_kinds().no_duplicates(),
{
    let kinds = tool_kinds();
    let i: int = match kind {
        ToolKind::ListContexts => 0,
        ToolKind::Search => 1,
        ToolKind::GetChunk => 2,
        ToolKind::SubQuery => 3,
        ToolKind::BatchSubQuery => 4,
        ToolKind::Store => 5,
        ToolKind::Retrieve => 6,
        ToolKind::ListKeys => 7,
    };
    assert(kinds[i] == kind);
}

/// What a tool is called, and whether it only reads: all do but the two that ask sub-queries
/// and the one that stores, which alone may destroy something. None is idempotent or reaches
/// out into the world.
pub proof fn law_tool_view(kind: ToolKind)
    ensures
        tool_view(kind).kind == kind,
        tool_view(kind).name == "list_contexts"@ <==> kind is ListContexts,
        tool_view(kind).name == "search"@ <==> kind is Search,
        tool_view(kind).name == "get_chunk"@ <==> kind is GetChunk,
        tool_view(kind).name == "sub_query"@ <==> kind is SubQuery,
        tool_view(kind).name == "batch_sub_query"@ <==> kind is BatchSubQuery,
        tool_view(kind).name == "store"@ <==> kind is Store,
        tool_view(kind).name == "retrieve"@ <==> kind is Retrieve,
        tool_view(kind).name == "list_keys"@ <==> kind is ListKeys,
        tool_view(kind).read_only <==> kind is ListContexts || kind is Search || kind is GetChunk
            || kind is Retrieve || kind is ListKeys,
        tool_view(kind).destructive <==> kind is Store,
        !tool_view(kind).idempotent,
        !tool_view(kind).open_world,
{
    assert forall|a: ToolKind| #[trigger] tool_name(a) == tool_name(kind) implies a == kind by {
        law_tool_names_distinct(a, kind);
    }
    assert(tool_name(ToolKind::ListContexts) == "list_contexts"@);
    assert(tool_name(ToolKind::Search) == "search"@);
    assert(tool_name(ToolKind::GetChunk) == "get_chunk"@);
    assert(tool_name(ToolKind::SubQuery) == "sub_query"@);
    assert(tool_name(ToolKind::BatchSubQuery) == "batch_sub_query"@);
    assert(tool_name(ToolKind::Store) == "store"@);
    assert(tool_name(ToolKind::Retrieve) == "retrieve"@);
    assert(tool_name(ToolKind::ListKeys) == "list_keys"@);
}

// ---------------------------------------------------------------------------
// Code
// ---------------------------------------------------------------------------

/// Describes a tool with its name, description and title.
fn tool_info(
    kind: ToolKind,
    name: &str,
    description: &str,
    title: &str,
    read_only: bool,
    destructive: bool,
) -> (r: ToolInfo)
    ensures
        r@ == (ToolView {
            kind,
            name: name@,
            description: description@,
            title: title@,
            read_only,
            destructive,
            idempotent: false,
            open_world: false,
        }),
{
    ToolInfo {
        kind,
        name: name.to_owned(),
        description: description.to_owned(),
        title: title.to_owned(),
        read_only,
        destructive,
        idempotent: false,
        open_world: false,
    }
}

/// Lists the tools.
pub fn get_tools() -> (r: Vec<ToolInfo>)
    ensures
        tool_views(r@) == Seq::new(tool_kinds().len(), |i: int| tool_view(tool_kinds()[i])),
{
    let r: Vec<ToolInfo> = vec![
        tool_info(
            ToolKind::ListContexts,
            "list_contexts",
            "List all loaded contexts (name, source, size, chunk count).",
            "List Contexts",
            true,
            false,
        ),
        tool_info(
            ToolKind::Search,
            "search",
            "Search a loaded context by query. Modes: bm25 (default), substring, regex. Returns top-k matches with previews — never the full chunk.",
            "RLM Search",
            true,
            false,
        ),
        tool_info(
            ToolKind::GetChunk,
            "get_chunk",
            "Fetch a specific chunk (by chunk_id, byte_range, or section heading). Always capped by max_chars; the full content stays in the store.",
            "RLM Get Chunk",
            true,
            false,
        ),
        tool_info(
            ToolKind::SubQuery,
            "sub_query",
            "Delegate analysis of one or more referenced slices to a fresh sub-LLM call. Returns just the answer (no history).",
            "RLM Sub Query",
            false,
            false,
        ),
        tool_info(
            ToolKind::BatchSubQuery,
            "batch_sub_query",
            "Run multiple sub-queries in parallel (cap 8 concurrent).",
            "RLM Batch Sub Query",
            false,
            false,
        ),
        tool_info(
            ToolKind::Store,
            "store",
            "Persist a key/value finding to session-scoped memory.",
            "RLM Store",
            false,
            true,
        ),
        tool_info(
            ToolKind::Retrieve,
            "retrieve",
            "Pull a previously stored value from session memory.",
            "RLM Retrieve",
            true,
            false,
        ),
        tool_info(
            ToolKind::ListKeys,
            "list_keys",
            "List all keys currently in session memory.",
            "RLM List Keys",
            true,
            false,
        ),
    ];
    proof {
        let want = Seq::new(tool_kinds().len(), |i: int| tool_view(tool_kinds()[i]));
        assert(tool_views(r@) =~= want);
    }
    r
}

/// Finds the tool with this name.
pub fn find_tool(name: &str) -> (r: Result<ToolKind, ToolError>)
    ensures
        match r {
            Ok(kind) => tool_name(kind) == name@,
            Err(e) => e@ == tool_error::ToolErrorView::UnknownTool(name@) && forall|kind: ToolKind|
                #[trigger] tool_name(kind) != name@,
        },
{
    if str_eq(name, "list_contexts") {
        Ok(ToolKind::ListContexts)
    } else if str_eq(name, "search") {
        Ok(ToolKind::Search)
    } else if str_eq(name, "get_chunk") {
        Ok(ToolKind::GetChunk)
    } else if str_eq(name, "sub_query") {
        Ok(ToolKind::SubQuery)
    } else if str_eq(name, "batch_sub_query") {
        Ok(ToolKind::BatchSubQuery)
    } else if str_eq(name, "store") {
        Ok(ToolKind::Store)
    } else if str_eq(name, "retrieve") {
        Ok(ToolKind::Retrieve)
    } else if str_eq(name, "list_keys") {
        Ok(ToolKind::ListKeys)
    } else {
        Err(ToolError::UnknownTool(name.to_owned()))
    }
}

} // verus!
