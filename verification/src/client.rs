//! The tools over a store: what each answers, and what it asks of a provider.
//!
//! Contexts live outside of a model's message history. The model reaches them through the
//! tools, whose answers are short.
use std::sync::Arc;
use vstd::prelude::*;
use vstd::string::*;
use vstd::utf8::*;

use crate::assembly;
use crate::assembly::{assemble_with_store, SubQueryParams};
use crate::context;
use crate::context::RlmContext;
use crate::finding;
use crate::history;
use crate::history::truncate_for_history;
use crate::json;
use crate::json::{list_text, pretty_list_text, value_text};
use crate::matching;
use crate::reading;
use crate::records;
use crate::records::{ChunkData, ContextSummary, SearchHit, SearchMode};
use crate::session;
use crate::session::new_session;
use crate::slices;
use crate::store;
use crate::store::RlmStore;
use crate::text;
use crate::text::str_eq;
use crate::tool_error;
use crate::tool_error::ToolError;
use crate::tools;
use crate::tools::ToolInfo;

verus! {

/// The name under which the tools are offered.
pub const EXTENSION_NAME: &'static str = "rlm";

/// The version under which the tools are offered.
pub const EXTENSION_VERSION: &'static str = "1.0.0";

/// The title under which the tools are offered.
pub const EXTENSION_TITLE: &'static str = "Recursive Language Model";

/// How a model is told to use the tools.
pub const INSTRUCTIONS: &'static str =
    "You are operating in Recursive Language Model (RLM) mode. Long inputs
live OUTSIDE your message history, in named contexts. NEVER ask the user
to paste content already loaded in a context — use the rlm__* tools.

Workflow for a long-context task:
1. `rlm__list_contexts` — see what's loaded.
2. `rlm__search` — find relevant chunks (BM25 by default).
3. `rlm__get_chunk` — pull only what you need.
4. `rlm__sub_query` — delegate per-chunk analysis to a fresh sub-LLM call.
5. `rlm__store` / `rlm__retrieve` — persist intermediate findings between turns.
6. Reply with your final answer (no special finalize tool — just answer).

Keep your message history small: most tool responses are deliberately
truncated. Full content stays in the store and you can re-fetch by id.
";

/// How a sub-query is told what it is.
pub const LEAF_SYSTEM: &'static str =
    "You are a focused sub-LLM in a Recursive Language Model. Answer the user prompt using the provided content. Be concise.";

/// The sub-queries of a batch that run at a time.
pub const BATCH_CONCURRENCY: usize = 8;

// ---------------------------------------------------------------------------
// Parameters
// ---------------------------------------------------------------------------

/// What to search for.
#[derive(Debug)]
pub struct SearchParams {
    /// Name of the loaded context to search.
    pub context: String,
    /// Search query (free text for bm25, literal for substring, regex for regex).
    pub query: String,
    pub k: usize,
    /// One of `bm25` (default), `substring`, `regex`.
    pub mode: Option<String>,
}

/// The number of hits where none is given.
pub fn default_k() -> (r: usize)
    ensures
        r == 10,
{
    10
}

/// What to fetch. Of the three ways to say it, the first that is used counts: an
/// identifier, a byte range, a heading.
#[derive(Debug)]
pub struct GetChunkParams {
    pub context: String,
    /// Chunk id (e.g. `doc:0042`) — preferred.
    pub chunk_id: Option<String>,
    /// `[start, end]` byte range into the context blob.
    pub byte_range: Option<[usize; 2]>,
    /// Substring of a section heading path to fetch.
    pub section: Option<String>,
    pub max_chars: usize,
}

/// The number of characters to fetch where none is given.
pub fn default_get_chunk_max_chars() -> (r: usize)
    ensures
        r == 8_000,
{
    8_000
}

/// What was fetched.
#[derive(Debug)]
pub enum Fetched {
    /// By identifier or byte range.
    One(ChunkData),
    /// By heading.
    Many(Vec<ChunkData>),
}

/// What a [`Fetched`] holds.
pub enum FetchedView {
    One(records::DataView),
    Many(Seq<records::DataView>),
}

impl View for Fetched {
    type V = FetchedView;

    open spec fn view(&self) -> FetchedView {
        match self {
            Fetched::One(data) => FetchedView::One(data@),
            Fetched::Many(list) => FetchedView::Many(records::data_views(list@)),
        }
    }
}

// ---------------------------------------------------------------------------
// Model
// ---------------------------------------------------------------------------

/// What the tools are offered as.
#[derive(Debug)]
pub struct ClientInfo {
    pub name: String,
    pub version: String,
    pub title: String,
    pub instructions: String,
}

/// What a [`ClientInfo`] holds.
#[verifier::ext_equal]
pub struct InfoView {
    pub name: Seq<char>,
    pub version: Seq<char>,
    pub title: Seq<char>,
    pub instructions: Seq<char>,
}

impl View for ClientInfo {
    type V = InfoView;

    open spec fn view(&self) -> InfoView {
        InfoView {
            name: self.name@,
            version: self.version@,
            title: self.title@,
            instructions: self.instructions@,
        }
    }
}

/// What the tools are offered as.
pub open spec fn extension_info() -> InfoView {
    InfoView {
        name: EXTENSION_NAME@,
        version: EXTENSION_VERSION@,
        title: EXTENSION_TITLE@,
        instructions: INSTRUCTIONS@,
    }
}

/// The tools over a store.
pub struct RlmClient {
    info: ClientInfo,
    store: RlmStore,
}

/// What an [`RlmClient`] holds.
pub struct ClientView {
    pub info: InfoView,
    pub store: store::StoreView,
}

impl View for RlmClient {
    type V = ClientView;

    closed spec fn view(&self) -> ClientView {
        ClientView { info: self.info@, store: self.store@ }
    }
}

/// The search mode with a name, which is that of the relevance search where none is given.
pub open spec fn mode_named(name: Option<Seq<char>>) -> Result<
    SearchMode,
    tool_error::ToolErrorView,
> {
    match name {
        None => Ok(SearchMode::Bm25),
        Some(s) => if s == "bm25"@ {
            Ok(SearchMode::Bm25)
        } else if s == "substring"@ {
            Ok(SearchMode::Substring)
        } else if s == "regex"@ {
            Ok(SearchMode::Regex)
        } else {
            Err(tool_error::ToolErrorView::UnknownSearchMode(s))
        },
    }
}

/// What there is to fetch in a context, or why there is nothing.
pub open spec fn fetched(context: RlmContext, p: GetChunkParams) -> Result<
    FetchedView,
    tool_error::ToolErrorView,
> {
    let max_chars = p.max_chars as int;
    match (p.chunk_id, p.byte_range, p.section) {
        (Some(id), _, _) => match context@.data_by_id(id@, max_chars) {
            Some(data) => Ok(FetchedView::One(data)),
            None => Err(tool_error::ToolErrorView::ChunkNotFound(id@)),
        },
        (None, Some(range), _) => match context@.data_by_range(
            range@[0] as nat,
            range@[1] as nat,
            max_chars,
        ) {
            Some(data) => Ok(FetchedView::One(data)),
            None => Err(tool_error::ToolErrorView::RangeOutOfBounds),
        },
        (None, None, Some(section)) => Ok(
            FetchedView::Many(context@.data_by_section(section@, max_chars)),
        ),
        (None, None, None) => Err(tool_error::ToolErrorView::NothingToFetch),
    }
}

/// What a tool that fetches answers.
pub open spec fn fetch_answer(s: store::StoreView, p: GetChunkParams) -> Result<
    FetchedView,
    tool_error::ToolErrorView,
> {
    match s.context(p.context@) {
        Some(context) => fetched(context, p),
        None => Err(tool_error::ToolErrorView::NoSuchContext(p.context@)),
    }
}

/// A text as the answer of a tool; nothing if there is no text.
pub open spec fn text_answer(text: Option<Seq<char>>) -> Seq<char> {
    history::for_history(
        match text {
            Some(s) => s,
            None => Seq::empty(),
        },
    )
}

/// What a provider is asked.
#[derive(Debug)]
pub struct LeafRequest {
    pub session: String,
    pub system: String,
    pub user_text: String,
}

/// A prompt with the content that it is about, if there is any.
pub open spec fn leaf_text(prompt: Seq<char>, content: Seq<char>) -> Seq<char> {
    if content.len() == 0 {
        prompt
    } else {
        prompt + "\n\n--- content ---\n"@ + content
    }
}

/// Whether a provider is asked a prompt about content, in a session of its own.
pub open spec fn asks(r: LeafRequest, prompt: Seq<char>, content: Seq<char>) -> bool {
    &&& r.system@ == LEAF_SYSTEM@
    &&& r.user_text@ == leaf_text(prompt, content)
    &&& exists|id: Seq<char>|
        session::random_uuid(id) && r.session@ == #[trigger] session::session_name(id)
}

/// Whether a sub-query is asked as it must be: about its content, or not at all if a
/// context is missing.
pub open spec fn asked(
    s: store::StoreView,
    p: SubQueryParams,
    r: Result<LeafRequest, ToolError>,
) -> bool {
    match (assembly::sub_query_content(s, p), r) {
        (Ok(content), Ok(request)) => asks(request, p.prompt@, content),
        (Err(a), Err(b)) => a == b@,
        _ => false,
    }
}

/// What a tool call gives back.
#[derive(Debug)]
pub struct ToolReply {
    pub text: String,
    pub is_error: bool,
}

/// What became of a sub-query of a batch.
#[derive(Debug)]
pub enum BatchOutcome {
    Answered(String),
    Failed(ToolError),
    /// Its task ended without an answer, for this reason.
    NotJoined(String),
}

/// What a batch says of a sub-query.
pub open spec fn outcome_text(o: BatchOutcome) -> Seq<char> {
    match o {
        BatchOutcome::Answered(s) => s@,
        BatchOutcome::Failed(e) => "[error] "@ + e@.message(),
        BatchOutcome::NotJoined(s) => "[join error] "@ + s@,
    }
}

/// What a batch says of its sub-queries.
pub open spec fn outcome_texts(v: Seq<BatchOutcome>) -> Seq<Seq<char>> {
    Seq::new(v.len(), |i: int| outcome_text(v[i]))
}

// ---------------------------------------------------------------------------
// Laws
// ---------------------------------------------------------------------------

/// No mode and "bm25" mean the relevance search, "substring" and "regex" what they say, and no
/// other name means anything.
pub proof fn law_mode_named(name: Option<Seq<char>>)
    ensures
        name is None ==> mode_named(name) == Ok::<SearchMode, tool_error::ToolErrorView>(
            SearchMode::Bm25,
        ),
        name == Some("bm25"@) ==> mode_named(name) == Ok::<SearchMode, tool_error::ToolErrorView>(
            SearchMode::Bm25,
        ),
        name == Some("substring"@) ==> mode_named(name) == Ok::<
            SearchMode,
            tool_error::ToolErrorView,
        >(SearchMode::Substring),
        name == Some("regex"@) ==> mode_named(name) == Ok::<SearchMode, tool_error::ToolErrorView>(
            SearchMode::Regex,
        ),
        forall|s: Seq<char>|
            name == Some(s) && s != "bm25"@ && s != "substring"@ && s != "regex"@
                ==> #[trigger] mode_named(Some(s)) == Err::<SearchMode, tool_error::ToolErrorView>(
                tool_error::ToolErrorView::UnknownSearchMode(s),
            ),
{
    reveal_strlit("bm25");
    reveal_strlit("substring");
    reveal_strlit("regex");
    assert("bm25"@.len() == 4 && "substring"@.len() == 9 && "regex"@.len() == 5);
}

/// Whether what a call of the search tool gives back is right for the mode that it names, for
/// any number of hits: "regex" gives the top matches of the regular expression, "substring"
/// those of the text, "bm25" and no mode what the relevance search gives.
pub open spec fn searched(
    c: context::ContextView,
    p: SearchParams,
    hits: Seq<records::HitView>,
) -> bool {
    let k = p.k as int;
    &&& p.mode is None ==> c.answers(p.query@, k, SearchMode::Bm25, hits)
    &&& p.mode matches Some(mode) ==> {
        &&& mode@ == "bm25"@ ==> c.answers(p.query@, k, SearchMode::Bm25, hits)
        &&& mode@ == "substring"@ ==> c.answers(p.query@, k, SearchMode::Substring, hits)
            && finding::top_substring_matches(c, p.query@, k, hits)
        &&& mode@ == "regex"@ ==> c.answers(p.query@, k, SearchMode::Regex, hits)
            && finding::top_regex_matches(c, p.query@, k, hits)
    }
}

/// A call of the search tool answers by the mode that it names: whatever hits the context may
/// give for the mode that the name stands for, they are right for the name.
pub proof fn law_search_goes_by_mode(
    c: context::ContextView,
    p: SearchParams,
    hits: Seq<records::HitView>,
)
    requires
        mode_named(text::opt_view(p.mode)) matches Ok(mode) && c.answers(
            p.query@,
            p.k as int,
            mode,
            hits,
        ),
    ensures
        searched(c, p, hits),
{
    law_mode_named(text::opt_view(p.mode));
    let k = p.k as int;
    if let Some(mode) = p.mode {
        if mode@ == "substring"@ {
            finding::law_substring_top_matches(c, p.query@, k, hits);
        } else if mode@ == "regex"@ {
            finding::law_regex_top_matches(c, p.query@, k, hits);
        }
    }
}

/// Fetching by an identifier reads the first chunk that has it, whatever else is given; if
/// there is none with a text, the identifier is named in the refusal.
pub proof fn law_fetch_by_id(s: store::StoreView, p: GetChunkParams, n: int)
    requires
        s.contexts.dom().contains(p.context@),
        p.chunk_id is Some,
        ({
            let c = s.contexts[p.context@]@;
            &&& 0 <= n < c.chunks.len()
            &&& c.chunks[n].id == p.chunk_id->0@
            &&& forall|j: int| 0 <= j < n ==> (#[trigger] c.chunks[j]).id != p.chunk_id->0@
        }),
    ensures
        ({
            let c = s.contexts[p.context@]@;
            match c.text_of(n) {
                Some(t) => fetch_answer(s, p) matches Ok(FetchedView::One(d))
                    && reading::is_data_of(c, n, d) && reading::reads(d, t, p.max_chars as int),
                None => fetch_answer(s, p) == Err::<FetchedView, tool_error::ToolErrorView>(
                    tool_error::ToolErrorView::ChunkNotFound(p.chunk_id->0@),
                ),
            }
        }),
{
    let c = s.contexts[p.context@]@;
    reading::law_read_by_id(c, p.chunk_id->0@, p.max_chars as int, n);
}

/// Fetching by an identifier that no chunk has is refused, with the identifier.
pub proof fn law_fetch_by_unknown_id(s: store::StoreView, p: GetChunkParams)
    requires
        s.contexts.dom().contains(p.context@),
        p.chunk_id is Some,
        ({
            let c = s.contexts[p.context@]@;
            forall|j: int|
                0 <= j < c.chunks.len() ==> (#[trigger] c.chunks[j]).id != p.chunk_id->0@
        }),
    ensures
        fetch_answer(s, p) == Err::<FetchedView, tool_error::ToolErrorView>(
            tool_error::ToolErrorView::ChunkNotFound(p.chunk_id->0@),
        ),
{
    let c = s.contexts[p.context@]@;
    reading::law_read_by_unknown_id(c, p.chunk_id->0@, p.max_chars as int);
}

/// Fetching by a byte range, if no identifier is given, reads the text of the range, if there
/// is one.
pub proof fn law_fetch_by_range(s: store::StoreView, p: GetChunkParams, t: Seq<char>)
    requires
        s.contexts.dom().contains(p.context@),
        p.chunk_id is None,
        p.byte_range is Some,
    ensures
        ({
            let c = s.contexts[p.context@]@;
            let start = (p.byte_range->0)@[0] as int;
            let end = (p.byte_range->0)@[1] as int;
            &&& start < end <= c.blob.len() && c.blob.subrange(start, end) == encode_utf8(t)
                ==> (fetch_answer(s, p) matches Ok(FetchedView::One(d)) && reading::reads(
                d,
                t,
                p.max_chars as int,
            ))
            &&& start >= end || end > c.blob.len() || !valid_utf8(c.blob.subrange(start, end))
                ==> fetch_answer(s, p) == Err::<FetchedView, tool_error::ToolErrorView>(
                tool_error::ToolErrorView::RangeOutOfBounds,
            )
        }),
{
    let c = s.contexts[p.context@]@;
    let start = (p.byte_range->0)@[0] as nat;
    let end = (p.byte_range->0)@[1] as nat;
    reading::law_read_by_range(c, start, end, p.max_chars as int);
    assert(encode_utf8(t) == encode_utf8(t));
}

/// Fetching by a section, if neither an identifier nor a byte range is given, reads the chunks
/// under headings that have it.
pub proof fn law_fetch_by_section(s: store::StoreView, p: GetChunkParams, n: int)
    requires
        s.contexts.dom().contains(p.context@),
        p.chunk_id is None,
        p.byte_range is None,
        p.section is Some,
        reading::under_heading(s.contexts[p.context@]@, p.section->0@, n),
    ensures
        ({
            let c = s.contexts[p.context@]@;
            let section = p.section->0@;
            let before = reading::count_under(c, section, 0, n);
            let used = reading::chars_under(c, section, 0, n);
            &&& fetch_answer(s, p) matches Ok(FetchedView::Many(list))
            &&& before == 0 || used < p.max_chars ==> {
                &&& before < list.len()
                &&& reading::is_data_of(c, n, list[before as int])
                &&& reading::reads(list[before as int], c.text_of(n)->0, p.max_chars - used)
            }
        }),
{
    let c = s.contexts[p.context@]@;
    reading::law_read_by_section(c, p.section->0@, p.max_chars as int, n);
}

/// Fetching from a context that is not there is refused with its name, and fetching nothing
/// in particular is refused.
pub proof fn law_fetch_refused(s: store::StoreView, p: GetChunkParams)
    ensures
        !s.contexts.dom().contains(p.context@) ==> fetch_answer(s, p) == Err::<
            FetchedView,
            tool_error::ToolErrorView,
        >(tool_error::ToolErrorView::NoSuchContext(p.context@)),
        s.contexts.dom().contains(p.context@) && p.chunk_id is None && p.byte_range is None
            && p.section is None ==> fetch_answer(s, p) == Err::<
            FetchedView,
            tool_error::ToolErrorView,
        >(tool_error::ToolErrorView::NothingToFetch),
{
}

/// What a provider is asked is the prompt, and behind it the content, with a line of its own
/// between the two; without content, the prompt alone.
pub proof fn law_leaf_text(prompt: Seq<char>, content: Seq<char>)
    ensures
        content.len() == 0 ==> leaf_text(prompt, content) == prompt,
        content.len() > 0 ==> leaf_text(prompt, content) == prompt + "\n\n--- content ---\n"@
            + content,
{
}

/// A provider is asked the prompt of a sub-query and the slices that its references mean, if
/// they and their headers come to no more than 12000 characters, each whole, in the order of
/// the references.
pub proof fn law_sub_query_asks(
    s: store::StoreView,
    p: SubQueryParams,
    r: Result<LeafRequest, ToolError>,
)
    requires
        asked(s, p, r),
        p.inline_content is None,
        forall|i: int|
            0 <= i < p.context_refs@.len() ==> s.contexts.dom().contains(
                (#[trigger] p.context_refs@[i]).context@,
            ),
        slices::whole(slices::all_meant(s, p.context_refs@)).len() <= 12_000,
    ensures
        ({
            let all = slices::whole(slices::all_meant(s, p.context_refs@));
            r matches Ok(request) && request.user_text@ == (if all.len() == 0 {
                p.prompt@
            } else {
                p.prompt@ + "\n\n--- content ---\n"@ + all
            })
        }),
{
    slices::law_sub_query_content(s, p);
}

/// Whether each sub-query of a batch is asked as it must be, in its place.
pub open spec fn all_asked(
    s: store::StoreView,
    queries: Seq<SubQueryParams>,
    list: Seq<Result<LeafRequest, ToolError>>,
) -> bool {
    &&& list.len() == queries.len()
    &&& forall|i: int| 0 <= i < list.len() ==> asked(s, queries[i], #[trigger] list[i])
}

/// Every sub-query of a batch is asked, in its place, or refused: it is refused exactly if one
/// of the contexts that it refers to is not there, whatever becomes of the others.
pub proof fn law_batch_asks_each(
    s: store::StoreView,
    queries: Seq<SubQueryParams>,
    list: Seq<Result<LeafRequest, ToolError>>,
    i: int,
)
    requires
        all_asked(s, queries, list),
        0 <= i < queries.len(),
    ensures
        list.len() == queries.len(),
        asked(s, queries[i], list[i]),
        list[i] is Ok <==> forall|j: int|
            0 <= j < queries[i].context_refs@.len() ==> s.contexts.dom().contains(
                (#[trigger] queries[i].context_refs@[j]).context@,
            ),
{
    let p = queries[i];
    assert(asked(s, queries[i], list[i]));
    let there = |j: int| s.contexts.dom().contains(p.context_refs@[j].context@);
    if forall|j: int| 0 <= j < p.context_refs@.len() ==> #[trigger] there(j) {
        assert forall|j: int| 0 <= j < p.context_refs@.len() implies s.contexts.dom().contains(
            (#[trigger] p.context_refs@[j]).context@,
        ) by {
            assert(there(j));
        }
        slices::law_sub_query_content(s, p);
    } else {
        let n = lemma_first_not_there(s, p, 0);
        slices::law_missing_context(s, p, n);
    }
}

/// The first reference to a context that is not there.
proof fn lemma_first_not_there(s: store::StoreView, p: SubQueryParams, from: int) -> (n: int)
    requires
        0 <= from <= p.context_refs@.len(),
        forall|j: int|
            0 <= j < from ==> s.contexts.dom().contains((#[trigger] p.context_refs@[j]).context@),
        exists|j: int|
            0 <= j < p.context_refs@.len() && !s.contexts.dom().contains(
                (#[trigger] p.context_refs@[j]).context@,
            ),
    ensures
        from <= n < p.context_refs@.len(),
        !s.contexts.dom().contains(p.context_refs@[n].context@),
        forall|j: int|
            0 <= j < n ==> s.contexts.dom().contains((#[trigger] p.context_refs@[j]).context@),
    decreases p.context_refs@.len() - from,
{
    if from < p.context_refs@.len() && !s.contexts.dom().contains(
        p.context_refs@[from].context@,
    ) {
        from
    } else {
        lemma_first_not_there(s, p, from + 1)
    }
}

/// What a batch says of its sub-queries: of each in its place its answer, or that it failed and
/// why.
pub proof fn law_outcome_texts(v: Seq<BatchOutcome>, i: int)
    requires
        0 <= i < v.len(),
    ensures
        outcome_texts(v).len() == v.len(),
        match v[i] {
            BatchOutcome::Answered(s) => outcome_texts(v)[i] == s@,
            BatchOutcome::Failed(e) => outcome_texts(v)[i] == "[error] "@ + e@.message(),
            BatchOutcome::NotJoined(s) => outcome_texts(v)[i] == "[join error] "@ + s@,
        },
{
}

/// Whether an answer is a text, shown briefly, or nothing if there is none.
pub open spec fn answers_briefly(text: Option<Seq<char>>, answer: Seq<char>) -> bool {
    match text {
        Some(s) => history::shows_briefly(s, answer),
        None => answer.len() == 0,
    }
}

/// What a tool answers is a text of at most 2000 characters as it is, the beginning of a longer
/// one, and nothing if there is none. Eight sub-queries of a batch run at a time.
pub proof fn law_text_answer(text: Option<Seq<char>>)
    ensures
        answers_briefly(text, text_answer(text)),
        BATCH_CONCURRENCY == 8,
{
    if let Some(s) = text {
        history::law_history(s);
    }
}

// ---------------------------------------------------------------------------
// Steps
// ---------------------------------------------------------------------------

/// Finds the search mode with a name.
pub fn search_mode(name: &Option<String>) -> (r: Result<SearchMode, ToolError>)
    ensures
        match (mode_named(text::opt_view(*name)), r) {
            (Ok(a), Ok(b)) => a == b,
            (Err(a), Err(b)) => a == b@,
            _ => false,
        },
{
    match name {
        None => Ok(SearchMode::Bm25),
        Some(s) => if str_eq(s.as_str(), "bm25") {
            Ok(SearchMode::Bm25)
        } else if str_eq(s.as_str(), "substring") {
            Ok(SearchMode::Substring)
        } else if str_eq(s.as_str(), "regex") {
            Ok(SearchMode::Regex)
        } else {
            Err(ToolError::UnknownSearchMode(s.clone()))
        },
    }
}

/// Makes an answer of a text, or of nothing if there is none.
pub fn answer_of_text(text: Option<String>) -> (r: String)
    ensures
        r@ == text_answer(text::opt_view(text)),
        answers_briefly(text::opt_view(text), r@),
{
    proof {
        law_text_answer(text::opt_view(text));
    }
    match text {
        Some(s) => truncate_for_history(s),
        None => {
            let none: String = String::new();
            assert(none@ =~= Seq::<char>::empty());
            truncate_for_history(none)
        },
    }
}

/// Makes an answer of a value.
pub fn answer_of_value(value: &serde_json::Value) -> (r: String)
    ensures
        r@ == text_answer(json::json_text(*value)),
        answers_briefly(json::json_text(*value), r@),
{
    answer_of_text(value_text(value))
}

/// Gives an answer back, or says why there is none.
pub fn reply_of(answer: Result<String, ToolError>) -> (r: ToolReply)
    ensures
        match answer {
            Ok(s) => r.text@ == s@ && !r.is_error,
            Err(e) => r.text@ == e@.answer() && r.is_error,
        },
{
    match answer {
        Ok(s) => ToolReply { text: s, is_error: false },
        Err(e) => ToolReply { text: e.answer(), is_error: true },
    }
}

/// Makes the list of keys of its text, or an empty list if there is none.
pub fn keys_of_text(text: Option<String>) -> (r: String)
    ensures
        r@ == match text {
            Some(s) => s@,
            None => "[]"@,
        },
{
    match text {
        Some(s) => s,
        None => "[]".to_owned(),
    }
}

/// Asks a prompt about content.
pub fn leaf_request(prompt: &str, content: &str) -> (r: LeafRequest)
    ensures
        asks(r, prompt@, content@),
{
    let mut user_text: String = prompt.to_owned();
    if content.unicode_len() > 0 {
        user_text.append("\n\n--- content ---\n");
        user_text.append(content);
    }
    LeafRequest { session: new_session(), system: LEAF_SYSTEM.to_owned(), user_text }
}

/// Takes the reply of a provider to a sub-query.
pub fn leaf_answer(reply: Result<String, String>) -> (r: Result<String, ToolError>)
    ensures
        match (reply, r) {
            (Ok(a), Ok(b)) => a@ == b@,
            (Err(a), Err(b)) => b@ == tool_error::ToolErrorView::ProviderFailed(a@),
            _ => false,
        },
{
    match reply {
        Ok(s) => Ok(s),
        Err(e) => Err(ToolError::ProviderFailed(e)),
    }
}

/// Makes the answer of a sub-query of the reply of a provider.
pub fn answer_of_sub_query(reply: Result<String, String>) -> (r: Result<String, ToolError>)
    ensures
        match (reply, r) {
            (Ok(a), Ok(b)) => b@ == history::for_history(a@) && history::shows_briefly(a@, b@),
            (Err(a), Err(b)) => b@ == tool_error::ToolErrorView::ProviderFailed(a@),
            _ => false,
        },
{
    match leaf_answer(reply) {
        Ok(s) => Ok(truncate_for_history(s)),
        Err(e) => Err(e),
    }
}

/// Says what became of the sub-queries of a batch.
pub fn batch_texts(outcomes: &Vec<BatchOutcome>) -> (r: Vec<String>)
    ensures
        matching::string_views(r@) == outcome_texts(outcomes@),
{
    let mut texts: Vec<String> = Vec::new();
    let mut i: usize = 0;
    while i < outcomes.len()
        invariant
            i <= outcomes@.len(),
            matching::string_views(texts@) == outcome_texts(outcomes@).take(i as int),
        decreases outcomes@.len() - i,
    {
        let ghost before = matching::string_views(texts@);
        let said: String = match &outcomes[i] {
            BatchOutcome::Answered(s) => s.clone(),
            BatchOutcome::Failed(e) => {
                let mut said: String = "[error] ".to_owned();
                let message: String = e.message();
                said.append(message.as_str());
                said
            },
            BatchOutcome::NotJoined(s) => {
                let mut said: String = "[join error] ".to_owned();
                said.append(s.as_str());
                said
            },
        };
        let ghost s = said@;
        texts.push(said);
        proof {
            assert(s == outcome_texts(outcomes@)[i as int]);
            assert(matching::string_views(texts@) =~= before.push(s));
            assert(before.push(s) =~= outcome_texts(outcomes@).take(i + 1));
        }
        i += 1;
    }
    proof {
        assert(outcome_texts(outcomes@).take(i as int) =~= outcome_texts(outcomes@));
    }
    texts
}

/// Makes the answer of a batch of what became of its sub-queries.
pub fn answer_of_batch(outcomes: &Vec<BatchOutcome>) -> (r: String)
    ensures
        r@ == text_answer(json::json_lines(outcome_texts(outcomes@))),
        answers_briefly(json::json_lines(outcome_texts(outcomes@)), r@),
{
    let texts: Vec<String> = batch_texts(outcomes);
    answer_of_text(pretty_list_text(&texts))
}

// ---------------------------------------------------------------------------
// Tools
// ---------------------------------------------------------------------------

impl RlmClient {
    /// Offers the tools over a store.
    pub fn new(store: RlmStore) -> (r: Result<RlmClient, ToolError>)
        ensures
            r matches Ok(client) && client@ == (ClientView {
                info: extension_info(),
                store: store@,
            }),
    {
        let info: ClientInfo = ClientInfo {
            name: EXTENSION_NAME.to_owned(),
            version: EXTENSION_VERSION.to_owned(),
            title: EXTENSION_TITLE.to_owned(),
            instructions: INSTRUCTIONS.to_owned(),
        };
        Ok(RlmClient { info, store })
    }

    /// What the tools are offered as.
    pub fn get_info(&self) -> (r: &ClientInfo)
        ensures
            r@ == self@.info,
    {
        &self.info
    }

    /// The store.
    pub fn store(&self) -> (r: &RlmStore)
        ensures
            r@ == self@.store,
    {
        &self.store
    }

    /// The store, to load into.
    pub fn store_mut(&mut self) -> (r: &mut RlmStore)
        ensures
            r@ == old(self)@.store,
            final(self)@ == (ClientView { info: old(self)@.info, store: final(r)@ }),
    {
        &mut self.store
    }

    /// Lists the tools.
    pub fn get_tools() -> (r: Vec<ToolInfo>)
        ensures
            tools::tool_views(r@) == Seq::new(
                tools::tool_kinds().len(),
                |i: int| tools::tool_view(tools::tool_kinds()[i]),
            ),
    {
        tools::get_tools()
    }

    /// Describes the contexts, in the order of their names.
    pub fn handle_list_contexts(&self) -> (r: Vec<ContextSummary>)
        ensures
            self@.store.summarised(records::summary_views(r@)),
    {
        self.store.list_contexts()
    }

    /// Lists the keys of the memory.
    pub fn handle_list_keys(&self) -> (r: String)
        ensures
            exists|keys: Seq<Seq<char>>|
                self@.store.keys_in_order(keys) && r@ == match #[trigger] json::json_line(keys) {
                    Some(s) => s,
                    None => "[]"@,
                },
            forall|keys: Seq<Seq<char>>| #[trigger]
                self@.store.keys_in_order(keys) ==> r@ == match json::json_line(keys) {
                    Some(s) => s,
                    None => "[]"@,
                },
    {
        let keys: Vec<String> = self.store.list_memory_keys();
        proof {
            let listed = matching::string_views(keys@);
            assert forall|other: Seq<Seq<char>>| #[trigger]
                self@.store.keys_in_order(other) implies other == listed by {
                matching::law_ascending_unique(other, listed);
            }
        }
        keys_of_text(list_text(&keys))
    }

    /// Searches a context.
    pub fn handle_search(&self, p: &SearchParams) -> (r: Result<Vec<SearchHit>, ToolError>)
        ensures
            match mode_named(text::opt_view(p.mode)) {
                Ok(mode) => match self@.store.context(p.context@) {
                    Some(context) => r matches Ok(hits) && context@.answers(
                        p.query@,
                        p.k as int,
                        mode,
                        records::hit_views(hits@),
                    ),
                    None => r matches Err(e) && e@ == tool_error::ToolErrorView::NoSuchContext(
                        p.context@,
                    ),
                },
                Err(refusal) => r matches Err(e) && e@ == refusal,
            },
            r matches Ok(hits) ==> (self@.store.context(p.context@) matches Some(context)
                && searched(context@, *p, records::hit_views(hits@))),
            self@.store.context(p.context@) is Some && (p.mode matches Some(mode) ==> mode@
                == "bm25"@ || mode@ == "substring"@ || mode@ == "regex"@) ==> r is Ok,
    {
        proof {
            law_mode_named(text::opt_view(p.mode));
        }
        let mode: SearchMode = match search_mode(&p.mode) {
            Ok(mode) => mode,
            Err(e) => {
                return Err(e);
            },
        };
        match self.store.get(p.context.as_str()) {
            Some(context) => {
                let hits: Vec<SearchHit> = context.search(p.query.as_str(), p.k, mode);
                proof {
                    law_search_goes_by_mode(context@, *p, records::hit_views(hits@));
                }
                Ok(hits)
            },
            None => Err(ToolError::NoSuchContext(p.context.clone())),
        }
    }

    /// Fetches chunks of a context.
    pub fn handle_get_chunk(&self, p: &GetChunkParams) -> (r: Result<Fetched, ToolError>)
        ensures
            match (fetch_answer(self@.store, *p), r) {
                (Ok(a), Ok(b)) => a == b@,
                (Err(a), Err(b)) => a == b@,
                _ => false,
            },
    {
        let context: Arc<RlmContext> = match self.store.get(p.context.as_str()) {
            Some(context) => context,
            None => {
                return Err(ToolError::NoSuchContext(p.context.clone()));
            },
        };
        if let Some(id) = &p.chunk_id {
            match context.get_chunk_by_id(id.as_str(), p.max_chars) {
                Some(data) => Ok(Fetched::One(data)),
                None => Err(ToolError::ChunkNotFound(id.clone())),
            }
        } else if let Some(range) = &p.byte_range {
            let start: usize = range[0];
            let end: usize = range[1];
            match context.get_chunk_by_range(start, end, p.max_chars) {
                Some(data) => Ok(Fetched::One(data)),
                None => Err(ToolError::RangeOutOfBounds),
            }
        } else if let Some(section) = &p.section {
            Ok(Fetched::Many(context.get_chunks_by_section(section.as_str(), p.max_chars)))
        } else {
            Err(ToolError::NothingToFetch)
        }
    }

    /// Puts together what a sub-query is asked about.
    pub fn assemble_sub_query_content(&self, p: &SubQueryParams) -> (r: Result<String, ToolError>)
        ensures
            match (assembly::sub_query_content(self@.store, *p), r) {
                (Ok(content), Ok(s)) => s@ == content,
                (Err(a), Err(b)) => a == b@,
                _ => false,
            },
    {
        assemble_with_store(&self.store, p)
    }

    /// What a provider is asked for a sub-query. Nothing if there is no provider.
    pub fn handle_sub_query(&self, p: &SubQueryParams, has_provider: bool) -> (r: Result<
        LeafRequest,
        ToolError,
    >)
        ensures
            if has_provider {
                asked(self@.store, *p, r)
            } else {
                r matches Err(e) && e@ == tool_error::ToolErrorView::NoProvider
            },
    {
        if !has_provider {
            return Err(ToolError::NoProvider);
        }
        match self.assemble_sub_query_content(p) {
            Ok(content) => Ok(leaf_request(p.prompt.as_str(), content.as_str())),
            Err(e) => Err(e),
        }
    }

    /// What a provider is asked for the sub-queries of a batch. Nothing if there is no
    /// provider; a sub-query about a missing context does not stop the others.
    pub fn handle_batch_sub_query(
        &self,
        queries: &Vec<SubQueryParams>,
        has_provider: bool,
    ) -> (r: Result<Vec<Result<LeafRequest, ToolError>>, ToolError>)
        ensures
            if has_provider {
                &&& r matches Ok(list)
                &&& list@.len() == queries@.len()
                &&& forall|i: int|
                    0 <= i < list@.len() ==> asked(self@.store, queries@[i], #[trigger] list@[i])
                &&& all_asked(self@.store, queries@, list@)
            } else {
                r matches Err(e) && e@ == tool_error::ToolErrorView::NoProvider
            },
    {
        if !has_provider {
            return Err(ToolError::NoProvider);
        }
        let mut list: Vec<Result<LeafRequest, ToolError>> = Vec::new();
        let mut i: usize = 0;
        while i < queries.len()
            invariant
                i <= queries@.len(),
                list@.len() == i,
                forall|j: int|
                    0 <= j < list@.len() ==> asked(self@.store, queries@[j], #[trigger] list@[j]),
            decreases queries@.len() - i,
        {
            list.push(self.handle_sub_query(&queries[i], true));
            i += 1;
        }
        Ok(list)
    }

    /// Keeps a value under a key.
    pub fn handle_store(&mut self, key: String, value: serde_json::Value) -> (r: String)
        ensures
            final(self)@ == (ClientView {
                info: old(self)@.info,
                store: old(self)@.store.with_value(key@, value),
            }),
            r@ == "stored: "@ + key@,
    {
        let mut r: String = "stored: ".to_owned();
        r.append(key.as_str());
        self.store.store_memory(key, value);
        r
    }

    /// Reads the value that is kept under a key.
    pub fn handle_retrieve(&self, key: &str) -> (r: Result<String, ToolError>)
        ensures
            match self@.store.value(key@) {
                Some(value) => r matches Ok(s) && s@ == text_answer(json::json_text(value)),
                None => r matches Err(e) && e@ == tool_error::ToolErrorView::NoSuchKey(key@),
            },
            r matches Ok(s) ==> (self@.store.value(key@) matches Some(value) && answers_briefly(
                json::json_text(value),
                s@,
            )),
    {
        match self.store.retrieve_memory(key) {
            Some(value) => Ok(answer_of_value(&value)),
            None => Err(ToolError::NoSuchKey(key.to_owned())),
        }
    }
}

} // verus!
