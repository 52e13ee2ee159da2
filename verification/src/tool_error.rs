//! Why a tool has no answer.
use vstd::prelude::*;
use vstd::string::*;

verus! {

/// Why a tool has no answer.
#[derive(Debug)]
pub enum ToolError {
    /// The arguments could not be read, for this reason.
    InvalidArguments(String),
    UnknownSearchMode(String),
    NoSuchContext(String),
    ChunkNotFound(String),
    RangeOutOfBounds,
    /// None of the ways to say what to fetch was used.
    NothingToFetch,
    NoProvider,
    /// The provider failed, for this reason.
    ProviderFailed(String),
    NoSuchKey(String),
    UnknownTool(String),
}

/// What a [`ToolError`] holds.
pub enum ToolErrorView {
    InvalidArguments(Seq<char>),
    UnknownSearchMode(Seq<char>),
    NoSuchContext(Seq<char>),
    ChunkNotFound(Seq<char>),
    RangeOutOfBounds,
    NothingToFetch,
    NoProvider,
    ProviderFailed(Seq<char>),
    NoSuchKey(Seq<char>),
    UnknownTool(Seq<char>),
}

impl View for ToolError {
    type V = ToolErrorView;

    open spec fn view(&self) -> ToolErrorView {
        match self {
            ToolError::InvalidArguments(s) => ToolErrorView::InvalidArguments(s@),
            ToolError::UnknownSearchMode(s) => ToolErrorView::UnknownSearchMode(s@),
            ToolError::NoSuchContext(s) => ToolErrorView::NoSuchContext(s@),
            ToolError::ChunkNotFound(s) => ToolErrorView::ChunkNotFound(s@),
            ToolError::RangeOutOfBounds => ToolErrorView::RangeOutOfBounds,
            ToolError::NothingToFetch => ToolErrorView::NothingToFetch,
            ToolError::NoProvider => ToolErrorView::NoProvider,
            ToolError::ProviderFailed(s) => ToolErrorView::ProviderFailed(s@),
            ToolError::NoSuchKey(s) => ToolErrorView::NoSuchKey(s@),
            ToolError::UnknownTool(s) => ToolErrorView::UnknownTool(s@),
        }
    }
}

impl ToolErrorView {
    /// The error in words.
    pub open spec fn message(self) -> Seq<char> {
        match self {
            ToolErrorView::InvalidArguments(s) => "invalid arguments: "@ + s,
            ToolErrorView::UnknownSearchMode(s) => "unknown search mode: "@ + s,
            ToolErrorView::NoSuchContext(s) => "no such context: "@ + s,
            ToolErrorView::ChunkNotFound(s) => "chunk not found: "@ + s,
            ToolErrorView::RangeOutOfBounds => "byte_range out of bounds"@,
            ToolErrorView::NothingToFetch => "must provide chunk_id, byte_range, or section"@,
            ToolErrorView::NoProvider => "no provider configured for sub_query"@,
            ToolErrorView::ProviderFailed(s) => "sub_query provider error: "@ + s,
            ToolErrorView::NoSuchKey(s) => "no such key: "@ + s,
            ToolErrorView::UnknownTool(s) => "unknown tool: "@ + s,
        }
    }

    /// The error as the answer of a tool.
    pub open spec fn answer(self) -> Seq<char> {
        "Error: "@ + self.message()
    }
}

/// An error says in words what it is about: what was asked for, or why it failed, stands at the
/// end; and as the answer of a tool it is marked as an error.
pub proof fn law_message(e: ToolErrorView)
    ensures
        e.answer() == "Error: "@ + e.message(),
        match e {
            ToolErrorView::InvalidArguments(s) | ToolErrorView::UnknownSearchMode(
                s,
            ) | ToolErrorView::NoSuchContext(s) | ToolErrorView::ChunkNotFound(
                s,
            ) | ToolErrorView::ProviderFailed(s) | ToolErrorView::NoSuchKey(
                s,
            ) | ToolErrorView::UnknownTool(s) => e.message().len() > s.len() && e.message().skip(
                e.message().len() - s.len(),
            ) == s,
            _ => e.message().len() > 0,
        },
{
    reveal_strlit("invalid arguments: ");
    reveal_strlit("unknown search mode: ");
    reveal_strlit("no such context: ");
    reveal_strlit("chunk not found: ");
    reveal_strlit("byte_range out of bounds");
    reveal_strlit("must provide chunk_id, byte_range, or section");
    reveal_strlit("no provider configured for sub_query");
    reveal_strlit("sub_query provider error: ");
    reveal_strlit("no such key: ");
    reveal_strlit("unknown tool: ");
    match e {
        ToolErrorView::InvalidArguments(s) | ToolErrorView::UnknownSearchMode(
            s,
        ) | ToolErrorView::NoSuchContext(s) | ToolErrorView::ChunkNotFound(
            s,
        ) | ToolErrorView::ProviderFailed(s) | ToolErrorView::NoSuchKey(
            s,
        ) | ToolErrorView::UnknownTool(s) => {
            assert(e.message().skip(e.message().len() - s.len()) =~= s);
        },
        _ => {},
    }
}

/// A text with another behind it.
fn joined(a: &str, b: &str) -> (r: String)
    ensures
        r@ == a@ + b@,
{
    let mut r: String = a.to_owned();
    r.append(b);
    r
}

impl ToolError {
    /// The error in words.
    pub fn message(&self) -> (r: String)
        ensures
            r@ == self@.message(),
    {
        match self {
            ToolError::InvalidArguments(s) => joined("invalid arguments: ", s.as_str()),
            ToolError::UnknownSearchMode(s) => joined("unknown search mode: ", s.as_str()),
            ToolError::NoSuchContext(s) => joined("no such context: ", s.as_str()),
            ToolError::ChunkNotFound(s) => joined("chunk not found: ", s.as_str()),
            ToolError::RangeOutOfBounds => "byte_range out of bounds".to_owned(),
            ToolError::NothingToFetch => {
                "must provide chunk_id, byte_range, or section".to_owned()
            },
            ToolError::NoProvider => "no provider configured for sub_query".to_owned(),
            ToolError::ProviderFailed(s) => joined("sub_query provider error: ", s.as_str()),
            ToolError::NoSuchKey(s) => joined("no such key: ", s.as_str()),
            ToolError::UnknownTool(s) => joined("unknown tool: ", s.as_str()),
        }
    }

    /// The error as the answer of a tool.
    pub fn answer(&self) -> (r: String)
        ensures
            r@ == self@.answer(),
    {
        let message: String = self.message();
        joined("Error: ", message.as_str())
    }
}

} // verus!
