//! Primitives for recursive language models: a long context lives in a store, outside of a
//! model's prompt, and the model reaches it through a small set of tools.
//!
//! - [`store::RlmStore`] holds named contexts and a key/value memory, within a budget.
//! - [`context::RlmContext`] is a loaded file or directory: its text, its chunks, how to
//!   search and read them.
//! - [`chunking::Chunk`] points into the text of a context.
//! - [`client::RlmClient`] is the tools over a store: what each answers, and what it asks of
//!   a provider.
//! - [`think::Agent`] takes thoughts.
//!
//! What reading a context gives is stated in [`reading`], what searching one gives in
//! [`finding`], and what a sub-query is asked about in [`slices`].

pub mod assembly;
pub mod chunking;
pub mod client;
pub mod context;
pub mod decimal;
pub mod files;
pub mod finding;
pub mod headings;
pub mod history;
pub mod json;
pub mod loading;
pub mod matching;
pub mod order;
pub mod pattern;
pub mod preview;
pub mod ranking;
pub mod reading;
pub mod records;
pub mod session;
pub mod shared_map;
pub mod slices;
pub mod store;
pub mod text;
pub mod think;
pub mod tool_error;
pub mod tools;
pub mod unicode;
pub mod white;

pub use chunking::Chunk;
pub use context::RlmContext;
pub use records::{ChunkData, ContextSummary, SearchHit, SearchMode};
pub use store::RlmStore;
