//! A scratchpad tool: a thought is taken and acknowledged. Nothing else changes.
use vstd::prelude::*;
use vstd::string::*;

use crate::json;
use crate::json::{member, string_in};
use crate::white;
use crate::white::is_blank;

verus! {

/// The agent that thinks.
#[derive(Debug)]
pub struct Agent {}

/// Why a thought was not taken. Both are invalid parameters.
#[derive(Clone, Copy, Debug, PartialEq, Eq, Structural)]
pub enum ThinkError {
    /// There is no thought, or it is not a string.
    Missing,
    /// The thought is blank.
    Blank,
}

/// The name of the parameter.
pub const THOUGHT: &'static str = "thought";

/// The answer to a thought that was taken.
pub const THOUGHT_LOGGED: &'static str =
    "Thought logged. This was internal reasoning only — now continue and produce the user-facing answer or take the next concrete action.";

/// The error in words.
pub open spec fn think_message(e: ThinkError) -> Seq<char> {
    match e {
        ThinkError::Missing => "Missing 'thought' parameter"@,
        ThinkError::Blank => "'thought' must be a non-empty string"@,
    }
}

/// The answer to a thought, as far as there is one.
pub open spec fn think_answer(thought: Option<Seq<char>>) -> Result<Seq<char>, ThinkError> {
    match thought {
        Some(t) => if white::blank(t) {
            Err(ThinkError::Blank)
        } else {
            Ok(THOUGHT_LOGGED@)
        },
        None => Err(ThinkError::Missing),
    }
}

/// The thought in arguments: their member of that name, if it is a string.
pub open spec fn thought_in(arguments: serde_json::Value) -> Option<Seq<char>> {
    match json::json_member(arguments, THOUGHT@) {
        Some(v) => json::json_string(v),
        None => None,
    }
}

impl ThinkError {
    /// The error in words.
    pub fn message(&self) -> (r: String)
        ensures
            r@ == think_message(*self),
    {
        match self {
            ThinkError::Missing => "Missing 'thought' parameter".to_owned(),
            ThinkError::Blank => "'thought' must be a non-empty string".to_owned(),
        }
    }
}

/// A thought is acknowledged exactly if it has a character that is not white space; a thought
/// without one is refused otherwise than one that is missing.
pub proof fn law_think_answer(thought: Option<Seq<char>>)
    ensures
        think_answer(thought) is Ok <==> (thought matches Some(t) && exists|i: int|
            0 <= i < t.len() && !white::white_space(#[trigger] t[i])),
        thought is None ==> think_answer(thought) == Err::<Seq<char>, ThinkError>(
            ThinkError::Missing,
        ),
        thought matches Some(t) && white::trim(t).len() == 0 ==> think_answer(thought) == Err::<
            Seq<char>,
            ThinkError,
        >(ThinkError::Blank),
        think_message(ThinkError::Missing) != think_message(ThinkError::Blank),
{
    reveal_strlit("Missing 'thought' parameter");
    reveal_strlit("'thought' must be a non-empty string");
    assert(think_message(ThinkError::Missing).len() != think_message(ThinkError::Blank).len());
    if let Some(t) = thought {
        white::law_blank_iff_trim_empty(t);
    }
}

/// Takes a thought, as far as there is one.
pub fn take_thought(thought: Option<&str>) -> (r: Result<String, ThinkError>)
    ensures
        match (
            think_answer(
                match thought {
                    Some(t) => Some(t@),
                    None => None,
                },
            ),
            r,
        ) {
            (Ok(answer), Ok(s)) => s@ == answer,
            (Err(a), Err(b)) => a == b,
            _ => false,
        },
{
    match thought {
        Some(t) => if is_blank(t) {
            Err(ThinkError::Blank)
        } else {
            Ok(THOUGHT_LOGGED.to_owned())
        },
        None => Err(ThinkError::Missing),
    }
}

/// Finds the thought in arguments.
pub fn find_thought(arguments: &serde_json::Value) -> (r: Option<&str>)
    ensures
        match r {
            Some(t) => thought_in(*arguments) == Some(t@),
            None => thought_in(*arguments) is None,
        },
{
    match member(arguments, THOUGHT) {
        Some(v) => string_in(v),
        None => None,
    }
}

impl Agent {
    /// Takes the thought in arguments.
    pub fn handle_think(&self, arguments: &serde_json::Value) -> (r: Result<String, ThinkError>)
        ensures
            match (think_answer(thought_in(*arguments)), r) {
                (Ok(answer), Ok(s)) => s@ == answer,
                (Err(a), Err(b)) => a == b,
                _ => false,
            },
    {
        take_thought(find_thought(arguments))
    }
}

} // verus!
