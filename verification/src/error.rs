//! The library's error values and their messages.

use vstd::prelude::*;
use crate::text::{chars_of, concat, string_of};

verus! {

/// What can go wrong in indexing, searching and serving a graph.
#[derive(Debug)]
pub enum GgError {
    Parse { file: String, message: String },
    UnsupportedLanguage(String),
    Graph(String),
    Search(String),
    Serialization(String),
    Cancelled,
    Other(String),
}

/// The message of an error.
pub open spec fn spec_error_message(e: GgError) -> Seq<char> {
    match e {
        GgError::Parse { file, message } => "Parse error in "@ + file@ + ": "@ + message@,
        GgError::UnsupportedLanguage(l) => "Unsupported language: "@ + l@,
        GgError::Graph(m) => "Graph error: "@ + m@,
        GgError::Search(m) => "Search error: "@ + m@,
        GgError::Serialization(m) => "Serialization error: "@ + m@,
        GgError::Cancelled => "Operation cancelled"@,
        GgError::Other(m) => m@,
    }
}

/// `prefix` followed by `rest`.
fn prefixed(prefix: &str, rest: &str) -> (r: String)
    ensures
        r@ == prefix@ + rest@,
{
    string_of(&concat(&chars_of(prefix), &chars_of(rest)))
}

impl GgError {
    /// The message of this error.
    pub fn message(&self) -> (r: String)
        ensures
            r@ == spec_error_message(*self),
    {
        proof {
            reveal_strlit("Parse error in ");
            reveal_strlit(": ");
            reveal_strlit("Unsupported language: ");
            reveal_strlit("Graph error: ");
            reveal_strlit("Search error: ");
            reveal_strlit("Serialization error: ");
            reveal_strlit("Operation cancelled");
        }
        match self {
            GgError::Parse { file, message } => {
                let head = concat(&chars_of("Parse error in "), &chars_of(file.as_str()));
                let mid = concat(&head, &chars_of(": "));
                string_of(&concat(&mid, &chars_of(message.as_str())))
            },
            GgError::UnsupportedLanguage(l) => prefixed("Unsupported language: ", l.as_str()),
            GgError::Graph(m) => prefixed("Graph error: ", m.as_str()),
            GgError::Search(m) => prefixed("Search error: ", m.as_str()),
            GgError::Serialization(m) => prefixed("Serialization error: ", m.as_str()),
            GgError::Cancelled => "Operation cancelled".to_owned(),
            GgError::Other(m) => m.clone(),
        }
    }
}

} // verus!
