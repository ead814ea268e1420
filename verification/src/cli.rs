//! The command line, as plain values.

use vstd::prelude::*;

verus! {

/// A parsed command line.
#[derive(Debug, Clone, PartialEq, Eq)]
pub struct Cli {
    pub command: Commands,
}

/// What the user asked for.
#[derive(Debug, Clone, PartialEq, Eq)]
pub enum Commands {
    /// Answer a question; the words of the question, in order.
    Ask { query: Vec<String> },
    /// Remember a sentence.
    Remember { content: String },
    /// Remember the contents of a file.
    Upload { path: String },
    /// Forget one piece of content, or all of it.
    Forget { content_id: Option<String>, all: bool },
    /// List `limit` pieces of content after skipping `start`.
    List { start: u16, limit: u16 },
}

} // verus!
