//! The search options one invocation runs with. Argument parsing lives with
//! the binary; the library only consumes the resolved values.

use vstd::prelude::*;

verus! {

/// One invocation's search options.
pub struct Cli {
    /// The literal code pattern to search for.
    pub query: String,
    /// Case sensitive search.
    pub match_case: bool,
    /// Match whole words only.
    pub match_whole_words: bool,
    /// Interpret the query as a regular expression.
    pub use_regexp: bool,
    /// Filter by repository, e.g. `facebook/react`.
    pub repo: Option<String>,
    /// Filter by file path.
    pub path: Option<String>,
    /// Filter by programming language (repeatable).
    pub language: Vec<String>,
    /// Emit the raw structured response instead of rendered output.
    pub json: bool,
}

} // verus!
