//! Client-side core of a code-search command line tool: a tolerant
//! line-oriented parser for the search service's text responses, a
//! substring match locator, and a terminal renderer that composites
//! syntax-highlighting spans with match highlights.

pub mod ansi;
pub mod cli;
pub mod bytes;
pub mod compositor;
pub mod deep;
pub mod matcher;
pub mod parser;
pub mod render;
pub mod syn;

pub use ansi::Rgb;
pub use cli::Cli;
pub use compositor::{highlight_matches, next_boundary, styled_line, Span};
pub use matcher::match_byte_ranges;
pub use parser::{flush_result, parse, parse_start_line, split_lines, SearchResult, Snippet};
pub use render::{needs_gap, render_line, Palette, Printer};
