//! Trusted boundary to the syntect grammar engine: the opaque grammar and
//! theme types, and the calls the renderer makes into them. The calls are
//! trusted for nothing beyond their types; every property the renderer
//! needs of their results is checked afterwards in verified code.

use vstd::prelude::*;

use crate::ansi::Rgb;
use crate::compositor::Span;

verus! {

#[verifier::external_type_specification]
#[verifier::external_body]
pub struct ExSyntaxSet(syntect::parsing::SyntaxSet);

#[verifier::external_type_specification]
#[verifier::external_body]
pub struct ExSyntaxReference(syntect::parsing::SyntaxReference);

#[verifier::external_type_specification]
#[verifier::external_body]
pub struct ExTheme(syntect::highlighting::Theme);

#[verifier::external_type_specification]
#[verifier::external_body]
pub struct ExHighlightLines<'a>(syntect::easy::HighlightLines<'a>);

/// Relies on syntect's `HighlightLines::new`: a fresh highlighter for one
/// file, carrying tokenizer state from line to line.
#[verifier::external_body]
pub(crate) fn new_highlighter<'a>(
    syntax: &'a syntect::parsing::SyntaxReference,
    theme: &'a syntect::highlighting::Theme,
) -> syntect::easy::HighlightLines<'a> {
    syntect::easy::HighlightLines::new(syntax, theme)
}

/// Relies on syntect's `HighlightLines::highlight_line` for tokenization.
/// Nothing is assumed of the spans it returns: the caller checks that their
/// texts reconstruct the line and falls back to a plain span otherwise. A
/// line that is not UTF-8, or that the engine refuses, is one span in the
/// fallback color.
#[verifier::external_body]
pub(crate) fn highlight_line_spans<'a, 'b>(
    hl: &'b mut syntect::easy::HighlightLines<'a>,
    line: &[u8],
    ss: &syntect::parsing::SyntaxSet,
    fallback: Rgb,
) -> Vec<Span>
{
    if let Ok(s) = core::str::from_utf8(line) {
        if let Ok(ranges) = hl.highlight_line(s, ss) {
            return ranges
                .iter()
                .map(|&(st, t)| Span {
                    fg: Rgb { r: st.foreground.r, g: st.foreground.g, b: st.foreground.b },
                    text: t.as_bytes().to_vec(),
                })
                .collect();
        }
    }
    vec![Span { fg: fallback, text: line.to_vec() }]
}

/// Relies on syntect's `SyntaxSet::find_syntax_by_extension`: a grammar
/// looked up by file extension, if the set has one.
#[verifier::external_body]
pub(crate) fn find_syntax_by_ext<'a>(
    ss: &'a syntect::parsing::SyntaxSet,
    ext: &[u8],
) -> Option<&'a syntect::parsing::SyntaxReference> {
    core::str::from_utf8(ext).ok().and_then(|e| ss.find_syntax_by_extension(e))
}

/// Relies on syntect's `SyntaxSet::find_syntax_by_name` for the plain-text
/// grammar that the bundled default set carries.
#[verifier::external_body]
pub(crate) fn find_plain_syntax<'a>(
    ss: &'a syntect::parsing::SyntaxSet,
) -> Option<&'a syntect::parsing::SyntaxReference> {
    ss.find_syntax_by_name("Plain Text")
}

} // verus!
