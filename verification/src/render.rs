//! Result renderer: header blocks, gap markers between non-contiguous
//! snippets, a right-aligned line-number gutter, and per-line delegation to
//! the highlight compositor. The renderer builds the full output as bytes;
//! writing them to the terminal is the caller's business.

use vstd::prelude::*;

use crate::ansi::{
    bold_escape, bold_seq, dec_digits, dec_u64, dim_escape, dim_seq, fg_escape, fg_seq,
    reset_escape, reset_seq, underline_escape, underline_seq, Rgb,
};
use crate::bytes::{copy_range, eq_bytes, is_prefix, lemma_prefix_extend};
use crate::compositor::{
    concat_texts, highlight_matches, spans_covering, spec_composite, spec_styled_line, styled_line,
    Span, SpanModel,
};
use crate::matcher::{match_byte_ranges, spec_matches};
use crate::parser::{SearchResult, SearchResultModel, SnippetModel};
use crate::syn::{find_plain_syntax, find_syntax_by_ext, highlight_line_spans, new_highlighter};

verus! {

/// The bytes of the literal `"Unknown"`.
pub open spec fn unknown_lit() -> Seq<u8> {
    seq![85u8, 110u8, 107u8, 110u8, 111u8, 119u8, 110u8]
}

/// The literal `"Unknown"` as owned bytes.
fn unknown_lit_x() -> (r: Vec<u8>)
    ensures
        r@ == unknown_lit(),
{
    let mut v: Vec<u8> = Vec::new();
    v.push(85);
    v.push(110);
    v.push(107);
    v.push(110);
    v.push(111);
    v.push(119);
    v.push(110);
    proof {
        assert(v@ =~= unknown_lit());
    }
    v
}

/// The bytes of the literal `"File: "`.
pub open spec fn file_lit() -> Seq<u8> {
    seq![70u8, 105u8, 108u8, 101u8, 58u8, 32u8]
}

/// The literal `"File: "` as owned bytes.
fn file_lit_x() -> (r: Vec<u8>)
    ensures
        r@ == file_lit(),
{
    let mut v: Vec<u8> = Vec::new();
    v.push(70);
    v.push(105);
    v.push(108);
    v.push(101);
    v.push(58);
    v.push(32);
    proof {
        assert(v@ =~= file_lit());
    }
    v
}

/// The bytes of the literal `"No results found."`.
pub open spec fn no_results_lit() -> Seq<u8> {
    seq![78u8, 111u8, 32u8, 114u8, 101u8, 115u8, 117u8, 108u8, 116u8, 115u8, 32u8, 102u8, 111u8, 117u8, 110u8, 100u8, 46u8]
}

/// The literal `"No results found."` as owned bytes.
fn no_results_lit_x() -> (r: Vec<u8>)
    ensures
        r@ == no_results_lit(),
{
    let mut v: Vec<u8> = Vec::new();
    v.push(78);
    v.push(111);
    v.push(32);
    v.push(114);
    v.push(101);
    v.push(115);
    v.push(117);
    v.push(108);
    v.push(116);
    v.push(115);
    v.push(32);
    v.push(102);
    v.push(111);
    v.push(117);
    v.push(110);
    v.push(100);
    v.push(46);
    proof {
        assert(v@ =~= no_results_lit());
    }
    v
}

/// The bytes of the literal `"Found "`.
pub open spec fn found_lit() -> Seq<u8> {
    seq![70u8, 111u8, 117u8, 110u8, 100u8, 32u8]
}

/// The literal `"Found "` as owned bytes.
fn found_lit_x() -> (r: Vec<u8>)
    ensures
        r@ == found_lit(),
{
    let mut v: Vec<u8> = Vec::new();
    v.push(70);
    v.push(111);
    v.push(117);
    v.push(110);
    v.push(100);
    v.push(32);
    proof {
        assert(v@ =~= found_lit());
    }
    v
}

/// The bytes of the literal `" result(s):"`.
pub open spec fn results_suffix_lit() -> Seq<u8> {
    seq![32u8, 114u8, 101u8, 115u8, 117u8, 108u8, 116u8, 40u8, 115u8, 41u8, 58u8]
}

/// The literal `" result(s):"` as owned bytes.
fn results_suffix_lit_x() -> (r: Vec<u8>)
    ensures
        r@ == results_suffix_lit(),
{
    let mut v: Vec<u8> = Vec::new();
    v.push(32);
    v.push(114);
    v.push(101);
    v.push(115);
    v.push(117);
    v.push(108);
    v.push(116);
    v.push(40);
    v.push(115);
    v.push(41);
    v.push(58);
    proof {
        assert(v@ =~= results_suffix_lit());
    }
    v
}

/// The UTF-8 bytes of the filled-circle bullet glyph.
pub open spec fn bullet_glyph() -> Seq<u8> {
    seq![226u8, 151u8, 143u8]
}

/// The filled-circle bullet glyph as owned bytes.
fn bullet_glyph_x() -> (r: Vec<u8>)
    ensures
        r@ == bullet_glyph(),
{
    let mut v: Vec<u8> = Vec::new();
    v.push(226);
    v.push(151);
    v.push(143);
    proof {
        assert(v@ =~= bullet_glyph());
    }
    v
}

/// The UTF-8 bytes of the vertical ellipsis glyph.
pub open spec fn ellipsis_glyph() -> Seq<u8> {
    seq![226u8, 139u8, 174u8]
}

/// The vertical ellipsis glyph as owned bytes.
fn ellipsis_glyph_x() -> (r: Vec<u8>)
    ensures
        r@ == ellipsis_glyph(),
{
    let mut v: Vec<u8> = Vec::new();
    v.push(226);
    v.push(139);
    v.push(174);
    proof {
        assert(v@ =~= ellipsis_glyph());
    }
    v
}

/// The UTF-8 bytes of the horizontal bar glyph.
pub open spec fn bar_glyph() -> Seq<u8> {
    seq![226u8, 148u8, 128u8]
}

/// The horizontal bar glyph as owned bytes.
fn bar_glyph_x() -> (r: Vec<u8>)
    ensures
        r@ == bar_glyph(),
{
    let mut v: Vec<u8> = Vec::new();
    v.push(226);
    v.push(148);
    v.push(128);
    proof {
        assert(v@ =~= bar_glyph());
    }
    v
}

/// The extension aliasing table: related extensions map to a shared or
/// closest-available grammar key.
pub open spec fn alias_table() -> Seq<(Seq<u8>, Seq<u8>)> {
    seq![
        (seq![116u8, 115u8], seq![106u8, 115u8]),
        (seq![116u8, 115u8, 120u8], seq![106u8, 115u8]),
        (seq![106u8, 115u8, 120u8], seq![106u8, 115u8]),
        (seq![109u8, 106u8, 115u8], seq![106u8, 115u8]),
        (seq![99u8, 106u8, 115u8], seq![106u8, 115u8]),
        (seq![109u8, 116u8, 115u8], seq![106u8, 115u8]),
        (seq![99u8, 116u8, 115u8], seq![106u8, 115u8]),
        (seq![107u8, 116u8], seq![106u8, 97u8, 118u8, 97u8]),
        (seq![107u8, 116u8, 115u8], seq![106u8, 97u8, 118u8, 97u8]),
        (seq![115u8, 119u8, 105u8, 102u8, 116u8], seq![99u8]),
        (seq![100u8, 97u8, 114u8, 116u8], seq![106u8, 97u8, 118u8, 97u8]),
        (seq![116u8, 111u8, 109u8, 108u8], seq![121u8, 97u8, 109u8, 108u8]),
        (seq![100u8, 111u8, 99u8, 107u8, 101u8, 114u8, 102u8, 105u8, 108u8, 101u8], seq![115u8, 104u8]),
        (seq![68u8, 111u8, 99u8, 107u8, 101u8, 114u8, 102u8, 105u8, 108u8, 101u8], seq![115u8, 104u8]),
        (seq![118u8, 117u8, 101u8], seq![104u8, 116u8, 109u8, 108u8]),
        (seq![115u8, 118u8, 101u8, 108u8, 116u8, 101u8], seq![104u8, 116u8, 109u8, 108u8]),
    ]
}

/// The extension aliasing table as owned bytes.
fn alias_table_x() -> (r: Vec<(Vec<u8>, Vec<u8>)>)
    ensures
        r.deep_view() == alias_table(),
{
    let mut v: Vec<(Vec<u8>, Vec<u8>)> = Vec::new();
    {
        let mut key: Vec<u8> = Vec::new();
        key.push(116);
        key.push(115);
        let mut val: Vec<u8> = Vec::new();
        val.push(106);
        val.push(115);
        v.push((key, val));
    }
    {
        let mut key: Vec<u8> = Vec::new();
        key.push(116);
        key.push(115);
        key.push(120);
        let mut val: Vec<u8> = Vec::new();
        val.push(106);
        val.push(115);
        v.push((key, val));
    }
    {
        let mut key: Vec<u8> = Vec::new();
        key.push(106);
        key.push(115);
        key.push(120);
        let mut val: Vec<u8> = Vec::new();
        val.push(106);
        val.push(115);
        v.push((key, val));
    }
    {
        let mut key: Vec<u8> = Vec::new();
        key.push(109);
        key.push(106);
        key.push(115);
        let mut val: Vec<u8> = Vec::new();
        val.push(106);
        val.push(115);
        v.push((key, val));
    }
    {
        let mut key: Vec<u8> = Vec::new();
        key.push(99);
        key.push(106);
        key.push(115);
        let mut val: Vec<u8> = Vec::new();
        val.push(106);
        val.push(115);
        v.push((key, val));
    }
    {
        let mut key: Vec<u8> = Vec::new();
        key.push(109);
        key.push(116);
        key.push(115);
        let mut val: Vec<u8> = Vec::new();
        val.push(106);
        val.push(115);
        v.push((key, val));
    }
    {
        let mut key: Vec<u8> = Vec::new();
        key.push(99);
        key.push(116);
        key.push(115);
        let mut val: Vec<u8> = Vec::new();
        val.push(106);
        val.push(115);
        v.push((key, val));
    }
    {
        let mut key: Vec<u8> = Vec::new();
        key.push(107);
        key.push(116);
        let mut val: Vec<u8> = Vec::new();
        val.push(106);
        val.push(97);
        val.push(118);
        val.push(97);
        v.push((key, val));
    }
    {
        let mut key: Vec<u8> = Vec::new();
        key.push(107);
        key.push(116);
        key.push(115);
        let mut val: Vec<u8> = Vec::new();
        val.push(106);
        val.push(97);
        val.push(118);
        val.push(97);
        v.push((key, val));
    }
    {
        let mut key: Vec<u8> = Vec::new();
        key.push(115);
        key.push(119);
        key.push(105);
        key.push(102);
        key.push(116);
        let mut val: Vec<u8> = Vec::new();
        val.push(99);
        v.push((key, val));
    }
    {
        let mut key: Vec<u8> = Vec::new();
        key.push(100);
        key.push(97);
        key.push(114);
        key.push(116);
        let mut val: Vec<u8> = Vec::new();
        val.push(106);
        val.push(97);
        val.push(118);
        val.push(97);
        v.push((key, val));
    }
    {
        let mut key: Vec<u8> = Vec::new();
        key.push(116);
        key.push(111);
        key.push(109);
        key.push(108);
        let mut val: Vec<u8> = Vec::new();
        val.push(121);
        val.push(97);
        val.push(109);
        val.push(108);
        v.push((key, val));
    }
    {
        let mut key: Vec<u8> = Vec::new();
        key.push(100);
        key.push(111);
        key.push(99);
        key.push(107);
        key.push(101);
        key.push(114);
        key.push(102);
        key.push(105);
        key.push(108);
        key.push(101);
        let mut val: Vec<u8> = Vec::new();
        val.push(115);
        val.push(104);
        v.push((key, val));
    }
    {
        let mut key: Vec<u8> = Vec::new();
        key.push(68);
        key.push(111);
        key.push(99);
        key.push(107);
        key.push(101);
        key.push(114);
        key.push(102);
        key.push(105);
        key.push(108);
        key.push(101);
        let mut val: Vec<u8> = Vec::new();
        val.push(115);
        val.push(104);
        v.push((key, val));
    }
    {
        let mut key: Vec<u8> = Vec::new();
        key.push(118);
        key.push(117);
        key.push(101);
        let mut val: Vec<u8> = Vec::new();
        val.push(104);
        val.push(116);
        val.push(109);
        val.push(108);
        v.push((key, val));
    }
    {
        let mut key: Vec<u8> = Vec::new();
        key.push(115);
        key.push(118);
        key.push(101);
        key.push(108);
        key.push(116);
        key.push(101);
        let mut val: Vec<u8> = Vec::new();
        val.push(104);
        val.push(116);
        val.push(109);
        val.push(108);
        v.push((key, val));
    }
    proof {
        assert(v.deep_view() =~~= alias_table());
    }
    v
}

// ------------------------------------------------------------------
// Palette
// ------------------------------------------------------------------

/// The dark-terminal palette.
pub open spec fn dark_palette() -> Palette {
    Palette {
        heading: Rgb { r: 63, g: 185, b: 80 },
        repo: Rgb { r: 88, g: 166, b: 255 },
        match_bg: Rgb { r: 120, g: 70, b: 10 },
        info: Rgb { r: 139, g: 148, b: 158 },
        separator: Rgb { r: 110, g: 118, b: 129 },
    }
}

/// The light-terminal palette.
pub open spec fn light_palette() -> Palette {
    Palette {
        heading: Rgb { r: 26, g: 127, b: 55 },
        repo: Rgb { r: 9, g: 105, b: 218 },
        match_bg: Rgb { r: 255, g: 220, b: 160 },
        info: Rgb { r: 101, g: 109, b: 118 },
        separator: Rgb { r: 208, g: 215, b: 222 },
    }
}

/// The five colors one run of the tool renders with.
#[derive(Clone, Copy, PartialEq, Eq, Structural, Debug)]
pub struct Palette {
    pub heading: Rgb,
    pub repo: Rgb,
    pub match_bg: Rgb,
    pub info: Rgb,
    pub separator: Rgb,
}

impl Palette {
    /// The palette for dark terminals.
    pub fn dark() -> (r: Palette)
        ensures
            r == dark_palette(),
    {
        Palette {
            heading: Rgb { r: 63, g: 185, b: 80 },
            repo: Rgb { r: 88, g: 166, b: 255 },
            match_bg: Rgb { r: 120, g: 70, b: 10 },
            info: Rgb { r: 139, g: 148, b: 158 },
            separator: Rgb { r: 110, g: 118, b: 129 },
        }
    }

    /// The palette for light terminals.
    pub fn light() -> (r: Palette)
        ensures
            r == light_palette(),
    {
        Palette {
            heading: Rgb { r: 26, g: 127, b: 55 },
            repo: Rgb { r: 9, g: 105, b: 218 },
            match_bg: Rgb { r: 255, g: 220, b: 160 },
            info: Rgb { r: 101, g: 109, b: 118 },
            separator: Rgb { r: 208, g: 215, b: 222 },
        }
    }
}

// ------------------------------------------------------------------
// Small layout pieces
// ------------------------------------------------------------------

/// `k` spaces.
pub open spec fn spaces(k: int) -> Seq<u8>
    decreases k,
{
    if k <= 0 {
        Seq::empty()
    } else {
        spaces(k - 1).push(32u8)
    }
}

/// `s` right-aligned in a field of five columns (wider content is kept).
pub open spec fn pad5(s: Seq<u8>) -> Seq<u8> {
    spaces(5 - s.len()) + s
}

/// The line-number gutter: two spaces, the dimmed right-aligned number,
/// a reset, one space.
pub open spec fn spec_gutter(n: u64) -> Seq<u8> {
    seq![32u8, 32u8] + dim_seq() + pad5(dec_digits(n as int)) + reset_seq() + seq![32u8]
}

/// The gap-marker line printed between non-contiguous snippets: a dimmed
/// vertical ellipsis in the gutter column.
pub open spec fn spec_gap_line() -> Seq<u8> {
    seq![32u8, 32u8] + dim_seq() + spaces(4) + ellipsis_glyph() + reset_seq() + seq![10u8]
}

fn push_spaces(out: &mut Vec<u8>, k: usize)
    ensures
        final(out)@ == old(out)@ + spaces(k as int),
{
    let mut c: usize = 0;
    while c < k
        invariant
            0 <= c <= k,
            out@ == old(out)@ + spaces(c as int),
        decreases k - c,
    {
        out.push(32);
        c = c + 1;
    }
}

/// The gutter for line number `n`.
pub fn gutter(n: u64) -> (r: Vec<u8>)
    ensures
        r@ == spec_gutter(n),
{
    let d = dec_u64(n);
    let mut out: Vec<u8> = Vec::new();
    out.push(32);
    out.push(32);
    let mut dim = dim_escape();
    out.append(&mut dim);
    let padn = if d.len() < 5 {
        5 - d.len()
    } else {
        0
    };
    push_spaces(&mut out, padn);
    proof {
        assert(spaces(padn as int) =~= spaces(5 - d@.len()));
    }
    let mut dd = d;
    out.append(&mut dd);
    let mut rst = reset_escape();
    out.append(&mut rst);
    out.push(32);
    proof {
        assert(out@ =~= spec_gutter(n));
    }
    out
}

fn gap_line() -> (r: Vec<u8>)
    ensures
        r@ == spec_gap_line(),
{
    let mut out: Vec<u8> = Vec::new();
    out.push(32);
    out.push(32);
    let mut dim = dim_escape();
    out.append(&mut dim);
    push_spaces(&mut out, 4);
    let mut e = ellipsis_glyph_x();
    out.append(&mut e);
    let mut rst = reset_escape();
    out.append(&mut rst);
    out.push(10);
    proof {
        assert(out@ =~= spec_gap_line());
    }
    out
}

// ------------------------------------------------------------------
// Gap rule
// ------------------------------------------------------------------

/// A gap marker is owed exactly when the next snippet starts more than one
/// line after the previous snippet's last line `prev_start + prev_len - 1`
/// (an empty previous snippet counts its start line alone).
pub open spec fn spec_needs_gap(prev_start: u64, prev_len: int, next_start: u64) -> bool {
    (next_start as int) > prev_start + (if prev_len > 0 {
        prev_len - 1
    } else {
        0int
    }) + 1
}

/// Does a gap marker belong between two adjacent snippets of one file?
pub fn needs_gap(prev_start: u64, prev_len: usize, next_start: u64) -> (r: bool)
    ensures
        r == spec_needs_gap(prev_start, prev_len as int, next_start),
{
    let l1: u64 = if prev_len > 0 {
        (prev_len - 1) as u64
    } else {
        0
    };
    if prev_start > u64::MAX - l1 {
        return false;
    }
    let e = prev_start + l1;
    if e == u64::MAX {
        return false;
    }
    next_start > e + 1
}

// ------------------------------------------------------------------
// Header, summary, separator
// ------------------------------------------------------------------

/// The header block of one result: the bullet line with the repository name
/// (and the license, unless it is the `Unknown` sentinel), the underlined
/// URL line, a blank line, and the file path line.
pub open spec fn spec_result_header(r: SearchResultModel, p: Palette) -> Seq<u8> {
    let first = fg_seq(p.repo) + bold_seq() + bullet_glyph() + seq![32u8] + r.repository
        + reset_seq() + (if r.license != unknown_lit() {
        seq![32u8] + fg_seq(p.info) + r.license + reset_seq()
    } else {
        Seq::<u8>::empty()
    }) + seq![10u8];
    let url = seq![32u8, 32u8] + fg_seq(p.info) + underline_seq() + r.url + reset_seq()
        + seq![10u8];
    let file = spaces(8) + file_lit() + bold_seq() + r.path + reset_seq() + seq![10u8];
    first + url + seq![10u8] + file
}

/// The message for an empty result sequence.
pub open spec fn spec_no_results(p: Palette) -> Seq<u8> {
    fg_seq(p.info) + no_results_lit() + reset_seq() + seq![10u8]
}

/// The summary heading: `Found <n> result(s):` and a blank line.
pub open spec fn spec_summary(p: Palette, n: u64) -> Seq<u8> {
    fg_seq(p.heading) + bold_seq() + found_lit() + dec_digits(n as int) + results_suffix_lit()
        + reset_seq() + seq![10u8, 10u8]
}

/// `k` horizontal bar glyphs.
pub open spec fn bars(k: int) -> Seq<u8>
    decreases k,
{
    if k <= 0 {
        Seq::empty()
    } else {
        bars(k - 1) + bar_glyph()
    }
}

/// The separator between results: sixty bar glyphs and a blank line.
pub open spec fn spec_separator(p: Palette) -> Seq<u8> {
    fg_seq(p.separator) + bars(60) + reset_seq() + seq![10u8, 10u8]
}

#[verifier::rlimit(60)]
fn header_block(result: &SearchResult, p: Palette) -> (r: Vec<u8>)
    ensures
        r@ == spec_result_header(result.deep_view(), p),
{
    let mut out: Vec<u8> = Vec::new();
    let mut f = fg_escape(p.repo);
    out.append(&mut f);
    let mut b = bold_escape();
    out.append(&mut b);
    let mut bl = bullet_glyph_x();
    out.append(&mut bl);
    out.push(32);
    let mut repo = copy_range(result.repository.as_slice(), 0, result.repository.len());
    out.append(&mut repo);
    let mut rst = reset_escape();
    out.append(&mut rst);
    let unk = unknown_lit_x();
    if !eq_bytes(result.license.as_slice(), unk.as_slice()) {
        out.push(32);
        let mut fi = fg_escape(p.info);
        out.append(&mut fi);
        let mut lic = copy_range(result.license.as_slice(), 0, result.license.len());
        out.append(&mut lic);
        let mut rst2 = reset_escape();
        out.append(&mut rst2);
    }
    out.push(10);
    out.push(32);
    out.push(32);
    let mut fi2 = fg_escape(p.info);
    out.append(&mut fi2);
    let mut ul = underline_escape();
    out.append(&mut ul);
    let mut url = copy_range(result.url.as_slice(), 0, result.url.len());
    out.append(&mut url);
    let mut rst3 = reset_escape();
    out.append(&mut rst3);
    out.push(10);
    out.push(10);
    push_spaces(&mut out, 8);
    let mut fl = file_lit_x();
    out.append(&mut fl);
    let mut b2 = bold_escape();
    out.append(&mut b2);
    let mut path = copy_range(result.path.as_slice(), 0, result.path.len());
    out.append(&mut path);
    let mut rst4 = reset_escape();
    out.append(&mut rst4);
    out.push(10);
    proof {
        assert(out@ =~= spec_result_header(result.deep_view(), p));
    }
    out
}

fn separator_block(p: Palette) -> (r: Vec<u8>)
    ensures
        r@ == spec_separator(p),
{
    let mut out: Vec<u8> = Vec::new();
    let mut f = fg_escape(p.separator);
    out.append(&mut f);
    let mut c: usize = 0;
    let ghost mid = out@;
    proof {
        assert(out@ =~= mid + bars(0));
    }
    while c < 60
        invariant
            0 <= c <= 60,
            out@ == mid + bars(c as int),
        decreases 60 - c,
    {
        let mut g = bar_glyph_x();
        out.append(&mut g);
        proof {
            assert(mid + bars(c as int) + bar_glyph() =~= mid + bars(c + 1));
        }
        c = c + 1;
    }
    let mut rst = reset_escape();
    out.append(&mut rst);
    out.push(10);
    out.push(10);
    proof {
        assert(out@ =~= spec_separator(p));
    }
    out
}

// ------------------------------------------------------------------
// One rendered line
// ------------------------------------------------------------------

/// One rendered snippet line: the gutter, then the composited text when the
/// query matches somewhere in the line, the plain styled text otherwise, and
/// a newline.
pub open spec fn spec_render_line(
    line: Seq<u8>,
    spans: Seq<SpanModel>,
    num: u64,
    query: Seq<u8>,
    cs: bool,
    bg: Rgb,
) -> Seq<u8> {
    let ms = spec_matches(line, query, cs);
    spec_gutter(num) + (if ms.len() == 0 {
        spec_styled_line(spans)
    } else {
        spec_composite(spans, ms, bg)
    }) + seq![10u8]
}

/// Render one line of a snippet from its syntax spans, locating and
/// overlaying the query's matches.
pub fn render_line(
    line: &[u8],
    spans: &Vec<Span>,
    num: u64,
    query: &[u8],
    cs: bool,
    bg: Rgb,
) -> (r: Vec<u8>)
    requires
        concat_texts(spans.deep_view()) == line@,
    ensures
        r@ == spec_render_line(line@, spans.deep_view(), num, query@, cs, bg),
{
    let n = line.len();
    proof {
        assert(concat_texts(spans.deep_view()).len() == n as int);
    }
    let ms = match_byte_ranges(line, query, cs);
    let mut out = gutter(num);
    let mut body = if ms.len() == 0 {
        styled_line(spans)
    } else {
        highlight_matches(spans, &ms, bg)
    };
    out.append(&mut body);
    out.push(10);
    proof {
        assert(out@ =~= spec_render_line(line@, spans.deep_view(), num, query@, cs, bg));
    }
    out
}


// ------------------------------------------------------------------
// The full shape of one rendered result
// ------------------------------------------------------------------

/// The line number shown for line `li` of a snippet, clamped at the top of
/// the `u64` range.
pub open spec fn line_num_of(start: u64, li: int) -> u64 {
    if start + li <= u64::MAX {
        (start + li) as u64
    } else {
        u64::MAX
    }
}

/// The rendered lines `[li, end)` of one snippet, given the span lists its
/// lines tokenized to.
pub open spec fn spec_snippet_lines(
    sn: SnippetModel,
    spans: Seq<Seq<SpanModel>>,
    query: Seq<u8>,
    cs: bool,
    bg: Rgb,
    li: int,
    end: int,
) -> Seq<u8>
    decreases end - li,
{
    if li < 0 || li >= end || end > sn.lines.len() {
        Seq::empty()
    } else {
        spec_render_line(sn.lines[li], spans[li], line_num_of(sn.start_line, li), query, cs, bg)
            + spec_snippet_lines(sn, spans, query, cs, bg, li + 1, end)
    }
}

/// The gap marker owed before snippet `si` of the sequence, if any.
pub open spec fn spec_gap_before(snips: Seq<SnippetModel>, si: int) -> Seq<u8> {
    if 0 < si < snips.len() && spec_needs_gap(
        snips[si - 1].start_line,
        snips[si - 1].lines.len() as int,
        snips[si].start_line,
    ) {
        spec_gap_line()
    } else {
        Seq::empty()
    }
}

/// The rendered sections of snippets `[si, end)`: each a gap marker where
/// one is owed, its lines, and a closing blank line after the last snippet
/// of the result.
pub open spec fn spec_sections(
    snips: Seq<SnippetModel>,
    spanss: Seq<Seq<Seq<SpanModel>>>,
    query: Seq<u8>,
    cs: bool,
    bg: Rgb,
    si: int,
    end: int,
) -> Seq<u8>
    decreases end - si,
{
    if si < 0 || si >= end || end > snips.len() {
        Seq::empty()
    } else {
        spec_gap_before(snips, si) + spec_snippet_lines(
            snips[si],
            spanss[si],
            query,
            cs,
            bg,
            0,
            snips[si].lines.len() as int,
        ) + (if si + 1 == snips.len() {
            seq![10u8]
        } else {
            Seq::<u8>::empty()
        }) + spec_sections(snips, spanss, query, cs, bg, si + 1, end)
    }
}

/// Span lists fit a snippet sequence when every line has one that
/// reconstructs it.
pub open spec fn spans_fit(snips: Seq<SnippetModel>, spanss: Seq<Seq<Seq<SpanModel>>>) -> bool {
    &&& spanss.len() == snips.len()
    &&& forall|i: int| 0 <= i < snips.len() ==> (#[trigger] spanss[i]).len() == snips[i].lines.len()
    &&& forall|i: int, li: int|
        0 <= i < snips.len() && 0 <= li < snips[i].lines.len() ==> concat_texts(
            #[trigger] spanss[i][li],
        ) == snips[i].lines[li]
}

proof fn lemma_lines_snoc(
    sn: SnippetModel,
    spans: Seq<Seq<SpanModel>>,
    query: Seq<u8>,
    cs: bool,
    bg: Rgb,
    s: int,
    e: int,
)
    requires
        0 <= s <= e,
        e + 1 <= sn.lines.len(),
    ensures
        spec_snippet_lines(sn, spans, query, cs, bg, s, e + 1) == spec_snippet_lines(
            sn,
            spans,
            query,
            cs,
            bg,
            s,
            e,
        ) + spec_render_line(sn.lines[e], spans[e], line_num_of(sn.start_line, e), query, cs, bg),
    decreases e - s,
{
    let r = spec_render_line(sn.lines[e], spans[e], line_num_of(sn.start_line, e), query, cs, bg);
    if s == e {
        assert(spec_snippet_lines(sn, spans, query, cs, bg, e + 1, e + 1) =~= Seq::<u8>::empty());
        assert(spec_snippet_lines(sn, spans, query, cs, bg, s, e + 1) =~= r);
        assert(spec_snippet_lines(sn, spans, query, cs, bg, s, e) =~= Seq::<u8>::empty());
        assert(spec_snippet_lines(sn, spans, query, cs, bg, s, e) + r =~= r);
    } else {
        lemma_lines_snoc(sn, spans, query, cs, bg, s + 1, e);
        assert(spec_snippet_lines(sn, spans, query, cs, bg, s, e + 1) =~= spec_snippet_lines(
            sn,
            spans,
            query,
            cs,
            bg,
            s,
            e,
        ) + r);
    }
}

proof fn lemma_lines_frame(
    sn: SnippetModel,
    sp1: Seq<Seq<SpanModel>>,
    sp2: Seq<Seq<SpanModel>>,
    query: Seq<u8>,
    cs: bool,
    bg: Rgb,
    s: int,
    e: int,
)
    requires
        forall|i: int| s <= i < e ==> sp1[i] == sp2[i],
    ensures
        spec_snippet_lines(sn, sp1, query, cs, bg, s, e) == spec_snippet_lines(
            sn,
            sp2,
            query,
            cs,
            bg,
            s,
            e,
        ),
    decreases e - s,
{
    if 0 <= s < e && e <= sn.lines.len() {
        lemma_lines_frame(sn, sp1, sp2, query, cs, bg, s + 1, e);
    }
}

proof fn lemma_sections_snoc(
    snips: Seq<SnippetModel>,
    spanss: Seq<Seq<Seq<SpanModel>>>,
    query: Seq<u8>,
    cs: bool,
    bg: Rgb,
    s: int,
    e: int,
)
    requires
        0 <= s <= e,
        e + 1 <= snips.len(),
    ensures
        spec_sections(snips, spanss, query, cs, bg, s, e + 1) == spec_sections(
            snips,
            spanss,
            query,
            cs,
            bg,
            s,
            e,
        ) + (spec_gap_before(snips, e) + spec_snippet_lines(
            snips[e],
            spanss[e],
            query,
            cs,
            bg,
            0,
            snips[e].lines.len() as int,
        ) + (if e + 1 == snips.len() {
            seq![10u8]
        } else {
            Seq::<u8>::empty()
        })),
    decreases e - s,
{
    let sect = spec_gap_before(snips, e) + spec_snippet_lines(
        snips[e],
        spanss[e],
        query,
        cs,
        bg,
        0,
        snips[e].lines.len() as int,
    ) + (if e + 1 == snips.len() {
        seq![10u8]
    } else {
        Seq::<u8>::empty()
    });
    if s == e {
        assert(spec_sections(snips, spanss, query, cs, bg, e + 1, e + 1) =~= Seq::<u8>::empty());
        assert(spec_sections(snips, spanss, query, cs, bg, s, e + 1) =~= sect);
        assert(spec_sections(snips, spanss, query, cs, bg, s, e) + sect =~= sect);
    } else {
        lemma_sections_snoc(snips, spanss, query, cs, bg, s + 1, e);
        assert(spec_sections(snips, spanss, query, cs, bg, s, e + 1) =~= spec_sections(
            snips,
            spanss,
            query,
            cs,
            bg,
            s,
            e,
        ) + sect);
    }
}

proof fn lemma_sections_frame(
    snips: Seq<SnippetModel>,
    sp1: Seq<Seq<Seq<SpanModel>>>,
    sp2: Seq<Seq<Seq<SpanModel>>>,
    query: Seq<u8>,
    cs: bool,
    bg: Rgb,
    s: int,
    e: int,
)
    requires
        forall|i: int| s <= i < e ==> sp1[i] == sp2[i],
    ensures
        spec_sections(snips, sp1, query, cs, bg, s, e) == spec_sections(
            snips,
            sp2,
            query,
            cs,
            bg,
            s,
            e,
        ),
    decreases e - s,
{
    if 0 <= s < e && e <= snips.len() {
        lemma_lines_frame(snips[s], sp1[s], sp2[s], query, cs, bg, 0, snips[s].lines.len() as int);
        lemma_sections_frame(snips, sp1, sp2, query, cs, bg, s + 1, e);
    }
}


/// One result's rendered block: the header followed by snippet sections
/// built from span lists that fit the snippets.
pub open spec fn is_result_block(
    b: Seq<u8>,
    r: SearchResultModel,
    query: Seq<u8>,
    cs: bool,
    p: Palette,
) -> bool {
    exists|spanss: Seq<Seq<Seq<SpanModel>>>|
        #[trigger] spans_fit(r.snippets, spanss) && b == spec_result_header(r, p) + spec_sections(
            r.snippets,
            spanss,
            query,
            cs,
            p.match_bg,
            0,
            r.snippets.len() as int,
        )
}

/// Blocks `[i, e)` joined, with a separator after every block but the last
/// of all `total` blocks.
pub open spec fn spec_joined(
    blocks: Seq<Seq<u8>>,
    total: int,
    p: Palette,
    i: int,
    e: int,
) -> Seq<u8>
    decreases e - i,
{
    if i < 0 || i >= e || e > blocks.len() {
        Seq::empty()
    } else {
        blocks[i] + (if i + 1 < total {
            spec_separator(p)
        } else {
            Seq::<u8>::empty()
        }) + spec_joined(blocks, total, p, i + 1, e)
    }
}

proof fn lemma_joined_snoc(blocks: Seq<Seq<u8>>, total: int, p: Palette, s: int, e: int)
    requires
        0 <= s <= e,
        e + 1 <= blocks.len(),
    ensures
        spec_joined(blocks, total, p, s, e + 1) == spec_joined(blocks, total, p, s, e) + (blocks[e]
            + (if e + 1 < total {
            spec_separator(p)
        } else {
            Seq::<u8>::empty()
        })),
    decreases e - s,
{
    let sect = blocks[e] + (if e + 1 < total {
        spec_separator(p)
    } else {
        Seq::<u8>::empty()
    });
    if s == e {
        assert(spec_joined(blocks, total, p, e + 1, e + 1) =~= Seq::<u8>::empty());
        assert(spec_joined(blocks, total, p, s, e + 1) =~= sect);
        assert(spec_joined(blocks, total, p, s, e) + sect =~= sect);
    } else {
        lemma_joined_snoc(blocks, total, p, s + 1, e);
        assert(spec_joined(blocks, total, p, s, e + 1) =~= spec_joined(blocks, total, p, s, e)
            + sect);
    }
}

proof fn lemma_joined_frame(
    b1: Seq<Seq<u8>>,
    b2: Seq<Seq<u8>>,
    total: int,
    p: Palette,
    s: int,
    e: int,
)
    requires
        e <= b1.len(),
        e <= b2.len(),
        forall|i: int| s <= i < e ==> b1[i] == b2[i],
    ensures
        spec_joined(b1, total, p, s, e) == spec_joined(b2, total, p, s, e),
    decreases e - s,
{
    if 0 <= s < e {
        lemma_joined_frame(b1, b2, total, p, s + 1, e);
    }
}

// ------------------------------------------------------------------
// Printer
// ------------------------------------------------------------------

/// The renderer's read-only configuration for one run: the loaded grammar
/// set, the loaded theme, and the palette.
pub struct Printer {
    pub syntax_set: syntect::parsing::SyntaxSet,
    pub theme: syntect::highlighting::Theme,
    pub palette: Palette,
}

impl Printer {
    /// A printer over a loaded grammar set and theme; `light` selects the
    /// light palette, anything else the dark one.
    pub fn new(
        syntax_set: syntect::parsing::SyntaxSet,
        theme: syntect::highlighting::Theme,
        light: bool,
    ) -> (r: Printer)
        ensures
            r.syntax_set == syntax_set,
            r.theme == theme,
            r.palette == if light {
                light_palette()
            } else {
                dark_palette()
            },
    {
        let palette = if light {
            Palette::light()
        } else {
            Palette::dark()
        };
        Printer { syntax_set, theme, palette }
    }

    /// The grammar for a file path: its extension is taken (the part of the
    /// last path component after its last dot, the dot not leading), run
    /// through the aliasing table, and looked up; an unknown extension falls
    /// back to the plain-text grammar.
    fn syntax_for_path<'a>(&'a self, path: &[u8]) -> Option<&'a syntect::parsing::SyntaxReference> {
        let ext = extension_of(path);
        let mapped = map_extension(ext);
        match find_syntax_by_ext(&self.syntax_set, mapped.as_slice()) {
            Some(s) => Some(s),
            None => find_plain_syntax(&self.syntax_set),
        }
    }

    /// Render one result: its header block, then every snippet with gap
    /// markers between non-contiguous line ranges, every line through the
    /// compositor. The output is exactly the header block followed by the
    /// snippet sections, rendered from whatever span lists the tokenizer
    /// produced for the snippet lines.
    #[verifier::rlimit(80)]
    pub fn print_result(&self, result: &SearchResult, query: &[u8], case_sensitive: bool) -> (out:
        Vec<u8>)
        ensures
            is_prefix(spec_result_header(result.deep_view(), self.palette), out@),
            result.snippets@.len() == 0 ==> out@ == spec_result_header(
                result.deep_view(),
                self.palette,
            ),
            exists|spanss: Seq<Seq<Seq<SpanModel>>>|
                #[trigger] spans_fit(result.deep_view().snippets, spanss) && out@
                    == spec_result_header(result.deep_view(), self.palette) + spec_sections(
                    result.deep_view().snippets,
                    spanss,
                    query@,
                    case_sensitive,
                    self.palette.match_bg,
                    0,
                    result.deep_view().snippets.len() as int,
                ),
    {
        let p = self.palette;
        let ghost rm = result.deep_view();
        let ghost snips = rm.snippets;
        let mut out = header_block(result, p);
        let ghost header = out@;
        let ghost mut spanss: Seq<Seq<Seq<SpanModel>>> = Seq::empty();
        proof {
            assert(spec_sections(snips, spanss, query@, case_sensitive, p.match_bg, 0, 0)
                =~= Seq::<u8>::empty());
            assert(out@ =~= header + spec_sections(
                snips,
                spanss,
                query@,
                case_sensitive,
                p.match_bg,
                0,
                0,
            ));
        }
        let syntax = self.syntax_for_path(result.path.as_slice());
        let nsnips = result.snippets.len();
        let mut idx: usize = 0;
        while idx < nsnips
            invariant
                rm == result.deep_view(),
                snips == rm.snippets,
                p == self.palette,
                nsnips == snips.len(),
                0 <= idx <= nsnips,
                spanss.len() == idx,
                forall|i: int|
                    0 <= i < idx ==> (#[trigger] spanss[i]).len() == snips[i].lines.len(),
                forall|i: int, li: int|
                    0 <= i < idx && 0 <= li < snips[i].lines.len() ==> concat_texts(
                        #[trigger] spanss[i][li],
                    ) == snips[i].lines[li],
                out@ == header + spec_sections(
                    snips,
                    spanss,
                    query@,
                    case_sensitive,
                    p.match_bg,
                    0,
                    idx as int,
                ),
            decreases nsnips - idx,
        {
            let sn = &result.snippets[idx];
            proof {
                crate::deep::lemma_dv_index(result.snippets, idx as int);
            }
            let ghost base0 = out@;
            if idx > 0 {
                let prev = &result.snippets[idx - 1];
                proof {
                    crate::deep::lemma_dv_index(result.snippets, idx as int - 1);
                }
                if needs_gap(prev.start_line, prev.lines.len(), sn.start_line) {
                    let mut g = gap_line();
                    out.append(&mut g);
                }
            }
            proof {
                assert(out@ =~= base0 + spec_gap_before(snips, idx as int));
            }
            let ghost gap_base = out@;
            let mut hl = match syntax {
                Some(sx) => Some(new_highlighter(sx, &self.theme)),
                None => None,
            };
            let nlines = sn.lines.len();
            let ghost mut lspans: Seq<Seq<SpanModel>> = Seq::empty();
            let mut li: usize = 0;
            proof {
                assert(spec_snippet_lines(
                    snips[idx as int],
                    lspans,
                    query@,
                    case_sensitive,
                    p.match_bg,
                    0,
                    0,
                ) =~= Seq::<u8>::empty());
                assert(out@ =~= gap_base + spec_snippet_lines(
                    snips[idx as int],
                    lspans,
                    query@,
                    case_sensitive,
                    p.match_bg,
                    0,
                    0,
                ));
            }
            while li < nlines
                invariant
                    rm == result.deep_view(),
                    snips == rm.snippets,
                    p == self.palette,
                    0 <= idx < snips.len(),
                    sn@ == snips[idx as int],
                    nlines == snips[idx as int].lines.len(),
                    nlines == sn.lines@.len(),
                    0 <= li <= nlines,
                    lspans.len() == li,
                    forall|t: int|
                        0 <= t < li ==> concat_texts(#[trigger] lspans[t])
                            == snips[idx as int].lines[t],
                    out@ == gap_base + spec_snippet_lines(
                        snips[idx as int],
                        lspans,
                        query@,
                        case_sensitive,
                        p.match_bg,
                        0,
                        li as int,
                    ),
                decreases nlines - li,
            {
                let line = &sn.lines[li];
                proof {
                    crate::deep::lemma_dv_index(sn.lines, li as int);
                    assert(sn.lines@[li as int].deep_view() =~= line@);
                    assert(line@ == snips[idx as int].lines[li as int]);
                }
                let num = if sn.start_line <= u64::MAX - (li as u64) {
                    sn.start_line + (li as u64)
                } else {
                    u64::MAX
                };
                proof {
                    assert(num == line_num_of(snips[idx as int].start_line, li as int));
                }
                let raw: Vec<Span> = match hl {
                    Some(ref mut h) => highlight_line_spans(
                        h,
                        line.as_slice(),
                        &self.syntax_set,
                        p.info,
                    ),
                    None => Vec::new(),
                };
                let spans = spans_covering(raw, line.as_slice(), p.info);
                let ghost sv = spans.deep_view();
                let ghost old_ls = lspans;
                let mut rl = render_line(
                    line.as_slice(),
                    &spans,
                    num,
                    query,
                    case_sensitive,
                    p.match_bg,
                );
                let ghost rlv = rl@;
                out.append(&mut rl);
                proof {
                    lspans = old_ls.push(sv);
                    lemma_lines_frame(
                        snips[idx as int],
                        old_ls,
                        lspans,
                        query@,
                        case_sensitive,
                        p.match_bg,
                        0,
                        li as int,
                    );
                    lemma_lines_snoc(
                        snips[idx as int],
                        lspans,
                        query@,
                        case_sensitive,
                        p.match_bg,
                        0,
                        li as int,
                    );
                    assert(lspans[li as int] == sv);
                    assert(out@ =~= gap_base + spec_snippet_lines(
                        snips[idx as int],
                        lspans,
                        query@,
                        case_sensitive,
                        p.match_bg,
                        0,
                        li as int + 1,
                    ));
                }
                li = li + 1;
            }
            if idx + 1 == nsnips {
                out.push(10);
            }
            proof {
                let old_sp = spanss;
                spanss = old_sp.push(lspans);
                lemma_sections_frame(
                    snips,
                    old_sp,
                    spanss,
                    query@,
                    case_sensitive,
                    p.match_bg,
                    0,
                    idx as int,
                );
                lemma_sections_snoc(
                    snips,
                    spanss,
                    query@,
                    case_sensitive,
                    p.match_bg,
                    0,
                    idx as int,
                );
                assert(spanss[idx as int] == lspans);
                assert(out@ =~= header + spec_sections(
                    snips,
                    spanss,
                    query@,
                    case_sensitive,
                    p.match_bg,
                    0,
                    idx as int + 1,
                ));
            }
            idx = idx + 1;
        }
        proof {
            assert(out@.subrange(0, header.len() as int) =~= header);
            if snips.len() == 0 {
                assert(out@ =~= header);
            }
            assert(spans_fit(snips, spanss));
        }
        out
    }

    /// Render a whole response: the `No results found.` message for an empty
    /// sequence (exactly), otherwise the summary heading followed by every
    /// result, with a separator between consecutive results but not after
    /// the last.
    pub fn print_results(
        &self,
        results: &Vec<SearchResult>,
        query: &[u8],
        case_sensitive: bool,
    ) -> (out: Vec<u8>)
        ensures
            results@.len() == 0 ==> out@ == spec_no_results(self.palette),
            results@.len() > 0 ==> is_prefix(
                spec_summary(self.palette, results@.len() as u64),
                out@,
            ),
            results@.len() > 0 ==> exists|blocks: Seq<Seq<u8>>|
                blocks.len() == results@.len() && (forall|i: int|
                    0 <= i < blocks.len() ==> is_result_block(
                        #[trigger] blocks[i],
                        results.deep_view()[i],
                        query@,
                        case_sensitive,
                        self.palette,
                    )) && out@ == spec_summary(self.palette, results@.len() as u64)
                    + #[trigger] spec_joined(
                    blocks,
                    results@.len() as int,
                    self.palette,
                    0,
                    blocks.len() as int,
                ),
    {
        let p = self.palette;
        if results.len() == 0 {
            let mut out = fg_escape(p.info);
            let mut m = no_results_lit_x();
            out.append(&mut m);
            let mut rst = reset_escape();
            out.append(&mut rst);
            out.push(10);
            proof {
                assert(out@ =~= spec_no_results(p));
            }
            return out;
        }
        let n = results.len();
        let mut out = fg_escape(p.heading);
        let mut b = bold_escape();
        out.append(&mut b);
        let mut f = found_lit_x();
        out.append(&mut f);
        let mut d = dec_u64(n as u64);
        out.append(&mut d);
        let mut sfx = results_suffix_lit_x();
        out.append(&mut sfx);
        let mut rst = reset_escape();
        out.append(&mut rst);
        out.push(10);
        out.push(10);
        let ghost summary = out@;
        let ghost mut blocks: Seq<Seq<u8>> = Seq::empty();
        proof {
            assert(summary =~= spec_summary(p, n as u64));
            assert(summary.subrange(0, summary.len() as int) =~= summary);
            assert(spec_joined(blocks, n as int, p, 0, 0) =~= Seq::<u8>::empty());
            assert(out@ =~= summary + spec_joined(blocks, n as int, p, 0, 0));
        }
        let mut i: usize = 0;
        while i < n
            invariant
                n == results@.len(),
                p == self.palette,
                summary == spec_summary(self.palette, results@.len() as u64),
                0 <= i <= n,
                blocks.len() == i,
                forall|t: int|
                    0 <= t < i ==> is_result_block(
                        #[trigger] blocks[t],
                        results.deep_view()[t],
                        query@,
                        case_sensitive,
                        self.palette,
                    ),
                out@ == summary + spec_joined(blocks, n as int, p, 0, i as int),
                is_prefix(summary, out@),
            decreases n - i,
        {
            let ghost sofar = out@;
            let mut block = self.print_result(&results[i], query, case_sensitive);
            let ghost blockv = block@;
            out.append(&mut block);
            proof {
                lemma_prefix_extend(summary, sofar, blockv);
                crate::deep::lemma_dv_index(*results, i as int);
                assert(is_result_block(blockv, results.deep_view()[i as int], query@, case_sensitive, p));
            }
            if i + 1 < n {
                let ghost sofar2 = out@;
                let mut sep = separator_block(p);
                out.append(&mut sep);
                proof {
                    lemma_prefix_extend(summary, sofar2, spec_separator(p));
                }
            }
            proof {
                let old_b = blocks;
                blocks = old_b.push(blockv);
                lemma_joined_frame(old_b, blocks, n as int, p, 0, i as int);
                lemma_joined_snoc(blocks, n as int, p, 0, i as int);
                assert(blocks[i as int] == blockv);
                assert(out@ =~= summary + spec_joined(blocks, n as int, p, 0, i as int + 1));
            }
            i = i + 1;
        }
        out
    }
}

// ------------------------------------------------------------------
// File extensions and grammar aliasing
// ------------------------------------------------------------------

/// The last index below `upto` where byte `b` occurs, or -1.
pub open spec fn find_last(s: Seq<u8>, b: u8, upto: int) -> int
    decreases upto,
{
    if upto <= 0 || upto > s.len() {
        -1
    } else if s[upto - 1] == b {
        upto - 1
    } else {
        find_last(s, b, upto - 1)
    }
}

/// The extension of a path: the part of the last component (after the last
/// slash) that follows its last dot, provided that dot is not the
/// component's first byte; empty otherwise.
pub open spec fn spec_extension(path: Seq<u8>) -> Seq<u8> {
    let sl = find_last(path, 47, path.len() as int);
    let d = find_last(path, 46, path.len() as int);
    if d > sl + 1 {
        path.subrange(d + 1, path.len() as int)
    } else {
        Seq::empty()
    }
}

fn find_last_x(s: &[u8], b: u8) -> (r: Option<usize>)
    ensures
        match r {
            Some(i) => i < s@.len() && find_last(s@, b, s@.len() as int) == i as int,
            None => find_last(s@, b, s@.len() as int) == -1,
        },
{
    let n = s.len();
    let mut upto = n;
    while upto > 0
        invariant
            n == s@.len(),
            0 <= upto <= n,
            find_last(s@, b, n as int) == find_last(s@, b, upto as int),
        decreases upto,
    {
        if s[upto - 1] == b {
            return Some(upto - 1);
        }
        upto = upto - 1;
    }
    None
}

/// The file extension of `path`, as the renderer derives it.
pub fn extension_of(path: &[u8]) -> (r: Vec<u8>)
    ensures
        r@ == spec_extension(path@),
{
    let n = path.len();
    let sl: Option<usize> = find_last_x(path, 47);
    let d: Option<usize> = find_last_x(path, 46);
    match d {
        Some(di) => {
            let cut = match sl {
                Some(si) => di > si + 1,
                None => di > 0,
            };
            if cut {
                copy_range(path, di + 1, n)
            } else {
                Vec::new()
            }
        },
        None => Vec::new(),
    }
}

/// A lookup in the aliasing table: the value of the first matching key, or
/// the key itself when no row matches.
pub open spec fn alias_lookup(t: Seq<(Seq<u8>, Seq<u8>)>, e: Seq<u8>, i: int) -> Seq<u8>
    decreases t.len() - i,
{
    if i < 0 || i >= t.len() {
        e
    } else if t[i].0 == e {
        t[i].1
    } else {
        alias_lookup(t, e, i + 1)
    }
}

/// The grammar key for an extension: the aliasing table's entry, or the
/// extension itself.
pub open spec fn spec_map_extension(e: Seq<u8>) -> Seq<u8> {
    alias_lookup(alias_table(), e, 0)
}

/// Map an extension through the aliasing table.
pub fn map_extension(e: Vec<u8>) -> (r: Vec<u8>)
    ensures
        r@ == spec_map_extension(e@),
{
    let t = alias_table_x();
    let ghost tv = t.deep_view();
    let n = t.len();
    let mut i: usize = 0;
    while i < n
        invariant
            n == t@.len(),
            tv == t.deep_view(),
            tv.len() == t@.len(),
            tv == alias_table(),
            0 <= i <= n,
            alias_lookup(tv, e@, 0) == alias_lookup(tv, e@, i as int),
        decreases n - i,
    {
        let row = &t[i];
        proof {
            crate::deep::lemma_dv_index(t, i as int);
            assert(tv[i as int].0 =~= t@[i as int].0@);
            assert(tv[i as int].1 =~= t@[i as int].1@);
        }
        if eq_bytes(row.0.as_slice(), e.as_slice()) {
            let out = copy_range(row.1.as_slice(), 0, row.1.len());
            proof {
                assert(out@ =~= tv[i as int].1);
            }
            return out;
        }
        i = i + 1;
    }
    e
}

} // verus!
