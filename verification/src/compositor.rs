//! Highlight compositor: merges a line's syntax-highlighting spans with the
//! match byte ranges of the query, emitting one styled byte stream. Matched
//! bytes are overlaid with a background color and bold weight while keeping
//! the span's foreground color; unmatched bytes keep the foreground alone.
//! Runs never leak style: every matched run closes with a full reset.

use vstd::prelude::*;

use crate::ansi::{
    bg_escape, bg_seq, bold_escape, bold_seq, fg_escape, fg_seq, reset_escape, reset_seq, Rgb,
};
use crate::bytes::copy_range;

verus! {

/// One syntax-highlighting span: a foreground color and the text it covers.
/// The concatenation of a line's spans reconstructs the line.
pub struct Span {
    pub fg: Rgb,
    pub text: Vec<u8>,
}

/// Mathematical model of a `Span`.
#[verifier::ext_equal]
pub struct SpanModel {
    pub fg: Rgb,
    pub text: Seq<u8>,
}

impl View for Span {
    type V = SpanModel;

    open spec fn view(&self) -> SpanModel {
        SpanModel { fg: self.fg, text: self.text@ }
    }
}

impl DeepView for Span {
    type V = SpanModel;

    open spec fn deep_view(&self) -> SpanModel {
        self.view()
    }
}

/// The concatenation of the spans' texts: the bare line.
pub open spec fn concat_texts(spans: Seq<SpanModel>) -> Seq<u8>
    decreases spans.len(),
{
    if spans.len() == 0 {
        Seq::empty()
    } else {
        concat_texts(spans.drop_last()) + spans.last().text
    }
}

/// Absolute byte position `abs` lies inside some match range.
pub open spec fn in_any(ms: Seq<(usize, usize)>, abs: int) -> bool {
    exists|k: int| 0 <= k < ms.len() && (#[trigger] ms[k]).0 <= abs < ms[k].1
}

/// Some match range intersects the half-open interval `[start, end)`.
pub open spec fn overlaps(ms: Seq<(usize, usize)>, start: int, end: int) -> bool {
    exists|k: int| 0 <= k < ms.len() && (#[trigger] ms[k]).0 < end && ms[k].1 > start
}

/// `a - b`, not below zero.
pub open spec fn sat_sub(a: int, b: int) -> int {
    if a >= b {
        a - b
    } else {
        0
    }
}

/// The fold behind `next_boundary`, over the ranges from index `idx` on:
/// the least candidate boundary, where a range contributes its end (when the
/// position lies inside it) or its start (when the range lies ahead), made
/// relative to the span and capped at the span's length.
pub open spec fn nb_from(
    ms: Seq<(usize, usize)>,
    idx: int,
    abs: int,
    in_match: bool,
    span_start: int,
    limit: int,
) -> int
    decreases ms.len() - idx,
{
    if idx < 0 || idx >= ms.len() {
        limit
    } else {
        let rest = nb_from(ms, idx + 1, abs, in_match, span_start, limit);
        let relevant = if in_match {
            ms[idx].0 <= abs < ms[idx].1
        } else {
            ms[idx].0 > abs
        };
        let raw = sat_sub(if in_match { ms[idx].1 as int } else { ms[idx].0 as int }, span_start);
        let capped = if raw < limit {
            raw
        } else {
            limit
        };
        if relevant && capped < rest {
            capped
        } else {
            rest
        }
    }
}

/// Where the current same-status run ends, relative to the span: the least
/// end-of-match covering `abs` (inside a match) or the least start-of-match
/// after `abs` (outside), capped at the span's length.
pub open spec fn next_boundary_spec(
    ms: Seq<(usize, usize)>,
    abs: int,
    in_match: bool,
    span_start: int,
    limit: int,
) -> int {
    nb_from(ms, 0, abs, in_match, span_start, limit)
}

/// The boundary always moves the scan forward and never passes the span end.
pub proof fn lemma_nb_bounds(
    ms: Seq<(usize, usize)>,
    idx: int,
    abs: int,
    in_match: bool,
    span_start: int,
    limit: int,
)
    requires
        0 <= span_start <= abs,
        abs - span_start < limit,
    ensures
        abs - span_start < nb_from(ms, idx, abs, in_match, span_start, limit) <= limit,
    decreases ms.len() - idx,
{
    if 0 <= idx < ms.len() {
        lemma_nb_bounds(ms, idx + 1, abs, in_match, span_start, limit);
    }
}

/// The next transition point between matched and unmatched bytes, relative
/// to the span starting at `span_start`, capped at `text_len`.
pub fn next_boundary(
    matches: &[(usize, usize)],
    abs: usize,
    in_match: bool,
    span_start: usize,
    text_len: usize,
) -> (r: usize)
    ensures
        r == next_boundary_spec(matches@, abs as int, in_match, span_start as int, text_len as int),
{
    let n = matches.len();
    let mut idx = n;
    let mut acc = text_len;
    while idx > 0
        invariant
            n == matches@.len(),
            0 <= idx <= n,
            acc == nb_from(matches@, idx as int, abs as int, in_match, span_start as int, text_len as int),
        decreases idx,
    {
        idx = idx - 1;
        let (ms, me) = matches[idx];
        let relevant = if in_match {
            ms <= abs && abs < me
        } else {
            ms > abs
        };
        let edge = if in_match {
            me
        } else {
            ms
        };
        let raw = if edge >= span_start {
            edge - span_start
        } else {
            0
        };
        let capped = if raw < text_len {
            raw
        } else {
            text_len
        };
        if relevant && capped < acc {
            acc = capped;
        }
    }
    acc
}

/// One styling operation: a matched run opens background, bold and the
/// span's foreground and closes with a reset; an unmatched run asserts the
/// foreground alone.
pub open spec fn run_chunk(bg: Rgb, fg: Rgb, matched: bool, chunk: Seq<u8>) -> Seq<u8> {
    if matched {
        bg_seq(bg) + bold_seq() + fg_seq(fg) + chunk + reset_seq()
    } else {
        fg_seq(fg) + chunk
    }
}

/// The runs of one span, from relative offset `i` on: each run extends to
/// the next boundary and carries the match status of its first byte.
pub open spec fn comp_runs(
    ms: Seq<(usize, usize)>,
    text: Seq<u8>,
    pos: int,
    fg: Rgb,
    bg: Rgb,
    i: int,
) -> Seq<u8>
    decreases text.len() - i,
{
    if i < 0 || i >= text.len() {
        Seq::empty()
    } else {
        let im = in_any(ms, pos + i);
        let re0 = next_boundary_spec(ms, pos + i, im, pos, text.len() as int);
        let re = if re0 <= i {
            i + 1
        } else if re0 > text.len() {
            text.len() as int
        } else {
            re0
        };
        run_chunk(bg, fg, im, text.subrange(i, re)) + comp_runs(ms, text, pos, fg, bg, re)
    }
}

/// One span composited: a span no match range touches is one plain
/// foreground run; otherwise its runs are split at the match boundaries.
pub open spec fn comp_span(ms: Seq<(usize, usize)>, sp: SpanModel, pos: int, bg: Rgb) -> Seq<u8> {
    if !overlaps(ms, pos, pos + sp.text.len()) {
        fg_seq(sp.fg) + sp.text
    } else {
        comp_runs(ms, sp.text, pos, sp.fg, bg, 0)
    }
}

/// All spans from index `k` on, composited; `pos` is the absolute byte
/// position where span `k` starts.
pub open spec fn comp_spans(
    spans: Seq<SpanModel>,
    ms: Seq<(usize, usize)>,
    bg: Rgb,
    k: int,
    pos: int,
) -> Seq<u8>
    decreases spans.len() - k,
{
    if k < 0 || k >= spans.len() {
        Seq::empty()
    } else {
        comp_span(ms, spans[k], pos, bg) + comp_spans(
            spans,
            ms,
            bg,
            k + 1,
            pos + spans[k].text.len(),
        )
    }
}

/// The spans from `k` on, each as one plain foreground run.
pub open spec fn styled_body(spans: Seq<SpanModel>, k: int) -> Seq<u8>
    decreases spans.len() - k,
{
    if k < 0 || k >= spans.len() {
        Seq::empty()
    } else {
        fg_seq(spans[k].fg) + spans[k].text + styled_body(spans, k + 1)
    }
}

/// The plain syntax-highlighted rendering: one foreground run per span,
/// one final reset.
pub open spec fn spec_styled_line(spans: Seq<SpanModel>) -> Seq<u8> {
    styled_body(spans, 0) + reset_seq()
}

/// The composited rendering: every span split at the match boundaries,
/// one final reset.
pub open spec fn spec_composite(
    spans: Seq<SpanModel>,
    ms: Seq<(usize, usize)>,
    bg: Rgb,
) -> Seq<u8> {
    comp_spans(spans, ms, bg, 0, 0) + reset_seq()
}

/// Law: with no match ranges at all, the composited output is byte for byte
/// the plain syntax-highlighted rendering.
pub proof fn lemma_composite_no_matches(spans: Seq<SpanModel>, bg: Rgb)
    ensures
        spec_composite(spans, Seq::empty(), bg) == spec_styled_line(spans),
{
    lemma_comp_spans_empty(spans, bg, 0, 0);
}

proof fn lemma_comp_spans_empty(spans: Seq<SpanModel>, bg: Rgb, k: int, pos: int)
    ensures
        comp_spans(spans, Seq::empty(), bg, k, pos) == styled_body(spans, k),
    decreases spans.len() - k,
{
    if 0 <= k < spans.len() {
        assert(!overlaps(Seq::empty(), pos, pos + spans[k].text.len()));
        lemma_comp_spans_empty(spans, bg, k + 1, pos + spans[k].text.len());
    }
}

/// The concatenated length of a prefix of the spans never exceeds that of
/// all of them.
pub proof fn lemma_concat_prefix(spans: Seq<SpanModel>, k: int)
    requires
        0 <= k < spans.len(),
    ensures
        concat_texts(spans.subrange(0, k + 1)) == concat_texts(spans.subrange(0, k))
            + spans[k].text,
        concat_texts(spans.subrange(0, k + 1)).len() <= concat_texts(spans).len(),
    decreases spans.len() - k,
{
    assert(spans.subrange(0, k + 1).drop_last() =~= spans.subrange(0, k));
    assert(spans.subrange(0, k + 1).last() == spans[k]);
    if k + 1 == spans.len() {
        assert(spans.subrange(0, k + 1) =~= spans);
    } else {
        lemma_concat_prefix(spans, k + 1);
    }
}


/// The spans' texts flattened into one owned byte string.
fn flatten_texts(spans: &Vec<Span>) -> (r: Vec<u8>)
    ensures
        r@ == concat_texts(spans.deep_view()),
{
    let ghost dv = spans.deep_view();
    let mut out: Vec<u8> = Vec::new();
    let mut k: usize = 0;
    proof {
        assert(dv.subrange(0, 0) =~= Seq::<SpanModel>::empty());
        assert(out@ =~= concat_texts(dv.subrange(0, 0)));
    }
    while k < spans.len()
        invariant
            dv == spans.deep_view(),
            dv.len() == spans@.len(),
            0 <= k <= spans@.len(),
            out@ == concat_texts(dv.subrange(0, k as int)),
        decreases spans@.len() - k,
    {
        let sp = &spans[k];
        proof {
            crate::deep::lemma_dv_index(*spans, k as int);
            lemma_concat_prefix(dv, k as int);
        }
        let mut t = copy_range(sp.text.as_slice(), 0, sp.text.len());
        proof {
            assert(t@ =~= dv[k as int].text);
        }
        out.append(&mut t);
        k = k + 1;
    }
    proof {
        assert(dv.subrange(0, spans@.len() as int) =~= dv);
    }
    out
}

/// Spans guaranteed to reconstruct `line`: the given ones whenever their
/// texts concatenate back to it, otherwise a single span over the whole
/// line in the fallback color. What the tokenizer hands back is thereby
/// never trusted to cover the line; it is checked.
pub fn spans_covering(spans: Vec<Span>, line: &[u8], fallback: Rgb) -> (r: Vec<Span>)
    ensures
        concat_texts(r.deep_view()) == line@,
{
    let flat = flatten_texts(&spans);
    if crate::bytes::eq_bytes(flat.as_slice(), line) {
        spans
    } else {
        let mut v: Vec<Span> = Vec::new();
        let text = copy_range(line, 0, line.len());
        v.push(Span { fg: fallback, text });
        proof {
            crate::deep::lemma_dv_index(v, 0);
            assert(v.deep_view().drop_last() =~= Seq::<SpanModel>::empty());
            assert(v.deep_view().last().text =~= line@);
            assert(concat_texts(Seq::<SpanModel>::empty()) =~= Seq::<u8>::empty());
            assert(concat_texts(v.deep_view()) == concat_texts(v.deep_view().drop_last())
                + v.deep_view().last().text);
            assert(concat_texts(v.deep_view()) =~= line@);
        }
        v
    }
}

/// Does the absolute position `abs` lie inside some match range?
fn in_any_x(matches: &[(usize, usize)], abs: usize) -> (r: bool)
    ensures
        r == in_any(matches@, abs as int),
{
    let n = matches.len();
    let mut idx: usize = 0;
    while idx < n
        invariant
            n == matches@.len(),
            0 <= idx <= n,
            forall|t: int| 0 <= t < idx ==> !(#[trigger] matches@[t].0 <= abs < matches@[t].1),
        decreases n - idx,
    {
        let (ms, me) = matches[idx];
        if ms <= abs && abs < me {
            return true;
        }
        idx = idx + 1;
    }
    false
}

/// Does some match range intersect `[start, end)`?
fn overlaps_x(matches: &[(usize, usize)], start: usize, end: usize) -> (r: bool)
    ensures
        r == overlaps(matches@, start as int, end as int),
{
    let n = matches.len();
    let mut idx: usize = 0;
    while idx < n
        invariant
            n == matches@.len(),
            0 <= idx <= n,
            forall|t: int|
                0 <= t < idx ==> !(#[trigger] matches@[t].0 < end && matches@[t].1 > start),
        decreases n - idx,
    {
        let (ms, me) = matches[idx];
        if ms < end && me > start {
            return true;
        }
        idx = idx + 1;
    }
    false
}

/// The plain syntax-highlighted rendering of a line: one foreground escape
/// and the raw text per span, closed by a single reset.
pub fn styled_line(spans: &Vec<Span>) -> (r: Vec<u8>)
    ensures
        r@ == spec_styled_line(spans.deep_view()),
{
    let ghost dv = spans.deep_view();
    let mut out: Vec<u8> = Vec::new();
    let mut k: usize = 0;
    proof {
        assert(out@ + styled_body(dv, 0) =~= styled_body(dv, 0));
    }
    while k < spans.len()
        invariant
            dv == spans.deep_view(),
            dv.len() == spans@.len(),
            0 <= k <= spans@.len(),
            out@ + styled_body(dv, k as int) == styled_body(dv, 0),
        decreases spans@.len() - k,
    {
        let ghost prev = out@;
        let sp = &spans[k];
        proof {
            crate::deep::lemma_dv_index(*spans, k as int);
        }
        let mut f = fg_escape(sp.fg);
        out.append(&mut f);
        let mut t = copy_range(sp.text.as_slice(), 0, sp.text.len());
        proof {
            assert(t@ =~= dv[k as int].text);
        }
        out.append(&mut t);
        proof {
            assert(out@ =~= prev + (fg_seq(dv[k as int].fg) + dv[k as int].text));
            assert(out@ + styled_body(dv, k + 1) =~= prev + styled_body(dv, k as int));
        }
        k = k + 1;
    }
    let mut rst = reset_escape();
    out.append(&mut rst);
    proof {
        assert(styled_body(dv, spans@.len() as int) =~= Seq::<u8>::empty());
        assert(out@ =~= spec_styled_line(dv));
    }
    out
}

/// The composited rendering of a line: every span is split into runs at the
/// match boundaries; matched runs carry background, bold and foreground and
/// close with a reset, unmatched runs carry the foreground alone; a single
/// reset ends the line. With no match ranges this is exactly `styled_line`.
#[verifier::rlimit(30)]
pub fn highlight_matches(spans: &Vec<Span>, matches: &Vec<(usize, usize)>, match_bg: Rgb) -> (r:
    Vec<u8>)
    requires
        concat_texts(spans.deep_view()).len() <= usize::MAX,
    ensures
        r@ == spec_composite(spans.deep_view(), matches@, match_bg),
{
    let ghost dv = spans.deep_view();
    let ghost ms = matches@;
    if matches.len() == 0 {
        let r = styled_line(spans);
        proof {
            assert(ms =~= Seq::<(usize, usize)>::empty());
            lemma_composite_no_matches(dv, match_bg);
        }
        return r;
    }
    let mut out: Vec<u8> = Vec::new();
    let mut pos: usize = 0;
    let mut k: usize = 0;
    proof {
        assert(concat_texts(dv.subrange(0, 0)) =~= Seq::<u8>::empty());
        assert(out@ + comp_spans(dv, ms, match_bg, 0, 0) =~= comp_spans(dv, ms, match_bg, 0, 0));
    }
    while k < spans.len()
        invariant
            dv == spans.deep_view(),
            ms == matches@,
            dv.len() == spans@.len(),
            0 <= k <= spans@.len(),
            concat_texts(dv).len() <= usize::MAX,
            pos == concat_texts(dv.subrange(0, k as int)).len(),
            pos <= concat_texts(dv).len(),
            out@ + comp_spans(dv, ms, match_bg, k as int, pos as int) == comp_spans(
                dv,
                ms,
                match_bg,
                0,
                0,
            ),
        decreases spans@.len() - k,
    {
        let ghost span_base = out@;
        let sp = &spans[k];
        proof {
            crate::deep::lemma_dv_index(*spans, k as int);
            lemma_concat_prefix(dv, k as int);
        }
        let text_len = sp.text.len();
        if !overlaps_x(matches.as_slice(), pos, pos + text_len) {
            let mut f = fg_escape(sp.fg);
            out.append(&mut f);
            let mut t = copy_range(sp.text.as_slice(), 0, text_len);
            proof {
                assert(t@ =~= dv[k as int].text);
            }
            out.append(&mut t);
            proof {
                assert(out@ =~= span_base + comp_span(ms, dv[k as int], pos as int, match_bg));
                assert(out@ + comp_spans(dv, ms, match_bg, k + 1, pos + dv[k as int].text.len())
                    =~= span_base + comp_spans(dv, ms, match_bg, k as int, pos as int));
            }
        } else {
            let ghost tv = dv[k as int].text;
            let mut i: usize = 0;
            proof {
                assert(comp_runs(ms, tv, pos as int, dv[k as int].fg, match_bg, 0) + comp_spans(
                    dv,
                    ms,
                    match_bg,
                    k + 1,
                    pos + tv.len(),
                ) =~= comp_span(ms, dv[k as int], pos as int, match_bg) + comp_spans(
                    dv,
                    ms,
                    match_bg,
                    k + 1,
                    pos + tv.len(),
                ));
            }
            while i < text_len
                invariant
                    dv == spans.deep_view(),
                    ms == matches@,
                    0 <= k < spans@.len(),
                    tv == dv[k as int].text,
                    sp@ == dv[k as int],
                    text_len == tv.len(),
                    0 <= i <= text_len,
                    concat_texts(dv).len() <= usize::MAX,
                    pos == concat_texts(dv.subrange(0, k as int)).len(),
                    pos + text_len <= concat_texts(dv).len(),
                    out@ + comp_runs(ms, tv, pos as int, dv[k as int].fg, match_bg, i as int)
                        == span_base + comp_runs(ms, tv, pos as int, dv[k as int].fg, match_bg, 0),
                decreases text_len - i,
            {
                let ghost prev = out@;
                let abs = pos + i;
                let im = in_any_x(matches.as_slice(), abs);
                let re = next_boundary(matches.as_slice(), abs, im, pos, text_len);
                proof {
                    lemma_nb_bounds(ms, 0, abs as int, im, pos as int, text_len as int);
                }
                let chunk = copy_range(sp.text.as_slice(), i, re);
                proof {
                    assert(chunk@ =~= tv.subrange(i as int, re as int));
                }
                if im {
                    let mut bgv = bg_escape(match_bg);
                    out.append(&mut bgv);
                    let mut bd = bold_escape();
                    out.append(&mut bd);
                    let mut f = fg_escape(sp.fg);
                    out.append(&mut f);
                    let mut c = chunk;
                    out.append(&mut c);
                    let mut rst = reset_escape();
                    out.append(&mut rst);
                } else {
                    let mut f = fg_escape(sp.fg);
                    out.append(&mut f);
                    let mut c = chunk;
                    out.append(&mut c);
                }
                proof {
                    assert(out@ =~= prev + run_chunk(
                        match_bg,
                        dv[k as int].fg,
                        im,
                        tv.subrange(i as int, re as int),
                    ));
                    assert(comp_runs(ms, tv, pos as int, dv[k as int].fg, match_bg, i as int)
                        =~= run_chunk(match_bg, dv[k as int].fg, im, tv.subrange(i as int, re as int))
                        + comp_runs(ms, tv, pos as int, dv[k as int].fg, match_bg, re as int));
                    assert(out@ + comp_runs(ms, tv, pos as int, dv[k as int].fg, match_bg, re as int)
                        =~= prev + comp_runs(ms, tv, pos as int, dv[k as int].fg, match_bg, i as int));
                }
                i = re;
            }
            proof {
                assert(comp_runs(ms, tv, pos as int, dv[k as int].fg, match_bg, text_len as int)
                    =~= Seq::<u8>::empty());
                assert(out@ =~= span_base + comp_runs(ms, tv, pos as int, dv[k as int].fg, match_bg, 0));
                assert(out@ =~= span_base + comp_span(ms, dv[k as int], pos as int, match_bg));
                assert(out@ + comp_spans(dv, ms, match_bg, k + 1, pos + tv.len()) =~= span_base
                    + comp_spans(dv, ms, match_bg, k as int, pos as int));
            }
        }
        pos = pos + text_len;
        k = k + 1;
    }
    let mut rst = reset_escape();
    out.append(&mut rst);
    proof {
        assert(comp_spans(dv, ms, match_bg, spans@.len() as int, pos as int) =~= Seq::<u8>::empty());
        assert(out@ =~= spec_composite(dv, ms, match_bg));
    }
    out
}

} // verus!
