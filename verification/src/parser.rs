//! Response parser: reconstructs structured search results from the search
//! service's loosely delimited, line-oriented text responses. Parsing is
//! total: malformed input is handled by omission, never by failure.
//!
//! The parser is specified as a small state machine folded over the lines of
//! the input (`step`/`run_to`), followed by a flush of the open result and a
//! trim of trailing blank snippet lines; `parse` is proved to compute exactly
//! that fold.

use vstd::prelude::*;

use crate::bytes::{copy_range, ends_with, eq_bytes, find_sub, is_prefix, is_suffix, starts_with};
use crate::matcher::first_match_from;

verus! {

// ------------------------------------------------------------------
// Line markers of the text protocol
// ------------------------------------------------------------------
/// The bytes of the literal `"Repository: "`.
pub open spec fn repo_marker() -> Seq<u8> {
    seq![82u8, 101u8, 112u8, 111u8, 115u8, 105u8, 116u8, 111u8, 114u8, 121u8, 58u8, 32u8]
}

/// The literal `"Repository: "` as owned bytes.
fn repo_marker_x() -> (r: Vec<u8>)
    ensures
        r@ == repo_marker(),
{
    let mut v: Vec<u8> = Vec::new();
    v.push(82);
    v.push(101);
    v.push(112);
    v.push(111);
    v.push(115);
    v.push(105);
    v.push(116);
    v.push(111);
    v.push(114);
    v.push(121);
    v.push(58);
    v.push(32);
    proof {
        assert(v@ =~= repo_marker());
    }
    v
}

/// The bytes of the literal `"Path: "`.
pub open spec fn path_marker() -> Seq<u8> {
    seq![80u8, 97u8, 116u8, 104u8, 58u8, 32u8]
}

/// The literal `"Path: "` as owned bytes.
fn path_marker_x() -> (r: Vec<u8>)
    ensures
        r@ == path_marker(),
{
    let mut v: Vec<u8> = Vec::new();
    v.push(80);
    v.push(97);
    v.push(116);
    v.push(104);
    v.push(58);
    v.push(32);
    proof {
        assert(v@ =~= path_marker());
    }
    v
}

/// The bytes of the literal `"URL: "`.
pub open spec fn url_marker() -> Seq<u8> {
    seq![85u8, 82u8, 76u8, 58u8, 32u8]
}

/// The literal `"URL: "` as owned bytes.
fn url_marker_x() -> (r: Vec<u8>)
    ensures
        r@ == url_marker(),
{
    let mut v: Vec<u8> = Vec::new();
    v.push(85);
    v.push(82);
    v.push(76);
    v.push(58);
    v.push(32);
    proof {
        assert(v@ =~= url_marker());
    }
    v
}

/// The bytes of the literal `"License: "`.
pub open spec fn license_marker() -> Seq<u8> {
    seq![76u8, 105u8, 99u8, 101u8, 110u8, 115u8, 101u8, 58u8, 32u8]
}

/// The literal `"License: "` as owned bytes.
fn license_marker_x() -> (r: Vec<u8>)
    ensures
        r@ == license_marker(),
{
    let mut v: Vec<u8> = Vec::new();
    v.push(76);
    v.push(105);
    v.push(99);
    v.push(101);
    v.push(110);
    v.push(115);
    v.push(101);
    v.push(58);
    v.push(32);
    proof {
        assert(v@ =~= license_marker());
    }
    v
}

/// The bytes of the literal `"--- Snippet "`.
pub open spec fn snip_marker() -> Seq<u8> {
    seq![45u8, 45u8, 45u8, 32u8, 83u8, 110u8, 105u8, 112u8, 112u8, 101u8, 116u8, 32u8]
}

/// The literal `"--- Snippet "` as owned bytes.
fn snip_marker_x() -> (r: Vec<u8>)
    ensures
        r@ == snip_marker(),
{
    let mut v: Vec<u8> = Vec::new();
    v.push(45);
    v.push(45);
    v.push(45);
    v.push(32);
    v.push(83);
    v.push(110);
    v.push(105);
    v.push(112);
    v.push(112);
    v.push(101);
    v.push(116);
    v.push(32);
    proof {
        assert(v@ =~= snip_marker());
    }
    v
}

/// The bytes of the literal `"---"`.
pub open spec fn dashes_marker() -> Seq<u8> {
    seq![45u8, 45u8, 45u8]
}

/// The literal `"---"` as owned bytes.
fn dashes_marker_x() -> (r: Vec<u8>)
    ensures
        r@ == dashes_marker(),
{
    let mut v: Vec<u8> = Vec::new();
    v.push(45);
    v.push(45);
    v.push(45);
    proof {
        assert(v@ =~= dashes_marker());
    }
    v
}

/// The bytes of the literal `"Snippets:"`.
pub open spec fn snippets_marker() -> Seq<u8> {
    seq![83u8, 110u8, 105u8, 112u8, 112u8, 101u8, 116u8, 115u8, 58u8]
}

/// The literal `"Snippets:"` as owned bytes.
fn snippets_marker_x() -> (r: Vec<u8>)
    ensures
        r@ == snippets_marker(),
{
    let mut v: Vec<u8> = Vec::new();
    v.push(83);
    v.push(110);
    v.push(105);
    v.push(112);
    v.push(112);
    v.push(101);
    v.push(116);
    v.push(115);
    v.push(58);
    proof {
        assert(v@ =~= snippets_marker());
    }
    v
}

/// The bytes of the literal `"(Line "`.
pub open spec fn line_open_marker() -> Seq<u8> {
    seq![40u8, 76u8, 105u8, 110u8, 101u8, 32u8]
}

/// The literal `"(Line "` as owned bytes.
fn line_open_marker_x() -> (r: Vec<u8>)
    ensures
        r@ == line_open_marker(),
{
    let mut v: Vec<u8> = Vec::new();
    v.push(40);
    v.push(76);
    v.push(105);
    v.push(110);
    v.push(101);
    v.push(32);
    proof {
        assert(v@ =~= line_open_marker());
    }
    v
}

/// The bytes of the literal `") ---"`.
pub open spec fn line_close_marker() -> Seq<u8> {
    seq![41u8, 32u8, 45u8, 45u8, 45u8]
}

/// The literal `") ---"` as owned bytes.
fn line_close_marker_x() -> (r: Vec<u8>)
    ensures
        r@ == line_close_marker(),
{
    let mut v: Vec<u8> = Vec::new();
    v.push(41);
    v.push(32);
    v.push(45);
    v.push(45);
    v.push(45);
    proof {
        assert(v@ =~= line_close_marker());
    }
    v
}


// ------------------------------------------------------------------
// Data model
// ------------------------------------------------------------------

/// One contiguous block of matched source lines within a file.
pub struct Snippet {
    /// 1-based line number of the first line of the block.
    pub start_line: u64,
    /// The raw text lines, without trailing newlines.
    pub lines: Vec<Vec<u8>>,
}

/// One match-bearing source file of a search response.
pub struct SearchResult {
    /// Repository identifier, e.g. `owner/name`.
    pub repository: Vec<u8>,
    /// File path relative to the repository root.
    pub path: Vec<u8>,
    /// Canonical link to the file.
    pub url: Vec<u8>,
    /// License identifier; the sentinel `Unknown` means unavailable.
    pub license: Vec<u8>,
    /// Snippets in order of appearance.
    pub snippets: Vec<Snippet>,
}

/// Mathematical model of a `Snippet`.
#[verifier::ext_equal]
pub struct SnippetModel {
    pub start_line: u64,
    pub lines: Seq<Seq<u8>>,
}

/// Mathematical model of a `SearchResult`.
#[verifier::ext_equal]
pub struct SearchResultModel {
    pub repository: Seq<u8>,
    pub path: Seq<u8>,
    pub url: Seq<u8>,
    pub license: Seq<u8>,
    pub snippets: Seq<SnippetModel>,
}

impl View for Snippet {
    type V = SnippetModel;

    open spec fn view(&self) -> SnippetModel {
        SnippetModel { start_line: self.start_line, lines: self.lines.deep_view() }
    }
}

impl DeepView for Snippet {
    type V = SnippetModel;

    open spec fn deep_view(&self) -> SnippetModel {
        self.view()
    }
}

impl View for SearchResult {
    type V = SearchResultModel;

    open spec fn view(&self) -> SearchResultModel {
        SearchResultModel {
            repository: self.repository@,
            path: self.path@,
            url: self.url@,
            license: self.license@,
            snippets: self.snippets.deep_view(),
        }
    }
}

impl DeepView for SearchResult {
    type V = SearchResultModel;

    open spec fn deep_view(&self) -> SearchResultModel {
        self.view()
    }
}

// ------------------------------------------------------------------
// Splitting the input into lines
// ------------------------------------------------------------------

/// The first index at or after `i` holding a newline, or the length of `t`.
pub open spec fn find_nl(t: Seq<u8>, i: int) -> int
    decreases t.len() - i,
{
    if i < 0 {
        0
    } else if i >= t.len() {
        t.len() as int
    } else if t[i] == 10 {
        i
    } else {
        find_nl(t, i + 1)
    }
}

/// A line with its trailing carriage return, if any, removed.
pub open spec fn strip_cr(s: Seq<u8>) -> Seq<u8> {
    if s.len() > 0 && s.last() == 13 {
        s.drop_last()
    } else {
        s
    }
}

/// The lines of `t` from offset `i` on: split at newlines, one trailing
/// carriage return removed per line, no empty final line after a trailing
/// newline.
pub open spec fn spec_lines_from(t: Seq<u8>, i: int) -> Seq<Seq<u8>>
    decreases t.len() - i,
{
    if i < 0 || i >= t.len() {
        Seq::empty()
    } else {
        let j0 = find_nl(t, i);
        let j = if j0 < i {
            i
        } else if j0 > t.len() {
            t.len() as int
        } else {
            j0
        };
        let line = strip_cr(t.subrange(i, j));
        if j >= t.len() {
            seq![line]
        } else {
            seq![line] + spec_lines_from(t, j + 1)
        }
    }
}

/// The lines of the whole input.
pub open spec fn spec_lines(t: Seq<u8>) -> Seq<Seq<u8>> {
    spec_lines_from(t, 0)
}

proof fn lemma_find_nl_is(t: Seq<u8>, i: int, j: int)
    requires
        0 <= i <= j <= t.len(),
        forall|k: int| i <= k < j ==> t[k] != 10,
        j == t.len() || t[j] == 10,
    ensures
        find_nl(t, i) == j,
    decreases j - i,
{
    if i < j {
        lemma_find_nl_is(t, i + 1, j);
    }
}

/// The input split into lines.
pub fn split_lines(text: &[u8]) -> (r: Vec<Vec<u8>>)
    ensures
        r.deep_view() == spec_lines(text@),
{
    let n = text.len();
    let mut out: Vec<Vec<u8>> = Vec::new();
    let mut i: usize = 0;
    proof {
        assert(out.deep_view() =~= Seq::<Seq<u8>>::empty());
    }
    while i < n
        invariant
            n == text@.len(),
            0 <= i <= n,
            out.deep_view() + spec_lines_from(text@, i as int) == spec_lines(text@),
        decreases n - i,
    {
        let ghost prev = out.deep_view();
        let mut j: usize = i;
        while j < n && text[j] != 10
            invariant
                n == text@.len(),
                i <= j <= n,
                forall|k: int| i <= k < j ==> text@[k] != 10,
            decreases n - j,
        {
            j = j + 1;
        }
        proof {
            lemma_find_nl_is(text@, i as int, j as int);
        }
        let mut line = copy_range(text, i, j);
        if line.len() > 0 && line[line.len() - 1] == 13 {
            line.pop();
        }
        proof {
            assert(line@ =~= strip_cr(text@.subrange(i as int, j as int)));
        }
        let ghost ov = out;
        let ghost lv = line;
        out.push(line);
        proof {
            crate::deep::lemma_dv_push(ov, out, lv);
            assert(lv.deep_view() =~= lv@);
            assert(out.deep_view() =~= prev.push(lv@));
            if j < n {
                assert(spec_lines_from(text@, i as int) =~= seq![lv@] + spec_lines_from(
                    text@,
                    j + 1,
                ));
                assert(out.deep_view() + spec_lines_from(text@, j + 1) =~= prev
                    + spec_lines_from(text@, i as int));
            } else {
                assert(spec_lines_from(text@, i as int) =~= seq![lv@]);
                assert(out.deep_view() + spec_lines_from(text@, n as int) =~= prev
                    + spec_lines_from(text@, i as int));
            }
        }
        if j < n {
            i = j + 1;
        } else {
            i = n;
        }
    }
    proof {
        assert(out.deep_view() + spec_lines_from(text@, i as int) =~= out.deep_view());
    }
    out
}

// ------------------------------------------------------------------
// Snippet header line numbers
// ------------------------------------------------------------------

/// Is `b` the code of a decimal digit?
pub open spec fn is_digit(b: u8) -> bool {
    48 <= b <= 57
}

/// Every byte of `s` is a decimal digit.
pub open spec fn all_digits(s: Seq<u8>) -> bool {
    forall|i: int| 0 <= i < s.len() ==> is_digit(#[trigger] s[i])
}

/// The value of a digit string, most significant digit first.
pub open spec fn digits_val(s: Seq<u8>) -> int
    decreases s.len(),
{
    if s.len() == 0 {
        0
    } else {
        digits_val(s.drop_last()) * 10 + (s.last() - 48)
    }
}

/// A digit string read as a `u64`; anything that is not the text form of a
/// `u64` value falls back to 1 (the default start line).
pub open spec fn parse_u64_or_one(s: Seq<u8>) -> u64 {
    if s.len() > 0 && all_digits(s) && digits_val(s) <= u64::MAX {
        digits_val(s) as u64
    } else {
        1u64
    }
}

proof fn lemma_digits_val_nonneg(s: Seq<u8>)
    requires
        all_digits(s),
    ensures
        digits_val(s) >= 0,
    decreases s.len(),
{
    if s.len() > 0 {
        assert(all_digits(s.drop_last())) by {
            assert(forall|i: int|
                0 <= i < s.len() - 1 ==> #[trigger] s.drop_last()[i] == s[i]);
        }
        lemma_digits_val_nonneg(s.drop_last());
    }
}

proof fn lemma_digits_step(s: Seq<u8>, i: int)
    requires
        0 <= i < s.len(),
    ensures
        digits_val(s.subrange(0, i + 1)) == digits_val(s.subrange(0, i)) * 10 + (s[i] - 48),
{
    assert(s.subrange(0, i + 1).drop_last() =~= s.subrange(0, i));
    assert(s.subrange(0, i + 1).last() == s[i]);
}

proof fn lemma_digits_prefix_le(s: Seq<u8>, i: int)
    requires
        all_digits(s),
        0 <= i <= s.len(),
    ensures
        digits_val(s.subrange(0, i)) <= digits_val(s),
    decreases s.len() - i,
{
    if i == s.len() {
        assert(s.subrange(0, i) =~= s);
    } else {
        lemma_digits_step(s, i);
        assert(all_digits(s.subrange(0, i))) by {
            assert(forall|k: int|
                0 <= k < i ==> #[trigger] s.subrange(0, i)[k] == s[k]);
        }
        lemma_digits_val_nonneg(s.subrange(0, i));
        lemma_digits_prefix_le(s, i + 1);
    }
}

/// The digit string `s` read as a `u64`, or 1 when it is empty, holds a
/// non-digit, or does not fit.
fn parse_digits(s: &[u8]) -> (r: u64)
    ensures
        r == parse_u64_or_one(s@),
{
    let n = s.len();
    if n == 0 {
        return 1;
    }
    let mut val: u64 = 0;
    let mut i: usize = 0;
    while i < n
        invariant
            n == s@.len(),
            0 <= i <= n,
            forall|t: int| 0 <= t < i ==> is_digit(#[trigger] s@[t]),
            val == digits_val(s@.subrange(0, i as int)),
        decreases n - i,
    {
        let b = s[i];
        if b < 48 || b > 57 {
            assert(!all_digits(s@));
            return 1;
        }
        let d = (b - 48) as u64;
        let grown = match val.checked_mul(10) {
            Some(v10) => v10.checked_add(d),
            None => None,
        };
        proof {
            lemma_digits_step(s@, i as int);
        }
        match grown {
            Some(v) => {
                val = v;
            },
            None => {
                proof {
                    if all_digits(s@) {
                        lemma_digits_prefix_le(s@, i + 1);
                    }
                }
                return 1;
            },
        }
        i = i + 1;
    }
    proof {
        assert(s@.subrange(0, n as int) =~= s@);
    }
    val
}

/// The start line carried by a snippet header: the text between the first
/// `"(Line "` and the next one (or the end of the line) must end in
/// `") ---"`, and the part before that suffix is read as a `u64`; any other
/// shape defaults to 1.
pub open spec fn spec_start_line(header: Seq<u8>) -> u64 {
    match first_match_from(header, line_open_marker(), 0) {
        Option::None => 1u64,
        Option::Some(i) => {
            let a = i + line_open_marker().len();
            let b = match first_match_from(header, line_open_marker(), a) {
                Option::None => header.len() as int,
                Option::Some(j) => j,
            };
            let seg = header.subrange(a, b);
            if is_suffix(line_close_marker(), seg) {
                parse_u64_or_one(seg.subrange(0, seg.len() - line_close_marker().len()))
            } else {
                1u64
            }
        },
    }
}

/// The start line encoded in a snippet header line, defaulting to 1.
pub fn parse_start_line(header: &[u8]) -> (r: u64)
    ensures
        r == spec_start_line(header@),
{
    let n = header.len();
    let lp = line_open_marker_x();
    let cm = line_close_marker_x();
    match find_sub(header, lp.as_slice(), 0) {
        Option::None => 1,
        Option::Some(i) => {
            let a = i + lp.len();
            let b = match find_sub(header, lp.as_slice(), a) {
                Option::None => n,
                Option::Some(j) => j,
            };
            let ghost seg = header@.subrange(a as int, b as int);
            if b - a >= cm.len() {
                let tail_start = b - cm.len();
                let suffix_ok = {
                    let sl = &header[tail_start..b];
                    eq_bytes(sl, cm.as_slice())
                };
                proof {
                    assert(seg.subrange(seg.len() - line_close_marker().len(), seg.len() as int)
                        =~= header@.subrange(tail_start as int, b as int));
                }
                if suffix_ok {
                    let digits = &header[a..tail_start];
                    let r = parse_digits(digits);
                    proof {
                        assert(seg.subrange(0, seg.len() - line_close_marker().len())
                            =~= header@.subrange(a as int, tail_start as int));
                    }
                    r
                } else {
                    1
                }
            } else {
                1
            }
        },
    }
}

// ------------------------------------------------------------------
// The line-scanning state machine
// ------------------------------------------------------------------

/// The scanner state: finished results, the open result, the open snippet,
/// and whether body lines are currently collected into the open snippet.
#[verifier::ext_equal]
pub struct ParserState {
    pub done: Seq<SearchResultModel>,
    pub current: Option<SearchResultModel>,
    pub snippet: Option<SnippetModel>,
    pub in_snippet: bool,
}

/// The state before any line is read.
pub open spec fn initial_state() -> ParserState {
    ParserState { done: Seq::empty(), current: None, snippet: None, in_snippet: false }
}

/// The open snippet closed into the open result; with no open result the
/// snippet has nowhere to go and is discarded.
pub open spec fn close_current(
    current: Option<SearchResultModel>,
    snippet: Option<SnippetModel>,
) -> Option<SearchResultModel> {
    match (current, snippet) {
        (Some(r), Some(s)) => Some(
            SearchResultModel { snippets: r.snippets.push(s), ..r },
        ),
        _ => current,
    }
}

/// The open snippet closed into the open result, and the open result closed
/// into the output sequence; a flush with no open result changes nothing.
pub open spec fn flush_spec(
    done: Seq<SearchResultModel>,
    current: Option<SearchResultModel>,
    snippet: Option<SnippetModel>,
) -> Seq<SearchResultModel> {
    match close_current(current, snippet) {
        Some(r) => done.push(r),
        None => done,
    }
}

/// One line of input applied to the scanner state, in priority order:
/// a `Repository: ` line closes everything open and opens a new result; a
/// field line sets a field of the open result; a snippet header closes the
/// open snippet and opens a new one; the `Snippets:` section header is
/// skipped; inside a snippet body any other line is snippet text; anything
/// else is dropped.
pub open spec fn step(st: ParserState, line: Seq<u8>) -> ParserState {
    if is_prefix(repo_marker(), line) {
        ParserState {
            done: flush_spec(st.done, st.current, st.snippet),
            current: Some(
                SearchResultModel {
                    repository: line.subrange(repo_marker().len() as int, line.len() as int),
                    path: Seq::empty(),
                    url: Seq::empty(),
                    license: Seq::empty(),
                    snippets: Seq::empty(),
                },
            ),
            snippet: None,
            in_snippet: false,
        }
    } else if is_prefix(path_marker(), line) {
        match st.current {
            Some(r) => ParserState {
                current: Some(
                    SearchResultModel {
                        path: line.subrange(path_marker().len() as int, line.len() as int),
                        ..r
                    },
                ),
                ..st
            },
            None => st,
        }
    } else if is_prefix(url_marker(), line) {
        match st.current {
            Some(r) => ParserState {
                current: Some(
                    SearchResultModel {
                        url: line.subrange(url_marker().len() as int, line.len() as int),
                        ..r
                    },
                ),
                ..st
            },
            None => st,
        }
    } else if is_prefix(license_marker(), line) {
        match st.current {
            Some(r) => ParserState {
                current: Some(
                    SearchResultModel {
                        license: line.subrange(license_marker().len() as int, line.len() as int),
                        ..r
                    },
                ),
                ..st
            },
            None => st,
        }
    } else if is_prefix(snip_marker(), line) && is_suffix(dashes_marker(), line) {
        ParserState {
            done: st.done,
            current: close_current(st.current, st.snippet),
            snippet: Some(SnippetModel { start_line: spec_start_line(line), lines: Seq::empty() }),
            in_snippet: true,
        }
    } else if line == snippets_marker() {
        st
    } else if st.in_snippet {
        match st.snippet {
            Some(sn) => ParserState {
                snippet: Some(SnippetModel { start_line: sn.start_line, lines: sn.lines.push(line) }),
                ..st
            },
            None => st,
        }
    } else {
        st
    }
}

/// The scanner state after the first `n` lines.
pub open spec fn run_to(lines: Seq<Seq<u8>>, n: int) -> ParserState
    decreases n,
{
    if n <= 0 {
        initial_state()
    } else {
        step(run_to(lines, n - 1), lines[n - 1])
    }
}

/// The parsed results before the trailing-blank-line trim: the fold over all
/// lines, with the open result flushed at end of input.
pub open spec fn parse_untrimmed(text: Seq<u8>) -> Seq<SearchResultModel> {
    let lines = spec_lines(text);
    let st = run_to(lines, lines.len() as int);
    flush_spec(st.done, st.current, st.snippet)
}

/// Trailing empty lines removed.
pub open spec fn trim_lines(lines: Seq<Seq<u8>>) -> Seq<Seq<u8>>
    decreases lines.len(),
{
    if lines.len() > 0 && lines.last().len() == 0 {
        trim_lines(lines.drop_last())
    } else {
        lines
    }
}

/// A snippet with its trailing empty lines removed.
pub open spec fn trim_snippet(s: SnippetModel) -> SnippetModel {
    SnippetModel { start_line: s.start_line, lines: trim_lines(s.lines) }
}

/// A result with every snippet trimmed.
pub open spec fn trim_result(r: SearchResultModel) -> SearchResultModel {
    SearchResultModel { snippets: r.snippets.map_values(|s: SnippetModel| trim_snippet(s)), ..r }
}

/// What `parse` returns: the state-machine fold, flushed and trimmed.
pub open spec fn spec_parse(text: Seq<u8>) -> Seq<SearchResultModel> {
    parse_untrimmed(text).map_values(|r: SearchResultModel| trim_result(r))
}

// ------------------------------------------------------------------
// Executable parser
// ------------------------------------------------------------------

/// The scanner state assembled from the executable pieces.
pub open spec fn st_of(
    done: Seq<SearchResultModel>,
    current: Option<SearchResultModel>,
    snippet: Option<SnippetModel>,
    in_snippet: bool,
) -> ParserState {
    ParserState { done, current, snippet, in_snippet }
}

/// Close the open snippet into the open result and the open result into
/// `results`; afterwards nothing is open. A flush with no open result only
/// clears the open snippet.
pub fn flush_result(
    results: &mut Vec<SearchResult>,
    current: &mut Option<SearchResult>,
    snippet: &mut Option<Snippet>,
)
    ensures
        final(results).deep_view() == flush_spec(
            old(results).deep_view(),
            old(current).deep_view(),
            old(snippet).deep_view(),
        ),
        (*final(current)) is None,
        (*final(snippet)) is None,
{
    let ghost prev = results.deep_view();
    let cur = current.take();
    let sn = snippet.take();
    match cur {
        Some(mut r) => {
            let ghost rprev = r.deep_view();
            match sn {
                Some(s) => {
                    let ghost sb = r.snippets;
                    let ghost sc = s;
                    r.snippets.push(s);
                    proof {
                        crate::deep::lemma_dv_push(sb, r.snippets, sc);
                        assert(r.deep_view() =~~= (SearchResultModel {
                            snippets: rprev.snippets.push(sc.deep_view()),
                            ..rprev
                        }));
                    }
                },
                None => {},
            }
            let ghost rb = *results;
            let ghost rc = r;
            results.push(r);
            proof {
                crate::deep::lemma_dv_push(rb, *results, rc);
                assert(results.deep_view() =~~= flush_spec(
                    prev,
                    old(current).deep_view(),
                    old(snippet).deep_view(),
                ));
            }
        },
        None => {
            proof {
                assert(results.deep_view() =~~= flush_spec(
                    prev,
                    old(current).deep_view(),
                    old(snippet).deep_view(),
                ));
            }
        },
    }
}

/// Trailing empty lines popped off.
fn trim_lines_x(lines: Vec<Vec<u8>>) -> (r: Vec<Vec<u8>>)
    ensures
        r.deep_view() == trim_lines(lines.deep_view()),
    decreases lines@.len(),
{
    let n = lines.len();
    if n == 0 {
        return lines;
    }
    if lines[n - 1].len() != 0 {
        proof {
            crate::deep::lemma_dv_index(lines, n - 1);
        }
        return lines;
    }
    let mut lines = lines;
    let ghost bv = lines;
    lines.pop();
    proof {
        crate::deep::lemma_dv_index(bv, n - 1);
        crate::deep::lemma_dv_drop_last(bv, lines);
        assert(bv.deep_view().last().len() == 0);
    }
    trim_lines_x(lines)
}

/// A snippet with trailing empty lines removed.
fn trim_snippet_x(s: Snippet) -> (r: Snippet)
    ensures
        r.deep_view() == trim_snippet(s.deep_view()),
{
    let Snippet { start_line, lines } = s;
    Snippet { start_line, lines: trim_lines_x(lines) }
}

/// A result with every snippet trimmed.
fn trim_result_x(r: SearchResult) -> (t: SearchResult)
    ensures
        t.deep_view() == trim_result(r.deep_view()),
{
    let SearchResult { repository, path, url, license, snippets } = r;
    let ghost orig = snippets.deep_view();
    let mut rest = snippets;
    let mut out: Vec<Snippet> = Vec::new();
    proof {
        assert(out.deep_view() =~= orig.subrange(0, 0).map_values(|s: SnippetModel| trim_snippet(s)));
        assert(rest.deep_view() =~= orig.subrange(0, orig.len() as int));
    }
    while rest.len() > 0
        invariant
            orig.len() == out.deep_view().len() + rest.deep_view().len(),
            out.deep_view() == orig.subrange(0, out.deep_view().len() as int).map_values(
                |s: SnippetModel| trim_snippet(s),
            ),
            rest.deep_view() == orig.subrange(
                out.deep_view().len() as int,
                orig.len() as int,
            ),
        decreases rest@.len(),
    {
        let ghost k = out.deep_view().len() as int;
        let ghost rb = rest;
        let s = rest.remove(0);
        proof {
            crate::deep::lemma_dv_index(rb, 0);
            crate::deep::lemma_dv_remove_first(rb, rest);
            assert(s.deep_view() == orig[k]);
            assert(rest.deep_view() =~= orig.subrange(k + 1, orig.len() as int));
        }
        let t = trim_snippet_x(s);
        let ghost ob = out;
        let ghost tc = t;
        out.push(t);
        proof {
            crate::deep::lemma_dv_push(ob, out, tc);
            assert(out.deep_view() =~= orig.subrange(0, k + 1).map_values(
                |s: SnippetModel| trim_snippet(s),
            ));
        }
    }
    proof {
        assert(orig.subrange(0, orig.len() as int) =~= orig);
    }
    SearchResult { repository, path, url, license, snippets: out }
}

/// Parse a whole response text into structured search results. Total: every
/// input yields a (possibly empty) sequence of results, exactly the fold of
/// the line state machine with trailing blank snippet lines trimmed.
pub fn parse(text: &[u8]) -> (r: Vec<SearchResult>)
    ensures
        r.deep_view() == spec_parse(text@),
{
    let lines = split_lines(text);
    let ghost ldv = lines.deep_view();
    let repo_m = repo_marker_x();
    let path_m = path_marker_x();
    let url_m = url_marker_x();
    let license_m = license_marker_x();
    let snip_m = snip_marker_x();
    let dash_m = dashes_marker_x();
    let hdr_m = snippets_marker_x();

    let mut results: Vec<SearchResult> = Vec::new();
    let mut current: Option<SearchResult> = None;
    let mut snippet: Option<Snippet> = None;
    let mut in_snippet: bool = false;
    let mut i: usize = 0;
    proof {
        assert(st_of(results.deep_view(), current.deep_view(), snippet.deep_view(), in_snippet)
            =~~= run_to(ldv, 0));
    }
    while i < lines.len()
        invariant
            ldv == lines.deep_view(),
            repo_m@ == repo_marker(),
            path_m@ == path_marker(),
            url_m@ == url_marker(),
            license_m@ == license_marker(),
            snip_m@ == snip_marker(),
            dash_m@ == dashes_marker(),
            hdr_m@ == snippets_marker(),
            0 <= i <= lines@.len(),
            ldv.len() == lines@.len(),
            st_of(
                results.deep_view(),
                current.deep_view(),
                snippet.deep_view(),
                in_snippet,
            ) == run_to(ldv, i as int),
        decreases lines@.len() - i,
    {
        let ghost st = run_to(ldv, i as int);
        let line = &lines[i];
        proof {
            crate::deep::lemma_dv_index(lines, i as int);
            assert(lines@[i as int].deep_view() =~= lines@[i as int]@);
            assert(line@ == ldv[i as int]);
        }
        let line_len = line.len();
        if starts_with(line.as_slice(), repo_m.as_slice()) {
            flush_result(&mut results, &mut current, &mut snippet);
            current = Some(
                SearchResult {
                    repository: copy_range(line.as_slice(), 12, line_len),
                    path: Vec::new(),
                    url: Vec::new(),
                    license: Vec::new(),
                    snippets: Vec::new(),
                },
            );
            in_snippet = false;
            proof {
                assert(st_of(
                    results.deep_view(),
                    current.deep_view(),
                    snippet.deep_view(),
                    in_snippet,
                ) =~~= step(st, ldv[i as int]));
            }
        } else if starts_with(line.as_slice(), path_m.as_slice()) {
            current = match current {
                Some(mut r) => {
                    r.path = copy_range(line.as_slice(), 6, line_len);
                    Some(r)
                },
                None => None,
            };
            proof {
                assert(st_of(
                    results.deep_view(),
                    current.deep_view(),
                    snippet.deep_view(),
                    in_snippet,
                ) =~~= step(st, ldv[i as int]));
            }
        } else if starts_with(line.as_slice(), url_m.as_slice()) {
            current = match current {
                Some(mut r) => {
                    r.url = copy_range(line.as_slice(), 5, line_len);
                    Some(r)
                },
                None => None,
            };
            proof {
                assert(st_of(
                    results.deep_view(),
                    current.deep_view(),
                    snippet.deep_view(),
                    in_snippet,
                ) =~~= step(st, ldv[i as int]));
            }
        } else if starts_with(line.as_slice(), license_m.as_slice()) {
            current = match current {
                Some(mut r) => {
                    r.license = copy_range(line.as_slice(), 9, line_len);
                    Some(r)
                },
                None => None,
            };
            proof {
                assert(st_of(
                    results.deep_view(),
                    current.deep_view(),
                    snippet.deep_view(),
                    in_snippet,
                ) =~~= step(st, ldv[i as int]));
            }
        } else if starts_with(line.as_slice(), snip_m.as_slice()) && ends_with(
            line.as_slice(),
            dash_m.as_slice(),
        ) {
            current = match (current, snippet) {
                (Some(mut r), Some(s)) => {
                    let ghost sb = r.snippets;
                    let ghost sc = s;
                    r.snippets.push(s);
                    proof {
                        crate::deep::lemma_dv_push(sb, r.snippets, sc);
                    }
                    Some(r)
                },
                (c, _) => c,
            };
            snippet = Some(Snippet { start_line: parse_start_line(line.as_slice()), lines: Vec::new() });
            in_snippet = true;
            proof {
                assert(st_of(
                    results.deep_view(),
                    current.deep_view(),
                    snippet.deep_view(),
                    in_snippet,
                ) =~~= step(st, ldv[i as int]));
            }
        } else if eq_bytes(line.as_slice(), hdr_m.as_slice()) {
            proof {
                assert(st_of(
                    results.deep_view(),
                    current.deep_view(),
                    snippet.deep_view(),
                    in_snippet,
                ) =~~= step(st, ldv[i as int]));
            }
        } else if in_snippet {
            snippet = match snippet {
                Some(mut s) => {
                    let body = copy_range(line.as_slice(), 0, line_len);
                    proof {
                        assert(body@ =~= line@);
                    }
                    let ghost lb = s.lines;
                    let ghost bc = body;
                    s.lines.push(body);
                    proof {
                        crate::deep::lemma_dv_push(lb, s.lines, bc);
                    }
                    Some(s)
                },
                None => None,
            };
            proof {
                assert(st_of(
                    results.deep_view(),
                    current.deep_view(),
                    snippet.deep_view(),
                    in_snippet,
                ) =~~= step(st, ldv[i as int]));
            }
        } else {
            proof {
                assert(st_of(
                    results.deep_view(),
                    current.deep_view(),
                    snippet.deep_view(),
                    in_snippet,
                ) =~~= step(st, ldv[i as int]));
            }
        }
        i = i + 1;
    }
    flush_result(&mut results, &mut current, &mut snippet);
    proof {
        assert(results.deep_view() == parse_untrimmed(text@));
    }
    let ghost pre = results.deep_view();
    let mut rest = results;
    let mut out: Vec<SearchResult> = Vec::new();
    proof {
        assert(out.deep_view() =~= pre.subrange(0, 0).map_values(
            |r: SearchResultModel| trim_result(r),
        ));
        assert(rest.deep_view() =~= pre.subrange(0, pre.len() as int));
    }
    while rest.len() > 0
        invariant
            pre.len() == out.deep_view().len() + rest.deep_view().len(),
            out.deep_view() == pre.subrange(0, out.deep_view().len() as int).map_values(
                |r: SearchResultModel| trim_result(r),
            ),
            rest.deep_view() == pre.subrange(out.deep_view().len() as int, pre.len() as int),
        decreases rest@.len(),
    {
        let ghost k = out.deep_view().len() as int;
        let ghost rb = rest;
        let r = rest.remove(0);
        proof {
            crate::deep::lemma_dv_index(rb, 0);
            crate::deep::lemma_dv_remove_first(rb, rest);
            assert(r.deep_view() == pre[k]);
            assert(rest.deep_view() =~= pre.subrange(k + 1, pre.len() as int));
        }
        let t = trim_result_x(r);
        let ghost ob = out;
        let ghost tc = t;
        out.push(t);
        proof {
            crate::deep::lemma_dv_push(ob, out, tc);
            assert(out.deep_view() =~= pre.subrange(0, k + 1).map_values(
                |r: SearchResultModel| trim_result(r),
            ));
        }
    }
    proof {
        assert(pre.subrange(0, pre.len() as int) =~= pre);
    }
    out
}

// ------------------------------------------------------------------
// Laws of the parser
// ------------------------------------------------------------------

/// How many lines carry the `Repository: ` marker.
pub open spec fn count_repo(lines: Seq<Seq<u8>>) -> int
    decreases lines.len(),
{
    if lines.len() == 0 {
        0
    } else {
        count_repo(lines.drop_last()) + if is_prefix(repo_marker(), lines.last()) {
            1int
        } else {
            0int
        }
    }
}

/// 1 if a result is open, else 0.
pub open spec fn open_count(st: ParserState) -> int {
    if st.current is Some {
        1
    } else {
        0
    }
}

proof fn lemma_run_count(lines: Seq<Seq<u8>>, n: int)
    requires
        0 <= n <= lines.len(),
    ensures
        run_to(lines, n).done.len() + open_count(run_to(lines, n)) == count_repo(
            lines.subrange(0, n),
        ),
    decreases n,
{
    if n == 0 {
        assert(lines.subrange(0, 0) =~= Seq::<Seq<u8>>::empty());
    } else {
        lemma_run_count(lines, n - 1);
        assert(lines.subrange(0, n).drop_last() =~= lines.subrange(0, n - 1));
        assert(lines.subrange(0, n).last() == lines[n - 1]);
    }
}

/// Law: each `Repository: ` line starts exactly one result, and nothing else
/// starts one, so `parse` returns as many results as the input has
/// `Repository: ` lines.
pub proof fn lemma_result_count(text: Seq<u8>)
    ensures
        spec_parse(text).len() == count_repo(spec_lines(text)),
{
    let lines = spec_lines(text);
    lemma_run_count(lines, lines.len() as int);
    assert(lines.subrange(0, lines.len() as int) =~= lines);
}

proof fn lemma_count_zero(lines: Seq<Seq<u8>>)
    requires
        forall|i: int| 0 <= i < lines.len() ==> !is_prefix(repo_marker(), #[trigger] lines[i]),
    ensures
        count_repo(lines) == 0,
    decreases lines.len(),
{
    if lines.len() > 0 {
        assert(forall|i: int|
            0 <= i < lines.len() - 1 ==> #[trigger] lines.drop_last()[i] == lines[i]);
        lemma_count_zero(lines.drop_last());
        assert(lines.last() == lines[lines.len() - 1]);
    }
}

/// Law: an input without a single `Repository: ` line parses to no results
/// at all.
pub proof fn lemma_parse_empty_without_repository(text: Seq<u8>)
    requires
        forall|i: int|
            0 <= i < spec_lines(text).len() ==> !is_prefix(
                repo_marker(),
                #[trigger] spec_lines(text)[i],
            ),
    ensures
        spec_parse(text) == Seq::<SearchResultModel>::empty(),
{
    lemma_result_count(text);
    lemma_count_zero(spec_lines(text));
    assert(spec_parse(text) =~= Seq::<SearchResultModel>::empty());
}

proof fn lemma_trim_lines_no_blank(lines: Seq<Seq<u8>>)
    ensures
        trim_lines(lines).len() > 0 ==> trim_lines(lines).last().len() != 0,
    decreases lines.len(),
{
    if lines.len() > 0 && lines.last().len() == 0 {
        lemma_trim_lines_no_blank(lines.drop_last());
    }
}

/// Law: after the trim, no snippet of any parsed result ends in an empty
/// line; a snippet's line range `[start_line, start_line + lines.len())`
/// therefore never covers a trailing blank.
pub proof fn lemma_no_trailing_blank_line(text: Seq<u8>, ri: int, si: int)
    requires
        0 <= ri < spec_parse(text).len(),
        0 <= si < spec_parse(text)[ri].snippets.len(),
    ensures
        spec_parse(text)[ri].snippets[si].lines.len() > 0 ==> spec_parse(
            text,
        )[ri].snippets[si].lines.last().len() != 0,
{
    let pre = parse_untrimmed(text);
    assert(spec_parse(text)[ri] == trim_result(pre[ri]));
    assert(spec_parse(text)[ri].snippets[si] == trim_snippet(pre[ri].snippets[si]));
    lemma_trim_lines_no_blank(pre[ri].snippets[si].lines);
}

} // verus!
