//! Match locator: all non-overlapping, left-to-right occurrences of a query
//! within a line of text, as half-open byte ranges. In case-insensitive mode
//! the scan runs over the lowercase forms of both line and query, so the
//! ranges are byte offsets into the lowercased copy of the line; whenever
//! lowercasing keeps the line's byte length (ASCII always does) they are
//! thereby offsets into the original line as well.

use vstd::prelude::*;

verus! {

/// The Unicode lowercase form of a byte string: what `str::to_lowercase`
/// returns for UTF-8 text, the bytes themselves where they are not UTF-8.
pub uninterp spec fn lower_of(s: Seq<u8>) -> Seq<u8>;

/// Relies on `str::to_lowercase`: the Unicode lowercase of the text, a
/// function of the bytes alone. Bytes that are not valid UTF-8 come back
/// unchanged (the conversion's error arm).
#[verifier::external_body]
fn lower_bytes(s: &[u8]) -> (r: Vec<u8>)
    ensures
        r@ == lower_of(s@),
{
    match core::str::from_utf8(s) {
        Ok(t) => t.to_lowercase().into_bytes(),
        Err(_) => s.to_vec(),
    }
}

/// The query occurs at byte offset `i` of `line`, byte for byte.
pub open spec fn match_at(line: Seq<u8>, query: Seq<u8>, i: int) -> bool {
    &&& 0 <= i
    &&& i + query.len() <= line.len()
    &&& line.subrange(i, i + query.len() as int) == query
}

/// The first offset `j >= i` at which the (non-empty) query occurs, if any.
pub open spec fn first_match_from(line: Seq<u8>, query: Seq<u8>, i: int) -> Option<int>
    decreases line.len() - i,
{
    if query.len() == 0 || i < 0 || i + query.len() > line.len() {
        None
    } else if match_at(line, query, i) {
        Some(i)
    } else {
        first_match_from(line, query, i + 1)
    }
}

/// Greedy, non-overlapping scan from offset `i`: each occurrence found is
/// reported as the half-open byte range `[j, j + query.len())`, and the scan
/// resumes at the end of that occurrence.
pub open spec fn ranges_from(line: Seq<u8>, query: Seq<u8>, i: int) -> Seq<(usize, usize)>
    decreases line.len() - i,
{
    if query.len() == 0 || i < 0 {
        Seq::empty()
    } else {
        match first_match_from(line, query, i) {
            None => Seq::empty(),
            Some(j) => if i <= j && j + query.len() <= line.len() {
                seq![(j as usize, (j + query.len()) as usize)] + ranges_from(
                    line,
                    query,
                    j + query.len(),
                )
            } else {
                Seq::empty()
            },
        }
    }
}

/// All match ranges of `query` in `line`, byte for byte: empty for the
/// empty query, otherwise the greedy left-to-right scan from the start.
pub open spec fn spec_match_ranges(line: Seq<u8>, query: Seq<u8>) -> Seq<(usize, usize)> {
    ranges_from(line, query, 0)
}

/// What the match locator returns: nothing for the empty query; the exact
/// scan of the line in case-sensitive mode; the scan of the lowercase form
/// of the line for the lowercase form of the query otherwise, with offsets
/// into the lowercased copy.
pub open spec fn spec_matches(line: Seq<u8>, query: Seq<u8>, case_sensitive: bool) -> Seq<
    (usize, usize),
> {
    if query.len() == 0 {
        Seq::empty()
    } else if case_sensitive {
        spec_match_ranges(line, query)
    } else {
        spec_match_ranges(lower_of(line), lower_of(query))
    }
}

/// A found occurrence at `j`, with no occurrence in `[i, j)`, is the first
/// occurrence at or after `i`.
proof fn lemma_first_match_is(line: Seq<u8>, query: Seq<u8>, i: int, j: int)
    requires
        0 <= i <= j,
        query.len() > 0,
        match_at(line, query, j),
        forall|k: int| i <= k < j ==> !match_at(line, query, k),
    ensures
        first_match_from(line, query, i) == Some(j),
    decreases j - i,
{
    if i < j {
        lemma_first_match_is(line, query, i + 1, j);
    }
}

/// If no occurrence exists at or after `i`, the scan finds none.
proof fn lemma_first_match_none(line: Seq<u8>, query: Seq<u8>, i: int)
    requires
        0 <= i,
        query.len() > 0,
        forall|k: int| i <= k ==> !match_at(line, query, k),
    ensures
        first_match_from(line, query, i) is None,
    decreases line.len() - i,
{
    if i + query.len() <= line.len() {
        lemma_first_match_none(line, query, i + 1);
    }
}

proof fn lemma_ranges_from_within(line: Seq<u8>, query: Seq<u8>, i: int, k: int)
    requires
        0 <= i,
        line.len() <= usize::MAX,
        0 <= k < ranges_from(line, query, i).len(),
    ensures
        i <= ranges_from(line, query, i)[k].0,
        ranges_from(line, query, i)[k].0 <= ranges_from(line, query, i)[k].1,
        ranges_from(line, query, i)[k].1 <= line.len(),
    decreases line.len() - i,
{
    if query.len() != 0 {
        match first_match_from(line, query, i) {
            None => {},
            Some(j) => {
                lemma_first_match_in_range(line, query, i);
                if k > 0 {
                    lemma_ranges_from_within(line, query, j + query.len() as int, k - 1);
                }
            },
        }
    }
}

proof fn lemma_first_match_in_range(line: Seq<u8>, query: Seq<u8>, i: int)
    requires
        0 <= i,
        first_match_from(line, query, i) is Some,
    ensures
        i <= first_match_from(line, query, i)->Some_0,
        first_match_from(line, query, i)->Some_0 + query.len() <= line.len(),
    decreases line.len() - i,
{
    if !(query.len() == 0 || i + query.len() > line.len()) && !match_at(line, query, i) {
        lemma_first_match_in_range(line, query, i + 1);
    }
}

/// Law: every reported range is a well-formed half-open interval within the
/// scanned text. Case-sensitive matches are scanned over the line itself;
/// case-insensitive matches are this law at the lowercase copies, so
/// whenever lowercasing keeps the line's byte length the ranges lie within
/// the original line as well.
pub proof fn lemma_ranges_within(line: Seq<u8>, query: Seq<u8>, k: int)
    requires
        line.len() <= usize::MAX,
        0 <= k < spec_match_ranges(line, query).len(),
    ensures
        spec_match_ranges(line, query)[k].0 <= spec_match_ranges(line, query)[k].1,
        spec_match_ranges(line, query)[k].1 <= line.len(),
{
    lemma_ranges_from_within(line, query, 0, k);
}

/// Does the query occur at offset `at` of `line`, byte for byte?
fn is_match_at(line: &[u8], query: &[u8], at: usize) -> (r: bool)
    requires
        at + query@.len() <= line@.len(),
    ensures
        r == match_at(line@, query@, at as int),
{
    let n = line.len();
    let mut k: usize = 0;
    while k < query.len()
        invariant
            n == line@.len(),
            at + query@.len() <= line@.len(),
            0 <= k <= query@.len(),
            forall|t: int| 0 <= t < k ==> line@[at + t] == query@[t],
        decreases query@.len() - k,
    {
        if line[at + k] != query[k] {
            assert(line@.subrange(at as int, at + query@.len() as int)[k as int]
                == line@[at + k]);
            return false;
        }
        k = k + 1;
    }
    proof {
        assert(line@.subrange(at as int, at + query@.len() as int) =~= query@);
    }
    true
}

/// The greedy non-overlapping scan of `line` for `query`, byte for byte.
#[verifier::rlimit(30)]
fn scan_ranges(line: &[u8], query: &[u8]) -> (r: Vec<(usize, usize)>)
    ensures
        r@ == spec_match_ranges(line@, query@),
{
    let mut out: Vec<(usize, usize)> = Vec::new();
    if query.len() == 0 || query.len() > line.len() {
        proof {
            if query@.len() != 0 {
                lemma_first_match_none(line@, query@, 0);
            }
            assert(out@ =~= spec_match_ranges(line@, query@));
        }
        return out;
    }
    let last: usize = line.len() - query.len();
    let mut start: usize = 0;
    while start <= last
        invariant
            line@.len() <= usize::MAX,
            query@.len() >= 1,
            query@.len() <= line@.len(),
            last == line@.len() - query@.len(),
            0 <= start,
            start <= line@.len(),
            out@ + ranges_from(line@, query@, start as int) == spec_match_ranges(line@, query@),
        decreases line@.len() - start,
    {
        // scan for the first occurrence at or after `start`
        let mut j: usize = start;
        let mut found: bool = false;
        while j <= last && !found
            invariant
                line@.len() <= usize::MAX,
                query@.len() >= 1,
                last == line@.len() - query@.len(),
                start <= j <= last + 1,
                forall|k: int| start <= k < j ==> !match_at(line@, query@, k),
                found ==> j + query@.len() <= line@.len() && match_at(line@, query@, j as int),
            decreases line@.len() - j + (if found { 0int } else { 1int }),
        {
            if is_match_at(line, query, j) {
                found = true;
            } else {
                j = j + 1;
            }
        }
        if !found {
            proof {
                assert forall|k: int| start <= k implies !match_at(line@, query@, k) by {
                    if k < j {
                    } else {
                        assert(k + query@.len() > line@.len());
                    }
                }
                lemma_first_match_none(line@, query@, start as int);
                assert(ranges_from(line@, query@, start as int) =~= Seq::<
                    (usize, usize),
                >::empty());
                assert(out@ + Seq::<(usize, usize)>::empty() =~= out@);
                assert(out@ =~= spec_match_ranges(line@, query@));
            }
            return out;
        }
        proof {
            lemma_first_match_is(line@, query@, start as int, j as int);
            assert(ranges_from(line@, query@, start as int) == seq![
                (j, (j + query@.len()) as usize),
            ] + ranges_from(line@, query@, j + query@.len()));
        }
        let ghost old_out = out@;
        out.push((j, j + query.len()));
        proof {
            assert(out@ =~= old_out + seq![(j, (j + query@.len()) as usize)]);
            assert(out@ + ranges_from(line@, query@, j + query@.len()) =~= old_out
                + ranges_from(line@, query@, start as int));
        }
        start = j + query.len();
    }
    proof {
        assert forall|k: int| start <= k implies !match_at(line@, query@, k) by {
            assert(k + query@.len() > line@.len());
        }
        lemma_first_match_none(line@, query@, start as int);
        assert(ranges_from(line@, query@, start as int) =~= Seq::<(usize, usize)>::empty());
        assert(out@ + Seq::<(usize, usize)>::empty() =~= out@);
        assert(out@ =~= spec_match_ranges(line@, query@));
    }
    out
}

/// All non-overlapping occurrences of `query` in `line`, scanned greedily
/// from left to right as half-open byte ranges; the empty query yields no
/// ranges. With `case_sensitive` false the lowercase form of the query is
/// sought in the lowercase form of the line, and the offsets are those of
/// the lowercased copy.
pub fn match_byte_ranges(line: &[u8], query: &[u8], case_sensitive: bool) -> (r: Vec<
    (usize, usize),
>)
    ensures
        r@ == spec_matches(line@, query@, case_sensitive),
{
    if query.len() == 0 {
        let out: Vec<(usize, usize)> = Vec::new();
        proof {
            assert(out@ =~= spec_matches(line@, query@, case_sensitive));
        }
        return out;
    }
    if case_sensitive {
        scan_ranges(line, query)
    } else {
        let lower_line = lower_bytes(line);
        let lower_query = lower_bytes(query);
        scan_ranges(lower_line.as_slice(), lower_query.as_slice())
    }
}

} // verus!
