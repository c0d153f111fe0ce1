//! Small executable helpers over byte slices, with exact contracts: prefix
//! and suffix tests, equality, copies of subranges, and substring search.

use vstd::prelude::*;

use crate::matcher::{first_match_from, match_at};

verus! {

/// `p` is a prefix of `s`.
pub open spec fn is_prefix(p: Seq<u8>, s: Seq<u8>) -> bool {
    p.len() <= s.len() && s.subrange(0, p.len() as int) == p
}

/// `p` is a suffix of `s`.
pub open spec fn is_suffix(p: Seq<u8>, s: Seq<u8>) -> bool {
    p.len() <= s.len() && s.subrange(s.len() - p.len(), s.len() as int) == p
}

/// A prefix of `a` is a prefix of `a` with anything appended.
pub proof fn lemma_prefix_extend(p: Seq<u8>, a: Seq<u8>, b: Seq<u8>)
    requires
        is_prefix(p, a),
    ensures
        is_prefix(p, a + b),
{
    assert((a + b).subrange(0, p.len() as int) =~= a.subrange(0, p.len() as int));
}

/// Does `s` start with `p`?
pub fn starts_with(s: &[u8], p: &[u8]) -> (r: bool)
    ensures
        r == is_prefix(p@, s@),
{
    let n = s.len();
    if p.len() > n {
        return false;
    }
    let mut k: usize = 0;
    while k < p.len()
        invariant
            n == s@.len(),
            p@.len() <= s@.len(),
            0 <= k <= p@.len(),
            forall|t: int| 0 <= t < k ==> s@[t] == p@[t],
        decreases p@.len() - k,
    {
        if s[k] != p[k] {
            assert(s@.subrange(0, p@.len() as int)[k as int] != p@[k as int]);
            return false;
        }
        k = k + 1;
    }
    proof {
        assert(s@.subrange(0, p@.len() as int) =~= p@);
    }
    true
}

/// Does `s` end with `p`?
pub fn ends_with(s: &[u8], p: &[u8]) -> (r: bool)
    ensures
        r == is_suffix(p@, s@),
{
    let n = s.len();
    if p.len() > n {
        return false;
    }
    let off = n - p.len();
    let mut k: usize = 0;
    while k < p.len()
        invariant
            n == s@.len(),
            p@.len() <= s@.len(),
            off == s@.len() - p@.len(),
            0 <= k <= p@.len(),
            forall|t: int| 0 <= t < k ==> s@[off + t] == p@[t],
        decreases p@.len() - k,
    {
        if s[off + k] != p[k] {
            assert(s@.subrange(s@.len() - p@.len(), s@.len() as int)[k as int] == s@[off + k]);
            return false;
        }
        k = k + 1;
    }
    proof {
        assert(s@.subrange(s@.len() - p@.len(), s@.len() as int) =~= p@);
    }
    true
}

/// Are the two byte strings equal?
pub fn eq_bytes(s: &[u8], p: &[u8]) -> (r: bool)
    ensures
        r == (s@ == p@),
{
    if s.len() != p.len() {
        proof {
            assert(s@ != p@);
        }
        return false;
    }
    let r = starts_with(s, p);
    proof {
        assert(s@.subrange(0, p@.len() as int) =~= s@);
    }
    r
}

/// A copy of `s[from..to]` as an owned vector.
pub fn copy_range(s: &[u8], from: usize, to: usize) -> (r: Vec<u8>)
    requires
        from <= to <= s@.len(),
    ensures
        r@ == s@.subrange(from as int, to as int),
{
    vstd::slice::slice_to_vec(&s[from..to])
}

/// The first occurrence of `p` at or after `from` in `s`, as a byte offset.
pub fn find_sub(s: &[u8], p: &[u8], from: usize) -> (r: Option<usize>)
    requires
        p@.len() >= 1,
    ensures
        match r {
            Some(j) => from <= j && j + p@.len() <= s@.len() && first_match_from(
                s@,
                p@,
                from as int,
            ) == Some(j as int),
            None => first_match_from(s@, p@, from as int) is None,
        },
{
    let n = s.len();
    if p.len() > n || from > n - p.len() {
        proof {
            lemma_no_match_tail(s@, p@, from as int, from as int);
        }
        return None;
    }
    let last = n - p.len();
    let mut j: usize = from;
    while j <= last
        invariant
            n == s@.len(),
            p@.len() >= 1,
            p@.len() <= s@.len(),
            last == s@.len() - p@.len(),
            from <= j <= last + 1,
            forall|k: int| from <= k < j ==> !match_at(s@, p@, k),
        decreases last - j + 1,
    {
        if sub_eq_at(s, p, j) {
            proof {
                lemma_first_is(s@, p@, from as int, j as int);
            }
            return Some(j);
        }
        j = j + 1;
    }
    proof {
        lemma_no_match_tail(s@, p@, from as int, j as int);
    }
    None
}

/// Does `p` occur at offset `at` of `s`, byte for byte?
fn sub_eq_at(s: &[u8], p: &[u8], at: usize) -> (r: bool)
    requires
        at + p@.len() <= s@.len(),
    ensures
        r == match_at(s@, p@, at as int),
{
    let n = s.len();
    let mut k: usize = 0;
    while k < p.len()
        invariant
            n == s@.len(),
            at + p@.len() <= s@.len(),
            0 <= k <= p@.len(),
            forall|t: int| 0 <= t < k ==> s@[at + t] == p@[t],
        decreases p@.len() - k,
    {
        if s[at + k] != p[k] {
            proof {
                assert(s@.subrange(at as int, at + p@.len() as int)[k as int] == s@[at + k]);
            }
            return false;
        }
        k = k + 1;
    }
    proof {
        assert(s@.subrange(at as int, at + p@.len() as int) =~= p@);
    }
    true
}

/// A match found at `j`, none earlier: `j` is the first from `i`.
proof fn lemma_first_is(s: Seq<u8>, p: Seq<u8>, i: int, j: int)
    requires
        0 <= i <= j,
        p.len() > 0,
        match_at(s, p, j),
        forall|k: int| i <= k < j ==> !match_at(s, p, k),
    ensures
        first_match_from(s, p, i) == Some(j),
    decreases j - i,
{
    if i < j {
        lemma_first_is(s, p, i + 1, j);
    }
}

/// No match from `i` up to `j`, and none can fit beyond `j`: no match at all.
proof fn lemma_no_match_tail(s: Seq<u8>, p: Seq<u8>, i: int, j: int)
    requires
        0 <= i <= j,
        p.len() > 0,
        j + p.len() > s.len(),
        forall|k: int| i <= k < j ==> !match_at(s, p, k),
    ensures
        first_match_from(s, p, i) is None,
    decreases j - i,
{
    if i < j {
        assert(!match_at(s, p, i));
        lemma_no_match_tail(s, p, i + 1, j);
    }
}

} // verus!
