use grep_app_cli::match_byte_ranges;

#[test]
fn empty_line_has_no_matches() {
    assert_eq!(match_byte_ranges(b"", b"x", true), Vec::<(usize, usize)>::new());
}

#[test]
fn greedy_left_to_right_non_overlapping() {
    assert_eq!(match_byte_ranges(b"abcabc", b"abc", true), vec![(0, 3), (3, 6)]);
}

#[test]
fn case_insensitive_covers_both_casings() {
    assert_eq!(match_byte_ranges(b"ABCabc", b"abc", false), vec![(0, 3), (3, 6)]);
}

#[test]
fn case_sensitive_rejects_other_casing() {
    assert_eq!(match_byte_ranges(b"ABC", b"abc", true), Vec::<(usize, usize)>::new());
}

#[test]
fn empty_query_matches_nothing() {
    assert_eq!(match_byte_ranges(b"abc", b"", true), Vec::<(usize, usize)>::new());
    assert_eq!(match_byte_ranges(b"abc", b"", false), Vec::<(usize, usize)>::new());
}

#[test]
fn overlapping_occurrences_resume_after_match_end() {
    assert_eq!(match_byte_ranges(b"aaaa", b"aa", true), vec![(0, 2), (2, 4)]);
    assert_eq!(match_byte_ranges(b"aaa", b"aa", true), vec![(0, 2)]);
}

#[test]
fn match_in_the_middle() {
    assert_eq!(match_byte_ranges(b"xxabcyy", b"abc", true), vec![(2, 5)]);
}

#[test]
fn query_longer_than_line_matches_nothing() {
    assert_eq!(match_byte_ranges(b"ab", b"abc", true), Vec::<(usize, usize)>::new());
}

#[test]
fn mixed_case_query_is_folded_too() {
    assert_eq!(match_byte_ranges(b"abc", b"ABC", false), vec![(0, 3)]);
}

#[test]
fn non_ascii_bytes_are_compared_verbatim() {
    let line = "cafécafé".as_bytes();
    let query = "café".as_bytes();
    assert_eq!(match_byte_ranges(line, query, true), vec![(0, 5), (5, 10)]);
}

#[test]
fn case_insensitive_covers_non_ascii_casings() {
    // E acute: upper C3 89, lower C3 A9; both two bytes, so the offsets of
    // the lowered copy are offsets of the original line too
    let line = "\u{c9}".as_bytes();
    let query = "\u{e9}".as_bytes();
    assert_eq!(match_byte_ranges(line, query, false), vec![(0, 2)]);
    assert_eq!(match_byte_ranges(query, line, false), vec![(0, 2)]);
    assert_eq!(match_byte_ranges(line, query, true), Vec::<(usize, usize)>::new());
}

#[test]
fn case_insensitive_offsets_follow_the_lowered_copy() {
    // capital sharp s (three bytes) lowers to sharp s (two bytes): the
    // reported range is a byte range of the lowered copy
    let line = "\u{1e9e}".as_bytes();
    let query = "\u{df}".as_bytes();
    assert_eq!(line.len(), 3);
    assert_eq!(query.len(), 2);
    assert_eq!(match_byte_ranges(line, query, false), vec![(0, 2)]);
}

#[test]
fn bytes_that_are_not_utf8_match_verbatim_in_either_mode() {
    let line = [0xff, 0x41, 0xff];
    assert_eq!(match_byte_ranges(&line, &[0xff], true), vec![(0, 1), (2, 3)]);
    assert_eq!(match_byte_ranges(&line, &[0xfe], false), Vec::<(usize, usize)>::new());
}
